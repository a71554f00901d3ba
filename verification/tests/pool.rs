use ganet::util::rank_of_draw;
use ganet::ga::GA;
use ganet::gapool::{GaPool, GaSettings, Opts};
use ganet::gene::{Allele, Gene};
use ganet::link::Link;
use ganet::net::Net;
use ganet::node::Node;
use ganet::table::Table;

type Pool = GA<f32, f64>;

fn settings(max_pool_size: u32, lead_size: usize) -> GaSettings<f32> {
    GaSettings { max_pool_size, max_exp_count: 10.0, lead_size }
}

fn opts() -> Opts<f32> {
    Opts { mrate: 0.1, samples: 10, lead_size: 10, tset_slice: 10, vset_slice: 10 }
}

fn scored_net(score: f32) -> Net<f32> {
    let mut n: Net<f32> = Net::new();
    n.score = score;
    n.nodes.insert("a".to_string(), Node::new(true, false));
    n
}

fn allele(avg: f32, node: Node<f32>) -> Allele<f32, f64> {
    Allele { tot_score: 0.0, avg_score: avg, exp_count: 0.0, count: 0, score_history: vec![], node }
}

fn node_linking(targets: &[&str], allele: u32) -> Node<f32> {
    let mut n: Node<f32> = Node::new(false, false);
    for t in targets {
        let mut l: Link<f32> = Link::new(t.to_string());
        l.delay = 1;
        n.links.push(l);
    }
    n.allele = Some(allele);
    n
}

#[test]
fn new_pool_settings() {
    let ga: Pool = GA::new();
    assert_eq!(ga.lead_size, 100);
    assert_eq!(ga.max_pool_size, 10);
    assert_eq!(ga.max_exp_count, 10.0);
    assert_eq!(ga.exp_count, 0);
    assert_eq!(ga.rec_count, 0);
    assert!(!ga.has_leader());
    assert!(!ga.is_initialized());
    assert_eq!(ga.size(), (0, 0));
}

#[test]
fn genes_are_added_by_name() {
    let mut ga: Pool = GA::new();
    ga.add_gene(&"g".to_string());
    assert!(ga.has_gene(&"g".to_string()));
    assert!(!ga.has_gene(&"h".to_string()));
    assert!(ga.is_initialized());
    assert_eq!(ga.size(), (1, 0));
}

#[test]
fn next_id_counts_up() {
    let mut ga: Pool = GA::new();
    assert_eq!(ga.next_id(), 0);
    assert_eq!(ga.next_id(), 1);
    assert_eq!(ga.next_id(), 2);
    assert_eq!(ga.exp_count, 3);
}

#[test]
fn leaderboard_keeps_best_first() {
    let mut ga: Pool = GA::new();
    ga.lead_size = 3;
    assert_eq!(ga.rank_net(&scored_net(0.5)), 1);
    assert_eq!(ga.rank_net(&scored_net(0.7)), 2);
    // Not above the worst entry: left out.
    assert_eq!(ga.rank_net(&scored_net(0.4)), 3);
    assert_eq!(ga.rank_net(&scored_net(0.6)), 4);
    let scores: Vec<f32> = ga.leaderboard.iter().map(|n| n.score).collect();
    assert_eq!(scores, vec![0.7, 0.6, 0.5]);
    // A score already on the board is not added twice.
    ga.rank_net(&scored_net(0.6));
    assert_eq!(ga.leaderboard.len(), 3);
    // A better one pushes the last out.
    ga.rank_net(&scored_net(0.9));
    let scores: Vec<f32> = ga.leaderboard.iter().map(|n| n.score).collect();
    assert_eq!(scores, vec![0.9, 0.7, 0.6]);
    assert!(ga.has_leader());
    assert_eq!(ga.rec_count, 6);
    assert_eq!(ga.leaderboard[0].nodes.len(), 1);
}

#[test]
fn best_score_never_drops() {
    let mut ga: Pool = GA::new();
    ga.lead_size = 2;
    let mut best = f32::MIN;
    for s in [0.3f32, 0.1, 0.8, 0.2, 0.8, 0.5, 0.9, 0.0] {
        ga.rank_net(&scored_net(s));
        let first = ga.leaderboard[0].score;
        assert!(first >= best);
        best = first;
        assert!(ga.leaderboard.len() <= 2);
    }
    assert_eq!(best, 0.9);
}

#[test]
fn recent_scores_ring() {
    let mut ga: Pool = GA::new();
    for i in 0..502 {
        ga.rank_net(&scored_net(i as f32));
    }
    assert_eq!(ga.last_100.len(), 500);
    assert_eq!(ga.last_100_i, 2);
    assert_eq!(ga.last_100[0], 500.0);
    assert_eq!(ga.last_100[1], 501.0);
    assert_eq!(ga.last_100[2], 2.0);
}

#[test]
fn identify_registers_then_matches() {
    let mut gene: Gene<f32, f64> = Gene { received_alleles: 0, alleles: Table::new() };
    let mut n = node_linking(&["b"], 0);
    n.allele = None;
    gene.identify(&mut n);
    let id = n.allele.expect("registered");
    assert!(id < 999_999_999);
    assert_eq!(gene.size(), 1);
    assert_eq!(gene.received_alleles, 1);
    assert!(gene.has(&Some(id)));
    let stored = gene.alleles.get(&id).unwrap();
    assert_eq!(stored.node.allele, Some(id));
    assert_eq!(stored.count, 0);
    assert_eq!(stored.avg_score, 0.0);

    // An equivalent node without an id gets the same allele.
    let mut twin = node_linking(&["b"], 0);
    twin.allele = None;
    twin.score = 5.0;
    gene.identify(&mut twin);
    assert_eq!(twin.allele, Some(id));
    assert_eq!(gene.size(), 1);
    assert_eq!(gene.received_alleles, 1);

    // A different node with its own id is stored under it.
    let mut other = node_linking(&["c"], 77);
    gene.identify(&mut other);
    assert_eq!(other.allele, Some(77));
    assert_eq!(gene.size(), 2);
    assert_eq!(gene.received_alleles, 2);
}

#[test]
fn known_id_is_kept() {
    let mut gene: Gene<f32, f64> = Gene { received_alleles: 4, alleles: Table::new() };
    gene.alleles.insert(9, allele(0.5, node_linking(&[], 9)));
    let mut n = node_linking(&["z"], 9);
    gene.identify(&mut n);
    assert_eq!(n.allele, Some(9));
    assert_eq!(gene.received_alleles, 4);
    assert_eq!(gene.size(), 1);
}

#[test]
fn prune_evicts_lowest_scores() {
    let mut gene: Gene<f32, f64> = Gene { received_alleles: 0, alleles: Table::new() };
    gene.alleles.insert(1, allele(0.5, Node::new(false, false)));
    gene.alleles.insert(2, allele(0.1, Node::new(false, false)));
    gene.alleles.insert(3, allele(0.9, Node::new(false, false)));
    gene.alleles.insert(4, allele(0.3, Node::new(false, false)));
    gene.prune(2);
    assert_eq!(gene.size(), 2);
    assert!(gene.alleles.contains_key(&1));
    assert!(gene.alleles.contains_key(&3));
    gene.prune(5);
    assert_eq!(gene.size(), 2);
    gene.prune(0);
    assert_eq!(gene.size(), 0);
}

#[test]
fn ranking_is_best_first() {
    let mut gene: Gene<f32, f64> = Gene { received_alleles: 0, alleles: Table::new() };
    gene.alleles.insert(1, allele(0.5, Node::new(false, false)));
    gene.alleles.insert(2, allele(0.1, Node::new(false, false)));
    gene.alleles.insert(3, allele(0.9, Node::new(false, false)));
    gene.alleles.insert(4, allele(0.5, Node::new(false, false)));
    let r = gene.ranking();
    assert_eq!(r, vec![(3, 0.9), (1, 0.5), (4, 0.5), (2, 0.1)]);
}

#[test]
fn select_draws_an_allele() {
    let mut gene: Gene<f32, f64> = Gene { received_alleles: 0, alleles: Table::new() };
    gene.alleles.insert(1, allele(0.5, node_linking(&[], 1)));
    gene.alleles.insert(2, allele(0.9, node_linking(&[], 2)));
    let mut best = 0;
    for _ in 0..200 {
        let a = gene.select();
        assert!(a.node.allele == Some(1) || a.node.allele == Some(2));
        if a.node.allele == Some(2) {
            best += 1;
        }
    }
    // The better allele is drawn at rank 0 with chance 2^(-1/3) > 0.79.
    assert!(best > 100);
}

#[test]
fn skewed_ranks_stay_in_range() {
    for len in 1..20usize {
        for _ in 0..50 {
            assert!(ganet::util::skewed_rank(len) < len);
        }
    }
    assert_eq!(ganet::util::skewed_rank(1), 0);
}

#[test]
fn ranks_of_draws() {
    assert_eq!(rank_of_draw(0, 10), 0);
    assert_eq!(rank_of_draw(0xF_FFFF, 10), 9);
    // Half the draws fall in the first eighth of the ranks.
    assert_eq!(rank_of_draw(0x7_FFFF, 8), 0);
    assert_eq!(rank_of_draw(0x8_0000, 8), 1);
    assert_eq!(rank_of_draw(0x8_0000, 1000), 125);
    let mut last = 0;
    for u in (0..0x10_0000u32).step_by(4099) {
        let r = rank_of_draw(u, 1000);
        assert!(r >= last);
        last = r;
    }
}

fn closed_pool() -> Pool {
    let mut ga: Pool = GA::new();
    for name in ["in", "h", "out"] {
        ga.add_gene(&name.to_string());
    }
    ganet::util::gmut(&mut ga.genes, &"in".to_string())
        .alleles
        .insert(1, allele(0.4, node_linking(&["h"], 1)));
    ganet::util::gmut(&mut ga.genes, &"h".to_string())
        .alleles
        .insert(2, allele(0.4, node_linking(&["out"], 2)));
    ganet::util::gmut(&mut ga.genes, &"out".to_string())
        .alleles
        .insert(3, allele(0.4, node_linking(&[], 3)));
    ga
}

#[test]
fn dependencies_are_built() {
    let ga = closed_pool();
    assert!(ga.can_expand(&"in".to_string()));
    let mut nodes: Table<String, Node<f32>> = Table::new();
    ga.get_with_dependencies(&"in".to_string(), &mut nodes);
    assert_eq!(nodes.len(), 3);
    assert_eq!(nodes.get(&"h".to_string()).unwrap().allele, Some(2));
    assert_eq!(nodes.get(&"in".to_string()).unwrap().links[0].out, "h");
    // Names already present are left alone.
    let mut pre: Table<String, Node<f32>> = Table::new();
    pre.insert("h".to_string(), Node::new(false, false));
    ga.get_with_dependencies(&"in".to_string(), &mut pre);
    assert_eq!(pre.len(), 2);
    assert!(pre.get(&"h".to_string()).unwrap().allele.is_none());
}

#[test]
fn expansion_needs_known_genes() {
    let mut ga = closed_pool();
    assert!(!ga.can_expand(&"nope".to_string()));
    ga.add_gene(&"empty".to_string());
    assert!(!ga.can_expand(&"empty".to_string()));
    ganet::util::gmut(&mut ga.genes, &"h".to_string())
        .alleles
        .insert(5, allele(0.1, node_linking(&["missing"], 5)));
    assert!(!ga.can_expand(&"in".to_string()));
    assert!(ga.can_expand(&"out".to_string()));
}

#[test]
fn nets_built_from_pool() {
    let ga = closed_pool();
    let input = vec!["in".to_string(), "x".to_string()];
    let output = vec!["out".to_string(), "y".to_string()];
    let net = Net::from_ga(&ga, &input, &output);
    assert_eq!(net.nodes.len(), 5);
    assert_eq!(net.time, 0);
    let x = net.nodes.get(&"x".to_string()).unwrap();
    assert!(x.is_input && !x.is_output && x.threshold == 0.0);
    let y = net.nodes.get(&"y".to_string()).unwrap();
    assert!(!y.is_input && y.is_output && y.threshold == 1.0);
    assert_eq!(net.nodes.get(&"out".to_string()).unwrap().allele, Some(3));
}

#[test]
fn pool_routes_records_by_slice() {
    let mut pool: GaPool<f32, f64> = GaPool::new(&settings(10, 10), &opts());
    assert_eq!(pool.record_target(0), Some(0));
    assert_eq!(pool.record_target(1), None);
    pool.cur_vset = 3;
    pool.old_vset = 2;
    pool.gas.push(GaPool::gen_ga(&settings(10, 10)));
    assert_eq!(pool.record_target(3), Some(1));
    assert_eq!(pool.record_target(2), Some(0));
    assert_eq!(pool.record_target(1), None);
    pool.gas.remove(0);
    assert_eq!(pool.record_target(2), None);
}

#[test]
fn slices_wrap_round() {
    let mut pool: GaPool<f32, f64> = GaPool::new(&settings(10, 10), &opts());
    assert_eq!(pool.next_vset(40_000, 10_000), 1);
    pool.cur_vset = 3;
    assert_eq!(pool.next_vset(40_000, 10_000), 0);
    assert!(pool.rand_vset(40_000, 10_000) < 4);
    let mut seen = vec![pool.cur_vset];
    for _ in 0..4 {
        let s = settings(10, 10);
        pool.incr_vset(40_000, 10_000, &s);
        seen.push(pool.cur_vset);
    }
    assert_eq!(seen, vec![3, 0, 1, 2, 3]);
    assert_eq!(pool.old_vset, 2);
    assert_eq!(pool.gas.len(), 5);
}

#[test]
fn switch_and_overfitting() {
    let mut pool: GaPool<f32, f64> = GaPool::new(&settings(10, 10), &opts());
    assert!(!pool.is_switching());
    assert!(!pool.is_switch_complete(0));
    assert!(!pool.is_overfitting(1, 1));
    pool.gas[0].rank_net(&scored_net(0.5));
    assert!(!pool.is_overfitting(1, 1));
    pool.gas[0].rank_net(&scored_net(0.6));
    assert!(pool.is_overfitting(1, 1));
    // Overfitting starts a move to the next slice.
    pool.fix_overfitting(200, 1, 1, 30_000, 10_000, &settings(7, 3));
    assert_eq!(pool.gas.len(), 2);
    assert_eq!(pool.cur_vset, 1);
    assert_eq!(pool.old_vset, 0);
    assert_eq!(pool.dst().max_pool_size, 7);
    assert!(pool.is_switching());
    assert!(!pool.is_overfitting(1, 1));
    // The move completes once the new pool has recorded enough.
    for s in 0..3 {
        pool.gas[1].rank_net(&scored_net(s as f32));
    }
    assert!(pool.is_switch_complete(2));
    pool.fix_overfitting(2, 100, 100, 30_000, 10_000, &settings(7, 3));
    assert_eq!(pool.gas.len(), 1);
    assert_eq!(pool.src().rec_count, 3);
    assert_eq!(pool.cur_vset, 1);
}

#[test]
fn pools_settings_and_ids() {
    let mut pool: GaPool<f32, f64> = GaPool::new(&settings(4, 6), &opts());
    assert_eq!(pool.src().max_pool_size, 4);
    assert_eq!(pool.src().lead_size, 6);
    assert!(!pool.debug);
    assert_eq!(pool.gen_exp_id(), 0);
    assert_eq!(pool.gen_exp_id(), 1);
    let o = Opts { mrate: 0.3, samples: 2, lead_size: 1, tset_slice: 5, vset_slice: 6 };
    pool.reconfigure(&o);
    assert_eq!(pool.mrate, 0.3);
    assert_eq!(pool.samples, 2);
    assert_eq!(pool.vset_slice, 6);
    assert_eq!(pool.src_size(), (0, 0));
    assert_eq!(pool.dst_size(), (0, 0));
    let mut ga: Pool = GA::new();
    GaPool::<f32, f64>::reconfig_ga(&mut ga, &settings(2, 3));
    assert_eq!(ga.max_pool_size, 2);
    assert_eq!(ga.lead_size, 3);
}

#[test]
fn generated_nets_carry_the_slice() {
    let mut pool: GaPool<f32, f64> = GaPool::new(&settings(10, 10), &opts());
    pool.cur_vset = 4;
    let net = pool.gen_net(&vec!["i".to_string()], &vec!["o".to_string()]);
    assert_eq!(net.vset, 4);
    assert_eq!(net.nodes.len(), 2);
}

#[test]
fn oldest_pool_is_copied() {
    let mut pool: GaPool<f32, f64> = GaPool::new(&settings(10, 10), &opts());
    pool.gas[0] = closed_pool();
    pool.gas[0].lead_size = 3;
    pool.gas[0].rank_net(&scored_net(0.5));
    pool.gas[0].next_id();
    let copy = pool.cloned_src();
    let src = &pool.gas[0];
    assert_eq!(copy.genes.len(), 3);
    assert_eq!(copy.exp_count, src.exp_count);
    assert_eq!(copy.rec_count, 1);
    assert_eq!(copy.leaderboard.len(), 1);
    assert_eq!(copy.leaderboard[0].score, 0.5);
    let h = copy.genes.get(&"h".to_string()).unwrap();
    let a = h.alleles.get(&2).unwrap();
    assert_eq!(a.avg_score, 0.4);
    assert_eq!(a.node.links[0].out, "out");
    assert_eq!(a.node.allele, Some(2));
}
