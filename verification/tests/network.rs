use ganet::mutate::{pick_mutation, MutationKind};
use ganet::link::Link;
use ganet::net::Net;
use ganet::node::Node;
use ganet::table::Table;

fn link(out: &str, weight: f32, delay: u32) -> Link<f32> {
    let mut l: Link<f32> = Link::new(out.to_string());
    l.weight = weight;
    l.delay = delay;
    l
}

fn node_of<'a>(net: &'a Net<f32>, name: &str) -> &'a Node<f32> {
    net.nodes.get(&name.to_string()).expect("node present")
}

/// x (input) links to y (output, threshold 0.1) with weight 2 and delay 2;
/// y links to itself with weight 1 and delay 1.
fn two_node_net() -> Net<f32> {
    let mut net: Net<f32> = Net::new();
    net.nodes.insert("x".to_string(), Node::new(true, false));
    net.nodes.insert("y".to_string(), Node::new(false, true));
    net.node(&"x".to_string()).links.push(link("y", 2.0, 2));
    {
        let y = net.node(&"y".to_string());
        y.threshold = 0.1;
        y.links.push(link("y", 1.0, 1));
    }
    net
}

#[test]
fn new_nodes_by_role() {
    let input: Node<f32> = Node::new(true, false);
    let hidden: Node<f32> = Node::new(false, false);
    assert_eq!(input.threshold, 0.0);
    assert_eq!(hidden.threshold, 1.0);
    assert_eq!(input.value, 0.0);
    assert!(input.allele.is_none());
    assert!(input.links.is_empty());
    assert!(input.is_terminal());
}

#[test]
fn fresh_link_defaults() {
    let l: Link<f32> = Link::new("out".to_string());
    assert_eq!(l.out, "out");
    assert_eq!(l.weight, 1.0);
    assert_eq!(l.score, 0.0);
    assert_eq!(l.delay, 2);
}

#[test]
fn activation_is_capped_square_of_excess() {
    let mut n: Node<f32> = Node::new(false, false);
    n.value = 1.5;
    assert_eq!(n.activated(), 0.25);
    n.value = 3.0;
    assert_eq!(n.activated(), 1.0);
    n.value = 0.5;
    assert_eq!(n.activated(), 0.0);
    n.value = 1.0;
    assert_eq!(n.activated(), 0.0);
    let mut exact: Node<i64> = Node::new(false, false);
    exact.value = 3;
    assert_eq!(exact.activated(), 1);
}

#[test]
fn activation_never_above_one() {
    let mut n: Node<f32> = Node::new(false, false);
    for v in [-3.0f32, 0.0, 1.2, 1.9, 2.0, 7.5, 100.0] {
        n.value = v;
        let a = n.activated();
        assert!(a <= 1.0);
        assert!(a >= 0.0);
    }
}

#[test]
fn nodes_equal_by_allele() {
    let mut a: Node<f32> = Node::new(true, false);
    let mut b: Node<f32> = Node::new(false, true);
    assert!(a == b);
    a.allele = Some(3);
    assert!(a != b);
    b.allele = Some(3);
    assert!(a == b);
}

#[test]
fn equivalence_ignores_allele_and_scores() {
    let mut a: Node<f32> = Node::new(false, false);
    let mut b: Node<f32> = Node::new(false, false);
    a.links.push(link("t", 0.5, 3));
    b.links.push(link("t", 0.5, 3));
    a.allele = Some(1);
    b.score = 9.0;
    assert!(a.is_equivalent_to(&b));
    b.links[0].delay = 4;
    assert!(!a.is_equivalent_to(&b));
}

#[test]
fn node_reset_and_score_reset() {
    let mut n: Node<f32> = Node::new(false, false);
    n.reset = -0.5;
    n.value = 2.0;
    n.last_fired = 7;
    n.reset();
    assert_eq!(n.value, -0.5);
    assert_eq!(n.last_fired, 0);
    n.score = 4.0;
    n.links.push(link("a", 1.0, 1));
    n.links[0].score = 3.0;
    n.reset_score();
    assert_eq!(n.score, 0.0);
    assert_eq!(n.links[0].score, 0.0);
}

#[test]
fn link_mutations() {
    let mut n: Node<f32> = Node::new(false, false);
    n.allele = Some(5);
    assert!(!n.mut_link_del());
    assert!(!n.mut_link_delay());
    assert!(!n.mut_link_weight(0.1, 1.0));
    assert_eq!(n.allele, Some(5));
    assert!(n.mut_link_new("a".to_string()));
    assert_eq!(n.links.len(), 1);
    assert_eq!(n.links[0].out, "a");
    assert_eq!(n.allele, Some(5));
    n.links[0].delay = 10;
    assert!(n.mut_link_delay());
    assert!(n.links[0].delay >= 7 && n.links[0].delay <= 12);
    assert!(n.allele.is_none());
    n.mut_link_new("b".to_string());
    n.links[0].score = 5.0;
    n.links[1].score = 1.0;
    n.links[1].weight = 2.0;
    assert!(n.mut_link_weight(1.0, 0.5));
    assert_eq!(n.links[1].weight, 1.5);
    assert_eq!(n.links[0].weight, 1.0);
    assert!(n.mut_link_del());
    assert_eq!(n.links.len(), 1);
}

#[test]
fn duplicate_copies_every_field() {
    let mut n: Node<f32> = Node::new(false, true);
    n.allele = Some(11);
    n.links.push(link("q", 0.25, 4));
    n.score = 2.5;
    let d = n.duplicate();
    assert_eq!(d.allele, Some(11));
    assert_eq!(d.links.len(), 1);
    assert_eq!(d.links[0].out, "q");
    assert_eq!(d.links[0].weight, 0.25);
    assert_eq!(d.links[0].delay, 4);
    assert_eq!(d.score, 2.5);
    assert!(d.is_output);
}

#[test]
fn signals_queue_in_arrival_order() {
    let mut net: Net<f32> = Net::new();
    net.signal(3, "a".to_string(), 1.0);
    net.signal(3, "b".to_string(), 2.0);
    net.signal(5, "a".to_string(), 4.0);
    let at3 = net.actions.get(&3).expect("tick 3");
    assert_eq!(at3.len(), 2);
    assert_eq!(at3[0], (1.0, "a".to_string()));
    assert_eq!(at3[1], (2.0, "b".to_string()));
    assert_eq!(net.actions.get(&5).unwrap().len(), 1);
    assert!(net.actions.get(&4).is_none());
}

#[test]
fn scoring_scenario() {
    let mut net = two_node_net();
    net.reset();
    net.signal(0, "x".to_string(), 0.2);
    assert_eq!(0.0, net.value_of(&"y".to_string()));
    assert_eq!(0.0, net.value_of(&"x".to_string()));
    assert!(net.runnable(1));
    let active = net.cycle(1, false).expect("the tick can run");
    assert!(active.is_empty());
    // x fired 0.2^2 = 0.04, which reaches y at tick 2 scaled by 2.
    assert_eq!(0.0, net.value_of(&"x".to_string()));
    assert_eq!(0.0, net.value_of(&"y".to_string()));
    assert_eq!(1, net.actions.len());
    let due = net.actions.get(&2).unwrap();
    assert_eq!(due.len(), 1);
    assert!((due[0].0 - 0.08).abs() < 1e-6);
    assert_eq!(due[0].1, "y");
    let active = net.cycle(2, false).expect("the ticks can run");
    assert!(active.is_empty());
    assert_eq!(net.time, 3);
    // 0.08 does not pass y's threshold of 0.1: y keeps it and stays quiet.
    assert!((net.value_of(&"y".to_string()) - 0.08).abs() < 1e-6);
    assert_eq!(0, net.actions.len());
}

#[test]
fn output_fires_and_cycle_stops_on_trigger() {
    let mut net = two_node_net();
    net.signal(0, "x".to_string(), 1.0);
    assert!(net.runnable(10));
    let active = net.cycle(10, true).expect("the ticks can run");
    // x emits 1.0 * 2 = 2.0 to y at tick 2; y passes 0.1 and fires.
    assert_eq!(net.time, 3);
    assert_eq!(active.len(), 1);
    let y = active.get(&"y".to_string()).unwrap();
    assert_eq!(y.value, 2.0);
    assert_eq!(net.value_of(&"y".to_string()), 0.0);
    assert_eq!(node_of(&net, "y").last_fired, 2);
    // y's self link brings min((2.0-0.1)^2, 1) = 1 at tick 3.
    assert_eq!(net.actions.get(&3).unwrap()[0], (1.0, "y".to_string()));
}

#[test]
fn cycle_without_trigger_runs_all_ticks() {
    let mut net = two_node_net();
    net.signal(0, "x".to_string(), 1.0);
    let active = net.cycle(5, false).expect("the ticks can run");
    assert_eq!(net.time, 5);
    // y fires at every tick from 2 on; the last tick reports it.
    assert_eq!(active.len(), 1);
}

#[test]
fn runnable_checks_schedule_and_links() {
    let mut net = two_node_net();
    assert!(net.runnable(5));
    net.signal(1, "ghost".to_string(), 1.0);
    assert!(!net.runnable(5));
    let mut net = two_node_net();
    net.node(&"x".to_string()).links[0].delay = 0;
    assert!(!net.runnable(1));
    let mut net = two_node_net();
    net.time = u32::MAX - 1;
    assert!(!net.runnable(5));
}

#[test]
fn cycle_halts_where_a_tick_cannot_run() {
    // A signal due at tick 1 names no node: the first tick runs, the second
    // cannot, and the schedule is left as it was there.
    let mut net = two_node_net();
    net.signal(1, "ghost".to_string(), 1.0);
    assert!(net.tickable());
    assert!(net.cycle(5, false).is_none());
    assert_eq!(net.time, 1);
    assert!(!net.tickable());
    // A link that waits no tick stops the tick that fires its node, even
    // where other links are sound.
    let mut net = two_node_net();
    net.node(&"x".to_string()).links[0].delay = 0;
    net.signal(0, "x".to_string(), 1.0);
    assert!(net.cycle(3, false).is_none());
    assert_eq!(net.time, 0);
    // A delay of 0 on a node that no signal reaches does not stop a run.
    let mut net = two_node_net();
    net.node(&"x".to_string()).links[0].delay = 0;
    assert!(!net.runnable(3));
    assert!(net.cycle(3, false).is_some());
    assert_eq!(net.time, 3);
}

#[test]
fn quiet_network_stays_quiet() {
    let mut net = two_node_net();
    net.reset();
    let before_y = net.value_of(&"y".to_string());
    let active = net.tick();
    assert!(active.is_empty());
    assert_eq!(net.time, 1);
    assert_eq!(net.value_of(&"y".to_string()), before_y);
    assert_eq!(net.actions.len(), 0);
}

#[test]
fn reset_clears_schedule_and_values() {
    let mut net = two_node_net();
    net.signal(0, "x".to_string(), 1.0);
    net.cycle(3, false).expect("the ticks can run");
    net.node(&"y".to_string()).reset = 0.25;
    net.reset();
    assert_eq!(net.time, 0);
    assert_eq!(net.actions.len(), 0);
    assert_eq!(net.value_of(&"y".to_string()), 0.25);
    assert_eq!(node_of(&net, "y").last_fired, 0);
}

#[test]
fn reset_score_zeroes_scores() {
    let mut net = two_node_net();
    net.score = 3.0;
    net.success = 0.5;
    net.node(&"x".to_string()).score = 2.0;
    net.node(&"x".to_string()).links[0].score = 1.0;
    net.reset_score();
    assert_eq!(net.score, 0.0);
    assert_eq!(net.success, 0.0);
    assert_eq!(node_of(&net, "x").score, 0.0);
    assert_eq!(node_of(&net, "x").links[0].score, 0.0);
}

#[test]
fn links_num_counts_all_links() {
    let net = two_node_net();
    assert_eq!(net.links_num(), 2);
    let empty: Net<f32> = Net::new();
    assert_eq!(empty.links_num(), 0);
}

#[test]
fn input_map_lists_links_by_target() {
    let mut net: Net<f32> = Net::new();
    net.nodes.insert("a".to_string(), Node::new(true, false));
    net.nodes.insert("b".to_string(), Node::new(true, false));
    net.nodes.insert("c".to_string(), Node::new(false, true));
    net.node(&"a".to_string()).links.push(link("c", 1.0, 1));
    net.node(&"b".to_string()).links.push(link("a", 1.0, 1));
    net.node(&"b".to_string()).links.push(link("c", 1.0, 1));
    let m = net.input_map();
    assert_eq!(m.len(), 2);
    let into_c = m.get(&"c".to_string()).unwrap();
    assert_eq!(into_c, &vec![("a".to_string(), 0), ("b".to_string(), 1)]);
    let into_a = m.get(&"a".to_string()).unwrap();
    assert_eq!(into_a, &vec![("b".to_string(), 0)]);
    assert!(m.get(&"b".to_string()).is_none());
}

#[test]
fn feedback_credits_everything_upstream() {
    let mut net: Net<f32> = Net::new();
    for name in ["a", "b", "c", "d"] {
        net.nodes.insert(name.to_string(), Node::new(false, false));
    }
    net.node(&"a".to_string()).links.push(link("b", 1.0, 1));
    net.node(&"b".to_string()).links.push(link("c", 1.0, 1));
    net.node(&"a".to_string()).links.push(link("c", 1.0, 1));
    net.node(&"d".to_string()).links.push(link("a", 1.0, 1));
    net.nodes.insert("e".to_string(), Node::new(false, false));
    let m = net.input_map();
    assert!(net.feedable(&"c".to_string(), &m));
    net.feedback("c".to_string(), 2.0, &m);
    assert_eq!(node_of(&net, "c").score, 2.0);
    assert_eq!(node_of(&net, "b").score, 2.0);
    assert_eq!(node_of(&net, "a").score, 2.0);
    assert_eq!(node_of(&net, "d").score, 2.0);
    assert_eq!(node_of(&net, "e").score, 0.0);
    assert_eq!(node_of(&net, "b").links[0].score, 2.0);
    assert_eq!(node_of(&net, "a").links[0].score, 2.0);
    assert_eq!(node_of(&net, "a").links[1].score, 2.0);
    assert_eq!(node_of(&net, "d").links[0].score, 2.0);
}

#[test]
fn feedable_rejects_missing_nodes() {
    let mut net: Net<f32> = Net::new();
    net.nodes.insert("a".to_string(), Node::new(false, false));
    let m = net.input_map();
    assert!(!net.feedable(&"zz".to_string(), &m));
    assert!(net.feedable(&"a".to_string(), &m));
    let mut bogus: Table<String, Vec<(String, usize)>> = Table::new();
    bogus.insert("a".to_string(), vec![("a".to_string(), 3)]);
    assert!(!net.feedable(&"a".to_string(), &bogus));
}

#[test]
fn clean_drops_unreachable_hidden_nodes() {
    let mut net: Net<f32> = Net::new();
    net.nodes.insert("in".to_string(), Node::new(true, false));
    net.nodes.insert("out".to_string(), Node::new(false, true));
    net.nodes.insert("mid".to_string(), Node::new(false, false));
    net.nodes.insert("lost".to_string(), Node::new(false, false));
    net.node(&"in".to_string()).links.push(link("mid", 1.0, 1));
    net.node(&"mid".to_string()).links.push(link("out", 1.0, 1));
    net.node(&"lost".to_string()).links.push(link("out", 1.0, 1));
    let removed = net.clean();
    assert_eq!(removed, vec!["lost".to_string()]);
    assert_eq!(net.nodes.len(), 3);
    assert!(net.nodes.contains_key(&"mid".to_string()));
    assert!(!net.nodes.contains_key(&"lost".to_string()));
    // A second cleaning finds nothing more to drop.
    assert!(net.clean().is_empty());
    assert_eq!(net.nodes.len(), 3);
}

#[test]
fn reached_from_inputs_follows_links() {
    let mut net: Net<f32> = Net::new();
    net.nodes.insert("in".to_string(), Node::new(true, false));
    net.nodes.insert("h".to_string(), Node::new(false, false));
    net.nodes.insert("o".to_string(), Node::new(false, true));
    net.node(&"in".to_string()).links.push(link("h", 1.0, 1));
    let v = net.reached_from_inputs();
    assert!(v.contains(&"in".to_string()));
    assert!(v.contains(&"h".to_string()));
    assert!(!v.contains(&"o".to_string()));
}

#[test]
fn split_node_copies_links() {
    let mut net = two_node_net();
    net.split_node(&"x".to_string(), "SPLIT".to_string());
    let s = node_of(&net, "SPLIT");
    assert!(!s.is_input && !s.is_output);
    assert_eq!(s.links.len(), 1);
    assert_eq!(s.links[0].out, "y");
    let x = node_of(&net, "x");
    assert_eq!(x.links.len(), 2);
    assert_eq!(x.links[1].out, "SPLIT");
    assert_eq!(x.links[1].weight, 1.0);
}

#[test]
fn mutation_touches_one_node() {
    for _ in 0..50 {
        let mut net = two_node_net();
        net.node(&"x".to_string()).allele = Some(1);
        net.node(&"y".to_string()).allele = Some(2);
        net.mutate(99999.0, 0.05, 1.1);
        let cleared = ["x", "y"]
            .iter()
            .filter(|n| node_of(&net, n).allele.is_none())
            .count();
        assert_eq!(cleared, 1);
        assert!(net.nodes.len() == 2 || net.nodes.len() == 3);
    }
}

#[test]
fn mutable_gene_picks_a_node() {
    let net = two_node_net();
    for _ in 0..20 {
        let g = net.mutable_gene(99999.0);
        assert!(g == "x" || g == "y");
    }
    let g = net.rand_gene_ni();
    assert_eq!(g, "y");
}

#[test]
fn duplicate_net_is_independent() {
    let mut net = two_node_net();
    net.signal(4, "y".to_string(), 0.5);
    net.score = 0.75;
    let copy = net.duplicate();
    net.node(&"x".to_string()).links.clear();
    assert_eq!(copy.score, 0.75);
    assert_eq!(copy.nodes.len(), 2);
    assert_eq!(copy.nodes.get(&"x".to_string()).unwrap().links.len(), 1);
    assert_eq!(copy.actions.get(&4).unwrap()[0], (0.5, "y".to_string()));
}

#[test]
fn outputs_report_their_activation() {
    let mut active: Table<String, Node<f32>> = Table::new();
    let mut fired: Node<f32> = Node::new(false, true);
    fired.value = 1.5;
    active.insert("!out 1".to_string(), fired);
    let names = vec!["!out 0".to_string(), "!out 1".to_string(), "!out 2".to_string()];
    let out = ganet::fitness::output_activations(&active, &names);
    assert_eq!(out, vec![0.0, 0.25, 0.0]);
}

#[test]
fn a_right_guess_earns_its_bonus() {
    let out = vec![0.0f32, 0.25, 0.0];
    let expect = vec![0.0f32, 1.0, 0.0];
    let mut scores = vec![0.0f32; 4];
    let (guess, expected, ok) = ganet::fitness::score_sample(&out, &expect, true, &mut scores);
    assert_eq!((guess, expected, ok), (1, 1, true));
    assert_eq!(scores, vec![1.0, 25.25, 1.0, 0.0]);
    // Without any output firing the same guess counts for nothing extra.
    let mut scores = vec![0.0f32; 3];
    let (_, _, ok) = ganet::fitness::score_sample(&out, &expect, false, &mut scores);
    assert!(!ok);
    assert_eq!(scores, vec![1.0, 0.25, 1.0]);
}

#[test]
fn a_wrong_guess_only_earns_closeness() {
    let out = vec![0.5f32, 0.25];
    let expect = vec![0.0f32, 1.0];
    let mut scores = vec![2.0f32, 2.0];
    let (guess, expected, ok) = ganet::fitness::score_sample(&out, &expect, true, &mut scores);
    assert_eq!((guess, expected, ok), (0, 1, false));
    assert_eq!(scores, vec![2.5, 2.25]);
}

fn with_alleles(mut net: Net<f32>) -> Net<f32> {
    net.node(&"x".to_string()).allele = Some(1);
    net.node(&"y".to_string()).allele = Some(2);
    net
}

fn cleared(net: &Net<f32>) -> Vec<&'static str> {
    ["x", "y"].iter().cloned().filter(|n| node_of(net, n).allele.is_none()).collect()
}

#[test]
fn mutation_searches() {
    let net = two_node_net();
    for _ in 0..10 {
        let g = net.mutable_gene_nt(99999.0).expect("both nodes have links");
        assert!(g == "x" || g == "y");
        assert_eq!(net.mutable_gene_ni(99999.0), "y");
    }
    let mut bare: Net<f32> = Net::new();
    bare.nodes.insert("n".to_string(), Node::new(false, false));
    assert!(bare.mutable_gene_nt(99999.0).is_none());
}

#[test]
fn link_removal_mutation() {
    let mut net = with_alleles(two_node_net());
    assert!(net.mutate_link_del(99999.0));
    assert_eq!(net.links_num(), 1);
    assert_eq!(cleared(&net).len(), 1);
    let mut bare: Net<f32> = Net::new();
    bare.nodes.insert("n".to_string(), Node::new(false, false));
    assert!(!bare.mutate_link_del(99999.0));
}

#[test]
fn link_delay_mutation() {
    for _ in 0..20 {
        let mut net = with_alleles(two_node_net());
        let changed = net.mutate_link_delay(99999.0);
        let dx = node_of(&net, "x").links[0].delay;
        let dy = node_of(&net, "y").links[0].delay;
        if changed {
            assert_eq!(cleared(&net).len(), 1);
            assert!((dx != 2) != (dy != 1));
            assert!(dx >= 1 && dx <= 4 && dy >= 1 && dy <= 3);
        } else {
            assert!(cleared(&net).is_empty());
            assert_eq!((dx, dy), (2, 1));
        }
    }
}

#[test]
fn link_weight_mutation() {
    let mut net = with_alleles(two_node_net());
    assert!(net.mutate_link_weight(99999.0, 0.5));
    let wx = node_of(&net, "x").links[0].weight;
    let wy = node_of(&net, "y").links[0].weight;
    assert!((wx, wy) == (2.5, 1.0) || (wx, wy) == (2.0, 1.5));
    assert_eq!(cleared(&net).len(), 1);
}

#[test]
fn reset_and_threshold_mutations() {
    let mut net = with_alleles(two_node_net());
    assert!(net.mutate_reset(99999.0, 0.5));
    let resets = (node_of(&net, "x").reset, node_of(&net, "y").reset);
    assert!(resets == (-0.5, 0.0) || resets == (0.0, -0.5));
    for _ in 0..20 {
        let mut net = with_alleles(two_node_net());
        if net.mutate_threshold(99999.0, 0.3) {
            assert!((node_of(&net, "y").threshold - 0.4).abs() < 1e-6);
            assert_eq!(cleared(&net), vec!["y"]);
        } else {
            assert_eq!(node_of(&net, "y").threshold, 0.1);
            assert!(cleared(&net).is_empty());
        }
    }
}

#[test]
fn new_link_mutation() {
    for _ in 0..20 {
        let mut net = with_alleles(two_node_net());
        if net.mutate_link_new(99999.0) {
            assert_eq!(net.links_num(), 3);
            assert_eq!(cleared(&net).len(), 1);
        } else {
            assert_eq!(net.links_num(), 2);
        }
        assert!(net.nodes.get(&"x".to_string()).unwrap().links.iter().all(|l| l.out == "y"));
    }
}

#[test]
fn split_mutation() {
    let mut net = with_alleles(two_node_net());
    assert!(net.mutate_split(99999.0));
    assert_eq!(net.nodes.len(), 3);
    assert_eq!(net.links_num(), 3);
    assert_eq!(cleared(&net).len(), 1);
}

#[test]
fn mutations_keep_links_sound() {
    let mut net = two_node_net();
    for _ in 0..300 {
        let before: Vec<String> = (0..net.nodes.len()).map(|i| net.nodes.key_at(i).clone()).collect();
        net.mutate(99999.0, 0.05, 1.1);
        for k in before.iter() {
            assert!(net.nodes.contains_key(k));
        }
        for i in 0..net.nodes.len() {
            for l in net.nodes.value_at(i).links.iter() {
                assert!(l.delay >= 1);
                assert!(net.nodes.contains_key(&l.out));
            }
        }
    }
}

#[test]
fn draws_pick_the_kind_of_mutation() {
    // A new link when its draw is 0, whatever the others.
    assert_eq!(pick_mutation(3, Some(0), 0, 0, 0), MutationKind::NewLink);
    // Else a delay shift when its draw is 0 and there are links.
    assert_eq!(pick_mutation(3, Some(1), 0, 0, 0), MutationKind::DelayShift);
    assert_eq!(pick_mutation(0, Some(1), 0, 6399, 0), MutationKind::WeightNudge);
    // Else a dropped link: certain from 80 links, else when the draw is below n^2.
    assert_eq!(pick_mutation(80, None, 5, 6399, 0), MutationKind::DropLink);
    assert_eq!(pick_mutation(10, Some(7), 5, 99, 0), MutationKind::DropLink);
    assert_eq!(pick_mutation(10, Some(7), 5, 100, 0), MutationKind::Split);
    // A split only above 7 links.
    assert_eq!(pick_mutation(7, Some(7), 5, 49, 0), MutationKind::WeightNudge);
    assert_eq!(pick_mutation(10, Some(7), 5, 100, 3), MutationKind::WeightNudge);
}
