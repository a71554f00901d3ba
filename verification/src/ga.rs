//! The genetic pool: one gene per node name, a leaderboard of the best
//! networks, and the bookkeeping of recorded runs.
use vstd::prelude::*;
use vstd::std_specs::cmp::{PartialOrdIs, PartialOrdSpec};
use core::cmp::Ordering;
use crate::gene::{gene_copy, ranks, Gene};
use crate::node::{copy_of, is_new_node, Node};
use crate::util::skewed;
use crate::feedback::{holds_name, name_views};
use crate::net::{copies, Net};
use crate::scalar::{compares, num, nums_exact, small, strict_order};
use crate::table::Table;

verus! {

pub struct GA<S, D> {
    /// The best networks recorded, best first, no two with the same score.
    pub leaderboard: Vec<Net<S>>,
    pub genes: Table<String, Gene<S, D>>,
    pub max_pool_size: u32,
    pub max_exp_count: S,
    pub exp_count: usize,
    pub rec_count: usize,
    pub lead_size: usize,
    /// The scores of the latest runs, written round a ring of 500 places.
    pub last_100: Vec<S>,
    pub last_100_i: usize,
}

/// Each entry scores below the ones before it.
pub open spec fn ranked_board<S: PartialOrd>(b: Seq<Net<S>>) -> bool {
    forall|i: int, j: int| 0 <= i < j < b.len() ==> (#[trigger] b[j]).score.is_lt(&(#[trigger] b[i]).score)
}

/// `p` is where a score `s` goes on board `b`: after the entries scoring above it.
pub open spec fn board_position<S: PartialOrd>(b: Seq<Net<S>>, s: S, p: int) -> bool {
    &&& 0 <= p <= b.len()
    &&& forall|q: int| 0 <= q < p ==> s.is_lt(&(#[trigger] b[q]).score)
    &&& p < b.len() ==> !s.is_lt(&b[p].score)
}

/// A net scoring `s`, placed at `p`, enters board `b`: the board is empty or
/// its last entry scores below `s`, and the entry at `p` does not score the same.
pub open spec fn enters<S: PartialOrd>(b: Seq<Net<S>>, s: S, p: int) -> bool {
    &&& b.len() == 0 || b.last().score.is_lt(&s)
    &&& p < b.len() ==> b[p].score.is_lt(&s)
}

/// The first `n` entries of `b`, or all of them.
pub open spec fn trimmed<T>(b: Seq<T>, n: nat) -> Seq<T> {
    if b.len() > n {
        b.subrange(0, n as int)
    } else {
        b
    }
}

/// The ring of recent scores after one more score `s`.
pub open spec fn ring_after<S>(ring: Seq<S>, i: nat, s: S) -> Seq<S> {
    if ring.len() == i {
        ring.push(s)
    } else {
        ring.update(i as int, s)
    }
}

/// The number of alleles over a sequence of named genes.
pub open spec fn allele_total<S, D>(genes: Seq<(String, Gene<S, D>)>) -> nat
    decreases genes.len(),
{
    if genes.len() == 0 {
        0
    } else {
        allele_total(genes.drop_last()) + genes.last().1.alleles.pairs().len()
    }
}

impl<S, D> GA<S, D> {
    /// Genes and alleles are keyed once each, the ring position is in the
    /// ring, and the board is in order.
    pub open spec fn wf(&self) -> bool
        where S: PartialOrd,
    {
        &&& self.genes.wf()
        &&& forall|g: Seq<char>| #[trigger] self.genes.has(g) ==> self.genes.at(g).alleles.wf()
        &&& self.last_100_i <= self.last_100@.len()
        &&& self.last_100_i < 500
        &&& strict_order::<S>() ==> ranked_board(self.leaderboard@)
    }

    /// Whether some network is on the leaderboard.
    pub fn has_leader(&self) -> (b: bool)
        ensures
            b == (self.leaderboard@.len() > 0),
    {
        self.leaderboard.len() > 0
    }

    /// Whether some gene is known.
    pub fn is_initialized(&self) -> (b: bool)
        ensures
            b == (self.genes.pairs().len() > 0),
    {
        !self.genes.is_empty()
    }

    /// Whether a gene of that name is known.
    pub fn has_gene(&self, name: &String) -> (b: bool)
        requires
            self.genes.wf(),
        ensures
            b == self.genes.has(name@),
    {
        self.genes.contains_key(name)
    }

    /// Starts an empty gene of that name, replacing any gene of that name.
    pub fn add_gene(&mut self, name: &String)
        requires
            old(self).genes.wf(),
        ensures
            final(self).genes.wf(),
            final(self).genes.has(name@),
            final(self).genes.at(name@).received_alleles == 0,
            final(self).genes.at(name@).alleles.pairs().len() == 0,
            final(self).genes.at(name@).alleles.wf(),
            forall|g: Seq<char>|
                g != name@ ==> (#[trigger] final(self).genes.has(g) == old(self).genes.has(g) && (
                old(self).genes.has(g) ==> final(self).genes.at(g) == old(self).genes.at(g))),
            final(self).leaderboard == old(self).leaderboard,
            final(self).last_100 == old(self).last_100,
            final(self).last_100_i == old(self).last_100_i,
            final(self).rec_count == old(self).rec_count,
            final(self).exp_count == old(self).exp_count,
    {
        let g = Gene { received_alleles: 0, alleles: Table::new() };
        self.genes.insert(name.clone(), g);
    }

    /// The next experiment id: the count so far, which then goes up by one.
    pub fn next_id(&mut self) -> (id: usize)
        requires
            old(self).exp_count < usize::MAX,
        ensures
            id == old(self).exp_count,
            *final(self) == (GA { exp_count: (old(self).exp_count + 1) as usize, ..*old(self) }),
    {
        self.exp_count = self.exp_count + 1;
        self.exp_count - 1
    }

    /// The number of genes and the number of alleles over all of them.
    pub fn size(&self) -> (r: (usize, usize))
        requires
            allele_total(self.genes.pairs()) <= usize::MAX,
        ensures
            r.0 == self.genes.pairs().len(),
            r.1 == allele_total(self.genes.pairs()),
    {
        let n = self.genes.len();
        let mut tot: usize = 0;
        let mut i: usize = 0;
        proof {
            lemma_allele_total_prefix(self.genes.pairs(), 0);
        }
        while i < n
            invariant
                i <= n,
                n == self.genes.pairs().len(),
                allele_total(self.genes.pairs()) <= usize::MAX,
                tot == allele_total(self.genes.pairs().subrange(0, i as int)),
            decreases n - i,
        {
            proof {
                let p = self.genes.pairs();
                assert(p.subrange(0, i as int + 1).drop_last() =~= p.subrange(0, i as int));
                lemma_allele_total_prefix(p, i as int + 1);
            }
            tot = tot + self.genes.value_at(i).size();
            i = i + 1;
        }
        proof {
            assert(self.genes.pairs().subrange(0, n as int) =~= self.genes.pairs());
        }
        (n, tot)
    }
}

/// A prefix has no more alleles than the whole.
proof fn lemma_allele_total_prefix<S, D>(p: Seq<(String, Gene<S, D>)>, i: int)
    requires
        0 <= i <= p.len(),
    ensures
        allele_total(p.subrange(0, i)) <= allele_total(p),
    decreases p.len() - i,
{
    if i < p.len() {
        lemma_allele_total_prefix(p, i + 1);
        assert(p.subrange(0, i + 1).drop_last() =~= p.subrange(0, i));
    } else {
        assert(p.subrange(0, i) =~= p);
    }
}

impl<S: From<u8> + PartialOrd, D> GA<S, D> {
    /// An empty pool: at most 10 alleles per gene, scores averaged over at
    /// most 10 runs, a leaderboard of 100.
    pub fn new() -> (ga: GA<S, D>)
        ensures
            ga.leaderboard@.len() == 0,
            ga.genes.wf(),
            ga.genes.pairs().len() == 0,
            ga.lead_size == 100,
            ga.max_pool_size == 10,
            nums_exact::<S>() ==> ga.max_exp_count == num::<S>(10),
            ga.exp_count == 0,
            ga.rec_count == 0,
            ga.last_100@.len() == 0,
            ga.last_100_i == 0,
            ga.wf(),
    {
        GA {
            leaderboard: Vec::new(),
            genes: Table::new(),
            lead_size: 100,
            max_pool_size: 10,
            max_exp_count: small(10),
            exp_count: 0,
            rec_count: 0,
            last_100: Vec::new(),
            last_100_i: 0,
        }
    }
}

/// `b1` is board `b0` after recording `net`, keeping `size` places: a copy
/// of `net` enters at its position when `enters` says so.
pub open spec fn board_after<S: PartialOrd>(b0: Seq<Net<S>>, net: Net<S>, size: nat, b1: Seq<Net<S>>) -> bool {
    exists|p: int|
        #[trigger] board_position(b0, net.score, p) && if enters(b0, net.score, p) {
            exists|c: Net<S>| copies(c, net) && b1 == trimmed(#[trigger] b0.insert(p, c), size)
        } else {
            b1 == trimmed(b0, size)
        }
}

/// The leaderboard never loses its best score: after a record, its first
/// entry scores no lower than the first entry before (for scores under a
/// strict order, on a board of at least one place).
pub proof fn law_best_kept<S: PartialOrd>(b0: Seq<Net<S>>, net: Net<S>, size: nat, b1: Seq<Net<S>>)
    requires
        strict_order::<S>(),
        size > 0,
        b0.len() > 0,
        board_after(b0, net, size, b1),
    ensures
        b1.len() > 0,
        !b1[0].score.is_lt(&b0[0].score),
{
    let p = choose|p: int|
        #[trigger] board_position(b0, net.score, p) && if enters(b0, net.score, p) {
            exists|c: Net<S>| copies(c, net) && b1 == trimmed(#[trigger] b0.insert(p, c), size)
        } else {
            b1 == trimmed(b0, size)
        };
    assert(b0[0].score.partial_cmp_spec(&b0[0].score) != Some(Ordering::Less));
    if enters(b0, net.score, p) {
        let c = choose|c: Net<S>| copies(c, net) && b1 == trimmed(#[trigger] b0.insert(p, c), size);
        if p == 0 {
            assert(b1[0] == c);
            assert(b0[0].score.is_lt(&net.score));
            if net.score.is_lt(&b0[0].score) {
                assert(b0[0].score.partial_cmp_spec(&net.score) == Some(Ordering::Less));
                assert(net.score.partial_cmp_spec(&b0[0].score) == Some(Ordering::Less));
            }
        } else {
            assert(b1[0] == b0[0]);
        }
    } else {
        assert(b1[0] == b0[0]);
    }
}

/// Placing a score at its position on an ordered board keeps the board in
/// order, provided the entry there scores below it.
proof fn lemma_board_insert<S: PartialOrd>(b: Seq<Net<S>>, p: int, c: Net<S>)
    requires
        strict_order::<S>(),
        ranked_board(b),
        board_position(b, c.score, p),
        p < b.len() ==> b[p].score.is_lt(&c.score),
    ensures
        ranked_board(b.insert(p, c)),
{
    let t = b.insert(p, c);
    assert forall|i: int, j: int| 0 <= i < j < t.len() implies (#[trigger] t[j]).score.is_lt(
        &(#[trigger] t[i]).score,
    ) by {
        if j < p {
            assert(t[i] == b[i] && t[j] == b[j]);
        } else if j == p {
            assert(t[i] == b[i] && t[j] == c);
        } else if i < p {
            assert(t[i] == b[i] && t[j] == b[j - 1]);
            assert(c.score.is_lt(&b[i].score));
            if j - 1 > p {
                assert(b[j - 1].score.is_lt(&b[p].score));
            }
            assert(b[j - 1].score.partial_cmp_spec(&c.score) == Some(Ordering::Less)) by {
                if j - 1 > p {
                    assert(b[j - 1].score.partial_cmp_spec(&b[p].score) == Some(Ordering::Less));
                    assert(b[p].score.partial_cmp_spec(&c.score) == Some(Ordering::Less));
                }
            }
            assert(c.score.partial_cmp_spec(&b[i].score) == Some(Ordering::Less));
        } else if i == p {
            assert(t[i] == c && t[j] == b[j - 1]);
            if j - 1 > p {
                assert(b[j - 1].score.partial_cmp_spec(&b[p].score) == Some(Ordering::Less));
                assert(b[p].score.partial_cmp_spec(&c.score) == Some(Ordering::Less));
            }
        } else {
            assert(t[i] == b[i - 1] && t[j] == b[j - 1]);
        }
    }
}

/// A leading part of an ordered board is in order.
proof fn lemma_board_trim<S: PartialOrd>(b: Seq<Net<S>>, n: nat)
    requires
        ranked_board(b),
    ensures
        ranked_board(trimmed(b, n)),
{
    let t = trimmed(b, n);
    assert forall|i: int, j: int| 0 <= i < j < t.len() implies (#[trigger] t[j]).score.is_lt(
        &(#[trigger] t[i]).score,
    ) by {
        assert(t[i] == b[i] && t[j] == b[j]);
    }
}

impl<S: Copy + PartialOrd, D> GA<S, D> {
    /// Records the score of `net`: in the ring of recent scores, on the
    /// leaderboard (as a copy, when it enters it), and in the count of
    /// records, which it returns. The board then keeps its first
    /// `lead_size` entries.
    pub fn rank_net(&mut self, net: &Net<S>) -> (count: usize)
        requires
            old(self).wf(),
            net.wf(),
            old(self).rec_count < usize::MAX,
        ensures
            final(self).wf(),
            count == final(self).rec_count,
            final(self).rec_count == old(self).rec_count + 1,
            final(self).last_100@ == ring_after(old(self).last_100@, old(self).last_100_i as nat, net.score),
            final(self).last_100_i == (old(self).last_100_i + 1) % 500,
            final(self).genes == old(self).genes,
            final(self).max_pool_size == old(self).max_pool_size,
            final(self).max_exp_count == old(self).max_exp_count,
            final(self).exp_count == old(self).exp_count,
            final(self).lead_size == old(self).lead_size,
            final(self).leaderboard@.len() <= old(self).lead_size,
            compares::<S>() ==> board_after(
                old(self).leaderboard@,
                *net,
                old(self).lead_size as nat,
                final(self).leaderboard@,
            ),
    {
        let s = net.score;
        if self.last_100.len() == self.last_100_i {
            self.last_100.push(s);
        } else {
            let i = self.last_100_i;
            self.last_100[i] = s;
        }
        self.last_100_i = (self.last_100_i + 1) % 500;
        let ghost b0 = self.leaderboard@;
        let len = self.leaderboard.len();
        let room = len == 0 || self.leaderboard[len - 1].score < s;
        let mut p: usize = 0;
        while p < len && s < self.leaderboard[p].score
            invariant
                p <= len,
                len == self.leaderboard@.len(),
                self.leaderboard@ == b0,
                compares::<S>() ==> forall|q: int| 0 <= q < p ==> s.is_lt(&(#[trigger] b0[q]).score),
            decreases len - p,
        {
            p = p + 1;
        }
        proof {
            if compares::<S>() {
                assert(board_position(b0, s, p as int));
            }
        }
        let tie = p < len && !(self.leaderboard[p].score < s);
        if room && !tie {
            let c = net.duplicate();
            proof {
                if strict_order::<S>() {
                    lemma_board_insert(b0, p as int, c);
                }
            }
            self.leaderboard.insert(p, c);
            proof {
                assert(self.leaderboard@ == b0.insert(p as int, c));
            }
        }
        let ghost b1 = self.leaderboard@;
        if self.leaderboard.len() > self.lead_size {
            self.leaderboard.truncate(self.lead_size);
        }
        proof {
            assert(self.leaderboard@ == trimmed(b1, self.lead_size as nat));
            if strict_order::<S>() {
                lemma_board_trim(b1, self.lead_size as nat);
            }
        }
        self.rec_count = self.rec_count + 1;
        self.rec_count
    }
}

/// Gene `g` is known and has alleles, each allele's node carries an id,
/// and each of its links leads to a name in `c`.
pub open spec fn gene_fine<S, D>(ga: GA<S, D>, g: Seq<char>, c: Set<Seq<char>>) -> bool {
    &&& ga.genes.has(g)
    &&& ga.genes.at(g).alleles.pairs().len() > 0
    &&& forall|i: int|
        0 <= i < ga.genes.at(g).alleles.pairs().len() ==> {
            let node = (#[trigger] ga.genes.at(g).alleles.pairs()[i]).1.node;
            &&& node.allele is Some
            &&& forall|l: int| 0 <= l < node.links@.len() ==> c.contains((#[trigger] node.links@[l]).out@)
        }
}

/// Every gene named in `c` is fine in the sense of `gene_fine`.
pub open spec fn closed_names<S, D>(ga: GA<S, D>, c: Set<Seq<char>>) -> bool {
    forall|g: Seq<char>| #[trigger] c.contains(g) ==> gene_fine(ga, g, c)
}

/// Gene `name`, with all it may depend on, can be built: some set of names
/// holding it is closed in the sense of `closed_names`.
pub open spec fn expandable<S, D>(ga: GA<S, D>, name: Seq<char>) -> bool {
    exists|c: Set<Seq<char>>| c.contains(name) && #[trigger] closed_names(ga, c)
}

/// `n` is a copy of the node of an allele of gene `g` that `Gene::select`
/// can draw: the one at a rank drawn by `skewed` in a ranking of the
/// alleles best first.
pub open spec fn drawn_from<S: PartialOrd, D>(ga: GA<S, D>, g: Seq<char>, n: Node<S>) -> bool {
    let alleles = ga.genes.at(g).alleles;
    &&& ga.genes.has(g)
    &&& exists|r: Seq<(u32, S)>, k: int|
        ranks(alleles.pairs(), r) && 0 <= k < r.len() && skewed(k, r.len() as int) && alleles.has(r[k].0)
            && copy_of(n, alleles.at(#[trigger] r[k].0).node)
}

/// Every link of `n` leads to a node of `t`.
pub open spec fn links_within<S>(t: Table<String, Node<S>>, n: Node<S>) -> bool {
    forall|l: int| 0 <= l < n.links@.len() ==> t.has((#[trigger] n.links@[l]).out@)
}

/// `t1` keeps every node of `t0`, unchanged.
pub open spec fn extends<S>(t0: Table<String, Node<S>>, t1: Table<String, Node<S>>) -> bool {
    forall|k: Seq<char>| #[trigger] t0.has(k) ==> t1.has(k) && t1.at(k) == t0.at(k)
}

/// Some node that `t1` has and `t0` lacks links to `k`.
pub open spec fn pointed_to_anew<S>(t0: Table<String, Node<S>>, t1: Table<String, Node<S>>, k: Seq<char>) -> bool {
    exists|k2: Seq<char>, l: int|
        t1.has(k2) && !t0.has(k2) && 0 <= l < t1.at(k2).links@.len() && (#[trigger] t1.at(k2).links@[l]).out@
            == k
}

/// `t1` is `t0` with gene `name` built in, with what it depends on: the
/// nodes of `t0` stay; each added node is a copy of an allele of its gene,
/// its links lead to nodes of `t1`, and it is `name` or a link of another
/// added node leads to it.
pub open spec fn expansion<S: PartialOrd, D>(ga: GA<S, D>, name: Seq<char>, t0: Table<String, Node<S>>, t1: Table<String, Node<S>>) -> bool {
    &&& t1.wf()
    &&& t1.has(name)
    &&& extends(t0, t1)
    &&& forall|k: Seq<char>|
        #[trigger] t1.has(k) && !t0.has(k) ==> {
            &&& drawn_from(ga, k, t1.at(k))
            &&& links_within(t1, t1.at(k))
            &&& k != name ==> pointed_to_anew(t0, t1, k)
        }
}

/// The names of `c` that `t` lacks.
pub open spec fn missing<S>(c: Set<Seq<char>>, t: Table<String, Node<S>>) -> Set<Seq<char>> {
    c.filter(|k: Seq<char>| !t.has(k))
}

proof fn lemma_missing_shrinks<S>(c: Set<Seq<char>>, t0: Table<String, Node<S>>, t1: Table<String, Node<S>>, name: Seq<char>)
    requires
        c.finite(),
        c.contains(name),
        !t0.has(name),
        t1.has(name),
        forall|k: Seq<char>| #[trigger] t0.has(k) ==> t1.has(k),
    ensures
        missing(c, t1).len() < missing(c, t0).len(),
        missing(c, t1).finite(),
{
    let m0 = missing(c, t0);
    let m1 = missing(c, t1);
    vstd::set_lib::lemma_len_subset(m0, c);
    assert(m1.subset_of(m0.remove(name)));
    vstd::set_lib::lemma_len_subset(m1, m0.remove(name));
}

proof fn lemma_missing_monotone<S>(c: Set<Seq<char>>, t0: Table<String, Node<S>>, t1: Table<String, Node<S>>)
    requires
        c.finite(),
        forall|k: Seq<char>| #[trigger] t0.has(k) ==> t1.has(k),
    ensures
        missing(c, t1).len() <= missing(c, t0).len(),
{
    let m0 = missing(c, t0);
    let m1 = missing(c, t1);
    vstd::set_lib::lemma_len_subset(m0, c);
    assert(m1.subset_of(m0));
    vstd::set_lib::lemma_len_subset(m1, m0);
}

impl<S: Copy + PartialOrd, D> GA<S, D> {
    fn expand(&self, name: &String, vec: &mut Table<String, Node<S>>, Ghost(c): Ghost<Set<Seq<char>>>)
        requires
            self.wf(),
            old(vec).wf(),
            c.finite(),
            c.contains(name@),
            closed_names(*self, c),
        ensures
            expansion(*self, name@, *old(vec), *final(vec)),
            forall|k: Seq<char>| #[trigger] final(vec).has(k) && !old(vec).has(k) ==> c.contains(k),
        decreases missing(c, *old(vec)).len(),
    {
        if vec.contains_key(name) {
            return;
        }
        let ghost t0 = *vec;
        let gene = self.genes.get(name).unwrap();
        let allele = gene.select();
        let node = allele.node.duplicate();
        proof {
            let (r, k) = choose|r: Seq<(u32, S)>, k: int|
                ranks(gene.alleles.pairs(), r) && 0 <= k < r.len() && skewed(k, r.len() as int)
                    && gene.alleles.has(r[k].0) && *allele == gene.alleles.at(#[trigger] r[k].0);
            assert(copy_of(node, self.genes.at(name@).alleles.at(r[k].0).node));
        }
        let ins = node.duplicate();
        vec.insert(name.clone(), ins);
        proof {
            lemma_missing_shrinks(c, t0, *vec, name@);
            assert(drawn_from(*self, name@, vec.at(name@)));
        }
        let n = node.links.len();
        let mut i: usize = 0;
        while i < n
            invariant
                i <= n,
                n == node.links@.len(),
                self.wf(),
                c.finite(),
                closed_names(*self, c),
                c.contains(name@),
                !t0.has(name@),
                t0 == *old(vec),
                copy_of(ins, node),
                drawn_from(*self, name@, ins),
                forall|l: int| 0 <= l < node.links@.len() ==> c.contains((#[trigger] node.links@[l]).out@),
                vec.wf(),
                extends(t0, *vec),
                vec.has(name@),
                vec.at(name@) == ins,
                forall|k: Seq<char>|
                    #[trigger] vec.has(k) && !t0.has(k) ==> {
                        &&& c.contains(k)
                        &&& drawn_from(*self, k, vec.at(k))
                        &&& k != name@ ==> links_within(*vec, vec.at(k)) && pointed_to_anew(t0, *vec, k)
                    },
                forall|j: int| 0 <= j < i ==> vec.has((#[trigger] node.links@[j]).out@),
                missing(c, *vec).len() < missing(c, t0).len(),
            decreases n - i,
        {
            let ghost tm = *vec;
            let target = &node.links[i].out;
            self.expand(target, vec, Ghost(c));
            proof {
                let t1 = *vec;
                let tg = target@;
                assert forall|k: Seq<char>| #[trigger] t0.has(k) implies t1.has(k) && t1.at(k) == t0.at(k) by {
                    assert(tm.has(k));
                }
                assert(t1.has(name@) && t1.at(name@) == ins) by {
                    assert(tm.has(name@));
                }
                assert forall|k: Seq<char>| #[trigger] t1.has(k) && !t0.has(k) implies {
                    &&& c.contains(k)
                    &&& drawn_from(*self, k, t1.at(k))
                    &&& k != name@ ==> links_within(t1, t1.at(k)) && pointed_to_anew(t0, t1, k)
                } by {
                    if tm.has(k) {
                        assert(t1.at(k) == tm.at(k));
                        if k != name@ {
                            assert forall|l: int| 0 <= l < t1.at(k).links@.len() implies t1.has(
                                (#[trigger] t1.at(k).links@[l]).out@,
                            ) by {
                                assert(tm.has(tm.at(k).links@[l].out@));
                            }
                            let (k2, l) = choose|k2: Seq<char>, l: int|
                                tm.has(k2) && !t0.has(k2) && 0 <= l < tm.at(k2).links@.len() && (
                                #[trigger] tm.at(k2).links@[l]).out@ == k;
                            assert(t1.has(k2) && t1.at(k2) == tm.at(k2));
                            assert(t1.at(k2).links@[l].out@ == k);
                        }
                    } else {
                        if k == tg {
                            assert(ins.links@[i as int] == node.links@[i as int]);
                            assert(t1.at(name@).links@[i as int].out@ == k);
                        } else {
                            let (k2, l) = choose|k2: Seq<char>, l: int|
                                t1.has(k2) && !tm.has(k2) && 0 <= l < t1.at(k2).links@.len() && (
                                #[trigger] t1.at(k2).links@[l]).out@ == k;
                            assert(!t0.has(k2));
                            assert(t1.at(k2).links@[l].out@ == k);
                        }
                    }
                }
                assert forall|j: int| 0 <= j < i + 1 implies t1.has((#[trigger] node.links@[j]).out@) by {
                    if j < i {
                        assert(tm.has(node.links@[j].out@));
                    }
                }
                lemma_missing_monotone(c, tm, t1);
            }
            i = i + 1;
        }
        proof {
            assert forall|l: int| 0 <= l < ins.links@.len() implies vec.has((#[trigger] ins.links@[l]).out@) by {
                assert(ins.links@[l] == node.links@[l]);
            }
        }
    }

    /// Builds node `name` into `vec`, then what it links to, and so on, each
    /// from an allele of its gene drawn with `Gene::select`; names already in
    /// `vec` are left as they are.
    pub fn get_with_dependencies(&self, name: &String, vec: &mut Table<String, Node<S>>)
        requires
            self.wf(),
            old(vec).wf(),
            old(vec).has(name@) || expandable(*self, name@),
        ensures
            expansion(*self, name@, *old(vec), *final(vec)),
            old(vec).has(name@) ==> *final(vec) == *old(vec),
    {
        if vec.contains_key(name) {
            return;
        }
        let ghost c = choose|c: Set<Seq<char>>| c.contains(name@) && #[trigger] closed_names(*self, c);
        proof {
            let all = self.genes.keys().to_set();
            vstd::seq_lib::seq_to_set_is_finite(self.genes.keys());
            assert(c.subset_of(all));
            vstd::set_lib::lemma_len_subset(c, all);
        }
        self.expand(name, vec, Ghost(c));
    }
}

/// A gene fine with respect to some names stays fine when more are added.
proof fn lemma_fine_grows<S, D>(ga: GA<S, D>, g: Seq<char>, c0: Set<Seq<char>>, c1: Set<Seq<char>>)
    requires
        gene_fine(ga, g, c0),
        c0.subset_of(c1),
    ensures
        gene_fine(ga, g, c1),
{
    assert forall|i: int| 0 <= i < ga.genes.at(g).alleles.pairs().len() implies {
        let node = (#[trigger] ga.genes.at(g).alleles.pairs()[i]).1.node;
        &&& node.allele is Some
        &&& forall|l: int| 0 <= l < node.links@.len() ==> c1.contains((#[trigger] node.links@[l]).out@)
    } by {
        let node = ga.genes.at(g).alleles.pairs()[i].1.node;
        assert forall|l: int| 0 <= l < node.links@.len() implies c1.contains((#[trigger] node.links@[l]).out@) by {
            assert(c0.contains(node.links@[l].out@));
        }
    }
}

/// A list of distinct names of known genes is no longer than the table of genes.
proof fn lemma_names_fit<S, D>(genes: Table<String, Gene<S, D>>, v: Seq<Seq<char>>)
    requires
        genes.wf(),
        v.no_duplicates(),
        forall|j: int| 0 <= j < v.len() ==> genes.has(#[trigger] v[j]),
    ensures
        v.len() <= genes.pairs().len(),
{
    let all = genes.keys().to_set();
    vstd::seq_lib::seq_to_set_is_finite(genes.keys());
    v.unique_seq_to_set();
    genes.keys().unique_seq_to_set();
    assert forall|x: Seq<char>| v.to_set().contains(x) implies all.contains(x) by {
        let j = choose|j: int| 0 <= j < v.len() && v[j] == x;
        assert(genes.has(v[j]));
    }
    vstd::set_lib::lemma_len_subset(v.to_set(), all);
}

impl<S: PartialOrd, D> GA<S, D> {
    /// Whether gene `name` can be built with all it may depend on: searching
    /// from `name` through the links of every allele, each gene met is
    /// known, has alleles, and gives each allele's node an id.
    pub fn can_expand(&self, name: &String) -> (r: bool)
        requires
            self.wf(),
        ensures
            r == expandable(*self, name@),
    {
        if !self.genes.contains_key(name) {
            proof {
                if expandable(*self, name@) {
                    let c = choose|c: Set<Seq<char>>| c.contains(name@) && #[trigger] closed_names(*self, c);
                    assert(gene_fine(*self, name@, c));
                }
            }
            return false;
        }
        let mut seen: Vec<String> = Vec::new();
        seen.push(name.clone());
        let mut i: usize = 0;
        proof {
            assert(name_views(seen@) =~= seq![name@]);
            lemma_names_fit(self.genes, name_views(seen@));
        }
        while i < seen.len()
            invariant
                self.wf(),
                i <= seen@.len(),
                seen@.len() <= self.genes.pairs().len(),
                name_views(seen@).no_duplicates(),
                name_views(seen@)[0] == name@,
                seen@.len() >= 1,
                forall|j: int| 0 <= j < seen@.len() ==> self.genes.has(#[trigger] name_views(seen@)[j]),
                forall|c: Set<Seq<char>>|
                    #[trigger] closed_names(*self, c) && c.contains(name@) ==> forall|j: int|
                        0 <= j < seen@.len() ==> c.contains(#[trigger] name_views(seen@)[j]),
                forall|j: int|
                    0 <= j < i ==> gene_fine(*self, #[trigger] name_views(seen@)[j], name_views(seen@).to_set()),
            decreases self.genes.pairs().len() - i,
        {
            let g = seen[i].clone();
            proof {
                assert(name_views(seen@)[i as int] == g@);
            }
            let gene = self.genes.get(&g).unwrap();
            if gene.alleles.len() == 0 {
                proof {
                    if expandable(*self, name@) {
                        let c = choose|c: Set<Seq<char>>| c.contains(name@) && #[trigger] closed_names(*self, c);
                        assert(c.contains(name_views(seen@)[i as int]));
                        assert(gene_fine(*self, g@, c));
                    }
                }
                return false;
            }
            let ghost seen0 = name_views(seen@);
            let m = gene.alleles.len();
            let mut j: usize = 0;
            while j < m
                invariant
                    self.wf(),
                    i < seen@.len(),
                    j <= m,
                    m == gene.alleles.pairs().len(),
                    *gene == self.genes.at(g@),
                    g@ == name_views(seen@)[i as int],
                    seen@.len() <= self.genes.pairs().len(),
                    name_views(seen@).no_duplicates(),
                    name_views(seen@)[0] == name@,
                    seen0 == name_views(seen@).subrange(0, seen0.len() as int),
                    seen0.len() <= seen@.len(),
                    forall|k: int| 0 <= k < seen@.len() ==> self.genes.has(#[trigger] name_views(seen@)[k]),
                    forall|c: Set<Seq<char>>|
                        #[trigger] closed_names(*self, c) && c.contains(name@) ==> forall|k: int|
                            0 <= k < seen@.len() ==> c.contains(#[trigger] name_views(seen@)[k]),
                    forall|a: int| 0 <= a < j ==> {
                        let node = (#[trigger] gene.alleles.pairs()[a]).1.node;
                        &&& node.allele is Some
                        &&& forall|l: int|
                            0 <= l < node.links@.len() ==> name_views(seen@).contains(
                                (#[trigger] node.links@[l]).out@,
                            )
                    },
                decreases m - j,
            {
                let node = &gene.alleles.value_at(j).node;
                if node.allele.is_none() {
                    proof {
                        if expandable(*self, name@) {
                            let c = choose|c: Set<Seq<char>>| c.contains(name@) && #[trigger] closed_names(*self, c);
                            assert(c.contains(name_views(seen@)[i as int]));
                            assert(gene_fine(*self, g@, c));
                            assert(gene.alleles.pairs()[j as int].1.node == *node);
                        }
                    }
                    return false;
                }
                let nl = node.links.len();
                let mut l: usize = 0;
                while l < nl
                    invariant
                        self.wf(),
                        i < seen@.len(),
                        j < m,
                        l <= nl,
                        nl == node.links@.len(),
                        m == gene.alleles.pairs().len(),
                        *gene == self.genes.at(g@),
                        *node == gene.alleles.pairs()[j as int].1.node,
                        node.allele is Some,
                        g@ == name_views(seen@)[i as int],
                        seen@.len() <= self.genes.pairs().len(),
                        name_views(seen@).no_duplicates(),
                        name_views(seen@)[0] == name@,
                        seen0 == name_views(seen@).subrange(0, seen0.len() as int),
                        seen0.len() <= seen@.len(),
                        forall|k: int| 0 <= k < seen@.len() ==> self.genes.has(#[trigger] name_views(seen@)[k]),
                        forall|c: Set<Seq<char>>|
                            #[trigger] closed_names(*self, c) && c.contains(name@) ==> forall|k: int|
                                0 <= k < seen@.len() ==> c.contains(#[trigger] name_views(seen@)[k]),
                        forall|a: int| 0 <= a < j ==> {
                            let nd = (#[trigger] gene.alleles.pairs()[a]).1.node;
                            &&& nd.allele is Some
                            &&& forall|ll: int|
                                0 <= ll < nd.links@.len() ==> name_views(seen@).contains(
                                    (#[trigger] nd.links@[ll]).out@,
                                )
                        },
                        forall|ll: int| 0 <= ll < l ==> name_views(seen@).contains((#[trigger] node.links@[ll]).out@),
                    decreases nl - l,
                {
                    let t = &node.links[l].out;
                    if !holds_name(&seen, t) {
                        if !self.genes.contains_key(t) {
                            proof {
                                if expandable(*self, name@) {
                                    let c = choose|c: Set<Seq<char>>|
                                        c.contains(name@) && #[trigger] closed_names(*self, c);
                                    assert(c.contains(name_views(seen@)[i as int]));
                                    assert(gene_fine(*self, g@, c));
                                    assert(gene.alleles.pairs()[j as int].1.node.links@[l as int] == node.links@[l as int]);
                                    assert(c.contains(t@));
                                    assert(gene_fine(*self, t@, c));
                                }
                            }
                            return false;
                        }
                        let ghost before = name_views(seen@);
                        seen.push(t.clone());
                        proof {
                            let after = name_views(seen@);
                            assert(after =~= before.push(t@));
                            assert forall|x: int, y: int| 0 <= x < y < after.len() implies after[x] != after[y] by {
                                if y == after.len() - 1 {
                                    assert(after[x] == before[x]);
                                }
                            }
                            assert forall|k: int| 0 <= k < seen@.len() implies self.genes.has(#[trigger] name_views(seen@)[k]) by {
                                if k < before.len() {
                                    assert(after[k] == before[k]);
                                }
                            }
                            lemma_names_fit(self.genes, after);
                            assert(seen0 =~= after.subrange(0, seen0.len() as int));
                            assert forall|c: Set<Seq<char>>|
                                #[trigger] closed_names(*self, c) && c.contains(name@) implies forall|k: int|
                                    0 <= k < seen@.len() ==> c.contains(#[trigger] name_views(seen@)[k]) by {
                                assert forall|k: int| 0 <= k < seen@.len() implies c.contains(#[trigger] name_views(seen@)[k]) by {
                                    if k < before.len() {
                                        assert(after[k] == before[k]);
                                        assert(c.contains(before[k]));
                                    } else {
                                        assert(c.contains(before[i as int]));
                                        assert(gene_fine(*self, g@, c));
                                        assert(gene.alleles.pairs()[j as int].1.node.links@[l as int] == node.links@[l as int]);
                                    }
                                }
                            }
                            assert forall|a: int| 0 <= a < j implies {
                                let nd = (#[trigger] gene.alleles.pairs()[a]).1.node;
                                &&& nd.allele is Some
                                &&& forall|ll: int|
                                    0 <= ll < nd.links@.len() ==> after.contains((#[trigger] nd.links@[ll]).out@)
                            } by {
                                let nd = gene.alleles.pairs()[a].1.node;
                                assert forall|ll: int| 0 <= ll < nd.links@.len() implies after.contains(
                                    (#[trigger] nd.links@[ll]).out@,
                                ) by {
                                    assert(before.contains(nd.links@[ll].out@));
                                    let x = choose|x: int| 0 <= x < before.len() && before[x] == nd.links@[ll].out@;
                                    assert(after[x] == before[x]);
                                }
                            }
                            assert forall|ll: int| 0 <= ll < l + 1 implies after.contains((#[trigger] node.links@[ll]).out@) by {
                                if ll < l {
                                    let x = choose|x: int| 0 <= x < before.len() && before[x] == node.links@[ll].out@;
                                    assert(after[x] == before[x]);
                                } else {
                                    assert(after[after.len() - 1] == t@);
                                }
                            }
                        }
                    }
                    l = l + 1;
                }
                j = j + 1;
            }
            proof {
                let sv = name_views(seen@);
                assert forall|k: int| 0 <= k < i + 1 implies gene_fine(*self, #[trigger] sv[k], sv.to_set()) by {
                    if k < i {
                        assert(sv[k] == seen0[k]);
                        lemma_fine_grows(*self, sv[k], seen0.to_set(), sv.to_set());
                    } else {
                        assert forall|a: int| 0 <= a < gene.alleles.pairs().len() implies {
                            let node = (#[trigger] self.genes.at(sv[k]).alleles.pairs()[a]).1.node;
                            &&& node.allele is Some
                            &&& forall|ll: int| 0 <= ll < node.links@.len() ==> sv.to_set().contains((#[trigger] node.links@[ll]).out@)
                        } by {
                            let node = gene.alleles.pairs()[a].1.node;
                            assert forall|ll: int| 0 <= ll < node.links@.len() implies sv.to_set().contains((#[trigger] node.links@[ll]).out@) by {
                                assert(sv.contains(node.links@[ll].out@));
                            }
                        }
                    }
                }
            }
            i = i + 1;
        }
        proof {
            let sv = name_views(seen@);
            let c = sv.to_set();
            assert forall|x: Seq<char>| #[trigger] c.contains(x) implies gene_fine(*self, x, c) by {
                let k = choose|k: int| 0 <= k < sv.len() && sv[k] == x;
                assert(gene_fine(*self, sv[k], c));
            }
            assert(c.contains(sv[0]));
            assert(closed_names(*self, c));
        }
        true
    }
}

/// `n` is a network built from `ga` for these input and output names: at
/// tick 0 with nothing scheduled and scores 0, a node for each name, and
/// besides those only genes of `ga`; the node of a gene is a copy of one of
/// its alleles drawn as `Gene::select` draws, and links only to nodes of `n`; a name that no gene has gets
/// a new output node when it is an output name, else a new input node.
pub open spec fn built_from<S: From<u8> + PartialOrd, D>(ga: GA<S, D>, input: Seq<Seq<char>>, output: Seq<Seq<char>>, n: Net<S>) -> bool {
    &&& n.wf()
    &&& n.time == 0
    &&& n.id == 0
    &&& n.actions.pairs().len() == 0
    &&& nums_exact::<S>() ==> n.score == num::<S>(0) && n.success == num::<S>(0)
    &&& forall|j: int| 0 <= j < input.len() ==> n.nodes.has(#[trigger] input[j])
    &&& forall|j: int| 0 <= j < output.len() ==> n.nodes.has(#[trigger] output[j])
    &&& forall|k: Seq<char>|
        #[trigger] n.nodes.has(k) ==> ga.genes.has(k) || input.contains(k) || output.contains(k)
    &&& forall|k: Seq<char>|
        #[trigger] n.nodes.has(k) && ga.genes.has(k) ==> drawn_from(ga, k, n.nodes.at(k)) && links_within(
            n.nodes,
            n.nodes.at(k),
        )
    &&& forall|k: Seq<char>|
        !ga.genes.has(k) && #[trigger] output.contains(k) ==> is_new_node(n.nodes.at(k), false, true)
    &&& forall|k: Seq<char>|
        !ga.genes.has(k) && !output.contains(k) && #[trigger] input.contains(k) ==> is_new_node(
            n.nodes.at(k),
            true,
            false,
        )
}

/// Every name of `names` that `ga` has a gene for can be built.
pub open spec fn all_expandable<S, D>(ga: GA<S, D>, names: Seq<Seq<char>>) -> bool {
    forall|j: int| 0 <= j < names.len() && ga.genes.has(#[trigger] names[j]) ==> expandable(ga, names[j])
}

impl<S: Copy + PartialOrd + From<u8>> Net<S> {
    /// Adds a node for each name of `genes`: a gene of `ga` is built with
    /// what it depends on (unless already there); another name gets a new
    /// node with the given role, replacing any node of that name.
    fn add_genes<D>(&mut self, ga: &GA<S, D>, genes: &Vec<String>, is_input: bool, is_output: bool)
        requires
            old(self).wf(),
            ga.wf(),
            forall|j: int|
                0 <= j < genes@.len() && ga.genes.has(#[trigger] name_views(genes@)[j]) ==> expandable(
                    *ga,
                    name_views(genes@)[j],
                ),
        ensures
            final(self).wf(),
            final(self).same_but_nodes(&*old(self)),
            forall|j: int| 0 <= j < genes@.len() ==> final(self).nodes.has(#[trigger] name_views(genes@)[j]),
            forall|k: Seq<char>| #[trigger] old(self).nodes.has(k) ==> final(self).nodes.has(k),
            forall|k: Seq<char>|
                #[trigger] final(self).nodes.has(k) ==> old(self).nodes.has(k) || ga.genes.has(k)
                    || name_views(genes@).contains(k),
            forall|k: Seq<char>|
                #[trigger] final(self).nodes.has(k) && ga.genes.has(k) && !old(self).nodes.has(k) ==> drawn_from(
                    *ga,
                    k,
                    final(self).nodes.at(k),
                ),
            forall|k: Seq<char>|
                #[trigger] old(self).nodes.has(k) && ga.genes.has(k) ==> final(self).nodes.at(k)
                    == old(self).nodes.at(k),
            forall|k: Seq<char>|
                #[trigger] final(self).nodes.has(k) && ga.genes.has(k) && (old(self).nodes.has(k) ==> links_within(
                    old(self).nodes,
                    old(self).nodes.at(k),
                )) ==> links_within(final(self).nodes, final(self).nodes.at(k)),
            forall|k: Seq<char>|
                !ga.genes.has(k) && #[trigger] name_views(genes@).contains(k) ==> is_new_node(
                    final(self).nodes.at(k),
                    is_input,
                    is_output,
                ),
            forall|k: Seq<char>|
                !ga.genes.has(k) && !name_views(genes@).contains(k) && #[trigger] old(self).nodes.has(k)
                    ==> final(self).nodes.at(k) == old(self).nodes.at(k),
    {
        let n = genes.len();
        let mut i: usize = 0;
        let ghost gv = name_views(genes@);
        while i < n
            invariant
                i <= n,
                n == genes@.len(),
                gv == name_views(genes@),
                ga.wf(),
                forall|j: int| 0 <= j < genes@.len() && ga.genes.has(#[trigger] gv[j]) ==> expandable(*ga, gv[j]),
                self.wf(),
                self.same_but_nodes(&*old(self)),
                forall|j: int| 0 <= j < i ==> self.nodes.has(#[trigger] gv[j]),
                forall|k: Seq<char>| #[trigger] old(self).nodes.has(k) ==> self.nodes.has(k),
                forall|k: Seq<char>|
                    #[trigger] self.nodes.has(k) ==> old(self).nodes.has(k) || ga.genes.has(k) || gv.subrange(
                        0,
                        i as int,
                    ).contains(k),
                forall|k: Seq<char>|
                    #[trigger] self.nodes.has(k) && ga.genes.has(k) && !old(self).nodes.has(k) ==> drawn_from(
                        *ga,
                        k,
                        self.nodes.at(k),
                    ),
                forall|k: Seq<char>|
                    #[trigger] old(self).nodes.has(k) && ga.genes.has(k) ==> self.nodes.at(k) == old(self).nodes.at(k),
                forall|k: Seq<char>|
                    #[trigger] self.nodes.has(k) && ga.genes.has(k) && (old(self).nodes.has(k) ==> links_within(
                        old(self).nodes,
                        old(self).nodes.at(k),
                    )) ==> links_within(self.nodes, self.nodes.at(k)),
                forall|k: Seq<char>|
                    !ga.genes.has(k) && #[trigger] gv.subrange(0, i as int).contains(k) ==> is_new_node(
                        self.nodes.at(k),
                        is_input,
                        is_output,
                    ),
                forall|k: Seq<char>|
                    !ga.genes.has(k) && !gv.subrange(0, i as int).contains(k) && #[trigger] old(self).nodes.has(k)
                        ==> self.nodes.at(k) == old(self).nodes.at(k),
            decreases n - i,
        {
            let gene = &genes[i];
            let ghost tm = self.nodes;
            let ghost before = *self;
            proof {
                assert(gv[i as int] == gene@);
            }
            if ga.has_gene(gene) {
                ga.get_with_dependencies(gene, &mut self.nodes);
            } else {
                self.nodes.insert(gene.clone(), Node::new(is_input, is_output));
                proof {
                    assert(is_new_node(self.nodes.at(gene@), is_input, is_output));
                }
            }
            proof {
                let t1 = self.nodes;
                let g = gene@;
                assert(gv.subrange(0, i as int + 1) =~= gv.subrange(0, i as int).push(g));
                if ga.genes.has(g) {
                    assert(expansion(*ga, g, tm, t1));
                    assert forall|k: Seq<char>|
                        #[trigger] t1.has(k) && ga.genes.has(k) && (old(self).nodes.has(k) ==> links_within(
                            old(self).nodes,
                            old(self).nodes.at(k),
                        )) implies links_within(t1, t1.at(k)) by {
                        if tm.has(k) {
                            assert(links_within(tm, tm.at(k)));
                            assert(t1.at(k) == tm.at(k));
                            assert forall|l: int| 0 <= l < t1.at(k).links@.len() implies t1.has(
                                (#[trigger] t1.at(k).links@[l]).out@,
                            ) by {
                                assert(tm.has(tm.at(k).links@[l].out@));
                            }
                        }
                    }
                    assert forall|k: Seq<char>|
                        !ga.genes.has(k) && #[trigger] gv.subrange(0, i as int + 1).contains(k) implies is_new_node(
                            t1.at(k),
                            is_input,
                            is_output,
                        ) by {
                        assert(gv.subrange(0, i as int).contains(k));
                        assert(tm.has(k));
                    }
                    assert forall|k: Seq<char>|
                        #[trigger] t1.has(k) implies old(self).nodes.has(k) || ga.genes.has(k) || gv.subrange(
                            0,
                            i as int + 1,
                        ).contains(k) by {
                        if tm.has(k) {
                            if gv.subrange(0, i as int).contains(k) {
                                let x = choose|x: int| 0 <= x < i && gv.subrange(0, i as int)[x] == k;
                                assert(gv.subrange(0, i as int + 1)[x] == k);
                            }
                        }
                    }
                    assert forall|k: Seq<char>|
                        !ga.genes.has(k) && !gv.subrange(0, i as int + 1).contains(k) && #[trigger] old(self).nodes.has(k)
                            implies t1.at(k) == old(self).nodes.at(k) by {
                        if gv.subrange(0, i as int).contains(k) {
                            let x = choose|x: int| 0 <= x < i && gv.subrange(0, i as int)[x] == k;
                            assert(gv.subrange(0, i as int + 1)[x] == k);
                        }
                        assert(tm.has(k));
                    }
                } else {
                    assert forall|k: Seq<char>|
                        #[trigger] t1.has(k) && ga.genes.has(k) && (old(self).nodes.has(k) ==> links_within(
                            old(self).nodes,
                            old(self).nodes.at(k),
                        )) implies links_within(t1, t1.at(k)) by {
                        assert(k != g);
                        assert(links_within(tm, tm.at(k)));
                        assert forall|l: int| 0 <= l < t1.at(k).links@.len() implies t1.has(
                            (#[trigger] t1.at(k).links@[l]).out@,
                        ) by {
                            let o = tm.at(k).links@[l].out@;
                            assert(tm.has(o));
                            if o != g {
                                assert(t1.has(o));
                            }
                        }
                    }
                    assert forall|k: Seq<char>|
                        !ga.genes.has(k) && #[trigger] gv.subrange(0, i as int + 1).contains(k) implies is_new_node(
                            t1.at(k),
                            is_input,
                            is_output,
                        ) by {
                        if k != g {
                            let x = choose|x: int| 0 <= x < i + 1 && #[trigger] gv.subrange(0, i as int + 1)[x] == k;
                            assert(x < i);
                            assert(gv.subrange(0, i as int)[x] == k);
                            assert(gv.subrange(0, i as int).contains(k));
                            assert(tm.has(k));
                            assert(t1.has(k));
                            assert(t1.at(k) == tm.at(k));
                        } else {
                            assert(is_new_node(t1.at(g), is_input, is_output));
                        }
                    }
                    assert forall|k: Seq<char>|
                        #[trigger] t1.has(k) implies old(self).nodes.has(k) || ga.genes.has(k) || gv.subrange(
                            0,
                            i as int + 1,
                        ).contains(k) by {
                        if k == g {
                            assert(gv.subrange(0, i as int + 1)[i as int] == k);
                        } else {
                            assert(tm.has(k));
                            if gv.subrange(0, i as int).contains(k) {
                                let x = choose|x: int| 0 <= x < i && gv.subrange(0, i as int)[x] == k;
                                assert(gv.subrange(0, i as int + 1)[x] == k);
                            }
                        }
                    }
                    assert forall|k: Seq<char>|
                        !ga.genes.has(k) && !gv.subrange(0, i as int + 1).contains(k) && #[trigger] old(self).nodes.has(k)
                            implies t1.at(k) == old(self).nodes.at(k) by {
                        assert(gv.subrange(0, i as int + 1)[i as int] == g);
                        if gv.subrange(0, i as int).contains(k) {
                            let x = choose|x: int| 0 <= x < i && gv.subrange(0, i as int)[x] == k;
                            assert(gv.subrange(0, i as int + 1)[x] == k);
                        }
                        assert(k != g);
                        assert(tm.has(k));
                        assert(t1.has(k));
                        assert(t1.at(k) == tm.at(k));
                    }
                }
                assert forall|k: Seq<char>| #[trigger] old(self).nodes.has(k) && ga.genes.has(k) implies t1.at(k)
                    == old(self).nodes.at(k) by {
                    assert(tm.has(k));
                    assert(tm.at(k) == old(self).nodes.at(k));
                    if !ga.genes.has(g) {
                        assert(k != g);
                    }
                    assert(t1.has(k));
                }
                assert forall|j: int| 0 <= j < i + 1 implies t1.has(#[trigger] gv[j]) by {
                    if j < i {
                        assert(tm.has(gv[j]));
                    }
                }
            }
            i = i + 1;
        }
        proof {
            assert(gv.subrange(0, n as int) =~= gv);
        }
    }

    /// A network with a node for each input and output name: a gene of `ga`
    /// is built with what it depends on, each node from an allele drawn with
    /// `Gene::select`; another name gets a new input node, or a new output
    /// node when it is an output name.
    pub fn from_ga<D>(ga: &GA<S, D>, input: &Vec<String>, output: &Vec<String>) -> (n: Net<S>)
        requires
            ga.wf(),
            all_expandable(*ga, name_views(input@)),
            all_expandable(*ga, name_views(output@)),
        ensures
            n.vset == 0,
            built_from(*ga, name_views(input@), name_views(output@), n),
    {
        let mut n: Net<S> = Net::new();
        n.add_genes(ga, input, true, false);
        n.add_genes(ga, output, false, true);
        n
    }
}

/// `a` holds the same pool as `b`: its settings and counters, the ring of
/// scores, copies of the networks on the board, and copies of the genes
/// under the same names, in order.
pub open spec fn ga_copy<S, D>(a: GA<S, D>, b: GA<S, D>) -> bool {
    &&& a.max_pool_size == b.max_pool_size
    &&& a.max_exp_count == b.max_exp_count
    &&& a.exp_count == b.exp_count
    &&& a.rec_count == b.rec_count
    &&& a.lead_size == b.lead_size
    &&& a.last_100@ == b.last_100@
    &&& a.last_100_i == b.last_100_i
    &&& a.leaderboard@.len() == b.leaderboard@.len()
    &&& forall|i: int| 0 <= i < b.leaderboard@.len() ==> copies(#[trigger] a.leaderboard@[i], b.leaderboard@[i])
    &&& a.genes.wf()
    &&& a.genes.keys() == b.genes.keys()
    &&& a.genes.pairs().len() == b.genes.pairs().len()
    &&& forall|i: int| 0 <= i < b.genes.pairs().len() ==> gene_copy(#[trigger] a.genes.values()[i], b.genes.values()[i])
}

impl<S: Copy + PartialOrd, D: Copy> GA<S, D> {
    /// A copy of the pool.
    pub fn duplicate(&self) -> (c: GA<S, D>)
        requires
            self.wf(),
            forall|i: int| 0 <= i < self.leaderboard@.len() ==> (#[trigger] self.leaderboard@[i]).wf(),
        ensures
            ga_copy(c, *self),
    {
        let mut board: Vec<Net<S>> = Vec::new();
        let mut b: usize = 0;
        while b < self.leaderboard.len()
            invariant
                b <= self.leaderboard@.len(),
                forall|i: int| 0 <= i < self.leaderboard@.len() ==> (#[trigger] self.leaderboard@[i]).wf(),
                board@.len() == b,
                forall|i: int| 0 <= i < b ==> copies(#[trigger] board@[i], self.leaderboard@[i]),
            decreases self.leaderboard@.len() - b,
        {
            let d = self.leaderboard[b].duplicate();
            board.push(d);
            proof {
                assert forall|i: int| 0 <= i < b + 1 implies copies(#[trigger] board@[i], self.leaderboard@[i]) by {
                    if i == b {
                        assert(board@[i] == d);
                    }
                }
            }
            b = b + 1;
        }
        let t = &self.genes;
        let mut genes: Table<String, Gene<S, D>> = Table::new();
        let n = t.len();
        let mut i: usize = 0;
        while i < n
            invariant
                i <= n,
                n == t.pairs().len(),
                t.wf(),
                self.wf(),
                *t == self.genes,
                genes.wf(),
                genes.pairs().len() == i,
                genes.keys() == t.keys().subrange(0, i as int),
                forall|j: int| 0 <= j < i ==> gene_copy(#[trigger] genes.values()[j], t.values()[j]),
            decreases n - i,
        {
            let k = t.key_at(i).clone();
            proof {
                assert(t.keys()[i as int] == t.pairs()[i as int].0@);
                crate::table::lemma_index_of_unique(t.keys(), i as int);
                assert(t.has(t.keys()[i as int]));
                assert(t.at(t.keys()[i as int]) == t.values()[i as int]);
            }
            let v = t.value_at(i).duplicate();
            proof {
                assert(k@ == t.keys()[i as int]);
                if genes.keys().contains(k@) {
                    let x = choose|x: int| 0 <= x < genes.keys().len() && genes.keys()[x] == k@;
                    assert(t.keys()[x] == t.keys()[i as int]);
                }
            }
            let ghost before = genes.pairs();
            let ghost before_vals = genes.values();
            genes.insert(k, v);
            proof {
                assert(genes.pairs() == before.push((k, v)));
                assert(genes.keys() =~= t.keys().subrange(0, i as int + 1));
                assert forall|j: int| 0 <= j < i + 1 implies gene_copy(#[trigger] genes.values()[j], t.values()[j]) by {
                    assert(genes.values()[j] == genes.pairs()[j].1);
                    if j < i {
                        assert(genes.values()[j] == before[j].1);
                        assert(before_vals[j] == before[j].1);
                    } else {
                        assert(t.values()[j] == t.pairs()[j].1);
                    }
                }
            }
            i = i + 1;
        }
        proof {
            assert(t.keys().subrange(0, n as int) =~= t.keys());
        }
        GA {
            leaderboard: board,
            genes,
            max_pool_size: self.max_pool_size,
            max_exp_count: self.max_exp_count,
            exp_count: self.exp_count,
            rec_count: self.rec_count,
            lead_size: self.lead_size,
            last_100: crate::gene::copy_scores(&self.last_100),
            last_100_i: self.last_100_i,
        }
    }
}

} // verus!
