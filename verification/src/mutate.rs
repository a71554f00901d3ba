//! Structural mutations of a network.
use vstd::prelude::*;
use crate::link::{is_fresh_link, Link};
use crate::net::Net;
use crate::node::{delay_shifted, link_scores, same_but_links, weight_nudged, Node};
use crate::scalar::{compares, strict_order, total};
use crate::table::Table;
use crate::feedback::name_views;
use vstd::std_specs::cmp::PartialOrdIs;
use std::ops::{Add, Mul, Sub};
use crate::scalar::{num, nums_exact};
use crate::util;

verus! {

/// A copy of the links, link for link.
pub fn copy_links<S: Copy>(links: &Vec<Link<S>>) -> (r: Vec<Link<S>>)
    ensures
        r@ == links@,
{
    let mut r: Vec<Link<S>> = Vec::new();
    let mut i: usize = 0;
    while i < links.len()
        invariant
            i <= links@.len(),
            r@ == links@.subrange(0, i as int),
        decreases links@.len() - i,
    {
        r.push(links[i].duplicate());
        proof {
            assert(r@ =~= links@.subrange(0, i as int + 1));
        }
        i = i + 1;
    }
    proof {
        assert(r@ =~= links@);
    }
    r
}

/// A hidden node that copies the links of another and is new to the pool.
pub open spec fn is_split_of<S: From<u8>>(n: Node<S>, links: Seq<Link<S>>) -> bool {
    &&& n.allele is None
    &&& !n.is_input
    &&& !n.is_output
    &&& n.links@ == links
    &&& n.last_fired == 0
    &&& nums_exact::<S>() ==> n.value == num::<S>(0) && n.reset == num::<S>(0) && n.score == num::<S>(0)
        && n.threshold == num::<S>(1)
}

/// Where the search for the weakest node stops, with the score to beat
/// there: starting from `first` with `ceiling`, each of `draws` in turn
/// that scores below the score held takes its place.
pub open spec fn weakest_scan<S: PartialOrd>(
    nodes: Table<String, Node<S>>,
    first: Seq<char>,
    draws: Seq<Seq<char>>,
    ceiling: S,
) -> (Seq<char>, S)
    decreases draws.len(),
{
    if draws.len() == 0 {
        (first, ceiling)
    } else {
        let (g, v) = weakest_scan(nodes, first, draws.drop_last(), ceiling);
        let s = nodes.at(draws.last()).score;
        if s.is_lt(&v) {
            (draws.last(), s)
        } else {
            (g, v)
        }
    }
}

/// `g` is where the search for the weakest stops for 20 draws of nodes
/// after a first draw.
pub open spec fn drawn_weakest<S: PartialOrd>(
    nodes: Table<String, Node<S>>,
    first: Seq<char>,
    draws: Seq<Seq<char>>,
    ceiling: S,
    g: Seq<char>,
) -> bool {
    &&& draws.len() == 20
    &&& nodes.has(first)
    &&& forall|i: int| 0 <= i < 20 ==> nodes.has(#[trigger] draws[i])
    &&& compares::<S>() ==> g == weakest_scan(nodes, first, draws, ceiling).0
}

impl<S: Copy + From<u8>> Net<S> {
    /// Adds a hidden node `split_gene` with a copy of the links of node
    /// `name`, and links `name` to it.
    pub fn split_node(&mut self, name: &String, split_gene: String)
        requires
            old(self).wf(),
            old(self).nodes.has(name@),
        ensures
            final(self).wf(),
            final(self).same_but_nodes(&*old(self)),
            final(self).nodes.has(split_gene@),
            final(self).nodes.has(name@),
            is_split_of(final(self).nodes.at(split_gene@), old(self).nodes.at(name@).links@),
            split_gene@ != name@ ==> {
                let a = final(self).nodes.at(name@);
                let b = old(self).nodes.at(name@);
                &&& same_but_links(a, b)
                &&& a.allele == b.allele
                &&& a.links@.drop_last() == b.links@
                &&& a.links@.len() == b.links@.len() + 1
                &&& is_fresh_link(a.links@.last(), split_gene@)
            },
            forall|k: Seq<char>|
                k != name@ && k != split_gene@ ==> (#[trigger] final(self).nodes.has(k) == old(self).nodes.has(k)
                    && (old(self).nodes.has(k) ==> final(self).nodes.at(k) == old(self).nodes.at(k))),
    {
        let mut split: Node<S> = Node::new(false, false);
        let node = self.node(name);
        split.links = copy_links(&node.links);
        node.mut_link_new(split_gene.clone());
        proof {
            let k = old(self).nodes.keys().index_of(name@);
            assert(old(self).nodes.keys()[k] == name@);
            crate::table::lemma_index_of_unique(self.nodes.keys(), k);
            assert(self.nodes.at(name@) == self.nodes.values()[k]);
            assert(self.nodes.at(name@).links@.drop_last() == old(self).nodes.at(name@).links@);
            assert forall|j: Seq<char>| j != name@ implies #[trigger] self.nodes.has(j) == old(self).nodes.has(j)
                && (old(self).nodes.has(j) ==> self.nodes.at(j) == old(self).nodes.at(j)) by {
                if old(self).nodes.has(j) {
                    let x = old(self).nodes.keys().index_of(j);
                    assert(old(self).nodes.keys()[x] == j);
                    crate::table::lemma_index_of_unique(self.nodes.keys(), x);
                    assert(x != k);
                }
            }
        }
        let ghost mid = self.nodes;
        let ghost sv = split_gene@;
        self.nodes.insert(split_gene, split);
        proof {
            if sv != name@ {
                assert(self.nodes.has(name@) == mid.has(name@));
                assert(self.nodes.at(name@) == mid.at(name@));
            }
            assert(self.nodes.has(name@));
        }
    }

    /// The weakest of 21 nodes drawn at random (see `weakest_of`), with
    /// `ceiling` as the score to beat.
    pub fn mutable_gene(&self, ceiling: S) -> (g: String)
        where S: PartialOrd,
        requires
            self.nodes.wf(),
            self.nodes.pairs().len() > 0,
        ensures
            self.nodes.has(g@),
            exists|first: Seq<char>, draws: Seq<Seq<char>>|
                #[trigger] drawn_weakest(self.nodes, first, draws, ceiling, g@),
    {
        let first = self.rand_gene();
        let ghost f = first@;
        proof {
            assert(self.nodes.has(f));
        }
        let mut draws: Vec<String> = Vec::new();
        let mut i: u32 = 0;
        while i < 20
            invariant
                self.nodes.wf(),
                self.nodes.pairs().len() > 0,
                i <= 20,
                draws@.len() == i,
                forall|j: int| 0 <= j < i ==> self.nodes.has(#[trigger] name_views(draws@)[j]),
            decreases 20 - i,
        {
            let d = self.rand_gene();
            let ghost before = draws@;
            draws.push(d);
            proof {
                assert forall|j: int| 0 <= j < i + 1 implies self.nodes.has(#[trigger] name_views(draws@)[j]) by {
                    if j < i {
                        assert(name_views(draws@)[j] == name_views(before)[j]);
                    }
                }
            }
            i = i + 1;
        }
        let g = self.weakest_of(first, &draws, ceiling);
        proof {
            let dv = name_views(draws@);
            assert(dv.len() == 20);
            assert(forall|j: int| 0 <= j < 20 ==> self.nodes.has(#[trigger] dv[j]));
            assert(compares::<S>() ==> g@ == weakest_scan(self.nodes, f, dv, ceiling).0);
            assert(self.nodes.has(f));
            assert(drawn_weakest(self.nodes, f, dv, ceiling, g@));
        }
        g
    }

    /// The search for the weakest node: starting from `first` with
    /// `ceiling` as the score to beat, each of `draws` in turn that scores
    /// below the score held takes its place.
    pub fn weakest_of(&self, first: String, draws: &Vec<String>, ceiling: S) -> (g: String)
        where S: PartialOrd,
        requires
            self.nodes.wf(),
            self.nodes.has(first@),
            forall|j: int| 0 <= j < draws@.len() ==> self.nodes.has(#[trigger] name_views(draws@)[j]),
        ensures
            self.nodes.has(g@),
            g@ == first@ || exists|j: int| 0 <= j < draws@.len() && g@ == #[trigger] name_views(draws@)[j],
            compares::<S>() ==> g@ == weakest_scan(self.nodes, first@, name_views(draws@), ceiling).0,
    {
        let ghost f = first@;
        let mut gene = first;
        let mut val = ceiling;
        let n = draws.len();
        let mut i: usize = 0;
        while i < n
            invariant
                self.nodes.wf(),
                i <= n,
                n == draws@.len(),
                f == first@,
                self.nodes.has(gene@),
                gene@ == f || exists|j: int| 0 <= j < draws@.len() && gene@ == #[trigger] name_views(draws@)[j],
                forall|j: int| 0 <= j < draws@.len() ==> self.nodes.has(#[trigger] name_views(draws@)[j]),
                compares::<S>() ==> (gene@, val) == weakest_scan(
                    self.nodes,
                    first@,
                    name_views(draws@).subrange(0, i as int),
                    ceiling,
                ),
            decreases n - i,
        {
            let name = &draws[i];
            proof {
                assert(name_views(draws@)[i as int] == name@);
                assert(name_views(draws@).subrange(0, i as int + 1).drop_last() =~= name_views(draws@).subrange(
                    0,
                    i as int,
                ));
            }
            let node = self.nodes.get(name).unwrap();
            if node.score < val {
                val = node.score;
                gene = name.clone();
            }
            i = i + 1;
        }
        proof {
            assert(name_views(draws@).subrange(0, n as int) =~= name_views(draws@));
        }
        gene
    }
}

/// Nodes other than `name` and `extra` are as in `b`.
pub open spec fn others_kept<S>(b: Table<String, Node<S>>, a: Table<String, Node<S>>, name: Seq<char>, extra: Seq<char>) -> bool {
    forall|k: Seq<char>|
        k != name && k != extra ==> (#[trigger] a.has(k) == b.has(k) && (b.has(k) ==> a.at(k) == b.at(k)))
}

/// `na` is `nb` with a fresh link to a node of `nodes` that is no input.
pub open spec fn got_new_link<S: From<u8>>(nb: Node<S>, na: Node<S>, nodes: Table<String, Node<S>>) -> bool {
    exists|t: Seq<char>|
        #[trigger] nodes.has(t) && !nodes.at(t).is_input && na.links@.len() == nb.links@.len() + 1
            && na.links@.drop_last() == nb.links@ && is_fresh_link(na.links@.last(), t)
}

/// `na` is `nb` with the delay of one of its links shifted.
pub open spec fn got_delay_shift<S>(nb: Node<S>, na: Node<S>) -> bool {
    &&& nb.links@.len() > 0
    &&& exists|i: int, d: u32|
        0 <= i < nb.links@.len() && d < 6 && na.links@ == #[trigger] delay_shifted(nb.links@, i, d)
}

/// `na` is `nb` without one of its links.
pub open spec fn lost_link<S>(nb: Node<S>, na: Node<S>) -> bool {
    exists|i: int| 0 <= i < nb.links@.len() && na.links@ == #[trigger] nb.links@.remove(i)
}

/// `na` is `nb` with the weight of its lowest-scoring link nudged by
/// `shift` and `factor`; the same links when it has none.
pub open spec fn got_weight_nudge<S: Add<Output = S> + Sub<Output = S> + Mul<Output = S> + PartialOrd + From<u8>>(
    nb: Node<S>,
    na: Node<S>,
    shift: S,
    factor: S,
) -> bool {
    ||| nb.links@.len() == 0 && na.links@ == nb.links@
    ||| exists|i: int|
        0 <= i < nb.links@.len() && (compares::<S>() ==> i == util::scan_min_index(link_scores(nb.links@)))
            && na.links@.len() == nb.links@.len() && weight_nudged(na.links@[i], nb.links@[i], shift, factor)
            && forall|j: int| 0 <= j < nb.links@.len() && j != i ==> #[trigger] na.links@[j] == nb.links@[j]
}

/// Node `name` of `b` was split in `a` by a new hidden node named `g`, 5
/// capital letters: it copies the node's links, and the node links to it;
/// no other node changed.
pub open spec fn split_into<S: From<u8>>(b: Table<String, Node<S>>, a: Table<String, Node<S>>, name: Seq<char>, g: Seq<char>) -> bool {
    &&& g.len() == 5
    &&& forall|c: int| 0 <= c < 5 ==> 'A' <= #[trigger] g[c] <= 'Z'
    &&& a.has(g)
    &&& is_split_of(Node { allele: None, ..a.at(g) }, b.at(name).links@)
    &&& others_kept(b, a, name, g)
    &&& g != name ==> {
        let na = a.at(name);
        let nb = b.at(name);
        &&& same_but_links(na, nb)
        &&& na.links@.drop_last() == nb.links@
        &&& na.links@.len() == nb.links@.len() + 1
        &&& is_fresh_link(na.links@.last(), g)
    }
}

/// Node `name` of `b`, which has more than 7 links, was split in `a`.
pub open spec fn split_off<S: From<u8>>(b: Table<String, Node<S>>, a: Table<String, Node<S>>, name: Seq<char>) -> bool {
    &&& b.at(name).links@.len() > 7
    &&& exists|g: Seq<char>| #[trigger] split_into(b, a, name, g)
}

/// One mutation of node `name` of `b` gives `a`, besides clearing its allele.
pub open spec fn mutated<S: Add<Output = S> + Sub<Output = S> + Mul<Output = S> + PartialOrd + From<u8>>(
    b: Table<String, Node<S>>,
    a: Table<String, Node<S>>,
    name: Seq<char>,
    shift: S,
    factor: S,
) -> bool {
    ||| {
        let nb = b.at(name);
        let na = a.at(name);
        &&& others_kept(b, a, name, name)
        &&& same_but_links(na, nb)
        &&& {
            ||| got_new_link(nb, na, b)
            ||| got_delay_shift(nb, na)
            ||| lost_link(nb, na)
            ||| got_weight_nudge(nb, na, shift, factor)
        }
    }
    ||| split_off(b, a, name)
}

/// After an edit of node `name` through `Net::node`, the map of nodes has
/// the new node under `name` and the others as they were.
pub(crate) proof fn lemma_node_edit<S>(b: Table<String, Node<S>>, a: Table<String, Node<S>>, name: Seq<char>, v: Node<S>)
    requires
        b.wf(),
        b.has(name),
        a.keys() == b.keys(),
        a.values() == b.values().update(b.keys().index_of(name), v),
        a.pairs().len() == b.pairs().len(),
    ensures
        a.wf(),
        a.has(name),
        a.at(name) == v,
        others_kept(b, a, name, name),
{
    let i = b.keys().index_of(name);
    assert(b.keys()[i] == name);
    crate::table::lemma_index_of_unique(a.keys(), i);
    assert(a.values()[i] == a.pairs()[i].1);
    assert forall|k: Seq<char>| k != name && k != name implies (#[trigger] a.has(k) == b.has(k) && (b.has(k)
        ==> a.at(k) == b.at(k))) by {
        if b.has(k) {
            let x = b.keys().index_of(k);
            assert(b.keys()[x] == k);
            crate::table::lemma_index_of_unique(a.keys(), x);
            assert(a.values()[x] == a.pairs()[x].1);
            assert(b.values()[x] == b.pairs()[x].1);
        }
    }
}

/// The five kinds of mutation of a node.
#[derive(Clone, Copy, PartialEq, Eq, Structural, Debug)]
pub enum MutationKind {
    NewLink,
    DelayShift,
    DropLink,
    Split,
    WeightNudge,
}

/// The draws that pick the kind of mutation of a node of `n` links are in
/// their ranges: `new_draw` below (n+2)^2 (none when that square does not
/// fit in `usize`), `delay_draw` below 20, `del_draw` below 6400 and
/// `split_draw` below 20.
pub open spec fn draws_in_range(n: int, new_draw: Option<usize>, delay_draw: u32, del_draw: usize, split_draw: u32) -> bool {
    &&& match new_draw {
        Some(x) => (n + 2) * (n + 2) <= usize::MAX && x < (n + 2) * (n + 2),
        None => (n + 2) * (n + 2) > usize::MAX,
    }
    &&& delay_draw < 20
    &&& del_draw < 6400
    &&& split_draw < 20
}

/// The kind of mutation that the draws pick for a node of `n` links, tried
/// in turn: a new link when `new_draw` is 0 (chance 1/(n+2)^2); a delay
/// shift when `delay_draw` is 0 (chance 1/20) and it has links; a dropped
/// link when it has 80 links or more or `del_draw` is below n^2 (chance
/// n^2/6400); a split when `split_draw` is 0 (chance 1/20) and it has more
/// than 7 links; else a weight nudge.
pub open spec fn kind_of(n: int, new_draw: Option<usize>, delay_draw: u32, del_draw: usize, split_draw: u32) -> MutationKind {
    if new_draw == Some(0usize) {
        MutationKind::NewLink
    } else if delay_draw == 0 && n > 0 {
        MutationKind::DelayShift
    } else if n >= 80 || del_draw < n * n {
        MutationKind::DropLink
    } else if split_draw == 0 && n > 7 {
        MutationKind::Split
    } else {
        MutationKind::WeightNudge
    }
}

/// The kind of mutation that these draws pick for a node of `n` links (see
/// `kind_of`).
pub fn pick_mutation(n: usize, new_draw: Option<usize>, delay_draw: u32, del_draw: usize, split_draw: u32) -> (k: MutationKind)
    ensures
        k == kind_of(n as int, new_draw, delay_draw, del_draw, split_draw),
{
    match new_draw {
        Some(x) => {
            if x == 0 {
                return MutationKind::NewLink;
            }
        },
        None => {},
    }
    if delay_draw == 0 && n > 0 {
        return MutationKind::DelayShift;
    }
    if n >= 80 {
        return MutationKind::DropLink;
    }
    proof {
        assert(n * n < 6400) by (nonlinear_arith)
            requires
                n < 80,
        ;
    }
    if del_draw < n * n {
        return MutationKind::DropLink;
    }
    if split_draw == 0 && n > 7 {
        return MutationKind::Split;
    }
    MutationKind::WeightNudge
}

/// Node `name` of `b` underwent, in `a`, a mutation of kind `k` (besides
/// clearing its allele).
pub open spec fn kind_done<S: Add<Output = S> + Sub<Output = S> + Mul<Output = S> + PartialOrd + From<u8>>(
    b: Table<String, Node<S>>,
    a: Table<String, Node<S>>,
    name: Seq<char>,
    k: MutationKind,
    shift: S,
    factor: S,
) -> bool {
    if k == MutationKind::Split {
        split_off(b, a, name)
    } else {
        let nb = b.at(name);
        let na = a.at(name);
        &&& others_kept(b, a, name, name)
        &&& same_but_links(na, nb)
        &&& match k {
            MutationKind::NewLink => got_new_link(nb, na, b),
            MutationKind::DelayShift => got_delay_shift(nb, na),
            MutationKind::DropLink => lost_link(nb, na),
            _ => got_weight_nudge(nb, na, shift, factor),
        }
    }
}

/// A mutation of any kind is a mutation.
proof fn lemma_kind_done_mutated<S: Add<Output = S> + Sub<Output = S> + Mul<Output = S> + PartialOrd + From<u8>>(
    b: Table<String, Node<S>>,
    a: Table<String, Node<S>>,
    name: Seq<char>,
    k: MutationKind,
    shift: S,
    factor: S,
)
    requires
        kind_done(b, a, name, k, shift, factor),
    ensures
        mutated(b, a, name, shift, factor),
{
}

/// Clearing the allele of a split node keeps it split.
proof fn lemma_clear_keeps_split<S: From<u8>>(
    b: Table<String, Node<S>>,
    mid: Table<String, Node<S>>,
    fin: Table<String, Node<S>>,
    name: Seq<char>,
    g: Seq<char>,
)
    requires
        split_into(b, mid, name, g),
        mid.has(name),
        others_kept(mid, fin, name, name),
        fin.has(name),
        fin.at(name) == (Node { allele: None, ..mid.at(name) }),
    ensures
        split_into(b, fin, name, g),
{
    if g == name {
        assert(Node { allele: None, ..fin.at(g) } == Node { allele: None, ..mid.at(g) });
    } else {
        assert(fin.has(g) == mid.has(g));
        assert(fin.at(g) == mid.at(g));
    }
    assert forall|x: Seq<char>| x != name && x != g implies (#[trigger] fin.has(x) == b.has(x) && (b.has(x)
        ==> fin.at(x) == b.at(x))) by {
        assert(mid.has(x) == b.has(x));
        assert(fin.has(x) == mid.has(x));
    }
}

/// Clearing the allele of the mutated node keeps the mutation's kind.
proof fn lemma_clear_keeps_kind<S: Add<Output = S> + Sub<Output = S> + Mul<Output = S> + PartialOrd + From<u8>>(
    b: Table<String, Node<S>>,
    mid: Table<String, Node<S>>,
    fin: Table<String, Node<S>>,
    name: Seq<char>,
    kind: MutationKind,
    shift: S,
    factor: S,
)
    requires
        kind_done(b, mid, name, kind, shift, factor),
        mid.has(name),
        others_kept(mid, fin, name, name),
        fin.has(name),
        fin.at(name) == (Node { allele: None, ..mid.at(name) }),
    ensures
        kind_done(b, fin, name, kind, shift, factor),
{
    let na = fin.at(name);
    let nm = mid.at(name);
    let nb = b.at(name);
    assert(na.links@ == nm.links@);
    if kind == MutationKind::Split {
        let g = choose|g: Seq<char>| #[trigger] split_into(b, mid, name, g);
        lemma_clear_keeps_split(b, mid, fin, name, g);
    } else {
        assert forall|x: Seq<char>| x != name && x != name implies (#[trigger] fin.has(x) == b.has(x) && (b.has(x)
            ==> fin.at(x) == b.at(x))) by {
            assert(mid.has(x) == b.has(x));
        }
        if kind == MutationKind::NewLink {
            let t = choose|t: Seq<char>|
                #[trigger] b.has(t) && !b.at(t).is_input && nm.links@.len() == nb.links@.len() + 1
                    && nm.links@.drop_last() == nb.links@ && is_fresh_link(nm.links@.last(), t);
            assert(got_new_link(nb, na, b));
        } else if kind == MutationKind::DelayShift {
            let (i, d) = choose|i: int, d: u32|
                0 <= i < nb.links@.len() && d < 6 && nm.links@ == #[trigger] delay_shifted(nb.links@, i, d);
            assert(got_delay_shift(nb, na));
        } else if kind == MutationKind::DropLink {
            let i = choose|i: int| 0 <= i < nb.links@.len() && nm.links@ == #[trigger] nb.links@.remove(i);
            assert(lost_link(nb, na));
        } else {
            assert(got_weight_nudge(nb, na, shift, factor));
        }
    }
}

impl<S: Copy + Add<Output = S> + Sub<Output = S> + Mul<Output = S> + PartialOrd + From<u8>> Net<S> {
    /// Mutates the weakest of some nodes drawn at random (see
    /// `mutable_gene`, with `ceiling`), in one of five ways that draws pick
    /// (see `kind_of` and `pick_mutation`): a new link to a node that is no
    /// input, with chance 1/(n+2)^2 for a node of n links; a shifted link
    /// delay, with chance 1/20 when it has links; a dropped link, with chance
    /// n^2/6400; a split, with chance 1/20 when it has more than 7 links;
    /// else the weight of its lowest-scoring link moved by `shift` and scaled
    /// by `factor`. The node then no longer names an allele.
    pub fn mutate(&mut self, ceiling: S, shift: S, factor: S)
        requires
            old(self).wf(),
            total::<S>(),
            old(self).nodes.pairs().len() > 0,
            exists|i: int| 0 <= i < old(self).nodes.pairs().len() && !old(self).nodes.values()[i].is_input,
            forall|i: int| 0 <= i < old(self).nodes.pairs().len() ==> (#[trigger] old(self).nodes.values()[i]).links@.len() <= u32::MAX,
        ensures
            final(self).wf(),
            final(self).same_but_nodes(&*old(self)),
            exists|name: Seq<char>|
                old(self).nodes.has(name) && final(self).nodes.has(name) && (#[trigger] final(self).nodes.at(name)).allele is None
                    && mutated(old(self).nodes, final(self).nodes, name, shift, factor)
                    && (exists|first: Seq<char>, draws: Seq<Seq<char>>|
                    #[trigger] drawn_weakest(old(self).nodes, first, draws, ceiling, name))
                    && exists|nd: Option<usize>, dd: u32, ld: usize, sd: u32|
                    draws_in_range(old(self).nodes.at(name).links@.len() as int, nd, dd, ld, sd) && #[trigger] kind_done(
                        old(self).nodes,
                        final(self).nodes,
                        name,
                        kind_of(old(self).nodes.at(name).links@.len() as int, nd, dd, ld, sd),
                        shift,
                        factor,
                    ),
    {
        let name = self.mutable_gene(ceiling);
        let ghost b = self.nodes;
        proof {
            let i = b.keys().index_of(name@);
            assert(b.keys()[i] == name@);
            assert(b.values()[i] == b.pairs()[i].1);
        }
        let n = self.nodes.get(&name).unwrap().links.len();
        let new_draw: Option<usize> = match n.checked_add(2) {
            Some(m) => match m.checked_mul(m) {
                Some(d) => {
                    proof {
                        assert(m * m > 0) by (nonlinear_arith)
                            requires
                                m >= 2,
                        ;
                    }
                    Some(util::rand_usize(d))
                },
                None => None,
            },
            None => {
                proof {
                    assert((n + 2) * (n + 2) > usize::MAX) by (nonlinear_arith)
                        requires
                            n + 2 > usize::MAX,
                    ;
                }
                None
            },
        };
        let delay_draw = util::rand_int(20);
        let del_draw = util::rand_usize(6400);
        let split_draw = util::rand_int(20);
        proof {
            assert(draws_in_range(n as int, new_draw, delay_draw, del_draw, split_draw));
        }
        let kind = pick_mutation(n, new_draw, delay_draw, del_draw, split_draw);
        match kind {
            MutationKind::NewLink => {
                let target = self.rand_gene_ni();
                let ghost t = target@;
                let node = self.node(&name);
                node.mut_link_new(target);
                proof {
                    lemma_node_edit(b, self.nodes, name@, self.nodes.at(name@));
                    assert(b.has(t));
                    assert(got_new_link(b.at(name@), self.nodes.at(name@), b));
                }
            },
            MutationKind::DelayShift => {
                let node = self.node(&name);
                node.mut_link_delay();
                proof {
                    lemma_node_edit(b, self.nodes, name@, self.nodes.at(name@));
                    assert(got_delay_shift(b.at(name@), self.nodes.at(name@)));
                }
            },
            MutationKind::DropLink => {
                let node = self.node(&name);
                node.mut_link_del();
                proof {
                    lemma_node_edit(b, self.nodes, name@, self.nodes.at(name@));
                    let nb = b.at(name@);
                    let na = self.nodes.at(name@);
                    assert(n == 0 ==> n * n == 0) by (nonlinear_arith);
                    assert(nb.links@.len() > 0);
                    let i = choose|i: int| 0 <= i < nb.links@.len() && na.links@ == nb.links@.remove(i);
                    assert(na.links@ == nb.links@.remove(i));
                    assert(lost_link(nb, na));
                }
            },
            MutationKind::Split => {
                let split_gene = util::rand_string(5);
                let ghost g = split_gene@;
                self.split_node(&name, split_gene);
                proof {
                    let a = self.nodes;
                    assert(Node { allele: None, ..a.at(g) } == a.at(g));
                    assert(others_kept(b, a, name@, g));
                    assert(split_into(b, a, name@, g));
                    assert(split_off(b, a, name@));
                }
            },
            MutationKind::WeightNudge => {
                let node = self.node(&name);
                node.mut_link_weight(shift, factor);
                proof {
                    lemma_node_edit(b, self.nodes, name@, self.nodes.at(name@));
                    assert(got_weight_nudge(b.at(name@), self.nodes.at(name@), shift, factor));
                }
            },
        }
        let ghost mid = self.nodes;
        proof {
            assert(kind_done(b, mid, name@, kind, shift, factor));
            assert(mid.has(name@));
        }
        let node = self.node(&name);
        node.allele = None;
        proof {
            lemma_node_edit(mid, self.nodes, name@, self.nodes.at(name@));
            lemma_clear_keeps_kind(b, mid, self.nodes, name@, kind, shift, factor);
            lemma_kind_done_mutated(b, self.nodes, name@, kind, shift, factor);
            assert(kind_done(b, self.nodes, name@, kind_of(n as int, new_draw, delay_draw, del_draw, split_draw), shift, factor));
        }
    }
}

/// Every link of every node waits at least one tick and leads to a node.
pub open spec fn links_sound<S>(nodes: Table<String, Node<S>>) -> bool {
    forall|k: Seq<char>, l: int|
        nodes.has(k) && 0 <= l < nodes.at(k).links@.len() ==> 1 <= (#[trigger] nodes.at(k).links@[l]).delay
            && nodes.has(nodes.at(k).links@[l].out@)
}

/// A link of `a` that leads to a node of `b` leads to a node of `a`.
proof fn lemma_out_kept<S: Add<Output = S> + Sub<Output = S> + Mul<Output = S> + PartialOrd + From<u8>>(
    b: Table<String, Node<S>>,
    a: Table<String, Node<S>>,
    name: Seq<char>,
    g: Seq<char>,
    t: Seq<char>,
)
    requires
        others_kept(b, a, name, g),
        a.has(name),
        a.has(g),
        b.has(t),
    ensures
        a.has(t),
{
    if t != name && t != g {
        assert(a.has(t) == b.has(t));
    }
}

/// A mutation keeps the links sound: the nodes of `b` stay, and if every
/// link of `b` waits at least one tick and leads to a node, so does every
/// link of `a`; a link added to the mutated node leads to a node that is
/// no input.
pub proof fn law_mutate_keeps_links_sound<S: Add<Output = S> + Sub<Output = S> + Mul<Output = S> + PartialOrd + From<u8>>(
    b: Table<String, Node<S>>,
    a: Table<String, Node<S>>,
    name: Seq<char>,
    shift: S,
    factor: S,
)
    requires
        mutated(b, a, name, shift, factor),
        b.has(name),
        a.has(name),
    ensures
        forall|k: Seq<char>| #[trigger] b.has(k) ==> a.has(k),
        links_sound(b) ==> links_sound(a),
        a.at(name).links@.len() > b.at(name).links@.len() ==> a.has(a.at(name).links@.last().out@)
            && !a.at(a.at(name).links@.last().out@).is_input,
{
    let nb = b.at(name);
    let na = a.at(name);
    if split_off(b, a, name) {
        let g = choose|g: Seq<char>| #[trigger] split_into(b, a, name, g);
        assert forall|k: Seq<char>| #[trigger] b.has(k) implies a.has(k) by {
            lemma_out_kept(b, a, name, g, k);
        }
        assert(!a.at(g).is_input) by {
            assert(!(Node { allele: None, ..a.at(g) }).is_input);
        }
        if links_sound(b) {
            assert forall|k: Seq<char>, l: int|
                a.has(k) && 0 <= l < a.at(k).links@.len() implies 1 <= (#[trigger] a.at(k).links@[l]).delay
                    && a.has(a.at(k).links@[l].out@) by {
                if k == g {
                    assert(a.at(k).links@ == nb.links@);
                    assert(nb.links@[l] == a.at(k).links@[l]);
                    lemma_out_kept(b, a, name, g, nb.links@[l].out@);
                } else if k == name {
                    if l < nb.links@.len() {
                        assert(na.links@.drop_last()[l] == na.links@[l]);
                        assert(nb.links@[l] == a.at(k).links@[l]);
                        lemma_out_kept(b, a, name, g, nb.links@[l].out@);
                    } else {
                        assert(na.links@[l] == na.links@.last());
                    }
                } else {
                    assert(a.has(k) == b.has(k));
                    assert(a.at(k) == b.at(k));
                    assert(b.at(k).links@[l] == a.at(k).links@[l]);
                    lemma_out_kept(b, a, name, g, b.at(k).links@[l].out@);
                }
            }
        }
    } else {
        assert forall|k: Seq<char>| #[trigger] b.has(k) implies a.has(k) by {
            lemma_out_kept(b, a, name, name, k);
        }
        if got_new_link(nb, na, b) {
            let t = choose|t: Seq<char>|
                #[trigger] b.has(t) && !b.at(t).is_input && na.links@.len() == nb.links@.len() + 1
                    && na.links@.drop_last() == nb.links@ && is_fresh_link(na.links@.last(), t);
            lemma_out_kept(b, a, name, name, t);
            if t != name {
                assert(a.at(t) == b.at(t));
            }
        }
        if links_sound(b) {
            assert forall|k: Seq<char>, l: int|
                a.has(k) && 0 <= l < a.at(k).links@.len() implies 1 <= (#[trigger] a.at(k).links@[l]).delay
                    && a.has(a.at(k).links@[l].out@) by {
                if k == name {
                    if got_new_link(nb, na, b) {
                        let t = choose|t: Seq<char>|
                            #[trigger] b.has(t) && !b.at(t).is_input && na.links@.len() == nb.links@.len() + 1
                                && na.links@.drop_last() == nb.links@ && is_fresh_link(na.links@.last(), t);
                        if l < nb.links@.len() {
                            assert(na.links@.drop_last()[l] == na.links@[l]);
                            assert(nb.links@[l] == na.links@[l]);
                            lemma_out_kept(b, a, name, name, nb.links@[l].out@);
                        } else {
                            assert(na.links@[l] == na.links@.last());
                            lemma_out_kept(b, a, name, name, t);
                        }
                    } else if got_delay_shift(nb, na) {
                        let (i, d) = choose|i: int, d: u32|
                            0 <= i < nb.links@.len() && d < 6 && na.links@ == #[trigger] delay_shifted(nb.links@, i, d);
                        assert(na.links@[l].out == nb.links@[l].out);
                        assert(1 <= na.links@[l].delay);
                        lemma_out_kept(b, a, name, name, nb.links@[l].out@);
                    } else if lost_link(nb, na) {
                        let i = choose|i: int| 0 <= i < nb.links@.len() && na.links@ == #[trigger] nb.links@.remove(i);
                        if l < i {
                            assert(na.links@[l] == nb.links@[l]);
                            lemma_out_kept(b, a, name, name, nb.links@[l].out@);
                        } else {
                            assert(na.links@[l] == nb.links@[l + 1]);
                            lemma_out_kept(b, a, name, name, nb.links@[l + 1].out@);
                        }
                    } else {
                        assert(got_weight_nudge(nb, na, shift, factor));
                        if nb.links@.len() == 0 {
                            assert(na.links@.len() == 0);
                        } else {
                            let i = choose|i: int|
                                0 <= i < nb.links@.len() && (compares::<S>() ==> i == util::scan_min_index(link_scores(nb.links@)))
                                    && na.links@.len() == nb.links@.len() && weight_nudged(na.links@[i], nb.links@[i], shift, factor)
                                    && forall|j: int| 0 <= j < nb.links@.len() && j != i ==> #[trigger] na.links@[j] == nb.links@[j];
                            assert(na.links@[l].delay == nb.links@[l].delay);
                            assert(na.links@[l].out == nb.links@[l].out);
                            lemma_out_kept(b, a, name, name, nb.links@[l].out@);
                        }
                    }
                } else {
                    assert(a.has(k) == b.has(k));
                    assert(a.at(k) == b.at(k));
                    assert(b.at(k).links@[l] == a.at(k).links@[l]);
                    lemma_out_kept(b, a, name, name, b.at(k).links@[l].out@);
                }
            }
        }
        if na.links@.len() > nb.links@.len() {
            assert(!got_delay_shift(nb, na) || na.links@.len() == nb.links@.len());
            assert(got_new_link(nb, na, b));
        }
    }
}


/// Some draw scores below `x`.
pub open spec fn some_draw_below<S: PartialOrd>(nodes: Table<String, Node<S>>, draws: Seq<Seq<char>>, x: S) -> bool {
    exists|i: int| 0 <= i < draws.len() && (#[trigger] nodes.at(draws[i])).score.is_lt(&x)
}

proof fn lemma_weakest_scan_lowest<S: PartialOrd>(
    nodes: Table<String, Node<S>>,
    first: Seq<char>,
    draws: Seq<Seq<char>>,
    ceiling: S,
)
    requires
        strict_order::<S>(),
    ensures
        ({
            let (g, v) = weakest_scan(nodes, first, draws, ceiling);
            &&& some_draw_below(nodes, draws, ceiling) ==> {
                &&& v == nodes.at(g).score
                &&& v.is_lt(&ceiling)
                &&& exists|j: int| 0 <= j < draws.len() && g == draws[j]
                &&& forall|i: int| 0 <= i < draws.len() ==> !(#[trigger] nodes.at(draws[i])).score.is_lt(&v)
            }
            &&& !some_draw_below(nodes, draws, ceiling) ==> g == first && v == ceiling
        }),
    decreases draws.len(),
{
    if draws.len() > 0 {
        let q = draws.drop_last();
        let d = draws.last();
        lemma_weakest_scan_lowest(nodes, first, q, ceiling);
        let (g0, v0) = weakest_scan(nodes, first, q, ceiling);
        let s = nodes.at(d).score;
        assert(draws[draws.len() - 1] == d);
        assert forall|i: int| 0 <= i < q.len() implies draws[i] == #[trigger] q[i] by {}
        if some_draw_below(nodes, q, ceiling) {
            let w = choose|i: int| 0 <= i < q.len() && (#[trigger] nodes.at(q[i])).score.is_lt(&ceiling);
            assert(nodes.at(draws[w]).score.is_lt(&ceiling));
            assert(some_draw_below(nodes, draws, ceiling));
            let j0 = choose|j: int| 0 <= j < q.len() && g0 == q[j];
            if s.is_lt(&v0) {
                assert(s.is_lt(&ceiling));
                assert(draws[draws.len() - 1] == d);
                assert forall|i: int| 0 <= i < draws.len() implies !(#[trigger] nodes.at(draws[i])).score.is_lt(&s) by {
                    if i < q.len() {
                        assert(nodes.at(draws[i]) == nodes.at(q[i]));
                        assert(!nodes.at(q[i]).score.is_lt(&v0));
                    }
                }
            } else {
                assert(draws[j0] == g0);
                assert forall|i: int| 0 <= i < draws.len() implies !(#[trigger] nodes.at(draws[i])).score.is_lt(&v0) by {
                    if i < q.len() {
                        assert(nodes.at(draws[i]) == nodes.at(q[i]));
                    }
                }
            }
        } else {
            assert(g0 == first && v0 == ceiling);
            if s.is_lt(&v0) {
                assert(some_draw_below(nodes, draws, ceiling)) by {
                    assert(nodes.at(draws[draws.len() - 1]).score.is_lt(&ceiling));
                }
                assert forall|i: int| 0 <= i < draws.len() implies !(#[trigger] nodes.at(draws[i])).score.is_lt(&s) by {
                    if i < q.len() {
                        assert(nodes.at(draws[i]) == nodes.at(q[i]));
                        if nodes.at(q[i]).score.is_lt(&s) {
                            assert(nodes.at(q[i]).score.is_lt(&ceiling));
                            assert(some_draw_below(nodes, q, ceiling));
                        }
                    }
                }
            } else {
                assert(!some_draw_below(nodes, draws, ceiling)) by {
                    if some_draw_below(nodes, draws, ceiling) {
                        let w = choose|i: int| 0 <= i < draws.len() && (#[trigger] nodes.at(draws[i])).score.is_lt(&ceiling);
                        if w < q.len() {
                            assert(nodes.at(q[w]).score.is_lt(&ceiling));
                        }
                    }
                }
            }
        }
    }
}

/// The node picked for mutation is the lowest-scoring draw: when some of
/// the 20 draws scores below `ceiling`, the pick is a draw scoring below
/// `ceiling` and no draw scores below it; when none does, it is the first
/// node drawn.
pub proof fn law_weakest_is_lowest<S: PartialOrd>(
    nodes: Table<String, Node<S>>,
    first: Seq<char>,
    draws: Seq<Seq<char>>,
    ceiling: S,
    g: Seq<char>,
)
    requires
        strict_order::<S>(),
        drawn_weakest(nodes, first, draws, ceiling, g),
    ensures
        some_draw_below(nodes, draws, ceiling) ==> {
            &&& nodes.at(g).score.is_lt(&ceiling)
            &&& exists|j: int| 0 <= j < draws.len() && g == draws[j]
            &&& forall|i: int| 0 <= i < draws.len() ==> !(#[trigger] nodes.at(draws[i])).score.is_lt(&nodes.at(g).score)
        },
        !some_draw_below(nodes, draws, ceiling) ==> g == first,
{
    lemma_weakest_scan_lowest(nodes, first, draws, ceiling);
}

} // verus!
