//! Single mutations of a network, each applied to a node picked by the
//! search for the weakest (`Net::mutable_gene`).
use vstd::prelude::*;
use std::ops::{Add, Sub};
use vstd::std_specs::cmp::PartialOrdIs;
use vstd::std_specs::ops::{AddSpec, SubSpec};
use crate::feedback::name_views;
use crate::link::{is_fresh_link, Link};
use crate::mutate::{drawn_weakest, lost_link, others_kept, weakest_scan};
use crate::net::Net;
use crate::node::{same_but_links, Node};
use crate::scalar::{adds_total, compares, num, small};
use crate::table::Table;
use crate::util;

verus! {

/// Every node has at least one link.
pub open spec fn every_node_linked<S>(nodes: Table<String, Node<S>>) -> bool {
    forall|k: Seq<char>| #[trigger] nodes.has(k) ==> nodes.at(k).links@.len() > 0
}

/// No node is named by the empty string.
pub open spec fn names_nonempty<S>(nodes: Table<String, Node<S>>) -> bool {
    forall|k: Seq<char>| #[trigger] nodes.has(k) ==> k.len() > 0
}

impl<S: Copy + From<u8> + PartialOrd> Net<S> {
    /// Up to 100 searches for the weakest node (`mutable_gene`) until one
    /// has links; its name, or `None` when none had (or the name found is
    /// the empty string).
    pub fn mutable_gene_nt(&self, ceiling: S) -> (r: Option<String>)
        requires
            self.nodes.wf(),
            self.nodes.pairs().len() > 0,
        ensures
            r matches Some(g) ==> self.nodes.has(g@) && self.nodes.at(g@).links@.len() > 0 && g@.len() > 0,
            r matches Some(g) ==> exists|first: Seq<char>, draws: Seq<Seq<char>>|
                #[trigger] drawn_weakest(self.nodes, first, draws, ceiling, g@),
            every_node_linked(self.nodes) && names_nonempty(self.nodes) ==> r is Some,
    {
        let mut gene = String::new();
        let mut found = false;
        let mut i: u32 = 0;
        while i < 100 && !found
            invariant
                self.nodes.wf(),
                self.nodes.pairs().len() > 0,
                i <= 100,
                found ==> self.nodes.has(gene@) && self.nodes.at(gene@).links@.len() > 0,
                found ==> exists|first: Seq<char>, draws: Seq<Seq<char>>|
                    #[trigger] drawn_weakest(self.nodes, first, draws, ceiling, gene@),
                !found ==> gene@.len() == 0,
                every_node_linked(self.nodes) && names_nonempty(self.nodes) && i > 0 ==> found && gene@.len() > 0,
            decreases 100 - i,
        {
            let g = self.mutable_gene(ceiling);
            if !self.nodes.get(&g).unwrap().is_terminal() {
                gene = g;
                found = true;
            } else {
                proof {
                    if every_node_linked(self.nodes) {
                        assert(self.nodes.has(g@));
                    }
                }
            }
            proof {
                if every_node_linked(self.nodes) && names_nonempty(self.nodes) {
                    assert(self.nodes.has(gene@));
                }
            }
            i = i + 1;
        }
        if gene.as_str().is_empty() {
            None
        } else {
            proof {
                if !found {
                    assert(gene@.len() == 0);
                }
            }
            Some(gene)
        }
    }

    /// The weakest of 21 nodes that are no inputs, drawn at random (see
    /// `weakest_of`), with `ceiling` as the score to beat.
    pub fn mutable_gene_ni(&self, ceiling: S) -> (g: String)
        requires
            self.nodes.wf(),
            exists|i: int| 0 <= i < self.nodes.pairs().len() && !self.nodes.values()[i].is_input,
        ensures
            self.nodes.has(g@),
            !self.nodes.at(g@).is_input,
            exists|first: Seq<char>, draws: Seq<Seq<char>>|
                #[trigger] drawn_weakest(self.nodes, first, draws, ceiling, g@) && !self.nodes.at(first).is_input
                    && forall|i: int| 0 <= i < 20 ==> !self.nodes.at(#[trigger] draws[i]).is_input,
    {
        let first = self.rand_gene_ni();
        let ghost f = first@;
        let mut draws: Vec<String> = Vec::new();
        let mut i: u32 = 0;
        while i < 20
            invariant
                self.nodes.wf(),
                exists|i: int| 0 <= i < self.nodes.pairs().len() && !self.nodes.values()[i].is_input,
                i <= 20,
                draws@.len() == i,
                forall|j: int| 0 <= j < i ==> self.nodes.has(#[trigger] name_views(draws@)[j]) && !self.nodes.at(name_views(draws@)[j]).is_input,
            decreases 20 - i,
        {
            let d = self.rand_gene_ni();
            let ghost before = draws@;
            draws.push(d);
            proof {
                assert forall|j: int| 0 <= j < i + 1 implies self.nodes.has(#[trigger] name_views(draws@)[j]) && !self.nodes.at(name_views(draws@)[j]).is_input by {
                    if j < i {
                        assert(name_views(draws@)[j] == name_views(before)[j]);
                    }
                }
            }
            i = i + 1;
        }
        let g = self.weakest_of(first, &draws, ceiling);
        proof {
            let dv = name_views(draws@);
            assert(forall|j: int| 0 <= j < 20 ==> self.nodes.has(#[trigger] dv[j]));
            assert(drawn_weakest(self.nodes, f, dv, ceiling, g@));
            if g@ != f {
                let j = choose|j: int| 0 <= j < draws@.len() && g@ == #[trigger] name_views(draws@)[j];
                assert(!self.nodes.at(dv[j]).is_input);
            }
        }
        g
    }
}

/// The nodes of `a` are those of `b`, by name and in order, with the same
/// fields and links.
pub open spec fn unchanged_in_view<S>(b: Table<String, Node<S>>, a: Table<String, Node<S>>) -> bool {
    &&& a.keys() == b.keys()
    &&& forall|k: Seq<char>|
        #[trigger] b.has(k) ==> a.has(k) && a.at(k).links@ == b.at(k).links@ && same_but_links(a.at(k), b.at(k))
            && a.at(k).allele == b.at(k).allele
}

/// A link delay moved by `r`: in wrapping `i32` arithmetic, then at least 1.
pub open spec fn moved_delay(delay: u32, r: i32) -> u32 {
    let v = (delay as i32).wrapping_add(r);
    if v < 1 {
        1u32
    } else {
        v as u32
    }
}

/// `na` is `nb` with the delay of its link `i` moved by `r` (which changed
/// it), and no allele.
pub open spec fn delay_moved<S>(nb: Node<S>, na: Node<S>, i: int, r: i32) -> bool {
    &&& 0 <= i < nb.links@.len()
    &&& -2 <= r < 3
    &&& moved_delay(nb.links@[i].delay, r) != nb.links@[i].delay
    &&& na.links@ == nb.links@.update(i, Link { delay: moved_delay(nb.links@[i].delay, r), ..nb.links@[i] })
    &&& same_but_links(na, nb)
    &&& na.allele is None
}

/// `na` is `nb` with the weight of its link `i` moved by `nudge`, and no
/// allele.
pub open spec fn weight_moved<S: Add<Output = S>>(nb: Node<S>, na: Node<S>, i: int, nudge: S) -> bool {
    &&& 0 <= i < nb.links@.len()
    &&& na.links@.len() == nb.links@.len()
    &&& forall|j: int| 0 <= j < nb.links@.len() && j != i ==> #[trigger] na.links@[j] == nb.links@[j]
    &&& na.links@[i].delay == nb.links@[i].delay
    &&& na.links@[i].out == nb.links@[i].out
    &&& na.links@[i].score == nb.links@[i].score
    &&& S::obeys_add_spec() ==> na.links@[i].weight == nb.links@[i].weight.add_spec(nudge)
    &&& same_but_links(na, nb)
    &&& na.allele is None
}

impl<S: Copy + From<u8> + PartialOrd> Net<S> {
    /// Drops a random link of a node found by `mutable_gene_nt`; `false`
    /// when none is found.
    pub fn mutate_link_del(&mut self, ceiling: S) -> (r: bool)
        requires
            old(self).wf(),
            old(self).nodes.pairs().len() > 0,
            forall|i: int| 0 <= i < old(self).nodes.pairs().len() ==> (#[trigger] old(self).nodes.values()[i]).links@.len() <= u32::MAX,
        ensures
            final(self).wf(),
            final(self).same_but_nodes(&*old(self)),
            every_node_linked(old(self).nodes) && names_nonempty(old(self).nodes) ==> r,
            !r ==> final(self).nodes == old(self).nodes,
            r ==> exists|g: Seq<char>|
                #[trigger] old(self).nodes.has(g) && final(self).nodes.has(g) && others_kept(old(self).nodes, final(self).nodes, g, g)
                    && lost_link(old(self).nodes.at(g), final(self).nodes.at(g)) && same_but_links(
                    final(self).nodes.at(g),
                    old(self).nodes.at(g),
                ) && final(self).nodes.at(g).allele is None,
    {
        let picked = self.mutable_gene_nt(ceiling);
        match picked {
            None => false,
            Some(g) => {
                let ghost b = self.nodes;
                proof {
                    let k = b.keys().index_of(g@);
                    assert(b.keys()[k] == g@);
                    assert(b.values()[k] == b.pairs()[k].1);
                }
                let node = self.node(&g);
                node.mut_link_del();
                proof {
                    crate::mutate::lemma_node_edit(b, self.nodes, g@, self.nodes.at(g@));
                }
                true
            },
        }
    }

    /// Moves by -2..+2 the delay of a random link of a node found by
    /// `mutable_gene_nt` (keeping it at least 1); `false` when none is found
    /// or the delay did not change.
    pub fn mutate_link_delay(&mut self, ceiling: S) -> (r: bool)
        requires
            old(self).wf(),
            old(self).nodes.pairs().len() > 0,
            forall|i: int| 0 <= i < old(self).nodes.pairs().len() ==> (#[trigger] old(self).nodes.values()[i]).links@.len() <= u32::MAX,
        ensures
            final(self).wf(),
            final(self).same_but_nodes(&*old(self)),
            !r ==> unchanged_in_view(old(self).nodes, final(self).nodes),
            every_node_linked(old(self).nodes) && names_nonempty(old(self).nodes) && !r ==> exists|g: Seq<char>, i: int, d: i32|
                old(self).nodes.has(g) && 0 <= i < old(self).nodes.at(g).links@.len() && -2 <= d < 3
                    && #[trigger] moved_delay(old(self).nodes.at(g).links@[i].delay, d) == old(self).nodes.at(g).links@[i].delay,
            r ==> exists|g: Seq<char>, i: int, d: i32|
                #[trigger] delay_moved(old(self).nodes.at(g), final(self).nodes.at(g), i, d) && old(self).nodes.has(g)
                    && final(self).nodes.has(g) && others_kept(old(self).nodes, final(self).nodes, g, g),
    {
        let picked = self.mutable_gene_nt(ceiling);
        match picked {
            None => {
                proof {
                    assert forall|k: Seq<char>| #[trigger] old(self).nodes.has(k) implies self.nodes.has(k)
                        && self.nodes.at(k).links@ == old(self).nodes.at(k).links@ && same_but_links(
                        self.nodes.at(k),
                        old(self).nodes.at(k),
                    ) && self.nodes.at(k).allele == old(self).nodes.at(k).allele by {}
                }
                false
            },
            Some(g) => {
                let ghost b = self.nodes;
                proof {
                    let k = b.keys().index_of(g@);
                    assert(b.keys()[k] == g@);
                    assert(b.values()[k] == b.pairs()[k].1);
                }
                let node = self.node(&g);
                let ghost nb = *node;
                let (i, link) = node.rand_link();
                let old_delay = link.delay;
                let rd = util::rand_intr(-2, 3);
                let v = (link.delay as i32).wrapping_add(rd);
                link.delay = if v < 1 {
                    1u32
                } else {
                    v as u32
                };
                let cur = link.delay;
                if cur != old_delay {
                    node.allele = None;
                    proof {
                        crate::mutate::lemma_node_edit(b, self.nodes, g@, self.nodes.at(g@));
                        assert(delay_moved(nb, self.nodes.at(g@), i as int, rd));
                    }
                    true
                } else {
                    proof {
                        assert(moved_delay(nb.links@[i as int].delay, rd) == nb.links@[i as int].delay);
                        assert(b.at(g@) == nb);
                        crate::mutate::lemma_node_edit(b, self.nodes, g@, self.nodes.at(g@));
                        assert(self.nodes.at(g@).links@ =~= nb.links@);
                        assert forall|k: Seq<char>| #[trigger] b.has(k) implies self.nodes.has(k)
                            && self.nodes.at(k).links@ == b.at(k).links@ && same_but_links(self.nodes.at(k), b.at(k))
                            && self.nodes.at(k).allele == b.at(k).allele by {
                            if k != g@ {
                                assert(self.nodes.has(k) == b.has(k));
                            }
                        }
                    }
                    false
                }
            },
        }
    }

    /// Moves by `nudge` the weight of a random link of a node found by
    /// `mutable_gene_nt`; `false` when none is found.
    pub fn mutate_link_weight(&mut self, ceiling: S, nudge: S) -> (r: bool)
        where S: Add<Output = S>,
        requires
            old(self).wf(),
            adds_total::<S>(),
            old(self).nodes.pairs().len() > 0,
            forall|i: int| 0 <= i < old(self).nodes.pairs().len() ==> (#[trigger] old(self).nodes.values()[i]).links@.len() <= u32::MAX,
        ensures
            final(self).wf(),
            final(self).same_but_nodes(&*old(self)),
            every_node_linked(old(self).nodes) && names_nonempty(old(self).nodes) ==> r,
            !r ==> final(self).nodes == old(self).nodes,
            r ==> exists|g: Seq<char>, i: int|
                #[trigger] weight_moved(old(self).nodes.at(g), final(self).nodes.at(g), i, nudge) && old(self).nodes.has(g)
                    && final(self).nodes.has(g) && others_kept(old(self).nodes, final(self).nodes, g, g),
    {
        let picked = self.mutable_gene_nt(ceiling);
        match picked {
            None => false,
            Some(g) => {
                let ghost b = self.nodes;
                proof {
                    let k = b.keys().index_of(g@);
                    assert(b.keys()[k] == g@);
                    assert(b.values()[k] == b.pairs()[k].1);
                }
                let node = self.node(&g);
                let ghost nb = *node;
                let (i, link) = node.rand_link();
                link.weight = link.weight + nudge;
                node.allele = None;
                proof {
                    crate::mutate::lemma_node_edit(b, self.nodes, g@, self.nodes.at(g@));
                    assert(weight_moved(nb, self.nodes.at(g@), i as int, nudge));
                }
                true
            },
        }
    }
}

/// `-|w|`: `w` when below 0, else `0 - w`.
pub open spec fn neg_abs<S: Sub<Output = S> + PartialOrd + From<u8>>(w: S) -> S {
    if w.is_lt(&num::<S>(0)) {
        w
    } else {
        num::<S>(0).sub_spec(w)
    }
}

/// `|w|`: `0 - w` when below 0, else `w`.
pub open spec fn abs_of<S: Sub<Output = S> + PartialOrd + From<u8>>(w: S) -> S {
    if w.is_lt(&num::<S>(0)) {
        num::<S>(0).sub_spec(w)
    } else {
        w
    }
}

/// The operations that the reset and threshold mutations use return what
/// their specifications say.
pub open spec fn nudges_exact<S: Add<Output = S> + Sub<Output = S> + PartialOrd + From<u8>>() -> bool {
    &&& S::obeys_add_spec()
    &&& S::obeys_sub_spec()
    &&& compares::<S>()
    &&& crate::scalar::nums_exact::<S>()
}

/// A node that links to `t` over two links of node `g` of `nodes` and the
/// node that the first leads to.
pub open spec fn two_links_away<S>(nodes: Table<String, Node<S>>, g: Seq<char>, t: Seq<char>) -> bool {
    exists|l1: int, l2: int|
        0 <= l1 < nodes.at(g).links@.len() && 0 <= l2 < nodes.at(nodes.at(g).links@[l1].out@).links@.len()
            && (#[trigger] nodes.at(nodes.at(g).links@[l1].out@).links@[l2]).out@ == t
}

/// Node `g` of `b` got, in `a`, a fresh link to `t` (which is two links
/// away from it, or a node that is no input) and no longer names an
/// allele; no other node changed.
pub open spec fn linked_anew<S: From<u8>>(b: Table<String, Node<S>>, a: Table<String, Node<S>>, g: Seq<char>, t: Seq<char>) -> bool {
    let na = a.at(g);
    let nb = b.at(g);
    &&& b.has(g)
    &&& a.has(g)
    &&& others_kept(b, a, g, g)
    &&& same_but_links(na, nb)
    &&& na.allele is None
    &&& na.links@.len() == nb.links@.len() + 1
    &&& na.links@.drop_last() == nb.links@
    &&& is_fresh_link(na.links@.last(), t)
    &&& two_links_away(b, g, t) || (b.has(t) && !b.at(t).is_input)
}

/// `n` is the node a split makes: hidden, new, with one fresh link to `out`
/// that waits `delay` ticks.
pub open spec fn is_split_node<S: From<u8>>(n: Node<S>, out: Seq<char>, delay: u32) -> bool {
    &&& n.allele is None
    &&& !n.is_input
    &&& !n.is_output
    &&& n.last_fired == 0
    &&& n.links@.len() == 1
    &&& n.links@[0].out@ == out
    &&& n.links@[0].delay == delay
    &&& crate::scalar::nums_exact::<S>() ==> {
        &&& n.value == num::<S>(0)
        &&& n.reset == num::<S>(0)
        &&& n.score == num::<S>(0)
        &&& n.threshold == num::<S>(1)
        &&& n.links@[0].weight == num::<S>(1)
        &&& n.links@[0].score == num::<S>(0)
    }
}

/// Link `i` of node `g` of `b` was split in `a` at `d` ticks by a new node
/// `sg`, named by 5 capital letters: `sg` continues the link after
/// `max(d, 1)` ticks, and the link now leads to `sg` after
/// `max(delay - d, 1)` ticks; the node no longer names an allele.
pub open spec fn link_split<S: From<u8>>(b: Table<String, Node<S>>, a: Table<String, Node<S>>, g: Seq<char>, sg: Seq<char>, i: int, d: u32) -> bool {
    let nb = b.at(g);
    let l = nb.links@[i];
    &&& b.has(g)
    &&& 0 <= i < nb.links@.len()
    &&& d <= l.delay
    &&& sg.len() == 5
    &&& forall|c: int| 0 <= c < 5 ==> 'A' <= #[trigger] sg[c] <= 'Z'
    &&& a.has(sg)
    &&& is_split_node(a.at(sg), l.out@, if d < 1 { 1 } else { d })
    &&& others_kept(b, a, g, sg)
    &&& sg != g ==> {
        let na = a.at(g);
        &&& a.has(g)
        &&& same_but_links(na, nb)
        &&& na.allele is None
        &&& na.links@.len() == nb.links@.len()
        &&& forall|j: int| 0 <= j < nb.links@.len() && j != i ==> #[trigger] na.links@[j] == nb.links@[j]
        &&& na.links@[i].out@ == sg
        &&& na.links@[i].delay == (if l.delay - d < 1 { 1 } else { (l.delay - d) as u32 })
        &&& na.links@[i].weight == l.weight
        &&& na.links@[i].score == l.score
    }
}

impl<S: Copy + From<u8> + PartialOrd + Add<Output = S> + Sub<Output = S>> Net<S> {
    /// Sets the reset value of a node found by `mutable_gene` to `-|r|`,
    /// where `r` is the old reset value moved by `nudge`.
    pub fn mutate_reset(&mut self, ceiling: S, nudge: S) -> (r: bool)
        requires
            old(self).wf(),
            old(self).nodes.pairs().len() > 0,
            forall|a: S, b: S| #[trigger] a.add_req(b),
            forall|a: S, b: S| #[trigger] a.sub_req(b),
        ensures
            r,
            final(self).wf(),
            final(self).same_but_nodes(&*old(self)),
            exists|g: Seq<char>|
                #[trigger] old(self).nodes.has(g) && final(self).nodes.has(g) && others_kept(old(self).nodes, final(self).nodes, g, g)
                    && final(self).nodes.at(g) == (Node {
                    reset: final(self).nodes.at(g).reset,
                    allele: None,
                    ..old(self).nodes.at(g)
                }) && (nudges_exact::<S>() ==> final(self).nodes.at(g).reset == neg_abs(
                    old(self).nodes.at(g).reset.add_spec(nudge),
                )),
    {
        let g = self.mutable_gene(ceiling);
        let ghost b = self.nodes;
        proof {
            let k = b.keys().index_of(g@);
            assert(b.keys()[k] == g@);
            assert(b.values()[k] == b.pairs()[k].1);
        }
        let zero: S = small(0);
        let n = self.node(&g);
        let w = n.reset + nudge;
        n.reset = if w < zero {
            w
        } else {
            zero - w
        };
        n.allele = None;
        proof {
            crate::mutate::lemma_node_edit(b, self.nodes, g@, self.nodes.at(g@));
        }
        true
    }

    /// Sets the threshold of a node found by `mutable_gene`, unless it is an
    /// input, to `|t|`, where `t` is the old threshold moved by `nudge`;
    /// `false` for an input.
    pub fn mutate_threshold(&mut self, ceiling: S, nudge: S) -> (r: bool)
        requires
            old(self).wf(),
            old(self).nodes.pairs().len() > 0,
            forall|a: S, b: S| #[trigger] a.add_req(b),
            forall|a: S, b: S| #[trigger] a.sub_req(b),
        ensures
            final(self).wf(),
            final(self).same_but_nodes(&*old(self)),
            (forall|k: Seq<char>| #[trigger] old(self).nodes.has(k) ==> !old(self).nodes.at(k).is_input) ==> r,
            !r ==> exists|k: Seq<char>| #[trigger] old(self).nodes.has(k) && old(self).nodes.at(k).is_input,
            !r ==> final(self).nodes == old(self).nodes,
            r ==> exists|g: Seq<char>|
                #[trigger] old(self).nodes.has(g) && final(self).nodes.has(g) && !old(self).nodes.at(g).is_input
                    && others_kept(old(self).nodes, final(self).nodes, g, g) && final(self).nodes.at(g) == (Node {
                    threshold: final(self).nodes.at(g).threshold,
                    allele: None,
                    ..old(self).nodes.at(g)
                }) && (nudges_exact::<S>() ==> final(self).nodes.at(g).threshold == abs_of(
                    old(self).nodes.at(g).threshold.add_spec(nudge),
                )),
    {
        let g = self.mutable_gene(ceiling);
        if self.nodes.get(&g).unwrap().is_input {
            return false;
        }
        let ghost b = self.nodes;
        proof {
            let k = b.keys().index_of(g@);
            assert(b.keys()[k] == g@);
            assert(b.values()[k] == b.pairs()[k].1);
        }
        let zero: S = small(0);
        let n = self.node(&g);
        let w = n.threshold + nudge;
        n.threshold = if w < zero {
            zero - w
        } else {
            w
        };
        n.allele = None;
        proof {
            crate::mutate::lemma_node_edit(b, self.nodes, g@, self.nodes.at(g@));
        }
        true
    }
}

impl<S: Copy + From<u8> + PartialOrd> Net<S> {
    /// Adds to a node found by `mutable_gene` a fresh link: mostly (9 times
    /// in 10) to where a random link of a random link of it leads (`false`
    /// when either has no links), else to a node that is no input, found by
    /// `mutable_gene_ni`.
    pub fn mutate_link_new(&mut self, ceiling: S) -> (r: bool)
        requires
            old(self).wf(),
            old(self).nodes.pairs().len() > 0,
            exists|i: int| 0 <= i < old(self).nodes.pairs().len() && !old(self).nodes.values()[i].is_input,
            forall|p: int, l: int|
                0 <= p < old(self).nodes.pairs().len() && 0 <= l < old(self).nodes.values()[p].links@.len()
                    ==> old(self).nodes.has((#[trigger] old(self).nodes.values()[p].links@[l]).out@),
        ensures
            final(self).wf(),
            final(self).same_but_nodes(&*old(self)),
            every_node_linked(old(self).nodes) ==> r,
            !r ==> final(self).nodes == old(self).nodes,
            r ==> exists|g: Seq<char>, t: Seq<char>| #[trigger] linked_anew(old(self).nodes, final(self).nodes, g, t),
    {
        let source_id = self.mutable_gene(ceiling);
        let ghost b = self.nodes;
        proof {
            let k = b.keys().index_of(source_id@);
            assert(b.keys()[k] == source_id@);
            assert(b.values()[k] == b.pairs()[k].1);
        }
        let target: String;
        if util::rand_int(10) < 9 {
            let source = self.nodes.get(&source_id).unwrap();
            if source.links.len() == 0 {
                return false;
            }
            let l1 = util::rand_usize(source.links.len());
            let inter_id = &source.links[l1].out;
            proof {
                let k = b.keys().index_of(source_id@);
                assert(b.values()[k].links@[l1 as int] == source.links@[l1 as int]);
            }
            let inter = self.nodes.get(inter_id).unwrap();
            if inter.links.len() == 0 {
                return false;
            }
            let l2 = util::rand_usize(inter.links.len());
            target = inter.links[l2].out.clone();
            proof {
                assert(two_links_away(b, source_id@, target@));
            }
        } else {
            target = self.mutable_gene_ni(ceiling);
        }
        let ghost t = target@;
        let n = self.node(&source_id);
        n.links.push(Link::new(target));
        n.allele = None;
        proof {
            crate::mutate::lemma_node_edit(b, self.nodes, source_id@, self.nodes.at(source_id@));
            assert(self.nodes.at(source_id@).links@.drop_last() =~= b.at(source_id@).links@);
            assert(linked_anew(b, self.nodes, source_id@, t));
        }
        true
    }

    /// Splits a random link of a node found by `mutable_gene_nt` with a new
    /// hidden node named by 5 random capital letters (see `link_split`); the
    /// split point is drawn in `0..=delay`. `false` when no node is found.
    pub fn mutate_split(&mut self, ceiling: S) -> (r: bool)
        requires
            old(self).wf(),
            old(self).nodes.pairs().len() > 0,
            forall|p: int, l: int|
                0 <= p < old(self).nodes.pairs().len() && 0 <= l < old(self).nodes.values()[p].links@.len()
                    ==> (#[trigger] old(self).nodes.values()[p].links@[l]).delay < u32::MAX,
            forall|i: int| 0 <= i < old(self).nodes.pairs().len() ==> (#[trigger] old(self).nodes.values()[i]).links@.len() <= u32::MAX,
        ensures
            final(self).wf(),
            final(self).same_but_nodes(&*old(self)),
            every_node_linked(old(self).nodes) && names_nonempty(old(self).nodes) ==> r,
            !r ==> final(self).nodes == old(self).nodes,
            r ==> exists|g: Seq<char>, sg: Seq<char>, i: int, d: u32|
                #[trigger] link_split(old(self).nodes, final(self).nodes, g, sg, i, d),
    {
        let mut split: Node<S> = Node::new(false, false);
        let split_gene = util::rand_string(5);
        let picked = self.mutable_gene_nt(ceiling);
        match picked {
            None => false,
            Some(g) => {
                let ghost b = self.nodes;
                let ghost k = b.keys().index_of(g@);
                proof {
                    assert(b.keys()[k] == g@);
                    assert(b.values()[k] == b.pairs()[k].1);
                }
                let source = self.node(&g);
                let ghost nb = *source;
                let (i, link) = source.rand_link();
                proof {
                    assert(b.values()[k].links@[i as int] == *link);
                }
                let split_delay = util::rand_int(link.delay + 1);
                let mut split_link: Link<S> = Link::new(link.out.clone());
                split_link.delay = if split_delay < 1 {
                    1
                } else {
                    split_delay
                };
                split.links.push(split_link);
                link.out = split_gene.clone();
                let rest = link.delay - split_delay;
                link.delay = if rest < 1 {
                    1
                } else {
                    rest
                };
                source.allele = None;
                proof {
                    crate::mutate::lemma_node_edit(b, self.nodes, g@, self.nodes.at(g@));
                }
                let ghost mid = self.nodes;
                let ghost sg = split_gene@;
                self.nodes.insert(split_gene, split);
                proof {
                    let a = self.nodes;
                    assert(a.has(sg));
                    assert forall|kk: Seq<char>| kk != g@ && kk != sg implies (#[trigger] a.has(kk) == b.has(kk) && (b.has(kk)
                        ==> a.at(kk) == b.at(kk))) by {
                        assert(a.has(kk) == mid.has(kk));
                        assert(mid.has(kk) == b.has(kk));
                    }
                    if sg != g@ {
                        assert(a.has(g@) == mid.has(g@));
                        assert(a.at(g@) == mid.at(g@));
                    }
                    assert(link_split(b, a, g@, sg, i as int, split_delay));
                }
                true
            },
        }
    }
}

} // verus!
