//! A neuron: it accumulates incoming signals and, once its value passes the
//! threshold, fires along its links.
use vstd::prelude::*;
use std::ops::{Add, Mul, Sub};
use vstd::std_specs::cmp::{PartialEqSpec, PartialEqSpecImpl, PartialOrdIs, PartialOrdSpec};
use vstd::std_specs::ops::{AddSpec, MulSpec, SubSpec};
use crate::link::{is_fresh_link, Link};
use crate::scalar::{compares, exact, num, nums_exact, small, strict_order, total};
use core::cmp::Ordering;
use crate::util;

verus! {

pub struct Node<S> {
    pub allele: Option<u32>,
    pub reset: S,
    pub value: S,
    pub is_input: bool,
    pub is_output: bool,
    pub threshold: S,
    pub links: Vec<Link<S>>,
    pub score: S,
    pub last_fired: usize,
}

/// Two nodes are equal when they come from the same allele.
impl<S> PartialEq for Node<S> {
    fn eq(&self, n: &Node<S>) -> (r: bool) {
        match (self.allele, n.allele) {
            (Some(a), Some(b)) => a == b,
            (None, None) => true,
            _ => false,
        }
    }
}

impl<S> PartialEqSpecImpl for Node<S> {
    open spec fn obeys_eq_spec() -> bool {
        true
    }

    open spec fn eq_spec(&self, n: &Node<S>) -> bool {
        self.allele == n.allele
    }
}

/// What a node with this value and threshold emits: nothing (0) up to the
/// threshold, then the square of the excess, capped at 1.
pub open spec fn activation<S: Add<Output = S> + Sub<Output = S> + Mul<Output = S> + PartialOrd + From<u8>>(
    value: S,
    threshold: S,
) -> S {
    let diff = value.sub_spec(threshold);
    if diff.is_le(&num::<S>(0)) {
        num::<S>(0)
    } else {
        let sq = diff.mul_spec(diff);
        if sq.is_lt(&num::<S>(1)) {
            sq
        } else {
            num::<S>(1)
        }
    }
}

/// `b` has the reset value, threshold, and links (weight, delay, target)
/// of `a`; for the numbers, as `==` on `S` judges them.
pub open spec fn equivalent<S: PartialEq>(a: Node<S>, b: Node<S>) -> bool {
    &&& a.reset.eq_spec(&b.reset)
    &&& a.threshold.eq_spec(&b.threshold)
    &&& a.links@.len() == b.links@.len()
    &&& forall|i: int|
        0 <= i < a.links@.len() ==> {
            &&& (#[trigger] a.links@[i]).weight.eq_spec(&b.links@[i].weight)
            &&& a.links@[i].delay == b.links@[i].delay
            &&& a.links@[i].out@ == b.links@[i].out@
        }
}

/// All fields but the links and the allele are those of `b`.
pub open spec fn same_but_links<S>(a: Node<S>, b: Node<S>) -> bool {
    &&& a.reset == b.reset
    &&& a.value == b.value
    &&& a.is_input == b.is_input
    &&& a.is_output == b.is_output
    &&& a.threshold == b.threshold
    &&& a.score == b.score
    &&& a.last_fired == b.last_fired
}

/// `a` holds the same fields and links as `b`.
pub open spec fn copy_of<S>(a: Node<S>, b: Node<S>) -> bool {
    &&& a.allele == b.allele
    &&& a.links@ == b.links@
    &&& same_but_links(a, b)
}

/// `a` is `b` with its score and the scores of its links set to 0.
pub open spec fn is_score_reset<S: From<u8>>(a: Node<S>, b: Node<S>) -> bool {
    &&& a.links@.len() == b.links@.len()
    &&& a.allele == b.allele
    &&& same_but_links(Node { score: b.score, ..a }, b)
    &&& forall|i: int|
        0 <= i < b.links@.len() ==> {
            &&& (#[trigger] a.links@[i]).weight == b.links@[i].weight
            &&& a.links@[i].delay == b.links@[i].delay
            &&& a.links@[i].out == b.links@[i].out
        }
    &&& nums_exact::<S>() ==> a.score == num::<S>(0) && forall|i: int|
        0 <= i < b.links@.len() ==> (#[trigger] a.links@[i]).score == num::<S>(0)
}

/// The delay that a mutation draws: the old one moved by `d - 3`
/// (`d` in `0..6`) in wrapping `u32` arithmetic, and at least 1.
pub open spec fn shifted_delay(delay: u32, d: u32) -> u32 {
    let moved = delay.wrapping_add(d.wrapping_sub(3));
    if moved < 1 {
        1
    } else {
        moved
    }
}

/// `links` with the delay of link `i` shifted by draw `d`.
pub open spec fn delay_shifted<S>(links: Seq<Link<S>>, i: int, d: u32) -> Seq<Link<S>> {
    links.update(i, Link { delay: shifted_delay(links[i].delay, d), ..links[i] })
}

/// `n` is a node as `Node::new` makes it.
pub open spec fn is_new_node<S: From<u8>>(n: Node<S>, is_input: bool, is_output: bool) -> bool {
    &&& n.allele is None
    &&& n.is_input == is_input
    &&& n.is_output == is_output
    &&& n.links@.len() == 0
    &&& n.last_fired == 0
    &&& nums_exact::<S>() ==> {
        &&& n.value == num::<S>(0)
        &&& n.reset == num::<S>(0)
        &&& n.score == num::<S>(0)
        &&& n.threshold == (if is_input { num::<S>(0) } else { num::<S>(1) })
    }
}

impl<S: From<u8>> Node<S> {
    /// A node with no links and value 0; inputs fire above 0, others above 1.
    pub fn new(is_input: bool, is_output: bool) -> (n: Node<S>)
        ensures
            is_new_node(n, is_input, is_output),
    {
        Node {
            allele: None,
            value: small(0),
            is_input,
            is_output,
            reset: small(0),
            threshold: if is_input { small(0) } else { small(1) },
            links: Vec::new(),
            last_fired: 0,
            score: small(0),
        }
    }

    /// Sets the node's score and those of its links to 0.
    pub fn reset_score(&mut self)
        ensures
            is_score_reset(*final(self), *old(self)),
    {
        self.score = small(0);
        let n = self.links.len();
        let mut i: usize = 0;
        while i < n
            invariant
                i <= n,
                n == old(self).links@.len(),
                self.links@.len() == n,
                self.allele == old(self).allele,
                self.reset == old(self).reset,
                self.value == old(self).value,
                self.is_input == old(self).is_input,
                self.is_output == old(self).is_output,
                self.threshold == old(self).threshold,
                self.last_fired == old(self).last_fired,
                nums_exact::<S>() ==> self.score == num::<S>(0),
                forall|j: int|
                    0 <= j < n ==> {
                        &&& (#[trigger] self.links@[j]).weight == old(self).links@[j].weight
                        &&& self.links@[j].delay == old(self).links@[j].delay
                        &&& self.links@[j].out == old(self).links@[j].out
                    },
                forall|j: int|
                    0 <= j < n && j >= i ==> (#[trigger] self.links@[j]).score == old(
                        self,
                    ).links@[j].score,
                nums_exact::<S>() ==> forall|j: int|
                    0 <= j < i ==> (#[trigger] self.links@[j]).score == num::<S>(0),
            decreases n - i,
        {
            self.links[i].score = small(0);
            i = i + 1;
        }
    }

    /// Adds a fresh link to `target`.
    pub fn mut_link_new(&mut self, target: String) -> (r: bool)
        ensures
            r,
            final(self).links@.len() == old(self).links@.len() + 1,
            final(self).links@.drop_last() == old(self).links@,
            is_fresh_link(final(self).links@.last(), target@),
            same_but_links(*final(self), *old(self)),
            final(self).allele == old(self).allele,
    {
        self.links.push(Link::new(target));
        proof {
            assert(self.links@.drop_last() =~= old(self).links@);
        }
        true
    }
}

impl<S> Node<S> {
    pub fn is_terminal(&self) -> (r: bool)
        ensures
            r == (self.links@.len() == 0),
    {
        self.links.len() == 0
    }

    /// One of the node's links, drawn at random, with its position.
    pub fn rand_link(&mut self) -> (res: (usize, &mut Link<S>))
        requires
            0 < old(self).links@.len() <= u32::MAX,
        ensures
            res.0 < old(self).links@.len(),
            *res.1 == old(self).links@[res.0 as int],
            final(self).links@ == old(self).links@.update(res.0 as int, *final(res.1)),
            same_but_links(*final(self), *old(self)),
            final(self).allele == old(self).allele,
    {
        let i = util::rand_int(self.links.len() as u32) as usize;
        (i, &mut self.links[i])
    }

    /// Drops a link drawn at random; `false` when there is none.
    pub fn mut_link_del(&mut self) -> (r: bool)
        requires
            old(self).links@.len() <= u32::MAX,
        ensures
            r == (old(self).links@.len() > 0),
            !r ==> *final(self) == *old(self),
            r ==> {
                &&& final(self).allele is None
                &&& same_but_links(*final(self), *old(self))
                &&& exists|i: int|
                    0 <= i < old(self).links@.len() && final(self).links@ == old(self).links@.remove(
                        i,
                    )
            },
    {
        if self.links.len() == 0 {
            return false;
        }
        let i = util::rand_int(self.links.len() as u32) as usize;
        self.links.remove(i);
        self.allele = None;
        true
    }

    /// Moves the delay of a link drawn at random by `d - 3` for a draw `d`
    /// in 0..6, in wrapping `u32` arithmetic (so a delay below 3 can wrap
    /// around to a very large one), then raises 0 to 1 (see
    /// `shifted_delay`); `false` when there is no link.
    pub fn mut_link_delay(&mut self) -> (r: bool)
        requires
            old(self).links@.len() <= u32::MAX,
        ensures
            r == (old(self).links@.len() > 0),
            !r ==> *final(self) == *old(self),
            r ==> {
                &&& final(self).allele is None
                &&& same_but_links(*final(self), *old(self))
                &&& exists|i: int, d: u32|
                    0 <= i < old(self).links@.len() && d < 6 && final(self).links@
                        == #[trigger] delay_shifted(old(self).links@, i, d)
            },
    {
        if self.links.len() == 0 {
            return false;
        }
        let ghost before = self.links@;
        let ghost mut witness: (int, u32) = (0, 0);
        {
            let (i, link) = self.rand_link();
            let d = util::rand_int(6);
            link.delay = link.delay.wrapping_add(d.wrapping_sub(3));
            if link.delay < 1 {
                link.delay = 1;
            }
            proof {
                assert(link.delay == shifted_delay(before[i as int].delay, d));
                assert(*link == Link { delay: shifted_delay(before[i as int].delay, d), ..before[i as int] });
                witness = (i as int, d);
            }
        }
        proof {
            assert(self.links@ == delay_shifted(before, witness.0, witness.1));
        }
        self.allele = None;
        true
    }
}

impl<S: Copy> Node<S> {
    /// Puts the value back to the reset value and forgets when it fired.
    pub fn reset(&mut self)
        ensures
            *final(self) == (Node { last_fired: 0, value: old(self).reset, ..*old(self) }),
    {
        self.last_fired = 0;
        self.value = self.reset;
    }

    /// A copy of the node, field for field.
    pub fn duplicate(&self) -> (n: Node<S>)
        ensures
            copy_of(n, *self),
    {
        let mut links: Vec<Link<S>> = Vec::new();
        let mut i: usize = 0;
        while i < self.links.len()
            invariant
                i <= self.links@.len(),
                links@ == self.links@.subrange(0, i as int),
            decreases self.links@.len() - i,
        {
            links.push(self.links[i].duplicate());
            proof {
                assert(links@ =~= self.links@.subrange(0, i as int + 1));
            }
            i = i + 1;
        }
        proof {
            assert(links@ =~= self.links@);
        }
        Node {
            allele: self.allele,
            reset: self.reset,
            value: self.value,
            is_input: self.is_input,
            is_output: self.is_output,
            threshold: self.threshold,
            links,
            score: self.score,
            last_fired: self.last_fired,
        }
    }
}

impl<S: PartialEq> Node<S> {
    /// Whether `node` has this node's reset value, threshold and links.
    pub fn is_equivalent_to(&self, node: &Node<S>) -> (r: bool)
        ensures
            r ==> self.links@.len() == node.links@.len(),
            r ==> forall|i: int|
                0 <= i < self.links@.len() ==> (#[trigger] self.links@[i]).delay
                    == node.links@[i].delay && self.links@[i].out@ == node.links@[i].out@,
            S::obeys_eq_spec() ==> (r == equivalent(*self, *node)),
            S::obeys_eq_spec() && r ==> forall|i: int|
                0 <= i < self.links@.len() ==> (#[trigger] self.links@[i]).weight.eq_spec(&node.links@[i].weight),
    {
        if self.reset != node.reset {
            return false;
        }
        if self.threshold != node.threshold {
            return false;
        }
        if self.links.len() != node.links.len() {
            return false;
        }
        let mut i: usize = 0;
        while i < self.links.len()
            invariant
                i <= self.links@.len(),
                self.links@.len() == node.links@.len(),
                S::obeys_eq_spec() ==> self.reset.eq_spec(&node.reset) && self.threshold.eq_spec(
                    &node.threshold,
                ),
                forall|j: int|
                    0 <= j < i ==> {
                        &&& S::obeys_eq_spec() ==> (#[trigger] self.links@[j]).weight.eq_spec(
                            &node.links@[j].weight,
                        )
                        &&& self.links@[j].delay == node.links@[j].delay
                        &&& self.links@[j].out@ == node.links@[j].out@
                    },
            decreases self.links@.len() - i,
        {
            let link = &self.links[i];
            let l = &node.links[i];
            if link.weight != l.weight {
                return false;
            }
            if link.delay != l.delay {
                return false;
            }
            if link.out != l.out {
                return false;
            }
            i = i + 1;
        }
        true
    }
}

impl<S: Copy + Add<Output = S> + Sub<Output = S> + Mul<Output = S> + PartialOrd + From<u8>> Node<S> {
    /// What the node emits when it fires: the square of its value's excess
    /// over the threshold, capped at 1; 0 when the value does not pass it.
    ///
    /// The activation is the capped square, not the value itself: a node of
    /// threshold 0 charged with 0.2 emits 0.04, and over a link of weight 2
    /// sends 0.08. It is not linear: the node does not emit its value (which
    /// would send 0.4 there).
    pub fn activated(&self) -> (r: S)
        requires
            total::<S>(),
        ensures
            exact::<S>() ==> r == activation(self.value, self.threshold),
    {
        let diff = self.value - self.threshold;
        let zero: S = small(0);
        if diff <= zero {
            return zero;
        }
        let sq = diff * diff;
        let one: S = small(1);
        if sq < one {
            sq
        } else {
            one
        }
    }
}

/// A node never emits more than 1: when `<` on `S` is a strict order under
/// which 0 < 1, no activation is above 1.
pub proof fn law_activation_at_most_one<S: Add<Output = S> + Sub<Output = S> + Mul<Output = S> + PartialOrd + From<u8>>(
    value: S,
    threshold: S,
)
    requires
        strict_order::<S>(),
        num::<S>(0).is_lt(&num::<S>(1)),
    ensures
        !num::<S>(1).is_lt(&activation(value, threshold)),
{
    let zero = num::<S>(0);
    let one = num::<S>(1);
    let r = activation(value, threshold);
    assert(one.partial_cmp_spec(&one) != Some(Ordering::Less));
    if one.is_lt(&r) {
        let diff = value.sub_spec(threshold);
        if diff.is_le(&zero) {
            assert(zero.partial_cmp_spec(&one) == Some(Ordering::Less));
            assert(one.partial_cmp_spec(&zero) == Some(Ordering::Less));
            assert(zero.partial_cmp_spec(&zero) != Some(Ordering::Less));
        } else {
            let sq = diff.mul_spec(diff);
            if sq.is_lt(&one) {
                assert(sq.partial_cmp_spec(&one) == Some(Ordering::Less));
                assert(one.partial_cmp_spec(&sq) == Some(Ordering::Less));
                assert(sq.partial_cmp_spec(&sq) != Some(Ordering::Less));
            }
        }
    }
}

/// A node never emits less than 0: when `<` on `S` is a strict order under
/// which 0 < 1 and no square is below 0, no activation is below 0.
pub proof fn law_activation_at_least_zero<S: Add<Output = S> + Sub<Output = S> + Mul<Output = S> + PartialOrd + From<u8>>(
    value: S,
    threshold: S,
)
    requires
        strict_order::<S>(),
        num::<S>(0).is_lt(&num::<S>(1)),
        forall|x: S| !(#[trigger] x.mul_spec(x)).is_lt(&num::<S>(0)),
    ensures
        !activation(value, threshold).is_lt(&num::<S>(0)),
{
    let zero = num::<S>(0);
    let one = num::<S>(1);
    assert(zero.partial_cmp_spec(&zero) != Some(Ordering::Less));
    let diff = value.sub_spec(threshold);
    if !diff.is_le(&zero) {
        let sq = diff.mul_spec(diff);
        assert(!sq.is_lt(&zero));
        if !sq.is_lt(&one) && one.is_lt(&zero) {
            assert(zero.partial_cmp_spec(&one) == Some(Ordering::Less));
            assert(one.partial_cmp_spec(&zero) == Some(Ordering::Less));
        }
    }
}

/// The scores of a sequence of links, in order.
pub open spec fn link_scores<S>(links: Seq<Link<S>>) -> Seq<S> {
    links.map_values(|l: Link<S>| l.score)
}

/// `a` is `b` with the weight of its link `i` moved by `shift` and then
/// scaled by `factor` (as the operations of `S` specify it, when they do).
pub open spec fn weight_nudged<S: Add<Output = S> + Sub<Output = S> + Mul<Output = S> + PartialOrd + From<u8>>(
    a: Link<S>,
    b: Link<S>,
    shift: S,
    factor: S,
) -> bool {
    &&& a.delay == b.delay
    &&& a.out == b.out
    &&& a.score == b.score
    &&& exact::<S>() ==> a.weight == b.weight.add_spec(shift).mul_spec(factor)
}

impl<S: Copy + Add<Output = S> + Sub<Output = S> + Mul<Output = S> + PartialOrd + From<u8>> Node<S> {
    /// Moves the weight of the link with the lowest score (the first such)
    /// by `shift`, then scales it by `factor`; `false` when there is no link.
    pub fn mut_link_weight(&mut self, shift: S, factor: S) -> (r: bool)
        requires
            total::<S>(),
        ensures
            r == (old(self).links@.len() > 0),
            !r ==> *final(self) == *old(self),
            r ==> {
                &&& final(self).allele is None
                &&& same_but_links(*final(self), *old(self))
                &&& exists|i: int|
                    0 <= i < old(self).links@.len() && (compares::<S>() ==> i == util::scan_min_index(
                        link_scores(old(self).links@),
                    )) && final(self).links@.len() == old(self).links@.len() && weight_nudged(
                        final(self).links@[i],
                        old(self).links@[i],
                        shift,
                        factor,
                    ) && forall|j: int|
                        0 <= j < old(self).links@.len() && j != i ==> #[trigger] final(self).links@[j]
                            == old(self).links@[j]
            },
    {
        if self.links.len() == 0 {
            return false;
        }
        let mut scores: Vec<S> = Vec::new();
        let mut j: usize = 0;
        while j < self.links.len()
            invariant
                j <= self.links@.len(),
                scores@ == link_scores(self.links@).subrange(0, j as int),
            decreases self.links@.len() - j,
        {
            scores.push(self.links[j].score);
            proof {
                assert(scores@ =~= link_scores(self.links@).subrange(0, j as int + 1));
            }
            j = j + 1;
        }
        proof {
            assert(scores@ =~= link_scores(self.links@));
        }
        let i = util::min_i(scores.as_slice());
        let w = self.links[i].weight;
        let nudged = (w + shift) * factor;
        let ghost before = self.links@;
        self.links[i].weight = nudged;
        proof {
            assert(self.links@[i as int] == Link { weight: nudged, ..before[i as int] });
        }
        self.allele = None;
        true
    }
}

/// Nodes whose links differ in a weight are not equivalent: when `==` on
/// `S` judges the weights of link `i` of `a` and of `b` different, `a` and
/// `b` are not equivalent, whatever else they share.
pub proof fn law_weights_tell_nodes_apart<S: PartialEq>(a: Node<S>, b: Node<S>, i: int)
    requires
        0 <= i < a.links@.len(),
        i < b.links@.len(),
        !a.links@[i].weight.eq_spec(&b.links@[i].weight),
    ensures
        !equivalent(a, b),
{
    if equivalent(a, b) {
        assert(a.links@[i].weight.eq_spec(&b.links@[i].weight));
    }
}

} // verus!
