//! A synapse: it carries a node's activation to the node named `out`,
//! `delay` ticks later, scaled by `weight`.
use vstd::prelude::*;
use crate::scalar::{num, nums_exact, small};
use crate::util;

verus! {

pub struct Link<S> {
    pub weight: S,
    pub delay: u32,
    pub out: String,
    pub score: S,
}

/// A fresh link to `out`: weight 1, score 0, a delay of 2 ticks.
pub open spec fn is_fresh_link<S: From<u8>>(l: Link<S>, out: Seq<char>) -> bool {
    &&& l.out@ == out
    &&& l.delay == 2
    &&& nums_exact::<S>() ==> l.weight == num::<S>(1) && l.score == num::<S>(0)
}

impl<S: From<u8>> Link<S> {
    pub fn new(out: String) -> (l: Link<S>)
        ensures
            is_fresh_link(l, out@),
    {
        let delay = util::rand_intr(2, 3);
        Link { out, score: small(0), weight: small(1), delay: delay as u32 }
    }
}

impl<S: Copy> Link<S> {
    /// A copy of the link, field for field.
    pub fn duplicate(&self) -> (l: Link<S>)
        ensures
            l == *self,
    {
        Link { weight: self.weight, delay: self.delay, out: self.out.clone(), score: self.score }
    }
}

} // verus!
