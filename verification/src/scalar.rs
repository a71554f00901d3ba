//! The numbers of the network: values, thresholds, weights and scores.
//!
//! They are kept generic: any type with `+`, `-`, `*`, comparison and small
//! integer constants will do. Where the contracts speak of what the results
//! of those operations are, they do so for number types whose operations
//! follow their specifications (`exact`).
use vstd::prelude::*;
use std::ops::{Add, Mul, Sub};
use vstd::std_specs::cmp::PartialOrdSpec;
use vstd::std_specs::convert::FromSpec;
use vstd::std_specs::ops::{AddSpec, MulSpec, SubSpec};
use core::cmp::Ordering;

verus! {

/// The operations of `S` never refuse their operands.
pub open spec fn total<S: Add<Output = S> + Sub<Output = S> + Mul<Output = S>>() -> bool {
    &&& forall|a: S, b: S| #[trigger] a.add_req(b)
    &&& forall|a: S, b: S| #[trigger] a.sub_req(b)
    &&& forall|a: S, b: S| #[trigger] a.mul_req(b)
}

/// Addition on `S` never refuses its operands.
pub open spec fn adds_total<S: Add<Output = S>>() -> bool {
    forall|a: S, b: S| #[trigger] a.add_req(b)
}

/// Addition on `S` returns what its specification says.
pub open spec fn adds_exact<S: Add<Output = S>>() -> bool {
    S::obeys_add_spec()
}

/// `x` with `s` added `c` times, one addition after the other.
pub open spec fn add_times<S: Add<Output = S>>(x: S, s: S, c: nat) -> S
    decreases c,
{
    if c == 0 {
        x
    } else {
        add_times(x, s, (c - 1) as nat).add_spec(s)
    }
}

/// The operations of `S` return what their specifications say.
pub open spec fn exact<S: Add<Output = S> + Sub<Output = S> + Mul<Output = S> + PartialOrd + From<u8>>() -> bool {
    &&& S::obeys_add_spec()
    &&& S::obeys_sub_spec()
    &&& S::obeys_mul_spec()
    &&& S::obeys_partial_cmp_spec()
    &&& nums_exact::<S>()
}

/// Comparisons on `S` return what their specification says.
pub open spec fn compares<S: PartialOrd>() -> bool {
    S::obeys_partial_cmp_spec()
}

/// Comparisons on `S` return what their specification says, and `<` is a
/// strict order: never `a < a`, `a < b < c` gives `a < c`, and `a < b`
/// exactly when `b > a`.
pub open spec fn strict_order<S: PartialOrd>() -> bool {
    &&& S::obeys_partial_cmp_spec()
    &&& forall|a: S| #[trigger] a.partial_cmp_spec(&a) != Some(Ordering::Less)
    &&& forall|a: S, b: S|
        #![trigger a.partial_cmp_spec(&b)]
        #![trigger b.partial_cmp_spec(&a)]
        (a.partial_cmp_spec(&b) == Some(Ordering::Less)) == (b.partial_cmp_spec(&a) == Some(
            Ordering::Greater,
        ))
    &&& forall|a: S, b: S, c: S|
        #![trigger a.partial_cmp_spec(&b), b.partial_cmp_spec(&c)]
        a.partial_cmp_spec(&b) == Some(Ordering::Less) && b.partial_cmp_spec(&c) == Some(
            Ordering::Less,
        ) ==> a.partial_cmp_spec(&c) == Some(Ordering::Less)
}

/// `S::from` on small integers returns what its specification says.
pub open spec fn nums_exact<S: From<u8>>() -> bool {
    S::obeys_from_spec()
}

/// The number `n` of type `S`.
pub open spec fn num<S: From<u8>>(n: u8) -> S {
    S::from_spec(n)
}

/// The number `n` of type `S`.
pub fn small<S: From<u8>>(n: u8) -> (r: S)
    ensures
        nums_exact::<S>() ==> r == num::<S>(n),
{
    S::from(n)
}

} // verus!
