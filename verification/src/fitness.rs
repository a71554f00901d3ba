//! Scoring a run of the network on one sample: the activations of its
//! outputs, its guess, and the score each output earns.
use vstd::prelude::*;
use std::ops::{Add, Mul, Sub};
use vstd::std_specs::cmp::PartialOrdIs;
use vstd::std_specs::ops::{AddSpec, MulSpec, SubSpec};
use crate::node::{activation, Node};
use crate::scalar::{compares, exact, num, small, total};
use crate::table::Table;
use crate::util;

verus! {

/// The activation reported for each output name: that of its node when
/// `active` holds it, else 0.
pub open spec fn reported<S: Add<Output = S> + Sub<Output = S> + Mul<Output = S> + PartialOrd + From<u8>>(
    active: Table<String, Node<S>>,
    name: Seq<char>,
) -> S {
    if active.has(name) {
        activation(active.at(name).value, active.at(name).threshold)
    } else {
        num::<S>(0)
    }
}

/// The distance between `a` and `b`: `a - b`, negated when below 0.
pub open spec fn distance<S: Add<Output = S> + Sub<Output = S> + Mul<Output = S> + PartialOrd + From<u8>>(a: S, b: S) -> S {
    let d = a.sub_spec(b);
    if d.is_lt(&num::<S>(0)) {
        num::<S>(0).sub_spec(d)
    } else {
        d
    }
}

/// The scores after one sample: output `i` (of those in `expect`) earns
/// 1 less the distance between its expected and actual activation, and, on
/// a correct guess, the guessed output first earns 100 times its activation.
pub open spec fn earned<S: Add<Output = S> + Sub<Output = S> + Mul<Output = S> + PartialOrd + From<u8>>(
    scores: Seq<S>,
    out: Seq<S>,
    expect: Seq<S>,
    ok: bool,
    guess: int,
) -> Seq<S> {
    Seq::new(
        scores.len(),
        |i: int|
            if i < expect.len() {
                let base = if ok && i == guess {
                    scores[i].add_spec(num::<S>(100).mul_spec(out[i]))
                } else {
                    scores[i]
                };
                base.add_spec(num::<S>(1).sub_spec(distance(expect[i], out[i])))
            } else {
                scores[i]
            },
    )
}

/// The activation reported for each of `outputs`, in order: that of its
/// node in `active` (what the last tick reported), or 0 when absent.
pub fn output_activations<S: Copy + Add<Output = S> + Sub<Output = S> + Mul<Output = S> + PartialOrd + From<u8>>(
    active: &Table<String, Node<S>>,
    outputs: &Vec<String>,
) -> (out: Vec<S>)
    requires
        active.wf(),
        total::<S>(),
    ensures
        out@.len() == outputs@.len(),
        exact::<S>() ==> forall|i: int|
            0 <= i < outputs@.len() ==> #[trigger] out@[i] == reported(*active, outputs@[i]@),
{
    let mut out: Vec<S> = Vec::new();
    let mut i: usize = 0;
    while i < outputs.len()
        invariant
            active.wf(),
            total::<S>(),
            i <= outputs@.len(),
            out@.len() == i,
            exact::<S>() ==> forall|j: int| 0 <= j < i ==> #[trigger] out@[j] == reported(*active, outputs@[j]@),
        decreases outputs@.len() - i,
    {
        match active.get(&outputs[i]) {
            Some(n) => out.push(n.activated()),
            None => out.push(small(0)),
        }
        i = i + 1;
    }
    out
}

/// Scores one sample: the guess is the first output of highest activation,
/// the expected answer the first greatest of `expect`; the guess is right
/// when some output fired and it is the expected one. Adds what each output
/// earns (see `earned`) to `scores`; returns the guess, the expected answer
/// and whether the guess was right.
pub fn score_sample<S: Copy + Add<Output = S> + Sub<Output = S> + Mul<Output = S> + PartialOrd + From<u8>>(
    out: &Vec<S>,
    expect: &Vec<S>,
    any_active: bool,
    scores: &mut Vec<S>,
) -> (r: (usize, usize, bool))
    requires
        out@.len() == expect@.len(),
        expect@.len() > 0,
        old(scores)@.len() >= expect@.len(),
        total::<S>(),
    ensures
        r.0 < out@.len(),
        r.1 < expect@.len(),
        compares::<S>() ==> r.0 == util::scan_max_index(out@) && r.1 == util::scan_max_index(expect@),
        r.2 == (any_active && r.0 == r.1),
        final(scores)@.len() == old(scores)@.len(),
        exact::<S>() ==> final(scores)@ == earned(old(scores)@, out@, expect@, r.2, r.0 as int),
{
    let guess = util::max_i(out.as_slice());
    let expected = util::max_i(expect.as_slice());
    let ok = any_active && guess == expected;
    let ghost s0 = scores@;
    if ok {
        let hundred: S = small(100);
        let bonus = hundred * out[guess];
        let s = scores[guess] + bonus;
        scores[guess] = s;
    }
    let ghost s1 = scores@;
    let zero: S = small(0);
    let one: S = small(1);
    let n = expect.len();
    let mut i: usize = 0;
    while i < n
        invariant
            total::<S>(),
            n == expect@.len(),
            n == out@.len(),
            i <= n,
            guess < n,
            scores@.len() == s0.len(),
            s1.len() == s0.len(),
            s0.len() >= n,
            exact::<S>() ==> zero == num::<S>(0) && one == num::<S>(1),
            exact::<S>() ==> forall|j: int|
                0 <= j < s0.len() && j != guess ==> #[trigger] s1[j] == s0[j],
            exact::<S>() ==> (ok ==> s1[guess as int] == s0[guess as int].add_spec(
                num::<S>(100).mul_spec(out@[guess as int]),
            )) && (!ok ==> s1[guess as int] == s0[guess as int]),
            exact::<S>() ==> forall|j: int|
                0 <= j < i ==> #[trigger] scores@[j] == earned(s0, out@, expect@, ok, guess as int)[j],
            forall|j: int| i <= j < s0.len() ==> #[trigger] scores@[j] == s1[j],
        decreases n - i,
    {
        let d = expect[i] - out[i];
        let err = if d < zero {
            zero - d
        } else {
            d
        };
        let s = scores[i] + (one - err);
        scores[i] = s;
        i = i + 1;
    }
    proof {
        if exact::<S>() {
            assert(scores@ =~= earned(s0, out@, expect@, ok, guess as int));
        }
    }
    (guess, expected, ok)
}

} // verus!
