//! Random draws, clocks, and small helpers over sequences and tables.
use vstd::prelude::*;
use vstd::std_specs::cmp::{PartialOrdIs, PartialOrdSpec};
use vstd::std_specs::hash::{builds_valid_hashers, obeys_key_model};
use std::collections::HashSet;
use std::collections::hash_map::RandomState;
use std::hash::Hash;
use rand::Rng;
use crate::table::{Table, TableKey};
use crate::scalar::strict_order;
use core::cmp::Ordering;

verus! {

/// `String::push` appends one character (std documentation).
pub assume_specification[ String::push ](s: &mut String, ch: char)
    ensures
        final(s)@ == old(s)@.push(ch),
;

/// Draws from `rand::Rng::gen_range(0, max)` on the thread-local generator,
/// which samples uniformly from `[0, max)` and panics when `max == 0`.
/// The contract states the range only; the draw itself is random.
#[verifier::external_body]
pub fn rand_int(max: u32) -> (r: u32)
    requires
        0 < max,
    ensures
        r < max,
{
    rand::thread_rng().gen_range(0, max)
}

/// `rand::Rng::gen_range(0, max)` over `usize`: a value in `[0, max)`;
/// the range is all that is stated.
#[verifier::external_body]
pub fn rand_usize(max: usize) -> (r: usize)
    requires
        0 < max,
    ensures
        r < max,
{
    rand::thread_rng().gen_range(0, max)
}

/// `rand::Rng::gen_range(min, max)` over `i32`: a value in `[min, max)`;
/// the range is all that is stated.
#[verifier::external_body]
pub fn rand_intr(min: i32, max: i32) -> (r: i32)
    requires
        min < max,
    ensures
        min <= r < max,
{
    rand::thread_rng().gen_range(min, max)
}

/// `rand::Rng::shuffle` (Fisher-Yates swaps): the vector afterwards holds
/// the same elements, each as often as before; which order comes out is
/// random and not stated.
#[verifier::external_body]
#[allow(deprecated)]
pub fn shuffle<T>(vec: &mut Vec<T>)
    ensures
        final(vec)@.to_multiset() == old(vec)@.to_multiset(),
{
    rand::thread_rng().shuffle(vec)
}

/// A string of `size` capital letters `A`..`Z`, drawn at random.
pub fn rand_string(size: u32) -> (s: String)
    ensures
        s@.len() == size,
        forall|i: int| 0 <= i < size ==> 'A' <= #[trigger] s@[i] <= 'Z',
{
    let mut s = String::new();
    let mut n: u32 = 0;
    while n < size
        invariant
            n <= size,
            s@.len() == n,
            forall|i: int| 0 <= i < n ==> 'A' <= #[trigger] s@[i] <= 'Z',
        decreases size - n,
    {
        let offset = rand_int(26);
        let c = (65u8 + offset as u8) as char;
        s.push(c);
        n = n + 1;
    }
    s
}

/// `std::time::SystemTime`, a reading of the system clock.
#[verifier::external_type_specification]
#[verifier::external_body]
pub struct ExSystemTime(std::time::SystemTime);

/// `SystemTime::now`: the system clock's reading; nothing is stated of it.
#[verifier::external_body]
fn system_now() -> std::time::SystemTime {
    std::time::SystemTime::now()
}

/// `SystemTime::duration_since(UNIX_EPOCH)`: the span since the Unix epoch,
/// or `None` where the documentation gives an error (`t` before the epoch).
/// Nothing is stated of which reading gives which.
#[verifier::external_body]
fn since_epoch(t: &std::time::SystemTime) -> Option<std::time::Duration> {
    t.duration_since(std::time::UNIX_EPOCH).ok()
}

/// `Duration::as_secs`: the whole seconds of the span.
#[verifier::external_body]
fn whole_secs(d: &std::time::Duration) -> u64 {
    d.as_secs()
}

/// `Duration::subsec_nanos`: the nanoseconds past the whole seconds, which
/// the documentation puts below one second.
#[verifier::external_body]
fn subsec_nanos(d: &std::time::Duration) -> (r: u32)
    ensures
        r < 1_000_000_000,
{
    d.subsec_nanos()
}

/// Milliseconds from whole seconds and sub-second nanoseconds, in `usize`
/// arithmetic that wraps around.
pub open spec fn millis_spec(secs: u64, nanos: u32) -> usize {
    (secs as usize).wrapping_mul(1000).wrapping_add((nanos / 1_000_000) as usize)
}

pub fn millis_of(secs: u64, nanos: u32) -> (r: usize)
    ensures
        r == millis_spec(secs, nanos),
{
    let s = secs as usize;
    s.wrapping_mul(1000).wrapping_add((nanos / 1_000_000) as usize)
}

/// Milliseconds since the Unix epoch, from the whole seconds and the
/// nanoseconds past them; `None` when the clock reads before the epoch.
pub fn now() -> (r: Option<usize>)
    ensures
        r matches Some(v) ==> exists|secs: u64, nanos: u32|
            nanos < 1_000_000_000 && v == #[trigger] millis_spec(secs, nanos),
{
    match since_epoch(&system_now()) {
        Some(d) => Some(millis_of(whole_secs(&d), subsec_nanos(&d))),
        None => None,
    }
}

/// `time::precise_time_ns`: a reading of the monotonic clock, in
/// nanoseconds since an unspecified moment; nothing is stated of it.
#[verifier::external_body]
fn precise_ns() -> u64 {
    time::precise_time_ns()
}

/// The span from reading `start` to reading `later`, in nanoseconds: the
/// difference in wrapping `u64` arithmetic, taken as an `i64`.
pub open spec fn span_spec(start: u64, later: u64) -> i64 {
    (later.wrapping_sub(start)) as i64
}

/// The span from reading `start` to reading `later`, in nanoseconds.
pub fn span_ns(start: u64, later: u64) -> (d: i64)
    ensures
        d == span_spec(start, later),
{
    later.wrapping_sub(start) as i64
}

/// A stopwatch started at a reading of the monotonic clock.
pub struct Time {
    start: u64,
}

impl Time {
    /// The reading the stopwatch started at, in nanoseconds.
    pub closed spec fn started_at(&self) -> u64 {
        self.start
    }

    /// A stopwatch started now.
    pub fn start() -> Time {
        Time { start: precise_ns() }
    }

    /// The nanoseconds elapsed since the stopwatch started: the span from its
    /// start to a new reading of the clock.
    pub fn diff(&self) -> (d: i64)
        ensures
            exists|later: u64| d == #[trigger] span_spec(self.started_at(), later),
    {
        let later = precise_ns();
        let d = span_ns(self.start, later);
        assert(d == span_spec(self.started_at(), later));
        d
    }
}

/// A stopwatch started now.
pub fn time() -> Time {
    Time::start()
}

/// The index that a left-to-right scan keeping the first greatest element
/// ends on: 0 for an empty sequence.
pub open spec fn scan_max_index<T: PartialOrd>(s: Seq<T>) -> int
    decreases s.len(),
{
    if s.len() <= 1 {
        0
    } else {
        let m = scan_max_index(s.drop_last());
        if s.last().is_gt(&s[m]) {
            s.len() - 1
        } else {
            m
        }
    }
}

/// The index that a left-to-right scan keeping the first least element
/// ends on: 0 for an empty sequence.
pub open spec fn scan_min_index<T: PartialOrd>(s: Seq<T>) -> int
    decreases s.len(),
{
    if s.len() <= 1 {
        0
    } else {
        let m = scan_min_index(s.drop_last());
        if s.last().is_lt(&s[m]) {
            s.len() - 1
        } else {
            m
        }
    }
}

proof fn lemma_scan_max_bounds<T: PartialOrd>(s: Seq<T>)
    ensures
        s.len() > 0 ==> 0 <= scan_max_index(s) < s.len(),
        s.len() == 0 ==> scan_max_index(s) == 0,
    decreases s.len(),
{
    if s.len() > 1 {
        lemma_scan_max_bounds(s.drop_last());
    }
}

proof fn lemma_scan_min_bounds<T: PartialOrd>(s: Seq<T>)
    ensures
        s.len() > 0 ==> 0 <= scan_min_index(s) < s.len(),
        s.len() == 0 ==> scan_min_index(s) == 0,
    decreases s.len(),
{
    if s.len() > 1 {
        lemma_scan_min_bounds(s.drop_last());
    }
}

/// `max_i` finds a greatest element: when `<` is a strict order, no element
/// is greater than the one at the index the scan settles on.
pub proof fn law_max_i_greatest<T: PartialOrd>(s: Seq<T>)
    requires
        strict_order::<T>(),
        s.len() > 0,
    ensures
        forall|j: int| 0 <= j < s.len() ==> !(#[trigger] s[j]).is_gt(&s[scan_max_index(s)]),
    decreases s.len(),
{
    lemma_scan_max_bounds(s);
    if s.len() > 1 {
        let q = s.drop_last();
        law_max_i_greatest(q);
        lemma_scan_max_bounds(q);
        let m = scan_max_index(q);
        assert(q[m] == s[m]);
        assert forall|j: int| 0 <= j < s.len() implies !(#[trigger] s[j]).is_gt(&s[scan_max_index(s)]) by {
            let last = s.last();
            if last.is_gt(&s[m]) {
                if j < s.len() - 1 {
                    assert(q[j] == s[j]);
                    if s[j].is_gt(&last) {
                        assert(s[m].partial_cmp_spec(&last) == Some(Ordering::Less));
                        assert(last.partial_cmp_spec(&s[j]) == Some(Ordering::Less));
                        assert(s[m].partial_cmp_spec(&s[j]) == Some(Ordering::Less));
                        assert(s[j].partial_cmp_spec(&s[m]) == Some(Ordering::Greater));
                    }
                } else {
                    assert(last.partial_cmp_spec(&last) != Some(Ordering::Less));
                }
            } else if j < s.len() - 1 {
                assert(q[j] == s[j]);
            } else {
                assert(s[m].partial_cmp_spec(&last) != Some(Ordering::Less));
            }
        }
    }
}

/// `min_i` finds a least element: when `<` is a strict order, no element is
/// less than the one at the index the scan settles on.
pub proof fn law_min_i_least<T: PartialOrd>(s: Seq<T>)
    requires
        strict_order::<T>(),
        s.len() > 0,
    ensures
        forall|j: int| 0 <= j < s.len() ==> !(#[trigger] s[j]).is_lt(&s[scan_min_index(s)]),
    decreases s.len(),
{
    lemma_scan_min_bounds(s);
    if s.len() > 1 {
        let q = s.drop_last();
        law_min_i_least(q);
        lemma_scan_min_bounds(q);
        let m = scan_min_index(q);
        assert(q[m] == s[m]);
        assert forall|j: int| 0 <= j < s.len() implies !(#[trigger] s[j]).is_lt(&s[scan_min_index(s)]) by {
            let last = s.last();
            if last.is_lt(&s[m]) {
                if j < s.len() - 1 {
                    assert(q[j] == s[j]);
                    if s[j].is_lt(&last) {
                        assert(s[j].partial_cmp_spec(&last) == Some(Ordering::Less));
                        assert(last.partial_cmp_spec(&s[m]) == Some(Ordering::Less));
                    }
                } else {
                    assert(last.partial_cmp_spec(&last) != Some(Ordering::Less));
                }
            } else if j < s.len() - 1 {
                assert(q[j] == s[j]);
            }
        }
    }
}

/// The first `n` elements of `s`.
pub open spec fn prefix<T>(s: Seq<T>, n: usize) -> Seq<T> {
    s.subrange(0, n as int)
}

/// The element of `s` at position `n`.
pub open spec fn elem<T>(s: Seq<T>, n: usize) -> T {
    s[n as int]
}

proof fn lemma_prefix_step<T>(s: Seq<T>, i: usize, m: usize)
    requires
        m < i < s.len(),
        s.len() <= usize::MAX,
    ensures
        prefix(s, (i + 1) as usize).drop_last() == prefix(s, i),
        prefix(s, (i + 1) as usize).last() == elem(s, i),
        prefix(s, (i + 1) as usize)[m as int] == elem(s, m),
        prefix(s, (i + 1) as usize).len() > 1,
{
    assert(prefix(s, (i + 1) as usize).drop_last() =~= prefix(s, i));
}

proof fn lemma_prefix_full<T>(s: Seq<T>)
    requires
        s.len() <= usize::MAX,
    ensures
        prefix(s, s.len() as usize) == s,
        s.len() > 0 ==> prefix(s, 1) =~= seq![s[0]],
{
    assert(prefix(s, s.len() as usize) =~= s);
}

/// The index of the first greatest element (0 when `v` is empty). For types
/// whose comparison follows its specification the index is the scan's.
pub fn max_i<T: PartialOrd>(v: &[T]) -> (r: usize)
    ensures
        v@.len() == 0 ==> r == 0,
        v@.len() > 0 ==> r < v@.len(),
        T::obeys_partial_cmp_spec() ==> r == scan_max_index(v@),
{
    let mut max: usize = 0;
    let mut i: usize = 1;
    let n = v.len();
    proof {
        lemma_scan_max_bounds(v@);
        lemma_prefix_full(v@);
    }
    if n == 0 {
        return 0;
    }
    while i < v.len()
        invariant
            1 <= i <= v@.len(),
            max < i,
            T::obeys_partial_cmp_spec() ==> max == scan_max_index(prefix(v@, i)),
        decreases v@.len() - i,
    {
        proof {
            lemma_prefix_step(v@, i, max);
        }
        if v[i] > v[max] {
            max = i;
        }
        i = i + 1;
    }
    proof {
        lemma_prefix_full(v@);
    }
    max
}

/// The index of the first least element (0 when `v` is empty). For types
/// whose comparison follows its specification the index is the scan's.
pub fn min_i<T: PartialOrd>(v: &[T]) -> (r: usize)
    ensures
        v@.len() == 0 ==> r == 0,
        v@.len() > 0 ==> r < v@.len(),
        T::obeys_partial_cmp_spec() ==> r == scan_min_index(v@),
{
    let mut min: usize = 0;
    let mut i: usize = 1;
    let n = v.len();
    proof {
        lemma_scan_min_bounds(v@);
        lemma_prefix_full(v@);
    }
    if n == 0 {
        return 0;
    }
    while i < v.len()
        invariant
            1 <= i <= v@.len(),
            min < i,
            T::obeys_partial_cmp_spec() ==> min == scan_min_index(prefix(v@, i)),
        decreases v@.len() - i,
    {
        proof {
            lemma_prefix_step(v@, i, min);
        }
        if v[i] < v[min] {
            min = i;
        }
        i = i + 1;
    }
    proof {
        lemma_prefix_full(v@);
    }
    min
}

/// The rank that draw `u` (below 2^20) gives among `len`: ⌊(u / 2^20)^3 · len⌋.
pub open spec fn rank_of(u: int, len: int) -> int {
    (u * u * u * len) / 0x1000_0000_0000_0000
}

/// `r` is the rank that some draw below 2^20 gives among `len` (see `rank_of`).
pub open spec fn skewed(r: int, len: int) -> bool {
    exists|u: int| 0 <= u < 0x10_0000 && r == #[trigger] rank_of(u, len)
}

/// The rank that draw `u` gives among `len` ranks: ⌊(u / 2^20)^3 · len⌋,
/// below `len`.
pub fn rank_of_draw(u: u32, len: usize) -> (r: usize)
    requires
        u < 0x10_0000,
        len > 0,
    ensures
        r == rank_of(u as int, len as int),
        r < len,
{
    let u = u as u128;
    proof {
        assert(u * u < 0x100_0000_0000) by (nonlinear_arith)
            requires
                u < 0x10_0000,
        ;
        assert(u * u * u < 0x1000_0000_0000_0000) by (nonlinear_arith)
            requires
                u < 0x10_0000,
                u * u < 0x100_0000_0000,
        ;
        assert(u * u * u * len < 0x1000_0000_0000_0000 * len) by (nonlinear_arith)
            requires
                u * u * u < 0x1000_0000_0000_0000,
                len > 0,
        ;
        assert(0x1000_0000_0000_0000 * (len as int) <= 0x1000_0000_0000_0000 * 0xffff_ffff_ffff_ffff) by (nonlinear_arith)
            requires
                len <= 0xffff_ffff_ffff_ffff,
        ;
    }
    let sq = u * u;
    let cube = sq * u;
    let scaled = cube * (len as u128);
    let r = scaled / 0x1000_0000_0000_0000u128;
    proof {
        assert(r < len) by (nonlinear_arith)
            requires
                scaled < 0x1000_0000_0000_0000 * len,
                r == scaled / 0x1000_0000_0000_0000,
        ;
    }
    r as usize
}

/// A rank below `len`, drawn so that the first ranks come up far more often
/// than the last: the rank (see `rank_of_draw`) of a draw `u` made
/// uniformly below 2^20.
pub fn skewed_rank(len: usize) -> (r: usize)
    requires
        len > 0,
    ensures
        r < len,
        skewed(r as int, len as int),
{
    let u = rand_int(0x10_0000);
    let r = rank_of_draw(u, len);
    proof {
        assert(r == rank_of(u as int, len as int));
    }
    r
}

/// Later draws give later ranks: the rank grows with the draw.
pub proof fn law_rank_grows_with_draw(u1: int, u2: int, len: int)
    requires
        0 <= u1 <= u2,
        len >= 0,
    ensures
        rank_of(u1, len) <= rank_of(u2, len),
{
    assert(u1 * u1 <= u2 * u2) by (nonlinear_arith)
        requires
            0 <= u1 <= u2,
    ;
    assert(u1 * u1 * u1 <= u2 * u2 * u2) by (nonlinear_arith)
        requires
            0 <= u1 <= u2,
            u1 * u1 <= u2 * u2,
    ;
    assert(u1 * u1 * u1 * len <= u2 * u2 * u2 * len) by (nonlinear_arith)
        requires
            u1 * u1 * u1 <= u2 * u2 * u2,
            len >= 0,
    ;
    vstd::arithmetic::div_mod::lemma_div_is_ordered(u1 * u1 * u1 * len, u2 * u2 * u2 * len, 0x1000_0000_0000_0000);
}

/// The ranks favour the best: every draw of the lower half (below 2^19)
/// gives a rank in the first eighth (8 times the rank is below `len`).
pub proof fn law_half_the_draws_in_first_eighth(u: int, len: int)
    requires
        0 <= u < 0x8_0000,
        len > 0,
    ensures
        8 * rank_of(u, len) < len,
{
    assert(u * u * u < 0x200_0000_0000_0000) by (nonlinear_arith)
        requires
            0 <= u < 0x8_0000,
    ;
    assert(u * u * u * len < 0x200_0000_0000_0000 * len) by (nonlinear_arith)
        requires
            0 <= u * u * u < 0x200_0000_0000_0000,
            len > 0,
    ;
    let q = rank_of(u, len);
    assert(q * 0x1000_0000_0000_0000 <= u * u * u * len) by (nonlinear_arith)
        requires
            q == (u * u * u * len) / 0x1000_0000_0000_0000,
            u * u * u * len >= 0,
    ;
    assert(8 * q < len) by (nonlinear_arith)
        requires
            q * 0x1000_0000_0000_0000 <= u * u * u * len,
            u * u * u * len < 0x200_0000_0000_0000 * len,
    ;
}

/// Picks a random entry of a table: `None` exactly when it is empty.
fn rand_entry<K: TableKey, V>(hash: &Table<K, V>) -> (r: Option<usize>)
    ensures
        r is None <==> hash.pairs().len() == 0,
        r matches Some(i) ==> i < hash.pairs().len(),
{
    if hash.is_empty() {
        return None;
    }
    Some(rand_usize(hash.len()))
}

/// A value of the table drawn at random; `None` when the table is empty.
pub fn rand_hash<K: TableKey, V>(hash: &Table<K, V>) -> (r: Option<&V>)
    ensures
        r is None <==> hash.pairs().len() == 0,
        r matches Some(v) ==> exists|i: int|
            0 <= i < hash.pairs().len() && hash.pairs()[i].1 == *v,
{
    match rand_entry(hash) {
        Some(i) => Some(hash.value_at(i)),
        None => None,
    }
}

/// A value of the table drawn at random, to change in place, with its
/// position; `None` when the table is empty.
pub fn rand_hash_mut<K: TableKey, V>(hash: &mut Table<K, V>) -> (r: Option<(usize, &mut V)>)
    ensures
        r is None <==> old(hash).pairs().len() == 0,
        r is None ==> *final(hash) == *old(hash),
        r matches Some(e) ==> {
            &&& e.0 < old(hash).pairs().len()
            &&& *e.1 == old(hash).pairs()[e.0 as int].1
            &&& final(hash).pairs() == old(hash).pairs().update(
                e.0 as int,
                (old(hash).pairs()[e.0 as int].0, *final(e.1)),
            )
            &&& final(hash).keys() == old(hash).keys()
        },
{
    match rand_entry(hash) {
        Some(i) => Some((i, hash.value_at_mut(i))),
        None => None,
    }
}

/// A key of the table drawn at random; `None` when the table is empty.
pub fn rand_hash_key<K: TableKey, V>(hash: &Table<K, V>) -> (r: Option<&K>)
    ensures
        r is None <==> hash.pairs().len() == 0,
        r matches Some(k) ==> exists|i: int|
            0 <= i < hash.pairs().len() && hash.pairs()[i].0 == *k,
{
    match rand_entry(hash) {
        Some(i) => Some(hash.key_at(i)),
        None => None,
    }
}

/// The value under `key`, which must be present (the caller asks for it by
/// name and a missing name is a bug).
pub fn gmut<'a, T>(hm: &'a mut Table<String, T>, key: &String) -> (r: &'a mut T)
    requires
        old(hm).wf(),
        old(hm).has(key@),
    ensures
        *r == old(hm).at(key@),
        final(hm).wf(),
        final(hm).pairs() == old(hm).pairs().update(
            old(hm).keys().index_of(key@),
            (old(hm).pairs()[old(hm).keys().index_of(key@)].0, *final(r)),
        ),
{
    let i = hm.find(key).unwrap();
    hm.value_at_mut(i)
}

/// `f` holds a copy made from an element of `s`.
pub open spec fn copies_member<T: Clone>(s: Set<T>, f: Option<T>) -> bool {
    f matches Some(v) && exists|e: T| s.contains(e) && cloned::<T>(e, v)
}

/// Takes some element out of a non-empty set: the copy returned was made
/// from an element of the set, and the set no longer holds the copy.
pub fn pop<T: Eq + Clone + Hash>(set: &mut HashSet<T>) -> (r: T)
    requires
        old(set)@.len() > 0,
        obeys_key_model::<T>(),
        builds_valid_hashers::<RandomState>(),
    ensures
        exists|e: T| old(set)@.contains(e) && cloned::<T>(e, r),
        final(set)@ == old(set)@.remove(r),
{
    let mut found: Option<T> = None;
    let ghost orig = set@;
    proof {
        vstd::std_specs::hash::axiom_spec_hash_keys_iter(&*set);
    }
    for x in it: set.iter()
        invariant_except_break
            found is None,
            it.index() == 0,
        invariant
            obeys_key_model::<T>(),
            builds_valid_hashers::<RandomState>(),
            set@ == old(set)@,
            orig == old(set)@,
            orig.len() > 0,
            it.snapshot@ == vstd::std_specs::hash::spec_hash_keys_iter(&*set),
            it.seq().len() == old(set)@.len(),
            it.seq().unref().to_set() == old(set)@,
        ensures
            copies_member(orig, found),
    {
        proof {
            let keys = vstd::std_specs::hash::spec_hash_keys_iter(&*set);
            assert(it.snapshot@ == keys);
            assert(it.seq()[0] == x);
            assert(it.seq().unref()[0] == *x);
            assert(it.seq().unref().to_set().contains(*x));
            assert(old(set)@.contains(*x));
        }
        let c = x.clone();
        proof {
            assert(cloned::<T>(*x, c));
        }
        found = Some(c);
        proof {
            assert(orig.contains(*x) && cloned::<T>(*x, c));
        }
        break;
    }
    let elt = found.unwrap();
    set.remove(&elt);
    elt
}

} // verus!
