//! A gene: the variants (alleles) of one node that the pool has seen, each
//! with the scores it has earned.
use vstd::prelude::*;
use vstd::std_specs::cmp::{PartialEqSpec, PartialOrdIs, PartialOrdSpec};
use crate::node::{copy_of, equivalent, Node};
use crate::scalar::{compares, num, nums_exact, small, strict_order};
use crate::util::{prefix, skewed, skewed_rank};
use core::cmp::Ordering;
use crate::table::{lemma_index_of_unique, Table};
use crate::util;

verus! {

/// One variant of a node, with the running average of its scores.
pub struct Allele<S, D> {
    pub tot_score: D,
    pub avg_score: S,
    pub exp_count: S,
    pub count: u32,
    pub score_history: Vec<S>,
    pub node: Node<S>,
}

/// The variants of one node, by id.
pub struct Gene<S, D> {
    pub received_alleles: u32,
    pub alleles: Table<u32, Allele<S, D>>,
}

/// `a` is a fresh record of `n`: a copy of the node and no score yet.
pub open spec fn is_fresh_allele<S: From<u8>, D: From<u8>>(a: Allele<S, D>, n: Node<S>) -> bool {
    &&& copy_of(a.node, n)
    &&& a.count == 0
    &&& a.score_history@.len() == 0
    &&& nums_exact::<S>() ==> a.avg_score == num::<S>(0) && a.exp_count == num::<S>(0)
    &&& nums_exact::<D>() ==> a.tot_score == num::<D>(0)
}

/// `id` names an allele of `g`.
pub open spec fn knows<S, D>(g: Gene<S, D>, id: Option<u32>) -> bool {
    id matches Some(k) && g.alleles.has(k)
}

/// Position `j` holds the first allele whose node is equivalent to `n`.
pub open spec fn first_equivalent<S: PartialEq, D>(p: Seq<(u32, Allele<S, D>)>, n: Node<S>, j: int) -> bool {
    &&& 0 <= j < p.len()
    &&& equivalent(n, p[j].1.node)
    &&& forall|i: int| 0 <= i < j ==> !equivalent(n, #[trigger] p[i].1.node)
}

/// No allele's node is equivalent to `n`.
pub open spec fn none_equivalent<S: PartialEq, D>(p: Seq<(u32, Allele<S, D>)>, n: Node<S>) -> bool {
    forall|i: int| 0 <= i < p.len() ==> !equivalent(n, #[trigger] p[i].1.node)
}

/// `g1` is `g0` with node `n0`, renamed `n1`, registered as a new allele:
/// `n1` keeps the id of `n0` or, lacking one, draws one below 999,999,999,
/// and a fresh allele of `n1` is stored under that id.
pub open spec fn registered<S: From<u8>, D: From<u8>>(g0: Gene<S, D>, g1: Gene<S, D>, n0: Node<S>, n1: Node<S>) -> bool {
    &&& g1.received_alleles == g0.received_alleles + 1
    &&& n1.allele is Some
    &&& n0.allele is Some ==> n1.allele == n0.allele
    &&& n0.allele is None ==> n1.allele.unwrap() < 999_999_999
    &&& g1.alleles.has(n1.allele.unwrap())
    &&& is_fresh_allele(g1.alleles.at(n1.allele.unwrap()), n1)
    &&& forall|j: u32|
        j != n1.allele.unwrap() ==> (#[trigger] g1.alleles.has(j) == g0.alleles.has(j) && (
        g0.alleles.has(j) ==> g1.alleles.at(j) == g0.alleles.at(j)))
}

impl<S, D> Gene<S, D> {
    /// The number of alleles.
    pub fn size(&self) -> (n: usize)
        ensures
            n == self.alleles.pairs().len(),
    {
        self.alleles.len()
    }

    /// Whether `id` names one of the alleles.
    pub fn has(&self, id: &Option<u32>) -> (b: bool)
        requires
            self.alleles.wf(),
        ensures
            b == knows(*self, *id),
    {
        match id {
            Some(k) => self.alleles.contains_key(k),
            None => false,
        }
    }
}

impl<S: PartialEq, D> Gene<S, D> {
    /// The position of the first allele whose node is equivalent to `n`.
    fn matching(&self, n: &Node<S>) -> (r: Option<usize>)
        ensures
            r matches Some(i) ==> i < self.alleles.pairs().len(),
            S::obeys_eq_spec() ==> match r {
                Some(i) => first_equivalent(self.alleles.pairs(), *n, i as int),
                None => none_equivalent(self.alleles.pairs(), *n),
            },
    {
        let mut i: usize = 0;
        let len = self.alleles.len();
        while i < len
            invariant
                i <= len,
                len == self.alleles.pairs().len(),
                S::obeys_eq_spec() ==> forall|j: int|
                    0 <= j < i ==> !equivalent(*n, #[trigger] self.alleles.pairs()[j].1.node),
            decreases len - i,
        {
            if n.is_equivalent_to(&self.alleles.value_at(i).node) {
                return Some(i);
            }
            i = i + 1;
        }
        None
    }
}

/// A fresh allele holding `node`.
fn fresh_allele<S: From<u8>, D: From<u8>>(node: Node<S>) -> (a: Allele<S, D>)
    ensures
        a.node == node,
        a.count == 0,
        a.score_history@.len() == 0,
        nums_exact::<S>() ==> a.avg_score == num::<S>(0) && a.exp_count == num::<S>(0),
        nums_exact::<D>() ==> a.tot_score == num::<D>(0),
{
    Allele {
        tot_score: small(0),
        avg_score: small(0),
        exp_count: small(0),
        count: 0,
        score_history: Vec::new(),
        node,
    }
}

impl<S: Copy + PartialEq + From<u8>, D: From<u8>> Gene<S, D> {
    /// Gives `n` the id of its allele, registering a new allele when needed.
    /// An id that names an allele stays. Otherwise `n` takes the id of the
    /// first allele whose node is equivalent to it; failing that, `n` keeps
    /// its id or draws one below 999,999,999, and a fresh allele holding a
    /// copy of `n` is stored under that id.
    pub fn identify(&mut self, n: &mut Node<S>)
        requires
            old(self).alleles.wf(),
            !knows(*old(self), old(n).allele) ==> old(self).received_alleles < u32::MAX,
        ensures
            final(self).alleles.wf(),
            knows(*final(self), final(n).allele),
            *final(n) == (Node { allele: final(n).allele, ..*old(n) }),
            knows(*old(self), old(n).allele) ==> *final(n) == *old(n) && *final(self) == *old(self),
            !knows(*old(self), old(n).allele) ==> *final(self) == *old(self) || registered(
                *old(self),
                *final(self),
                *old(n),
                *final(n),
            ),
            S::obeys_eq_spec() && !knows(*old(self), old(n).allele) ==> {
                ||| exists|j: int|
                    first_equivalent(old(self).alleles.pairs(), *old(n), j) && final(n).allele == Some(
                        old(self).alleles.pairs()[j].0,
                    ) && *final(self) == *old(self)
                ||| none_equivalent(old(self).alleles.pairs(), *old(n)) && registered(
                    *old(self),
                    *final(self),
                    *old(n),
                    *final(n),
                )
            },
    {
        if !self.has(&n.allele) {
            match self.matching(n) {
                Some(i) => {
                    let k = *self.alleles.key_at(i);
                    proof {
                        lemma_index_of_unique(self.alleles.keys(), i as int);
                        assert(self.alleles.keys()[i as int] == k);
                    }
                    n.allele = Some(k);
                },
                None => {},
            }
        }
        if !self.has(&n.allele) {
            self.received_alleles = self.received_alleles + 1;
            if n.allele.is_none() {
                n.allele = Some(util::rand_int(999999999));
            }
            let id = match n.allele {
                Some(k) => k,
                None => 0,
            };
            let copy = n.duplicate();
            self.alleles.insert(id, fresh_allele(copy));
        }
    }
}

/// The position that a left-to-right search for the lowest average score
/// settles on. The first entry is taken; each later one replaces the entry
/// held when it scores lower, or when the held id is 2^31 or more (an id
/// the search counts as no choice yet). 0 for an empty sequence.
pub open spec fn worst_scan<S: PartialOrd, D>(p: Seq<(u32, Allele<S, D>)>) -> int
    decreases p.len(),
{
    if p.len() <= 1 {
        0
    } else {
        let w = worst_scan(p.drop_last());
        if p[w].0 >= 0x8000_0000u32 || p.last().1.avg_score.is_lt(&p[w].1.avg_score) {
            p.len() - 1
        } else {
            w
        }
    }
}

/// `p` after evicting, one at a time, the allele the search for the lowest
/// score settles on, until at most `max` remain.
pub open spec fn pruned<S: PartialOrd, D>(p: Seq<(u32, Allele<S, D>)>, max: nat) -> Seq<(u32, Allele<S, D>)>
    decreases p.len(),
{
    let w = worst_scan(p);
    if p.len() <= max || !(0 <= w < p.len()) {
        p
    } else {
        pruned(p.remove(w), max)
    }
}

pub proof fn lemma_worst_scan_bounds<S: PartialOrd, D>(p: Seq<(u32, Allele<S, D>)>)
    ensures
        p.len() > 0 ==> 0 <= worst_scan(p) < p.len(),
    decreases p.len(),
{
    if p.len() > 1 {
        lemma_worst_scan_bounds(p.drop_last());
    }
}

/// Eviction takes a lowest-scoring allele: when `<` on the scores is a
/// strict order and every id is below 2^31, no allele scores lower than the
/// one the search settles on.
pub proof fn law_prune_evicts_lowest<S: PartialOrd, D>(p: Seq<(u32, Allele<S, D>)>)
    requires
        strict_order::<S>(),
        forall|i: int| 0 <= i < p.len() ==> (#[trigger] p[i]).0 < 0x8000_0000u32,
    ensures
        forall|j: int|
            0 <= j < p.len() ==> !(#[trigger] p[j]).1.avg_score.is_lt(&p[worst_scan(p)].1.avg_score),
    decreases p.len(),
{
    lemma_worst_scan_bounds(p);
    if p.len() > 1 {
        let q = p.drop_last();
        law_prune_evicts_lowest(q);
        let w = worst_scan(q);
        lemma_worst_scan_bounds(q);
        assert(q[w] == p[w]);
        assert forall|j: int| 0 <= j < p.len() implies !(#[trigger] p[j]).1.avg_score.is_lt(
            &p[worst_scan(p)].1.avg_score,
        ) by {
            let last = p.last().1.avg_score;
            let held = p[w].1.avg_score;
            if last.is_lt(&held) {
                if j < p.len() - 1 {
                    assert(q[j] == p[j]);
                    if p[j].1.avg_score.is_lt(&last) {
                        assert(p[j].1.avg_score.partial_cmp_spec(&last) == Some(Ordering::Less));
                        assert(last.partial_cmp_spec(&held) == Some(Ordering::Less));
                    }
                }
            } else if j < p.len() - 1 {
                assert(q[j] == p[j]);
            }
        }
    }
}

/// What pruning keeps comes from what it was given.
pub proof fn lemma_pruned_within<S: PartialOrd, D>(p: Seq<(u32, Allele<S, D>)>, max: nat)
    ensures
        forall|k: int| 0 <= k < pruned(p, max).len() ==> p.contains(#[trigger] pruned(p, max)[k]),
    decreases p.len(),
{
    let w = worst_scan(p);
    if !(p.len() <= max || !(0 <= w < p.len())) {
        let q = p.remove(w);
        lemma_pruned_within(q, max);
        assert forall|k: int| 0 <= k < pruned(p, max).len() implies p.contains(#[trigger] pruned(p, max)[k]) by {
            let e = pruned(q, max)[k];
            assert(q.contains(e));
            let x = choose|x: int| 0 <= x < q.len() && q[x] == e;
            if x < w {
                assert(p[x] == e);
            } else {
                assert(p[x + 1] == e);
            }
        }
    }
}

/// Pruning keeps the best: when `<` on the scores is a strict order and
/// every id is below 2^31, no allele that pruning keeps scores below one
/// that it evicts.
pub proof fn law_pruned_keeps_best<S: PartialOrd, D>(p: Seq<(u32, Allele<S, D>)>, max: nat)
    requires
        strict_order::<S>(),
        forall|i: int| 0 <= i < p.len() ==> (#[trigger] p[i]).0 < 0x8000_0000u32,
    ensures
        forall|i: int, k: int|
            0 <= i < p.len() && 0 <= k < pruned(p, max).len() ==> pruned(p, max).contains(#[trigger] p[i])
                || !(#[trigger] pruned(p, max)[k]).1.avg_score.is_lt(&p[i].1.avg_score),
    decreases p.len(),
{
    let w = worst_scan(p);
    lemma_worst_scan_bounds(p);
    if !(p.len() <= max || !(0 <= w < p.len())) {
        let q = p.remove(w);
        assert forall|i: int| 0 <= i < q.len() implies (#[trigger] q[i]).0 < 0x8000_0000u32 by {
            if i < w {
                assert(q[i] == p[i]);
            } else {
                assert(q[i] == p[i + 1]);
            }
        }
        law_pruned_keeps_best(q, max);
        lemma_pruned_within(q, max);
        law_prune_evicts_lowest(p);
        let r = pruned(q, max);
        assert(pruned(p, max) == r);
        assert forall|i: int, k: int|
            0 <= i < p.len() && 0 <= k < r.len() implies r.contains(#[trigger] p[i]) || !(
            #[trigger] r[k]).1.avg_score.is_lt(&p[i].1.avg_score) by {
            if i == w {
                assert(q.contains(r[k]));
                let x = choose|x: int| 0 <= x < q.len() && q[x] == r[k];
                let y = if x < w { x } else { x + 1 };
                assert(p[y] == r[k]);
                assert(!p[y].1.avg_score.is_lt(&p[w].1.avg_score));
            } else {
                let x = if i < w { i } else { i - 1 };
                assert(q[x] == p[i]);
                assert(r.contains(q[x]) || !r[k].1.avg_score.is_lt(&q[x].1.avg_score));
            }
        }
    }
}

impl<S: PartialOrd, D> Gene<S, D> {
    /// The position the search for the lowest average score settles on.
    fn worst_index(&self) -> (w: usize)
        requires
            self.alleles.pairs().len() > 0,
        ensures
            w < self.alleles.pairs().len(),
            compares::<S>() ==> w == worst_scan(self.alleles.pairs()),
    {
        let len = self.alleles.len();
        let mut w: usize = 0;
        let mut i: usize = 1;
        proof {
            assert(prefix(self.alleles.pairs(), 1).len() == 1);
        }
        while i < len
            invariant
                1 <= i <= len,
                len == self.alleles.pairs().len(),
                w < i,
                compares::<S>() ==> w == worst_scan(prefix(self.alleles.pairs(), i)),
            decreases len - i,
        {
            proof {
                let p = self.alleles.pairs();
                assert(prefix(p, (i + 1) as usize).drop_last() =~= prefix(p, i));
                assert(prefix(p, (i + 1) as usize)[w as int] == p[w as int]);
                assert(prefix(p, (i + 1) as usize).last() == p[i as int]);
            }
            let held = *self.alleles.key_at(w);
            if held >= 0x8000_0000u32 || self.alleles.value_at(i).avg_score < self.alleles.value_at(
                w,
            ).avg_score {
                w = i;
            }
            i = i + 1;
        }
        proof {
            assert(prefix(self.alleles.pairs(), len) =~= self.alleles.pairs());
        }
        w
    }

    /// Evicts alleles, each time the one the search for the lowest average
    /// score settles on, until at most `max_pool_size` remain.
    pub fn prune(&mut self, max_pool_size: u32)
        requires
            old(self).alleles.wf(),
        ensures
            final(self).alleles.wf(),
            final(self).received_alleles == old(self).received_alleles,
            old(self).alleles.pairs().len() <= max_pool_size ==> *final(self) == *old(self),
            old(self).alleles.pairs().len() > max_pool_size ==> final(self).alleles.pairs().len()
                == max_pool_size,
            compares::<S>() ==> final(self).alleles.pairs() == pruned(
                old(self).alleles.pairs(),
                max_pool_size as nat,
            ),
    {
        let max = max_pool_size as usize;
        while self.alleles.len() > max
            invariant
                self.alleles.wf(),
                self.received_alleles == old(self).received_alleles,
                max == max_pool_size,
                old(self).alleles.pairs().len() <= max ==> *self == *old(self),
                old(self).alleles.pairs().len() > max ==> self.alleles.pairs().len() >= max,
                compares::<S>() ==> pruned(self.alleles.pairs(), max as nat) == pruned(
                    old(self).alleles.pairs(),
                    max as nat,
                ),
            decreases self.alleles.pairs().len(),
        {
            let w = self.worst_index();
            let k = *self.alleles.key_at(w);
            proof {
                lemma_index_of_unique(self.alleles.keys(), w as int);
                assert(self.alleles.keys()[w as int] == k);
                lemma_worst_scan_bounds(self.alleles.pairs());
            }
            self.alleles.remove(&k);
        }
    }
}

/// The (id, average score) of each allele, in table order.
pub open spec fn score_entries<S, D>(p: Seq<(u32, Allele<S, D>)>) -> Seq<(u32, S)> {
    p.map_values(|e: (u32, Allele<S, D>)| (e.0, e.1.avg_score))
}

/// No entry scores below a later one.
pub open spec fn descending<S: PartialOrd>(r: Seq<(u32, S)>) -> bool {
    forall|i: int, j: int| 0 <= i < j < r.len() ==> !(#[trigger] r[i]).1.is_lt(&(#[trigger] r[j]).1)
}

/// `r` ranks the alleles of `p`: their (id, score) entries, best first.
pub open spec fn ranks<S: PartialOrd, D>(p: Seq<(u32, Allele<S, D>)>, r: Seq<(u32, S)>) -> bool {
    &&& r.to_multiset() == score_entries(p).to_multiset()
    &&& strict_order::<S>() ==> descending(r)
}

/// Inserting `x` before the first entry that scores below it keeps a
/// ranking in order.
proof fn lemma_insert_descending<S: PartialOrd>(r: Seq<(u32, S)>, p: int, x: (u32, S))
    requires
        strict_order::<S>(),
        descending(r),
        0 <= p <= r.len(),
        forall|q: int| 0 <= q < p ==> !(#[trigger] r[q]).1.is_lt(&x.1),
        p < r.len() ==> r[p].1.is_lt(&x.1),
    ensures
        descending(r.insert(p, x)),
{
    let t = r.insert(p, x);
    assert forall|a: int, b: int| 0 <= a < b < t.len() implies !(#[trigger] t[a]).1.is_lt(
        &(#[trigger] t[b]).1,
    ) by {
        if b < p {
            assert(t[a] == r[a] && t[b] == r[b]);
        } else if b == p {
            assert(t[a] == r[a] && t[b] == x);
        } else if a < p {
            assert(t[a] == r[a] && t[b] == r[b - 1]);
        } else if a == p {
            assert(t[a] == x && t[b] == r[b - 1]);
            let y = r[b - 1].1;
            if x.1.is_lt(&y) {
                assert(r[p].1.partial_cmp_spec(&x.1) == Some(Ordering::Less));
                assert(x.1.partial_cmp_spec(&y) == Some(Ordering::Less));
                if b - 1 == p {
                    assert(r[p].1.partial_cmp_spec(&r[p].1) != Some(Ordering::Less));
                } else {
                    assert(!r[p].1.is_lt(&r[b - 1].1));
                }
            }
        } else {
            assert(t[a] == r[a - 1] && t[b] == r[b - 1]);
        }
    }
}

impl<S: Copy + PartialOrd, D> Gene<S, D> {
    /// The alleles' (id, average score) entries, best first; alleles with
    /// equal scores keep their table order.
    pub fn ranking(&self) -> (r: Vec<(u32, S)>)
        ensures
            ranks(self.alleles.pairs(), r@),
    {
        let len = self.alleles.len();
        let ghost es = score_entries(self.alleles.pairs());
        let mut r: Vec<(u32, S)> = Vec::new();
        let mut i: usize = 0;
        proof {
            assert(es.subrange(0, 0) =~= Seq::<(u32, S)>::empty());
        }
        while i < len
            invariant
                i <= len,
                len == self.alleles.pairs().len(),
                es == score_entries(self.alleles.pairs()),
                r@.to_multiset() == es.subrange(0, i as int).to_multiset(),
                strict_order::<S>() ==> descending(r@),
            decreases len - i,
        {
            let k = *self.alleles.key_at(i);
            let s = self.alleles.value_at(i).avg_score;
            let mut p: usize = 0;
            while p < r.len() && !(r[p].1 < s)
                invariant
                    p <= r@.len(),
                    compares::<S>() ==> forall|q: int| 0 <= q < p ==> !(#[trigger] r@[q]).1.is_lt(&s),
                decreases r@.len() - p,
            {
                p = p + 1;
            }
            proof {
                if strict_order::<S>() {
                    lemma_insert_descending(r@, p as int, (k, s));
                }
                vstd::seq_lib::to_multiset_insert(r@, p as int, (k, s));
                assert(es.subrange(0, i as int + 1) =~= es.subrange(0, i as int).push((k, s)));
                vstd::seq_lib::to_multiset_build(es.subrange(0, i as int), (k, s));
            }
            r.insert(p, (k, s));
            i = i + 1;
        }
        proof {
            assert(es.subrange(0, len as int) =~= es);
        }
        r
    }
}

impl<S: Copy + PartialOrd, D> Gene<S, D> {
    /// An allele drawn by rank: the alleles are ranked best first and a rank
    /// is drawn with `skewed_rank`, so that the best come up most often.
    pub fn select(&self) -> (a: &Allele<S, D>)
        requires
            self.alleles.wf(),
            self.alleles.pairs().len() > 0,
        ensures
            exists|r: Seq<(u32, S)>, k: int|
                ranks(self.alleles.pairs(), r) && 0 <= k < r.len() && skewed(k, r.len() as int)
                    && self.alleles.has(r[k].0) && *a == self.alleles.at(#[trigger] r[k].0),
    {
        let ranking = self.ranking();
        proof {
            vstd::seq_lib::to_multiset_len(ranking@);
            vstd::seq_lib::to_multiset_len(score_entries(self.alleles.pairs()));
        }
        let k = skewed_rank(ranking.len());
        let id = ranking[k].0;
        proof {
            let es = score_entries(self.alleles.pairs());
            let e = ranking@[k as int];
            vstd::seq_lib::to_multiset_contains(ranking@, e);
            vstd::seq_lib::to_multiset_contains(es, e);
            assert(ranking@.contains(e));
            assert(es.contains(e));
            let j = choose|j: int| 0 <= j < es.len() && es[j] == e;
            assert(self.alleles.keys()[j] == id);
        }
        match self.alleles.get(&id) {
            Some(a) => a,
            None => self.alleles.value_at(0),
        }
    }
}

/// `a` holds the same record as `b`: scores, counts, history and a copy of
/// the node.
pub open spec fn allele_copy<S, D>(a: Allele<S, D>, b: Allele<S, D>) -> bool {
    &&& a.tot_score == b.tot_score
    &&& a.avg_score == b.avg_score
    &&& a.exp_count == b.exp_count
    &&& a.count == b.count
    &&& a.score_history@ == b.score_history@
    &&& copy_of(a.node, b.node)
}

/// `a` holds the same gene as `b`: the same count of received alleles and,
/// in order, copies of its alleles under the same ids.
pub open spec fn gene_copy<S, D>(a: Gene<S, D>, b: Gene<S, D>) -> bool {
    &&& a.received_alleles == b.received_alleles
    &&& a.alleles.wf()
    &&& a.alleles.keys() == b.alleles.keys()
    &&& a.alleles.pairs().len() == b.alleles.pairs().len()
    &&& forall|i: int| 0 <= i < b.alleles.pairs().len() ==> allele_copy(#[trigger] a.alleles.values()[i], b.alleles.values()[i])
}

/// A copy of a list of numbers.
pub fn copy_scores<S: Copy>(v: &Vec<S>) -> (c: Vec<S>)
    ensures
        c@ == v@,
{
    let mut c: Vec<S> = Vec::new();
    let mut i: usize = 0;
    while i < v.len()
        invariant
            i <= v@.len(),
            c@ == v@.subrange(0, i as int),
        decreases v@.len() - i,
    {
        c.push(v[i]);
        proof {
            assert(c@ =~= v@.subrange(0, i as int + 1));
        }
        i = i + 1;
    }
    proof {
        assert(v@.subrange(0, v@.len() as int) =~= v@);
    }
    c
}

impl<S: Copy, D: Copy> Allele<S, D> {
    /// A copy of the record.
    pub fn duplicate(&self) -> (a: Allele<S, D>)
        ensures
            allele_copy(a, *self),
    {
        Allele {
            tot_score: self.tot_score,
            avg_score: self.avg_score,
            exp_count: self.exp_count,
            count: self.count,
            score_history: copy_scores(&self.score_history),
            node: self.node.duplicate(),
        }
    }
}

impl<S: Copy, D: Copy> Gene<S, D> {
    /// A copy of the gene.
    pub fn duplicate(&self) -> (g: Gene<S, D>)
        requires
            self.alleles.wf(),
        ensures
            gene_copy(g, *self),
    {
        let t = &self.alleles;
        let mut c: Table<u32, Allele<S, D>> = Table::new();
        let n = t.len();
        let mut i: usize = 0;
        while i < n
            invariant
                i <= n,
                n == t.pairs().len(),
                t.wf(),
                c.wf(),
                c.pairs().len() == i,
                c.keys() == t.keys().subrange(0, i as int),
                forall|j: int| 0 <= j < i ==> allele_copy(#[trigger] c.values()[j], t.values()[j]),
            decreases n - i,
        {
            let k = *t.key_at(i);
            let v = t.value_at(i).duplicate();
            proof {
                assert(k@ == t.keys()[i as int]);
                if c.keys().contains(k@) {
                    let x = choose|x: int| 0 <= x < c.keys().len() && c.keys()[x] == k@;
                    assert(t.keys()[x] == t.keys()[i as int]);
                }
            }
            let ghost before = c.pairs();
            let ghost before_vals = c.values();
            c.insert(k, v);
            proof {
                assert(c.pairs() == before.push((k, v)));
                assert(c.keys() =~= t.keys().subrange(0, i as int + 1));
                assert forall|j: int| 0 <= j < i + 1 implies allele_copy(#[trigger] c.values()[j], t.values()[j]) by {
                    assert(c.values()[j] == c.pairs()[j].1);
                    if j < i {
                        assert(c.values()[j] == before[j].1);
                        assert(before_vals[j] == before[j].1);
                    } else {
                        assert(t.values()[j] == t.pairs()[j].1);
                    }
                }
            }
            i = i + 1;
        }
        proof {
            assert(t.keys().subrange(0, n as int) =~= t.keys());
        }
        Gene { received_alleles: self.received_alleles, alleles: c }
    }
}

/// A node is not matched to an allele whose node differs from it in the
/// weight of some link (as `==` on `S` judges it): `identify` does not give
/// it that allele's id, so a changed weight makes a new allele.
pub proof fn law_changed_weight_not_matched<S: PartialEq, D>(p: Seq<(u32, Allele<S, D>)>, n: Node<S>, j: int, i: int)
    requires
        0 <= j < p.len(),
        0 <= i < n.links@.len(),
        i < p[j].1.node.links@.len(),
        !n.links@[i].weight.eq_spec(&p[j].1.node.links@[i].weight),
    ensures
        !first_equivalent(p, n, j),
{
    crate::node::law_weights_tell_nodes_apart(n, p[j].1.node, i);
}

} // verus!
