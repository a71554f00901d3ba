//! A pool of genetic pools for one network: normally one, two while
//! recording moves from an old validation slice to a new one.
use vstd::prelude::*;
use crate::feedback::name_views;
use crate::ga::{all_expandable, allele_total, built_from, ga_copy, GA};
use crate::net::Net;
use crate::scalar::{num, nums_exact};
use crate::util;

verus! {

/// The settings that workers run with.
pub struct Opts<S> {
    pub mrate: S,
    pub samples: u32,
    pub lead_size: usize,
    pub tset_slice: usize,
    pub vset_slice: usize,
}

/// The settings of a genetic pool.
pub struct GaSettings<S> {
    pub max_pool_size: u32,
    pub max_exp_count: S,
    pub lead_size: usize,
}

pub struct GaPool<S, D> {
    pub gas: Vec<GA<S, D>>,
    pub debug: bool,
    pub mrate: S,
    pub samples: u32,
    pub lead_size: usize,
    pub tset_slice: usize,
    pub vset_slice: usize,
    pub cur_vset: usize,
    pub old_vset: usize,
}

/// `ga` carries the settings `s`.
pub open spec fn configured<S, D>(ga: GA<S, D>, s: GaSettings<S>) -> bool {
    &&& ga.max_pool_size == s.max_pool_size
    &&& ga.max_exp_count == s.max_exp_count
    &&& ga.lead_size == s.lead_size
}

/// `p` carries the worker settings `o`.
pub open spec fn runs_with<S, D>(p: GaPool<S, D>, o: Opts<S>) -> bool {
    &&& p.mrate == o.mrate
    &&& p.samples == o.samples
    &&& p.lead_size == o.lead_size
    &&& p.tset_slice == o.tset_slice
    &&& p.vset_slice == o.vset_slice
}

/// The pool that a network run on validation slice `vset` is recorded in:
/// the newest for the current slice, the oldest for the previous slice
/// while two pools run; none otherwise.
pub open spec fn target_of<S, D>(p: GaPool<S, D>, vset: usize) -> Option<usize> {
    if vset == p.cur_vset {
        Some((p.gas@.len() - 1) as usize)
    } else if vset == p.old_vset && p.gas@.len() == 2 {
        Some(0)
    } else {
        None
    }
}

/// The move to a new slice is complete: two or more pools run and the
/// newest has recorded more than `min_transfer` runs.
pub open spec fn switch_complete<S, D>(p: GaPool<S, D>, min_transfer: usize) -> bool {
    p.gas@.len() > 1 && p.gas@.last().rec_count > min_transfer
}

/// Genetic pools `gas` are a single pool that looks overfitted to its
/// slice: it has a leader and has recorded at least
/// `min_transfer + min_grow` runs.
pub open spec fn overfitted<S, D>(gas: Seq<GA<S, D>>, min_grow: usize, min_transfer: usize) -> bool {
    &&& gas.len() <= 1
    &&& gas[0].leaderboard@.len() > 0
    &&& gas[0].rec_count >= min_transfer + min_grow
}

/// The pool looks overfitted to its slice.
pub open spec fn overfitting<S, D>(p: GaPool<S, D>, min_grow: usize, min_transfer: usize) -> bool {
    overfitted(p.gas@, min_grow, min_transfer)
}

/// The slice after `cur` among the `val_len / slice_size` slices of the
/// validation set, wrapping round.
pub open spec fn slice_after(cur: usize, val_len: usize, slice_size: usize) -> usize {
    ((cur + 1) % (val_len / slice_size) as int) as usize
}

impl<S: Copy + PartialOrd + From<u8>, D> GaPool<S, D> {
    /// Applies the settings `s` to `ga`.
    pub fn reconfig_ga(ga: &mut GA<S, D>, s: &GaSettings<S>)
        ensures
            configured(*final(ga), *s),
            *final(ga) == (GA {
                max_pool_size: s.max_pool_size,
                max_exp_count: s.max_exp_count,
                lead_size: s.lead_size,
                ..*old(ga)
            }),
    {
        ga.max_pool_size = s.max_pool_size;
        ga.max_exp_count = s.max_exp_count;
        ga.lead_size = s.lead_size;
    }

    /// A new, empty genetic pool with the settings `s`.
    pub fn gen_ga(s: &GaSettings<S>) -> (ga: GA<S, D>)
        ensures
            ga.wf(),
            configured(ga, *s),
            ga.leaderboard@.len() == 0,
            ga.genes.pairs().len() == 0,
            ga.exp_count == 0,
            ga.rec_count == 0,
            ga.last_100@.len() == 0,
            ga.last_100_i == 0,
    {
        let mut ga = GA::new();
        GaPool::reconfig_ga(&mut ga, s);
        ga
    }

    /// A pool of one new genetic pool, at validation slice 0, not printing.
    pub fn new(s: &GaSettings<S>, o: &Opts<S>) -> (p: GaPool<S, D>)
        ensures
            p.gas@.len() == 1,
            p.gas@[0].wf(),
            configured(p.gas@[0], *s),
            p.gas@[0].leaderboard@.len() == 0,
            p.gas@[0].genes.pairs().len() == 0,
            p.gas@[0].exp_count == 0,
            p.gas@[0].rec_count == 0,
            runs_with(p, *o),
            !p.debug,
            p.cur_vset == 0,
            p.old_vset == 0,
    {
        let ga = GaPool::gen_ga(s);
        let mut gas: Vec<GA<S, D>> = Vec::new();
        gas.push(ga);
        GaPool {
            gas,
            debug: false,
            mrate: o.mrate,
            samples: o.samples,
            lead_size: o.lead_size,
            tset_slice: o.tset_slice,
            vset_slice: o.vset_slice,
            cur_vset: 0,
            old_vset: 0,
        }
    }

    /// Takes the worker settings `o`.
    pub fn reconfigure(&mut self, o: &Opts<S>)
        ensures
            runs_with(*final(self), *o),
            final(self).gas == old(self).gas,
            final(self).debug == old(self).debug,
            final(self).cur_vset == old(self).cur_vset,
            final(self).old_vset == old(self).old_vset,
    {
        self.mrate = o.mrate;
        self.samples = o.samples;
        self.lead_size = o.lead_size;
        self.tset_slice = o.tset_slice;
        self.vset_slice = o.vset_slice;
    }
}

impl<S, D> GaPool<S, D> {
    /// Whether more than one genetic pool runs.
    pub fn is_switching(&self) -> (b: bool)
        ensures
            b == (self.gas@.len() > 1),
    {
        self.gas.len() > 1
    }

    /// The oldest genetic pool.
    pub fn src(&self) -> (g: &GA<S, D>)
        requires
            self.gas@.len() > 0,
        ensures
            *g == self.gas@[0],
    {
        &self.gas[0]
    }

    /// The newest genetic pool.
    pub fn dst(&self) -> (g: &GA<S, D>)
        requires
            self.gas@.len() > 0,
        ensures
            *g == self.gas@.last(),
    {
        let n = self.gas.len();
        &self.gas[n - 1]
    }

    /// Which genetic pool a network run on slice `vset` is recorded in, by
    /// position; `None` when it is turned away.
    pub fn record_target(&self, vset: usize) -> (t: Option<usize>)
        requires
            vset == self.cur_vset ==> self.gas@.len() > 0,
        ensures
            t == target_of(*self, vset),
            t matches Some(i) ==> i < self.gas@.len(),
    {
        if vset == self.cur_vset {
            Some(self.gas.len() - 1)
        } else if vset == self.old_vset && self.gas.len() == 2 {
            Some(0)
        } else {
            None
        }
    }

    /// The slice after the current one among the `val_len / slice_size`
    /// slices of the validation set.
    pub fn next_vset(&self, val_len: usize, slice_size: usize) -> (v: usize)
        requires
            slice_size > 0,
            val_len / slice_size > 0,
            self.cur_vset < usize::MAX,
        ensures
            v == slice_after(self.cur_vset, val_len, slice_size),
            v < val_len / slice_size,
    {
        let slices_available = val_len / slice_size;
        (self.cur_vset + 1) % slices_available
    }

    /// A slice drawn at random among the `val_len / slice_size` slices of the
    /// validation set, the count taken as a `u32`.
    pub fn rand_vset(&self, val_len: usize, slice_size: usize) -> (v: usize)
        requires
            slice_size > 0,
            (val_len / slice_size) as u32 > 0,
        ensures
            v < (val_len / slice_size) as u32,
    {
        let slices_available = val_len / slice_size;
        let n = slices_available as u32;
        util::rand_int(n) as usize
    }

    /// Whether the move to a new slice is complete.
    pub fn is_switch_complete(&self, min_transfer: usize) -> (b: bool)
        ensures
            b == switch_complete(*self, min_transfer),
    {
        if !self.is_switching() {
            return false;
        }
        let count = self.dst().rec_count;
        count > min_transfer
    }

    /// Whether the single genetic pool looks overfitted to its slice.
    pub fn is_overfitting(&self, min_grow: usize, min_transfer: usize) -> (b: bool)
        requires
            self.gas@.len() > 0,
            self.gas@.len() <= 1 && self.gas@[0].leaderboard@.len() > 0 ==> min_transfer + min_grow
                <= usize::MAX,
        ensures
            b == overfitting(*self, min_grow, min_transfer),
            b ==> self.gas@.len() == 1 && self.gas@[0].leaderboard@.len() > 0
                && self.gas@[0].rec_count >= min_transfer + min_grow,
            self.gas@[0].rec_count < min_transfer + min_grow ==> !b,
    {
        if self.is_switching() {
            return false;
        }
        if !self.src().has_leader() {
            return false;
        }
        if self.src().rec_count < min_transfer + min_grow {
            return false;
        }
        true
    }

    /// The number of genes and of alleles of the newest genetic pool.
    pub fn dst_size(&self) -> (r: (usize, usize))
        requires
            self.gas@.len() > 0,
            allele_total(self.gas@.last().genes.pairs()) <= usize::MAX,
        ensures
            r.0 == self.gas@.last().genes.pairs().len(),
            r.1 == allele_total(self.gas@.last().genes.pairs()),
    {
        self.dst().size()
    }

    /// The number of genes and of alleles of the oldest genetic pool.
    pub fn src_size(&self) -> (r: (usize, usize))
        requires
            self.gas@.len() > 0,
            allele_total(self.gas@[0].genes.pairs()) <= usize::MAX,
        ensures
            r.0 == self.gas@[0].genes.pairs().len(),
            r.1 == allele_total(self.gas@[0].genes.pairs()),
    {
        self.src().size()
    }
}

/// `g` is a new genetic pool with the settings `s`.
pub open spec fn fresh_ga<S: PartialOrd, D>(g: GA<S, D>, s: GaSettings<S>) -> bool {
    &&& g.wf()
    &&& configured(g, s)
    &&& g.leaderboard@.len() == 0
    &&& g.genes.pairs().len() == 0
    &&& g.exp_count == 0
    &&& g.rec_count == 0
    &&& g.last_100@.len() == 0
    &&& g.last_100_i == 0
}

/// The genetic pools of `p` once a completed move to a new slice has
/// dropped all but the newest.
pub open spec fn kept_after_switch<S, D>(p: GaPool<S, D>, min_transfer: usize) -> Seq<GA<S, D>> {
    if switch_complete(p, min_transfer) {
        seq![p.gas@.last()]
    } else {
        p.gas@
    }
}

/// Everything but the genetic pools and the slices is as in `b`.
pub open spec fn same_settings<S, D>(a: GaPool<S, D>, b: GaPool<S, D>) -> bool {
    &&& a.debug == b.debug
    &&& a.mrate == b.mrate
    &&& a.samples == b.samples
    &&& a.lead_size == b.lead_size
    &&& a.tset_slice == b.tset_slice
    &&& a.vset_slice == b.vset_slice
}

/// `p1` is `p0` after `fix_overfitting`: a completed move dropped all but
/// the newest genetic pool; then, if the remaining pool looked overfitted,
/// a move to the next slice started with a new pool.
pub open spec fn overfitting_fixed<S: PartialOrd, D>(
    p0: GaPool<S, D>,
    p1: GaPool<S, D>,
    switch_min_transfer: usize,
    min_grow: usize,
    min_transfer: usize,
    val_len: usize,
    slice_size: usize,
    s: GaSettings<S>,
) -> bool {
    let g = kept_after_switch(p0, switch_min_transfer);
    &&& same_settings(p1, p0)
    &&& if overfitted(g, min_grow, min_transfer) {
        &&& p1.old_vset == p0.cur_vset
        &&& p1.cur_vset == slice_after(p0.cur_vset, val_len, slice_size)
        &&& p1.gas@.len() == 2
        &&& p1.gas@[0] == g[0]
        &&& fresh_ga(p1.gas@[1], s)
    } else {
        &&& p1.gas@ == g
        &&& p1.old_vset == p0.old_vset
        &&& p1.cur_vset == p0.cur_vset
    }
}

/// At most two genetic pools run at a time: checking for overfitting
/// never takes a pool of one or two genetic pools beyond two.
pub proof fn law_at_most_two<S: PartialOrd, D>(
    p0: GaPool<S, D>,
    p1: GaPool<S, D>,
    switch_min_transfer: usize,
    min_grow: usize,
    min_transfer: usize,
    val_len: usize,
    slice_size: usize,
    s: GaSettings<S>,
)
    requires
        1 <= p0.gas@.len() <= 2,
        overfitting_fixed(p0, p1, switch_min_transfer, min_grow, min_transfer, val_len, slice_size, s),
    ensures
        1 <= p1.gas@.len() <= 2,
{
}

/// A move to a new slice ends with the newest genetic pool alone: when the
/// move is complete and no overfitting shows, only the newest pool remains.
pub proof fn law_switch_keeps_newest<S: PartialOrd, D>(
    p0: GaPool<S, D>,
    p1: GaPool<S, D>,
    switch_min_transfer: usize,
    min_grow: usize,
    min_transfer: usize,
    val_len: usize,
    slice_size: usize,
    s: GaSettings<S>,
)
    requires
        switch_complete(p0, switch_min_transfer),
        !overfitted(kept_after_switch(p0, switch_min_transfer), min_grow, min_transfer),
        overfitting_fixed(p0, p1, switch_min_transfer, min_grow, min_transfer, val_len, slice_size, s),
    ensures
        p1.gas@ == seq![p0.gas@.last()],
{
}

impl<S, D> GaPool<S, D> {
    /// The next experiment id of the oldest genetic pool.
    pub fn gen_exp_id(&mut self) -> (id: usize)
        requires
            old(self).gas@.len() > 0,
            old(self).gas@[0].exp_count < usize::MAX,
        ensures
            id == old(self).gas@[0].exp_count,
            final(self).gas@ == old(self).gas@.update(
                0,
                GA { exp_count: (id + 1) as usize, ..old(self).gas@[0] },
            ),
            final(self).cur_vset == old(self).cur_vset,
            final(self).old_vset == old(self).old_vset,
    {
        self.gas[0].next_id()
    }
}

impl<S: Copy + PartialOrd + From<u8>, D> GaPool<S, D> {
    /// A network built from the oldest genetic pool for these input and
    /// output names, to be run on the current slice.
    pub fn gen_net(&self, input: &Vec<String>, output: &Vec<String>) -> (n: Net<S>)
        requires
            self.gas@.len() > 0,
            self.gas@[0].wf(),
            all_expandable(self.gas@[0], name_views(input@)),
            all_expandable(self.gas@[0], name_views(output@)),
        ensures
            n.vset == self.cur_vset,
            built_from(self.gas@[0], name_views(input@), name_views(output@), n),
    {
        let mut n = Net::from_ga(self.src(), input, output);
        n.vset = self.cur_vset;
        n
    }

    /// Starts a move to the next slice: remembers the current one, takes
    /// the next, and adds a new genetic pool; returns the new slice.
    pub fn incr_vset(&mut self, val_len: usize, slice_size: usize, s: &GaSettings<S>) -> (v: usize)
        requires
            slice_size > 0,
            val_len / slice_size > 0,
            old(self).cur_vset < usize::MAX,
        ensures
            v == final(self).cur_vset,
            final(self).old_vset == old(self).cur_vset,
            final(self).cur_vset == slice_after(old(self).cur_vset, val_len, slice_size),
            final(self).gas@.len() == old(self).gas@.len() + 1,
            final(self).gas@.drop_last() == old(self).gas@,
            fresh_ga(final(self).gas@.last(), *s),
            runs_with(*final(self), Opts {
                mrate: old(self).mrate,
                samples: old(self).samples,
                lead_size: old(self).lead_size,
                tset_slice: old(self).tset_slice,
                vset_slice: old(self).vset_slice,
            }),
            final(self).debug == old(self).debug,
    {
        self.old_vset = self.cur_vset;
        self.cur_vset = self.next_vset(val_len, slice_size);
        let ga = GaPool::gen_ga(s);
        self.gas.push(ga);
        proof {
            assert(self.gas@.drop_last() =~= old(self).gas@);
        }
        self.cur_vset
    }

    /// Ends a completed move to a new slice (dropping all but the newest
    /// genetic pool), then, when the remaining pool looks overfitted to its
    /// slice, starts a move to the next slice.
    pub fn fix_overfitting(
        &mut self,
        switch_min_transfer: usize,
        min_grow: usize,
        min_transfer: usize,
        val_len: usize,
        slice_size: usize,
        s: &GaSettings<S>,
    )
        requires
            old(self).gas@.len() > 0,
            ({
                let g = kept_after_switch(*old(self), switch_min_transfer);
                g.len() <= 1 && g[0].leaderboard@.len() > 0 ==> min_transfer + min_grow <= usize::MAX
            }),
            overfitted(kept_after_switch(*old(self), switch_min_transfer), min_grow, min_transfer) ==> {
                &&& slice_size > 0
                &&& val_len / slice_size > 0
                &&& old(self).cur_vset < usize::MAX
            },
        ensures
            overfitting_fixed(
                *old(self),
                *final(self),
                switch_min_transfer,
                min_grow,
                min_transfer,
                val_len,
                slice_size,
                *s,
            ),
    {
        if self.is_switch_complete(switch_min_transfer) {
            while self.gas.len() > 1
                invariant
                    self.gas@.len() >= 1,
                    old(self).gas@.len() >= 1,
                    self.gas@.last() == old(self).gas@.last(),
                    same_settings(*self, *old(self)),
                    self.cur_vset == old(self).cur_vset,
                    self.old_vset == old(self).old_vset,
                decreases self.gas@.len(),
            {
                self.gas.remove(0);
            }
            proof {
                assert(self.gas@ =~= seq![old(self).gas@.last()]);
            }
        }
        if self.is_overfitting(min_grow, min_transfer) {
            self.incr_vset(val_len, slice_size, s);
        }
    }
}

/// `k` moves to the next slice from `cur`.
pub open spec fn slice_after_times(cur: usize, val_len: usize, slice_size: usize, k: nat) -> usize
    decreases k,
{
    if k == 0 {
        cur
    } else {
        slice_after(slice_after_times(cur, val_len, slice_size, (k - 1) as nat), val_len, slice_size)
    }
}

/// From slice `cur`, `k` moves reach slice `(cur + k) mod n`, for the
/// `n = val_len / slice_size` slices.
pub proof fn lemma_slices_advance(cur: usize, val_len: usize, slice_size: usize, k: nat)
    requires
        slice_size > 0,
        val_len / slice_size > 0,
        cur < val_len / slice_size,
    ensures
        slice_after_times(cur, val_len, slice_size, k) == (cur + k) % ((val_len / slice_size) as int),
    decreases k,
{
    let n = (val_len / slice_size) as int;
    if k == 0 {
        vstd::arithmetic::div_mod::lemma_small_mod(cur as nat, n as nat);
    } else {
        lemma_slices_advance(cur, val_len, slice_size, (k - 1) as nat);
        let x = cur + k - 1;
        let prev = slice_after_times(cur, val_len, slice_size, (k - 1) as nat);
        assert(prev == x % n);
        assert(0 <= prev < n);
        vstd::arithmetic::div_mod::lemma_small_mod(prev as nat, n as nat);
        vstd::arithmetic::div_mod::lemma_add_mod_noop(x, 1, n);
        vstd::arithmetic::div_mod::lemma_add_mod_noop(prev as int, 1, n);
        assert((prev + 1) % n == (x + 1) % n);
    }
}

/// The validation slices are visited in turn: from any of the
/// `n = val_len / slice_size` slices, `n` moves to the next slice come
/// back to it.
pub proof fn law_slices_in_turn(cur: usize, val_len: usize, slice_size: usize)
    requires
        slice_size > 0,
        val_len / slice_size > 0,
        cur < val_len / slice_size,
    ensures
        slice_after_times(cur, val_len, slice_size, (val_len / slice_size) as nat) == cur,
{
    let n = (val_len / slice_size) as int;
    lemma_slices_advance(cur, val_len, slice_size, n as nat);
    vstd::arithmetic::div_mod::lemma_mod_add_multiples_vanish(cur as int, n);
    vstd::arithmetic::div_mod::lemma_small_mod(cur as nat, n as nat);
}

impl<S: Copy + PartialOrd, D: Copy> GaPool<S, D> {
    /// A copy of the oldest genetic pool (see `GA::duplicate`).
    pub fn cloned_src(&self) -> (c: GA<S, D>)
        requires
            self.gas@.len() > 0,
            self.gas@[0].wf(),
            forall|i: int| 0 <= i < self.gas@[0].leaderboard@.len() ==> (#[trigger] self.gas@[0].leaderboard@[i]).wf(),
        ensures
            ga_copy(c, self.gas@[0]),
    {
        self.gas[0].duplicate()
    }
}

/// Overfitting is found only in a single pool with a leader that has
/// recorded at least `min_transfer + min_grow` runs: a pool with fewer
/// records is never found overfitted, whatever `min_grow` alone allows.
pub proof fn law_overfitting_waits_for_records<S, D>(p: GaPool<S, D>, min_grow: usize, min_transfer: usize)
    requires
        p.gas@.len() > 0,
    ensures
        overfitting(p, min_grow, min_transfer) ==> p.gas@.len() == 1 && p.gas@[0].leaderboard@.len() > 0
            && p.gas@[0].rec_count >= min_transfer + min_grow,
        p.gas@[0].rec_count < min_transfer + min_grow ==> !overfitting(p, min_grow, min_transfer),
{
}

} // verus!
