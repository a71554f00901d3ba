//! Running the network: a tick delivers the signals due now, fires the nodes
//! that pass their thresholds, and schedules what they emit.
use vstd::prelude::*;
use std::ops::{Add, Mul, Sub};
use vstd::std_specs::cmp::PartialOrdIs;
use vstd::std_specs::ops::{AddSpec, MulSpec};
use crate::feedback::name_views;
use crate::link::Link;
use crate::net::Net;
use crate::node::{activation, copy_of, Node};
use crate::scalar::{adds_exact, adds_total, exact, total};
use crate::table::Table;

verus! {

/// `v` after adding, in order, the values of the signals addressed to `name`.
pub open spec fn accumulate<S: Add<Output = S>>(v: S, sigs: Seq<(S, String)>, name: Seq<char>) -> S
    decreases sigs.len(),
{
    if sigs.len() == 0 {
        v
    } else {
        let a = accumulate(v, sigs.drop_last(), name);
        if sigs.last().1@ == name {
            a.add_spec(sigs.last().0)
        } else {
            a
        }
    }
}

/// The names that signals are addressed to, each once, in order of first arrival.
pub open spec fn first_names<S>(sigs: Seq<(S, String)>) -> Seq<Seq<char>>
    decreases sigs.len(),
{
    if sigs.len() == 0 {
        Seq::empty()
    } else {
        let r = first_names(sigs.drop_last());
        if r.contains(sigs.last().1@) {
            r
        } else {
            r.push(sigs.last().1@)
        }
    }
}

/// Node `n`, named `name`, after receiving the signals `sigs`.
pub open spec fn charged<S: Add<Output = S>>(n: Node<S>, sigs: Seq<(S, String)>, name: Seq<char>) -> Node<S> {
    Node { value: accumulate(n.value, sigs, name), ..n }
}

/// The node's value passes its threshold.
pub open spec fn fires<S: PartialOrd>(n: Node<S>) -> bool {
    !n.value.is_le(&n.threshold)
}

/// Node `n` after firing at tick `now`: back to its reset value.
pub open spec fn after_firing<S>(n: Node<S>, now: u32) -> Node<S> {
    Node { value: n.reset, last_fired: now as usize, ..n }
}

/// What firing with activation `act` at tick `now` sends along `links`:
/// (arrival tick, (weight times activation, target)) for each link in order.
pub open spec fn link_events<S: Mul<Output = S>>(links: Seq<Link<S>>, act: S, now: u32) -> Seq<(u32, (S, String))> {
    Seq::new(
        links.len(),
        |i: int| ((now + links[i].delay) as u32, (links[i].weight.mul_spec(act), links[i].out)),
    )
}

/// The signals among `ev` that arrive at tick `t`, in order.
pub open spec fn events_at<S>(ev: Seq<(u32, (S, String))>, t: u32) -> Seq<(S, String)>
    decreases ev.len(),
{
    if ev.len() == 0 {
        Seq::empty()
    } else {
        let r = events_at(ev.drop_last(), t);
        if ev.last().0 == t {
            r.push(ev.last().1)
        } else {
            r
        }
    }
}

/// What the nodes named in `names` emit at tick `now` once charged by `sigs`.
pub open spec fn tick_events<S: Add<Output = S> + Sub<Output = S> + Mul<Output = S> + PartialOrd + From<u8>>(
    names: Seq<Seq<char>>,
    nodes: Table<String, Node<S>>,
    sigs: Seq<(S, String)>,
    now: u32,
) -> Seq<(u32, (S, String))>
    decreases names.len(),
{
    if names.len() == 0 {
        Seq::empty()
    } else {
        let k = names.last();
        let c = charged(nodes.at(k), sigs, k);
        tick_events(names.drop_last(), nodes, sigs, now) + if fires(c) {
            link_events(c.links@, activation(c.value, c.threshold), now)
        } else {
            Seq::empty()
        }
    }
}

/// The output nodes among `names` that fire once charged by `sigs`.
pub open spec fn fired_outputs<S: Add<Output = S> + PartialOrd>(
    names: Seq<Seq<char>>,
    nodes: Table<String, Node<S>>,
    sigs: Seq<(S, String)>,
) -> Seq<Seq<char>>
    decreases names.len(),
{
    if names.len() == 0 {
        Seq::empty()
    } else {
        let k = names.last();
        let c = charged(nodes.at(k), sigs, k);
        let r = fired_outputs(names.drop_last(), nodes, sigs);
        if fires(c) && c.is_output {
            r.push(k)
        } else {
            r
        }
    }
}

/// `a` and `b` differ at most in value and in when they last fired.
pub open spec fn same_shape<S>(a: Node<S>, b: Node<S>) -> bool {
    &&& a.allele == b.allele
    &&& a.reset == b.reset
    &&& a.is_input == b.is_input
    &&& a.is_output == b.is_output
    &&& a.threshold == b.threshold
    &&& a.score == b.score
    &&& a.links == b.links
}

/// `a` is `b` with, at most, another value.
pub open spec fn value_only<S>(a: Node<S>, b: Node<S>) -> bool {
    a == Node { value: a.value, ..b }
}

/// `n` is the target of some link of some node in `nodes`.
pub open spec fn is_link_target<S>(nodes: Table<String, Node<S>>, n: Seq<char>) -> bool {
    exists|p: int, l: int|
        0 <= p < nodes.values().len() && 0 <= l < nodes.values()[p].links@.len() && (
        #[trigger] nodes.values()[p].links@[l]).out@ == n
}

impl<S> Net<S> {
    /// The signals due at the current tick.
    pub open spec fn due(&self) -> Seq<(S, String)> {
        self.actions.list(self.time)
    }

    /// A tick can run: the due signals name nodes, and the links of those
    /// nodes have delays of at least one tick that keep within `u32`.
    pub open spec fn tick_ok(&self) -> bool {
        &&& self.wf()
        &&& self.time < u32::MAX
        &&& forall|j: int| 0 <= j < self.due().len() ==> self.nodes.has((#[trigger] self.due()[j]).1@)
        &&& forall|j: int, l: int|
            0 <= j < self.due().len() && 0 <= l < self.nodes.at(self.due()[j].1@).links@.len() ==> {
                let d = (#[trigger] self.nodes.at(self.due()[j].1@).links@[l]).delay;
                1 <= d && self.time + d <= u32::MAX
            }
    }
}

/// What a tick leaves of the structure of the network, whatever the numbers:
/// the signals due now are gone, and new signals are only appended, to
/// ticks after the current one, addressed to targets of links.
pub open spec fn ticked_shape<S>(old: Net<S>, new: Net<S>, ret: Table<String, Node<S>>) -> bool {
    &&& new.wf()
    &&& new.nodes.keys() == old.nodes.keys()
    &&& new.time == old.time + 1
    &&& new.vset == old.vset
    &&& new.score == old.score
    &&& new.success == old.success
    &&& new.id == old.id
    &&& forall|p: int| 0 <= p < old.nodes.values().len() ==> same_shape(#[trigger] new.nodes.values()[p], old.nodes.values()[p])
    &&& !new.actions.has(old.time)
    &&& forall|t: u32|
        t != old.time ==> {
            &&& old.actions.list(t).len() <= (#[trigger] new.actions.list(t)).len()
            &&& new.actions.list(t).subrange(0, old.actions.list(t).len() as int) == old.actions.list(t)
            &&& forall|j: int|
                old.actions.list(t).len() <= j < new.actions.list(t).len() ==> is_link_target(
                    old.nodes,
                    (#[trigger] new.actions.list(t)[j]).1@,
                )
        }
    &&& forall|t: u32| t < old.time ==> #[trigger] new.actions.list(t) == old.actions.list(t)
    &&& ret.wf()
    &&& forall|k: Seq<char>| #[trigger] ret.has(k) ==> old.nodes.has(k) && ret.at(k).is_output
}

/// What a tick does, for numbers whose operations follow their specifications.
pub open spec fn ticked_exact<S: Add<Output = S> + Sub<Output = S> + Mul<Output = S> + PartialOrd + From<u8>>(
    old: Net<S>,
    new: Net<S>,
    ret: Table<String, Node<S>>,
) -> bool {
    let sigs = old.due();
    let names = first_names(sigs);
    &&& forall|p: int|
        0 <= p < old.nodes.values().len() ==> #[trigger] new.nodes.values()[p] == {
            let k = old.nodes.keys()[p];
            let c = charged(old.nodes.values()[p], sigs, k);
            if names.contains(k) && fires(c) {
                after_firing(c, old.time)
            } else {
                c
            }
        }
    &&& forall|t: u32|
        t != old.time ==> #[trigger] new.actions.list(t) == old.actions.list(t) + events_at(
            tick_events(names, old.nodes, sigs, old.time),
            t,
        )
    &&& ret.keys() == fired_outputs(names, old.nodes, sigs)
    &&& forall|k: Seq<char>| #[trigger] ret.has(k) ==> copy_of(ret.at(k), charged(old.nodes.at(k), sigs, k))
}

impl<S> Net<S> {
    /// Whether `ticks` ticks can run (see `can_run`): the clock keeps within
    /// `u32`, every scheduled signal names a node, and every link waits at
    /// least one tick, arrives within `u32` and leads to a node.
    pub fn runnable(&self, ticks: u32) -> (r: bool)
        requires
            self.wf(),
        ensures
            r == self.can_run(ticks as nat),
    {
        let end = self.time as u64 + ticks as u64;
        if end > u32::MAX as u64 {
            return false;
        }
        let na = self.actions.len();
        let mut i: usize = 0;
        while i < na
            invariant
                self.wf(),
                i <= na,
                na == self.actions.pairs().len(),
                forall|x: int, j: int|
                    0 <= x < i && 0 <= j < self.actions.pairs()[x].1@.len() ==> self.nodes.has(
                        (#[trigger] self.actions.pairs()[x].1@[j]).1@,
                    ),
            decreases na - i,
        {
            let list = self.actions.value_at(i);
            let mut j: usize = 0;
            while j < list.len()
                invariant
                    self.wf(),
                    i < na,
                    na == self.actions.pairs().len(),
                    *list == self.actions.pairs()[i as int].1,
                    j <= list@.len(),
                    forall|x: int, jj: int|
                        0 <= x < i && 0 <= jj < self.actions.pairs()[x].1@.len() ==> self.nodes.has(
                            (#[trigger] self.actions.pairs()[x].1@[jj]).1@,
                        ),
                    forall|jj: int| 0 <= jj < j ==> self.nodes.has((#[trigger] list@[jj]).1@),
                decreases list@.len() - j,
            {
                if !self.nodes.contains_key(&list[j].1) {
                    proof {
                        let t = self.actions.pairs()[i as int].0;
                        crate::table::lemma_index_of_unique(self.actions.keys(), i as int);
                        assert(self.actions.keys()[i as int] == t);
                        assert(self.actions.list(t) == list@);
                        assert(!self.nodes.has(self.actions.list(t)[j as int].1@));
                    }
                    return false;
                }
                j = j + 1;
            }
            i = i + 1;
        }
        proof {
            assert forall|t: u32, j: int| 0 <= j < self.actions.list(t).len() implies self.nodes.has(
                (#[trigger] self.actions.list(t)[j]).1@,
            ) by {
                if self.actions.has(t) {
                    let x = self.actions.keys().index_of(t);
                    assert(self.actions.keys()[x] == t);
                    assert(self.actions.list(t)[j] == self.actions.pairs()[x].1@[j]);
                }
            }
        }
        let nn = self.nodes.len();
        let mut p: usize = 0;
        while p < nn
            invariant
                self.wf(),
                p <= nn,
                nn == self.nodes.pairs().len(),
                end == self.time + ticks,
                end <= u32::MAX,
                forall|t: u32, j: int|
                    0 <= j < self.actions.list(t).len() ==> self.nodes.has((#[trigger] self.actions.list(t)[j]).1@),
                forall|x: int, l: int|
                    0 <= x < p && 0 <= l < self.nodes.values()[x].links@.len() ==> {
                        let lk = #[trigger] self.nodes.values()[x].links@[l];
                        &&& 1 <= lk.delay
                        &&& self.time + ticks + lk.delay <= u32::MAX + 1
                        &&& self.nodes.has(lk.out@)
                    },
            decreases nn - p,
        {
            let node = self.nodes.value_at(p);
            proof {
                assert(self.nodes.values()[p as int] == *node);
            }
            let nl = node.links.len();
            let mut l: usize = 0;
            while l < nl
                invariant
                    self.wf(),
                    p < nn,
                    nn == self.nodes.pairs().len(),
                    *node == self.nodes.values()[p as int],
                    nl == node.links@.len(),
                    l <= nl,
                    end == self.time + ticks,
                    end <= u32::MAX,
                    forall|x: int, l2: int|
                        0 <= x < p && 0 <= l2 < self.nodes.values()[x].links@.len() ==> {
                            let lk = #[trigger] self.nodes.values()[x].links@[l2];
                            &&& 1 <= lk.delay
                            &&& self.time + ticks + lk.delay <= u32::MAX + 1
                            &&& self.nodes.has(lk.out@)
                        },
                    forall|l2: int| 0 <= l2 < l ==> {
                        let lk = #[trigger] node.links@[l2];
                        &&& 1 <= lk.delay
                        &&& self.time + ticks + lk.delay <= u32::MAX + 1
                        &&& self.nodes.has(lk.out@)
                    },
                decreases nl - l,
            {
                let lk = &node.links[l];
                if lk.delay < 1 || end + lk.delay as u64 > u32::MAX as u64 + 1 || !self.nodes.contains_key(&lk.out) {
                    proof {
                        assert(self.nodes.values()[p as int].links@[l as int] == *lk);
                    }
                    return false;
                }
                l = l + 1;
            }
            p = p + 1;
        }
        true
    }
}

/// A network with nothing scheduled stays quiet: a tick changes no node,
/// schedules nothing and reports no output (as `reset` leaves it, until
/// something is signalled).
pub proof fn law_quiet_tick<S: Add<Output = S> + Sub<Output = S> + Mul<Output = S> + PartialOrd + From<u8>>(
    old: Net<S>,
    new: Net<S>,
    ret: Table<String, Node<S>>,
)
    requires
        old.wf(),
        old.actions.pairs().len() == 0,
        ticked_shape(old, new, ret),
        ticked_exact(old, new, ret),
    ensures
        new.nodes.values() == old.nodes.values(),
        new.nodes.keys() == old.nodes.keys(),
        new.time == old.time + 1,
        forall|t: u32| (#[trigger] new.actions.list(t)).len() == 0,
        ret.pairs().len() == 0,
{
    let sigs = old.due();
    assert(!old.actions.has(old.time));
    assert(sigs =~= Seq::<(S, String)>::empty());
    let names = first_names(sigs);
    assert(names =~= Seq::<Seq<char>>::empty());
    assert forall|p: int| 0 <= p < old.nodes.values().len() implies #[trigger] new.nodes.values()[p]
        == old.nodes.values()[p] by {
        let k = old.nodes.keys()[p];
        let c = charged(old.nodes.values()[p], sigs, k);
        assert(c == old.nodes.values()[p]);
    }
    assert(new.nodes.values() =~= old.nodes.values());
    assert(tick_events(names, old.nodes, sigs, old.time) =~= Seq::<(u32, (S, String))>::empty());
    assert forall|t: u32| (#[trigger] new.actions.list(t)).len() == 0 by {
        if t != old.time {
            assert(!old.actions.has(t));
            assert(events_at(Seq::<(u32, (S, String))>::empty(), t) =~= Seq::<(S, String)>::empty());
        }
    }
    assert(ret.keys() =~= Seq::<Seq<char>>::empty());
}

impl<S: Copy + Add<Output = S>> Net<S> {
    /// Adds each signal's value to the node it names, in order; returns the
    /// names that received signals, each once, in order of first arrival.
    fn charge(&mut self, sigs: &Vec<(S, String)>) -> (names: Vec<String>)
        requires
            old(self).wf(),
            adds_total::<S>(),
            forall|j: int| 0 <= j < sigs@.len() ==> old(self).nodes.has((#[trigger] sigs@[j]).1@),
        ensures
            final(self).wf(),
            final(self).same_but_nodes(&*old(self)),
            final(self).nodes.keys() == old(self).nodes.keys(),
            name_views(names@) == first_names(sigs@),
            forall|p: int|
                0 <= p < old(self).nodes.values().len() ==> value_only(
                    #[trigger] final(self).nodes.values()[p],
                    old(self).nodes.values()[p],
                ),
            adds_exact::<S>() ==> forall|p: int|
                0 <= p < old(self).nodes.values().len() ==> (#[trigger] final(self).nodes.values()[p]) == charged(
                    old(self).nodes.values()[p],
                    sigs@,
                    old(self).nodes.keys()[p],
                ),
    {
        let ghost keys = old(self).nodes.keys();
        let ghost olds = old(self).nodes.values();
        let mut names: Vec<String> = Vec::new();
        let mut k: usize = 0;
        proof {
            assert(sigs@.subrange(0, 0) =~= Seq::<(S, String)>::empty());
            assert(name_views(names@) =~= Seq::<Seq<char>>::empty());
        }
        while k < sigs.len()
            invariant
                k <= sigs@.len(),
                keys == old(self).nodes.keys(),
                olds == old(self).nodes.values(),
                adds_total::<S>(),
                forall|j: int| 0 <= j < sigs@.len() ==> old(self).nodes.has((#[trigger] sigs@[j]).1@),
                self.wf(),
                self.same_but_nodes(&*old(self)),
                self.nodes.keys() == keys,
                self.nodes.values().len() == keys.len(),
                name_views(names@) == first_names(sigs@.subrange(0, k as int)),
                forall|p: int|
                    0 <= p < keys.len() ==> value_only(#[trigger] self.nodes.values()[p], olds[p]),
                adds_exact::<S>() ==> forall|p: int|
                    0 <= p < keys.len() ==> (#[trigger] self.nodes.values()[p]) == charged(
                        olds[p],
                        sigs@.subrange(0, k as int),
                        keys[p],
                    ),
            decreases sigs@.len() - k,
        {
            let v = sigs[k].0;
            let name = &sigs[k].1;
            let ghost before = self.nodes.values();
            let ghost s0 = sigs@.subrange(0, k as int);
            let ghost s1 = sigs@.subrange(0, k as int + 1);
            let ghost q = keys.index_of(name@);
            proof {
                assert(sigs@[k as int].1@ == name@);
                assert(s1.drop_last() =~= s0);
                assert(s1.last() == sigs@[k as int]);
                assert(old(self).nodes.has(name@));
                assert(keys[q] == name@);
                assert(self.nodes.has(name@));
                assert(self.nodes.at(name@) == self.nodes.pairs()[q].1);
                assert(before[q] == self.nodes.pairs()[q].1);
            }
            let nd = self.node(name);
            nd.value = nd.value + v;
            proof {
                assert(self.nodes.values() =~= before.update(q, self.nodes.values()[q]));
                assert forall|p: int| 0 <= p < keys.len() implies value_only(#[trigger] self.nodes.values()[p], olds[p]) by {
                    if p != q {
                        assert(self.nodes.values()[p] == before[p]);
                    }
                }
                if adds_exact::<S>() {
                    assert forall|p: int| 0 <= p < keys.len() implies (#[trigger] self.nodes.values()[p]) == charged(
                        olds[p],
                        s1,
                        keys[p],
                    ) by {
                        if p != q {
                            assert(self.nodes.values()[p] == before[p]);
                            if keys[p] == name@ {
                                crate::table::lemma_index_of_unique(keys, p);
                            }
                        }
                    }
                }
            }
            if !crate::feedback::holds_name(&names, name) {
                let ghost nb = names@;
                names.push(name.clone());
                proof {
                    assert(name_views(names@) =~= name_views(nb).push(name@));
                }
            }
            k = k + 1;
        }
        proof {
            assert(sigs@.subrange(0, sigs@.len() as int) =~= sigs@);
        }
        names
    }
}

/// Signals `pays[i]` sent along `links[i]` at tick `now`, as
/// (arrival tick, (value, target)).
pub open spec fn paid_events<S>(links: Seq<Link<S>>, pays: Seq<S>, now: u32) -> Seq<(u32, (S, String))> {
    Seq::new(links.len(), |i: int| ((now + links[i].delay) as u32, (pays[i], links[i].out)))
}

proof fn lemma_events_at_push<S>(ev: Seq<(u32, (S, String))>, x: (u32, (S, String)), t: u32)
    ensures
        events_at(ev.push(x), t) == if x.0 == t {
            events_at(ev, t).push(x.1)
        } else {
            events_at(ev, t)
        },
{
    assert(ev.push(x).drop_last() =~= ev);
}

/// Signals that all arrive after `now` leave tick `now` without signals.
proof fn lemma_events_after<S>(ev: Seq<(u32, (S, String))>, now: u32)
    requires
        forall|i: int| 0 <= i < ev.len() ==> (#[trigger] ev[i]).0 > now,
    ensures
        events_at(ev, now) == Seq::<(S, String)>::empty(),
    decreases ev.len(),
{
    if ev.len() > 0 {
        lemma_events_after(ev.drop_last(), now);
    }
}

proof fn lemma_events_at_concat<S>(a: Seq<(u32, (S, String))>, b: Seq<(u32, (S, String))>, t: u32)
    ensures
        events_at(a + b, t) == events_at(a, t) + events_at(b, t),
    decreases b.len(),
{
    if b.len() == 0 {
        assert(a + b =~= a);
        assert(events_at(a, t) + events_at(b, t) =~= events_at(a, t));
    } else {
        lemma_events_at_concat(a, b.drop_last(), t);
        assert((a + b).drop_last() =~= a + b.drop_last());
        assert((a + b).last() == b.last());
        if b.last().0 == t {
            assert(events_at(a, t) + events_at(b, t) =~= (events_at(a, t) + events_at(b.drop_last(), t)).push(b.last().1));
        }
    }
}

/// The names of `first_names` occur once each and are exactly the names signalled.
proof fn lemma_first_names<S>(sigs: Seq<(S, String)>)
    ensures
        first_names(sigs).no_duplicates(),
        forall|n: Seq<char>| #[trigger] first_names(sigs).contains(n) <==> exists|j: int| 0 <= j < sigs.len() && sigs[j].1@ == n,
    decreases sigs.len(),
{
    if sigs.len() > 0 {
        let d = sigs.drop_last();
        lemma_first_names(d);
        let r = first_names(d);
        assert forall|n: Seq<char>| #[trigger] first_names(sigs).contains(n) <==> exists|j: int| 0 <= j < sigs.len() && sigs[j].1@ == n by {
            if first_names(sigs).contains(n) {
                if r.contains(n) {
                    let j = choose|j: int| 0 <= j < d.len() && d[j].1@ == n;
                    assert(sigs[j] == d[j]);
                } else {
                    assert(n == sigs.last().1@);
                    assert(sigs[sigs.len() - 1].1@ == n);
                }
            }
            if exists|j: int| 0 <= j < sigs.len() && sigs[j].1@ == n {
                let j = choose|j: int| 0 <= j < sigs.len() && sigs[j].1@ == n;
                if j < sigs.len() - 1 {
                    assert(d[j] == sigs[j]);
                    assert(r.contains(n));
                    if !r.contains(sigs.last().1@) {
                        let i = choose|i: int| 0 <= i < r.len() && r[i] == n;
                        assert(r.push(sigs.last().1@)[i] == n);
                    }
                } else {
                    if !r.contains(sigs.last().1@) {
                        assert(r.push(sigs.last().1@)[r.len() as int] == n);
                    }
                }
            }
        }
    }
}

impl<S: Copy + Mul<Output = S>> Net<S> {
    /// Sends `pays[i]` along `links[i]`, link by link, `delay` ticks after `now`.
    fn emit(&mut self, links: &Vec<Link<S>>, pays: &Vec<S>, now: u32)
        requires
            old(self).wf(),
            pays@.len() == links@.len(),
            forall|l: int| 0 <= l < links@.len() ==> now + (#[trigger] links@[l]).delay <= u32::MAX,
        ensures
            final(self).wf(),
            final(self).same_but_actions(&*old(self)),
            forall|t: u32| #[trigger] final(self).actions.has(t) <== old(self).actions.has(t),
            forall|t: u32|
                !old(self).actions.has(t) && (forall|l: int| 0 <= l < links@.len() ==> now + (#[trigger] links@[l]).delay != t)
                    ==> !#[trigger] final(self).actions.has(t),
            forall|t: u32|
                #[trigger] final(self).actions.list(t) == old(self).actions.list(t) + events_at(
                    paid_events(links@, pays@, now),
                    t,
                ),
    {
        let ghost ev = paid_events(links@, pays@, now);
        let mut i: usize = 0;
        proof {
            assert forall|t: u32| #[trigger] self.actions.list(t) == old(self).actions.list(t) + events_at(ev.subrange(0, 0), t) by {
                assert(ev.subrange(0, 0) =~= Seq::<(u32, (S, String))>::empty());
                assert(self.actions.list(t) + Seq::<(S, String)>::empty() =~= self.actions.list(t));
            }
        }
        while i < links.len()
            invariant
                i <= links@.len(),
                pays@.len() == links@.len(),
                ev == paid_events(links@, pays@, now),
                forall|l: int| 0 <= l < links@.len() ==> now + (#[trigger] links@[l]).delay <= u32::MAX,
                self.wf(),
                self.same_but_actions(&*old(self)),
                forall|t: u32| #[trigger] self.actions.has(t) <== old(self).actions.has(t),
                forall|t: u32|
                    !old(self).actions.has(t) && (forall|l: int| 0 <= l < i ==> now + (#[trigger] links@[l]).delay != t)
                        ==> !#[trigger] self.actions.has(t),
                forall|t: u32| #[trigger] self.actions.list(t) == old(self).actions.list(t) + events_at(ev.subrange(0, i as int), t),
            decreases links@.len() - i,
        {
            let syn = &links[i];
            let t = now + syn.delay;
            let ghost before = self.actions;
            let ghost x = ev[i as int];
            proof {
                assert(links@[i as int] == *syn);
                assert(x == (t, (pays@[i as int], syn.out)));
            }
            self.signal(t, syn.out.clone(), pays[i]);
            proof {
                assert(ev.subrange(0, i as int + 1) =~= ev.subrange(0, i as int).push(x));
                assert forall|u: u32| #[trigger] self.actions.list(u) == old(self).actions.list(u) + events_at(ev.subrange(0, i as int + 1), u) by {
                    lemma_events_at_push(ev.subrange(0, i as int), x, u);
                    if u == t {
                        assert(old(self).actions.list(u) + events_at(ev.subrange(0, i as int), u).push(x.1)
                            =~= (old(self).actions.list(u) + events_at(ev.subrange(0, i as int), u)).push(x.1));
                    }
                }
                assert forall|u: u32|
                    !old(self).actions.has(u) && (forall|l: int| 0 <= l < i + 1 ==> now + (#[trigger] links@[l]).delay != u)
                        implies !#[trigger] self.actions.has(u) by {
                    assert(now + links@[i as int].delay != u);
                }
            }
            i = i + 1;
        }
        proof {
            assert(ev.subrange(0, links@.len() as int) =~= ev);
        }
    }
}

/// What firing with activation `act` sends along each link: weight times activation.
fn payloads<S: Copy + Mul<Output = S>>(links: &Vec<Link<S>>, act: S) -> (pays: Vec<S>)
    requires
        forall|a: S, b: S| #[trigger] a.mul_req(b),
    ensures
        pays@.len() == links@.len(),
        S::obeys_mul_spec() ==> forall|i: int| 0 <= i < links@.len() ==> #[trigger] pays@[i] == links@[i].weight.mul_spec(act),
{
    let mut pays: Vec<S> = Vec::new();
    let mut i: usize = 0;
    while i < links.len()
        invariant
            i <= links@.len(),
            pays@.len() == i,
            forall|a: S, b: S| #[trigger] a.mul_req(b),
            S::obeys_mul_spec() ==> forall|j: int| 0 <= j < i ==> #[trigger] pays@[j] == links@[j].weight.mul_spec(act),
        decreases links@.len() - i,
    {
        pays.push(links[i].weight * act);
        i = i + 1;
    }
    pays
}

/// Every signal arriving at `t` is one of `ev`.
/// No signal arrives at a tick that no event is scheduled for.
proof fn lemma_events_at_none<S>(ev: Seq<(u32, (S, String))>, t: u32)
    requires
        forall|i: int| 0 <= i < ev.len() ==> (#[trigger] ev[i]).0 != t,
    ensures
        events_at(ev, t).len() == 0,
    decreases ev.len(),
{
    if ev.len() > 0 {
        let d = ev.drop_last();
        assert forall|i: int| 0 <= i < d.len() implies (#[trigger] d[i]).0 != t by {
            assert(d[i] == ev[i]);
        }
        lemma_events_at_none(d, t);
        assert(ev.last() == ev[ev.len() - 1]);
    }
}

proof fn lemma_events_at_members<S>(ev: Seq<(u32, (S, String))>, t: u32)
    ensures
        forall|j: int| 0 <= j < events_at(ev, t).len() ==> exists|i: int| 0 <= i < ev.len() && ev[i].1 == #[trigger] events_at(ev, t)[j],
    decreases ev.len(),
{
    if ev.len() > 0 {
        let d = ev.drop_last();
        lemma_events_at_members(d, t);
        assert forall|j: int| 0 <= j < events_at(ev, t).len() implies exists|i: int| 0 <= i < ev.len() && ev[i].1 == #[trigger] events_at(ev, t)[j] by {
            if j < events_at(d, t).len() {
                let i = choose|i: int| 0 <= i < d.len() && d[i].1 == events_at(d, t)[j];
                assert(ev[i] == d[i]);
            } else {
                assert(ev[ev.len() - 1].1 == events_at(ev, t)[j]);
            }
        }
    }
}

impl<S: Copy + Add<Output = S> + Sub<Output = S> + Mul<Output = S> + PartialOrd + From<u8>> Net<S> {
    /// One tick: the signals due now are added to the nodes they name; each
    /// of those nodes whose value passes its threshold fires, in order of
    /// first signal: it sends weight times its activation along each link,
    /// to arrive `delay` ticks later, and goes back to its reset value. The
    /// output nodes that fired are returned as they were when they fired.
    pub fn tick(&mut self) -> (ret: Table<String, Node<S>>)
        requires
            old(self).tick_ok(),
            total::<S>(),
        ensures
            ticked_shape(*old(self), *final(self), ret),
            exact::<S>() ==> ticked_exact(*old(self), *final(self), ret),
    {
        let now = self.time;
        let ghost keys = self.nodes.keys();
        let ghost olds = self.nodes.values();
        let ghost a0 = self.actions;
        let sigs = match self.actions.remove(&now) {
            Some(v) => v,
            None => Vec::new(),
        };
        proof {
            assert(sigs@ == old(self).due());
        }
        let ghost base = self.actions;
        let names = self.charge(&sigs);
        let ghost mid = self.nodes.values();
        let ghost nv = name_views(names@);
        proof {
            lemma_first_names(sigs@);
            assert(nv.subrange(0, 0) =~= Seq::<Seq<char>>::empty());
            assert forall|p: int| 0 <= p < keys.len() implies value_only(#[trigger] mid[p], olds[p]) by {}
        }
        let mut ret: Table<String, Node<S>> = Table::new();
        let ghost mut ev: Seq<(u32, (S, String))> = Seq::empty();
        let mut k: usize = 0;
        while k < names.len()
            invariant
                k <= names@.len(),
                nv == name_views(names@),
                nv == first_names(sigs@),
                nv.no_duplicates(),
                forall|n: Seq<char>| #[trigger] nv.contains(n) <==> exists|j: int| 0 <= j < sigs@.len() && sigs@[j].1@ == n,
                old(self).tick_ok(),
                total::<S>(),
                sigs@ == old(self).due(),
                now == old(self).time,
                keys == old(self).nodes.keys(),
                olds == old(self).nodes.values(),
                self.wf(),
                self.time == now,
                self.vset == old(self).vset,
                self.score == old(self).score,
                self.success == old(self).success,
                self.id == old(self).id,
                self.nodes.keys() == keys,
                self.nodes.values().len() == keys.len(),
                mid.len() == keys.len(),
                forall|p: int| 0 <= p < keys.len() ==> value_only(#[trigger] mid[p], olds[p]),
                adds_exact::<S>() ==> forall|p: int|
                    0 <= p < keys.len() ==> #[trigger] mid[p] == charged(olds[p], sigs@, keys[p]),
                forall|p: int|
                    0 <= p < keys.len() ==> (#[trigger] self.nodes.values()[p] == mid[p]
                        || self.nodes.values()[p] == after_firing(mid[p], now)),
                forall|p: int|
                    0 <= p < keys.len() && !nv.subrange(0, k as int).contains(keys[p]) ==> #[trigger] self.nodes.values()[p] == mid[p],
                exact::<S>() ==> forall|p: int|
                    0 <= p < keys.len() ==> #[trigger] self.nodes.values()[p] == if nv.subrange(0, k as int).contains(keys[p])
                        && fires(mid[p]) {
                        after_firing(mid[p], now)
                    } else {
                        mid[p]
                    },
                !base.has(now),
                forall|t: u32| t != now ==> #[trigger] base.list(t) == a0.list(t),
                a0 == old(self).actions,
                !self.actions.has(now),
                forall|t: u32| #[trigger] self.actions.list(t) == base.list(t) + events_at(ev, t),
                forall|i: int| 0 <= i < ev.len() ==> (#[trigger] ev[i]).0 > now && is_link_target(old(self).nodes, ev[i].1.1@),
                exact::<S>() ==> ev == tick_events(nv.subrange(0, k as int), old(self).nodes, sigs@, now),
                ret.wf(),
                forall|x: Seq<char>| #[trigger] ret.has(x) ==> old(self).nodes.has(x) && ret.at(x).is_output
                    && nv.subrange(0, k as int).contains(x),
                exact::<S>() ==> ret.keys() == fired_outputs(nv.subrange(0, k as int), old(self).nodes, sigs@),
                exact::<S>() ==> forall|x: Seq<char>| #[trigger] ret.has(x) ==> copy_of(ret.at(x), charged(old(self).nodes.at(x), sigs@, x)),
            decreases names@.len() - k,
        {
            let name = &names[k];
            let ghost x = name@;
            let ghost n0 = nv.subrange(0, k as int);
            let ghost n1 = nv.subrange(0, k as int + 1);
            let ghost q = keys.index_of(x);
            proof {
                assert(nv[k as int] == x);
                assert(nv.contains(x));
                let j = choose|j: int| 0 <= j < sigs@.len() && sigs@[j].1@ == x;
                assert(old(self).nodes.has((sigs@[j]).1@));
                assert(keys.contains(x));
                assert(keys[q] == x);
                crate::table::lemma_index_of_unique(keys, q);
                assert(n1.drop_last() =~= n0);
                assert(n1.last() == x);
                assert(!n0.contains(x)) by {
                    if n0.contains(x) {
                        let y = choose|y: int| 0 <= y < n0.len() && n0[y] == x;
                        assert(nv[y] == nv[k as int]);
                    }
                }
                assert(self.nodes.values()[q] == mid[q]);
                assert(old(self).nodes.at(x) == olds[q]);
                assert forall|p: int| 0 <= p < keys.len() implies (n1.contains(keys[p]) <==> (n0.contains(keys[p]) || p == q)) by {
                    if n1.contains(keys[p]) {
                        let y = choose|y: int| 0 <= y < n1.len() && n1[y] == keys[p];
                        if y < k {
                            assert(n0[y] == keys[p]);
                        } else {
                            crate::table::lemma_index_of_unique(keys, p);
                        }
                    }
                    if n0.contains(keys[p]) {
                        let y = choose|y: int| 0 <= y < n0.len() && n0[y] == keys[p];
                        assert(n1[y] == keys[p]);
                    }
                    if p == q {
                        assert(n1[k as int] == keys[p]);
                    }
                }
                // The links of the node are those it had before the tick.
                assert(mid[q].links == olds[q].links);
                assert forall|l: int| 0 <= l < mid[q].links@.len() implies {
                    let d = (#[trigger] mid[q].links@[l]).delay;
                    1 <= d && now + d <= u32::MAX
                } by {
                    let due = old(self).due();
                    assert(due[j].1@ == x);
                    assert(old(self).nodes.at(due[j].1@).links@[l] == mid[q].links@[l]);
                }
            }
            let i = self.nodes.find(name).unwrap();
            proof {
                assert(i == q);
                assert(self.nodes.values()[q] == self.nodes.pairs()[q].1);
            }
            let nd = self.nodes.value_at(i);
            if nd.value <= nd.threshold {
                proof {
                    if exact::<S>() {
                        assert(!fires(mid[q]));
                        assert(tick_events(n1, old(self).nodes, sigs@, now) =~= tick_events(n0, old(self).nodes, sigs@, now));
                        assert(fired_outputs(n1, old(self).nodes, sigs@) == fired_outputs(n0, old(self).nodes, sigs@));
                    }
                    assert forall|y: Seq<char>| #[trigger] ret.has(y) implies n1.contains(y) by {
                        let z = choose|z: int| 0 <= z < n0.len() && n0[z] == y;
                        assert(n1[z] == y);
                    }
                }
                k = k + 1;
                continue;
            }
            let cloned = nd.duplicate();
            let val = cloned.activated();
            let pays = payloads(&cloned.links, val);
            let ghost before = self.actions;
            let ghost paid = paid_events(cloned.links@, pays@, now);
            self.emit(&cloned.links, &pays, now);
            proof {
                assert forall|t: u32| #[trigger] self.actions.list(t) == base.list(t) + events_at(ev + paid, t) by {
                    lemma_events_at_concat(ev, paid, t);
                    assert(base.list(t) + events_at(ev, t) + events_at(paid, t) =~= base.list(t) + (events_at(ev, t) + events_at(paid, t)));
                }
                assert forall|l: int| 0 <= l < cloned.links@.len() implies now + (#[trigger] cloned.links@[l]).delay != now by {
                    assert(cloned.links@[l] == mid[q].links@[l]);
                }
                assert forall|w: int| 0 <= w < (ev + paid).len() implies (#[trigger] (ev + paid)[w]).0 > now
                    && is_link_target(old(self).nodes, (ev + paid)[w].1.1@) by {
                    if w >= ev.len() {
                        let l = w - ev.len();
                        assert((ev + paid)[w] == paid[l]);
                        assert(cloned.links@[l] == olds[q].links@[l]);
                        assert(old(self).nodes.values()[q].links@[l].out@ == paid[l].1.1@);
                    }
                }
                if exact::<S>() {
                    assert(fires(mid[q]));
                    assert(val == activation(mid[q].value, mid[q].threshold));
                    assert(paid =~= link_events(mid[q].links@, activation(mid[q].value, mid[q].threshold), now));
                    assert(mid[q] == charged(old(self).nodes.at(x), sigs@, x));
                    assert(tick_events(n1, old(self).nodes, sigs@, now) == tick_events(n0, old(self).nodes, sigs@, now) + paid);
                }
                ev = ev + paid;
            }
            if cloned.is_output {
                let ghost rb = ret;
                ret.insert(name.clone(), cloned);
                proof {
                    assert(!rb.has(x));
                    assert(ret.keys() =~= rb.keys().push(x));
                    assert forall|y: Seq<char>| #[trigger] ret.has(y) implies old(self).nodes.has(y) && ret.at(y).is_output
                        && n1.contains(y) && (exact::<S>() ==> copy_of(ret.at(y), charged(old(self).nodes.at(y), sigs@, y))) by {
                        if y == x {
                            crate::table::lemma_index_of_unique(ret.keys(), ret.keys().len() - 1);
                            assert(n1[k as int] == y);
                            assert(ret.at(y) == cloned);
                        } else {
                            let z = ret.keys().index_of(y);
                            assert(ret.keys()[z] == y);
                            assert(z < rb.keys().len());
                            assert(rb.keys()[z] == y);
                            crate::table::lemma_index_of_unique(rb.keys(), z);
                            crate::table::lemma_index_of_unique(ret.keys(), z);
                            assert(rb.has(y));
                            assert(ret.pairs()[z] == rb.pairs()[z]);
                            assert(ret.at(y) == rb.at(y));
                            assert(n0.contains(y));
                            let w = choose|w: int| 0 <= w < n0.len() && n0[w] == y;
                            assert(n1[w] == y);
                        }
                    }
                    if exact::<S>() {
                        assert(fired_outputs(n1, old(self).nodes, sigs@) == fired_outputs(n0, old(self).nodes, sigs@).push(x));
                    }
                }
            } else {
                proof {
                    if exact::<S>() {
                        assert(fired_outputs(n1, old(self).nodes, sigs@) == fired_outputs(n0, old(self).nodes, sigs@));
                    }
                    assert forall|y: Seq<char>| #[trigger] ret.has(y) implies n1.contains(y) by {
                        let z = choose|z: int| 0 <= z < n0.len() && n0[z] == y;
                        assert(n1[z] == y);
                    }
                }
            }
            let ghost vb = self.nodes.values();
            let nd = self.nodes.value_at_mut(i);
            nd.value = nd.reset;
            nd.last_fired = now as usize;
            proof {
                assert(self.nodes.values() == vb.update(q, after_firing(mid[q], now)));
            }
            k = k + 1;
        }
        self.time = now + 1;
        proof {
            assert(nv.subrange(0, names@.len() as int) =~= nv);
            assert forall|p: int| 0 <= p < keys.len() implies same_shape(#[trigger] self.nodes.values()[p], olds[p]) by {
                assert(value_only(mid[p], olds[p]));
            }
            assert forall|t: u32| t != now implies {
                &&& old(self).actions.list(t).len() <= (#[trigger] self.actions.list(t)).len()
                &&& self.actions.list(t).subrange(0, old(self).actions.list(t).len() as int) == old(self).actions.list(t)
                &&& forall|j: int|
                    old(self).actions.list(t).len() <= j < self.actions.list(t).len() ==> is_link_target(
                        old(self).nodes,
                        (#[trigger] self.actions.list(t)[j]).1@,
                    )
            } by {
                let ol = old(self).actions.list(t);
                let e = events_at(ev, t);
                assert(self.actions.list(t) == ol + e);
                assert((ol + e).subrange(0, ol.len() as int) =~= ol);
                lemma_events_at_members(ev, t);
                assert forall|j: int| ol.len() <= j < (ol + e).len() implies is_link_target(old(self).nodes, (#[trigger] (ol + e)[j]).1@) by {
                    assert((ol + e)[j] == e[j - ol.len()]);
                    let w = choose|w: int| 0 <= w < ev.len() && ev[w].1 == e[j - ol.len()];
                    assert(is_link_target(old(self).nodes, ev[w].1.1@));
                }
            }
            assert forall|t: u32| t < now implies #[trigger] self.actions.list(t) == old(self).actions.list(t) by {
                lemma_events_at_none(ev, t);
                assert(old(self).actions.list(t) + events_at(ev, t) =~= old(self).actions.list(t));
            }
        }
        ret
    }
}

impl<S> Net<S> {
    /// `ticks` ticks can run: every scheduled signal and every link names a
    /// node, every link has a delay of at least one tick, and the ticks and
    /// delays keep within `u32`.
    pub open spec fn can_run(&self, ticks: nat) -> bool {
        &&& self.wf()
        &&& self.time + ticks <= u32::MAX
        &&& forall|t: u32, j: int|
            0 <= j < self.actions.list(t).len() ==> self.nodes.has((#[trigger] self.actions.list(t)[j]).1@)
        &&& forall|p: int, l: int|
            0 <= p < self.nodes.values().len() && 0 <= l < self.nodes.values()[p].links@.len() ==> {
                let lk = #[trigger] self.nodes.values()[p].links@[l];
                &&& 1 <= lk.delay
                &&& self.time + ticks + lk.delay <= u32::MAX + 1
                &&& self.nodes.has(lk.out@)
            }
    }
}

impl<S> Net<S> {
    /// Whether a tick can run (see `tick_ok`): the clock has a tick left,
    /// the due signals name nodes, and the links of those nodes wait at
    /// least one tick and arrive within `u32`.
    pub fn tickable(&self) -> (r: bool)
        requires
            self.wf(),
        ensures
            r == self.tick_ok(),
    {
        if self.time == u32::MAX {
            return false;
        }
        let due = match self.actions.get(&self.time) {
            Some(v) => v,
            None => {
                return true;
            },
        };
        let mut j: usize = 0;
        while j < due.len()
            invariant
                self.wf(),
                self.time < u32::MAX,
                due@ == self.due(),
                j <= due@.len(),
                forall|jj: int| 0 <= jj < j ==> self.nodes.has((#[trigger] self.due()[jj]).1@),
                forall|jj: int, l: int|
                    0 <= jj < j && 0 <= l < self.nodes.at(self.due()[jj].1@).links@.len() ==> {
                        let d = (#[trigger] self.nodes.at(self.due()[jj].1@).links@[l]).delay;
                        1 <= d && self.time + d <= u32::MAX
                    },
            decreases due@.len() - j,
        {
            let node = match self.nodes.get(&due[j].1) {
                Some(n) => n,
                None => {
                    return false;
                },
            };
            let mut l: usize = 0;
            while l < node.links.len()
                invariant
                    self.wf(),
                    self.time < u32::MAX,
                    due@ == self.due(),
                    j < due@.len(),
                    *node == self.nodes.at(self.due()[j as int].1@),
                    l <= node.links@.len(),
                    forall|ll: int| 0 <= ll < l ==> {
                        let d = (#[trigger] node.links@[ll]).delay;
                        1 <= d && self.time + d <= u32::MAX
                    },
                decreases node.links@.len() - l,
            {
                let d = node.links[l].delay;
                if d < 1 || self.time as u64 + d as u64 > u32::MAX as u64 {
                    proof {
                        assert(self.nodes.at(self.due()[j as int].1@).links@[l as int].delay == d);
                    }
                    return false;
                }
                l = l + 1;
            }
            proof {
                assert forall|jj: int, ll: int|
                    0 <= jj < j + 1 && 0 <= ll < self.nodes.at(self.due()[jj].1@).links@.len() implies {
                        let d = (#[trigger] self.nodes.at(self.due()[jj].1@).links@[ll]).delay;
                        1 <= d && self.time + d <= u32::MAX
                    } by {
                    if jj == j {
                        assert(node.links@[ll] == self.nodes.at(self.due()[jj].1@).links@[ll]);
                    }
                }
            }
            j = j + 1;
        }
        true
    }
}

/// A run of ticks from `old` that halted at `new`, where no tick can run
/// (see `tick_ok`): fewer than `ticks` ticks ran, none of them (when
/// `trigger`) returning a fired output.
pub open spec fn halted<S: Add<Output = S> + Sub<Output = S> + Mul<Output = S> + PartialOrd + From<u8>>(
    states: Seq<Net<S>>,
    rets: Seq<Table<String, Node<S>>>,
    old: Net<S>,
    new: Net<S>,
    ticks: nat,
    trigger: bool,
) -> bool {
    &&& tick_chain(states, rets)
    &&& states[0] == old
    &&& states.last() == new
    &&& rets.len() < ticks
    &&& forall|i: int| 0 <= i < rets.len() ==> !(trigger && (#[trigger] rets[i]).pairs().len() > 0)
    &&& !new.tick_ok()
}

/// A tick takes `old` to `new`, returning `ret`.
pub open spec fn ticks_to<S: Add<Output = S> + Sub<Output = S> + Mul<Output = S> + PartialOrd + From<u8>>(
    old: Net<S>,
    new: Net<S>,
    ret: Table<String, Node<S>>,
) -> bool {
    &&& ticked_shape(old, new, ret)
    &&& exact::<S>() ==> ticked_exact(old, new, ret)
}

/// `states` are the networks after each tick, starting from the first;
/// `rets` the tables that the ticks returned.
pub open spec fn tick_chain<S: Add<Output = S> + Sub<Output = S> + Mul<Output = S> + PartialOrd + From<u8>>(
    states: Seq<Net<S>>,
    rets: Seq<Table<String, Node<S>>>,
) -> bool {
    &&& states.len() == rets.len() + 1
    &&& forall|i: int| 0 <= i < rets.len() ==> ticks_to(states[i], states[i + 1], #[trigger] rets[i])
}

/// A run of ticks from `old` to `new` returning `ret`: at most `ticks`
/// ticks, stopping early (when `trigger`) at the first tick that returns
/// a fired output; `ret` is what the last tick returned (empty if none ran).
pub open spec fn ran<S: Add<Output = S> + Sub<Output = S> + Mul<Output = S> + PartialOrd + From<u8>>(
    states: Seq<Net<S>>,
    rets: Seq<Table<String, Node<S>>>,
    old: Net<S>,
    new: Net<S>,
    ret: Table<String, Node<S>>,
    ticks: nat,
    trigger: bool,
) -> bool {
    &&& tick_chain(states, rets)
    &&& states[0] == old
    &&& states.last() == new
    &&& rets.len() <= ticks
    &&& rets.len() == 0 ==> ret.pairs().len() == 0
    &&& rets.len() > 0 ==> ret == rets.last()
    &&& forall|i: int| 0 <= i < rets.len() - 1 ==> !(trigger && (#[trigger] rets[i]).pairs().len() > 0)
    &&& rets.len() == ticks || (trigger && rets.last().pairs().len() > 0)
}

impl<S: Copy + Add<Output = S> + Sub<Output = S> + Mul<Output = S> + PartialOrd + From<u8>> Net<S> {
    /// Runs up to `ticks` ticks; with `trigger`, stops after the first tick
    /// at which an output node fires. Returns what the last tick returned,
    /// or `None` when it reaches a tick that cannot run (see `tick_ok`): a
    /// due signal naming no node, a link of its node waiting no tick or past
    /// the end of the clock, or no tick left on the clock. It runs to the
    /// end when the network can run `ticks` ticks (see `can_run`).
    pub fn cycle(&mut self, ticks: u32, trigger: bool) -> (r: Option<Table<String, Node<S>>>)
        requires
            old(self).wf(),
            total::<S>(),
        ensures
            final(self).wf(),
            final(self).time <= old(self).time + ticks,
            old(self).can_run(ticks as nat) ==> r is Some,
            old(self).can_run(ticks as nat) ==> final(self).can_run((old(self).time + ticks - final(self).time) as nat),
            match r {
                Some(act) => exists|states: Seq<Net<S>>, rets: Seq<Table<String, Node<S>>>|
                    #[trigger] ran(states, rets, *old(self), *final(self), act, ticks as nat, trigger),
                None => exists|states: Seq<Net<S>>, rets: Seq<Table<String, Node<S>>>|
                    #[trigger] halted(states, rets, *old(self), *final(self), ticks as nat, trigger),
            },
    {
        let mut active: Table<String, Node<S>> = Table::new();
        let mut i: u32 = 0;
        let mut stop = false;
        let ghost mut states: Seq<Net<S>> = seq![*self];
        let ghost mut rets: Seq<Table<String, Node<S>>> = Seq::empty();
        while i < ticks && !stop
            invariant
                i <= ticks,
                total::<S>(),
                self.wf(),
                self.time == old(self).time + i,
                old(self).can_run(ticks as nat) ==> self.can_run((ticks - i) as nat),
                rets.len() == i,
                tick_chain(states, rets),
                states[0] == *old(self),
                states.last() == *self,
                i == 0 ==> active.pairs().len() == 0,
                i > 0 ==> active == rets.last(),
                forall|j: int| 0 <= j < rets.len() - 1 ==> !(trigger && (#[trigger] rets[j]).pairs().len() > 0),
                stop ==> i > 0 && trigger && rets.last().pairs().len() > 0,
                !stop && i > 0 ==> !(trigger && rets.last().pairs().len() > 0),
            decreases ticks - i,
        {
            let ghost before = *self;
            proof {
                if old(self).can_run(ticks as nat) {
                    assert(self.tick_ok()) by {
                        assert forall|j: int, l: int|
                            0 <= j < self.due().len() && 0 <= l < self.nodes.at(self.due()[j].1@).links@.len() implies {
                                let d = (#[trigger] self.nodes.at(self.due()[j].1@).links@[l]).delay;
                                1 <= d && self.time + d <= u32::MAX
                            } by {
                            let n = self.due()[j].1@;
                            assert(self.nodes.has(n));
                            let p = self.nodes.keys().index_of(n);
                            assert(self.nodes.keys()[p] == n);
                            assert(self.nodes.at(n) == self.nodes.values()[p]);
                            assert(self.nodes.values()[p].links@[l] == self.nodes.at(n).links@[l]);
                        }
                    }
                }
            }
            if !self.tickable() {
                proof {
                    assert forall|j: int| 0 <= j < rets.len() implies !(trigger && (#[trigger] rets[j]).pairs().len() > 0) by {
                        if j == rets.len() - 1 {
                            assert(rets[j] == rets.last());
                        }
                    }
                    assert(halted(states, rets, *old(self), *self, ticks as nat, trigger));
                }
                return None;
            }
            active = self.tick();
            proof {
                let ns = states.push(*self);
                let nr = rets.push(active);
                assert forall|j: int| 0 <= j < nr.len() implies ticks_to(ns[j], ns[j + 1], #[trigger] nr[j]) by {
                    if j < rets.len() {
                        assert(ns[j] == states[j] && ns[j + 1] == states[j + 1] && nr[j] == rets[j]);
                    } else {
                        assert(ns[j] == before);
                    }
                }
                assert forall|j: int| 0 <= j < nr.len() - 1 implies !(trigger && (#[trigger] nr[j]).pairs().len() > 0) by {
                    assert(nr[j] == rets[j]);
                }
                states = ns;
                rets = nr;
                if old(self).can_run(ticks as nat) {
                    lemma_tick_keeps_running(before, *self, active, (ticks - i) as nat);
                }
            }
            if trigger && !active.is_empty() {
                stop = true;
            }
            i = i + 1;
        }
        let r = Some(active);
        proof {
            assert(ran(states, rets, *old(self), *self, r->0, ticks as nat, trigger));
        }
        r
    }
}

/// A tick from a network that can run `k + 1` ticks leaves one that can run `k`.
proof fn lemma_tick_keeps_running<S>(old: Net<S>, new: Net<S>, ret: Table<String, Node<S>>, k1: nat)
    requires
        k1 >= 1,
        old.can_run(k1),
        ticked_shape(old, new, ret),
    ensures
        new.can_run((k1 - 1) as nat),
{
    let keys = old.nodes.keys();
    assert(new.nodes.values().len() == new.nodes.keys().len());
    assert(old.nodes.values().len() == old.nodes.keys().len());
    assert forall|p: int, l: int|
        0 <= p < new.nodes.values().len() && 0 <= l < new.nodes.values()[p].links@.len() implies {
            let lk = #[trigger] new.nodes.values()[p].links@[l];
            &&& 1 <= lk.delay
            &&& new.time + (k1 - 1) + lk.delay <= u32::MAX + 1
            &&& new.nodes.has(lk.out@)
        } by {
        assert(same_shape(new.nodes.values()[p], old.nodes.values()[p]));
        assert(new.nodes.values()[p].links@[l] == old.nodes.values()[p].links@[l]);
    }
    assert forall|t: u32, j: int| 0 <= j < new.actions.list(t).len() implies new.nodes.has((#[trigger] new.actions.list(t)[j]).1@) by {
        if t == old.time {
            assert(!new.actions.has(t));
        } else {
            let ol = old.actions.list(t);
            if j < ol.len() {
                assert(new.actions.list(t).subrange(0, ol.len() as int)[j] == new.actions.list(t)[j]);
                assert(ol[j] == new.actions.list(t)[j]);
            } else {
                assert(is_link_target(old.nodes, new.actions.list(t)[j].1@));
                let (p, l) = choose|p: int, l: int|
                    0 <= p < old.nodes.values().len() && 0 <= l < old.nodes.values()[p].links@.len() && (
                    #[trigger] old.nodes.values()[p].links@[l]).out@ == new.actions.list(t)[j].1@;
                assert(old.nodes.has(old.nodes.values()[p].links@[l].out@));
            }
        }
    }
}

/// `v` plus, one after the other, the values of the signals of `sigs`
/// that are addressed to `name`.
pub open spec fn signal_total<S: Add<Output = S>>(v: S, sigs: Seq<(S, String)>, name: Seq<char>) -> S {
    sigs.filter(addressed_to::<S>(name)).fold_left(v, add_signal::<S>())
}

/// Whether a signal is addressed to `name`.
pub open spec fn addressed_to<S>(name: Seq<char>) -> spec_fn((S, String)) -> bool {
    |s: (S, String)| s.1@ == name
}

/// A total with a signal's value added.
pub open spec fn add_signal<S: Add<Output = S>>() -> spec_fn(S, (S, String)) -> S {
    |acc: S, s: (S, String)| acc.add_spec(s.0)
}

/// Charging a node adds the signals addressed to it, in order.
proof fn lemma_accumulate_adds<S: Add<Output = S>>(v: S, sigs: Seq<(S, String)>, name: Seq<char>)
    ensures
        accumulate(v, sigs, name) == signal_total(v, sigs, name),
    decreases sigs.len(),
{
    let pred = addressed_to::<S>(name);
    let f = add_signal::<S>();
    reveal(Seq::filter);
    if sigs.len() > 0 {
        let q = sigs.drop_last();
        lemma_accumulate_adds(v, q, name);
        let fq = q.filter(pred);
        assert(sigs.filter(pred) == if pred(sigs.last()) { fq.push(sigs.last()) } else { fq });
        if pred(sigs.last()) {
            assert(fq.push(sigs.last()).drop_last() =~= fq);
            assert(fq.push(sigs.last()).last() == sigs.last());
            assert(fq.push(sigs.last()).fold_left(v, f) == f(fq.fold_left(v, f), sigs.last()));
        }
    }
}

/// A tick adds the due signals to the values of the nodes they are
/// addressed to, in order, then fires the nodes so charged past their
/// thresholds: for each node, with `v` its value plus the due signals to
/// it, the node keeps `v` when `v` does not pass its threshold, goes back to
/// its reset value (having fired now) when `v` passes it and some signal
/// was due to it, and keeps its value when none was.
pub proof fn law_tick_adds_due_signals<S: Add<Output = S> + Sub<Output = S> + Mul<Output = S> + PartialOrd + From<u8>>(
    old: Net<S>,
    new: Net<S>,
    ret: Table<String, Node<S>>,
    p: int,
)
    requires
        exact::<S>(),
        ticks_to(old, new, ret),
        0 <= p < old.nodes.values().len(),
    ensures
        ({
            let n = old.nodes.values()[p];
            let k = old.nodes.keys()[p];
            let v = signal_total(n.value, old.due(), k);
            let m = new.nodes.values()[p];
            let due_to_k = exists|j: int| 0 <= j < old.due().len() && (#[trigger] old.due()[j]).1@ == k;
            &&& v.is_le(&n.threshold) ==> m.value == v
            &&& !v.is_le(&n.threshold) && due_to_k ==> m.value == n.reset && m.last_fired == old.time as usize
            &&& !due_to_k ==> m.value == n.value
        }),
{
    let n = old.nodes.values()[p];
    let k = old.nodes.keys()[p];
    let sigs = old.due();
    lemma_accumulate_adds(n.value, sigs, k);
    lemma_first_names(sigs);
    let m = new.nodes.values()[p];
    assert(m == {
        let c = charged(n, sigs, k);
        if first_names(sigs).contains(k) && fires(c) {
            after_firing(c, old.time)
        } else {
            c
        }
    });
    if !(exists|j: int| 0 <= j < sigs.len() && (#[trigger] sigs[j]).1@ == k) {
        lemma_nothing_addressed(n.value, sigs, k);
    }
}

/// With no signal addressed to `name`, charging leaves the value as it was.
proof fn lemma_nothing_addressed<S: Add<Output = S>>(v: S, sigs: Seq<(S, String)>, name: Seq<char>)
    requires
        forall|j: int| 0 <= j < sigs.len() ==> (#[trigger] sigs[j]).1@ != name,
    ensures
        accumulate(v, sigs, name) == v,
    decreases sigs.len(),
{
    if sigs.len() > 0 {
        let q = sigs.drop_last();
        assert forall|j: int| 0 <= j < q.len() implies (#[trigger] q[j]).1@ != name by {
            assert(q[j] == sigs[j]);
        }
        lemma_nothing_addressed(v, q, name);
        assert(sigs.last() == sigs[sigs.len() - 1]);
    }
}

} // verus!
