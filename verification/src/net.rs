//! A network of named nodes, with the signals it has scheduled.
use vstd::prelude::*;
use crate::link::{is_fresh_link, Link};
use crate::node::{copy_of, is_score_reset, Node};
use crate::scalar::{num, nums_exact, small};
use crate::table::Table;
use crate::util;

verus! {

pub struct Net<S> {
    pub vset: usize,
    pub score: S,
    pub success: S,
    pub nodes: Table<String, Node<S>>,
    /// Signals to deliver, by tick: `(value, node name)` in arrival order.
    pub actions: Table<u32, Vec<(S, String)>>,
    pub time: u32,
    pub id: usize,
}

/// The number of links over a sequence of nodes.
pub open spec fn link_count<S>(nodes: Seq<Node<S>>) -> nat
    decreases nodes.len(),
{
    if nodes.len() == 0 {
        0
    } else {
        link_count(nodes.drop_last()) + nodes.last().links@.len()
    }
}

/// `n` after `Node::reset`.
pub open spec fn node_after_reset<S>(n: Node<S>) -> Node<S> {
    Node { last_fired: 0, value: n.reset, ..n }
}

/// The links of one node named `name`: (source, position, target) each.
pub open spec fn node_links<S>(name: Seq<char>, links: Seq<Link<S>>) -> Seq<(Seq<char>, usize, Seq<char>)> {
    Seq::new(links.len(), |i: int| (name, i as usize, links[i].out@))
}

/// Every link of a sequence of named nodes, node by node, in order.
pub open spec fn link_list<S>(pairs: Seq<(String, Node<S>)>) -> Seq<(Seq<char>, usize, Seq<char>)>
    decreases pairs.len(),
{
    if pairs.len() == 0 {
        Seq::empty()
    } else {
        link_list(pairs.drop_last()) + node_links(pairs.last().0@, pairs.last().1.links@)
    }
}

/// The links of `all` that end at `t`, as (source, position), in order.
pub open spec fn incoming(all: Seq<(Seq<char>, usize, Seq<char>)>, t: Seq<char>) -> Seq<(Seq<char>, usize)>
    decreases all.len(),
{
    if all.len() == 0 {
        Seq::empty()
    } else {
        let r = incoming(all.drop_last(), t);
        if all.last().2 == t {
            r.push((all.last().0, all.last().1))
        } else {
            r
        }
    }
}

/// A list of (name, position) pairs by the views of the names.
pub open spec fn entry_views(v: Seq<(String, usize)>) -> Seq<(Seq<char>, usize)> {
    v.map_values(|p: (String, usize)| (p.0@, p.1))
}

/// `m` lists, for every target, the links into it as `all` orders them,
/// and holds no other key.
pub open spec fn is_input_map_of(m: Table<String, Vec<(String, usize)>>, all: Seq<(Seq<char>, usize, Seq<char>)>) -> bool {
    &&& m.wf()
    &&& forall|t: Seq<char>| #[trigger] m.has(t) <==> incoming(all, t).len() > 0
    &&& forall|t: Seq<char>| #[trigger] m.has(t) ==> entry_views(m.at(t)@) == incoming(all, t)
}

impl<S> Net<S> {
    /// Nodes and scheduled ticks are each keyed once.
    pub open spec fn wf(&self) -> bool {
        self.nodes.wf() && self.actions.wf()
    }

    /// Everything but the nodes is as in `other`.
    pub open spec fn same_but_nodes(&self, other: &Net<S>) -> bool {
        &&& self.vset == other.vset
        &&& self.score == other.score
        &&& self.success == other.success
        &&& self.actions == other.actions
        &&& self.time == other.time
        &&& self.id == other.id
    }

    /// Everything but the schedule is as in `other`.
    pub open spec fn same_but_actions(&self, other: &Net<S>) -> bool {
        &&& self.vset == other.vset
        &&& self.score == other.score
        &&& self.success == other.success
        &&& self.nodes == other.nodes
        &&& self.time == other.time
        &&& self.id == other.id
    }

    /// Queues `value` for node `name` at tick `time`, after what is queued there.
    pub fn signal(&mut self, time: u32, name: String, value: S)
        requires
            old(self).wf(),
        ensures
            final(self).wf(),
            final(self).same_but_actions(&*old(self)),
            final(self).actions.has(time),
            final(self).actions.list(time) == old(self).actions.list(time).push((value, name)),
            forall|t: u32|
                t != time ==> (#[trigger] final(self).actions.has(t) == old(self).actions.has(t)
                    && final(self).actions.list(t) == old(self).actions.list(t)),
    {
        self.actions.push_to(time, (value, name));
    }

    /// For every node that some link points to, the links into it as
    /// (source node, position among the source's links), in the order of the
    /// nodes and their links.
    pub fn input_map(&self) -> (m: Table<String, Vec<(String, usize)>>)
        ensures
            is_input_map_of(m, link_list(self.nodes.pairs())),
    {
        let mut map: Table<String, Vec<(String, usize)>> = Table::new();
        let n = self.nodes.len();
        let mut i: usize = 0;
        let ghost pairs = self.nodes.pairs();
        proof {
            assert(pairs.subrange(0, 0) =~= Seq::<(String, Node<S>)>::empty());
        }
        while i < n
            invariant
                i <= n,
                n == pairs.len(),
                pairs == self.nodes.pairs(),
                is_input_map_of(map, link_list(pairs.subrange(0, i as int))),
            decreases n - i,
        {
            let name = self.nodes.key_at(i);
            let node = self.nodes.value_at(i);
            let ghost before = link_list(pairs.subrange(0, i as int));
            let ghost lk = node.links@;
            let nl = node.links.len();
            let mut j: usize = 0;
            proof {
                assert(node_links(name@, lk.subrange(0, 0)) =~= Seq::<(Seq<char>, usize, Seq<char>)>::empty());
                assert(before + node_links(name@, lk.subrange(0, 0)) =~= before);
            }
            while j < nl
                invariant
                    j <= nl,
                    nl == lk.len(),
                    lk == node.links@,
                    is_input_map_of(map, before + node_links(name@, lk.subrange(0, j as int))),
                decreases nl - j,
            {
                let link = &node.links[j];
                let ghost prev = before + node_links(name@, lk.subrange(0, j as int));
                let ghost next = before + node_links(name@, lk.subrange(0, j as int + 1));
                let ghost e = (name@, j, link.out@);
                proof {
                    assert(next =~= prev.push(e));
                    assert(next.drop_last() =~= prev);
                }
                let ghost old_map = map;
                let nm = name.clone();
                let ghost item = (nm, j);
                map.push_to(link.out.clone(), (nm, j));
                proof {
                    assert forall|t: Seq<char>| #[trigger] map.has(t) <==> incoming(next, t).len() > 0 by {
                        if t != link.out@ {
                            assert(map.has(t) == old_map.has(t));
                        }
                    }
                    assert forall|t: Seq<char>| #[trigger] map.has(t) implies entry_views(map.at(t)@) == incoming(next, t) by {
                        if t != link.out@ {
                            assert(map.list(t) == old_map.list(t));
                        } else {
                            assert(map.list(t) == old_map.list(t).push(item));
                            if old_map.has(t) {
                                assert(entry_views(old_map.at(t)@) == incoming(prev, t));
                            } else {
                                assert(incoming(prev, t).len() == 0);
                                assert(incoming(prev, t) =~= Seq::<(Seq<char>, usize)>::empty());
                            }
                            assert(entry_views(map.at(t)@) =~= incoming(prev, t).push((name@, j)));
                        }
                    }
                }
                j = j + 1;
            }
            proof {
                assert(lk.subrange(0, nl as int) =~= lk);
                let sub = pairs.subrange(0, i as int + 1);
                assert(sub.drop_last() =~= pairs.subrange(0, i as int));
                assert(sub.last() == pairs[i as int]);
                assert(link_list(sub) == before + node_links(name@, lk));
            }
            i = i + 1;
        }
        proof {
            assert(pairs.subrange(0, n as int) =~= pairs);
        }
        map
    }

    /// The node named `id`.
    pub fn node(&mut self, id: &String) -> (r: &mut Node<S>)
        requires
            old(self).wf(),
            old(self).nodes.has(id@),
        ensures
            *r == old(self).nodes.at(id@),
            final(self).wf(),
            final(self).same_but_nodes(&*old(self)),
            final(self).nodes.keys() == old(self).nodes.keys(),
            final(self).nodes.pairs() == old(self).nodes.pairs().update(
                old(self).nodes.keys().index_of(id@),
                (old(self).nodes.pairs()[old(self).nodes.keys().index_of(id@)].0, *final(r)),
            ),
            final(self).nodes.values() == old(self).nodes.values().update(
                old(self).nodes.keys().index_of(id@),
                *final(r),
            ),
    {
        let i = self.nodes.find(id).unwrap();
        self.nodes.value_at_mut(i)
    }

    /// The number of links over all nodes.
    pub fn links_num(&self) -> (n: usize)
        requires
            link_count(self.nodes.values()) <= usize::MAX,
        ensures
            n == link_count(self.nodes.values()),
    {
        let mut n: usize = 0;
        let mut i: usize = 0;
        let len = self.nodes.len();
        proof {
            lemma_link_count_prefix(self.nodes.values(), len as int);
        }
        while i < len
            invariant
                i <= len,
                len == self.nodes.values().len(),
                link_count(self.nodes.values()) <= usize::MAX,
                n == link_count(self.nodes.values().subrange(0, i as int)),
            decreases len - i,
        {
            proof {
                let vs = self.nodes.values();
                assert(vs.subrange(0, i as int + 1).drop_last() =~= vs.subrange(0, i as int));
                lemma_link_count_prefix(vs, i as int + 1);
            }
            n = n + self.nodes.value_at(i).links.len();
            i = i + 1;
        }
        proof {
            assert(self.nodes.values().subrange(0, len as int) =~= self.nodes.values());
        }
        n
    }

    /// The name of a node drawn at random.
    pub fn rand_gene(&self) -> (g: String)
        requires
            self.nodes.pairs().len() > 0,
        ensures
            self.nodes.has(g@),
    {
        let k = util::rand_hash_key(&self.nodes).unwrap();
        proof {
            let i = choose|i: int| 0 <= i < self.nodes.pairs().len() && self.nodes.pairs()[i].0 == *k;
            assert(self.nodes.keys()[i] == k@);
        }
        k.clone()
    }

    /// The name of a node that is not an input, drawn at random.
    pub fn rand_gene_ni(&self) -> (g: String)
        requires
            self.nodes.wf(),
            exists|i: int| 0 <= i < self.nodes.pairs().len() && !self.nodes.values()[i].is_input,
        ensures
            self.nodes.has(g@),
            !self.nodes.at(g@).is_input,
    {
        let mut candidates: Vec<usize> = Vec::new();
        let mut i: usize = 0;
        while i < self.nodes.len()
            invariant
                i <= self.nodes.pairs().len(),
                forall|j: int| 0 <= j < candidates@.len() ==> #[trigger] candidates@[j] < i
                    && !self.nodes.values()[candidates@[j] as int].is_input,
                forall|j: usize| j < i && !self.nodes.values()[j as int].is_input ==> #[trigger] candidates@.contains(j),
            decreases self.nodes.pairs().len() - i,
        {
            proof {
                assert(self.nodes.values()[i as int] == self.nodes.pairs()[i as int].1);
            }
            let ghost before = candidates@;
            if !self.nodes.value_at(i).is_input {
                candidates.push(i);
                proof {
                    assert(candidates@[candidates@.len() - 1] == i);
                }
            }
            proof {
                assert forall|x: usize| before.contains(x) implies candidates@.contains(x) by {
                    let k = choose|k: int| 0 <= k < before.len() && before[k] == x;
                    assert(candidates@[k] == x);
                }
                assert forall|j: usize| j < i + 1 && !self.nodes.values()[j as int].is_input implies #[trigger] candidates@.contains(j) by {
                    if j < i {
                        assert(before.contains(j));
                    } else {
                        assert(candidates@[candidates@.len() - 1] == i);
                    }
                }
            }
            i = i + 1;
        }
        proof {
            let j = choose|j: int| 0 <= j < self.nodes.pairs().len() && !self.nodes.values()[j].is_input;
            assert(candidates@.contains(j as usize));
        }
        let pick = util::rand_usize(candidates.len());
        let idx = candidates[pick];
        proof {
            crate::table::lemma_index_of_unique(self.nodes.keys(), idx as int);
        }
        self.nodes.key_at(idx).clone()
    }
}

/// Link counts add up prefix by prefix.
pub proof fn lemma_link_count_prefix<S>(nodes: Seq<Node<S>>, i: int)
    requires
        0 <= i <= nodes.len(),
    ensures
        link_count(nodes.subrange(0, i)) <= link_count(nodes),
        i > 0 ==> link_count(nodes.subrange(0, i)) == link_count(nodes.subrange(0, i - 1))
            + nodes[i - 1].links@.len(),
    decreases nodes.len() - i,
{
    if i > 0 {
        assert(nodes.subrange(0, i).drop_last() =~= nodes.subrange(0, i - 1));
    }
    if i < nodes.len() {
        lemma_link_count_prefix(nodes, i + 1);
        assert(nodes.subrange(0, i + 1).drop_last() =~= nodes.subrange(0, i));
    } else {
        assert(nodes.subrange(0, i) =~= nodes);
    }
}

impl<S: From<u8>> Net<S> {
    /// An empty network at tick 0.
    pub fn new() -> (n: Net<S>)
        ensures
            n.wf(),
            n.time == 0,
            n.id == 0,
            n.vset == 0,
            n.nodes.pairs().len() == 0,
            n.actions.pairs().len() == 0,
            nums_exact::<S>() ==> n.score == num::<S>(0) && n.success == num::<S>(0),
    {
        Net {
            time: 0,
            score: small(0),
            success: small(0),
            nodes: Table::new(),
            actions: Table::new(),
            id: 0,
            vset: 0,
        }
    }

    /// Sets the network's scores, and those of every node and link, to 0.
    pub fn reset_score(&mut self)
        requires
            old(self).wf(),
        ensures
            final(self).wf(),
            final(self).actions == old(self).actions,
            final(self).time == old(self).time,
            final(self).id == old(self).id,
            final(self).vset == old(self).vset,
            nums_exact::<S>() ==> final(self).score == num::<S>(0) && final(self).success == num::<
                S,
            >(0),
            final(self).nodes.keys() == old(self).nodes.keys(),
            forall|i: int|
                0 <= i < old(self).nodes.pairs().len() ==> is_score_reset(
                    #[trigger] final(self).nodes.values()[i],
                    old(self).nodes.values()[i],
                ),
    {
        self.score = small(0);
        self.success = small(0);
        let n = self.nodes.len();
        let mut i: usize = 0;
        while i < n
            invariant
                i <= n,
                n == old(self).nodes.pairs().len(),
                self.nodes.wf(),
                self.nodes.keys() == old(self).nodes.keys(),
                self.nodes.pairs().len() == n,
                self.actions == old(self).actions,
                self.time == old(self).time,
                self.id == old(self).id,
                self.vset == old(self).vset,
                nums_exact::<S>() ==> self.score == num::<S>(0) && self.success == num::<S>(0),
                forall|j: int|
                    0 <= j < i ==> is_score_reset(
                        #[trigger] self.nodes.values()[j],
                        old(self).nodes.values()[j],
                    ),
                forall|j: int| i <= j < n ==> #[trigger] self.nodes.values()[j] == old(self).nodes.values()[j],
            decreases n - i,
        {
            let ghost before = self.nodes.values();
            proof {
                assert(before[i as int] == self.nodes.pairs()[i as int].1);
            }
            let node = self.nodes.value_at_mut(i);
            node.reset_score();
            proof {
                assert(self.nodes.values() == before.update(i as int, self.nodes.values()[i as int]));
            }
            i = i + 1;
        }
    }
}

impl<S: Copy> Net<S> {
    /// Back to tick 0 with nothing scheduled; every node is reset.
    pub fn reset(&mut self)
        requires
            old(self).wf(),
        ensures
            final(self).wf(),
            final(self).time == 0,
            final(self).actions.pairs().len() == 0,
            final(self).score == old(self).score,
            final(self).success == old(self).success,
            final(self).id == old(self).id,
            final(self).vset == old(self).vset,
            final(self).nodes.keys() == old(self).nodes.keys(),
            forall|i: int|
                0 <= i < old(self).nodes.pairs().len() ==> #[trigger] final(self).nodes.values()[i]
                    == node_after_reset(old(self).nodes.values()[i]),
    {
        self.time = 0;
        self.actions.clear();
        let n = self.nodes.len();
        let mut i: usize = 0;
        while i < n
            invariant
                i <= n,
                n == old(self).nodes.pairs().len(),
                self.nodes.wf(),
                self.actions.wf(),
                self.nodes.keys() == old(self).nodes.keys(),
                self.nodes.pairs().len() == n,
                self.actions.pairs().len() == 0,
                self.time == 0,
                self.score == old(self).score,
                self.success == old(self).success,
                self.id == old(self).id,
                self.vset == old(self).vset,
                forall|j: int|
                    0 <= j < i ==> #[trigger] self.nodes.values()[j] == node_after_reset(
                        old(self).nodes.values()[j],
                    ),
                forall|j: int| i <= j < n ==> #[trigger] self.nodes.values()[j] == old(self).nodes.values()[j],
            decreases n - i,
        {
            let ghost before = self.nodes.values();
            proof {
                assert(before[i as int] == self.nodes.pairs()[i as int].1);
            }
            let node = self.nodes.value_at_mut(i);
            node.reset();
            proof {
                assert(self.nodes.values() == before.update(i as int, self.nodes.values()[i as int]));
            }
            i = i + 1;
        }
    }

    /// The value of the node named `id`.
    pub fn value_of(&self, id: &String) -> (v: S)
        requires
            self.nodes.wf(),
            self.nodes.has(id@),
        ensures
            v == self.nodes.at(id@).value,
    {
        self.nodes.get(id).unwrap().value
    }
}

/// `a` is a copy of `b`: the same numbers, the same nodes by name in the
/// same order, each a field-for-field copy, and the same schedule.
pub open spec fn copies<S>(a: Net<S>, b: Net<S>) -> bool {
    &&& a.vset == b.vset
    &&& a.score == b.score
    &&& a.success == b.success
    &&& a.time == b.time
    &&& a.id == b.id
    &&& a.nodes.keys() == b.nodes.keys()
    &&& a.nodes.pairs().len() == b.nodes.pairs().len()
    &&& forall|i: int|
        0 <= i < b.nodes.pairs().len() ==> copy_of(#[trigger] a.nodes.values()[i], b.nodes.values()[i])
    &&& a.actions.keys() == b.actions.keys()
    &&& a.actions.pairs().len() == b.actions.pairs().len()
    &&& forall|i: int|
        0 <= i < b.actions.pairs().len() ==> (#[trigger] a.actions.values()[i])@ == b.actions.values()[i]@
}

/// A copy of a table of nodes.
fn copy_nodes<S: Copy>(t: &Table<String, Node<S>>) -> (c: Table<String, Node<S>>)
    requires
        t.wf(),
    ensures
        c.wf(),
        c.keys() == t.keys(),
        c.pairs().len() == t.pairs().len(),
        forall|i: int| 0 <= i < t.pairs().len() ==> copy_of(#[trigger] c.values()[i], t.values()[i]),
{
    let mut c: Table<String, Node<S>> = Table::new();
    let n = t.len();
    let mut i: usize = 0;
    while i < n
        invariant
            i <= n,
            n == t.pairs().len(),
            t.wf(),
            c.wf(),
            c.pairs().len() == i,
            c.keys() == t.keys().subrange(0, i as int),
            forall|j: int| 0 <= j < i ==> copy_of(#[trigger] c.values()[j], t.values()[j]),
        decreases n - i,
    {
        let k = t.key_at(i).clone();
        let v = t.value_at(i).duplicate();
        proof {
            assert(k@ == t.keys()[i as int]);
            if c.keys().contains(k@) {
                let x = choose|x: int| 0 <= x < c.keys().len() && c.keys()[x] == k@;
                assert(t.keys()[x] == t.keys()[i as int]);
            }
        }
        let ghost before = c.pairs();
        let ghost before_vals = c.values();
        c.insert(k, v);
        proof {
            assert(c.pairs() == before.push((k, v)));
            assert(c.keys() =~= t.keys().subrange(0, i as int + 1));
            assert forall|j: int| 0 <= j < i + 1 implies copy_of(#[trigger] c.values()[j], t.values()[j]) by {
                assert(c.values()[j] == c.pairs()[j].1);
                if j < i {
                    assert(c.values()[j] == before[j].1);
                    assert(before_vals[j] == before[j].1);
                    assert(copy_of(before_vals[j], t.values()[j]));
                } else {
                    assert(t.values()[j] == t.pairs()[j].1);
                }
            }
        }
        i = i + 1;
    }
    proof {
        assert(t.keys().subrange(0, n as int) =~= t.keys());
    }
    c
}

/// A copy of a list of scheduled signals.
fn copy_signals<S: Copy>(v: &Vec<(S, String)>) -> (c: Vec<(S, String)>)
    ensures
        c@ == v@,
{
    let mut c: Vec<(S, String)> = Vec::new();
    let mut i: usize = 0;
    while i < v.len()
        invariant
            i <= v@.len(),
            c@ == v@.subrange(0, i as int),
        decreases v@.len() - i,
    {
        let e = (v[i].0, v[i].1.clone());
        c.push(e);
        proof {
            assert(c@ =~= v@.subrange(0, i as int + 1));
        }
        i = i + 1;
    }
    proof {
        assert(v@.subrange(0, v@.len() as int) =~= v@);
    }
    c
}

/// A copy of a schedule.
fn copy_schedule<S: Copy>(t: &Table<u32, Vec<(S, String)>>) -> (c: Table<u32, Vec<(S, String)>>)
    requires
        t.wf(),
    ensures
        c.wf(),
        c.keys() == t.keys(),
        c.pairs().len() == t.pairs().len(),
        forall|i: int| 0 <= i < t.pairs().len() ==> (#[trigger] c.values()[i])@ == t.values()[i]@,
{
    let mut c: Table<u32, Vec<(S, String)>> = Table::new();
    let n = t.len();
    let mut i: usize = 0;
    while i < n
        invariant
            i <= n,
            n == t.pairs().len(),
            t.wf(),
            c.wf(),
            c.pairs().len() == i,
            c.keys() == t.keys().subrange(0, i as int),
            forall|j: int| 0 <= j < i ==> (#[trigger] c.values()[j])@ == t.values()[j]@,
        decreases n - i,
    {
        let k = *t.key_at(i);
        let v = copy_signals(t.value_at(i));
        proof {
            assert(k@ == t.keys()[i as int]);
            if c.keys().contains(k@) {
                let x = choose|x: int| 0 <= x < c.keys().len() && c.keys()[x] == k@;
                assert(t.keys()[x] == t.keys()[i as int]);
            }
        }
        let ghost before = c.pairs();
        let ghost before_vals = c.values();
        c.insert(k, v);
        proof {
            assert(c.pairs() == before.push((k, v)));
            assert(c.keys() =~= t.keys().subrange(0, i as int + 1));
            assert forall|j: int| 0 <= j < i + 1 implies (#[trigger] c.values()[j])@ == t.values()[j]@ by {
                assert(c.values()[j] == c.pairs()[j].1);
                if j < i {
                    assert(c.values()[j] == before[j].1);
                    assert(before_vals[j] == before[j].1);
                    assert(before_vals[j]@ == t.values()[j]@);
                } else {
                    assert(t.values()[j] == t.pairs()[j].1);
                }
            }
        }
        i = i + 1;
    }
    proof {
        assert(t.keys().subrange(0, n as int) =~= t.keys());
    }
    c
}

impl<S: Copy> Net<S> {
    /// A copy of the network.
    pub fn duplicate(&self) -> (d: Net<S>)
        requires
            self.wf(),
        ensures
            d.wf(),
            copies(d, *self),
    {
        Net {
            vset: self.vset,
            score: self.score,
            success: self.success,
            nodes: copy_nodes(&self.nodes),
            actions: copy_schedule(&self.actions),
            time: self.time,
            id: self.id,
        }
    }
}

} // verus!
