//! Pruning: hidden nodes that no input reaches are dropped.
use vstd::prelude::*;
use crate::feedback::{holds_name, name_views};
use crate::net::Net;
use crate::node::Node;
use crate::table::Table;

verus! {

/// Node `a` exists and has a link to `b`.
pub open spec fn leads<S>(nodes: Table<String, Node<S>>, a: Seq<char>, b: Seq<char>) -> bool {
    nodes.has(a) && exists|l: int| 0 <= l < nodes.at(a).links@.len() && #[trigger] nodes.at(a).links@[l].out@ == b
}

/// `p` starts at an input node and follows links.
pub open spec fn is_input_path<S>(nodes: Table<String, Node<S>>, p: Seq<Seq<char>>) -> bool {
    &&& p.len() > 0
    &&& nodes.has(p[0])
    &&& nodes.at(p[0]).is_input
    &&& forall|i: int| 0 <= i < p.len() - 1 ==> leads(nodes, #[trigger] p[i], p[i + 1])
}

/// Following links from some input node one can arrive at `b`.
pub open spec fn reachable<S>(nodes: Table<String, Node<S>>, b: Seq<char>) -> bool {
    exists|p: Seq<Seq<char>>| #[trigger] is_input_path(nodes, p) && p.last() == b
}

/// A node survives pruning: it is an input, an output, or reachable.
pub open spec fn kept<S>(nodes: Table<String, Node<S>>, k: Seq<char>) -> bool {
    nodes.at(k).is_input || nodes.at(k).is_output || reachable(nodes, k)
}

/// The link targets of a sequence of named nodes, node by node.
pub open spec fn outs<S>(pairs: Seq<(String, Node<S>)>) -> Seq<Seq<char>>
    decreases pairs.len(),
{
    if pairs.len() == 0 {
        Seq::empty()
    } else {
        outs(pairs.drop_last()) + pairs.last().1.links@.map_values(|l: crate::link::Link<S>| l.out@)
    }
}

proof fn lemma_outs_contain<S>(pairs: Seq<(String, Node<S>)>, idx: int, l: int)
    requires
        0 <= idx < pairs.len(),
        0 <= l < pairs[idx].1.links@.len(),
    ensures
        outs(pairs).contains(pairs[idx].1.links@[l].out@),
    decreases pairs.len(),
{
    let last = pairs.last().1.links@.map_values(|x: crate::link::Link<S>| x.out@);
    let pre = outs(pairs.drop_last());
    if idx == pairs.len() - 1 {
        assert((pre + last)[pre.len() + l] == last[l]);
    } else {
        lemma_outs_contain(pairs.drop_last(), idx, l);
        let k = choose|k: int| 0 <= k < pre.len() && pre[k] == pairs[idx].1.links@[l].out@;
        assert((pre + last)[k] == pre[k]);
    }
}

/// A path from a set that holds the inputs and is closed under links stays in it.
proof fn lemma_input_path_stays<S>(nodes: Table<String, Node<S>>, vis: Seq<String>, p: Seq<Seq<char>>)
    requires
        is_input_path(nodes, p),
        forall|k: Seq<char>| nodes.has(k) && nodes.at(k).is_input ==> #[trigger] name_views(vis).contains(k),
        forall|q: int, l: int|
            0 <= q < vis.len() && nodes.has(vis[q]@) && 0 <= l < nodes.at(vis[q]@).links@.len() ==> name_views(vis).contains(
                (#[trigger] nodes.at(vis[q]@).links@[l]).out@,
            ),
    ensures
        name_views(vis).contains(p.last()),
    decreases p.len(),
{
    if p.len() > 1 {
        let p1 = p.drop_last();
        assert forall|i: int| 0 <= i < p1.len() - 1 implies leads(nodes, #[trigger] p1[i], p1[i + 1]) by {
            assert(p1[i] == p[i] && p1[i + 1] == p[i + 1]);
        }
        lemma_input_path_stays(nodes, vis, p1);
        let a = p[p.len() - 2];
        assert(leads(nodes, p[p.len() - 2], p[p.len() - 1]));
        let l = choose|l: int| 0 <= l < nodes.at(a).links@.len() && #[trigger] nodes.at(a).links@[l].out@ == p.last();
        let q = choose|q: int| 0 <= q < name_views(vis).len() && name_views(vis)[q] == a;
        assert(vis[q]@ == a);
    } else {
        assert(name_views(vis).contains(p[0]));
    }
}

impl<S> Net<S> {
    /// The nodes reachable from the inputs: the inputs in order, then the
    /// nodes met by following links (breadth first), each once.
    pub fn reached_from_inputs(&self) -> (v: Vec<String>)
        requires
            self.nodes.wf(),
            forall|b: Seq<char>| #[trigger] reachable(self.nodes, b) ==> self.nodes.has(b),
        ensures
            name_views(v@).no_duplicates(),
            forall|t: Seq<char>| #[trigger] name_views(v@).contains(t) <==> reachable(self.nodes, t),
    {
        let ghost nodes = self.nodes;
        let ghost universe = nodes.keys() + outs(nodes.pairs());
        let mut visited: Vec<String> = Vec::new();
        let n = self.nodes.len();
        let mut i: usize = 0;
        while i < n
            invariant
                nodes == self.nodes,
                nodes.wf(),
                n == nodes.keys().len(),
                i <= n,
                universe == nodes.keys() + outs(nodes.pairs()),
                name_views(visited@).no_duplicates(),
                forall|x: Seq<char>| #[trigger] name_views(visited@).contains(x) ==> reachable(nodes, x) && universe.contains(x)
                    && exists|j: int| 0 <= j < i && nodes.keys()[j] == x,
                forall|j: int| 0 <= j < i && nodes.values()[j].is_input ==> #[trigger] name_views(visited@).contains(nodes.keys()[j]),
            decreases n - i,
        {
            let ghost kv = nodes.keys()[i as int];
            proof {
                assert(nodes.values()[i as int] == nodes.pairs()[i as int].1);
                crate::table::lemma_index_of_unique(nodes.keys(), i as int);
                assert(nodes.at(kv) == nodes.values()[i as int]);
            }
            if self.nodes.value_at(i).is_input {
                let ghost before = visited@;
                visited.push(self.nodes.key_at(i).clone());
                proof {
                    let bv = name_views(before);
                    let av = name_views(visited@);
                    assert(av =~= bv.push(kv));
                    assert(is_input_path(nodes, seq![kv]));
                    assert(reachable(nodes, kv));
                    assert(universe[i as int] == kv);
                    assert forall|a: int, b: int| 0 <= a < b < av.len() implies av[a] != av[b] by {
                        if b == av.len() - 1 {
                            assert(bv.contains(av[a]));
                            let j = choose|j: int| 0 <= j < i && nodes.keys()[j] == av[a];
                            assert(nodes.keys()[j] != nodes.keys()[i as int]);
                        }
                    }
                    assert forall|x: Seq<char>| #[trigger] av.contains(x) implies reachable(nodes, x) && universe.contains(x)
                        && exists|j: int| 0 <= j < i + 1 && nodes.keys()[j] == x by {
                        if x != kv {
                            let y = choose|y: int| 0 <= y < av.len() && av[y] == x;
                            assert(bv[y] == x);
                            assert(bv.contains(x));
                        }
                    }
                    assert forall|j: int| 0 <= j < i + 1 && nodes.values()[j].is_input implies #[trigger] av.contains(nodes.keys()[j]) by {
                        if j < i {
                            assert(bv.contains(nodes.keys()[j]));
                            let y = choose|y: int| 0 <= y < bv.len() && bv[y] == nodes.keys()[j];
                            assert(av[y] == bv[y]);
                        } else {
                            assert(av[av.len() - 1] == kv);
                        }
                    }
                }
            } else {
                proof {
                    assert forall|x: Seq<char>| #[trigger] name_views(visited@).contains(x) implies reachable(nodes, x) && universe.contains(x)
                        && exists|j: int| 0 <= j < i + 1 && nodes.keys()[j] == x by {
                        let j = choose|j: int| 0 <= j < i && nodes.keys()[j] == x;
                    }
                }
            }
            i = i + 1;
        }
        proof {
            assert forall|k: Seq<char>| nodes.has(k) && nodes.at(k).is_input implies #[trigger] name_views(visited@).contains(k) by {
                let j = nodes.keys().index_of(k);
                assert(nodes.keys()[j] == k);
                assert(nodes.at(k) == nodes.pairs()[j].1);
                assert(nodes.values()[j] == nodes.pairs()[j].1);
            }
        }
        let mut k: usize = 0;
        while k < visited.len()
            invariant
                nodes == self.nodes,
                nodes.wf(),
                forall|b: Seq<char>| #[trigger] reachable(nodes, b) ==> nodes.has(b),
                k <= visited@.len(),
                name_views(visited@).no_duplicates(),
                universe == nodes.keys() + outs(nodes.pairs()),
                forall|x: Seq<char>| #[trigger] name_views(visited@).contains(x) ==> reachable(nodes, x) && universe.contains(x),
                forall|k2: Seq<char>| nodes.has(k2) && nodes.at(k2).is_input ==> #[trigger] name_views(visited@).contains(k2),
                forall|q: int, l: int|
                    0 <= q < k && nodes.has(visited@[q]@) && 0 <= l < nodes.at(visited@[q]@).links@.len() ==> name_views(visited@).contains(
                        (#[trigger] nodes.at(visited@[q]@).links@[l]).out@,
                    ),
            decreases universe.len() - k,
        {
            proof {
                let vs = name_views(visited@);
                assert(vs.to_set().subset_of(universe.to_set()));
                vs.unique_seq_to_set();
                universe.lemma_cardinality_of_set();
                vstd::set_lib::lemma_len_subset(vs.to_set(), universe.to_set());
            }
            let name = visited[k].clone();
            let ghost nv = name@;
            proof {
                assert(name_views(visited@)[k as int] == nv);
                assert(name_views(visited@).contains(nv));
                assert(nodes.has(nv));
            }
            let node = self.nodes.get(&name).unwrap();
            let mut j: usize = 0;
            while j < node.links.len()
                invariant
                    nodes == self.nodes,
                    nodes.wf(),
                    nodes.has(nv),
                    *node == nodes.at(nv),
                    j <= node.links@.len(),
                    k < visited@.len(),
                    visited@[k as int]@ == nv,
                    name_views(visited@).no_duplicates(),
                    universe == nodes.keys() + outs(nodes.pairs()),
                    forall|x: Seq<char>| #[trigger] name_views(visited@).contains(x) ==> reachable(nodes, x) && universe.contains(x),
                    forall|k2: Seq<char>| nodes.has(k2) && nodes.at(k2).is_input ==> #[trigger] name_views(visited@).contains(k2),
                    forall|q: int, l: int|
                        0 <= q < k && nodes.has(visited@[q]@) && 0 <= l < nodes.at(visited@[q]@).links@.len() ==> name_views(visited@).contains(
                            (#[trigger] nodes.at(visited@[q]@).links@[l]).out@,
                        ),
                    forall|l: int| 0 <= l < j ==> name_views(visited@).contains((#[trigger] node.links@[l]).out@),
                decreases node.links@.len() - j,
            {
                let out = &node.links[j].out;
                let ghost ov = out@;
                if !holds_name(&visited, out) {
                    let ghost before = visited@;
                    visited.push(out.clone());
                    proof {
                        let bv = name_views(before);
                        let av = name_views(visited@);
                        assert(av =~= bv.push(ov));
                        assert forall|x: Seq<char>| bv.contains(x) implies av.contains(x) by {
                            let y = choose|y: int| 0 <= y < bv.len() && bv[y] == x;
                            assert(av[y] == x);
                        }
                        assert(bv[k as int] == nv);
                        assert(bv.contains(nv));
                        assert(reachable(nodes, nv));
                        let p = choose|p: Seq<Seq<char>>| #[trigger] is_input_path(nodes, p) && p.last() == nv;
                        let p2 = p.push(ov);
                        assert(nodes.at(nv).links@[j as int].out@ == ov);
                        assert(leads(nodes, nv, ov));
                        assert forall|i2: int| 0 <= i2 < p2.len() - 1 implies leads(nodes, #[trigger] p2[i2], p2[i2 + 1]) by {
                            if i2 < p.len() - 1 {
                                assert(p2[i2] == p[i2] && p2[i2 + 1] == p[i2 + 1]);
                            } else {
                                assert(p2[i2] == nv);
                            }
                        }
                        assert(is_input_path(nodes, p2));
                        assert(reachable(nodes, ov));
                        let idx = nodes.keys().index_of(nv);
                        assert(nodes.keys()[idx] == nv);
                        assert(nodes.at(nv) == nodes.pairs()[idx].1);
                        lemma_outs_contain(nodes.pairs(), idx, j as int);
                        let u2 = outs(nodes.pairs());
                        let w = choose|w: int| 0 <= w < u2.len() && u2[w] == ov;
                        assert(universe[nodes.keys().len() + w] == ov);
                        assert(universe.contains(ov));
                        assert forall|x: Seq<char>| #[trigger] av.contains(x) implies reachable(nodes, x) && universe.contains(x) by {
                            if x != ov {
                                let y = choose|y: int| 0 <= y < av.len() && av[y] == x;
                                assert(y < bv.len());
                                assert(bv[y] == x);
                                assert(bv.contains(x));
                            }
                        }
                        assert forall|a: int, b: int| 0 <= a < b < av.len() implies av[a] != av[b] by {
                            if b == av.len() - 1 {
                                assert(bv[a] == av[a]);
                            }
                        }
                        assert forall|q: int, l: int|
                            0 <= q < k && nodes.has(visited@[q]@) && 0 <= l < nodes.at(visited@[q]@).links@.len() implies av.contains(
                                (#[trigger] nodes.at(visited@[q]@).links@[l]).out@) by {
                            assert(before[q] == visited@[q]);
                            assert(bv.contains(nodes.at(before[q]@).links@[l].out@));
                        }
                        assert forall|l: int| 0 <= l < j implies av.contains((#[trigger] node.links@[l]).out@) by {
                            assert(bv.contains(node.links@[l].out@));
                        }
                        assert forall|k2: Seq<char>| nodes.has(k2) && nodes.at(k2).is_input implies #[trigger] av.contains(k2) by {
                            assert(bv.contains(k2));
                        }
                    }
                }
                proof {
                    assert(node.links@[j as int].out@ == ov);
                    if name_views(visited@).last() == ov {
                        assert(name_views(visited@)[name_views(visited@).len() - 1] == ov);
                    }
                    assert(name_views(visited@).contains(ov));
                }
                j = j + 1;
            }
            proof {
                assert forall|q: int, l: int|
                    0 <= q < k + 1 && nodes.has(visited@[q]@) && 0 <= l < nodes.at(visited@[q]@).links@.len() implies name_views(visited@).contains(
                        (#[trigger] nodes.at(visited@[q]@).links@[l]).out@) by {
                    if q == k {
                        assert(visited@[q]@ == nv);
                        assert(node.links@[l] == nodes.at(nv).links@[l]);
                    }
                }
            }
            k = k + 1;
        }
        proof {
            assert forall|t: Seq<char>| #[trigger] reachable(nodes, t) implies name_views(visited@).contains(t) by {
                let p = choose|p: Seq<Seq<char>>| #[trigger] is_input_path(nodes, p) && p.last() == t;
                lemma_input_path_stays(nodes, visited@, p);
            }
        }
        visited
    }

    /// Drops every node that is neither an input nor an output and that no
    /// input reaches by following links; returns the names dropped, in the
    /// order of the nodes.
    pub fn clean(&mut self) -> (removed: Vec<String>)
        requires
            old(self).wf(),
            forall|b: Seq<char>| #[trigger] reachable(old(self).nodes, b) ==> old(self).nodes.has(b),
        ensures
            final(self).wf(),
            final(self).same_but_nodes(&*old(self)),
            name_views(removed@).no_duplicates(),
            forall|k: Seq<char>| #[trigger] final(self).nodes.has(k) <==> old(self).nodes.has(k) && kept(old(self).nodes, k),
            forall|k: Seq<char>| #[trigger] final(self).nodes.has(k) ==> final(self).nodes.at(k) == old(self).nodes.at(k),
            forall|k: Seq<char>| #[trigger] name_views(removed@).contains(k) <==> old(self).nodes.has(k) && !kept(old(self).nodes, k),
            (forall|k: Seq<char>| #[trigger] old(self).nodes.has(k) ==> kept(old(self).nodes, k)) ==> removed@.len() == 0
                && *final(self) == *old(self),
    {
        let ghost nodes = self.nodes;
        let reached = self.reached_from_inputs();
        let mut removed: Vec<String> = Vec::new();
        let n = self.nodes.len();
        let mut i: usize = 0;
        while i < n
            invariant
                nodes == self.nodes,
                nodes == old(self).nodes,
                nodes.wf(),
                n == nodes.keys().len(),
                i <= n,
                forall|t: Seq<char>| #[trigger] name_views(reached@).contains(t) <==> reachable(nodes, t),
                name_views(removed@).no_duplicates(),
                forall|k: Seq<char>| #[trigger] name_views(removed@).contains(k) <==> exists|j: int|
                    0 <= j < i && nodes.keys()[j] == k && !kept(nodes, k),
            decreases n - i,
        {
            let ghost kv = nodes.keys()[i as int];
            proof {
                assert(nodes.values()[i as int] == nodes.pairs()[i as int].1);
                crate::table::lemma_index_of_unique(nodes.keys(), i as int);
                assert(nodes.at(kv) == nodes.values()[i as int]);
            }
            let node = self.nodes.value_at(i);
            let key = self.nodes.key_at(i);
            let ghost before = removed@;
            if !node.is_input && !node.is_output && !holds_name(&reached, key) {
                removed.push(key.clone());
                proof {
                    let bv = name_views(before);
                    let av = name_views(removed@);
                    assert(av =~= bv.push(kv));
                    assert forall|a: int, b: int| 0 <= a < b < av.len() implies av[a] != av[b] by {
                        if b == av.len() - 1 {
                            assert(bv.contains(av[a]));
                            let j = choose|j: int| 0 <= j < i && nodes.keys()[j] == av[a] && !kept(nodes, av[a]);
                        }
                    }
                }
            }
            proof {
                let av = name_views(removed@);
                let bv = name_views(before);
                assert forall|k: Seq<char>| #[trigger] av.contains(k) <==> exists|j: int|
                    0 <= j < i + 1 && nodes.keys()[j] == k && !kept(nodes, k) by {
                    if av.contains(k) {
                        if k == kv && av.len() > bv.len() {
                            assert(nodes.keys()[i as int] == k);
                        } else {
                            let y = choose|y: int| 0 <= y < av.len() && av[y] == k;
                            if y < bv.len() {
                                assert(bv[y] == k);
                                assert(bv.contains(k));
                            } else {
                                assert(av[y] == kv);
                            }
                        }
                    }
                    if exists|j: int| 0 <= j < i + 1 && nodes.keys()[j] == k && !kept(nodes, k) {
                        let j = choose|j: int| 0 <= j < i + 1 && nodes.keys()[j] == k && !kept(nodes, k);
                        if j < i {
                            assert(bv.contains(k));
                            let y = choose|y: int| 0 <= y < bv.len() && bv[y] == k;
                            assert(av[y] == bv[y]);
                        } else {
                            assert(k == kv);
                            assert(av[av.len() - 1] == kv);
                        }
                    }
                }
            }
            i = i + 1;
        }
        let mut j: usize = 0;
        let ghost rv = name_views(removed@);
        while j < removed.len()
            invariant
                nodes == old(self).nodes,
                rv == name_views(removed@),
                j <= removed@.len(),
                self.wf(),
                self.same_but_nodes(&*old(self)),
                forall|k: Seq<char>| #[trigger] self.nodes.has(k) <==> nodes.has(k) && !rv.subrange(0, j as int).contains(k),
                forall|k: Seq<char>| #[trigger] self.nodes.has(k) ==> self.nodes.at(k) == nodes.at(k),
                j == 0 ==> *self == *old(self),
            decreases removed@.len() - j,
        {
            let ghost r = removed@[j as int]@;
            self.nodes.remove(&removed[j]);
            proof {
                let s0 = rv.subrange(0, j as int);
                let s1 = rv.subrange(0, j as int + 1);
                assert(s1 =~= s0.push(r));
                assert(rv[j as int] == r);
                assert forall|k: Seq<char>| #[trigger] self.nodes.has(k) <==> nodes.has(k) && !s1.contains(k) by {
                    if s0.contains(k) {
                        let y = choose|y: int| 0 <= y < s0.len() && s0[y] == k;
                        assert(s1[y] == k);
                    }
                    if s1.contains(k) && k != r {
                        let y = choose|y: int| 0 <= y < s1.len() && s1[y] == k;
                        assert(s0[y] == k);
                    }
                    if k == r {
                        assert(s1[j as int] == k);
                    }
                }
            }
            j = j + 1;
        }
        proof {
            assert(rv.subrange(0, removed@.len() as int) =~= rv);
            assert forall|k: Seq<char>| #[trigger] rv.contains(k) <==> nodes.has(k) && !kept(nodes, k) by {
                if nodes.has(k) && !kept(nodes, k) {
                    let j = nodes.keys().index_of(k);
                    assert(nodes.keys()[j] == k);
                }
                if rv.contains(k) {
                    let j = choose|j: int| 0 <= j < n && nodes.keys()[j] == k && !kept(nodes, k);
                    assert(nodes.keys().contains(k));
                }
            }
            if forall|k: Seq<char>| #[trigger] nodes.has(k) ==> kept(nodes, k) {
                if removed@.len() > 0 {
                    assert(rv.contains(rv[0]));
                }
            }
        }
        removed
    }
}

/// Cleaning settles at once: after pruning (the nodes kept, unchanged),
/// every node reachable from an input is still there, so a second pruning
/// may run, and it keeps every remaining node (so, by `Net::clean`, it
/// leaves the network as it is).
pub proof fn law_clean_settles<S>(b: Table<String, Node<S>>, a: Table<String, Node<S>>)
    requires
        b.wf(),
        forall|k: Seq<char>| #[trigger] reachable(b, k) ==> b.has(k),
        forall|k: Seq<char>| #[trigger] a.has(k) <==> b.has(k) && kept(b, k),
        forall|k: Seq<char>| #[trigger] a.has(k) ==> a.at(k) == b.at(k),
    ensures
        forall|k: Seq<char>| #[trigger] reachable(a, k) ==> a.has(k),
        forall|k: Seq<char>| #[trigger] a.has(k) ==> kept(a, k),
{
    assert forall|k: Seq<char>| #[trigger] reachable(a, k) implies a.has(k) by {
        let p = choose|p: Seq<Seq<char>>| #[trigger] is_input_path(a, p) && p.last() == k;
        assert(a.at(p[0]) == b.at(p[0]));
        assert forall|i: int| 0 <= i < p.len() - 1 implies leads(b, #[trigger] p[i], p[i + 1]) by {
            assert(leads(a, p[i], p[i + 1]));
            assert(a.at(p[i]) == b.at(p[i]));
            let l = choose|l: int| 0 <= l < a.at(p[i]).links@.len() && #[trigger] a.at(p[i]).links@[l].out@ == p[i + 1];
            assert(b.at(p[i]).links@[l].out@ == p[i + 1]);
        }
        assert(is_input_path(b, p));
        assert(reachable(b, k));
    }
    assert forall|k: Seq<char>| #[trigger] a.has(k) implies kept(a, k) by {
        if !b.at(k).is_input && !b.at(k).is_output {
            let p = choose|p: Seq<Seq<char>>| #[trigger] is_input_path(b, p) && p.last() == k;
            assert forall|i: int| 0 <= i < p.len() implies #[trigger] a.has(p[i]) by {
                let q = p.subrange(0, i + 1);
                assert forall|j: int| 0 <= j < q.len() - 1 implies leads(b, #[trigger] q[j], q[j + 1]) by {
                    assert(q[j] == p[j] && q[j + 1] == p[j + 1]);
                }
                assert(is_input_path(b, q));
                assert(q.last() == p[i]);
                assert(reachable(b, p[i]));
            }
            assert forall|i: int| 0 <= i < p.len() - 1 implies leads(a, #[trigger] p[i], p[i + 1]) by {
                assert(leads(b, p[i], p[i + 1]));
                assert(a.has(p[i]));
                assert(a.at(p[i]) == b.at(p[i]));
                let l = choose|l: int| 0 <= l < b.at(p[i]).links@.len() && #[trigger] b.at(p[i]).links@[l].out@ == p[i + 1];
                assert(a.at(p[i]).links@[l].out@ == p[i + 1]);
            }
            assert(a.has(p[0]));
            assert(is_input_path(a, p));
        }
    }
}

} // verus!
