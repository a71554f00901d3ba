//! Which nodes a score reaches when it is fed back from a node to the
//! nodes that feed it, link by link.
use vstd::prelude::*;
use std::ops::Add;
use vstd::std_specs::ops::AddSpec;
use crate::net::{entry_views, incoming, is_input_map_of, link_list, node_links, Net};
use crate::link::Link;
use crate::node::Node;
use crate::scalar::{add_times, adds_exact, adds_total};
use crate::table::Table;

verus! {

/// The inputs listed for `t` in `m`, by view; none when `t` is absent.
pub open spec fn inputs_in(m: Table<String, Vec<(String, usize)>>, t: Seq<char>) -> Seq<(Seq<char>, usize)> {
    if m.has(t) {
        entry_views(m.at(t)@)
    } else {
        Seq::empty()
    }
}

/// `b` is listed among the inputs of `a`.
pub open spec fn feeds(m: Table<String, Vec<(String, usize)>>, a: Seq<char>, b: Seq<char>) -> bool {
    exists|j: int| 0 <= j < inputs_in(m, a).len() && #[trigger] inputs_in(m, a)[j].0 == b
}

/// Each name of `p` is listed among the inputs of the one before it.
pub open spec fn is_back_path(m: Table<String, Vec<(String, usize)>>, p: Seq<Seq<char>>) -> bool {
    &&& p.len() > 0
    &&& forall|i: int| 0 <= i < p.len() - 1 ==> feeds(m, #[trigger] p[i], p[i + 1])
}

/// Following inputs from `a` one can arrive at `b` (in zero or more steps).
pub open spec fn reaches(m: Table<String, Vec<(String, usize)>>, a: Seq<char>, b: Seq<char>) -> bool {
    exists|p: Seq<Seq<char>>| #[trigger] is_back_path(m, p) && p[0] == a && p.last() == b
}

/// The names of a list of strings.
pub open spec fn name_views(v: Seq<String>) -> Seq<Seq<char>> {
    v.map_values(|s: String| s@)
}

/// Every source named in the lists of `pairs`, list by list.
pub open spec fn sources(pairs: Seq<(String, Vec<(String, usize)>)>) -> Seq<Seq<char>>
    decreases pairs.len(),
{
    if pairs.len() == 0 {
        Seq::empty()
    } else {
        sources(pairs.drop_last()) + entry_views(pairs.last().1@).map_values(
            |e: (Seq<char>, usize)| e.0,
        )
    }
}

proof fn lemma_sources_contain(pairs: Seq<(String, Vec<(String, usize)>)>, idx: int, j: int)
    requires
        0 <= idx < pairs.len(),
        0 <= j < pairs[idx].1@.len(),
    ensures
        sources(pairs).contains(pairs[idx].1@[j].0@),
    decreases pairs.len(),
{
    let last = entry_views(pairs.last().1@).map_values(|e: (Seq<char>, usize)| e.0);
    if idx == pairs.len() - 1 {
        let pre = sources(pairs.drop_last());
        assert(last[j] == pairs[idx].1@[j].0@);
        assert((pre + last)[pre.len() + j] == last[j]);
    } else {
        lemma_sources_contain(pairs.drop_last(), idx, j);
        let pre = sources(pairs.drop_last());
        let k = choose|k: int| 0 <= k < pre.len() && pre[k] == pairs[idx].1@[j].0@;
        assert((pre + last)[k] == pre[k]);
    }
}

/// Every input listed for `t` is among the sources of the table.
proof fn lemma_inputs_are_sources(m: Table<String, Vec<(String, usize)>>, t: Seq<char>, j: int)
    requires
        m.wf(),
        0 <= j < inputs_in(m, t).len(),
    ensures
        sources(m.pairs()).contains(inputs_in(m, t)[j].0),
{
    let idx = m.keys().index_of(t);
    assert(m.keys()[idx] == t);
    assert(m.at(t) == m.pairs()[idx].1);
    lemma_sources_contain(m.pairs(), idx, j);
}

/// Whether `x` occurs in `v`.
pub fn holds_name(v: &Vec<String>, x: &String) -> (b: bool)
    ensures
        b == name_views(v@).contains(x@),
{
    let mut i: usize = 0;
    while i < v.len()
        invariant
            i <= v@.len(),
            forall|j: int| 0 <= j < i ==> v@[j]@ != x@,
        decreases v@.len() - i,
    {
        if v[i] == *x {
            proof {
                assert(name_views(v@)[i as int] == x@);
            }
            return true;
        }
        i = i + 1;
    }
    proof {
        if name_views(v@).contains(x@) {
            let j = choose|j: int| 0 <= j < name_views(v@).len() && name_views(v@)[j] == x@;
            assert(v@[j]@ == x@);
        }
    }
    false
}

/// The nodes that a score fed back from `start` reaches: `start` first, then
/// every node met by following inputs, each once (breadth first).
pub fn reached_from(start: &String, input_map: &Table<String, Vec<(String, usize)>>) -> (v: Vec<String>)
    requires
        input_map.wf(),
    ensures
        name_views(v@).no_duplicates(),
        v@.len() > 0,
        v@[0]@ == start@,
        forall|t: Seq<char>| #[trigger] name_views(v@).contains(t) <==> reaches(*input_map, start@, t),
{
    let ghost m = *input_map;
    let ghost universe = seq![start@] + sources(m.pairs());
    let mut visited: Vec<String> = Vec::new();
    visited.push(start.clone());
    proof {
        assert(is_back_path(m, seq![start@]));
        assert(name_views(visited@) =~= seq![start@]);
        assert(universe[0] == start@);
    }
    let mut k: usize = 0;
    while k < visited.len()
        invariant
            m == *input_map,
            m.wf(),
            k <= visited@.len(),
            visited@.len() > 0,
            visited@[0]@ == start@,
            name_views(visited@).no_duplicates(),
            universe == seq![start@] + sources(m.pairs()),
            forall|x: Seq<char>| #[trigger] name_views(visited@).contains(x) ==> reaches(m, start@, x) && universe.contains(x),
            forall|q: int, j: int|
                0 <= q < k && 0 <= j < inputs_in(m, visited@[q]@).len() ==> name_views(visited@).contains(
                    #[trigger] inputs_in(m, visited@[q]@)[j].0,
                ),
        decreases universe.len() - k,
    {
        proof {
            let vs = name_views(visited@);
            assert(vs.to_set().subset_of(universe.to_set()));
            vs.unique_seq_to_set();
            universe.lemma_cardinality_of_set();
            vstd::set_lib::lemma_len_subset(vs.to_set(), universe.to_set());
        }
        let n = visited[k].clone();
        let ghost nv = n@;
        proof {
            assert(name_views(visited@)[k as int] == nv);
        }
        match input_map.get(&n) {
            Some(list) => {
                let mut j: usize = 0;
                while j < list.len()
                    invariant
                        m == *input_map,
                        m.wf(),
                        m.has(nv),
                        list@ == m.at(nv)@,
                        j <= list@.len(),
                        k < visited@.len(),
                        visited@[k as int]@ == nv,
                        visited@[0]@ == start@,
                        name_views(visited@).no_duplicates(),
                        universe == seq![start@] + sources(m.pairs()),
                        forall|x: Seq<char>| #[trigger] name_views(visited@).contains(x) ==> reaches(m, start@, x) && universe.contains(x),
                        forall|q: int, i: int|
                            0 <= q < k && 0 <= i < inputs_in(m, visited@[q]@).len() ==> name_views(visited@).contains(
                                #[trigger] inputs_in(m, visited@[q]@)[i].0,
                            ),
                        forall|i: int| 0 <= i < j ==> name_views(visited@).contains(#[trigger] inputs_in(m, nv)[i].0),
                    decreases list@.len() - j,
                {
                    let src = &list[j].0;
                    let ghost sv = src@;
                    proof {
                        assert(inputs_in(m, nv)[j as int].0 == sv);
                    }
                    if !holds_name(&visited, src) {
                        let ghost before = visited@;
                        visited.push(src.clone());
                        proof {
                            let bv = name_views(before);
                            let av = name_views(visited@);
                            assert(av =~= bv.push(sv));
                            assert forall|x: Seq<char>| bv.contains(x) implies av.contains(x) by {
                                let i = choose|i: int| 0 <= i < bv.len() && bv[i] == x;
                                assert(av[i] == x);
                            }
                            assert(av[av.len() - 1] == sv);
                            // sv is reached through nv.
                            assert(bv[k as int] == nv);
                            assert(bv.contains(nv));
                            assert(reaches(m, start@, nv));
                            let p = choose|p: Seq<Seq<char>>| #[trigger] is_back_path(m, p) && p[0] == start@ && p.last() == nv;
                            let p2 = p.push(sv);
                            assert(feeds(m, nv, sv));
                            assert forall|i: int| 0 <= i < p2.len() - 1 implies feeds(m, #[trigger] p2[i], p2[i + 1]) by {
                                if i < p.len() - 1 {
                                    assert(p2[i] == p[i] && p2[i + 1] == p[i + 1]);
                                } else {
                                    assert(p2[i] == nv);
                                }
                            }
                            assert(is_back_path(m, p2));
                            assert(p2[0] == start@);
                            lemma_inputs_are_sources(m, nv, j as int);
                            let u2 = sources(m.pairs());
                            let w = choose|w: int| 0 <= w < u2.len() && u2[w] == sv;
                            assert(universe[w + 1] == sv);
                            assert(universe.contains(sv));
                            assert(reaches(m, start@, sv));
                            assert forall|x: Seq<char>| #[trigger] av.contains(x) implies reaches(m, start@, x) && universe.contains(x) by {
                                if x != sv {
                                    let i = choose|i: int| 0 <= i < av.len() && av[i] == x;
                                    assert(i < bv.len());
                                    assert(bv[i] == x);
                                    assert(bv.contains(x));
                                }
                            }
                            assert forall|a: int, b: int| 0 <= a < b < av.len() implies av[a] != av[b] by {
                                if b == av.len() - 1 {
                                    assert(bv[a] == av[a]);
                                }
                            }
                            assert forall|q: int, i: int|
                                0 <= q < k && 0 <= i < inputs_in(m, visited@[q]@).len() implies av.contains(
                                    #[trigger] inputs_in(m, visited@[q]@)[i].0) by {
                                assert(before[q] == visited@[q]);
                                assert(bv.contains(inputs_in(m, before[q]@)[i].0));
                            }
                        }
                    }
                    j = j + 1;
                }
            },
            None => {
                proof {
                    assert(inputs_in(m, nv).len() == 0);
                }
            },
        }
        proof {
            assert forall|q: int, i: int|
                0 <= q < k + 1 && 0 <= i < inputs_in(m, visited@[q]@).len() implies name_views(visited@).contains(
                    #[trigger] inputs_in(m, visited@[q]@)[i].0) by {
                if q == k {
                    assert(visited@[q]@ == nv);
                }
            }
        }
        k = k + 1;
    }
    proof {
        let vs = name_views(visited@);
        assert(vs[0] == start@);
        assert(vs.contains(start@));
        assert forall|t: Seq<char>| #[trigger] reaches(m, start@, t) implies vs.contains(t) by {
            let p = choose|p: Seq<Seq<char>>| #[trigger] is_back_path(m, p) && p[0] == start@ && p.last() == t;
            lemma_path_stays(m, visited@, p);
        }
    }
    visited
}

/// How often `e` occurs in `l`.
pub open spec fn occurrences(l: Seq<(Seq<char>, usize)>, e: (Seq<char>, usize)) -> nat
    decreases l.len(),
{
    if l.len() == 0 {
        0
    } else {
        occurrences(l.drop_last(), e) + if l.last() == e {
            1nat
        } else {
            0nat
        }
    }
}

/// How often link `e` is listed among the inputs of the entries of `pairs`
/// whose node `start` reaches in `m`.
pub open spec fn credits(
    pairs: Seq<(String, Vec<(String, usize)>)>,
    m: Table<String, Vec<(String, usize)>>,
    start: Seq<char>,
    e: (Seq<char>, usize),
) -> nat
    decreases pairs.len(),
{
    if pairs.len() == 0 {
        0
    } else {
        credits(pairs.drop_last(), m, start, e) + if reaches(m, start, pairs.last().0@) {
            occurrences(entry_views(pairs.last().1@), e)
        } else {
            0nat
        }
    }
}

/// Feeding back from `start` finds every node it reaches, and every input
/// listed for them names a node and one of its links.
pub open spec fn feedback_ok<S>(
    nodes: Table<String, Node<S>>,
    m: Table<String, Vec<(String, usize)>>,
    start: Seq<char>,
) -> bool {
    &&& forall|t: Seq<char>| #[trigger] reaches(m, start, t) ==> nodes.has(t)
    &&& forall|t: Seq<char>, j: int|
        reaches(m, start, t) && 0 <= j < inputs_in(m, t).len() ==> {
            let e = #[trigger] inputs_in(m, t)[j];
            nodes.has(e.0) && e.1 < nodes.at(e.0).links@.len()
        }
}

/// `a` is `b` with, at most, other scores on the node and its links.
pub open spec fn scores_only<S>(a: Node<S>, b: Node<S>) -> bool {
    &&& a.allele == b.allele
    &&& a.reset == b.reset
    &&& a.value == b.value
    &&& a.is_input == b.is_input
    &&& a.is_output == b.is_output
    &&& a.threshold == b.threshold
    &&& a.last_fired == b.last_fired
    &&& a.links@.len() == b.links@.len()
    &&& forall|i: int|
        0 <= i < b.links@.len() ==> {
            &&& (#[trigger] a.links@[i]).weight == b.links@[i].weight
            &&& a.links@[i].delay == b.links@[i].delay
            &&& a.links@[i].out == b.links@[i].out
        }
}

impl<S: Copy + Add<Output = S>> Net<S> {
    /// Credits `score` to every node that `node` reaches by following the
    /// inputs listed in `input_map` (itself included), and to every link
    /// listed as an input of such a node, once per listing.
    pub fn feedback(&mut self, node: String, score: S, input_map: &Table<String, Vec<(String, usize)>>)
        requires
            old(self).wf(),
            input_map.wf(),
            adds_total::<S>(),
            feedback_ok(old(self).nodes, *input_map, node@),
        ensures
            final(self).wf(),
            final(self).same_but_nodes(&*old(self)),
            final(self).nodes.keys() == old(self).nodes.keys(),
            forall|p: int|
                0 <= p < old(self).nodes.pairs().len() ==> scores_only(
                    #[trigger] final(self).nodes.values()[p],
                    old(self).nodes.values()[p],
                ),
            adds_exact::<S>() ==> forall|p: int|
                0 <= p < old(self).nodes.pairs().len() ==> (#[trigger] final(self).nodes.values()[p]).score
                    == if reaches(*input_map, node@, old(self).nodes.keys()[p]) {
                    old(self).nodes.values()[p].score.add_spec(score)
                } else {
                    old(self).nodes.values()[p].score
                },
            adds_exact::<S>() ==> forall|p: int, l: int|
                0 <= p < old(self).nodes.pairs().len() && 0 <= l < old(self).nodes.values()[p].links@.len()
                    ==> (#[trigger] final(self).nodes.values()[p].links@[l]).score == add_times(
                    old(self).nodes.values()[p].links@[l].score,
                    score,
                    credits(input_map.pairs(), *input_map, node@, (old(self).nodes.keys()[p], l as usize)),
                ),
    {
        let ghost m = *input_map;
        let ghost start = node@;
        let ghost keys = old(self).nodes.keys();
        let ghost olds = old(self).nodes.values();
        let visited = reached_from(&node, input_map);
        let ghost vis = name_views(visited@);
        let mut i: usize = 0;
        while i < visited.len()
            invariant
                m == *input_map,
                start == node@,
                keys == old(self).nodes.keys(),
                olds == old(self).nodes.values(),
                vis == name_views(visited@),
                vis.no_duplicates(),
                forall|t: Seq<char>| #[trigger] vis.contains(t) <==> reaches(m, start, t),
                feedback_ok(old(self).nodes, m, start),
                adds_total::<S>(),
                i <= visited@.len(),
                self.wf(),
                self.same_but_nodes(&*old(self)),
                self.nodes.keys() == keys,
                self.nodes.pairs().len() == keys.len(),
                forall|p: int| 0 <= p < keys.len() ==> scores_only(#[trigger] self.nodes.values()[p], olds[p]),
                forall|p: int, l: int|
                    0 <= p < keys.len() && 0 <= l < olds[p].links@.len() ==> (#[trigger] self.nodes.values()[p].links@[l]).score
                        == olds[p].links@[l].score,
                adds_exact::<S>() ==> forall|p: int|
                    0 <= p < keys.len() ==> (#[trigger] self.nodes.values()[p]).score == if vis.subrange(0, i as int).contains(keys[p]) {
                        olds[p].score.add_spec(score)
                    } else {
                        olds[p].score
                    },
            decreases visited@.len() - i,
        {
            let ghost before = self.nodes.values();
            let ghost name = visited@[i as int]@;
            proof {
                assert(vis[i as int] == name);
                assert(vis.contains(name));
                assert(self.nodes.has(name)) by {
                    assert(old(self).nodes.has(name));
                    let x = keys.index_of(name);
                    assert(keys[x] == name);
                }
            }
            let ghost q = keys.index_of(name);
            proof {
                assert(keys[q] == name);
                assert(self.nodes.at(name) == self.nodes.pairs()[q].1);
                assert(before[q] == self.nodes.pairs()[q].1);
            }
            let nd = self.node(&visited[i]);
            let ghost nd0 = *nd;
            nd.score = nd.score + score;
            proof {
                assert(nd0 == before[q]);
                assert(self.nodes.values() =~= before.update(q, self.nodes.values()[q]));
                let newn = self.nodes.values()[q];
                assert(newn == Node { score: newn.score, ..nd0 });
                assert(scores_only(newn, olds[q]));
                assert forall|p: int| 0 <= p < keys.len() implies scores_only(#[trigger] self.nodes.values()[p], olds[p]) by {
                    if p != q {
                        assert(self.nodes.values()[p] == before[p]);
                    }
                }
                assert forall|p: int, l: int|
                    0 <= p < keys.len() && 0 <= l < olds[p].links@.len() implies (#[trigger] self.nodes.values()[p].links@[l]).score
                        == olds[p].links@[l].score by {
                    if p != q {
                        assert(self.nodes.values()[p] == before[p]);
                    }
                }
                assert forall|p: int| 0 <= p < keys.len() implies (vis.subrange(0, i as int + 1).contains(keys[p])
                    <==> (vis.subrange(0, i as int).contains(keys[p]) || p == q)) by {
                    let sub = vis.subrange(0, i as int + 1);
                    if vis.subrange(0, i as int).contains(keys[p]) {
                        let x = choose|x: int| 0 <= x < i && vis.subrange(0, i as int)[x] == keys[p];
                        assert(sub[x] == keys[p]);
                    }
                    if p == q {
                        assert(sub[i as int] == keys[p]);
                    }
                    if sub.contains(keys[p]) {
                        let x = choose|x: int| 0 <= x <= i && sub[x] == keys[p];
                        if x < i {
                            assert(vis.subrange(0, i as int)[x] == keys[p]);
                        } else {
                            assert(keys[p] == name);
                            crate::table::lemma_index_of_unique(keys, p);
                        }
                    }
                }
                assert forall|p: int| 0 <= p < keys.len() && p == q implies !vis.subrange(0, i as int).contains(keys[p]) by {
                    if vis.subrange(0, i as int).contains(keys[p]) {
                        let x = choose|x: int| 0 <= x < i && vis.subrange(0, i as int)[x] == keys[p];
                        assert(vis[x] == vis[i as int]);
                    }
                }
            }
            i = i + 1;
        }
        proof {
            assert(vis.subrange(0, visited@.len() as int) =~= vis);
        }
        let ghost mid = self.nodes.values();
        let ghost mpairs = input_map.pairs();
        let n = input_map.len();
        let mut idx: usize = 0;
        proof {
            assert(mpairs.subrange(0, 0) =~= Seq::<(String, Vec<(String, usize)>)>::empty());
        }
        while idx < n
            invariant
                m == *input_map,
                mpairs == m.pairs(),
                m.wf(),
                n == mpairs.len(),
                idx <= n,
                start == node@,
                keys == old(self).nodes.keys(),
                olds == old(self).nodes.values(),
                vis == name_views(visited@),
                forall|t: Seq<char>| #[trigger] vis.contains(t) <==> reaches(m, start, t),
                feedback_ok(old(self).nodes, m, start),
                adds_total::<S>(),
                self.wf(),
                self.same_but_nodes(&*old(self)),
                self.nodes.keys() == keys,
                self.nodes.pairs().len() == keys.len(),
                forall|p: int| 0 <= p < keys.len() ==> scores_only(#[trigger] self.nodes.values()[p], olds[p]),
                forall|p: int| 0 <= p < keys.len() ==> (#[trigger] self.nodes.values()[p]).score == mid[p].score,
                adds_exact::<S>() ==> forall|p: int|
                    0 <= p < keys.len() ==> (#[trigger] mid[p]).score == if reaches(m, start, keys[p]) {
                        olds[p].score.add_spec(score)
                    } else {
                        olds[p].score
                    },
                adds_exact::<S>() ==> forall|p: int, l: int|
                    0 <= p < keys.len() && 0 <= l < olds[p].links@.len() ==> (#[trigger] self.nodes.values()[p].links@[l]).score
                        == add_times(olds[p].links@[l].score, score, credits(mpairs.subrange(0, idx as int), m, start, (keys[p], l as usize))),
            decreases n - idx,
        {
            let key = input_map.key_at(idx);
            let ghost kv = key@;
            let ghost sub0 = mpairs.subrange(0, idx as int);
            let ghost sub1 = mpairs.subrange(0, idx as int + 1);
            proof {
                assert(sub1.drop_last() =~= sub0);
                assert(sub1.last() == mpairs[idx as int]);
                assert(m.keys()[idx as int] == kv);
                crate::table::lemma_index_of_unique(m.keys(), idx as int);
                assert(m.at(kv) == mpairs[idx as int].1);
            }
            if holds_name(&visited, key) {
                let list = input_map.value_at(idx);
                let ghost lv = entry_views(list@);
                proof {
                    assert(inputs_in(m, kv) == lv);
                    assert(reaches(m, start, kv));
                    assert(lv.subrange(0, 0) =~= Seq::<(Seq<char>, usize)>::empty());
                }
                let mut j: usize = 0;
                while j < list.len()
                    invariant
                        m == *input_map,
                        j <= list@.len(),
                        lv == entry_views(list@),
                        lv == inputs_in(m, kv),
                        reaches(m, start, kv),
                        keys == old(self).nodes.keys(),
                        olds == old(self).nodes.values(),
                        feedback_ok(old(self).nodes, m, start),
                        adds_total::<S>(),
                        self.wf(),
                        self.same_but_nodes(&*old(self)),
                        self.nodes.keys() == keys,
                        self.nodes.pairs().len() == keys.len(),
                        forall|p: int| 0 <= p < keys.len() ==> scores_only(#[trigger] self.nodes.values()[p], olds[p]),
                        forall|p: int| 0 <= p < keys.len() ==> (#[trigger] self.nodes.values()[p]).score == mid[p].score,
                        adds_exact::<S>() ==> forall|p: int, l: int|
                            0 <= p < keys.len() && 0 <= l < olds[p].links@.len() ==> (#[trigger] self.nodes.values()[p].links@[l]).score
                                == add_times(olds[p].links@[l].score, score,
                                    credits(sub0, m, start, (keys[p], l as usize)) + occurrences(lv.subrange(0, j as int), (keys[p], l as usize))),
                    decreases list@.len() - j,
                {
                    let src = &list[j].0;
                    let li = list[j].1;
                    let ghost e = (src@, li);
                    let ghost before = self.nodes.values();
                    proof {
                        assert(lv[j as int] == e);
                        assert(self.nodes.has(src@) && li < olds[keys.index_of(src@)].links@.len()) by {
                            assert(old(self).nodes.has(src@));
                            let x = keys.index_of(src@);
                            assert(keys[x] == src@);
                        }
                    }
                    let ghost q = keys.index_of(src@);
                    proof {
                        assert(keys[q] == src@);
                        assert(self.nodes.at(src@) == self.nodes.pairs()[q].1);
                        assert(before[q] == self.nodes.pairs()[q].1);
                        assert(scores_only(before[q], olds[q]));
                    }
                    let nd = self.node(src);
                    let ghost nd0 = *nd;
                    let old_score = nd.links[li].score;
                    nd.links[li].score = old_score + score;
                    proof {
                        assert(nd0 == before[q]);
                        assert(self.nodes.values() =~= before.update(q, self.nodes.values()[q]));
                        let newn = self.nodes.values()[q];
                        assert(newn.links@ == nd0.links@.update(li as int, Link { score: newn.links@[li as int].score, ..nd0.links@[li as int] }));
                        assert(newn == Node { links: newn.links, ..nd0 });
                        assert(scores_only(newn, olds[q])) by {
                            assert forall|x: int| 0 <= x < olds[q].links@.len() implies
                                (#[trigger] newn.links@[x]).weight == olds[q].links@[x].weight
                                && newn.links@[x].delay == olds[q].links@[x].delay
                                && newn.links@[x].out == olds[q].links@[x].out by {
                                assert(nd0.links@[x].weight == olds[q].links@[x].weight);
                            }
                        }
                        assert forall|p: int| 0 <= p < keys.len() implies scores_only(#[trigger] self.nodes.values()[p], olds[p]) by {
                            if p != q {
                                assert(self.nodes.values()[p] == before[p]);
                            }
                        }
                        assert forall|p: int| 0 <= p < keys.len() implies (#[trigger] self.nodes.values()[p]).score == mid[p].score by {
                            if p != q {
                                assert(self.nodes.values()[p] == before[p]);
                            }
                        }
                        let ls0 = lv.subrange(0, j as int);
                        let ls1 = lv.subrange(0, j as int + 1);
                        assert(ls1.drop_last() =~= ls0);
                        assert(ls1.last() == e);
                        assert forall|p: int, l: int|
                            0 <= p < keys.len() && 0 <= l < olds[p].links@.len() implies #[trigger] occurrences(ls1, (keys[p], l as usize))
                                == occurrences(ls0, (keys[p], l as usize)) + if p == q && l == li { 1nat } else { 0nat } by {
                            let x = (keys[p], l as usize);
                            assert(olds[p].links.len() == olds[p].links@.len());
                            assert(x.1 == l);
                            assert(occurrences(ls1, x) == occurrences(ls0, x) + if ls1.last() == x { 1nat } else { 0nat });
                            if x == e {
                                assert(keys[p] == keys[q]);
                                crate::table::lemma_index_of_unique(keys, p);
                                crate::table::lemma_index_of_unique(keys, q);
                            }
                            if p == q && l == li {
                                assert(x == e);
                            }
                        }
                    }
                    j = j + 1;
                }
                proof {
                    assert(lv.subrange(0, list@.len() as int) =~= lv);
                }
            } else {
                proof {
                    assert(!reaches(m, start, kv));
                }
            }
            idx = idx + 1;
        }
        proof {
            assert(mpairs.subrange(0, n as int) =~= mpairs);
        }
    }
}

/// A path that starts in a set closed under inputs stays in it.
proof fn lemma_path_stays(m: Table<String, Vec<(String, usize)>>, vis: Seq<String>, p: Seq<Seq<char>>)
    requires
        is_back_path(m, p),
        name_views(vis).contains(p[0]),
        forall|q: int, j: int|
            0 <= q < vis.len() && 0 <= j < inputs_in(m, vis[q]@).len() ==> name_views(vis).contains(
                #[trigger] inputs_in(m, vis[q]@)[j].0,
            ),
    ensures
        name_views(vis).contains(p.last()),
    decreases p.len(),
{
    if p.len() > 1 {
        let p1 = p.drop_last();
        assert forall|i: int| 0 <= i < p1.len() - 1 implies feeds(m, #[trigger] p1[i], p1[i + 1]) by {
            assert(p1[i] == p[i] && p1[i + 1] == p[i + 1]);
        }
        lemma_path_stays(m, vis, p1);
        let a = p[p.len() - 2];
        assert(p1.last() == a);
        assert(feeds(m, p[p.len() - 2], p[p.len() - 1]));
        let j = choose|j: int| 0 <= j < inputs_in(m, a).len() && #[trigger] inputs_in(m, a)[j].0 == p.last();
        let q = choose|q: int| 0 <= q < name_views(vis).len() && name_views(vis)[q] == a;
        assert(vis[q]@ == a);
    }
}

impl<S> Net<S> {
    /// Whether a score can be fed back from `start` along `input_map` (see
    /// `feedback_ok`): every node it reaches is in the network, and so is
    /// every input listed for those, with the link position it names.
    pub fn feedable(&self, start: &String, input_map: &Table<String, Vec<(String, usize)>>) -> (r: bool)
        requires
            self.nodes.wf(),
            input_map.wf(),
        ensures
            r == feedback_ok(self.nodes, *input_map, start@),
    {
        let v = reached_from(start, input_map);
        let ghost m = *input_map;
        let n = v.len();
        let mut i: usize = 0;
        while i < n
            invariant
                self.nodes.wf(),
                input_map.wf(),
                m == *input_map,
                i <= n,
                n == v@.len(),
                forall|t: Seq<char>| #[trigger] name_views(v@).contains(t) <==> reaches(m, start@, t),
                forall|x: int| 0 <= x < i ==> self.nodes.has(#[trigger] name_views(v@)[x]),
                forall|x: int, j: int|
                    0 <= x < i && 0 <= j < inputs_in(m, name_views(v@)[x]).len() ==> {
                        let e = #[trigger] inputs_in(m, name_views(v@)[x])[j];
                        self.nodes.has(e.0) && e.1 < self.nodes.at(e.0).links@.len()
                    },
            decreases n - i,
        {
            let t = &v[i];
            proof {
                assert(name_views(v@)[i as int] == t@);
                assert(name_views(v@).contains(t@));
            }
            if !self.nodes.contains_key(t) {
                return false;
            }
            match input_map.get(t) {
                None => {},
                Some(list) => {
                    let nl = list.len();
                    let mut j: usize = 0;
                    while j < nl
                        invariant
                            self.nodes.wf(),
                            m == *input_map,
                            m.has(t@),
                            *list == m.at(t@),
                            nl == list@.len(),
                            j <= nl,
                            reaches(m, start@, t@),
                            forall|jj: int| 0 <= jj < j ==> {
                                let e = #[trigger] inputs_in(m, t@)[jj];
                                self.nodes.has(e.0) && e.1 < self.nodes.at(e.0).links@.len()
                            },
                        decreases nl - j,
                    {
                        let src = &list[j].0;
                        let idx = list[j].1;
                        proof {
                            assert(inputs_in(m, t@)[j as int] == (src@, idx));
                        }
                        match self.nodes.get(src) {
                            None => {
                                proof {
                                    let e = inputs_in(m, t@)[j as int];
                                    assert(!self.nodes.has(e.0));
                                }
                                return false;
                            },
                            Some(node) => {
                                if idx >= node.links.len() {
                                    proof {
                                        let e = inputs_in(m, t@)[j as int];
                                        assert(!(e.1 < self.nodes.at(e.0).links@.len()));
                                    }
                                    return false;
                                }
                            },
                        }
                        j = j + 1;
                    }
                },
            }
            proof {
                assert forall|x: int, j: int|
                    0 <= x < i + 1 && 0 <= j < inputs_in(m, name_views(v@)[x]).len() implies {
                        let e = #[trigger] inputs_in(m, name_views(v@)[x])[j];
                        self.nodes.has(e.0) && e.1 < self.nodes.at(e.0).links@.len()
                    } by {
                    if x == i {
                        assert(name_views(v@)[x] == t@);
                    }
                }
            }
            i = i + 1;
        }
        proof {
            assert forall|t: Seq<char>| #[trigger] reaches(m, start@, t) implies self.nodes.has(t) by {
                assert(name_views(v@).contains(t));
                let x = choose|x: int| 0 <= x < name_views(v@).len() && name_views(v@)[x] == t;
                assert(self.nodes.has(name_views(v@)[x]));
            }
            assert forall|t: Seq<char>, j: int|
                reaches(m, start@, t) && 0 <= j < inputs_in(m, t).len() implies {
                    let e = #[trigger] inputs_in(m, t)[j];
                    self.nodes.has(e.0) && e.1 < self.nodes.at(e.0).links@.len()
                } by {
                assert(name_views(v@).contains(t));
                let x = choose|x: int| 0 <= x < name_views(v@).len() && name_views(v@)[x] == t;
                let e = inputs_in(m, name_views(v@)[x])[j];
                assert(self.nodes.has(e.0) && e.1 < self.nodes.at(e.0).links@.len());
            }
        }
        true
    }
}

/// The links into `t` that `incoming` lists are those of `all` that end at `t`.
proof fn lemma_incoming_members(all: Seq<(Seq<char>, usize, Seq<char>)>, t: Seq<char>, e: (Seq<char>, usize))
    ensures
        incoming(all, t).contains(e) <==> all.contains((e.0, e.1, t)),
    decreases all.len(),
{
    if all.len() > 0 {
        let q = all.drop_last();
        lemma_incoming_members(q, t, e);
        let r = incoming(q, t);
        if all.last().2 == t {
            let x = (all.last().0, all.last().1);
            assert(incoming(all, t) == r.push(x));
            if r.push(x).contains(e) && e != x {
                let k = choose|k: int| 0 <= k < r.push(x).len() && r.push(x)[k] == e;
                assert(r[k] == e);
            }
            if r.contains(e) {
                let k = choose|k: int| 0 <= k < r.len() && r[k] == e;
                assert(r.push(x)[k] == e);
            }
            if e == x {
                assert(r.push(x)[r.len() as int] == e);
            }
        }
        if all.contains((e.0, e.1, t)) {
            let k = choose|k: int| 0 <= k < all.len() && all[k] == (e.0, e.1, t);
            if k < all.len() - 1 {
                assert(q[k] == all[k]);
            }
        }
        if q.contains((e.0, e.1, t)) {
            let k = choose|k: int| 0 <= k < q.len() && q[k] == (e.0, e.1, t);
            assert(all[k] == q[k]);
        }
    }
}

/// The links that `link_list` lists are those of the named nodes.
proof fn lemma_link_list_members<S>(pairs: Seq<(String, Node<S>)>, e: (Seq<char>, usize, Seq<char>))
    ensures
        link_list(pairs).contains(e) <==> exists|p: int|
            0 <= p < pairs.len() && #[trigger] pairs[p].0@ == e.0 && e.1 < pairs[p].1.links@.len()
                && pairs[p].1.links@[e.1 as int].out@ == e.2,
    decreases pairs.len(),
{
    if pairs.len() > 0 {
        let q = pairs.drop_last();
        lemma_link_list_members(q, e);
        let last = pairs.last();
        let nl = node_links(last.0@, last.1.links@);
        assert(link_list(pairs) == link_list(q) + nl);
        if link_list(pairs).contains(e) {
            let k = choose|k: int| 0 <= k < link_list(pairs).len() && link_list(pairs)[k] == e;
            if k < link_list(q).len() {
                assert(link_list(q)[k] == e);
                let p = choose|p: int|
                    0 <= p < q.len() && #[trigger] q[p].0@ == e.0 && e.1 < q[p].1.links@.len()
                        && q[p].1.links@[e.1 as int].out@ == e.2;
                assert(pairs[p] == q[p]);
                assert(pairs[p].0@ == e.0);
            } else {
                let i = k - link_list(q).len();
                assert(last.1.links.len() == last.1.links@.len());
                assert(nl[i] == e);
                assert(pairs[pairs.len() - 1] == last);
                assert(e.1 == i);
                assert(pairs[pairs.len() - 1].0@ == e.0);
            }
        }
        if exists|p: int|
            0 <= p < pairs.len() && #[trigger] pairs[p].0@ == e.0 && e.1 < pairs[p].1.links@.len()
                && pairs[p].1.links@[e.1 as int].out@ == e.2 {
            let p = choose|p: int|
                0 <= p < pairs.len() && #[trigger] pairs[p].0@ == e.0 && e.1 < pairs[p].1.links@.len()
                    && pairs[p].1.links@[e.1 as int].out@ == e.2;
            if p < pairs.len() - 1 {
                assert(q[p] == pairs[p]);
                let k = choose|k: int| 0 <= k < link_list(q).len() && link_list(q)[k] == e;
                assert(link_list(pairs)[k] == e);
            } else {
                assert(nl[e.1 as int] == e);
                assert(link_list(pairs)[link_list(q).len() + e.1] == e);
            }
        }
    }
}

/// The input map inverts the links: it lists `(b, i)` among the inputs of
/// `a` exactly when node `b` exists and its link `i` leads to `a`.
pub proof fn law_input_map_inverts_links<S>(nodes: Table<String, Node<S>>, m: Table<String, Vec<(String, usize)>>)
    requires
        nodes.wf(),
        is_input_map_of(m, link_list(nodes.pairs())),
    ensures
        forall|a: Seq<char>, b: Seq<char>, i: usize|
            #[trigger] inputs_in(m, a).contains((b, i)) <==> (nodes.has(b) && i < nodes.at(b).links@.len()
                && nodes.at(b).links@[i as int].out@ == a),
{
    let all = link_list(nodes.pairs());
    assert forall|a: Seq<char>, b: Seq<char>, i: usize|
        #[trigger] inputs_in(m, a).contains((b, i)) <==> (nodes.has(b) && i < nodes.at(b).links@.len()
            && nodes.at(b).links@[i as int].out@ == a) by {
        lemma_incoming_members(all, a, (b, i));
        lemma_link_list_members(nodes.pairs(), (b, i, a));
        if m.has(a) {
            assert(inputs_in(m, a) == incoming(all, a));
        } else {
            assert(incoming(all, a).len() == 0);
            assert(!incoming(all, a).contains((b, i)));
        }
        if nodes.has(b) {
            let x = nodes.keys().index_of(b);
            assert(nodes.keys()[x] == b);
            assert(nodes.at(b) == nodes.pairs()[x].1);
            assert(nodes.pairs()[x].0@ == b);
        }
        if exists|p: int|
            0 <= p < nodes.pairs().len() && #[trigger] nodes.pairs()[p].0@ == b && i < nodes.pairs()[p].1.links@.len()
                && nodes.pairs()[p].1.links@[i as int].out@ == a {
            let p = choose|p: int|
                0 <= p < nodes.pairs().len() && #[trigger] nodes.pairs()[p].0@ == b && i < nodes.pairs()[p].1.links@.len()
                    && nodes.pairs()[p].1.links@[i as int].out@ == a;
            assert(nodes.keys()[p] == b);
            crate::table::lemma_index_of_unique(nodes.keys(), p);
        }
    }
}

} // verus!
