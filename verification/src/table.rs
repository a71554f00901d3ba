//! An insertion-ordered map whose keys are compared through their views.
//!
//! The network and the genetic pool key their nodes, genes, alleles and
//! scheduled actions by name or by number. `Table` keeps such entries in a
//! vector, at most one entry per key, in the order in which keys arrived.
//!
//! The order matters: a tick fires its nodes, and cleaning and feedback
//! visit them, in the order the map is walked, and that order decides the
//! order of the scheduled signals. A hash map walks its entries in an order
//! set by a hasher seeded anew in each process, of which nothing can be
//! stated; the insertion order kept here is one such order, and it is one
//! that the contracts can name.
use vstd::prelude::*;

verus! {

/// A key of a `Table`: equality and copies that agree with the view.
pub trait TableKey: View + Sized {
    fn same_key(&self, other: &Self) -> (r: bool)
        ensures
            r == (self@ == other@),
    ;

    fn copy_key(&self) -> (r: Self)
        ensures
            r@ == self@,
    ;
}

impl TableKey for String {
    fn same_key(&self, other: &Self) -> (r: bool) {
        *self == *other
    }

    fn copy_key(&self) -> (r: Self) {
        self.clone()
    }
}

impl TableKey for u32 {
    fn same_key(&self, other: &Self) -> (r: bool) {
        *self == *other
    }

    fn copy_key(&self) -> (r: Self) {
        *self
    }
}

/// Entries `(key, value)`, with no key occurring twice.
pub struct Table<K, V> {
    entries: Vec<(K, V)>,
}

/// The key views of a sequence of entries, in order.
pub open spec fn key_views<K: View, V>(s: Seq<(K, V)>) -> Seq<K::V> {
    s.map_values(|e: (K, V)| e.0@)
}

/// The values of a sequence of entries, in order.
pub open spec fn value_views<K, V>(s: Seq<(K, V)>) -> Seq<V> {
    s.map_values(|e: (K, V)| e.1)
}

/// The map that a sequence of entries with distinct keys stands for.
pub open spec fn entries_map<K: View, V>(s: Seq<(K, V)>) -> Map<K::V, V> {
    Map::new(
        |k: K::V| key_views(s).contains(k),
        |k: K::V| s[key_views(s).index_of(k)].1,
    )
}

impl<K: TableKey, V> Table<K, V> {
    /// The entries in order.
    pub closed spec fn pairs(&self) -> Seq<(K, V)> {
        self.entries@
    }

    /// The keys (by view) in order.
    pub open spec fn keys(&self) -> Seq<K::V> {
        key_views(self.pairs())
    }

    /// The values in order.
    pub open spec fn values(&self) -> Seq<V> {
        value_views(self.pairs())
    }

    /// No key occurs twice.
    pub open spec fn wf(&self) -> bool {
        self.keys().no_duplicates()
    }

    /// The map from key views to values.
    pub open spec fn map(&self) -> Map<K::V, V> {
        entries_map(self.pairs())
    }

    pub open spec fn has(&self, k: K::V) -> bool {
        self.keys().contains(k)
    }

    /// The value stored under `k` (meaningful when `self.has(k)`).
    pub open spec fn at(&self, k: K::V) -> V {
        self.pairs()[self.keys().index_of(k)].1
    }

    pub fn new() -> (t: Self)
        ensures
            t.wf(),
            t.pairs() == Seq::<(K, V)>::empty(),
    {
        Table { entries: Vec::new() }
    }

    pub fn len(&self) -> (n: usize)
        ensures
            n == self.pairs().len(),
    {
        self.entries.len()
    }

    pub fn is_empty(&self) -> (b: bool)
        ensures
            b == (self.pairs().len() == 0),
    {
        self.entries.len() == 0
    }

    /// The position of the entry for `k`, if any.
    pub fn find(&self, k: &K) -> (r: Option<usize>)
        requires
            self.wf(),
        ensures
            match r {
                Some(i) => i < self.pairs().len() && self.pairs()[i as int].0@ == k@
                    && i == self.keys().index_of(k@) && self.has(k@),
                None => !self.has(k@),
            },
    {
        let mut i: usize = 0;
        while i < self.entries.len()
            invariant
                self.wf(),
                i <= self.entries@.len(),
                forall|j: int| 0 <= j < i ==> self.entries@[j].0@ != k@,
            decreases self.entries@.len() - i,
        {
            if self.entries[i].0.same_key(k) {
                proof {
                    assert(self.keys()[i as int] == k@);
                    lemma_index_of_unique(self.keys(), i as int);
                }
                return Some(i);
            }
            i = i + 1;
        }
        proof {
            if self.keys().contains(k@) {
                let j = self.keys().index_of(k@);
                assert(self.entries@[j].0@ == k@);
            }
        }
        None
    }

    pub fn contains_key(&self, k: &K) -> (b: bool)
        requires
            self.wf(),
        ensures
            b == self.has(k@),
    {
        self.find(k).is_some()
    }

    pub fn key_at(&self, i: usize) -> (k: &K)
        requires
            i < self.pairs().len(),
        ensures
            *k == self.pairs()[i as int].0,
    {
        &self.entries[i].0
    }

    pub fn value_at(&self, i: usize) -> (v: &V)
        requires
            i < self.pairs().len(),
        ensures
            *v == self.pairs()[i as int].1,
    {
        &self.entries[i].1
    }

    pub fn value_at_mut(&mut self, i: usize) -> (v: &mut V)
        requires
            i < old(self).pairs().len(),
        ensures
            *v == old(self).pairs()[i as int].1,
            final(self).pairs() == old(self).pairs().update(
                i as int,
                (old(self).pairs()[i as int].0, *final(v)),
            ),
            final(self).keys() == old(self).keys(),
            final(self).values() == old(self).values().update(i as int, *final(v)),
            old(self).wf() ==> final(self).wf(),
    {
        proof {
            let p = self.entries@;
            assert forall|w: V| #[trigger] key_views(p.update(i as int, (p[i as int].0, w))) =~= key_views(p) by {}
            assert forall|w: V| #[trigger] value_views(p.update(i as int, (p[i as int].0, w)))
                =~= value_views(p).update(i as int, w) by {}
        }
        &mut self.entries[i].1
    }

    pub fn get(&self, k: &K) -> (r: Option<&V>)
        requires
            self.wf(),
        ensures
            match r {
                Some(v) => self.has(k@) && *v == self.at(k@),
                None => !self.has(k@),
            },
    {
        match self.find(k) {
            Some(i) => Some(&self.entries[i].1),
            None => None,
        }
    }

    /// Sets the value of `k`: in place when `k` is present, else at the end.
    pub fn insert(&mut self, k: K, v: V)
        requires
            old(self).wf(),
        ensures
            final(self).wf(),
            old(self).has(k@) ==> {
                let i = old(self).keys().index_of(k@);
                final(self).pairs() == old(self).pairs().update(i, (old(self).pairs()[i].0, v))
            },
            !old(self).has(k@) ==> final(self).pairs() == old(self).pairs().push((k, v)),
            final(self).has(k@),
            final(self).at(k@) == v,
            forall|j: K::V|
                j != k@ ==> (#[trigger] final(self).has(j) == old(self).has(j) && (old(self).has(j)
                    ==> final(self).at(j) == old(self).at(j))),
    {
        let ghost kv = k@;
        let ghost ok = self.keys();
        match self.find(&k) {
            Some(i) => {
                let ghost old_pairs = self.entries@;
                let ghost key0 = self.entries@[i as int].0;
                self.entries[i].1 = v;
                proof {
                    assert(self.entries@ =~= old_pairs.update(i as int, (key0, v)));
                    assert(key_views(self.entries@) =~= key_views(old_pairs));
                }
            },
            None => {
                let ghost old_pairs = self.entries@;
                self.entries.push((k, v));
                proof {
                    assert(key_views(self.entries@) =~= key_views(old_pairs).push(kv));
                }
            },
        }
        proof {
            let nk = self.keys();
            assert(nk.len() == ok.len() || nk == ok.push(kv));
            if ok.contains(kv) {
                let x = ok.index_of(kv);
                assert(ok[x] == kv);
                assert(nk[x] == kv);
                lemma_index_of_unique(nk, x);
            } else {
                assert(nk[nk.len() - 1] == kv);
                lemma_index_of_unique(nk, nk.len() - 1);
            }
            assert forall|j: K::V| j != kv implies #[trigger] self.has(j) == old(self).has(j) && (old(self).has(j)
                ==> self.at(j) == old(self).at(j)) by {
                if ok.contains(j) {
                    let x = ok.index_of(j);
                    assert(ok[x] == j);
                    assert(nk[x] == j);
                    lemma_index_of_unique(nk, x);
                    lemma_index_of_unique(ok, x);
                }
                if nk.contains(j) {
                    let y = choose|y: int| 0 <= y < nk.len() && nk[y] == j;
                    if y < ok.len() {
                        assert(ok[y] == j);
                    }
                }
            }
        }
    }

    /// Removes the entry of `k`, keeping the order of the others.
    pub fn remove(&mut self, k: &K) -> (r: Option<V>)
        requires
            old(self).wf(),
        ensures
            final(self).wf(),
            match r {
                Some(v) => old(self).has(k@) && v == old(self).at(k@) && final(self).pairs()
                    == old(self).pairs().remove(old(self).keys().index_of(k@)),
                None => !old(self).has(k@) && final(self).pairs() == old(self).pairs(),
            },
            !final(self).has(k@),
            forall|j: K::V|
                j != k@ ==> (#[trigger] final(self).has(j) == old(self).has(j) && (old(self).has(j)
                    ==> final(self).at(j) == old(self).at(j))),
    {
        match self.find(k) {
            Some(i) => {
                let ghost old_pairs = self.entries@;
                let e = self.entries.remove(i);
                proof {
                    let ok = key_views(old_pairs);
                    let nk = key_views(self.entries@);
                    assert(nk =~= ok.remove(i as int));
                    lemma_remove_keeps_distinct(ok, i as int);
                    if nk.contains(k@) {
                        let x = choose|x: int| 0 <= x < nk.len() && nk[x] == k@;
                        if x < i {
                            assert(ok[x] == k@);
                        } else {
                            assert(ok[x + 1] == k@);
                        }
                        lemma_index_of_unique(ok, i as int);
                    }
                    assert forall|j: K::V| j != k@ implies #[trigger] self.has(j) == old(self).has(j) && (old(self).has(j)
                        ==> self.at(j) == old(self).at(j)) by {
                        if ok.contains(j) {
                            let x = ok.index_of(j);
                            assert(ok[x] == j);
                            assert(x != i);
                            let y = if x < i { x } else { x - 1 };
                            assert(nk[y] == j);
                            lemma_index_of_unique(nk, y);
                            lemma_index_of_unique(ok, x);
                        }
                        if nk.contains(j) {
                            let y = choose|y: int| 0 <= y < nk.len() && nk[y] == j;
                            if y < i {
                                assert(ok[y] == j);
                            } else {
                                assert(ok[y + 1] == j);
                            }
                        }
                    }
                }
                Some(e.1)
            },
            None => None,
        }
    }

    pub fn clear(&mut self)
        ensures
            final(self).wf(),
            final(self).pairs() == Seq::<(K, V)>::empty(),
    {
        self.entries.clear();
        proof {
            assert(key_views(self.entries@) =~= Seq::<K::V>::empty());
        }
    }
}

impl<K: TableKey, T> Table<K, Vec<T>> {
    /// The list stored under `k`; empty when `k` is absent.
    pub open spec fn list(&self, k: K::V) -> Seq<T> {
        if self.has(k) {
            self.at(k)@
        } else {
            Seq::empty()
        }
    }

    /// Appends `item` to the list under `k`, creating it at the end if absent.
    pub fn push_to(&mut self, k: K, item: T)
        requires
            old(self).wf(),
        ensures
            final(self).wf(),
            final(self).has(k@),
            final(self).list(k@) == old(self).list(k@).push(item),
            forall|j: K::V|
                j != k@ ==> (#[trigger] final(self).has(j) == old(self).has(j) && final(self).list(j)
                    == old(self).list(j)),
    {
        let ghost kv = k@;
        match self.find(&k) {
            Some(i) => {
                let list = self.value_at_mut(i);
                list.push(item);
            },
            None => {
                let mut list: Vec<T> = Vec::new();
                list.push(item);
                self.insert(k, list);
            },
        }
        proof {
            assert forall|j: K::V| j != kv implies #[trigger] self.has(j) == old(self).has(j)
                && self.list(j) == old(self).list(j) by {
                if old(self).has(j) {
                    let x = old(self).keys().index_of(j);
                    assert(old(self).keys()[x] == j);
                    assert(self.keys()[x] == j);
                    lemma_index_of_unique(self.keys(), x);
                }
                if self.has(j) {
                    let x = self.keys().index_of(j);
                    assert(self.keys()[x] == j);
                    if x < old(self).keys().len() {
                        assert(old(self).keys()[x] == j);
                    }
                }
            }
            if old(self).has(kv) {
                let x = old(self).keys().index_of(kv);
                assert(self.keys()[x] == kv);
                lemma_index_of_unique(self.keys(), x);
            } else {
                let x = self.keys().len() - 1;
                assert(self.keys()[x] == kv);
                lemma_index_of_unique(self.keys(), x);
            }
            assert(self.list(kv) =~= old(self).list(kv).push(item));
        }
    }
}

/// In a sequence without duplicates, the element at `i` is first found at `i`.
pub proof fn lemma_index_of_unique<A>(s: Seq<A>, i: int)
    requires
        s.no_duplicates(),
        0 <= i < s.len(),
    ensures
        s.contains(s[i]),
        s.index_of(s[i]) == i,
{
    assert(s.contains(s[i]));
    let j = s.index_of(s[i]);
    assert(s[j] == s[i]);
}

pub proof fn lemma_remove_keeps_distinct<A>(s: Seq<A>, i: int)
    requires
        s.no_duplicates(),
        0 <= i < s.len(),
    ensures
        s.remove(i).no_duplicates(),
{
    let r = s.remove(i);
    assert forall|a: int, b: int| 0 <= a < r.len() && 0 <= b < r.len() && a != b implies r[a]
        != r[b] by {
        let a2 = if a < i { a } else { a + 1 };
        let b2 = if b < i { b } else { b + 1 };
        assert(r[a] == s[a2]);
        assert(r[b] == s[b2]);
    }
}

} // verus!
