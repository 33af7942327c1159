//! Trait of map containers, and a verified association-vector container.
//!
//! The wrapper works against [`MapTrait`] alone, so any container whose
//! methods meet these contracts can back a file-based map.  The library
//! ships [`VecMap`], a verified container; a user may supply another.

use vstd::prelude::*;

verus! {

/// A clone that keeps the mathematical value.
pub trait DeepClone: DeepView + Sized {
    fn deep_clone(&self) -> (r: Self)
        ensures
            r.deep_view() == self.deep_view(),
    ;
}

/// A key whose equality test decides equality of mathematical values.
pub trait KeyEq: DeepView + Sized {
    fn key_eq(&self, other: &Self) -> (r: bool)
        ensures
            r == (self.deep_view() == other.deep_view()),
    ;
}

impl DeepClone for i64 {
    fn deep_clone(&self) -> (r: Self)
        ensures
            r.deep_view() == self.deep_view(),
    {
        *self
    }
}

impl KeyEq for i64 {
    fn key_eq(&self, other: &Self) -> (r: bool)
        ensures
            r == (self.deep_view() == other.deep_view()),
    {
        *self == *other
    }
}

impl DeepClone for i32 {
    fn deep_clone(&self) -> (r: Self)
        ensures
            r.deep_view() == self.deep_view(),
    {
        *self
    }
}

impl KeyEq for i32 {
    fn key_eq(&self, other: &Self) -> (r: bool)
        ensures
            r == (self.deep_view() == other.deep_view()),
    {
        *self == *other
    }
}

impl DeepClone for u64 {
    fn deep_clone(&self) -> (r: Self)
        ensures
            r.deep_view() == self.deep_view(),
    {
        *self
    }
}

impl KeyEq for u64 {
    fn key_eq(&self, other: &Self) -> (r: bool)
        ensures
            r == (self.deep_view() == other.deep_view()),
    {
        *self == *other
    }
}

impl DeepClone for String {
    fn deep_clone(&self) -> (r: Self)
        ensures
            r.deep_view() == self.deep_view(),
    {
        self.clone()
    }
}

impl KeyEq for String {
    fn key_eq(&self, other: &Self) -> (r: bool)
        ensures
            r == (self.deep_view() == other.deep_view()),
    {
        *self == *other
    }
}

/// The entry list of a container matches a map: every entry is a binding
/// of the map, every key of the map has an entry, and no key repeats.
pub open spec fn entries_match<K: DeepView, V: DeepView>(
    es: Seq<(K, V)>,
    m: Map<K::V, V::V>,
) -> bool {
    &&& forall|i: int|
        0 <= i < es.len() ==> m.contains_key(#[trigger] es[i].0.deep_view())
            && m[es[i].0.deep_view()] == es[i].1.deep_view()
    &&& forall|k: K::V|
        m.contains_key(k) ==> exists|i: int| 0 <= i < es.len() && (#[trigger] es[i].0.deep_view())
            == k
    &&& forall|i: int, j: int|
        0 <= i < es.len() && 0 <= j < es.len() && i != j ==> (#[trigger] es[i].0.deep_view())
            != (#[trigger] es[j].0.deep_view())
}

/// Trait of map containers.  Needed to generalize over maps and to allow
/// custom containers behind the file-backed wrapper.
pub trait MapTrait<K: KeyEq + DeepClone, V: DeepClone>: Sized {
    /// The mathematical map this container holds.
    spec fn view(&self) -> Map<<K as DeepView>::V, <V as DeepView>::V>;

    /// The container's internal well-formedness.
    spec fn wf(&self) -> bool;

    /// An empty container.
    fn empty() -> (r: Self)
        ensures
            r.wf(),
            r.view() == Map::<<K as DeepView>::V, <V as DeepView>::V>::empty(),
    ;

    /// Returns a reference to the value corresponding to the key.
    fn get(&self, key: &K) -> (r: Option<&V>)
        requires
            self.wf(),
        ensures
            match r {
                Some(v) => self.view().contains_key(key.deep_view()) && v.deep_view()
                    == self.view()[key.deep_view()],
                None => !self.view().contains_key(key.deep_view()),
            },
    ;

    /// Inserts a key-value pair and returns the old value, if any.
    fn insert(&mut self, key: K, value: V) -> (r: Option<V>)
        requires
            old(self).wf(),
        ensures
            final(self).wf(),
            final(self).view() == old(self).view().insert(key.deep_view(), value.deep_view()),
            match r {
                Some(v) => old(self).view().contains_key(key.deep_view()) && v.deep_view()
                    == old(self).view()[key.deep_view()],
                None => !old(self).view().contains_key(key.deep_view()),
            },
    ;

    /// Removes a key, returning the value it held, if any.
    fn remove(&mut self, key: &K) -> (r: Option<V>)
        requires
            old(self).wf(),
        ensures
            final(self).wf(),
            final(self).view() == old(self).view().remove(key.deep_view()),
            match r {
                Some(v) => old(self).view().contains_key(key.deep_view()) && v.deep_view()
                    == old(self).view()[key.deep_view()],
                None => !old(self).view().contains_key(key.deep_view()),
            },
    ;

    /// The entries of the container, cloned, one per key.
    fn entries(&self) -> (r: Vec<(K, V)>)
        requires
            self.wf(),
        ensures
            entries_match(r@, self.view()),
    ;
}

/// The map held by an entry list: the bindings of its keys, last one
/// winning (the container keeps keys unique, so order does not matter).
pub open spec fn entries_map<K: DeepView, V: DeepView>(es: Seq<(K, V)>) -> Map<
    <K as DeepView>::V,
    <V as DeepView>::V,
> {
    Map::new(
        |k: <K as DeepView>::V| exists|i: int|
            0 <= i < es.len() && (#[trigger] es[i].0.deep_view()) == k,
        |k: <K as DeepView>::V|
            es[choose|i: int| 0 <= i < es.len() && (#[trigger] es[i].0.deep_view()) == k]
                .1.deep_view(),
    )
}

/// No two entries share a key.
pub open spec fn entries_distinct<K: DeepView, V>(es: Seq<(K, V)>) -> bool {
    forall|i: int, j: int|
        0 <= i < es.len() && 0 <= j < es.len() && i != j ==> (#[trigger] es[i].0.deep_view())
            != (#[trigger] es[j].0.deep_view())
}

/// An entry list that matches a map holds exactly that map.
pub proof fn lemma_entries_match_map<K: DeepView, V: DeepView>(
    es: Seq<(K, V)>,
    m: Map<<K as DeepView>::V, <V as DeepView>::V>,
)
    requires
        entries_match(es, m),
    ensures
        entries_map(es) == m,
{
    assert(entries_map(es) =~= m) by {
        assert forall|k: <K as DeepView>::V| #[trigger]
            entries_map(es).contains_key(k) <==> m.contains_key(k) by {
            if entries_map(es).contains_key(k) {
                let i = choose|i: int|
                    0 <= i < es.len() && (#[trigger] es[i].0.deep_view()) == k;
                assert(m.contains_key(es[i].0.deep_view()));
            }
        }
        assert forall|k: <K as DeepView>::V|
            entries_map(es).contains_key(k) && m.contains_key(k) implies #[trigger] entries_map(
            es,
        )[k] == m[k] by {
            let i = choose|i: int| 0 <= i < es.len() && (#[trigger] es[i].0.deep_view()) == k;
            assert(entries_map(es)[k] == es[i].1.deep_view());
            assert(m[es[i].0.deep_view()] == es[i].1.deep_view());
        }
    }
}

/// Taking one more entry of a distinct entry list adds one binding.
pub proof fn lemma_entries_map_take_step<K: DeepView, V: DeepView>(es: Seq<(K, V)>, i: int)
    requires
        entries_distinct(es),
        0 <= i < es.len(),
    ensures
        entries_map(es.take(i + 1)) == entries_map(es.take(i)).insert(
            es[i].0.deep_view(),
            es[i].1.deep_view(),
        ),
{
    let m0 = entries_map(es.take(i));
    assert(entries_map(es.take(i + 1)) =~= m0.insert(es[i].0.deep_view(), es[i].1.deep_view()))
        by {
        assert forall|k2: <K as DeepView>::V| #[trigger]
            entries_map(es.take(i + 1)).contains_key(k2) <==> m0.insert(
            es[i].0.deep_view(),
            es[i].1.deep_view(),
        ).contains_key(k2) by {
            if entries_map(es.take(i + 1)).contains_key(k2) {
                let j = choose|j: int|
                    0 <= j < i + 1 && (#[trigger] es.take(i + 1)[j].0.deep_view()) == k2;
                if j < i {
                    assert(es.take(i)[j].0.deep_view() == k2);
                }
            }
            if m0.contains_key(k2) {
                let j = choose|j: int|
                    0 <= j < i && (#[trigger] es.take(i)[j].0.deep_view()) == k2;
                assert(es.take(i + 1)[j].0.deep_view() == k2);
            }
            if k2 == es[i].0.deep_view() {
                assert(es.take(i + 1)[i].0.deep_view() == k2);
            }
        }
        assert forall|k2: <K as DeepView>::V|
            entries_map(es.take(i + 1)).contains_key(k2) && m0.insert(
                es[i].0.deep_view(),
                es[i].1.deep_view(),
            ).contains_key(k2) implies #[trigger] entries_map(es.take(i + 1))[k2] == m0.insert(
            es[i].0.deep_view(),
            es[i].1.deep_view(),
        )[k2] by {
            let j = choose|j: int|
                0 <= j < i + 1 && (#[trigger] es.take(i + 1)[j].0.deep_view()) == k2;
            assert(entries_map(es.take(i + 1))[k2] == es[j].1.deep_view());
            if k2 == es[i].0.deep_view() {
                if j != i {
                    assert(es[j].0.deep_view() != es[i].0.deep_view());
                }
            } else {
                assert(j < i);
                assert(es.take(i)[j].0.deep_view() == k2);
                let j2 = choose|j2: int|
                    0 <= j2 < i && (#[trigger] es.take(i)[j2].0.deep_view()) == k2;
                if j2 != j {
                    assert(es[j2].0.deep_view() != es[j].0.deep_view());
                }
                assert(m0[k2] == es[j].1.deep_view());
            }
        }
    }
}

/// A distinct entry list's map binds exactly as many keys as it has
/// entries.
pub proof fn lemma_entries_map_card<K: DeepView, V: DeepView>(es: Seq<(K, V)>)
    requires
        entries_distinct(es),
    ensures
        entries_map(es).dom().finite(),
        entries_map(es).dom().len() == es.len(),
    decreases es.len(),
{
    if es.len() == 0 {
        assert(entries_map(es).dom() =~= Set::<<K as DeepView>::V>::empty());
    } else {
        let es0 = es.drop_last();
        assert(entries_distinct(es0)) by {
            assert(forall|i: int| 0 <= i < es0.len() ==> es0[i] == es[i]);
        }
        lemma_entries_map_card(es0);
        assert(es.take(es.len() - 1) =~= es0);
        assert(es.take(es.len() as int) =~= es);
        lemma_entries_map_take_step(es, es.len() - 1);
        let klast = es[es.len() - 1].0.deep_view();
        assert(!entries_map(es0).contains_key(klast)) by {
            if entries_map(es0).contains_key(klast) {
                let j = choose|j: int|
                    0 <= j < es0.len() && (#[trigger] es0[j].0.deep_view()) == klast;
                assert(es[j].0.deep_view() == es[es.len() - 1].0.deep_view());
                assert(false);
            }
        }
        assert(entries_map(es).dom() =~= entries_map(es0).dom().insert(klast));
    }
}

/// A map container backed by a vector of entries with pairwise distinct
/// keys.
pub struct VecMap<K, V> {
    entries: Vec<(K, V)>,
}

impl<K: KeyEq + DeepClone, V: DeepClone> VecMap<K, V> {
    /// The binding of each entry is in the map.
    proof fn lemma_view_at(&self, i: int)
        requires
            self.wf(),
            0 <= i < self.entries@.len(),
        ensures
            self.view().contains_key(self.entries@[i].0.deep_view()),
            self.view()[self.entries@[i].0.deep_view()] == self.entries@[i].1.deep_view(),
    {
        let es = self.entries@;
        let k = es[i].0.deep_view();
        let w = choose|j: int| 0 <= j < es.len() && (#[trigger] es[j].0.deep_view()) == k;
        assert(es[i].0.deep_view() == k);
        if w != i {
            assert(es[w].0.deep_view() != es[i].0.deep_view());
        }
    }

    /// The index holding a key of the map.
    proof fn lemma_view_witness(&self, k: <K as DeepView>::V) -> (i: int)
        requires
            self.wf(),
            self.view().contains_key(k),
        ensures
            0 <= i < self.entries@.len(),
            self.entries@[i].0.deep_view() == k,
    {
        choose|i: int|
            0 <= i < self.entries@.len() && (#[trigger] self.entries@[i].0.deep_view()) == k
    }

    /// The number of keys the container holds.
    pub fn len(&self) -> (r: usize)
        requires
            self.wf(),
        ensures
            self.view().dom().finite(),
            r as int == self.view().dom().len(),
    {
        proof {
            lemma_entries_map_card(self.entries@);
        }
        self.entries.len()
    }

    /// Whether the container holds no key.
    pub fn is_empty(&self) -> (r: bool)
        requires
            self.wf(),
        ensures
            r == (self.view() == Map::<<K as DeepView>::V, <V as DeepView>::V>::empty()),
    {
        let e = self.entries.len() == 0;
        proof {
            if e {
                assert(self.view() =~= Map::<<K as DeepView>::V, <V as DeepView>::V>::empty());
            } else {
                self.lemma_view_at(0);
            }
        }
        e
    }

    /// The position of `key` in the entry vector, if it is there.
    fn find(&self, key: &K) -> (r: Option<usize>)
        requires
            self.wf(),
        ensures
            match r {
                Some(i) => i < self.entries@.len() && self.entries@[i as int].0.deep_view()
                    == key.deep_view(),
                None => !self.view().contains_key(key.deep_view()),
            },
    {
        let mut i: usize = 0;
        while i < self.entries.len()
            invariant
                i <= self.entries@.len(),
                forall|j: int|
                    0 <= j < i ==> (#[trigger] self.entries@[j].0.deep_view())
                        != key.deep_view(),
            decreases self.entries@.len() - i,
        {
            if self.entries[i].0.key_eq(key) {
                return Some(i);
            }
            i += 1;
        }
        proof {
            if self.view().contains_key(key.deep_view()) {
                let w = self.lemma_view_witness(key.deep_view());
            }
        }
        None
    }
}

impl<K: KeyEq + DeepClone, V: DeepClone> MapTrait<K, V> for VecMap<K, V> {
    closed spec fn view(&self) -> Map<<K as DeepView>::V, <V as DeepView>::V> {
        entries_map(self.entries@)
    }

    closed spec fn wf(&self) -> bool {
        entries_distinct(self.entries@)
    }

    fn empty() -> (r: Self)
        ensures
            r.wf(),
            r.view() == Map::<<K as DeepView>::V, <V as DeepView>::V>::empty(),
    {
        let r = VecMap { entries: Vec::new() };
        proof {
            assert(r.view() =~= Map::<<K as DeepView>::V, <V as DeepView>::V>::empty());
        }
        r
    }

    fn get(&self, key: &K) -> (r: Option<&V>)
        ensures
            match r {
                Some(v) => self.view().contains_key(key.deep_view()) && v.deep_view()
                    == self.view()[key.deep_view()],
                None => !self.view().contains_key(key.deep_view()),
            },
    {
        match self.find(key) {
            Some(i) => {
                proof {
                    self.lemma_view_at(i as int);
                }
                Some(&self.entries[i].1)
            },
            None => None,
        }
    }

    fn insert(&mut self, key: K, value: V) -> (r: Option<V>)
        ensures
            final(self).wf(),
            final(self).view() == old(self).view().insert(key.deep_view(), value.deep_view()),
            match r {
                Some(v) => old(self).view().contains_key(key.deep_view()) && v.deep_view()
                    == old(self).view()[key.deep_view()],
                None => !old(self).view().contains_key(key.deep_view()),
            },
    {
        let ghost es0 = self.entries@;
        let found = self.find(&key);
        let old_value = match found {
            Some(i) => {
                proof {
                    self.lemma_view_at(i as int);
                }
                let (_, v) = self.entries.remove(i);
                Some(v)
            },
            None => None,
        };
        let ghost es1 = self.entries@;
        proof {
            // after removal no entry holds the key
            match found {
                Some(i) => {
                    assert forall|j: int| 0 <= j < es1.len() implies (
                    #[trigger] es1[j].0.deep_view()) != key.deep_view() by {
                        if j < i {
                            assert(es1[j] == es0[j]);
                            assert(es0[j].0.deep_view() != es0[i as int].0.deep_view());
                        } else {
                            assert(es1[j] == es0[j + 1]);
                            assert(es0[j + 1].0.deep_view() != es0[i as int].0.deep_view());
                        }
                    }
                    assert(entries_distinct(es1)) by {
                        assert forall|a: int, b: int|
                            0 <= a < es1.len() && 0 <= b < es1.len() && a != b implies (
                        #[trigger] es1[a].0.deep_view()) != (#[trigger] es1[b].0.deep_view()) by {
                            let a0: int = if a < i { a } else { a + 1 };
                            let b0: int = if b < i { b } else { b + 1 };
                            assert(es1[a] == es0[a0] && es1[b] == es0[b0]);
                        }
                    }
                },
                None => {},
            }
        }
        self.entries.push((key, value));
        proof {
            let es2 = self.entries@;
            let kdv = key.deep_view();
            assert(es2 == es1.push((key, value)));
            assert forall|a: int, b: int|
                0 <= a < es2.len() && 0 <= b < es2.len() && a != b implies (
            #[trigger] es2[a].0.deep_view()) != (#[trigger] es2[b].0.deep_view()) by {
                if a < es1.len() && b < es1.len() {
                    assert(es2[a] == es1[a] && es2[b] == es1[b]);
                } else if a < es1.len() {
                    assert(es2[b].0.deep_view() == kdv && es2[a] == es1[a]);
                } else {
                    assert(es2[a].0.deep_view() == kdv && es2[b] == es1[b]);
                }
            }
            // the new view is the old view with the binding added
            assert(entries_map(es2) =~= entries_map(es0).insert(kdv, value.deep_view())) by {
                assert forall|k: <K as DeepView>::V| #[trigger]
                    entries_map(es2).contains_key(k) <==> entries_map(es0).insert(
                    kdv,
                    value.deep_view(),
                ).contains_key(k) by {
                    if k == kdv {
                        assert(es2[es2.len() - 1].0.deep_view() == k);
                    } else {
                        if entries_map(es2).contains_key(k) {
                            let j = choose|j: int|
                                0 <= j < es2.len() && (#[trigger] es2[j].0.deep_view()) == k;
                            assert(j < es1.len());
                            match found {
                                Some(i) => {
                                    let j0: int = if j < i {
                                        j
                                    } else {
                                        j + 1
                                    };
                                    assert(es0[j0].0.deep_view() == k);
                                },
                                None => {
                                    assert(es0[j].0.deep_view() == k);
                                },
                            }
                        }
                        if entries_map(es0).contains_key(k) {
                            let j0 = choose|j: int|
                                0 <= j < es0.len() && (#[trigger] es0[j].0.deep_view()) == k;
                            match found {
                                Some(i) => {
                                    let j: int = if j0 < i {
                                        j0
                                    } else {
                                        j0 - 1
                                    };
                                    assert(j0 != i);
                                    if j0 > i {
                                        assert(es1[j0 - 1] == es0[j0]);
                                    } else {
                                        assert(es1[j0] == es0[j0]);
                                    }
                                    assert(es2[j].0.deep_view() == k);
                                },
                                None => {
                                    assert(es2[j0].0.deep_view() == k);
                                },
                            }
                        }
                    }
                }
                assert forall|k: <K as DeepView>::V|
                    entries_map(es2).contains_key(k) && entries_map(es0).insert(
                        kdv,
                        value.deep_view(),
                    ).contains_key(k) implies #[trigger] entries_map(es2)[k] == entries_map(
                    es0,
                ).insert(kdv, value.deep_view())[k] by {
                    let j = choose|j: int|
                        0 <= j < es2.len() && (#[trigger] es2[j].0.deep_view()) == k;
                    if k == kdv {
                        let last = es2.len() - 1;
                        assert(es2[last].0.deep_view() == k);
                        if j != last {
                            assert(es2[j].0.deep_view() != es2[last].0.deep_view());
                        }
                        assert(entries_map(es2)[k] == es2[j].1.deep_view());
                    } else {
                        assert(j < es1.len());
                        assert(entries_map(es2)[k] == es2[j].1.deep_view());
                        match found {
                            Some(i) => {
                                let j0: int = if j < i {
                                    j
                                } else {
                                    j + 1
                                };
                                assert(es1[j] == es0[j0]);
                                assert(es0[j0].0.deep_view() == k);
                                let w0 = choose|w: int|
                                    0 <= w < es0.len() && (#[trigger] es0[w].0.deep_view()) == k;
                                if w0 != j0 {
                                    assert(es0[w0].0.deep_view() != es0[j0].0.deep_view());
                                }
                                assert(entries_map(es0)[k] == es0[j0].1.deep_view());
                            },
                            None => {
                                assert(es1[j] == es0[j]);
                                let w0 = choose|w: int|
                                    0 <= w < es0.len() && (#[trigger] es0[w].0.deep_view()) == k;
                                if w0 != j {
                                    assert(es0[w0].0.deep_view() != es0[j].0.deep_view());
                                }
                                assert(entries_map(es0)[k] == es0[j].1.deep_view());
                            },
                        }
                    }
                }
            }
        }
        old_value
    }

    fn remove(&mut self, key: &K) -> (r: Option<V>)
        ensures
            final(self).wf(),
            final(self).view() == old(self).view().remove(key.deep_view()),
            match r {
                Some(v) => old(self).view().contains_key(key.deep_view()) && v.deep_view()
                    == old(self).view()[key.deep_view()],
                None => !old(self).view().contains_key(key.deep_view()),
            },
    {
        let ghost es0 = self.entries@;
        let ghost kdv = key.deep_view();
        match self.find(key) {
            Some(i) => {
                proof {
                    self.lemma_view_at(i as int);
                }
                let (_, v) = self.entries.remove(i);
                proof {
                    let es1 = self.entries@;
                    assert forall|a: int, b: int|
                        0 <= a < es1.len() && 0 <= b < es1.len() && a != b implies (
                    #[trigger] es1[a].0.deep_view()) != (#[trigger] es1[b].0.deep_view()) by {
                        let a0: int = if a < i {
                            a
                        } else {
                            a + 1
                        };
                        let b0: int = if b < i {
                            b
                        } else {
                            b + 1
                        };
                        assert(es1[a] == es0[a0] && es1[b] == es0[b0]);
                    }
                    assert(entries_map(es1) =~= entries_map(es0).remove(kdv)) by {
                        assert forall|k: <K as DeepView>::V| #[trigger]
                            entries_map(es1).contains_key(k) <==> entries_map(es0).remove(
                            kdv,
                        ).contains_key(k) by {
                            if entries_map(es1).contains_key(k) {
                                let j = choose|j: int|
                                    0 <= j < es1.len() && (#[trigger] es1[j].0.deep_view()) == k;
                                let j0: int = if j < i {
                                    j
                                } else {
                                    j + 1
                                };
                                assert(es1[j] == es0[j0]);
                                assert(es0[j0].0.deep_view() == k);
                                assert(j0 != i ==> k != kdv);
                            }
                            if entries_map(es0).remove(kdv).contains_key(k) {
                                let j0 = choose|j: int|
                                    0 <= j < es0.len() && (#[trigger] es0[j].0.deep_view()) == k;
                                assert(j0 != i);
                                let j: int = if j0 < i {
                                    j0
                                } else {
                                    j0 - 1
                                };
                                if j0 > i {
                                    assert(es1[j0 - 1] == es0[j0]);
                                } else {
                                    assert(es1[j0] == es0[j0]);
                                }
                                assert(es1[j].0.deep_view() == k);
                            }
                        }
                        assert forall|k: <K as DeepView>::V|
                            entries_map(es1).contains_key(k) && entries_map(es0).remove(
                                kdv,
                            ).contains_key(k) implies #[trigger] entries_map(es1)[k]
                            == entries_map(es0).remove(kdv)[k] by {
                            let j = choose|j: int|
                                0 <= j < es1.len() && (#[trigger] es1[j].0.deep_view()) == k;
                            assert(entries_map(es1)[k] == es1[j].1.deep_view());
                            let j0: int = if j < i {
                                j
                            } else {
                                j + 1
                            };
                            assert(es1[j] == es0[j0]);
                            let w0 = choose|w: int|
                                0 <= w < es0.len() && (#[trigger] es0[w].0.deep_view()) == k;
                            if w0 != j0 {
                                assert(es0[w0].0.deep_view() != es0[j0].0.deep_view());
                            }
                            assert(entries_map(es0)[k] == es0[j0].1.deep_view());
                        }
                    }
                }
                Some(v)
            },
            None => {
                proof {
                    assert(entries_map(es0).remove(kdv) =~= entries_map(es0));
                }
                None
            },
        }
    }

    fn entries(&self) -> (r: Vec<(K, V)>)
        ensures
            entries_match(r@, self.view()),
    {
        let mut r: Vec<(K, V)> = Vec::new();
        let mut i: usize = 0;
        while i < self.entries.len()
            invariant
                self.wf(),
                i <= self.entries@.len(),
                r@.len() == i,
                forall|j: int|
                    0 <= j < i ==> (#[trigger] r@[j].0.deep_view())
                        == self.entries@[j].0.deep_view() && r@[j].1.deep_view()
                        == self.entries@[j].1.deep_view(),
            decreases self.entries@.len() - i,
        {
            let k = self.entries[i].0.deep_clone();
            let v = self.entries[i].1.deep_clone();
            r.push((k, v));
            i += 1;
        }
        proof {
            assert forall|j: int| 0 <= j < r@.len() implies self.view().contains_key(
                #[trigger] r@[j].0.deep_view(),
            ) && self.view()[r@[j].0.deep_view()] == r@[j].1.deep_view() by {
                self.lemma_view_at(j);
            }
            assert forall|k: <K as DeepView>::V| self.view().contains_key(k) implies exists|
                j: int,
            | 0 <= j < r@.len() && (#[trigger] r@[j].0.deep_view()) == k by {
                let w = self.lemma_view_witness(k);
                assert(r@[w].0.deep_view() == k);
            }
        }
        r
    }
}

} // verus!
