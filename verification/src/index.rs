//! Secondary index: a mapping from a value-derived key to the set of
//! primary keys whose values derive to it.
//!
//! [`Index::consistent_with`] is the index invariant: every binding of
//! the primary map stands in exactly the bucket of its derived key, every
//! bucket member points back to a live binding, and no bucket is empty.
//! The update methods preserve it.

use vstd::prelude::*;
use crate::map_trait::{DeepClone, KeyEq, MapTrait, VecMap, entries_distinct, entries_map};

verus! {

/// A key with a total order, used to keep bucket members sorted.
pub trait OrdKey: KeyEq + DeepClone {
    /// The order on mathematical key values.
    spec fn key_le(a: <Self as DeepView>::V, b: <Self as DeepView>::V) -> bool;

    /// The order is total: reflexive, antisymmetric, transitive, and any
    /// two keys are comparable.
    proof fn key_le_laws(a: <Self as DeepView>::V, b: <Self as DeepView>::V, c: <Self as DeepView>::V)
        ensures
            Self::key_le(a, a),
            Self::key_le(a, b) || Self::key_le(b, a),
            Self::key_le(a, b) && Self::key_le(b, a) ==> a == b,
            Self::key_le(a, b) && Self::key_le(b, c) ==> Self::key_le(a, c),
    ;

    /// Decides the order.
    fn le_key(&self, other: &Self) -> (r: bool)
        ensures
            r == Self::key_le(self.deep_view(), other.deep_view()),
    ;
}

impl OrdKey for i64 {
    open spec fn key_le(a: i64, b: i64) -> bool {
        a <= b
    }

    proof fn key_le_laws(a: i64, b: i64, c: i64) {
    }

    fn le_key(&self, other: &Self) -> (r: bool)
        ensures
            r == Self::key_le(self.deep_view(), other.deep_view()),
    {
        *self <= *other
    }
}

impl OrdKey for u64 {
    open spec fn key_le(a: u64, b: u64) -> bool {
        a <= b
    }

    proof fn key_le_laws(a: u64, b: u64, c: u64) {
    }

    fn le_key(&self, other: &Self) -> (r: bool)
        ensures
            r == Self::key_le(self.deep_view(), other.deep_view()),
    {
        *self <= *other
    }
}

/// The set of mathematical keys of a key vector.
pub open spec fn key_set<K: DeepView>(s: Seq<K>) -> Set<<K as DeepView>::V> {
    Set::new(|k: <K as DeepView>::V| exists|i: int|
        0 <= i < s.len() && (#[trigger] s[i].deep_view()) == k)
}

/// A strictly ascending vector of keys: one bucket of an index.
pub struct KeyVec<K> {
    keys: Vec<K>,
}

impl<K: OrdKey> KeyVec<K> {
    /// The set of keys the bucket holds.
    pub closed spec fn view(&self) -> Set<<K as DeepView>::V> {
        key_set(self.keys@)
    }

    /// Strictly ascending: sorted, hence also free of repeats.
    pub closed spec fn wf(&self) -> bool {
        forall|i: int, j: int|
            0 <= i < j < self.keys@.len() ==> K::key_le(
                #[trigger] self.keys@[i].deep_view(),
                #[trigger] self.keys@[j].deep_view(),
            ) && self.keys@[i].deep_view() != self.keys@[j].deep_view()
    }

    /// The keys of the bucket, ascending.
    pub closed spec fn key_seq(&self) -> Seq<<K as DeepView>::V> {
        self.keys@.map_values(|k: K| k.deep_view())
    }

    /// An empty bucket.
    pub fn empty() -> (r: Self)
        ensures
            r.wf(),
            r.view() == Set::<<K as DeepView>::V>::empty(),
            r.key_seq() == Seq::<<K as DeepView>::V>::empty(),
    {
        let r = KeyVec { keys: Vec::new() };
        proof {
            assert(r.view() =~= Set::<<K as DeepView>::V>::empty());
            assert(r.key_seq() =~= Seq::<<K as DeepView>::V>::empty());
        }
        r
    }

    /// Whether the bucket is empty.
    pub fn is_empty(&self) -> (r: bool)
        ensures
            r == (self.key_seq().len() == 0),
    {
        self.keys.len() == 0
    }

    /// The bucket's keys, cloned, in ascending order.
    pub fn to_vec(&self) -> (r: Vec<K>)
        ensures
            r@.map_values(|k: K| k.deep_view()) == self.key_seq(),
    {
        let mut r: Vec<K> = Vec::new();
        let mut i: usize = 0;
        while i < self.keys.len()
            invariant
                i <= self.keys@.len(),
                r@.len() == i,
                forall|j: int|
                    0 <= j < i ==> (#[trigger] r@[j].deep_view()) == self.keys@[j].deep_view(),
            decreases self.keys@.len() - i,
        {
            r.push(self.keys[i].deep_clone());
            i += 1;
        }
        proof {
            assert(r@.map_values(|k: K| k.deep_view()) =~= self.key_seq());
        }
        r
    }

    /// The slot where `key` stands or would stand, and whether it is
    /// already there.
    fn slot_for(&self, key: &K) -> (r: (usize, bool))
        requires
            self.wf(),
        ensures
            r.1 ==> r.0 < self.keys@.len() && self.keys@[r.0 as int].deep_view()
                == key.deep_view(),
            !r.1 ==> {
                &&& r.0 <= self.keys@.len()
                &&& forall|j: int|
                    0 <= j < r.0 ==> K::key_le(
                        #[trigger] self.keys@[j].deep_view(),
                        key.deep_view(),
                    ) && self.keys@[j].deep_view() != key.deep_view()
                &&& r.0 < self.keys@.len() ==> !K::key_le(
                    self.keys@[r.0 as int].deep_view(),
                    key.deep_view(),
                )
            },
    {
        let mut i: usize = 0;
        while i < self.keys.len()
            invariant
                self.wf(),
                i <= self.keys@.len(),
                forall|j: int|
                    0 <= j < i ==> K::key_le(
                        #[trigger] self.keys@[j].deep_view(),
                        key.deep_view(),
                    ) && self.keys@[j].deep_view() != key.deep_view(),
            decreases self.keys@.len() - i,
        {
            if self.keys[i].key_eq(key) {
                return (i, true);
            }
            if !self.keys[i].le_key(key) {
                return (i, false);
            }
            i += 1;
        }
        (i, false)
    }

    /// Adds a key to the bucket, keeping the order.
    pub fn add(&mut self, key: K)
        requires
            seq_sorted::<K>(old(self).key_seq()),
        ensures
            seq_sorted::<K>(final(self).key_seq()),
            forall|k: <K as DeepView>::V|
                #[trigger] final(self).key_seq().contains(k) <==> old(self).key_seq().contains(k)
                    || k == key.deep_view(),
    {
        proof {
            assert forall|i: int, j: int| 0 <= i < j < self.keys@.len() implies K::key_le(
                #[trigger] self.keys@[i].deep_view(),
                #[trigger] self.keys@[j].deep_view(),
            ) && self.keys@[i].deep_view() != self.keys@[j].deep_view() by {
                assert(self.key_seq()[i] == self.keys@[i].deep_view());
                assert(self.key_seq()[j] == self.keys@[j].deep_view());
            }
        }
        let ghost ks0 = self.keys@;
        let ghost kdv = key.deep_view();
        let (i, present) = self.slot_for(&key);
        if present {
            proof {
                assert(old(self).key_seq()[i as int] == kdv);
                assert(old(self).key_seq().contains(kdv));
            }
            return ;
        }
        // every key at or after the slot is strictly above the new one
        proof {
            if i < ks0.len() {
                let pivot = ks0[i as int].deep_view();
                assert forall|j: int| i <= j < ks0.len() implies K::key_le(
                    kdv,
                    #[trigger] ks0[j].deep_view(),
                ) && ks0[j].deep_view() != kdv by {
                    let kj = ks0[j].deep_view();
                    K::key_le_laws(pivot, kdv, kj);
                    K::key_le_laws(kdv, pivot, kj);
                    if j > i as int {
                        K::key_le_laws(pivot, kj, kdv);
                        K::key_le_laws(kdv, kj, pivot);
                    }
                }
            }
        }
        self.keys.insert(i, key);
        proof {
            let ks1 = self.keys@;
            assert(ks1 == ks0.insert(i as int, key));
            assert forall|a: int, b: int| 0 <= a < b < ks1.len() implies K::key_le(
                #[trigger] ks1[a].deep_view(),
                #[trigger] ks1[b].deep_view(),
            ) && ks1[a].deep_view() != ks1[b].deep_view() by {
                if a == i {
                    assert(ks1[b] == ks0[b - 1]);
                } else if b == i {
                    assert(ks1[a] == ks0[a]);
                } else {
                    let a0: int = if a < i { a } else { a - 1 };
                    let b0: int = if b < i { b } else { b - 1 };
                    assert(ks1[a] == ks0[a0] && ks1[b] == ks0[b0]);
                    if a0 == b0 {
                        assert(a < i && b > i);
                        assert(false);
                    }
                }
            }
            assert(self.view() =~= old(self).view().insert(kdv)) by {
                assert forall|k: <K as DeepView>::V| #[trigger] self.view().contains(k) implies
                    old(self).view().insert(kdv).contains(k) by {
                    let j = choose|j: int|
                        0 <= j < ks1.len() && (#[trigger] ks1[j].deep_view()) == k;
                    if j != i {
                        let j0: int = if j < i { j } else { j - 1 };
                        assert(ks1[j] == ks0[j0]);
                        assert(ks0[j0].deep_view() == k);
                    }
                }
                assert forall|k: <K as DeepView>::V| old(self).view().insert(kdv).contains(
                    k,
                ) implies #[trigger] self.view().contains(k) by {
                    if k == kdv {
                        assert(ks1[i as int].deep_view() == k);
                    } else {
                        let j0 = choose|j: int|
                            0 <= j < ks0.len() && (#[trigger] ks0[j].deep_view()) == k;
                        let j: int = if j0 < i { j0 } else { j0 + 1 };
                        assert(ks1[j] == ks0[j0]);
                        assert(ks1[j].deep_view() == k);
                    }
                }
            }
            assert forall|a: int, b: int| 0 <= a < b < self.key_seq().len() implies K::key_le(
                #[trigger] self.key_seq()[a],
                #[trigger] self.key_seq()[b],
            ) && self.key_seq()[a] != self.key_seq()[b] by {
                assert(self.key_seq()[a] == ks1[a].deep_view());
                assert(self.key_seq()[b] == ks1[b].deep_view());
            }
            assert forall|k: <K as DeepView>::V| #[trigger]
                self.key_seq().contains(k) <==> old(self).key_seq().contains(k) || k == kdv by {
                self.lemma_seq_set();
                old(self).lemma_seq_set();
            }
        }
    }

    /// Removes a key from the bucket, if it is there.
    #[verifier::loop_isolation(false)]
    pub fn take_out(&mut self, key: &K)
        requires
            seq_sorted::<K>(old(self).key_seq()),
        ensures
            seq_sorted::<K>(final(self).key_seq()),
            forall|k: <K as DeepView>::V|
                #[trigger] final(self).key_seq().contains(k) <==> old(self).key_seq().contains(k)
                    && k != key.deep_view(),
    {
        proof {
            assert forall|i: int, j: int| 0 <= i < j < self.keys@.len() implies K::key_le(
                #[trigger] self.keys@[i].deep_view(),
                #[trigger] self.keys@[j].deep_view(),
            ) && self.keys@[i].deep_view() != self.keys@[j].deep_view() by {
                assert(self.key_seq()[i] == self.keys@[i].deep_view());
                assert(self.key_seq()[j] == self.keys@[j].deep_view());
            }
        }
        let ghost ks0 = self.keys@;
        let ghost kdv = key.deep_view();
        let mut i: usize = 0;
        while i < self.keys.len()
            invariant
                self.wf(),
                self.keys@ == ks0,
                i <= self.keys@.len(),
                forall|j: int|
                    0 <= j < i ==> (#[trigger] self.keys@[j].deep_view()) != key.deep_view(),
            decreases self.keys@.len() - i,
        {
            if self.keys[i].key_eq(key) {
                self.keys.remove(i);
                proof {
                    let ks1 = self.keys@;
                    assert forall|a: int, b: int| 0 <= a < b < ks1.len() implies K::key_le(
                        #[trigger] ks1[a].deep_view(),
                        #[trigger] ks1[b].deep_view(),
                    ) && ks1[a].deep_view() != ks1[b].deep_view() by {
                        let a0: int = if a < i { a } else { a + 1 };
                        let b0: int = if b < i { b } else { b + 1 };
                        assert(ks1[a] == ks0[a0] && ks1[b] == ks0[b0]);
                    }
                    assert(self.view() =~= old(self).view().remove(kdv)) by {
                        assert forall|k: <K as DeepView>::V| #[trigger] self.view().contains(
                            k,
                        ) implies old(self).view().remove(kdv).contains(k) by {
                            let j = choose|j: int|
                                0 <= j < ks1.len() && (#[trigger] ks1[j].deep_view()) == k;
                            let j0: int = if j < i { j } else { j + 1 };
                            assert(ks1[j] == ks0[j0]);
                            assert(ks0[j0].deep_view() == k);
                            if j0 != i {
                                assert(ks0[j0].deep_view() != ks0[i as int].deep_view());
                            }
                        }
                        assert forall|k: <K as DeepView>::V| old(self).view().remove(
                            kdv,
                        ).contains(k) implies #[trigger] self.view().contains(k) by {
                            let j0 = choose|j: int|
                                0 <= j < ks0.len() && (#[trigger] ks0[j].deep_view()) == k;
                            assert(j0 != i);
                            let j: int = if j0 < i { j0 } else { j0 - 1 };
                            if j0 > i {
                                assert(ks1[j0 - 1] == ks0[j0]);
                            } else {
                                assert(ks1[j0] == ks0[j0]);
                            }
                            assert(ks1[j].deep_view() == k);
                        }
                    }
                    assert forall|a: int, b: int|
                        0 <= a < b < self.key_seq().len() implies K::key_le(
                        #[trigger] self.key_seq()[a],
                        #[trigger] self.key_seq()[b],
                    ) && self.key_seq()[a] != self.key_seq()[b] by {
                        assert(self.key_seq()[a] == ks1[a].deep_view());
                        assert(self.key_seq()[b] == ks1[b].deep_view());
                    }
                    assert forall|k: <K as DeepView>::V| #[trigger]
                        self.key_seq().contains(k) <==> old(self).key_seq().contains(k) && k
                        != kdv by {
                        self.lemma_seq_set();
                        old(self).lemma_seq_set();
                    }
                }
                return ;
            }
            i += 1;
        }
        proof {
            assert forall|k: <K as DeepView>::V| #[trigger] self.view().contains(k) implies old(
                self,
            ).view().remove(kdv).contains(k) by {
                let j = choose|j: int|
                    0 <= j < ks0.len() && (#[trigger] ks0[j].deep_view()) == k;
            }
            assert(self.view() =~= old(self).view().remove(kdv));
            assert forall|k: <K as DeepView>::V| #[trigger]
                self.key_seq().contains(k) <==> old(self).key_seq().contains(k) && k != kdv by {
                self.lemma_seq_set();
                old(self).lemma_seq_set();
            }
        }
    }
}

impl<K: OrdKey> DeepView for KeyVec<K> {
    type V = Seq<<K as DeepView>::V>;

    open spec fn deep_view(&self) -> Seq<<K as DeepView>::V> {
        self.key_seq()
    }
}

impl<K: OrdKey> DeepClone for KeyVec<K> {
    fn deep_clone(&self) -> (r: Self)
        ensures
            r.deep_view() == self.deep_view(),
    {
        let mut ks: Vec<K> = Vec::new();
        let mut i: usize = 0;
        while i < self.keys.len()
            invariant
                i <= self.keys@.len(),
                ks@.len() == i,
                forall|j: int|
                    0 <= j < i ==> (#[trigger] ks@[j].deep_view()) == self.keys@[j].deep_view(),
            decreases self.keys@.len() - i,
        {
            ks.push(self.keys[i].deep_clone());
            i += 1;
        }
        let r = KeyVec { keys: ks };
        proof {
            assert(r.key_seq() =~= self.key_seq());
        }
        r
    }
}

impl<K: OrdKey> KeyVec<K> {
    /// Membership in the key sequence and in the key set agree.
    pub proof fn lemma_seq_set(&self)
        ensures
            forall|k: <K as DeepView>::V|
                #[trigger] self.key_seq().contains(k) <==> self.view().contains(k),
    {
        assert forall|k: <K as DeepView>::V| #[trigger]
            self.key_seq().contains(k) <==> self.view().contains(k) by {
            if self.key_seq().contains(k) {
                let i = choose|i: int|
                    0 <= i < self.key_seq().len() && self.key_seq()[i] == k;
                assert(self.keys@[i].deep_view() == k);
            }
            if self.view().contains(k) {
                let i = choose|i: int|
                    0 <= i < self.keys@.len() && (#[trigger] self.keys@[i].deep_view()) == k;
                assert(self.key_seq()[i] == k);
            }
        }
    }

}

/// A strictly ascending sequence of key values.
pub open spec fn seq_sorted<K: OrdKey>(s: Seq<<K as DeepView>::V>) -> bool {
    forall|i: int, j: int|
        0 <= i < j < s.len() ==> K::key_le(#[trigger] s[i], #[trigger] s[j]) && s[i] != s[j]
}

/// Derives the index key from a value.  The executable extractor computes
/// the specification function, so the index invariant can speak of it.
pub trait KeyExtractor<V: DeepView, IK: DeepView> {
    /// The derived key of a value.
    spec fn key_spec(&self, v: <V as DeepView>::V) -> <IK as DeepView>::V;

    /// Computes the derived key.
    fn extract(&self, v: &V) -> (r: IK)
        ensures
            r.deep_view() == self.key_spec(v.deep_view()),
    ;
}

/// The index for getting the keys of the owner map by a part or function
/// of the value.  The buckets are kept sorted and never empty.
pub struct Index<IK, K, V, E> {
    map: VecMap<IK, KeyVec<K>>,
    extract: E,
    _values: core::marker::PhantomData<V>,
}

impl<
    IK: KeyEq + DeepClone,
    K: OrdKey,
    V: DeepView,
    E: KeyExtractor<V, IK>,
> Index<IK, K, V, E> {
    /// The buckets: each derived key maps to the ascending sequence of
    /// primary keys whose values derive to it.
    pub closed spec fn view(&self) -> Map<<IK as DeepView>::V, Seq<<K as DeepView>::V>> {
        self.map.view()
    }

    /// The derived key of a value, as the stored extractor computes it.
    pub closed spec fn key_of(&self, v: <V as DeepView>::V) -> <IK as DeepView>::V {
        self.extract.key_spec(v)
    }

    /// Buckets are sorted and never empty.
    pub closed spec fn wf(&self) -> bool {
        &&& self.map.wf()
        &&& forall|ik: <IK as DeepView>::V|
            #[trigger] self.view().contains_key(ik) ==> seq_sorted::<K>(self.view()[ik])
                && self.view()[ik].len() >= 1
    }

    /// The index agrees with a primary map `m`: every binding of `m`
    /// stands in the bucket of its derived key, and every bucket member
    /// points back to a live binding that derives to that bucket's key.
    pub open spec fn consistent_with(&self, m: Map<<K as DeepView>::V, <V as DeepView>::V>) -> bool {
        &&& forall|k: <K as DeepView>::V|
            #[trigger] m.contains_key(k) ==> self.view().contains_key(self.key_of(m[k]))
                && self.view()[self.key_of(m[k])].contains(k)
        &&& forall|ik: <IK as DeepView>::V, k: <K as DeepView>::V|
            #[trigger] self.view().contains_key(ik) && #[trigger] self.view()[ik].contains(k)
                ==> m.contains_key(k) && self.key_of(m[k]) == ik
    }

    /// An empty index, consistent with the empty map.
    pub fn new(extract: E) -> (r: Self)
        ensures
            r.wf(),
            r.consistent_with(Map::<<K as DeepView>::V, <V as DeepView>::V>::empty()),
            forall|v: <V as DeepView>::V| #[trigger] r.key_of(v) == extract.key_spec(v),
    {
        let r = Index { map: VecMap::empty(), extract, _values: core::marker::PhantomData };
        proof {
            assert(forall|ik: <IK as DeepView>::V| !r.view().contains_key(ik));
        }
        r
    }

    /// Puts `key` into the bucket of `ik`, creating the bucket if it is
    /// missing.
    fn bucket_add(&mut self, ik: IK, key: K)
        requires
            old(self).wf(),
        ensures
            final(self).wf(),
            final(self).extract == old(self).extract,
            forall|x: <IK as DeepView>::V|
                #[trigger] final(self).view().contains_key(x) <==> old(
                    self,
                ).view().contains_key(x) || x == ik.deep_view(),
            forall|x: <IK as DeepView>::V|
                #[trigger] final(self).view().contains_key(x) && x != ik.deep_view()
                    ==> final(self).view()[x] == old(self).view()[x],
            forall|k2: <K as DeepView>::V|
                #[trigger] final(self).view()[ik.deep_view()].contains(k2) <==> (old(
                    self,
                ).view().contains_key(ik.deep_view()) && old(self).view()[ik.deep_view()].contains(
                    k2,
                )) || k2 == key.deep_view(),
    {
        let ghost ikdv = ik.deep_view();
        let ghost kdv = key.deep_view();
        match self.map.remove(&ik) {
            Some(mut bucket) => {
                proof {
                    assert(old(self).view().contains_key(ikdv));
                    assert(bucket.deep_view() == old(self).view()[ikdv]);
                }
                bucket.add(key);
                let ghost b2 = bucket.deep_view();
                self.map.insert(ik, bucket);
                proof {
                    assert(self.view() =~= old(self).view().remove(ikdv).insert(ikdv, b2));
                    assert(b2.contains(kdv));
                    assert(b2.len() >= 1);
                }
            },
            None => {
                let mut bucket = KeyVec::<K>::empty();
                proof {
                    assert(seq_sorted::<K>(bucket.key_seq()));
                }
                bucket.add(key);
                let ghost b2 = bucket.deep_view();
                self.map.insert(ik, bucket);
                proof {
                    assert(self.view() =~= old(self).view().insert(ikdv, b2));
                    assert(b2.contains(kdv));
                    assert(b2.len() >= 1);
                }
            },
        }
    }

    /// Takes `key` out of the bucket of `ik`, deleting the bucket when it
    /// becomes empty.
    fn bucket_drop(&mut self, ik: &IK, key: &K)
        requires
            old(self).wf(),
        ensures
            final(self).wf(),
            final(self).extract == old(self).extract,
            forall|x: <IK as DeepView>::V|
                #[trigger] final(self).view().contains_key(x) && x != ik.deep_view()
                    ==> old(self).view().contains_key(x) && final(self).view()[x] == old(
                    self,
                ).view()[x],
            forall|x: <IK as DeepView>::V|
                #[trigger] old(self).view().contains_key(x) && x != ik.deep_view()
                    ==> final(self).view().contains_key(x),
            final(self).view().contains_key(ik.deep_view()) <==> old(self).view().contains_key(
                ik.deep_view(),
            ) && (exists|k2: <K as DeepView>::V|
                #[trigger] old(self).view()[ik.deep_view()].contains(k2) && k2
                    != key.deep_view()),
            final(self).view().contains_key(ik.deep_view()) ==> forall|k2: <K as DeepView>::V|
                #[trigger] final(self).view()[ik.deep_view()].contains(k2) <==> old(
                    self,
                ).view()[ik.deep_view()].contains(k2) && k2 != key.deep_view(),
    {
        let ghost ikdv = ik.deep_view();
        let ghost kdv = key.deep_view();
        match self.map.remove(ik) {
            Some(mut bucket) => {
                proof {
                    assert(old(self).view().contains_key(ikdv));
                    assert(bucket.deep_view() == old(self).view()[ikdv]);
                }
                bucket.take_out(key);
                let ghost b2 = bucket.deep_view();
                if bucket.is_empty() {
                    proof {
                        assert(self.view() =~= old(self).view().remove(ikdv));
                        assert forall|k2: <K as DeepView>::V| !(#[trigger] old(
                            self,
                        ).view()[ikdv].contains(k2) && k2 != kdv) by {
                            if old(self).view()[ikdv].contains(k2) && k2 != kdv {
                                assert(b2.contains(k2));
                            }
                        }
                    }
                } else {
                    let ikc = ik.deep_clone();
                    self.map.insert(ikc, bucket);
                    proof {
                        assert(self.view() =~= old(self).view().remove(ikdv).insert(ikdv, b2));
                        assert(b2.len() >= 1);
                        assert(b2.contains(b2[0]));
                        assert(old(self).view()[ikdv].contains(b2[0]) && b2[0] != kdv);
                    }
                }
            },
            None => {
                proof {
                    assert(self.view() =~= old(self).view());
                }
            },
        }
    }

    /// Updates the index for an insert on the owner map: the key leaves
    /// the bucket of the replaced value, if any, and joins the bucket of
    /// the new one.
    pub fn on_insert(
        &mut self,
        Ghost(m): Ghost<Map<<K as DeepView>::V, <V as DeepView>::V>>,
        key: K,
        value: V,
        old_value: Option<V>,
    )
        requires
            old(self).wf(),
            old(self).consistent_with(m),
            match old_value {
                Some(o) => m.contains_key(key.deep_view()) && m[key.deep_view()]
                    == o.deep_view(),
                None => !m.contains_key(key.deep_view()),
            },
        ensures
            final(self).wf(),
            final(self).consistent_with(m.insert(key.deep_view(), value.deep_view())),
            forall|v: <V as DeepView>::V|
                #[trigger] final(self).key_of(v) == old(self).key_of(v),
    {
        let ghost kdv = key.deep_view();
        let ghost m1 = m.remove(kdv);
        match old_value {
            Some(o) => {
                let ik_old = self.extract.extract(&o);
                let kc = key.deep_clone();
                self.bucket_drop(&ik_old, &kc);
            },
            None => {},
        }
        let ghost mid = *self;
        proof {
            assert(mid.consistent_with(m1)) by {
                assert forall|k2: <K as DeepView>::V| #[trigger] m1.contains_key(k2) implies
                    mid.view().contains_key(mid.key_of(m1[k2])) && mid.view()[mid.key_of(
                    m1[k2],
                )].contains(k2) by {
                    assert(m.contains_key(k2) && k2 != kdv);
                    assert(self.view().contains_key(old(self).key_of(m[k2]))
                        && old(self).view()[old(self).key_of(m[k2])].contains(k2));
                    match old_value {
                        Some(o) => {
                            let iko = old(self).key_of(o.deep_view());
                            let ikk = old(self).key_of(m[k2]);
                            if ikk == iko {
                                assert(old(self).view()[iko].contains(k2) && k2 != kdv);
                            }
                        },
                        None => {},
                    }
                }
                assert forall|ik2: <IK as DeepView>::V, k2: <K as DeepView>::V| #[trigger]
                    mid.view().contains_key(ik2) && #[trigger] mid.view()[ik2].contains(
                    k2,
                ) implies m1.contains_key(k2) && mid.key_of(m1[k2]) == ik2 by {
                    match old_value {
                        Some(o) => {
                            let iko = old(self).key_of(o.deep_view());
                            if ik2 == iko {
                                assert(old(self).view()[iko].contains(k2) && k2 != kdv);
                            } else {
                                assert(old(self).view().contains_key(ik2) && old(
                                    self,
                                ).view()[ik2].contains(k2));
                                assert(m.contains_key(k2) && old(self).key_of(m[k2]) == ik2);
                                assert(k2 != kdv);
                            }
                        },
                        None => {
                            assert(old(self).view().contains_key(ik2) && old(
                                self,
                            ).view()[ik2].contains(k2));
                            assert(m.contains_key(k2) && old(self).key_of(m[k2]) == ik2);
                            assert(k2 != kdv);
                        },
                    }
                }
            }
        }
        let ik_new = self.extract.extract(&value);
        self.bucket_add(ik_new, key);
        proof {
            let vdv = value.deep_view();
            let ikn = mid.key_of(vdv);
            let m2 = m.insert(kdv, vdv);
            assert(m2 =~= m1.insert(kdv, vdv));
            assert forall|k2: <K as DeepView>::V| #[trigger] m2.contains_key(k2) implies
                self.view().contains_key(self.key_of(m2[k2])) && self.view()[self.key_of(
                m2[k2],
            )].contains(k2) by {
                if k2 == kdv {
                    assert(self.view()[ikn].contains(kdv));
                } else {
                    assert(m1.contains_key(k2));
                    assert(mid.view().contains_key(mid.key_of(m1[k2])) && mid.view()[mid.key_of(
                        m1[k2],
                    )].contains(k2));
                    let ik2 = mid.key_of(m1[k2]);
                    if ik2 == ikn {
                        assert(self.view()[ikn].contains(k2));
                    } else {
                        assert(mid.view().contains_key(ik2));
                        assert(self.view().contains_key(ik2));
                        assert(self.view()[ik2] == mid.view()[ik2]);
                    }
                }
            }
            assert forall|ik2: <IK as DeepView>::V, k2: <K as DeepView>::V| #[trigger]
                self.view().contains_key(ik2) && #[trigger] self.view()[ik2].contains(
                k2,
            ) implies m2.contains_key(k2) && self.key_of(m2[k2]) == ik2 by {
                if ik2 == ikn {
                    if k2 != kdv {
                        assert(mid.view().contains_key(ikn) && mid.view()[ikn].contains(k2));
                        assert(m1.contains_key(k2) && mid.key_of(m1[k2]) == ikn);
                    }
                } else {
                    assert(mid.view().contains_key(ik2) && mid.view()[ik2] == self.view()[ik2]);
                    assert(m1.contains_key(k2) && mid.key_of(m1[k2]) == ik2);
                    assert(k2 != kdv);
                }
            }
        }
    }

    /// Updates the index for a remove on the owner map: the key leaves
    /// the bucket of the removed value.
    pub fn on_remove(
        &mut self,
        Ghost(m): Ghost<Map<<K as DeepView>::V, <V as DeepView>::V>>,
        key: &K,
        old_value: &V,
    )
        requires
            old(self).wf(),
            old(self).consistent_with(m),
            m.contains_key(key.deep_view()),
            m[key.deep_view()] == old_value.deep_view(),
        ensures
            final(self).wf(),
            final(self).consistent_with(m.remove(key.deep_view())),
            forall|v: <V as DeepView>::V|
                #[trigger] final(self).key_of(v) == old(self).key_of(v),
    {
        let ghost kdv = key.deep_view();
        let ghost m1 = m.remove(kdv);
        let ik_old = self.extract.extract(old_value);
        self.bucket_drop(&ik_old, key);
        proof {
            let iko = old(self).key_of(old_value.deep_view());
            assert forall|k2: <K as DeepView>::V| #[trigger] m1.contains_key(k2) implies
                self.view().contains_key(self.key_of(m1[k2])) && self.view()[self.key_of(
                m1[k2],
            )].contains(k2) by {
                assert(m.contains_key(k2) && k2 != kdv);
                let ikk = old(self).key_of(m[k2]);
                assert(old(self).view().contains_key(ikk) && old(self).view()[ikk].contains(k2));
                if ikk == iko {
                    assert(old(self).view()[iko].contains(k2) && k2 != kdv);
                }
            }
            assert forall|ik2: <IK as DeepView>::V, k2: <K as DeepView>::V| #[trigger]
                self.view().contains_key(ik2) && #[trigger] self.view()[ik2].contains(
                k2,
            ) implies m1.contains_key(k2) && self.key_of(m1[k2]) == ik2 by {
                if ik2 == iko {
                    assert(old(self).view()[iko].contains(k2) && k2 != kdv);
                } else {
                    assert(old(self).view().contains_key(ik2) && old(self).view()[ik2].contains(
                        k2,
                    ));
                    assert(m.contains_key(k2) && old(self).key_of(m[k2]) == ik2);
                    assert(k2 != kdv);
                }
            }
        }
    }

    /// Builds an index over the entries of a live map by one pass,
    /// inserting every binding.
    pub fn build_from(entries: &Vec<(K, V)>, extract: E) -> (r: Self) where V: DeepClone
        requires
            entries_distinct(entries@),
        ensures
            r.wf(),
            r.consistent_with(entries_map(entries@)),
            forall|v: <V as DeepView>::V| #[trigger] r.key_of(v) == extract.key_spec(v),
    {
        let mut r = Self::new(extract);
        let mut i: usize = 0;
        while i < entries.len()
            invariant
                i <= entries@.len(),
                entries_distinct(entries@),
                r.wf(),
                r.consistent_with(entries_map(entries@.take(i as int))),
                forall|v: <V as DeepView>::V| #[trigger] r.key_of(v) == extract.key_spec(v),
            decreases entries@.len() - i,
        {
            let ghost m0 = entries_map(entries@.take(i as int));
            let k = entries[i].0.deep_clone();
            let v = entries[i].1.deep_clone();
            proof {
                // the key is new: entries are distinct
                if m0.contains_key(k.deep_view()) {
                    let j = choose|j: int|
                        0 <= j < i && (#[trigger] entries@.take(i as int)[j].0.deep_view())
                            == k.deep_view();
                    assert(entries@[j].0.deep_view() == entries@[i as int].0.deep_view());
                    assert(false);
                }
            }
            r.on_insert(Ghost(m0), k, v, None);
            i += 1;
            proof {
                crate::map_trait::lemma_entries_map_take_step(entries@, i as int - 1);
            }
        }
        proof {
            assert(entries@.take(entries@.len() as int) =~= entries@);
        }
        r
    }

    /// The bucket laws the index maintains: every live bucket is a
    /// strictly ascending key sequence and is never empty.
    pub proof fn lemma_buckets(&self)
        requires
            self.wf(),
        ensures
            forall|ik: <IK as DeepView>::V|
                #[trigger] self.view().contains_key(ik) ==> seq_sorted::<K>(self.view()[ik])
                    && self.view()[ik].len() >= 1,
    {
    }

    /// The owner's keys under a derived key, ascending, each exactly
    /// once; empty if there is no such bucket.  The index is not
    /// changed.
    pub fn get(&self, key: &IK) -> (r: Vec<K>)
        requires
            self.wf(),
        ensures
            self.view().contains_key(key.deep_view()) ==> {
                &&& r@.map_values(|k: K| k.deep_view()) == self.view()[key.deep_view()]
                &&& seq_sorted::<K>(r@.map_values(|k: K| k.deep_view()))
                &&& r@.len() >= 1
            },
            !self.view().contains_key(key.deep_view()) ==> r@.len() == 0,
    {
        match self.map.get(key) {
            Some(bucket) => bucket.to_vec(),
            None => Vec::new(),
        }
    }

    /// The number of live buckets: one per derived key under which some
    /// owner key currently stands.
    pub fn len(&self) -> (r: usize)
        requires
            self.wf(),
        ensures
            self.view().dom().finite(),
            r as int == self.view().dom().len(),
    {
        self.map.len()
    }

    /// Whether the index holds no bucket at all.
    pub fn is_empty(&self) -> (r: bool)
        requires
            self.wf(),
        ensures
            r == (self.view() == Map::<
                <IK as DeepView>::V,
                Seq<<K as DeepView>::V>,
            >::empty()),
    {
        self.map.is_empty()
    }
}

} // verus!
