//! A map kept as a vector of key-value pairs in strictly increasing key order.
//!
//! A key stands for its view: the map's view binds the views of the keys, so
//! that a key that owns its text, such as a `String`, is found by any key of the
//! same text.

use vstd::prelude::*;
use crate::total_ord::{
    compare_text, lemma_asymmetric, lemma_equal_iff_same, lemma_text_connected,
    lemma_text_irreflexive, Order, TotalOrd,
};

verus! {

/// The keys of `a` are strictly increasing.
pub open spec fn sorted<K: TotalOrd, V>(a: Seq<(K, V)>) -> bool {
    forall|i: int, j: int| 0 <= i < j < a.len() ==> (#[trigger] a[i]).0.precedes(&(#[trigger] a[j]).0)
}

/// Some pair of `a` has a key of the view `k`.
pub open spec fn has_key<K: View, V>(a: Seq<(K, V)>, k: K::V) -> bool {
    exists|i: int| 0 <= i < a.len() && (#[trigger] a[i]).0@ == k
}

/// A position of `a` that holds a key of the view `k`, where there is one.
pub open spec fn index_of<K: View, V>(a: Seq<(K, V)>, k: K::V) -> int {
    choose|i: int| 0 <= i < a.len() && (#[trigger] a[i]).0@ == k
}

/// The map that a sequence of pairs stands for: from the views of the keys to
/// the values.
pub open spec fn as_map<K: View, V>(a: Seq<(K, V)>) -> Map<K::V, V> {
    Map::new(|k: K::V| has_key(a, k), |k: K::V| a[index_of(a, k)].1)
}

/// The first position of `a` whose key does not precede `key`.
pub open spec fn is_lower_bound<K: TotalOrd, V>(a: Seq<(K, V)>, key: K, r: int) -> bool {
    &&& 0 <= r <= a.len()
    &&& forall|i: int| 0 <= i < r ==> (#[trigger] a[i]).0.precedes(&key)
    &&& forall|i: int| r <= i < a.len() ==> !(#[trigger] a[i]).0.precedes(&key)
}

/// In a sorted sequence every key stands at one position only, and the map
/// gives each key the value beside it.
pub proof fn lemma_sorted_lookup<K: TotalOrd, V>(a: Seq<(K, V)>, i: int)
    requires
        sorted(a),
        0 <= i < a.len(),
    ensures
        has_key(a, a[i].0@),
        index_of(a, a[i].0@) == i,
        as_map(a).contains_key(a[i].0@),
        as_map(a)[a[i].0@] == a[i].1,
{
    let k = a[i].0@;
    let j = index_of(a, k);
    assert(0 <= j < a.len() && a[j].0@ == k);
    if j < i {
        assert(a[j].0.precedes(&a[i].0));
        K::lemma_irreflexive(&a[j].0, &a[i].0);
    } else if i < j {
        assert(a[i].0.precedes(&a[j].0));
        K::lemma_irreflexive(&a[i].0, &a[j].0);
    }
}

/// Where the lower bound of `key` holds `key`, the key is present; elsewhere it
/// is absent.
pub proof fn lemma_lower_bound_decides<K: TotalOrd, V>(a: Seq<(K, V)>, key: K, r: int)
    requires
        sorted(a),
        is_lower_bound(a, key, r),
    ensures
        has_key(a, key@) <==> (r < a.len() && a[r].0@ == key@),
        has_key(a, key@) ==> index_of(a, key@) == r,
{
    if has_key(a, key@) {
        let j = index_of(a, key@);
        assert(0 <= j < a.len() && a[j].0@ == key@);
        if j < r {
            assert(a[j].0.precedes(&key));
            K::lemma_irreflexive(&a[j].0, &key);
        } else if r < j {
            assert(a[r].0.precedes(&a[j].0));
            assert(!a[r].0.precedes(&key));
            K::lemma_connected(&a[r].0, &key);
            if key.precedes(&a[r].0) {
                K::lemma_transitive(&key, &a[r].0, &a[j].0);
                K::lemma_irreflexive(&key, &a[j].0);
            } else {
                K::lemma_irreflexive(&a[r].0, &a[j].0);
            }
        }
        lemma_sorted_lookup(a, r);
    }
}

/// Putting an absent key at its lower bound keeps the order and adds one
/// binding to the map.
pub proof fn lemma_insert_at_lower_bound<K: TotalOrd, V>(a: Seq<(K, V)>, key: K, value: V, r: int)
    requires
        sorted(a),
        is_lower_bound(a, key, r),
        !has_key(a, key@),
    ensures
        sorted(a.insert(r, (key, value))),
        as_map(a.insert(r, (key, value))) =~= as_map(a).insert(key@, value),
{
    let b = a.insert(r, (key, value));
    assert forall|i: int, j: int| 0 <= i < j < b.len() implies (#[trigger] b[i]).0.precedes(
        &(#[trigger] b[j]).0,
    ) by {
        if j == r {
            assert(b[i] == a[i]);
        } else if i == r {
            assert(b[j] == a[j - 1]);
            K::lemma_connected(&a[j - 1].0, &key);
            assert(a[j - 1].0@ != key@);
        } else {
            let ia = if i < r { i } else { i - 1 };
            let ja = if j < r { j } else { j - 1 };
            assert(b[i] == a[ia] && b[j] == a[ja]);
        }
    }
    assert forall|k: K::V| has_key(b, k) <==> (k == key@ || has_key(a, k)) by {
        if has_key(b, k) {
            let j = index_of(b, k);
            if j < r {
                assert(b[j] == a[j]);
            } else if j > r {
                assert(b[j] == a[j - 1]);
            }
        }
        if k == key@ {
            assert(b[r].0@ == key@);
        }
        if has_key(a, k) {
            let j = index_of(a, k);
            if j < r {
                assert(b[j] == a[j]);
            } else {
                assert(b[j + 1] == a[j]);
            }
        }
    }
    assert forall|k: K::V| has_key(b, k) implies #[trigger] as_map(b)[k] == as_map(a).insert(
        key@,
        value,
    )[k] by {
        let j = index_of(b, k);
        lemma_sorted_lookup(b, j);
        if j < r {
            assert(b[j] == a[j]);
            lemma_sorted_lookup(a, j);
        } else if j > r {
            assert(b[j] == a[j - 1]);
            lemma_sorted_lookup(a, j - 1);
        }
    }
}

/// Changing the value at one position keeps the order and rebinds that key.
pub proof fn lemma_update_value<K: TotalOrd, V>(a: Seq<(K, V)>, i: int, value: V)
    requires
        sorted(a),
        0 <= i < a.len(),
    ensures
        sorted(a.update(i, (a[i].0, value))),
        as_map(a.update(i, (a[i].0, value))) =~= as_map(a).insert(a[i].0@, value),
{
    let b = a.update(i, (a[i].0, value));
    assert forall|x: int, y: int| 0 <= x < y < b.len() implies (#[trigger] b[x]).0.precedes(
        &(#[trigger] b[y]).0,
    ) by {
        assert(b[x].0 == a[x].0 && b[y].0 == a[y].0);
    }
    assert forall|k: K::V| has_key(b, k) <==> has_key(a, k) by {
        if has_key(b, k) {
            let j = index_of(b, k);
            assert(a[j].0@ == k);
        }
        if has_key(a, k) {
            let j = index_of(a, k);
            assert(b[j].0@ == k);
        }
    }
    lemma_sorted_lookup(a, i);
    assert forall|k: K::V| has_key(b, k) implies #[trigger] as_map(b)[k] == as_map(a).insert(
        a[i].0@,
        value,
    )[k] by {
        let j = index_of(b, k);
        lemma_sorted_lookup(b, j);
        if j != i {
            assert(b[j] == a[j]);
            lemma_sorted_lookup(a, j);
        }
    }
}

/// Taking one position out keeps the order and unbinds that key.
pub proof fn lemma_remove_at<K: TotalOrd, V>(a: Seq<(K, V)>, i: int)
    requires
        sorted(a),
        0 <= i < a.len(),
    ensures
        sorted(a.remove(i)),
        as_map(a.remove(i)) =~= as_map(a).remove(a[i].0@),
{
    let b = a.remove(i);
    assert forall|x: int, y: int| 0 <= x < y < b.len() implies (#[trigger] b[x]).0.precedes(
        &(#[trigger] b[y]).0,
    ) by {
        let xa = if x < i { x } else { x + 1 };
        let ya = if y < i { y } else { y + 1 };
        assert(b[x] == a[xa] && b[y] == a[ya]);
    }
    lemma_sorted_lookup(a, i);
    assert forall|k: K::V| has_key(b, k) <==> (k != a[i].0@ && has_key(a, k)) by {
        if has_key(b, k) {
            let j = index_of(b, k);
            let ja = if j < i { j } else { j + 1 };
            assert(b[j] == a[ja]);
            lemma_sorted_lookup(a, ja);
        }
        if k != a[i].0@ && has_key(a, k) {
            let j = index_of(a, k);
            if j < i {
                assert(b[j] == a[j]);
            } else {
                assert(b[j - 1] == a[j]);
            }
        }
    }
    assert forall|k: K::V| has_key(b, k) implies #[trigger] as_map(b)[k] == as_map(a)[k] by {
        let j = index_of(b, k);
        lemma_sorted_lookup(b, j);
        let ja = if j < i { j } else { j + 1 };
        assert(b[j] == a[ja]);
        lemma_sorted_lookup(a, ja);
    }
}

/// A sorted sequence of pairs stands for a finite map of as many bindings as it
/// has pairs.
pub proof fn lemma_as_many_bindings<K: TotalOrd, V>(a: Seq<(K, V)>)
    requires
        sorted(a),
    ensures
        as_map(a).dom().finite(),
        as_map(a).dom().len() == a.len(),
    decreases a.len(),
{
    if a.len() == 0 {
        assert(as_map(a).dom() =~= Set::<K::V>::empty());
    } else {
        let i = a.len() - 1;
        let rest = a.remove(i);
        lemma_remove_at(a, i);
        lemma_as_many_bindings(rest);
        lemma_sorted_lookup(a, i);
        assert(as_map(a).dom() =~= as_map(rest).dom().insert(a[i].0@));
        assert(!as_map(rest).dom().contains(a[i].0@));
    }
}

/// The first position of the sorted slice `a` whose key does not precede `key`;
/// the length of `a` where every key precedes it.
pub fn lower_bound_index<K: TotalOrd, V>(a: &[(K, V)], key: &K) -> (first: usize)
    requires
        sorted(a@),
    ensures
        is_lower_bound(a@, *key, first as int),
{
    let mut count: usize = a.len();
    let mut first: usize = 0;
    while count > 0
        invariant
            sorted(a@),
            first + count <= a.len(),
            forall|i: int| 0 <= i < first ==> (#[trigger] a@[i]).0.precedes(key),
            forall|i: int| first + count <= i < a.len() ==> !(#[trigger] a@[i]).0.precedes(key),
        decreases count,
    {
        let step: usize = count / 2;
        let it: usize = first + step;
        match a[it].0.compare(key) {
            Order::Less => {
                proof {
                    assert forall|i: int| 0 <= i < it + 1 implies (#[trigger] a@[i]).0.precedes(
                        key,
                    ) by {
                        if i < it {
                            K::lemma_transitive(&a@[i].0, &a@[it as int].0, key);
                        }
                    }
                }
                first = it + 1;
                count = count - (step + 1);
            },
            _ => {
                proof {
                    assert forall|i: int| it <= i < a.len() implies !(#[trigger] a@[i]).0.precedes(
                        key,
                    ) by {
                        if it < i && a@[i].0.precedes(key) {
                            K::lemma_transitive(&a@[it as int].0, &a@[i].0, key);
                        }
                    }
                }
                count = step;
            },
        }
    }
    first
}

/// `Vec::capacity`: how many elements the vector can hold before it has to
/// reallocate. Claimed of it: that this is no less than its length.
#[verifier::external_body]
fn vec_capacity<T>(v: &Vec<T>) -> (n: usize)
    ensures
        n >= v@.len(),
{
    v.capacity()
}

/// A mutable borrow of the value of the pair at position `i`.
fn value_mut<K, V>(data: &mut Vec<(K, V)>, i: usize) -> (r: &mut V)
    requires
        i < old(data).len(),
    ensures
        *r == old(data)@[i as int].1,
        final(data)@ == old(data)@.update(i as int, (old(data)@[i as int].0, *final(r))),
{
    &mut data[i].1
}

/// A map from keys to values, stored as pairs in strictly increasing key order.
#[derive(Clone, Debug)]
pub struct FlatMap<K, V> {
    data: Vec<(K, V)>,
}

impl<K: TotalOrd, V> View for FlatMap<K, V> {
    type V = Map<K::V, V>;

    closed spec fn view(&self) -> Map<K::V, V> {
        as_map(self.data@)
    }
}

impl<K: TotalOrd, V> FlatMap<K, V> {
    /// The pairs in the order in which they are stored.
    pub closed spec fn entries(&self) -> Seq<(K, V)> {
        self.data@
    }

    /// The stored pairs are in strictly increasing key order.
    pub closed spec fn wf(&self) -> bool {
        sorted(self.data@)
    }

    /// The map is the one that the stored pairs stand for.
    pub proof fn lemma_view_of_entries(&self)
        ensures
            self@ == as_map(self.entries()),
            self.wf() == sorted(self.entries()),
    {
    }

    /// Creates an empty map.
    pub fn new() -> (m: Self)
        ensures
            m.wf(),
            m.entries() == Seq::<(K, V)>::empty(),
            m@ == Map::<K::V, V>::empty(),
    {
        let m = FlatMap { data: Vec::new() };
        assert(m@ =~= Map::<K::V, V>::empty());
        m
    }

    /// Creates an empty map with room for at least `capacity` pairs.
    pub fn with_capacity(capacity: usize) -> (m: Self)
        ensures
            m.wf(),
            m.entries() == Seq::<(K, V)>::empty(),
            m@ == Map::<K::V, V>::empty(),
    {
        let m = FlatMap { data: Vec::with_capacity(capacity) };
        assert(m@ =~= Map::<K::V, V>::empty());
        m
    }

    /// The number of pairs that the map has room for without growing.
    pub fn capacity(&self) -> (n: usize)
        ensures
            n >= self.entries().len(),
    {
        vec_capacity(&self.data)
    }

    /// The number of pairs in the map.
    pub fn len(&self) -> (n: usize)
        ensures
            n == self.entries().len(),
            self.wf() ==> n == self@.len(),
    {
        proof {
            if self.wf() {
                lemma_as_many_bindings(self.data@);
            }
        }
        self.data.len()
    }

    /// Whether the map holds no pair.
    pub fn is_empty(&self) -> (b: bool)
        ensures
            b == (self.entries().len() == 0),
            self.wf() ==> b == (self@.len() == 0),
    {
        proof {
            if self.wf() {
                lemma_as_many_bindings(self.data@);
            }
        }
        self.data.len() == 0
    }

    /// Removes every pair.
    pub fn clear(&mut self)
        ensures
            final(self).wf(),
            final(self).entries() == Seq::<(K, V)>::empty(),
            final(self)@ == Map::<K::V, V>::empty(),
    {
        self.data.clear();
        assert(self@ =~= Map::<K::V, V>::empty());
    }

    /// The lower bound of `key` among the stored pairs, and whether `key` stands
    /// there.
    fn locate(&self, key: &K) -> (r: (usize, bool))
        requires
            self.wf(),
        ensures
            is_lower_bound(self.entries(), *key, r.0 as int),
            r.1 == self@.contains_key(key@),
            r.1 == has_key(self.entries(), key@),
            r.1 ==> r.0 < self.entries().len() && self.entries()[r.0 as int].0@ == key@
                && self@[key@] == self.entries()[r.0 as int].1,
    {
        let idx = lower_bound_index(self.data.as_slice(), key);
        proof {
            lemma_lower_bound_decides(self.data@, *key, idx as int);
        }
        if idx < self.data.len() {
            proof {
                lemma_equal_iff_same(&self.data@[idx as int].0, key);
                lemma_sorted_lookup(self.data@, idx as int);
            }
            match self.data[idx].0.compare(key) {
                Order::Equal => (idx, true),
                _ => (idx, false),
            }
        } else {
            (idx, false)
        }
    }

    /// The value bound to `key`, if there is one.
    pub fn find(&self, key: &K) -> (r: Option<&V>)
        requires
            self.wf(),
        ensures
            r == (if self@.contains_key(key@) {
                Some(&self@[key@])
            } else {
                None
            }),
    {
        let (idx, found) = self.locate(key);
        if found {
            Some(&self.data[idx].1)
        } else {
            None
        }
    }

    /// Whether `key` is bound.
    pub fn contains_key(&self, key: &K) -> (b: bool)
        requires
            self.wf(),
        ensures
            b == self@.contains_key(key@),
    {
        match self.find(key) {
            Some(_) => true,
            None => false,
        }
    }

    /// The value bound to `key`, which has to be present.
    pub fn get(&self, k: &K) -> (v: &V)
        requires
            self.wf(),
            self@.contains_key(k@),
        ensures
            *v == self@[k@],
    {
        match self.find(k) {
            Some(v) => v,
            None => {
                proof {
                    assert(false);
                }
                vstd::pervasive::unreached()
            },
        }
    }

    /// A mutable borrow of the value bound to `key`, if there is one.
    pub fn find_mut(&mut self, key: &K) -> (r: Option<&mut V>)
        requires
            old(self).wf(),
        ensures
            match r {
                Some(v) => old(self)@.contains_key(key@) && *v == old(self)@[key@]
                    && final(self).wf()
                    && final(self)@ == old(self)@.insert(key@, *final(v)),
                None => !old(self)@.contains_key(key@) && *final(self) == *old(self),
            },
    {
        let (idx, found) = self.locate(key);
        if found {
            proof {
                assert forall|v: V|
                    sorted(#[trigger] self.data@.update(idx as int, (self.data@[idx as int].0, v)))
                    && as_map(self.data@.update(idx as int, (self.data@[idx as int].0, v)))
                        == as_map(self.data@).insert(key@, v) by {
                    lemma_update_value(self.data@, idx as int, v);
                }
            }
            Some(value_mut(&mut self.data, idx))
        } else {
            None
        }
    }

    /// The value bound to `key`, which has to be present, borrowed mutably.
    pub fn get_mut(&mut self, k: &K) -> (v: &mut V)
        requires
            old(self).wf(),
            old(self)@.contains_key(k@),
        ensures
            *v == old(self)@[k@],
            final(self).wf(),
            final(self)@ == old(self)@.insert(k@, *final(v)),
    {
        let (idx, found) = self.locate(k);
        proof {
            assert forall|v: V|
                sorted(#[trigger] self.data@.update(idx as int, (self.data@[idx as int].0, v)))
                && as_map(self.data@.update(idx as int, (self.data@[idx as int].0, v)))
                    == as_map(self.data@).insert(k@, v) by {
                lemma_update_value(self.data@, idx as int, v);
            }
        }
        value_mut(&mut self.data, idx)
    }

    /// Where `k` is bound, lets `found` change its value; where it is not, binds
    /// it to what `not_found` makes. Returns the value that `k` is then bound to.
    pub fn mangle<A, NF: FnOnce(&K, A) -> V, F: FnOnce(&K, &mut V, A)>(
        &mut self,
        k: K,
        a: A,
        not_found: NF,
        found: F,
    ) -> (r: &mut V)
        requires
            old(self).wf(),
            old(self)@.contains_key(k@) ==> forall|b: &mut V|
                *b == old(self)@[k@] ==> #[trigger] found.requires((&k, b, a)),
            !old(self)@.contains_key(k@) ==> not_found.requires((&k, a)),
        ensures
            final(self).wf(),
            final(self)@ == old(self)@.insert(k@, *final(r)),
            old(self)@.contains_key(k@) ==> exists|b: &mut V|
                *b == old(self)@[k@] && *final(b) == *r && #[trigger] found.ensures((&k, b, a), ()),
            !old(self)@.contains_key(k@) ==> not_found.ensures((&k, a), *r),
    {
        let (idx, present) = self.locate(&k);
        if present {
            let val = value_mut(&mut self.data, idx);
            found(&k, val, a);
            proof {
                assert forall|v: V|
                    sorted(
                        #[trigger] old(self).data@.update(
                            idx as int,
                            (old(self).data@[idx as int].0, v),
                        ),
                    ) && as_map(
                        old(self).data@.update(idx as int, (old(self).data@[idx as int].0, v)),
                    ) == as_map(old(self).data@).insert(k@, v) by {
                    lemma_update_value(old(self).data@, idx as int, v);
                }
            }
            val
        } else {
            let v = not_found(&k, a);
            proof {
                lemma_insert_at_lower_bound(self.data@, k, v, idx as int);
                let b = self.data@.insert(idx as int, (k, v));
                assert forall|w: V|
                    sorted(#[trigger] b.update(idx as int, (b[idx as int].0, w))) && as_map(
                        b.update(idx as int, (b[idx as int].0, w)),
                    ) == as_map(self.data@).insert(k@, w) by {
                    lemma_update_value(b, idx as int, w);
                    assert(as_map(self.data@).insert(k@, v).insert(k@, w) =~= as_map(
                        self.data@,
                    ).insert(k@, w));
                }
            }
            self.data.insert(idx, (k, v));
            value_mut(&mut self.data, idx)
        }
    }

    /// The value bound to `k`, after binding `k` to `v` where it was not bound.
    pub fn find_or_insert(&mut self, k: K, v: V) -> (r: &mut V)
        requires
            old(self).wf(),
        ensures
            final(self).wf(),
            final(self)@ == old(self)@.insert(k@, *final(r)),
            *r == (if old(self)@.contains_key(k@) {
                old(self)@[k@]
            } else {
                v
            }),
    {
        let keep = |_k: &K, a: V| -> (made: V)
            ensures
                made == a,
            {
                a
            };
        let leave = |_k: &K, _v: &mut V, _a: V|
            ensures
                *final(_v) == *old(_v),
            {
            };
        self.mangle(k, v, keep, leave)
    }

    /// The value bound to `k`, after binding `k` to what `f` makes of it where
    /// it was not bound.
    pub fn find_or_insert_with<F: FnOnce(&K) -> V>(&mut self, k: K, f: F) -> (r: &mut V)
        requires
            old(self).wf(),
            !old(self)@.contains_key(k@) ==> f.requires((&k,)),
        ensures
            final(self).wf(),
            final(self)@ == old(self)@.insert(k@, *final(r)),
            old(self)@.contains_key(k@) ==> *r == old(self)@[k@],
            !old(self)@.contains_key(k@) ==> f.ensures((&k,), *r),
    {
        let make = |kk: &K, _a: ()| -> (made: V)
            requires
                f.requires((kk,)),
            ensures
                f.ensures((kk,), made),
            {
                f(kk)
            };
        let leave = |_k: &K, _v: &mut V, _a: ()|
            ensures
                *final(_v) == *old(_v),
            {
            };
        self.mangle(k, (), make, leave)
    }

    /// Binds `k` to `v` where it was not bound, and lets `f` change its value
    /// where it was. Returns the value that `k` is then bound to.
    pub fn insert_or_update_with<F: FnOnce(&K, &mut V)>(&mut self, k: K, v: V, f: F) -> (r: &mut V)
        requires
            old(self).wf(),
            old(self)@.contains_key(k@) ==> forall|b: &mut V|
                *b == old(self)@[k@] ==> #[trigger] f.requires((&k, b)),
        ensures
            final(self).wf(),
            final(self)@ == old(self)@.insert(k@, *final(r)),
            old(self)@.contains_key(k@) ==> exists|b: &mut V|
                *b == old(self)@[k@] && *final(b) == *r && #[trigger] f.ensures((&k, b), ()),
            !old(self)@.contains_key(k@) ==> *r == v,
    {
        let keep = |_k: &K, a: V| -> (made: V)
            ensures
                made == a,
            {
                a
            };
        let update = |kk: &K, vv: &mut V, _a: V|
            requires
                forall|b: &mut V| *b == *old(vv) ==> #[trigger] f.requires((kk, b)),
            ensures
                exists|b: &mut V|
                    *b == *old(vv) && *final(b) == *final(vv) && #[trigger] f.ensures((kk, b), ()),
            {
                f(kk, vv)
            };
        self.mangle(k, v, keep, update)
    }

    /// Binds `k` to `v` and returns the value that `k` was bound to before.
    pub fn swap(&mut self, k: K, v: V) -> (r: Option<V>)
        requires
            old(self).wf(),
        ensures
            final(self).wf(),
            final(self)@ == old(self)@.insert(k@, v),
            r == (if old(self)@.contains_key(k@) {
                Some(old(self)@[k@])
            } else {
                None
            }),
    {
        let (idx, found) = self.locate(&k);
        if found {
            proof {
                lemma_update_value(self.data@, idx as int, v);
            }
            let mut given = v;
            std::mem::swap(&mut given, value_mut(&mut self.data, idx));
            Some(given)
        } else {
            proof {
                lemma_insert_at_lower_bound(self.data@, k, v, idx as int);
            }
            self.data.insert(idx, (k, v));
            None
        }
    }

    /// Binds `k` to `v`; true where `k` was not bound before.
    pub fn insert(&mut self, k: K, v: V) -> (fresh: bool)
        requires
            old(self).wf(),
        ensures
            final(self).wf(),
            final(self)@ == old(self)@.insert(k@, v),
            fresh == !old(self)@.contains_key(k@),
    {
        match self.swap(k, v) {
            Some(_) => false,
            None => true,
        }
    }

    /// Unbinds `key` and returns the value that it was bound to.
    pub fn pop(&mut self, key: &K) -> (r: Option<V>)
        requires
            old(self).wf(),
        ensures
            final(self).wf(),
            final(self)@ == old(self)@.remove(key@),
            r == (if old(self)@.contains_key(key@) {
                Some(old(self)@[key@])
            } else {
                None
            }),
    {
        let (idx, found) = self.locate(key);
        if found {
            proof {
                lemma_remove_at(self.data@, idx as int);
            }
            let pair = self.data.remove(idx);
            Some(pair.1)
        } else {
            assert(self@ =~= self@.remove(key@));
            None
        }
    }

    /// Unbinds `key`; true where it was bound.
    pub fn remove(&mut self, key: &K) -> (found: bool)
        requires
            old(self).wf(),
        ensures
            final(self).wf(),
            final(self)@ == old(self)@.remove(key@),
            found == old(self)@.contains_key(key@),
    {
        match self.pop(key) {
            Some(_) => true,
            None => false,
        }
    }

    /// The value of the first pair, in key order, whose key `key` is equivalent
    /// to.
    pub fn find_equiv<Q: Equiv<K>>(&self, key: &Q) -> (r: Option<&V>)
        ensures
            match r {
                Some(v) => first_equiv(self.entries(), key, 0) == Some(*v),
                None => first_equiv(self.entries(), key, 0).is_none(),
            },
    {
        let mut i: usize = 0;
        while i < self.data.len()
            invariant
                i <= self.data@.len(),
                first_equiv(self.data@, key, 0) == first_equiv(self.data@, key, i as int),
            decreases self.data@.len() - i,
        {
            if key.equiv(&self.data[i].0) {
                return Some(&self.data[i].1);
            }
            i = i + 1;
        }
        None
    }

    /// An iterator over the pairs in key order.
    pub fn iter(&self) -> (it: FlatMapIterator<'_, K, V>)
        ensures
            it.remaining() == self.entries(),
            it.given() == Seq::<(K, V)>::empty(),
    {
        let it = FlatMapIterator { data: self.data.as_slice(), pos: 0 };
        assert(it.remaining() =~= self.entries());
        assert(it.given() =~= Seq::<(K, V)>::empty());
        it
    }

    /// A cursor at the first pair of the map, by which the values can be changed
    /// one after the other, in key order.
    pub fn mut_iter(&mut self) -> (it: FlatMapMutIterator)
        ensures
            it.position() == 0,
            *final(self) == *old(self),
    {
        FlatMapMutIterator { pos: 0 }
    }

    /// An iterator that moves the pairs out of the map, the one with the
    /// greatest key first.
    pub fn move_iter(self) -> (it: FlatMapMoveIterator<K, V>)
        ensures
            it.remaining() == self.entries().reverse(),
    {
        FlatMapMoveIterator { data: self.data }
    }

    /// A map of the pairs of `pairs`: a later pair replaces an earlier one of
    /// the same key.
    pub fn from_iterator(pairs: Vec<(K, V)>) -> (m: Self)
        ensures
            m.wf(),
            m@ == with_all(Map::<K::V, V>::empty(), pairs@),
    {
        let mut map = FlatMap::with_capacity(pairs.len());
        map.extend(pairs);
        map
    }

    /// Binds every key of `pairs` to its value, in the order of `pairs`.
    pub fn extend(&mut self, pairs: Vec<(K, V)>)
        requires
            old(self).wf(),
        ensures
            final(self).wf(),
            final(self)@ == with_all(old(self)@, pairs@),
    {
        let ghost all = pairs@;
        for pair in iter: pairs
            invariant
                self.wf(),
                iter.seq() == all,
                self@ == with_all(old(self)@, all.take(iter.index() as int)),
        {
            proof {
                let done = iter.index() as int;
                assert(all.take(done + 1).drop_last() =~= all.take(done));
            }
            self.insert(pair.0, pair.1);
        }
        proof {
            assert(all.take(all.len() as int) =~= all);
        }
    }
}

/// The map `m` after binding every key of `pairs` to its value, in the order of
/// `pairs`.
pub open spec fn with_all<K: View, V>(m: Map<K::V, V>, pairs: Seq<(K, V)>) -> Map<K::V, V>
    decreases pairs.len(),
{
    if pairs.len() == 0 {
        m
    } else {
        with_all(m, pairs.drop_last()).insert(pairs.last().0@, pairs.last().1)
    }
}

/// The value of the first pair of `a`, from position `from` on, whose key `key`
/// is equivalent to.
pub open spec fn first_equiv<K, V, Q: Equiv<K>>(a: Seq<(K, V)>, key: &Q, from: int) -> Option<V>
    decreases a.len() - from,
{
    if from < 0 || from >= a.len() {
        None
    } else if key.equiv_spec(&a[from].0) {
        Some(a[from].1)
    } else {
        first_equiv(a, key, from + 1)
    }
}

/// A relation between the values of one type and the keys of a map, by which
/// a key can be looked for without a key of the map's own type at hand.
pub trait Equiv<K> {
    /// `self` stands for the key `other`.
    spec fn equiv_spec(&self, other: &K) -> bool;

    fn equiv(&self, other: &K) -> (b: bool)
        ensures
            b == self.equiv_spec(other),
    ;
}

impl<'a> Equiv<String> for &'a str {
    open spec fn equiv_spec(&self, other: &String) -> bool {
        self@ == other@
    }

    fn equiv(&self, other: &String) -> (b: bool) {
        proof {
            lemma_text_connected(self@, other@, 0);
            lemma_text_irreflexive(self@, 0);
        }
        match compare_text(*self, other.as_str()) {
            Order::Equal => true,
            _ => false,
        }
    }
}

impl Equiv<u64> for u32 {
    open spec fn equiv_spec(&self, other: &u64) -> bool {
        *self as u64 == *other
    }

    fn equiv(&self, other: &u64) -> (b: bool) {
        *self as u64 == *other
    }
}

impl Equiv<i64> for i32 {
    open spec fn equiv_spec(&self, other: &i64) -> bool {
        *self as i64 == *other
    }

    fn equiv(&self, other: &i64) -> (b: bool) {
        *self as i64 == *other
    }
}

impl Equiv<u32> for char {
    open spec fn equiv_spec(&self, other: &u32) -> bool {
        *self as u32 == *other
    }

    fn equiv(&self, other: &u32) -> (b: bool) {
        *self as u32 == *other
    }
}

/// An iterator over the pairs of a map in key order.
pub struct FlatMapIterator<'a, K, V> {
    data: &'a [(K, V)],
    pos: usize,
}

impl<'a, K, V> FlatMapIterator<'a, K, V> {
    #[verifier::type_invariant]
    spec fn within(self) -> bool {
        self.pos <= self.data@.len()
    }

    /// The pairs that the iterator has yet to give, in the order in which it
    /// gives them.
    pub closed spec fn remaining(&self) -> Seq<(K, V)> {
        self.data@.skip(self.pos as int)
    }

    /// The pairs that the iterator has given, in the order in which it gave
    /// them.
    pub closed spec fn given(&self) -> Seq<(K, V)> {
        self.data@.take(self.pos as int)
    }

    /// The next pair, by reference.
    pub fn next(&mut self) -> (r: Option<(&'a K, &'a V)>)
        ensures
            match r {
                Some(pair) => {
                    &&& old(self).remaining().len() > 0
                    &&& *pair.0 == old(self).remaining()[0].0
                    &&& *pair.1 == old(self).remaining()[0].1
                    &&& final(self).remaining() == old(self).remaining().skip(1)
                    &&& final(self).given() == old(self).given().push(old(self).remaining()[0])
                },
                None => {
                    &&& old(self).remaining().len() == 0
                    &&& final(self).remaining() == old(self).remaining()
                    &&& final(self).given() == old(self).given()
                },
            },
    {
        proof {
            use_type_invariant(&*self);
        }
        if self.pos < self.data.len() {
            let pair = &self.data[self.pos];
            self.pos = self.pos + 1;
            proof {
                assert(self.remaining() =~= old(self).remaining().skip(1));
                assert(self.given() =~= old(self).given().push(old(self).remaining()[0]));
            }
            Some((&pair.0, &pair.1))
        } else {
            None
        }
    }

    /// The number of pairs that the iterator has yet to give, as a lower and an
    /// upper bound.
    pub fn size_hint(&self) -> (r: (usize, Option<usize>))
        ensures
            r.0 == self.remaining().len(),
            r.1 == Some(r.0),
    {
        proof {
            use_type_invariant(&*self);
        }
        let n = self.data.len() - self.pos;
        (n, Some(n))
    }
}

/// A cursor over the pairs of a map in key order, which gives each value by
/// mutable reference. It holds a position only: every step borrows the map.
pub struct FlatMapMutIterator {
    pos: usize,
}

impl FlatMapMutIterator {
    /// The position of the pair that the cursor gives next.
    pub closed spec fn position(&self) -> int {
        self.pos as int
    }

    /// The pair of `map` at the cursor, its value by mutable reference; the
    /// cursor moves on by one.
    pub fn next<'a, K: TotalOrd, V>(&mut self, map: &'a mut FlatMap<K, V>) -> (r: Option<
        (&'a K, &'a mut V),
    >)
        requires
            old(map).wf(),
        ensures
            match r {
                Some(pair) => {
                    let i = old(self).position();
                    &&& i < old(map).entries().len()
                    &&& *pair.0 == old(map).entries()[i].0
                    &&& *pair.1 == old(map).entries()[i].1
                    &&& final(self).position() == i + 1
                    &&& final(map).wf()
                    &&& final(map).entries() == old(map).entries().update(
                        i,
                        (*pair.0, *final(pair.1)),
                    )
                },
                None => {
                    &&& old(self).position() >= old(map).entries().len()
                    &&& *final(map) == *old(map)
                    &&& final(self).position() == old(self).position()
                },
            },
    {
        if self.pos < map.data.len() {
            let i = self.pos;
            self.pos = i + 1;
            proof {
                assert forall|v: V|
                    sorted(#[trigger] map.data@.update(i as int, (map.data@[i as int].0, v))) by {
                    lemma_update_value(map.data@, i as int, v);
                }
            }
            let pair = &mut map.data[i];
            Some((&pair.0, &mut pair.1))
        } else {
            None
        }
    }

    /// The number of pairs of `map` that the cursor has yet to give, as a lower
    /// and an upper bound.
    pub fn size_hint<K: TotalOrd, V>(&self, map: &FlatMap<K, V>) -> (r: (usize, Option<usize>))
        ensures
            r.0 == (if self.position() <= map.entries().len() {
                map.entries().len() - self.position()
            } else {
                0
            }),
            r.1 == Some(r.0),
    {
        let n = if self.pos <= map.data.len() {
            map.data.len() - self.pos
        } else {
            0
        };
        (n, Some(n))
    }
}

/// An iterator that owns the pairs of a map and gives them by value, the one
/// with the greatest key first.
pub struct FlatMapMoveIterator<K, V> {
    data: Vec<(K, V)>,
}

impl<K, V> FlatMapMoveIterator<K, V> {
    /// The pairs that the iterator has yet to give, in the order in which it
    /// gives them.
    pub closed spec fn remaining(&self) -> Seq<(K, V)> {
        self.data@.reverse()
    }

    /// The next pair, by value.
    pub fn next(&mut self) -> (r: Option<(K, V)>)
        ensures
            match r {
                Some(pair) => old(self).remaining().len() > 0 && pair == old(self).remaining()[0]
                    && final(self).remaining() == old(self).remaining().skip(1),
                None => old(self).remaining().len() == 0 && final(self).remaining() == old(
                    self,
                ).remaining(),
            },
    {
        let r = self.data.pop();
        proof {
            if old(self).data@.len() > 0 {
                assert(self.remaining() =~= old(self).remaining().skip(1));
            }
        }
        r
    }

    /// The number of pairs that the iterator has yet to give, as a lower and an
    /// upper bound.
    pub fn size_hint(&self) -> (r: (usize, Option<usize>))
        ensures
            r.0 == self.remaining().len(),
            r.1 == Some(r.0),
    {
        let n = self.data.len();
        (n, Some(n))
    }
}

/// The two sequences have as many pairs, and at every position keys of one
/// view and values of one view.
pub open spec fn same_pairs<K: View, V: View>(a: Seq<(K, V)>, b: Seq<(K, V)>) -> bool {
    &&& a.len() == b.len()
    &&& forall|i: int|
        0 <= i < a.len() ==> (#[trigger] a[i]).0@ == b[i].0@ && a[i].1@ == b[i].1@
}

/// `a` comes before `b` when the pairs are compared one by one from position
/// `i` on, key before value, and a sequence that runs out comes first.
pub open spec fn lex_lt<K: TotalOrd, V: TotalOrd>(a: Seq<(K, V)>, b: Seq<(K, V)>, i: int) -> bool
    decreases a.len() - i,
{
    if i < 0 || i >= a.len() || i >= b.len() {
        a.len() < b.len()
    } else if a[i].0.precedes(&b[i].0) {
        true
    } else if b[i].0.precedes(&a[i].0) {
        false
    } else if a[i].1.precedes(&b[i].1) {
        true
    } else if b[i].1.precedes(&a[i].1) {
        false
    } else {
        lex_lt(a, b, i + 1)
    }
}

/// Whether `a` comes before `b` in the lexicographic order of their pairs.
pub fn lt<K: TotalOrd, V: TotalOrd>(a: &FlatMap<K, V>, b: &FlatMap<K, V>) -> (r: bool)
    ensures
        r == lex_lt(a.entries(), b.entries(), 0),
{
    let mut i: usize = 0;
    while i < a.data.len() && i < b.data.len()
        invariant
            i <= a.data@.len(),
            i <= b.data@.len(),
            lex_lt(a.data@, b.data@, 0) == lex_lt(a.data@, b.data@, i as int),
        decreases a.data@.len() - i,
    {
        match a.data[i].0.compare(&b.data[i].0) {
            Order::Less => {
                return true;
            },
            Order::Greater => {
                proof {
                    lemma_asymmetric(&a.data@[i as int].0, &b.data@[i as int].0);
                }
                return false;
            },
            Order::Equal => {},
        }
        match a.data[i].1.compare(&b.data[i].1) {
            Order::Less => {
                return true;
            },
            Order::Greater => {
                proof {
                    lemma_asymmetric(&a.data@[i as int].1, &b.data@[i as int].1);
                }
                return false;
            },
            Order::Equal => {},
        }
        i = i + 1;
    }
    a.data.len() < b.data.len()
}

impl<K: TotalOrd, V: TotalOrd> FlatMap<K, V> {
    /// Whether `self` comes before `other`.
    pub fn lt(&self, other: &FlatMap<K, V>) -> (r: bool)
        ensures
            r == lex_lt(self.entries(), other.entries(), 0),
    {
        lt(self, other)
    }

    /// Whether `self` does not come after `other`.
    pub fn le(&self, other: &FlatMap<K, V>) -> (r: bool)
        ensures
            r == !lex_lt(other.entries(), self.entries(), 0),
    {
        !lt(other, self)
    }

    /// Whether `self` does not come before `other`.
    pub fn ge(&self, other: &FlatMap<K, V>) -> (r: bool)
        ensures
            r == !lex_lt(self.entries(), other.entries(), 0),
    {
        !lt(self, other)
    }

    /// Whether `self` comes after `other`.
    pub fn gt(&self, other: &FlatMap<K, V>) -> (r: bool)
        ensures
            r == lex_lt(other.entries(), self.entries(), 0),
    {
        lt(other, self)
    }

    /// Whether the two maps hold the same pairs: see `same_pairs`.
    pub fn eq(&self, other: &FlatMap<K, V>) -> (r: bool)
        ensures
            r == same_pairs(self.entries(), other.entries()),
    {
        if self.data.len() != other.data.len() {
            return false;
        }
        let mut i: usize = 0;
        while i < self.data.len()
            invariant
                i <= self.data@.len(),
                self.data@.len() == other.data@.len(),
                forall|j: int|
                    0 <= j < i ==> (#[trigger] self.data@[j]).0@ == other.data@[j].0@
                        && self.data@[j].1@ == other.data@[j].1@,
            decreases self.data@.len() - i,
        {
            proof {
                lemma_equal_iff_same(&self.data@[i as int].0, &other.data@[i as int].0);
                lemma_equal_iff_same(&self.data@[i as int].1, &other.data@[i as int].1);
            }
            match self.data[i].0.compare(&other.data[i].0) {
                Order::Equal => {},
                _ => {
                    return false;
                },
            }
            match self.data[i].1.compare(&other.data[i].1) {
                Order::Equal => {},
                _ => {
                    return false;
                },
            }
            i = i + 1;
        }
        true
    }
}

impl<K: TotalOrd, V: TotalOrd> PartialEq for FlatMap<K, V> {
    fn eq(&self, other: &Self) -> (r: bool) {
        FlatMap::eq(self, other)
    }
}

impl<K: TotalOrd, V: TotalOrd> vstd::std_specs::cmp::PartialEqSpecImpl for FlatMap<K, V> {
    open spec fn obeys_eq_spec() -> bool {
        true
    }

    open spec fn eq_spec(&self, other: &Self) -> bool {
        same_pairs(self.entries(), other.entries())
    }
}

impl<K: TotalOrd, V> Default for FlatMap<K, V> {
    fn default() -> (m: Self)
        ensures
            m.wf(),
            m@ == Map::<K::V, V>::empty(),
    {
        FlatMap::new()
    }
}

} // verus!
