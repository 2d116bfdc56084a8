//! A map kept in ascending key order.
use vstd::prelude::*;

verus! {

/// A key with a strict total order.
pub trait Key: Copy + Sized {
    /// Whether `self` is strictly smaller than `other`.
    spec fn before(self, other: Self) -> bool;

    /// The order is irreflexive, transitive and total.
    proof fn order_laws(a: Self, b: Self, c: Self)
        ensures
            !a.before(a),
            a.before(b) && b.before(c) ==> a.before(c),
            a.before(b) || a == b || b.before(a),
    ;

    /// Decide [`Key::before`].
    fn precedes(&self, other: &Self) -> (r: bool)
        ensures
            r == self.before(*other),
    ;
}

impl Key for u64 {
    open spec fn before(self, other: Self) -> bool {
        self < other
    }

    proof fn order_laws(a: Self, b: Self, c: Self) {
    }

    fn precedes(&self, other: &Self) -> (r: bool) {
        *self < *other
    }
}

/// Keys in strictly ascending order, each beside its value.
pub struct OrderedMap<K: Key, V: View> {
    keys: Vec<K>,
    values: Vec<V>,
}

/// Whether a sequence of keys ascends strictly.
pub open spec fn ascending<K: Key>(keys: Seq<K>) -> bool {
    forall|i: int, j: int|
        #![trigger keys[i], keys[j]]
        0 <= i < j < keys.len() ==> keys[i].before(keys[j])
}

/// A strictly ascending sequence repeats nothing.
pub proof fn lemma_ascending_unique<K: Key>(keys: Seq<K>, i: int, j: int)
    requires
        ascending(keys),
        0 <= i < keys.len(),
        0 <= j < keys.len(),
        keys[i] == keys[j],
    ensures
        i == j,
{
    K::order_laws(keys[i], keys[j], keys[i]);
}

/// Two strictly ascending sequences with the same elements are equal.
pub proof fn lemma_ascending_determined<K: Key>(a: Seq<K>, b: Seq<K>)
    requires
        ascending(a),
        ascending(b),
        forall|k: K| a.contains(k) <==> b.contains(k),
    ensures
        a == b,
    decreases a.len(),
{
    if a.len() == 0 {
        if b.len() > 0 {
            assert(b.contains(b[0]));
            assert(a.contains(b[0]));
        }
        assert(a =~= b);
    } else {
        assert(a.contains(a[0]));
        let i = choose|i: int| 0 <= i < b.len() && b[i] == a[0];
        assert(b.contains(b[0]));
        let j = choose|j: int| 0 <= j < a.len() && a[j] == b[0];
        K::order_laws(a[0], b[0], a[0]);
        K::order_laws(b[0], a[0], b[0]);
        if i > 0 {
            assert(b[0].before(b[i]));
            if j > 0 {
                assert(a[0].before(a[j]));
            }
        }
        assert(a[0] == b[0]);
        let ta = a.drop_first();
        let tb = b.drop_first();
        assert forall|k: K| ta.contains(k) <==> tb.contains(k) by {
            if ta.contains(k) {
                let x = choose|x: int| 0 <= x < ta.len() && ta[x] == k;
                assert(a[x + 1] == k);
                assert(a.contains(k));
                let y = choose|y: int| 0 <= y < b.len() && b[y] == k;
                if y == 0 {
                    lemma_ascending_unique(a, 0, x + 1);
                }
                assert(tb[y - 1] == k);
            }
            if tb.contains(k) {
                let x = choose|x: int| 0 <= x < tb.len() && tb[x] == k;
                assert(b[x + 1] == k);
                assert(b.contains(k));
                let y = choose|y: int| 0 <= y < a.len() && a[y] == k;
                if y == 0 {
                    lemma_ascending_unique(b, 0, x + 1);
                }
                assert(ta[y - 1] == k);
            }
        }
        lemma_ascending_determined(ta, tb);
        assert(a =~= seq![a[0]] + ta);
        assert(b =~= seq![b[0]] + tb);
    }
}

impl<K: Key, V: View> View for OrderedMap<K, V> {
    type V = Map<K, V::V>;

    open spec fn view(&self) -> Map<K, V::V> {
        self.raw().map_values(|v: V| v@)
    }
}

impl<K: Key, V: View> OrderedMap<K, V> {
    /// Keys ascend strictly and each has one value.
    pub closed spec fn wf(&self) -> bool {
        &&& ascending(self.keys@)
        &&& self.keys@.len() == self.values@.len()
    }

    /// The map itself, before its values are viewed.
    pub closed spec fn raw(&self) -> Map<K, V> {
        Map::new(|k: K| self.keys@.contains(k), |k: K| self.values@[self.keys@.index_of(k)])
    }

    /// The keys in ascending order.
    pub closed spec fn order(&self) -> Seq<K> {
        self.keys@
    }

    /// What the key order says about the map.
    pub proof fn lemma_order(&self)
        requires
            self.wf(),
        ensures
            ascending(self.order()),
            self.order().no_duplicates(),
            self.order().len() == self@.len(),
            self@.dom() == self.raw().dom(),
            self@.dom().finite(),
            self@.len() <= usize::MAX,
            forall|k: K| #[trigger] self@.contains_key(k) <==> self.order().contains(k),
            forall|i: int|
                0 <= i < self.order().len() ==> self@.contains_key(#[trigger] self.order()[i]),
    {
        self.lemma_entries();
        let keys = self.keys@;
        assert(keys.no_duplicates()) by {
            assert forall|i: int, j: int|
                0 <= i < keys.len() && 0 <= j < keys.len() && i != j implies keys[i] != keys[j] by {
                if keys[i] == keys[j] {
                    lemma_ascending_unique(keys, i, j);
                }
            }
        }
        keys.unique_seq_to_set();
        vstd::seq_lib::seq_to_set_is_finite(keys);
        assert(self@.dom() =~= keys.to_set());
        assert(self@.dom() =~= self.raw().dom());
        assert(self.keys.len() == self.keys@.len());
    }

    proof fn lemma_entries(&self)
        requires
            self.wf(),
        ensures
            forall|i: int|
                #![trigger self.keys@[i]]
                #![trigger self.values@[i]]
                0 <= i < self.keys@.len() ==> self.raw().contains_key(self.keys@[i])
                    && self.raw()[self.keys@[i]] == self.values@[i],
    {
        let keys = self.keys@;
        assert forall|i: int|
            #![trigger self.keys@[i]]
            #![trigger self.values@[i]]
            0 <= i < keys.len() implies self.raw().contains_key(keys[i]) && self.raw()[keys[i]]
            == self.values@[i] by {
            let j = keys.index_of(keys[i]);
            assert(keys.contains(keys[i]));
            lemma_ascending_unique(keys, i, j);
        }
    }

    /// An empty map.
    pub fn new() -> (r: Self)
        ensures
            r.wf(),
            r.raw() == Map::<K, V>::empty(),
            r@ == Map::<K, V::V>::empty(),
    {
        let r = OrderedMap { keys: Vec::new(), values: Vec::new() };
        assert(r.raw() =~= Map::<K, V>::empty());
        assert(r@ =~= Map::<K, V::V>::empty());
        r
    }

    /// How many keys the map holds.
    pub fn len(&self) -> (r: usize)
        requires
            self.wf(),
        ensures
            r == self@.len(),
            r == self.order().len(),
    {
        proof {
            self.lemma_order();
        }
        self.keys.len()
    }

    /// The key at a position of the ascending order.
    pub fn key_at(&self, index: usize) -> (r: K)
        requires
            self.wf(),
            index < self.order().len(),
        ensures
            r == self.order()[index as int],
            self.raw().contains_key(r),
            self@.contains_key(r),
    {
        proof {
            self.lemma_entries();
        }
        self.keys[index]
    }

    /// The value at a position of the ascending order.
    pub fn value_at(&self, index: usize) -> (r: &V)
        requires
            self.wf(),
            index < self.order().len(),
        ensures
            self.raw().contains_key(self.order()[index as int]),
            *r == self.raw()[self.order()[index as int]],
            self@.contains_key(self.order()[index as int]),
            r@ == self@[self.order()[index as int]],
    {
        proof {
            self.lemma_entries();
            assert(self.raw().contains_key(self.keys@[index as int]));
        }
        &self.values[index]
    }

    /// The first position whose key is not smaller than `key`.
    fn lower_bound(&self, key: K) -> (r: usize)
        requires
            self.wf(),
        ensures
            r <= self.keys@.len(),
            forall|i: int| 0 <= i < r ==> (#[trigger] self.keys@[i]).before(key),
            forall|i: int| r <= i < self.keys@.len() ==> !(#[trigger] self.keys@[i]).before(key),
    {
        let mut low: usize = 0;
        let mut high: usize = self.keys.len();
        while low < high
            invariant
                self.wf(),
                low <= high <= self.keys@.len(),
                forall|i: int| 0 <= i < low ==> (#[trigger] self.keys@[i]).before(key),
                forall|i: int|
                    high <= i < self.keys@.len() ==> !(#[trigger] self.keys@[i]).before(key),
            decreases high - low,
        {
            let mid: usize = low + (high - low) / 2;
            if self.keys[mid].precedes(&key) {
                assert forall|i: int| 0 <= i < mid + 1 implies (
                #[trigger] self.keys@[i]).before(key) by {
                    K::order_laws(self.keys@[i], self.keys@[mid as int], key);
                }
                low = mid + 1;
            } else {
                assert forall|i: int| mid <= i < self.keys@.len() implies !(
                #[trigger] self.keys@[i]).before(key) by {
                    K::order_laws(self.keys@[mid as int], self.keys@[i], key);
                }
                high = mid;
            }
        }
        low
    }

    /// The position of a key, or the position at which it belongs.
    fn position(&self, key: K) -> (r: Result<usize, usize>)
        requires
            self.wf(),
        ensures
            r matches Ok(i) ==> i < self.keys@.len() && self.keys@[i as int] == key
                && self.raw().contains_key(key) && self.raw()[key] == self.values@[i as int],
            r matches Err(i) ==> {
                &&& i <= self.keys@.len()
                &&& !self.raw().contains_key(key)
                &&& forall|j: int| 0 <= j < i ==> (#[trigger] self.keys@[j]).before(key)
                &&& forall|j: int| i <= j < self.keys@.len() ==> key.before(#[trigger] self.keys@[j])
            },
    {
        let index = self.lower_bound(key);
        if index < self.keys.len() && !key.precedes(&self.keys[index]) {
            proof {
                K::order_laws(self.keys@[index as int], key, key);
                self.lemma_entries();
            }
            Ok(index)
        } else {
            proof {
                assert forall|j: int| index <= j < self.keys@.len() implies key.before(
                    #[trigger] self.keys@[j],
                ) by {
                    K::order_laws(key, self.keys@[index as int], self.keys@[j]);
                }
                if self.keys@.contains(key) {
                    K::order_laws(key, key, key);
                }
            }
            Err(index)
        }
    }

    /// The value of a key, if the map holds it.
    pub fn get(&self, key: K) -> (r: Option<&V>)
        requires
            self.wf(),
        ensures
            r is Some <==> self@.contains_key(key),
            r is Some <==> self.raw().contains_key(key),
            r matches Some(v) ==> *v == self.raw()[key] && v@ == self@[key],
    {
        match self.position(key) {
            Ok(index) => Some(&self.values[index]),
            Err(_) => None,
        }
    }

    /// Whether the map holds a key.
    pub fn contains_key(&self, key: K) -> (r: bool)
        requires
            self.wf(),
        ensures
            r == self@.contains_key(key),
            r == self.raw().contains_key(key),
    {
        self.position(key).is_ok()
    }

    /// A handle to the value of a key, if the map holds it.
    pub fn get_mut(&mut self, key: K) -> (r: Option<&mut V>)
        requires
            old(self).wf(),
        ensures
            final(self).wf(),
            r is Some <==> old(self).raw().contains_key(key),
            r matches Some(v) ==> {
                &&& *v == old(self).raw()[key]
                &&& v@ == old(self)@[key]
                &&& final(self).raw() == old(self).raw().insert(key, *final(v))
                &&& final(self)@ == old(self)@.insert(key, (*final(v))@)
                &&& final(self).order() == old(self).order()
            },
            r is None ==> *final(self) == *old(self) && !old(self)@.contains_key(key),
    {
        match self.position(key) {
            Ok(index) => {
                let ghost before = *self;
                proof {
                    before.lemma_entries();
                    assert forall|value: V|
                        #![trigger before.values@.update(index as int, value)]
                        {
                            let after = before.raw().insert(key, value);
                            &&& Map::new(
                                |k: K| before.keys@.contains(k),
                                |k: K|
                                    before.values@.update(
                                        index as int,
                                        value,
                                    )[before.keys@.index_of(k)],
                            ) == after
                            &&& after.map_values(|v: V| v@) == before@.insert(key, value@)
                        } by {
                        let updated = before.values@.update(index as int, value);
                        let after = Map::new(
                            |k: K| before.keys@.contains(k),
                            |k: K| updated[before.keys@.index_of(k)],
                        );
                        assert forall|k: K| before.keys@.contains(k) implies after[k]
                            == before.raw().insert(key, value)[k] by {
                            let j = before.keys@.index_of(k);
                            assert(before.raw()[before.keys@[j]] == before.values@[j]);
                            if k == key {
                                lemma_ascending_unique(before.keys@, j, index as int);
                            }
                        }
                        assert(after.dom() =~= before.raw().insert(key, value).dom());
                        assert(after =~= before.raw().insert(key, value));
                        assert(before.raw().insert(key, value).map_values(|v: V| v@)
                            =~= before@.insert(key, value@));
                    }
                }
                Some(&mut self.values[index])
            },
            Err(_) => None,
        }
    }

    /// Set the value of a key.
    pub fn insert(&mut self, key: K, value: V)
        requires
            old(self).wf(),
        ensures
            final(self).wf(),
            final(self).raw() == old(self).raw().insert(key, value),
            final(self)@ == old(self)@.insert(key, value@),
    {
        let ghost before = *self;
        proof {
            before.lemma_entries();
        }
        match self.position(key) {
            Ok(index) => {
                self.values.set(index, value);
            },
            Err(index) => {
                self.keys.insert(index, key);
                self.values.insert(index, value);
                proof {
                    let keys = self.keys@;
                    assert(keys == before.keys@.insert(index as int, key));
                    assert(ascending(keys));
                    assert forall|k: K| keys.contains(k) <==> before.keys@.contains(k) || k
                        == key by {
                        if before.keys@.contains(k) {
                            let j = before.keys@.index_of(k);
                            if j < index {
                                assert(keys[j] == k);
                            } else {
                                assert(keys[j + 1] == k);
                            }
                        }
                        if k == key {
                            assert(keys[index as int] == key);
                        }
                    }
                }
            },
        }
        proof {
            self.lemma_entries();
            assert forall|k: K| self.keys@.contains(k) implies self.raw()[k] == before.raw().insert(
                key,
                value,
            )[k] by {
                let j = self.keys@.index_of(k);
                assert(self.raw()[self.keys@[j]] == self.values@[j]);
            }
            assert(self.raw() =~= before.raw().insert(key, value));
            assert(self@ =~= before@.insert(key, value@));
        }
    }

    /// Take a key out of the map.
    pub fn remove(&mut self, key: K) -> (r: Option<V>)
        requires
            old(self).wf(),
        ensures
            final(self).wf(),
            r is Some <==> old(self).raw().contains_key(key),
            r matches Some(v) ==> v == old(self).raw()[key] && v@ == old(self)@[key],
            final(self).raw() == old(self).raw().remove(key),
            final(self)@ == old(self)@.remove(key),
    {
        let ghost before = *self;
        proof {
            before.lemma_entries();
        }
        let taken = match self.position(key) {
            Ok(index) => {
                self.keys.remove(index);
                let value = self.values.remove(index);
                proof {
                    let keys = self.keys@;
                    assert(keys == before.keys@.remove(index as int));
                    assert(ascending(keys));
                    assert forall|k: K| keys.contains(k) <==> before.keys@.contains(k) && k
                        != key by {
                        if before.keys@.contains(k) && k != key {
                            let j = before.keys@.index_of(k);
                            if j < index {
                                assert(keys[j] == k);
                            } else {
                                assert(keys[j - 1] == k);
                            }
                        }
                        if keys.contains(k) {
                            let j = keys.index_of(k);
                            if j < index {
                                assert(before.keys@[j] == k);
                                if k == key {
                                    lemma_ascending_unique(before.keys@, j, index as int);
                                }
                            } else {
                                assert(before.keys@[j + 1] == k);
                                if k == key {
                                    lemma_ascending_unique(before.keys@, j + 1, index as int);
                                }
                            }
                        }
                    }
                }
                Some(value)
            },
            Err(_) => None,
        };
        proof {
            self.lemma_entries();
            assert forall|k: K| self.keys@.contains(k) implies self.raw()[k]
                == before.raw().remove(key)[k] by {
                let j = self.keys@.index_of(k);
                assert(self.raw()[self.keys@[j]] == self.values@[j]);
            }
            assert(self.raw() =~= before.raw().remove(key));
            assert(self@ =~= before@.remove(key));
        }
        taken
    }

    /// Take over every entry of another map, whose values win.
    pub fn absorb(&mut self, other: OrderedMap<K, V>)
        requires
            old(self).wf(),
            other.wf(),
        ensures
            final(self).wf(),
            final(self).raw() == old(self).raw().union_prefer_right(other.raw()),
            final(self)@ == old(self)@.union_prefer_right(other@),
    {
        let mut rest = other;
        let ghost before = *self;
        let ghost target = self.raw().union_prefer_right(rest.raw());
        while rest.len() > 0
            invariant
                self.wf(),
                rest.wf(),
                self.raw().union_prefer_right(rest.raw()) == target,
            decreases rest.order().len(),
        {
            let ghost was = self.raw();
            let ghost left = rest.raw();
            proof {
                rest.lemma_order();
            }
            let key = rest.key_at(rest.len() - 1);
            let ghost held = rest@.len();
            if let Some(value) = rest.remove(key) {
                self.insert(key, value);
                proof {
                    assert(self.raw().union_prefer_right(rest.raw()) =~= was.union_prefer_right(
                        left,
                    ));
                    rest.lemma_order();
                    assert(rest@.len() < held);
                }
            }
        }
        proof {
            rest.lemma_order();
            assert(rest.raw().dom() =~= Set::empty()) by {
                assert(rest@.dom().len() == 0);
            }
            assert(self.raw() =~= target);
            assert(self@ =~= before@.union_prefer_right(other@));
        }
    }
}

} // verus!
