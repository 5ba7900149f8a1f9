//! Sets and maps kept as ascending vectors: they are searched by bisection and walked in order.

use crate::order::{ascending, increasing, lemma_ascending, models, Key};
use vstd::prelude::*;

verus! {

/// Where `key` belongs in the ascending `keys`: everything before the returned position is
/// smaller, everything from there on is not.
fn lower_bound<K: Key>(keys: &Vec<K>, key: &K) -> (pos: usize)
    requires
        increasing::<K>(models(keys@)),
    ensures
        pos <= keys@.len(),
        forall|i: int| 0 <= i < pos ==> K::lt(#[trigger] keys@[i].model(), key.model()),
        forall|i: int|
            pos <= i < keys@.len() ==> !K::lt(#[trigger] keys@[i].model(), key.model()),
{
    let mut lo: usize = 0;
    let mut hi: usize = keys.len();
    while lo < hi
        invariant
            lo <= hi <= keys@.len(),
            increasing::<K>(models(keys@)),
            forall|i: int| 0 <= i < lo ==> K::lt(#[trigger] keys@[i].model(), key.model()),
            forall|i: int|
                hi <= i < keys@.len() ==> !K::lt(#[trigger] keys@[i].model(), key.model()),
        decreases hi - lo,
    {
        let mid: usize = lo + (hi - lo) / 2;
        let ghost ms = models(keys@);
        if keys[mid].is_less(key) {
            assert forall|i: int| 0 <= i < mid + 1 implies K::lt(
                #[trigger] keys@[i].model(),
                key.model(),
            ) by {
                if i < mid {
                    assert(K::lt(ms[i], ms[mid as int]));
                    K::lt_transitive(ms[i], ms[mid as int], key.model());
                }
            }
            lo = mid + 1;
        } else {
            assert forall|i: int| mid <= i < keys@.len() implies !K::lt(
                #[trigger] keys@[i].model(),
                key.model(),
            ) by {
                if mid < i && K::lt(keys@[i].model(), key.model()) {
                    assert(K::lt(ms[mid as int], ms[i]));
                    K::lt_transitive(ms[mid as int], ms[i], key.model());
                }
            }
            hi = mid;
        }
    }
    lo
}

/// Whether `keys[pos]` is `key`, where `pos` is the position that `key` belongs at.
fn found_at<K: Key>(keys: &Vec<K>, pos: usize, key: &K) -> (r: bool)
    requires
        increasing::<K>(models(keys@)),
        pos <= keys@.len(),
        forall|i: int| 0 <= i < pos ==> K::lt(#[trigger] keys@[i].model(), key.model()),
        forall|i: int|
            pos <= i < keys@.len() ==> !K::lt(#[trigger] keys@[i].model(), key.model()),
    ensures
        r <==> models(keys@).contains(key.model()),
        r ==> pos < keys@.len() && keys@[pos as int].model() == key.model(),
        !r ==> forall|i: int|
            pos <= i < keys@.len() ==> K::lt(key.model(), #[trigger] keys@[i].model()),
{
    let ghost ms = models(keys@);
    if pos < keys.len() && !key.is_less(&keys[pos]) {
        proof {
            K::lt_connected(keys@[pos as int].model(), key.model());
            assert(ms[pos as int] == key.model());
        }
        true
    } else {
        proof {
            assert forall|i: int| pos <= i < keys@.len() implies K::lt(
                key.model(),
                #[trigger] keys@[i].model(),
            ) by {
                if pos < i {
                    assert(K::lt(ms[pos as int], ms[i]));
                    K::lt_transitive(key.model(), ms[pos as int], ms[i]);
                }
            }
            if ms.contains(key.model()) {
                let i = choose|i: int| 0 <= i < ms.len() && ms[i] == key.model();
                assert(keys@[i].model() == key.model());
                K::lt_irreflexive(key.model());
                assert(false);
            }
        }
        false
    }
}

/// Inserting a new key where it belongs keeps the order.
proof fn lemma_insert_increasing<K: Key>(keys: Seq<K>, pos: int, key: K)
    requires
        increasing::<K>(models(keys)),
        0 <= pos <= keys.len(),
        forall|i: int| 0 <= i < pos ==> K::lt(#[trigger] keys[i].model(), key.model()),
        forall|i: int| pos <= i < keys.len() ==> K::lt(key.model(), #[trigger] keys[i].model()),
    ensures
        increasing::<K>(models(keys.insert(pos, key))),
        models(keys.insert(pos, key)) == models(keys).insert(pos, key.model()),
        forall|x: K::Model|
            models(keys.insert(pos, key)).contains(x) <==> models(keys).contains(x) || x
                == key.model(),
{
    let a = models(keys);
    let b = models(keys.insert(pos, key));
    assert(b =~= a.insert(pos, key.model()));
    assert forall|i: int, j: int| 0 <= i < j < b.len() implies K::lt(
        #[trigger] b[i],
        #[trigger] b[j],
    ) by {
        let ii = if i < pos {
            i
        } else {
            i - 1
        };
        let jj = if j < pos {
            j
        } else {
            j - 1
        };
        if i == pos {
            assert(K::lt(key.model(), keys[jj].model()));
        } else if j == pos {
            assert(K::lt(keys[ii].model(), key.model()));
        } else {
            assert(K::lt(a[ii], a[jj]));
        }
    }
    assert forall|x: K::Model| b.contains(x) <==> a.contains(x) || x == key.model() by {
        if a.contains(x) {
            let i = choose|i: int| 0 <= i < a.len() && a[i] == x;
            let ii = if i < pos {
                i
            } else {
                i + 1
            };
            assert(b[ii] == x);
        }
        if x == key.model() {
            assert(b[pos] == x);
        }
        if b.contains(x) {
            let i = choose|i: int| 0 <= i < b.len() && b[i] == x;
            if i != pos {
                let ii = if i < pos {
                    i
                } else {
                    i - 1
                };
                assert(a[ii] == x);
            }
        }
    }
}

/// Removing a key keeps the order.
proof fn lemma_remove_increasing<K: Key>(keys: Seq<K>, pos: int)
    requires
        increasing::<K>(models(keys)),
        0 <= pos < keys.len(),
    ensures
        increasing::<K>(models(keys.remove(pos))),
        forall|x: K::Model|
            models(keys.remove(pos)).contains(x) <==> models(keys).contains(x) && x
                != keys[pos].model(),
{
    let a = models(keys);
    let b = models(keys.remove(pos));
    assert forall|i: int| 0 <= i < b.len() implies #[trigger] b[i] == a[if i < pos {
        i
    } else {
        i + 1
    }] by {}
    assert forall|i: int, j: int| 0 <= i < j < b.len() implies K::lt(
        #[trigger] b[i],
        #[trigger] b[j],
    ) by {
        assert(K::lt(
            a[if i < pos {
                i
            } else {
                i + 1
            }],
            a[if j < pos {
                j
            } else {
                j + 1
            }],
        ));
    }
    assert forall|x: K::Model| b.contains(x) <==> a.contains(x) && x != keys[pos].model() by {
        if a.contains(x) && x != keys[pos].model() {
            let i = choose|i: int| 0 <= i < a.len() && a[i] == x;
            let ii = if i < pos {
                i
            } else {
                i - 1
            };
            assert(b[ii] == x);
        }
        if b.contains(x) {
            let i = choose|i: int| 0 <= i < b.len() && b[i] == x;
            let ii = if i < pos {
                i
            } else {
                i + 1
            };
            assert(a[ii] == x);
            if x == a[pos] {
                K::lt_irreflexive(x);
                if ii < pos {
                    assert(K::lt(a[ii], a[pos]));
                } else {
                    assert(K::lt(a[pos], a[ii]));
                }
            }
        }
    }
}

/// A set of keys.
pub struct SortedSet<K: Key> {
    items: Vec<K>,
}

impl<K: Key> SortedSet<K> {
    #[verifier::type_invariant]
    spec fn inv(self) -> bool {
        increasing::<K>(models(self.items@))
    }

    /// The elements, in the order in which they are walked.
    pub closed spec fn seq(self) -> Seq<K::Model> {
        models(self.items@)
    }

    /// The elements.
    pub open spec fn view(self) -> Set<K::Model> {
        self.seq().to_set()
    }

    /// The empty set.
    pub fn new() -> (r: Self)
        ensures
            r@ == Set::<K::Model>::empty(),
            r.seq() == Seq::<K::Model>::empty(),
    {
        let r = SortedSet { items: Vec::new() };
        assert(r.seq() =~= Seq::<K::Model>::empty());
        assert(r@ =~= Set::<K::Model>::empty());
        r
    }

    /// How many elements there are; they are walked in ascending order.
    pub fn len(&self) -> (r: usize)
        ensures
            r == self.seq().len(),
            increasing::<K>(self.seq()),
            self.seq() == ascending::<K>(self@),
    {
        proof {
            use_type_invariant(self);
            lemma_ascending::<K>(self.seq());
        }
        self.items.len()
    }

    /// The element at `i` in the walk.
    pub fn at(&self, i: usize) -> (r: &K)
        requires
            i < self.seq().len(),
        ensures
            r.model() == self.seq()[i as int],
    {
        &self.items[i]
    }

    /// Whether `key` is an element.
    pub fn contains(&self, key: &K) -> (r: bool)
        ensures
            r == self@.contains(key.model()),
    {
        proof {
            use_type_invariant(self);
        }
        let pos: usize = lower_bound(&self.items, key);
        found_at(&self.items, pos, key)
    }

    /// Add `key`; whether it was new.
    pub fn insert(&mut self, key: K) -> (fresh: bool)
        ensures
            fresh == !old(self)@.contains(key.model()),
            final(self)@ == old(self)@.insert(key.model()),
    {
        proof {
            use_type_invariant(&*self);
        }
        let ghost before = self@;
        let mut items: Vec<K> = Vec::new();
        std::mem::swap(&mut items, &mut self.items);
        let pos: usize = lower_bound(&items, &key);
        if found_at(&items, pos, &key) {
            self.items = items;
            assert(self@ =~= before.insert(key.model()));
            false
        } else {
            proof {
                lemma_insert_increasing(items@, pos as int, key);
            }
            let ghost old_items = items@;
            items.insert(pos, key);
            self.items = items;
            assert(self@ =~= before.insert(key.model()));
            true
        }
    }
}

/// A map from keys to values.
pub struct SortedMap<K: Key, V> {
    keys: Vec<K>,
    values: Vec<V>,
}

impl<K: Key, V> SortedMap<K, V> {
    #[verifier::type_invariant]
    spec fn inv(self) -> bool {
        &&& increasing::<K>(models(self.keys@))
        &&& self.keys@.len() == self.values@.len()
    }

    /// The keys, in the order in which they are walked.
    pub closed spec fn keys(self) -> Seq<K::Model> {
        models(self.keys@)
    }

    /// The values, in the order of their keys.
    pub closed spec fn values(self) -> Seq<V> {
        self.values@
    }

    /// The entries.
    pub open spec fn view(self) -> Map<K::Model, V> {
        Map::new(
            |k: K::Model| self.keys().contains(k),
            |k: K::Model| self.values()[self.keys().index_of(k)],
        )
    }

    /// The empty map.
    pub fn new() -> (r: Self)
        ensures
            r@ == Map::<K::Model, V>::empty(),
            r.keys() == Seq::<K::Model>::empty(),
    {
        let r = SortedMap { keys: Vec::new(), values: Vec::new() };
        assert(r.keys() =~= Seq::<K::Model>::empty());
        assert(r@ =~= Map::<K::Model, V>::empty());
        r
    }

    /// How many entries there are; they are walked in the ascending order of their keys.
    pub fn len(&self) -> (r: usize)
        ensures
            r == self.keys().len(),
            r == self.values().len(),
            increasing::<K>(self.keys()),
            self.keys() == ascending::<K>(self@.dom()),
            forall|i: int|
                0 <= i < r ==> self@.dom().contains(#[trigger] self.keys()[i])
                    && self@[self.keys()[i]] == self.values()[i],
    {
        proof {
            use_type_invariant(self);
            assert forall|i: int| 0 <= i < self.keys().len() implies self@.dom().contains(
                #[trigger] self.keys()[i],
            ) && self@[self.keys()[i]] == self.values()[i] by {
                lemma_index_of::<K>(self.keys(), i);
            }
            lemma_ascending::<K>(self.keys());
            assert(self@.dom() =~= self.keys().to_set());
        }
        self.keys.len()
    }

    /// The key at `i` in the walk.
    pub fn key_at(&self, i: usize) -> (r: &K)
        requires
            i < self.keys().len(),
        ensures
            r.model() == self.keys()[i as int],
    {
        &self.keys[i]
    }

    /// The value at `i` in the walk.
    pub fn value_at(&self, i: usize) -> (r: &V)
        requires
            i < self.keys().len(),
        ensures
            *r == self.values()[i as int],
    {
        proof {
            use_type_invariant(self);
        }
        &self.values[i]
    }

    /// Whether there is an entry for `key`.
    pub fn contains_key(&self, key: &K) -> (r: bool)
        ensures
            r == self@.dom().contains(key.model()),
    {
        proof {
            use_type_invariant(self);
        }
        let pos: usize = lower_bound(&self.keys, key);
        found_at(&self.keys, pos, key)
    }

    /// The value of `key`, if it has one.
    pub fn get(&self, key: &K) -> (r: Option<&V>)
        ensures
            r is Some <==> self@.dom().contains(key.model()),
            r matches Some(v) ==> *v == self@[key.model()],
    {
        proof {
            use_type_invariant(self);
        }
        let pos: usize = lower_bound(&self.keys, key);
        if found_at(&self.keys, pos, key) {
            proof {
                lemma_index_of::<K>(self.keys(), pos as int);
            }
            Some(&self.values[pos])
        } else {
            None
        }
    }

    /// Set the value of `key`, in place of the one it had.
    pub fn insert(&mut self, key: K, value: V)
        ensures
            final(self)@ == old(self)@.insert(key.model(), value),
    {
        proof {
            use_type_invariant(&*self);
        }
        let ghost before = *self;
        let mut keys: Vec<K> = Vec::new();
        let mut values: Vec<V> = Vec::new();
        let mut taken = SortedMap { keys, values };
        std::mem::swap(&mut taken, self);
        keys = taken.keys;
        values = taken.values;
        let ghost ks = models(keys@);
        let ghost vs = values@;
        let pos: usize = lower_bound(&keys, &key);
        if found_at(&keys, pos, &key) {
            values.set(pos, value);
            *self = SortedMap { keys, values };
            proof {
                lemma_index_of::<K>(ks, pos as int);
                assert(before.keys() == ks && before.values() == vs);
                assert(self.keys() == ks && self.values() == vs.update(pos as int, value));
                assert forall|k: K::Model| ks.contains(k) implies self@[k] == (before@.insert(
                    key.model(),
                    value,
                ))[k] by {
                    let i = ks.index_of(k);
                    if i == pos {
                        assert(k == key.model());
                    }
                }
                assert(self@ =~= before@.insert(key.model(), value));
            }
        } else {
            proof {
                lemma_insert_increasing(keys@, pos as int, key);
            }
            keys.insert(pos, key);
            values.insert(pos, value);
            *self = SortedMap { keys, values };
            proof {
                let nk = self.keys();
                let nv = self.values();
                assert(nk == ks.insert(pos as int, key.model()));
                assert(nv == vs.insert(pos as int, value));
                assert forall|k: K::Model| nk.contains(k) implies self@[k] == (before@.insert(
                    key.model(),
                    value,
                ))[k] by {
                    let i = nk.index_of(k);
                    if i == pos {
                    } else if i < pos {
                        lemma_index_of::<K>(ks, i);
                        assert(nk[i] == ks[i]);
                        if k == key.model() {
                            lemma_index_of::<K>(nk, pos as int);
                        }
                    } else {
                        lemma_index_of::<K>(ks, i - 1);
                        assert(nk[i] == ks[i - 1]);
                        if k == key.model() {
                            lemma_index_of::<K>(nk, pos as int);
                        }
                    }
                }
                assert(self@ =~= before@.insert(key.model(), value));
            }
        }
    }

    /// Drop the entry of `key`, if it has one.
    pub fn remove(&mut self, key: &K) -> (r: Option<V>)
        ensures
            final(self)@ == old(self)@.remove(key.model()),
            r is Some <==> old(self)@.dom().contains(key.model()),
            r matches Some(v) ==> v == old(self)@[key.model()],
    {
        proof {
            use_type_invariant(&*self);
        }
        let ghost before = *self;
        let mut keys: Vec<K> = Vec::new();
        let mut values: Vec<V> = Vec::new();
        let mut taken = SortedMap { keys, values };
        std::mem::swap(&mut taken, self);
        keys = taken.keys;
        values = taken.values;
        let ghost ks = models(keys@);
        let ghost vs = values@;
        let pos: usize = lower_bound(&keys, key);
        if found_at(&keys, pos, key) {
            proof {
                lemma_remove_increasing(keys@, pos as int);
                lemma_index_of::<K>(ks, pos as int);
            }
            let _ = keys.remove(pos);
            let value = values.remove(pos);
            *self = SortedMap { keys, values };
            proof {
                let nk = self.keys();
                let nv = self.values();
                assert(nk =~= ks.remove(pos as int));
                assert forall|k: K::Model| nk.contains(k) implies self@[k] == (before@.remove(
                    key.model(),
                ))[k] by {
                    let i = nk.index_of(k);
                    if i < pos {
                        lemma_index_of::<K>(ks, i);
                        assert(nk[i] == ks[i]);
                    } else {
                        lemma_index_of::<K>(ks, i + 1);
                        assert(nk[i] == ks[i + 1]);
                    }
                }
                assert(self@ =~= before@.remove(key.model()));
            }
            Some(value)
        } else {
            *self = SortedMap { keys, values };
            assert(self@ =~= before@.remove(key.model()));
            None
        }
    }
}

/// In an ascending sequence an element is found at the one position that it stands at.
proof fn lemma_index_of<K: Key>(s: Seq<K::Model>, i: int)
    requires
        increasing::<K>(s),
        0 <= i < s.len(),
    ensures
        s.contains(s[i]),
        s.index_of(s[i]) == i,
{
    let j = s.index_of(s[i]);
    assert(s.contains(s[i]));
    assert(0 <= j < s.len() && s[j] == s[i]);
    K::lt_irreflexive(s[i]);
    if j < i {
        assert(K::lt(s[j], s[i]));
    } else if i < j {
        assert(K::lt(s[i], s[j]));
    }
}

} // verus!
