use indexmap::IndexSet;
use vstd::prelude::*;

use crate::coords::IVec3;
use crate::ordered_set::{
    pos_set_get_index, pos_set_get_index_of, pos_set_insert, pos_set_items, pos_set_len,
    pos_set_new, pos_set_swap_remove, swap_removed,
};

verus! {

/// The positions that a sequence of keys stands for.
pub open spec fn positions_of_keys(keys: Seq<(i32, i32, i32)>) -> Seq<IVec3> {
    Seq::new(keys.len(), |i: int| IVec3 { x: keys[i].0, y: keys[i].1, z: keys[i].2 })
}

/// The place of `key` in `keys`, where it occurs.
pub open spec fn place_of(keys: Seq<IVec3>, key: IVec3) -> int {
    choose|i: int| 0 <= i < keys.len() && keys[i] == key
}

/// In a sequence without repetition an item has one place only.
pub proof fn lemma_place_of(keys: Seq<IVec3>, i: int)
    requires
        keys.no_duplicates(),
        0 <= i < keys.len(),
    ensures
        keys.contains(keys[i]),
        place_of(keys, keys[i]) == i,
{
}

/// Taking an item out by moving the last one into its place keeps a
/// sequence free of repetition, and leaves exactly the other items.
pub proof fn lemma_swap_removed<T>(items: Seq<T>, index: int)
    requires
        items.no_duplicates(),
        0 <= index < items.len(),
    ensures
        swap_removed(items, index).no_duplicates(),
        swap_removed(items, index).len() == items.len() - 1,
        forall|x: T| #[trigger]
            swap_removed(items, index).contains(x) <==> (items.contains(x) && x != items[index]),
{
    let out = swap_removed(items, index);
    assert forall|x: T| #[trigger] out.contains(x) <==> (items.contains(x) && x != items[index]) by {
        if out.contains(x) {
            let j = choose|j: int| 0 <= j < out.len() && out[j] == x;
            if j == index {
                assert(items[items.len() - 1] == x);
            } else {
                assert(items[j] == x);
            }
        }
        if items.contains(x) && x != items[index] {
            let j = choose|j: int| 0 <= j < items.len() && items[j] == x;
            if j == items.len() - 1 {
                assert(out[index] == x);
            } else {
                assert(out[j] == x);
            }
        }
    }
}

/// Adding an item that a sequence does not hold keeps it free of repetition.
pub proof fn lemma_push_fresh<T>(items: Seq<T>, item: T)
    requires
        items.no_duplicates(),
        !items.contains(item),
    ensures
        items.push(item).no_duplicates(),
        forall|x: T| #[trigger] items.push(item).contains(x) <==> (items.contains(x) || x == item),
{
    let out = items.push(item);
    assert forall|x: T| #[trigger] out.contains(x) <==> (items.contains(x) || x == item) by {
        if out.contains(x) {
            let j = choose|j: int| 0 <= j < out.len() && out[j] == x;
            if j < items.len() {
                assert(items[j] == x);
            }
        }
        if items.contains(x) {
            let j = choose|j: int| 0 <= j < items.len() && items[j] == x;
            assert(out[j] == x);
        }
        if x == item {
            assert(out[items.len() as int] == x);
        }
    }
    assert forall|a: int, b: int| 0 <= a < out.len() && 0 <= b < out.len() && a != b implies out[a]
        != out[b] by {
        if a < items.len() {
            assert(items[a] == out[a]);
        }
        if b < items.len() {
            assert(items[b] == out[b]);
        }
    }
}

/// A set of positions that keeps its items in a definite order: a new
/// position goes behind the last, and one that is taken out is replaced by
/// the last.
pub struct PosSet {
    items: IndexSet<(i32, i32, i32)>,
}

impl PosSet {
    /// The positions, in the order in which the set keeps them.
    pub closed spec fn view(&self) -> Seq<IVec3> {
        positions_of_keys(pos_set_items(self.items))
    }

    /// No position occurs twice.
    pub closed spec fn wf(&self) -> bool {
        pos_set_items(self.items).no_duplicates()
    }

    pub proof fn lemma_wf(&self)
        requires
            self.wf(),
        ensures
            self@.no_duplicates(),
    {
        let items = pos_set_items(self.items);
        assert forall|a: int, b: int| 0 <= a < self@.len() && 0 <= b < self@.len() && a != b implies self@[a]
            != self@[b] by {
            assert(items[a] != items[b]);
        }
    }

    proof fn lemma_contains(items: Seq<(i32, i32, i32)>, pos: IVec3)
        ensures
            positions_of_keys(items).contains(pos) <==> items.contains(pos.key()),
    {
        if items.contains(pos.key()) {
            let i = choose|i: int| 0 <= i < items.len() && items[i] == pos.key();
            assert(positions_of_keys(items)[i] == pos);
        }
        if positions_of_keys(items).contains(pos) {
            let i = choose|i: int|
                0 <= i < positions_of_keys(items).len() && positions_of_keys(items)[i] == pos;
            assert(items[i] == pos.key());
        }
    }

    pub fn new() -> (set: PosSet)
        ensures
            set.wf(),
            set@ == Seq::<IVec3>::empty(),
    {
        let set = PosSet { items: pos_set_new() };
        proof {
            assert(set@ =~= Seq::<IVec3>::empty());
        }
        set
    }

    pub fn len(&self) -> (len: usize)
        ensures
            len == self@.len(),
    {
        pos_set_len(&self.items)
    }

    pub fn is_empty(&self) -> (empty: bool)
        ensures
            empty == (self@.len() == 0),
    {
        pos_set_len(&self.items) == 0
    }

    pub fn contains(&self, pos: IVec3) -> (found: bool)
        ensures
            found == self@.contains(pos),
    {
        proof {
            Self::lemma_contains(pos_set_items(self.items), pos);
        }
        pos_set_get_index_of(&self.items, pos.to_key()).is_some()
    }

    /// The place of a position in the set's order.
    pub fn get_index_of(&self, pos: IVec3) -> (index: Option<usize>)
        ensures
            match index {
                Some(i) => i < self@.len() && self@[i as int] == pos,
                None => !self@.contains(pos),
            },
    {
        proof {
            Self::lemma_contains(pos_set_items(self.items), pos);
        }
        pos_set_get_index_of(&self.items, pos.to_key())
    }

    /// The position at a place of the set's order.
    pub fn get_index(&self, index: usize) -> (pos: Option<IVec3>)
        ensures
            pos == if index < self@.len() {
                Some(self@[index as int])
            } else {
                None
            },
    {
        match pos_set_get_index(&self.items, index) {
            Some(key) => Some(IVec3::from_key(key)),
            None => None,
        }
    }

    /// Adds a position behind the last, unless the set holds it already.
    pub fn insert(&mut self, pos: IVec3) -> (added: bool)
        requires
            old(self).wf(),
        ensures
            final(self).wf(),
            added == !old(self)@.contains(pos),
            final(self)@ == if added {
                old(self)@.push(pos)
            } else {
                old(self)@
            },
    {
        let ghost before = pos_set_items(self.items);
        proof {
            Self::lemma_contains(before, pos);
        }
        let added = pos_set_insert(&mut self.items, pos.to_key());
        proof {
            if added {
                lemma_push_fresh(before, pos.key());
                assert(self@ =~= old(self)@.push(pos));
            }
        }
        added
    }

    /// Takes a position out; the last position moves into its place.
    pub fn swap_remove(&mut self, pos: IVec3) -> (index: Option<usize>)
        requires
            old(self).wf(),
        ensures
            final(self).wf(),
            match index {
                Some(i) => {
                    &&& i < old(self)@.len()
                    &&& old(self)@[i as int] == pos
                    &&& final(self)@ == swap_removed(old(self)@, i as int)
                },
                None => !old(self)@.contains(pos) && final(self)@ == old(self)@,
            },
    {
        let ghost before = pos_set_items(self.items);
        proof {
            Self::lemma_contains(before, pos);
        }
        let index = pos_set_swap_remove(&mut self.items, pos.to_key());
        proof {
            if let Some(i) = index {
                lemma_swap_removed(before, i as int);
                assert(self@ =~= swap_removed(old(self)@, i as int));
            }
        }
        index
    }
}

/// A map from positions to values that keeps its entries in a definite
/// order: a new entry goes behind the last, and one that is taken out is
/// replaced by the last.
pub struct PosMap<V> {
    keys: PosSet,
    values: Vec<V>,
}

impl<V> PosMap<V> {
    /// The keys, in the order in which the map keeps its entries.
    pub closed spec fn keys(&self) -> Seq<IVec3> {
        self.keys@
    }

    /// The values, each at the place of its key.
    pub closed spec fn values(&self) -> Seq<V> {
        self.values@
    }

    /// Every key has a value, and no key occurs twice.
    pub closed spec fn wf(&self) -> bool {
        &&& self.keys.wf()
        &&& self.keys@.len() == self.values@.len()
    }

    /// The value stored under `key`, if there is one.
    pub open spec fn spec_get(&self, key: IVec3) -> Option<V> {
        if self.keys().contains(key) {
            Some(self.values()[place_of(self.keys(), key)])
        } else {
            None
        }
    }

    pub proof fn lemma_wf(&self)
        requires
            self.wf(),
        ensures
            self.keys().len() == self.values().len(),
            self.keys().no_duplicates(),
            forall|i: int|
                0 <= i < self.keys().len() ==> self.spec_get(#[trigger] self.keys()[i]) == Some(
                    self.values()[i],
                ),
    {
        self.keys.lemma_wf();
        assert forall|i: int| 0 <= i < self.keys().len() implies self.spec_get(
            #[trigger] self.keys()[i],
        ) == Some(self.values()[i]) by {
            lemma_place_of(self.keys(), i);
        }
    }

    pub fn new() -> (map: PosMap<V>)
        ensures
            map.wf(),
            map.keys() == Seq::<IVec3>::empty(),
            map.values() == Seq::<V>::empty(),
    {
        PosMap { keys: PosSet::new(), values: Vec::new() }
    }

    pub fn len(&self) -> (len: usize)
        requires
            self.wf(),
        ensures
            len == self.keys().len(),
            len == self.values().len(),
    {
        self.values.len()
    }

    pub fn contains_key(&self, key: IVec3) -> (found: bool)
        ensures
            found == self.keys().contains(key),
    {
        self.keys.contains(key)
    }

    /// The place of a key in the map's order.
    pub fn get_index_of(&self, key: IVec3) -> (index: Option<usize>)
        requires
            self.wf(),
        ensures
            match index {
                Some(i) => i < self.keys().len() && self.keys()[i as int] == key && self.spec_get(
                    key,
                ) == Some(self.values()[i as int]),
                None => !self.keys().contains(key) && self.spec_get(key) is None,
            },
    {
        proof {
            self.lemma_wf();
        }
        self.keys.get_index_of(key)
    }

    pub fn get(&self, key: IVec3) -> (value: Option<&V>)
        requires
            self.wf(),
        ensures
            match value {
                Some(v) => self.spec_get(key) == Some(*v),
                None => self.spec_get(key) is None,
            },
    {
        match self.get_index_of(key) {
            Some(i) => Some(&self.values[i]),
            None => None,
        }
    }

    /// The key at a place of the map's order.
    pub fn key_at(&self, index: usize) -> (key: IVec3)
        requires
            self.wf(),
            index < self.keys().len(),
        ensures
            key == self.keys()[index as int],
    {
        match self.keys.get_index(index) {
            Some(key) => key,
            None => IVec3 { x: 0, y: 0, z: 0 },
        }
    }

    /// The value at a place of the map's order.
    pub fn value_at(&self, index: usize) -> (value: &V)
        requires
            self.wf(),
            index < self.keys().len(),
        ensures
            *value == self.values()[index as int],
    {
        &self.values[index]
    }

    /// The value at a place of the map's order, to be changed in place.
    pub fn value_at_mut(&mut self, index: usize) -> (value: &mut V)
        requires
            old(self).wf(),
            index < old(self).keys().len(),
        ensures
            *value == old(self).values()[index as int],
            final(self).wf(),
            final(self).keys() == old(self).keys(),
            final(self).values() == old(self).values().update(index as int, *final(value)),
            final(self).spec_get(old(self).keys()[index as int]) == Some(*final(value)),
            forall|k: IVec3|
                k != old(self).keys()[index as int] ==> #[trigger] final(self).spec_get(k) == old(
                    self,
                ).spec_get(k),
    {
        proof {
            self.keys.lemma_wf();
            lemma_place_of(self.keys@, index as int);
            assert forall|k: IVec3, v: V| k != self.keys@[index as int] implies (if self.keys@.contains(k) {
                Some(#[trigger] self.values@.update(index as int, v)[place_of(self.keys@, k)])
            } else {
                None
            }) == self.spec_get(k) by {}
        }
        &mut self.values[index]
    }

    /// Stores `value` under `key`. Under a key that the map holds the value
    /// is replaced and the entry keeps its place; a new key goes behind the
    /// last entry. Returns the place of the entry.
    pub fn insert(&mut self, key: IVec3, value: V) -> (index: usize)
        requires
            old(self).wf(),
        ensures
            final(self).wf(),
            final(self).spec_get(key) == Some(value),
            old(self).keys().contains(key) ==> {
                &&& index < old(self).keys().len()
                &&& old(self).keys()[index as int] == key
                &&& final(self).keys() == old(self).keys()
                &&& final(self).values() == old(self).values().update(index as int, value)
            },
            !old(self).keys().contains(key) ==> {
                &&& index == old(self).keys().len()
                &&& final(self).keys() == old(self).keys().push(key)
                &&& final(self).values() == old(self).values().push(value)
            },
            forall|k: IVec3| k != key ==> #[trigger] final(self).spec_get(k) == old(self).spec_get(k),
    {
        proof {
            self.lemma_wf();
        }
        match self.keys.get_index_of(key) {
            Some(i) => {
                self.values.set(i, value);
                proof {
                    self.lemma_wf();
                    lemma_place_of(self.keys(), i as int);
                }
                i
            },
            None => {
                let i = self.values.len();
                self.keys.insert(key);
                self.values.push(value);
                proof {
                    self.lemma_wf();
                    assert(self.keys()[i as int] == key);
                    lemma_push_fresh(old(self).keys(), key);
                    assert forall|k: IVec3| k != key implies #[trigger] self.spec_get(k) == old(
                        self,
                    ).spec_get(k) by {
                        if old(self).keys().contains(k) {
                            let j = place_of(old(self).keys(), k);
                            assert(self.keys()[j] == k);
                            lemma_place_of(self.keys(), j);
                        }
                    }
                }
                i
            },
        }
    }

    /// Takes the entry of `key` out; the last entry moves into its place.
    pub fn swap_remove(&mut self, key: IVec3) -> (removed: Option<V>)
        requires
            old(self).wf(),
        ensures
            final(self).wf(),
            removed == old(self).spec_get(key),
            !final(self).keys().contains(key),
            match removed {
                Some(_) => {
                    let i = place_of(old(self).keys(), key);
                    &&& 0 <= i < old(self).keys().len()
                    &&& final(self).keys() == swap_removed(old(self).keys(), i)
                    &&& final(self).values() == swap_removed(old(self).values(), i)
                },
                None => final(self).keys() == old(self).keys() && final(self).values() == old(
                    self,
                ).values(),
            },
            forall|k: IVec3| k != key ==> #[trigger] final(self).spec_get(k) == old(self).spec_get(k),
    {
        proof {
            self.lemma_wf();
        }
        match self.keys.swap_remove(key) {
            Some(i) => {
                proof {
                    lemma_place_of(old(self).keys(), i as int);
                    lemma_swap_removed(old(self).keys(), i as int);
                }
                let value = self.values.swap_remove(i);
                proof {
                    self.keys.lemma_wf();
                    let last = old(self).keys().len() - 1;
                    assert forall|k: IVec3| k != key implies #[trigger] self.spec_get(k) == old(
                        self,
                    ).spec_get(k) by {
                        if old(self).keys().contains(k) {
                            let j = place_of(old(self).keys(), k);
                            if j == last {
                                assert(self.keys()[i as int] == k);
                                lemma_place_of(self.keys(), i as int);
                            } else {
                                assert(self.keys()[j] == k);
                                lemma_place_of(self.keys(), j);
                            }
                        }
                    }
                }
                Some(value)
            },
            None => None,
        }
    }
}

impl<V> PosMap<V> {
    /// Takes all entries out: returns the keys and the values in the order
    /// in which the map kept them, and leaves the map empty.
    pub fn take_all(&mut self) -> (entries: (Vec<IVec3>, Vec<V>))
        requires
            old(self).wf(),
        ensures
            final(self).wf(),
            final(self).keys() == Seq::<IVec3>::empty(),
            final(self).values() == Seq::<V>::empty(),
            entries.0@ == old(self).keys(),
            entries.1@ == old(self).values(),
    {
        let mut keys: Vec<IVec3> = Vec::new();
        let count = self.keys.len();
        let mut i: usize = 0;
        while i < count
            invariant
                i <= count,
                count == self.keys@.len(),
                keys@ == self.keys@.take(i as int),
            decreases count - i,
        {
            match self.keys.get_index(i) {
                Some(key) => {
                    keys.push(key);
                },
                None => {},
            }
            proof {
                assert(keys@ =~= self.keys@.take(i as int + 1));
            }
            i += 1;
        }
        proof {
            assert(self.keys@.take(count as int) =~= self.keys@);
        }
        let mut values: Vec<V> = Vec::new();
        core::mem::swap(&mut self.values, &mut values);
        self.keys = PosSet::new();
        (keys, values)
    }
}

} // verus!
