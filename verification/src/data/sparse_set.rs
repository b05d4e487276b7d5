//! A keyed collection with densely packed values, and cursors over it.

use crate::component::comp_storage::swap_removed;
use std::collections::HashMap;
use std::hash::Hash;
use vstd::prelude::*;
use vstd::std_specs::hash::obeys_key_model;

verus! {

/// A map from keys to values that keeps the values densely packed, in the
/// order in which their keys came, so that all of them can be walked fast.
pub struct SparseSet<I, T> where I: Hash + Eq + Copy {
    sparse: HashMap<I, usize>,
    indices: Vec<I>,
    dense: Vec<T>,
}

impl<I, T> View for SparseSet<I, T> where I: Hash + Eq + Copy {
    type V = Map<I, T>;

    /// The value of each key.
    open spec fn view(&self) -> Map<I, T> {
        Map::new(|key: I| self.slot_of().contains_key(key),
            |key: I| self.values()[self.slot_of()[key] as int])
    }
}

impl<I, T> SparseSet<I, T> where I: Hash + Eq + Copy {
    /// The slot of each key.
    pub closed spec fn slot_of(&self) -> Map<I, usize> {
        self.sparse@
    }

    /// The key of each slot.
    pub closed spec fn keys(&self) -> Seq<I> {
        self.indices@
    }

    /// The value of each slot.
    pub closed spec fn values(&self) -> Seq<T> {
        self.dense@
    }

    /// The keys with their values in the order of the slots, which is the
    /// order in which the set is walked.
    pub open spec fn entries(&self) -> Seq<(I, T)> {
        Seq::new(self.keys().len(), |slot: int| (self.keys()[slot], self.values()[slot]))
    }

    /// Each slot has a key and a value, and the slot map is the inverse of
    /// the list of keys.
    pub open spec fn wf(&self) -> bool {
        &&& obeys_key_model::<I>()
        &&& self.keys().len() == self.values().len()
        &&& forall|slot: int|
            0 <= slot < self.keys().len()
                ==> self.slot_of().contains_key(#[trigger] self.keys()[slot])
                && self.slot_of()[self.keys()[slot]] == slot
        &&& forall|key: I| #[trigger]
            self.slot_of().contains_key(key) ==> self.slot_of()[key] < self.keys().len()
                && self.keys()[self.slot_of()[key] as int] == key
    }

    /// An empty set.
    pub fn new() -> (set: Self)
        requires
            obeys_key_model::<I>(),
        ensures
            set.wf(),
            set@ == Map::<I, T>::empty(),
            set.entries() == Seq::<(I, T)>::empty(),
    {
        let set = SparseSet { sparse: HashMap::new(), indices: Vec::new(), dense: Vec::new() };
        proof {
            assert(set@ =~= Map::<I, T>::empty());
            assert(set.entries() =~= Seq::<(I, T)>::empty());
        }
        set
    }

    /// Sets the value of `index` to `value`. A new key gets the next free
    /// slot; a key that is there keeps its slot.
    pub fn insert(&mut self, index: I, value: T)
        requires
            old(self).wf(),
        ensures
            final(self).wf(),
            final(self)@ == old(self)@.insert(index, value),
            final(self).entries() == if old(self)@.contains_key(index) {
                old(self).entries().update(old(self).slot_of()[index] as int, (index, value))
            } else {
                old(self).entries().push((index, value))
            },
    {
        broadcast use vstd::std_specs::hash::group_hash_axioms;

        let slot = match self.sparse.get(&index) {
            Some(slot) => Some(*slot),
            None => None,
        };
        match slot {
            Some(dense_index) => {
                proof {
                    assert(self.slot_of().contains_key(index));
                }
                self.dense[dense_index] = value;
                proof {
                    assert(self.entries() =~= old(self).entries().update(
                        dense_index as int,
                        (index, value),
                    ));
                    assert(self@ =~= old(self)@.insert(index, value)) by {
                        assert forall|key: I| #[trigger] self@.contains_key(key) implies self@[key]
                            == old(self)@.insert(index, value)[key] by {
                            assert(old(self).slot_of().contains_key(key));
                        }
                    }
                }
            },
            None => {
                self.dense.push(value);
                self.indices.push(index);
                let dense_index = self.dense.len() - 1;
                self.sparse.insert(index, dense_index);
                proof {
                    assert forall|slot: int| 0 <= slot < self.keys().len()
                        implies self.slot_of().contains_key(
                        #[trigger] self.keys()[slot],
                    ) && self.slot_of()[self.keys()[slot]] == slot by {
                        if slot < dense_index {
                            assert(self.keys()[slot] == old(self).keys()[slot]);
                            assert(old(self).slot_of().contains_key(old(self).keys()[slot]));
                        }
                    }
                    assert forall|key: I| #[trigger] self.slot_of().contains_key(key)
                        implies self.slot_of()[key]
                        < self.keys().len() && self.keys()[self.slot_of()[key] as int] == key by {
                        if key != index {
                            assert(old(self).slot_of().contains_key(key));
                        }
                    }
                    assert(self.entries() =~= old(self).entries().push((index, value)));
                    assert(self@ =~= old(self)@.insert(index, value)) by {
                        assert forall|key: I| #[trigger] self@.contains_key(key) implies self@[key]
                            == old(self)@.insert(index, value)[key] by {
                            if key != index {
                                assert(old(self).slot_of().contains_key(key));
                            }
                        }
                    }
                }
            },
        }
    }

    /// Removes `index` with its value; the last slot takes the place of its
    /// slot. A set without that key stays as it is.
    pub fn remove(&mut self, index: I)
        requires
            old(self).wf(),
        ensures
            final(self).wf(),
            final(self)@ == old(self)@.remove(index),
            final(self).entries() == if old(self)@.contains_key(index) {
                swap_removed(old(self).entries(), old(self).slot_of()[index] as int)
            } else {
                old(self).entries()
            },
    {
        broadcast use vstd::std_specs::hash::group_hash_axioms;

        let ghost before = *self;
        match self.sparse.remove(&index) {
            Some(dense_index) => {
                proof {
                    assert(before.slot_of().contains_key(index));
                    assert(before.slot_of().contains_key(before.keys()[before.keys().len() - 1]));
                }
                let last_slot = self.dense.len() - 1;
                let last_key = self.indices[last_slot];
                let _ = self.dense.swap_remove(dense_index);
                let _ = self.indices.swap_remove(dense_index);
                if dense_index < last_slot {
                    self.sparse.insert(last_key, dense_index);
                }
                proof {
                    assert forall|slot: int| 0 <= slot < self.keys().len()
                        implies self.slot_of().contains_key(
                        #[trigger] self.keys()[slot],
                    ) && self.slot_of()[self.keys()[slot]] == slot by {
                        if slot == dense_index {
                            assert(self.keys()[slot] == last_key);
                        } else {
                            assert(self.keys()[slot] == before.keys()[slot]);
                            assert(before.slot_of().contains_key(before.keys()[slot]));
                        }
                    }
                    assert forall|key: I| #[trigger] self.slot_of().contains_key(key)
                        implies self.slot_of()[key]
                        < self.keys().len() && self.keys()[self.slot_of()[key] as int] == key by {
                        if key != last_key {
                            assert(before.slot_of().contains_key(key));
                        }
                    }
                    assert(self.entries() =~= swap_removed(before.entries(), dense_index as int));
                    assert(self@ =~= before@.remove(index)) by {
                        assert forall|key: I| self@.contains_key(key) <==> before@.remove(
                            index,
                        ).contains_key(key) by {
                            if key == last_key && key != index {
                                assert(self.slot_of().contains_key(key));
                            }
                        }
                        assert forall|key: I| #[trigger] self@.contains_key(key) implies self@[key]
                            == before@.remove(index)[key] by {
                            assert(before.slot_of().contains_key(key));
                            if key != last_key {
                                assert(before.slot_of()[key] != last_slot) by {
                                    if before.slot_of()[key] == last_slot {
                                        assert(before.keys()[last_slot as int] == key);
                                    }
                                }
                            }
                        }
                    }
                }
            },
            None => {
                proof {
                    assert(self.slot_of() =~= before.slot_of());
                    assert(self@ =~= before@.remove(index));
                }
            },
        }
    }

    /// The value of `index`, if the key is there.
    pub fn get(&self, index: I) -> (value: Option<&T>)
        requires
            self.wf(),
        ensures
            value.is_some() == self@.contains_key(index),
            value.is_some() ==> *value.unwrap() == self@[index],
    {
        broadcast use vstd::std_specs::hash::group_hash_axioms;

        match self.sparse.get(&index) {
            Some(slot) => {
                proof {
                    assert(self.slot_of().contains_key(index));
                }
                Some(&self.dense[*slot])
            },
            None => None,
        }
    }

    /// The value of `index`, for writing, if the key is there.
    pub fn get_mut(&mut self, index: I) -> (value: Option<&mut T>)
        requires
            old(self).wf(),
        ensures
            value.is_some() == old(self)@.contains_key(index),
            final(self).wf(),
            final(self).keys() == old(self).keys(),
            final(self).slot_of() == old(self).slot_of(),
            value.is_some() ==> *value.unwrap() == old(self)@[index] && final(self).values() == old(
                self,
            ).values().update(old(self).slot_of()[index] as int, *final(value.unwrap())),
            value.is_some() ==> final(self)@ == old(self)@.insert(index, *final(value.unwrap())),
            value.is_none() ==> final(self).values() == old(self).values(),
    {
        broadcast use vstd::std_specs::hash::group_hash_axioms;

        let slot = match self.sparse.get(&index) {
            Some(slot) => Some(*slot),
            None => None,
        };
        match slot {
            Some(slot) => {
                proof {
                    assert(self.slot_of().contains_key(index));
                    assert forall|after: Self|
                        #![trigger after.wf()]
                        #![trigger after@]
                        after.keys() == self.keys() && after.slot_of() == self.slot_of()
                            && after.values() == self.values().update(
                            slot as int,
                            after.values()[slot as int],
                        ) implies after.wf() && after@ == self@.insert(
                        index,
                        after.values()[slot as int],
                    ) by {
                        assert(after@ =~= self@.insert(index, after.values()[slot as int])) by {
                            assert forall|key: I| #[trigger] after@.contains_key(key)
                                implies after@[key]
                                == self@.insert(index, after.values()[slot as int])[key] by {
                                assert(self.slot_of().contains_key(key));
                            }
                        }
                    }
                }
                Some(&mut self.dense[slot])
            },
            None => None,
        }
    }

    /// The number of keys.
    pub fn len(&self) -> (count: usize)
        requires
            self.wf(),
        ensures
            count == self.entries().len(),
    {
        self.indices.len()
    }

    /// The key of the slot `slot`.
    pub fn key_at(&self, slot: usize) -> (key: I)
        requires
            self.wf(),
            slot < self.entries().len(),
        ensures
            key == self.entries()[slot as int].0,
            self@.contains_key(key),
    {
        proof {
            assert(self.slot_of().contains_key(self.keys()[slot as int]));
        }
        self.indices[slot]
    }

    /// The value of the slot `slot`.
    pub fn value_at(&self, slot: usize) -> (value: &T)
        requires
            self.wf(),
            slot < self.entries().len(),
        ensures
            *value == self.entries()[slot as int].1,
    {
        &self.dense[slot]
    }

    /// The value of the slot `slot`, for writing.
    pub fn value_at_mut(&mut self, slot: usize) -> (value: &mut T)
        requires
            old(self).wf(),
            slot < old(self).entries().len(),
        ensures
            *value == old(self).entries()[slot as int].1,
            final(self).wf(),
            final(self).keys() == old(self).keys(),
            final(self).slot_of() == old(self).slot_of(),
            final(self).values() == old(self).values().update(slot as int, *final(value)),
            final(self).entries() == old(self).entries().update(
                slot as int,
                (old(self).entries()[slot as int].0, *final(value)),
            ),
            final(self)@ == old(self)@.insert(old(self).entries()[slot as int].0, *final(value)),
    {
        proof {
            let key = self.keys()[slot as int];
            assert(self.slot_of().contains_key(key));
            assert forall|after: Self|
                #![trigger after.wf()]
                #![trigger after@]
                #![trigger after.entries()]
                after.keys() == self.keys() && after.slot_of() == self.slot_of() && after.values()
                    == self.values().update(
                    slot as int,
                    after.values()[slot as int],
                ) implies after.wf() && after@ == self@.insert(key, after.values()[slot as int])
                && after.entries() == self.entries().update(
                slot as int,
                (key, after.values()[slot as int]),
            ) by {
                assert(after@ =~= self@.insert(key, after.values()[slot as int])) by {
                    assert forall|other: I| #[trigger] after@.contains_key(other)
                        implies after@[other]
                        == self@.insert(key, after.values()[slot as int])[other] by {
                        assert(self.slot_of().contains_key(other));
                    }
                }
                assert(after.entries() =~= self.entries().update(
                    slot as int,
                    (key, after.values()[slot as int]),
                ));
            }
        }
        &mut self.dense[slot]
    }

    /// A cursor at the first slot.
    pub fn iter(&self) -> (cursor: SparseArrayIter<'_, I, T>)
        requires
            self.wf(),
        ensures
            cursor.wf(),
            cursor.remaining() == self.entries(),
    {
        let cursor = SparseArrayIter { dense: &self.dense, indices: &self.indices, index: 0 };
        proof {
            assert(cursor.remaining() =~= self.entries());
        }
        cursor
    }

    /// A cursor at the first slot that hands out the values for writing.
    pub fn iter_mut(&mut self) -> (cursor: SparseArrayIterMut<'_, I, T>)
        requires
            old(self).wf(),
        ensures
            cursor.wf(),
            cursor.index == 0,
            cursor.store() == *old(self),
            cursor.remaining() == old(self).entries(),
            *final(cursor.set) == *final(self),
    {
        let cursor = SparseArrayIterMut { set: self, index: 0 };
        proof {
            assert(cursor.remaining() =~= old(self).entries());
        }
        cursor
    }
}

/// A cursor over the keys of a sparse set with their values, in the order
/// of the slots.
pub struct SparseArrayIter<'a, I: Hash + Eq + Copy, T> {
    dense: &'a Vec<T>,
    indices: &'a Vec<I>,
    index: usize,
}

impl<'a, I, T> SparseArrayIter<'a, I, T> where I: Hash + Eq + Copy {
    /// The keys that the cursor has not handed out yet, with their values.
    pub closed spec fn remaining(&self) -> Seq<(I, T)> {
        Seq::new(
            (self.indices@.len() - self.index) as nat,
            |k: int| (self.indices@[self.index + k], self.dense@[self.index + k]),
        )
    }

    /// There is a value for each key, and the cursor stands inside.
    pub closed spec fn wf(&self) -> bool {
        &&& self.indices@.len() == self.dense@.len()
        &&& self.index <= self.indices@.len()
    }

    /// Hands out the next key with its value and moves on; none when all
    /// slots are walked through.
    pub fn next(&mut self) -> (item: Option<(I, &'a T)>)
        requires
            old(self).wf(),
        ensures
            final(self).wf(),
            match item {
                Some((key, value)) => old(self).remaining().len() > 0 && (key, *value) == old(
                    self,
                ).remaining()[0] && final(self).remaining() == old(self).remaining().drop_first(),
                None => old(self).remaining().len() == 0 && final(self).remaining().len() == 0,
            },
    {
        if self.index < self.dense.len() {
            let value = &self.dense[self.index];
            let key = self.indices[self.index];
            self.index += 1;
            proof {
                assert(self.remaining() =~= old(self).remaining().drop_first());
            }
            Some((key, value))
        } else {
            None
        }
    }
}

/// A cursor over the keys of a sparse set with their values for writing,
/// in the order of the slots. It hands out one value at a time.
pub struct SparseArrayIterMut<'a, I: Hash + Eq + Copy, T> {
    /// The set that is walked.
    pub set: &'a mut SparseSet<I, T>,
    /// The slot of the cursor.
    pub index: usize,
}

impl<'a, I, T> SparseArrayIterMut<'a, I, T> where I: Hash + Eq + Copy {
    /// The set as it is now.
    pub open spec fn store(&self) -> SparseSet<I, T> {
        *self.set
    }

    /// The keys that the cursor has not handed out yet, with their values.
    pub open spec fn remaining(&self) -> Seq<(I, T)> {
        self.store().entries().skip(self.index as int)
    }

    /// The set is sound, and the cursor stands inside.
    pub open spec fn wf(&self) -> bool {
        &&& self.store().wf()
        &&& self.index <= self.store().entries().len()
    }

    /// Hands out the next key with its value, for writing, and moves on;
    /// none when all slots are walked through.
    pub fn next(&mut self) -> (item: Option<(I, &mut T)>)
        requires
            old(self).wf(),
        ensures
            final(self).wf(),
            *final(final(self).set) == *final(old(self).set),
            match item {
                Some((key, value)) => {
                    &&& old(self).remaining().len() > 0
                    &&& (key, *value) == old(self).remaining()[0]
                    &&& final(self).remaining() == old(self).remaining().drop_first()
                    &&& old(self).store()@.contains_key(key)
                    &&& final(self).store()@ == old(self).store()@.insert(key, *final(value))
                },
                None => {
                    &&& old(self).remaining().len() == 0
                    &&& final(self).remaining().len() == 0
                    &&& final(self).store() == old(self).store()
                },
            },
    {
        if self.index < self.set.len() {
            let slot = self.index;
            let key = self.set.key_at(slot);
            self.index += 1;
            proof {
                let before = *self.set;
                assert forall|value: T| #![trigger before.entries().update(slot as int, (key,
                    value))]
                    before.entries().update(slot as int, (key, value)).skip(slot + 1)
                        == before.entries().skip(slot as int).drop_first() by {
                    assert(before.entries().update(slot as int, (key, value)).skip(slot + 1)
                        =~= before.entries().skip(slot as int).drop_first());
                }
            }
            Some((key, self.set.value_at_mut(slot)))
        } else {
            None
        }
    }
}

/// A cursor over two sparse sets at once. It hands out nothing: the walk
/// over the keys of both sets is [`SparseArrayIntersectionMutIter`].
pub struct SparseArrayIntersectionIter<'a, I, T, X> where I: Hash + Eq + Copy {
    iter_a: SparseArrayIter<'a, I, T>,
    iter_b: SparseArrayIter<'a, I, X>,
}

impl<'a, I, T, X> SparseArrayIntersectionIter<'a, I, T, X> where I: Hash + Eq + Copy {
    /// The cursor over the first set.
    pub closed spec fn first(&self) -> SparseArrayIter<'a, I, T> {
        self.iter_a
    }

    /// The cursor over the second set.
    pub closed spec fn second(&self) -> SparseArrayIter<'a, I, X> {
        self.iter_b
    }

    /// A cursor over the sets of `iter_a` and `iter_b`.
    pub fn new(iter_a: SparseArrayIter<'a, I, T>, iter_b: SparseArrayIter<'a, I,
        X>) -> (cursor: Self)
        ensures
            cursor.first() == iter_a,
            cursor.second() == iter_b,
    {
        SparseArrayIntersectionIter { iter_a, iter_b }
    }

    /// Hands out nothing and leaves both cursors where they are.
    pub fn next(&mut self) -> (item: Option<(I, &'a T, &'a X)>)
        ensures
            item is None,
            *final(self) == *old(self),
    {
        None
    }
}

/// A cursor over the keys that two sparse sets share, in the order of the
/// slots of the first set, with the values of both sets for writing.
pub struct SparseArrayIntersectionMutIter<'a, I, T, X> where I: Hash + Eq + Copy {
    /// The set whose slots are walked.
    pub first: &'a mut SparseSet<I, T>,
    /// The set in which the keys are looked up.
    pub second: &'a mut SparseSet<I, X>,
    /// The slot of the cursor in the first set.
    pub index: usize,
}

/// The position of the first of `keys` from `from` on that `other` holds;
/// the length of `keys` if there is none.
pub open spec fn next_shared<I, X>(keys: Seq<I>, other: Map<I, X>, from: int) -> int
    decreases keys.len() - from,
{
    if from < 0 || from >= keys.len() {
        keys.len() as int
    } else if other.contains_key(keys[from]) {
        from
    } else {
        next_shared(keys, other, from + 1)
    }
}

impl<'a, I, T, X> SparseArrayIntersectionMutIter<'a, I, T, X> where I: Hash + Eq + Copy {
    /// The first set as it is now.
    pub open spec fn first_store(&self) -> SparseSet<I, T> {
        *self.first
    }

    /// The second set as it is now.
    pub open spec fn second_store(&self) -> SparseSet<I, X> {
        *self.second
    }

    /// Both sets are sound.
    pub open spec fn wf(&self) -> bool {
        &&& self.first_store().wf()
        &&& self.second_store().wf()
    }

    /// A cursor at the first slot of `a`.
    pub fn new(a: &'a mut SparseSet<I, T>, b: &'a mut SparseSet<I, X>) -> (cursor: Self)
        requires
            old(a).wf(),
            old(b).wf(),
        ensures
            cursor.wf(),
            cursor.index == 0,
            cursor.first_store() == *old(a),
            cursor.second_store() == *old(b),
            *final(cursor.first) == *final(a),
            *final(cursor.second) == *final(b),
    {
        SparseArrayIntersectionMutIter { first: a, second: b, index: 0 }
    }

    /// Hands out the next key of the first set that the second set holds
    /// too, with the values that it has in both sets, for writing, and
    /// moves behind it; none when no such key is left.
    pub fn next(&mut self) -> (item: Option<(I, &mut T, &mut X)>)
        requires
            old(self).wf(),
        ensures
            final(self).wf(),
            *final(final(self).first) == *final(old(self).first),
            *final(final(self).second) == *final(old(self).second),
            final(self).first_store().keys() == old(self).first_store().keys(),
            final(self).second_store()@.dom() == old(self).second_store()@.dom(),
            match item {
                Some((key, first, second)) => {
                    let at = next_shared(
                        old(self).first_store().keys(),
                        old(self).second_store()@,
                        old(self).index as int,
                    );
                    &&& at < old(self).first_store().keys().len()
                    &&& key == old(self).first_store().keys()[at]
                    &&& final(self).index == at + 1
                    &&& *first == old(self).first_store()@[key]
                    &&& *second == old(self).second_store()@[key]
                    &&& final(self).first_store()@ == old(self).first_store()@.insert(
                        key,
                        *final(first),
                    )
                    &&& final(self).second_store()@ == old(self).second_store()@.insert(
                        key,
                        *final(second),
                    )
                },
                None => {
                    &&& next_shared(
                        old(self).first_store().keys(),
                        old(self).second_store()@,
                        old(self).index as int,
                    ) == old(self).first_store().keys().len()
                    &&& final(self).first_store() == old(self).first_store()
                    &&& final(self).second_store() == old(self).second_store()
                },
            },
    {
        let count = self.first.len();
        let mut found: Option<(usize, I)> = None;
        while self.index < count && found.is_none()
            invariant
                self.wf(),
                count == self.first_store().keys().len(),
                self.first_store() == old(self).first_store(),
                self.second_store() == old(self).second_store(),
                *final(self.first) == *final(old(self).first),
                *final(self.second) == *final(old(self).second),
                match found {
                    Some((slot, key)) => {
                        &&& slot == next_shared(
                            old(self).first_store().keys(),
                            old(self).second_store()@,
                            old(self).index as int,
                        )
                        &&& slot < count
                        &&& self.index == slot + 1
                        &&& key == self.first_store().keys()[slot as int]
                        &&& self.second_store()@.contains_key(key)
                    },
                    None => next_shared(
                        self.first_store().keys(),
                        self.second_store()@,
                        self.index as int,
                    ) == next_shared(
                        old(self).first_store().keys(),
                        old(self).second_store()@,
                        old(self).index as int,
                    ),
                },
            decreases count - self.index + if found.is_none() { 1int } else { 0int },
        {
            let slot = self.index;
            let key = self.first.key_at(slot);
            self.index += 1;
            if self.second.get(key).is_some() {
                found = Some((slot, key));
            }
        }
        match found {
            Some((slot, key)) => {
                proof {
                    let store = self.first_store();
                    assert(store.slot_of().contains_key(store.keys()[slot as int]));
                    assert(store@[key] == store.entries()[slot as int].1);
                }
                let first = self.first.value_at_mut(slot);
                let second = self.second.get_mut(key).unwrap();
                Some((key, first, second))
            },
            None => None,
        }
    }
}

} // verus!
