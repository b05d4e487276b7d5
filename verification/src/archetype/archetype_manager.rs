//! The registry of archetypes: structural changes of entities and the views
//! over all values of a component type.

use crate::archetype::archetype::{
    lemma_strictly_increasing_unique, signature_of, Archetype, ArchetypeIndex,
};
use crate::archetype::archetype_query::{
    entries_from, find_first, lemma_find_first_none, lemma_find_first_only, ArchetypeQuery,
    ArchetypeQueryMut,
};
use crate::component::comp_storage::swap_removed;
use crate::component::component::TypeKey;
use crate::entity::entity::EntityId;
use std::collections::HashMap;
use vstd::prelude::*;

verus! {

/// `ids` is sorted and holds nothing twice.
pub open spec fn ids_increasing(ids: Seq<usize>) -> bool {
    forall|i: int, j: int| 0 <= i < j < ids.len() ==> ids[i] < ids[j]
}

/// The registry of all archetypes: it knows the archetype of each entity,
/// finds the archetype of a shape, and keeps for each component type the
/// list of the archetypes that hold it.
pub struct ArchetypeManager<V> {
    // the number of the archetype of each live entity
    entities: HashMap<EntityId, usize>,
    // for each hash of a shape, the numbers of the archetypes with that hash
    archetypes_types: HashMap<u64, Vec<usize>>,
    // for each component type, the numbers of the archetypes that hold it
    archetypes_contains: HashMap<TypeKey, Vec<usize>>,
    // the archetypes by their number
    archetypes: Vec<Archetype<V>>,
}

impl<V> View for ArchetypeManager<V> {
    type V = Map<EntityId, Map<TypeKey, V>>;

    /// The live entities, each with its component values by type.
    open spec fn view(&self) -> Map<EntityId, Map<TypeKey, V>> {
        Map::new(
            |e: EntityId| self.archetype_of().contains_key(e),
            |e: EntityId| self.archetypes()[self.archetype_of()[e] as int]@[e],
        )
    }
}

impl<V> ArchetypeManager<V> {
    /// The archetypes by their number.
    pub closed spec fn archetypes(&self) -> Seq<Archetype<V>> {
        self.archetypes@
    }

    /// The number of the archetype of each live entity.
    pub closed spec fn archetype_of(&self) -> Map<EntityId, usize> {
        self.entities@
    }

    /// For each component type that was ever part of a shape, the numbers of
    /// the archetypes that hold it.
    pub closed spec fn holders(&self) -> Map<TypeKey, Seq<usize>> {
        Map::new(
            |ty: TypeKey| self.archetypes_contains@.contains_key(ty),
            |ty: TypeKey| self.archetypes_contains@[ty]@,
        )
    }

    /// For each hash of a shape, the numbers of the archetypes whose shape
    /// has that hash.
    pub closed spec fn buckets(&self) -> Map<u64, Seq<usize>> {
        Map::new(
            |hash: u64| self.archetypes_types@.contains_key(hash),
            |hash: u64| self.archetypes_types@[hash]@,
        )
    }

    /// Each of the first `count` archetypes is filed under the hash of its
    /// shape, and nothing else is filed.
    pub open spec fn buckets_cover(&self, count: int) -> bool {
        &&& forall|i: int|
            0 <= i < count ==> self.buckets().contains_key(
                signature_of((#[trigger] self.archetypes()[i]).shape()@),
            ) && self.buckets()[signature_of(self.archetypes()[i].shape()@)].contains(i as usize)
        &&& forall|hash: u64, k: int|
            self.buckets().contains_key(hash) && 0 <= k < self.buckets()[hash].len() ==> (
            #[trigger] self.buckets()[hash][k]) < count && signature_of(
                self.archetypes()[self.buckets()[hash][k] as int].shape()@,
            ) == hash
    }

    /// Each archetype is filed under the hash of its shape, and nothing
    /// else is filed.
    pub open spec fn buckets_wf(&self) -> bool {
        self.buckets_cover(self.archetypes().len() as int)
    }

    /// The numbers of the archetypes that hold the component type `ty`, in
    /// increasing order.
    pub open spec fn holders_of(&self, ty: TypeKey) -> Seq<usize> {
        if self.holders().contains_key(ty) {
            self.holders()[ty]
        } else {
            Seq::empty()
        }
    }

    /// Whether some archetype stores the shape with the component types
    /// `types`.
    pub open spec fn has_shape(&self, types: Set<TypeKey>) -> bool {
        exists|i: int|
            0 <= i < self.archetypes().len() && (#[trigger] self.archetypes()[i]).shape().type_set()
                == types
    }

    /// Every archetype is at rest, no two store the same shape, and the
    /// first stores the empty shape.
    pub open spec fn archetypes_wf(&self) -> bool {
        &&& self.archetypes().len() >= 1
        &&& self.archetypes()[0].shape()@.len() == 0
        &&& forall|i: int| 0 <= i < self.archetypes().len()
            ==> (#[trigger] self.archetypes()[i]).wf()
        &&& forall|i: int, j: int|
            0 <= i < j < self.archetypes().len() ==> (#[trigger] self.archetypes()[i]).shape()@ != (
            #[trigger] self.archetypes()[j]).shape()@
    }

    /// Every live entity has its row in exactly one archetype, the one that
    /// the entity map names.
    pub open spec fn entities_wf(&self) -> bool {
        &&& forall|e: EntityId| #[trigger]
            self.archetype_of().contains_key(e) ==> self.archetype_of()[e] < self.archetypes().len()
                && self.archetypes()[self.archetype_of()[e] as int].contains(e)
        &&& forall|i: int, e: EntityId|
            0 <= i < self.archetypes().len() && (#[trigger] self.archetypes()[i].contains(e))
                ==> self.archetype_of().contains_key(e) && self.archetype_of()[e] == i
    }

    /// The lists of holders name exactly those of the first `count`
    /// archetypes whose shape has the component type, each once.
    pub open spec fn holders_cover(&self, count: int) -> bool {
        &&& forall|ty: TypeKey| #[trigger]
            self.holders().contains_key(ty) ==> ids_increasing(self.holders()[ty])
        &&& forall|ty: TypeKey, i: int|
            0 <= i < count ==> (#[trigger] self.archetypes()[i].shape().type_set().contains(ty)
                <==> self.holders_of(ty).contains(i as usize))
        &&& forall|ty: TypeKey, k: int|
            0 <= k < self.holders_of(ty).len() ==> (#[trigger] self.holders_of(ty)[k]) < count
    }

    /// The lists of holders name exactly the archetypes whose shape has the
    /// component type, each once.
    pub open spec fn holders_wf(&self) -> bool {
        self.holders_cover(self.archetypes().len() as int)
    }

    /// The invariant of the registry.
    pub open spec fn wf(&self) -> bool {
        &&& self.archetypes_wf()
        &&& self.entities_wf()
        &&& self.holders_wf()
        &&& self.buckets_wf()
    }

    /// `after` has the entities of `self` in the same archetypes and rows.
    pub open spec fn rows_kept(&self, after: &Self) -> bool {
        &&& after.archetype_of() == self.archetype_of()
        &&& after.archetypes().len() == self.archetypes().len()
        &&& forall|i: int|
            0 <= i < self.archetypes().len() ==> (#[trigger] after.archetypes()[i]).rows()
                == self.archetypes()[i].rows()
    }

    /// `after` has the entities of `self` in the same archetypes and rows,
    /// but for the live entity `entity`: it has left its archetype, where
    /// the last row has taken the place of its row, and has the new last
    /// row of the archetype `target`, which may be a new last archetype.
    pub open spec fn entity_moved(&self, after: &Self, entity: EntityId, target: usize) -> bool {
        let source = self.archetype_of()[entity] as int;
        &&& after.archetype_of() == self.archetype_of().insert(entity, target)
        &&& self.archetypes().len() <= after.archetypes().len()
        &&& target < after.archetypes().len()
        &&& target != source
        &&& after.archetypes()[source].rows() == swap_removed(
            self.archetypes()[source].rows(),
            self.archetypes()[source].row_of()[entity] as int,
        )
        &&& after.archetypes()[target as int].rows() == (if target < self.archetypes().len() {
            self.archetypes()[target as int].rows()
        } else {
            Seq::empty()
        }).push(entity)
        &&& forall|i: int|
            0 <= i < self.archetypes().len() && i != source && i != target ==> (
            #[trigger] after.archetypes()[i]).rows() == self.archetypes()[i].rows()
    }

    /// Every archetype of `self` has in `after` the shape and the columns
    /// that it has in `self`.
    pub open spec fn shapes_kept(&self, after: &Self) -> bool {
        &&& self.archetypes().len() <= after.archetypes().len()
        &&& forall|i: int|
            0 <= i < self.archetypes().len() ==> (#[trigger] after.archetypes()[i]).shape()
                == self.archetypes()[i].shape() && after.archetypes()[i].column_types()
                == self.archetypes()[i].column_types()
    }

    /// What the registry holds of shapes after a structural change: every
    /// archetype that was there has kept its shape, and one archetype has
    /// come to be exactly if no archetype stored the shape `types` before.
    pub open spec fn shapes_after(&self, after: &Self, types: Set<TypeKey>) -> bool {
        &&& after.archetypes().len() == self.archetypes().len() + (if self.has_shape(types) {
            0int
        } else {
            1int
        })
        &&& after.has_shape(types)
        &&& forall|i: int|
            0 <= i < self.archetypes().len() ==> (#[trigger] after.archetypes()[i]).shape()
                == self.archetypes()[i].shape() && after.archetypes()[i].column_types()
                == self.archetypes()[i].column_types()
    }

    /// For each archetype that holds the component type `ty`, in the order
    /// of the numbers of the archetypes, the entities of its rows.
    pub open spec fn block_rows(&self, ty: TypeKey) -> Seq<Seq<EntityId>> {
        Seq::new(
            self.holders_of(ty).len(),
            |k: int| self.archetypes()[self.holders_of(ty)[k] as int].rows(),
        )
    }

    /// For each archetype that holds the component type `ty`, in the order
    /// of the numbers of the archetypes, the values of its column for `ty`.
    pub open spec fn block_values(&self, ty: TypeKey) -> Seq<Seq<V>> {
        Seq::new(
            self.holders_of(ty).len(),
            |k: int| self.archetypes()[self.holders_of(ty)[k] as int].column(ty),
        )
    }

    /// `rows` and `values` are, for each archetype that holds the component
    /// type `ty`, in the order of the numbers of the archetypes, the
    /// entities of its rows and the values of its column for `ty`.
    pub open spec fn blocks_of(
        &self,
        ty: TypeKey,
        rows: Seq<Seq<EntityId>>,
        values: Seq<Seq<V>>,
    ) -> bool {
        &&& rows.len() == self.holders_of(ty).len()
        &&& values.len() == self.holders_of(ty).len()
        &&& forall|k: int|
            0 <= k < self.holders_of(ty).len() ==> (#[trigger] rows[k])
                == self.archetypes()[self.holders_of(ty)[k] as int].rows() && values[k]
                == self.archetypes()[self.holders_of(ty)[k] as int].column(ty)
    }
}

impl<V> ArchetypeManager<V> {
    /// A registry without entities; it holds the archetype of the empty
    /// shape.
    pub fn new() -> (manager: Self)
        ensures
            manager.wf(),
            manager@ == Map::<EntityId, Map<TypeKey, V>>::empty(),
            manager.archetypes().len() == 1,
    {
        broadcast use vstd::std_specs::hash::group_hash_axioms;

        let empty = ArchetypeIndex::new();
        let hash = empty.signature();
        let mut archetypes: Vec<Archetype<V>> = Vec::new();
        archetypes.push(Archetype::new(empty));
        let mut first_bucket: Vec<usize> = Vec::new();
        first_bucket.push(0);
        let mut archetypes_types: HashMap<u64, Vec<usize>> = HashMap::new();
        archetypes_types.insert(hash, first_bucket);
        let manager = ArchetypeManager {
            entities: HashMap::new(),
            archetypes_types,
            archetypes_contains: HashMap::new(),
            archetypes,
        };
        proof {
            let first = manager.archetypes()[0];
            assert(manager.buckets_wf()) by {
                assert(manager.buckets().contains_key(hash));
                assert(manager.buckets()[hash] == seq![0usize]);
                assert(manager.buckets()[hash][0] == 0);
            }
            assert(first.wf()) by {
                assert forall|ty: TypeKey| first.shape().type_set().contains(ty)
                    <==> first.has_column(
                    ty,
                ) by {
                    if first.shape().type_set().contains(ty) {
                        let k = choose|k: int| 0 <= k < first.shape()@.len()
                            && first.shape()@[k] == ty;
                    }
                }
            }
            assert forall|ty: TypeKey, i: int| 0 <= i < manager.archetypes().len() implies (
            #[trigger] manager.archetypes()[i].shape().type_set().contains(ty)
                <==> manager.holders_of(ty).contains(i as usize)) by {
                if first.shape().type_set().contains(ty) {
                    let k = choose|k: int| 0 <= k < first.shape()@.len() && first.shape()@[k] == ty;
                }
            }
            assert(manager@ =~= Map::<EntityId, Map<TypeKey, V>>::empty());
        }
        manager
    }

    /// The number of archetypes, that is of shapes that some entity has had.
    pub fn archetype_count(&self) -> (count: usize)
        ensures
            count == self.archetypes().len(),
    {
        self.archetypes.len()
    }

    /// Whether `entity` is live.
    pub fn contains(&self, entity_id: EntityId) -> (live: bool)
        ensures
            live == self@.contains_key(entity_id),
    {
        broadcast use vstd::std_specs::hash::group_hash_axioms;

        self.entities.contains_key(&entity_id)
    }

    /// Makes `entity`, which must not be live, a live entity without
    /// components.
    pub fn add_entity(&mut self, entity_id: EntityId)
        requires
            old(self).wf(),
            !old(self)@.contains_key(entity_id),
        ensures
            final(self).wf(),
            final(self)@ == old(self)@.insert(entity_id, Map::<TypeKey, V>::empty()),
            final(self).archetypes().len() == old(self).archetypes().len(),
            final(self).archetype_of() == old(self).archetype_of().insert(entity_id, 0),
            final(self).archetypes()[0].rows() == old(self).archetypes()[0].rows().push(entity_id),
            forall|i: int|
                0 < i < old(self).archetypes().len() ==> #[trigger] final(self).archetypes()[i]
                    == old(self).archetypes()[i],
            old(self).shapes_kept(final(self)),
    {
        broadcast use vstd::std_specs::hash::group_hash_axioms;

        let ghost first = self.archetypes()[0];
        proof {
            assert(first.wf());
            if first.contains(entity_id) {
                assert(self.archetypes()[0].contains(entity_id));
            }
        }
        self.entities.insert(entity_id, 0);
        self.archetypes[0].add_without_comp(entity_id);
        proof {
            let after = self.archetypes()[0];
            assert forall|ty: TypeKey| !first.has_column(ty) by {
                if first.has_column(ty) {
                    assert(first.shape().type_set().contains(ty));
                    let k = choose|k: int| 0 <= k < first.shape()@.len() && first.shape()@[k] == ty;
                }
            }
            assert(first.row_appended(&after, entity_id, Map::<TypeKey, V>::empty())) by {
                if first.columns().len() > 0 {
                    assert(first.has_column(first.columns()[0].type_key()));
                }
            }
            assert(Map::<TypeKey, V>::empty().dom() =~= first.shape().type_set()) by {
                assert forall|ty: TypeKey| !first.shape().type_set().contains(ty) by {
                    assert(!first.has_column(ty));
                }
            }
            first.lemma_row_appended(&after, entity_id, Map::<TypeKey, V>::empty());
            assert forall|i: int| 0 <= i < self.archetypes().len() implies (
            #[trigger] self.archetypes()[i]).wf() && self.archetypes()[i].shape() == old(
                self,
            ).archetypes()[i].shape() by {
                if i != 0 {
                    assert(self.archetypes()[i] == old(self).archetypes()[i]);
                }
            }
            old(self).lemma_shapes_kept(self);
            old(self).lemma_holders_kept(self);
            old(self).lemma_buckets_kept(self);
            old(self).lemma_columns_kept(self, 0);
            assert(self.entities_wf()) by {
                assert forall|e: EntityId| #[trigger]
                    self.archetype_of().contains_key(e) implies self.archetype_of()[e]
                    < self.archetypes().len()
                        && self.archetypes()[self.archetype_of()[e] as int].contains(
                    e,
                ) by {
                    if e != entity_id {
                        assert(old(self).archetype_of().contains_key(e));
                    }
                }
                assert forall|i: int, e: EntityId|
                    0 <= i < self.archetypes().len() && (#[trigger] self.archetypes()[i].contains(
                        e,
                    )) implies self.archetype_of().contains_key(e)
                        && self.archetype_of()[e] == i by {
                    if e != entity_id {
                        assert(old(self).archetypes()[i].contains(e));
                    } else if i != 0 {
                        assert(old(self).archetypes()[i].contains(e));
                    }
                }
            }
            assert forall|e: EntityId| #[trigger] self@.contains_key(e) implies self@[e] == old(
                self,
            )@.insert(entity_id, Map::<TypeKey, V>::empty())[e] by {
                if e != entity_id {
                    assert(old(self).archetype_of().contains_key(e));
                }
            }
            assert(self@ =~= old(self)@.insert(entity_id, Map::<TypeKey, V>::empty()));
        }
    }

    /// Mutable access to two different archetypes at once.
    fn two_archetypes(archetypes: &mut Vec<Archetype<V>>, first: usize, second: usize) -> (pair: (
        &mut Archetype<V>,
        &mut Archetype<V>,
    ))
        requires
            first != second,
            first < old(archetypes).len(),
            second < old(archetypes).len(),
        ensures
            *pair.0 == old(archetypes)[first as int],
            *pair.1 == old(archetypes)[second as int],
            final(archetypes)@ == old(archetypes)@.update(first as int, *final(pair.0)).update(
                second as int,
                *final(pair.1),
            ),
    {
        if first < second {
            let (head, tail) = archetypes.split_at_mut(second);
            proof {
                assert forall|a: Archetype<V>, b: Archetype<V>|
                    (head@.update(first as int, a) + tail@.update(0, b)) =~= #[trigger] old(
                        archetypes,
                    )@.update(first as int, a).update(second as int, b) by {}
            }
            (&mut head[first], &mut tail[0])
        } else {
            let (head, tail) = archetypes.split_at_mut(first);
            proof {
                assert forall|a: Archetype<V>, b: Archetype<V>|
                    (head@.update(second as int, b) + tail@.update(0, a)) =~= #[trigger] old(
                        archetypes,
                    )@.update(first as int, a).update(second as int, b) by {}
            }
            (&mut tail[0], &mut head[second])
        }
    }

    /// The number of the archetype that stores the shape `index`, if there
    /// is one. It is looked for among the archetypes whose shape has the
    /// hash of `index`.
    pub fn find_archetype(&self, index: &ArchetypeIndex) -> (found: Option<usize>)
        requires
            self.buckets_wf(),
        ensures
            match found {
                Some(id) => id < self.archetypes().len() && self.archetypes()[id as int].shape()@
                    == index@,
                None => forall|i: int|
                    0 <= i < self.archetypes().len() ==> (#[trigger] self.archetypes()[i]).shape()@
                        != index@,
            },
    {
        broadcast use vstd::std_specs::hash::group_hash_axioms;

        let hash = index.signature();
        match self.archetypes_types.get(&hash) {
            Some(bucket) => {
                proof {
                    assert(self.buckets().contains_key(hash));
                    assert(bucket@ == self.buckets()[hash]);
                }
                let mut k: usize = 0;
                while k < bucket.len()
                    invariant
                        self.buckets_wf(),
                        self.buckets().contains_key(hash),
                        bucket@ == self.buckets()[hash],
                        k <= bucket@.len(),
                        forall|j: int|
                            0 <= j < k
                                ==> self.archetypes()[(#[trigger] bucket@[j]) as int].shape()@
                                != index@,
                    decreases bucket.len() - k,
                {
                    let id = bucket[k];
                    proof {
                        assert(self.buckets()[hash][k as int] < self.archetypes().len());
                    }
                    if *self.archetypes[id].index() == *index {
                        return Some(id);
                    }
                    k += 1;
                }
                proof {
                    self.lemma_count_bounded();
                    assert forall|i: int| 0 <= i < self.archetypes().len() implies (
                    #[trigger] self.archetypes()[i]).shape()@ != index@ by {
                        if self.archetypes()[i].shape()@ == index@ {
                            assert(self.buckets()[signature_of(self.archetypes()[i].shape(
                                )@)].contains(
                                i as usize,
                            ));
                            let j = choose|j: int| 0 <= j < bucket@.len()
                                && bucket@[j] == i as usize;
                            assert(self.archetypes()[bucket@[j] as int].shape()@ != index@);
                        }
                    }
                }
                None
            },
            None => {
                proof {
                    assert(!self.buckets().contains_key(hash));
                    assert forall|i: int| 0 <= i < self.archetypes().len() implies (
                    #[trigger] self.archetypes()[i]).shape()@ != index@ by {
                        if self.archetypes()[i].shape()@ == index@ {
                            assert(self.buckets().contains_key(
                                signature_of(self.archetypes()[i].shape()@),
                            ));
                        }
                    }
                }
                None
            },
        }
    }

    /// Files the archetype `new_index`, the last one, under the hash
    /// `hash` of its shape.
    fn enter_shape(&mut self, hash: u64, new_index: usize)
        requires
            new_index + 1 == old(self).archetypes().len(),
            hash == signature_of(old(self).archetypes()[new_index as int].shape()@),
            old(self).buckets_cover(new_index as int),
        ensures
            final(self).archetypes() == old(self).archetypes(),
            final(self).archetype_of() == old(self).archetype_of(),
            final(self).holders() == old(self).holders(),
            old(self).holders_cover(new_index as int)
                ==> final(self).holders_cover(new_index as int),
            final(self).buckets_wf(),
    {
        broadcast use vstd::std_specs::hash::group_hash_axioms;

        let mut bucket = match self.archetypes_types.remove(&hash) {
            Some(bucket) => bucket,
            None => Vec::new(),
        };
        let ghost filed = bucket@;
        proof {
            assert(filed == if old(self).buckets().contains_key(hash) {
                old(self).buckets()[hash]
            } else {
                Seq::<usize>::empty()
            });
        }
        bucket.push(new_index);
        self.archetypes_types.insert(hash, bucket);
        proof {
            assert(self.holders() =~= old(self).holders());
            if old(self).holders_cover(new_index as int) {
                assert forall|ty: TypeKey, i: int| 0 <= i < new_index implies (
                #[trigger] self.archetypes()[i].shape().type_set().contains(ty)
                    <==> self.holders_of(ty).contains(i as usize)) by {
                    assert(old(self).archetypes()[i].shape().type_set().contains(ty) <==> old(
                        self,
                    ).holders_of(ty).contains(i as usize));
                }
                assert forall|ty: TypeKey, k: int| 0 <= k < self.holders_of(ty).len() implies (
                #[trigger] self.holders_of(ty)[k]) < new_index by {
                    assert(old(self).holders_of(ty)[k] < new_index);
                }
            }
            assert(self.buckets().contains_key(hash));
            assert(self.buckets()[hash] == filed.push(new_index));
            assert forall|i: int| 0 <= i < self.archetypes().len()
                implies self.buckets().contains_key(
                signature_of((#[trigger] self.archetypes()[i]).shape()@),
            ) && self.buckets()[signature_of(self.archetypes()[i].shape()@)].contains(
                i as usize) by {
                let own = signature_of(self.archetypes()[i].shape()@);
                if i < new_index {
                    assert(old(self).buckets().contains_key(
                        signature_of(old(self).archetypes()[i].shape()@),
                    ));
                    assert(old(self).buckets()[own].contains(i as usize));
                    let k = choose|k: int|
                        0 <= k < old(self).buckets()[own].len() && old(self).buckets()[own][k]
                            == i as usize;
                    if own == hash {
                        assert(self.buckets()[own][k] == i as usize);
                    } else {
                        assert(self.buckets()[own] == old(self).buckets()[own]);
                    }
                } else {
                    assert(self.buckets()[hash][filed.len() as int] == new_index);
                }
            }
            assert forall|key: u64, k: int|
                self.buckets().contains_key(key) && 0 <= k < self.buckets()[key].len() implies (
            #[trigger] self.buckets()[key][k]) < self.archetypes().len() && signature_of(
                self.archetypes()[self.buckets()[key][k] as int].shape()@,
            ) == key by {
                if key == hash {
                    if k < filed.len() {
                        assert(old(self).buckets().contains_key(hash));
                        assert(old(self).buckets()[hash][k] < new_index);
                    }
                } else {
                    assert(old(self).buckets().contains_key(key));
                    assert(self.buckets()[key] == old(self).buckets()[key]);
                    assert(old(self).buckets()[key][k] < new_index);
                }
            }
        }
    }

    /// Enters the archetype `new_index`, the last one, whose shape is
    /// `archetype_index`, into the list of holders of each of its component
    /// types.
    fn set_all_contained(&mut self, archetype_index: &ArchetypeIndex, new_index: usize)
        requires
            archetype_index.wf(),
            new_index + 1 == old(self).archetypes().len(),
            old(self).archetypes()[new_index as int].shape()@ == archetype_index@,
            old(self).holders_cover(new_index as int),
        ensures
            final(self).archetypes() == old(self).archetypes(),
            final(self).archetype_of() == old(self).archetype_of(),
            final(self).buckets() == old(self).buckets(),
            final(self).holders_wf(),
            forall|ty: TypeKey|
                final(self).holders_of(ty) == if archetype_index.type_set().contains(ty) {
                    old(self).holders_of(ty).push(new_index)
                } else {
                    old(self).holders_of(ty)
                },
    {
        broadcast use vstd::std_specs::hash::group_hash_axioms;

        let types = archetype_index.types();
        let mut j: usize = 0;
        while j < types.len()
            invariant
                archetype_index.wf(),
                types@ == archetype_index@,
                j <= types@.len(),
                self.archetypes() == old(self).archetypes(),
                self.archetype_of() == old(self).archetype_of(),
                self.buckets() == old(self).buckets(),
                forall|ty: TypeKey|
                    self.holders_of(ty) == if types@.take(j as int).contains(ty) {
                        old(self).holders_of(ty).push(new_index)
                    } else {
                        old(self).holders_of(ty)
                    },
            decreases types.len() - j,
        {
            let ty = types[j];
            let ghost before = *self;
            proof {
                let done = types@.take(j as int);
                assert(!done.contains(ty)) by {
                    if done.contains(ty) {
                        let k = choose|k: int| 0 <= k < done.len() && done[k] == ty;
                        assert(types@[k] < types@[j as int]);
                    }
                }
                assert(before.holders_of(ty) == old(self).holders_of(ty));
            }
            let mut list = match self.archetypes_contains.remove(&ty) {
                Some(list) => list,
                None => Vec::new(),
            };
            proof {
                assert(list@ == before.holders_of(ty));
            }
            list.push(new_index);
            self.archetypes_contains.insert(ty, list);
            proof {
                assert(self.holders_of(ty) == old(self).holders_of(ty).push(new_index));
                let done = types@.take(j as int);
                let next = types@.take(j + 1);
                assert(next =~= done.push(ty));
                assert forall|t: TypeKey|
                    self.holders_of(t) == if next.contains(t) {
                        old(self).holders_of(t).push(new_index)
                    } else {
                        old(self).holders_of(t)
                    } by {
                    if t == ty {
                        assert(next[j as int] == ty);
                    } else {
                        assert(self.holders_of(t) == before.holders_of(t));
                        if next.contains(t) {
                            let k = choose|k: int| 0 <= k < next.len() && next[k] == t;
                            assert(done[k] == t);
                        }
                        if done.contains(t) {
                            let k = choose|k: int| 0 <= k < done.len() && done[k] == t;
                            assert(next[k] == t);
                        }
                    }
                }
            }
            j += 1;
        }
        proof {
            assert(types@.take(types@.len() as int) =~= types@);
            old(self).lemma_holders_extended(self, new_index as int);
        }
    }

    /// The value that `entity` has for the component type `ty`, if the
    /// entity is live and holds a component of that type.
    pub fn query(&self, entity_id: EntityId, ty: TypeKey) -> (comp: Option<&V>)
        requires
            self.wf(),
        ensures
            comp.is_some() == (self@.contains_key(entity_id) && self@[entity_id].contains_key(ty)),
            comp.is_some() ==> *comp.unwrap() == self@[entity_id][ty],
    {
        broadcast use vstd::std_specs::hash::group_hash_axioms;

        match self.entities.get(&entity_id) {
            Some(id) => {
                proof {
                    assert(self.archetype_of().contains_key(entity_id));
                    assert(self.archetypes()[*id as int].wf());
                }
                self.archetypes[*id].query(entity_id, ty)
            },
            None => None,
        }
    }

    /// Attaches the value `comp` of component type `ty` to the live entity
    /// `entity`. Where the entity holds a component of that type already,
    /// its value is overwritten in place. Otherwise the entity moves to the
    /// archetype of the larger shape, which is made if it is not there yet,
    /// and keeps its other values.
    pub fn add(&mut self, entity_id: EntityId, ty: TypeKey, comp: V)
        requires
            old(self).wf(),
            old(self)@.contains_key(entity_id),
        ensures
            final(self).wf(),
            final(self)@ == old(self)@.insert(entity_id, old(self)@[entity_id].insert(ty, comp)),
            old(self).shapes_after(final(self), old(self)@[entity_id].dom().insert(ty)),
            if old(self)@[entity_id].contains_key(ty) {
                old(self).rows_kept(final(self))
            } else {
                old(self).entity_moved(final(self), entity_id,
                    final(self).archetype_of()[entity_id])
            },
            !old(self).has_shape(old(self)@[entity_id].dom().insert(ty))
                ==> final(self).archetypes().last().column_types()
                == old(self).archetypes()[old(self).archetype_of()[entity_id] as int].column_types(
                    ).push(
                ty,
            ),
    {
        broadcast use vstd::std_specs::hash::group_hash_axioms;

        let ghost before = *self;
        let ghost types = before@[entity_id].dom().insert(ty);
        proof {
            before.lemma_entity_bundle(entity_id);
        }
        let source = match self.entities.get(&entity_id) {
            Some(id) => *id,
            None => {
                proof {
                    assert(false);
                }
                0
            },
        };
        let mut target_shape = self.archetypes[source].index().clone();
        let changed = target_shape.add(ty);
        proof {
            assert(target_shape.type_set() == types);
        }
        if !changed {
            self.overwrite(entity_id, source, ty, comp);
            proof {
                assert(types =~= before.archetypes()[source as int].shape().type_set());
                before.lemma_has_shape(source as int);
                self.lemma_has_shape(source as int);
            }
        } else {
            match self.find_archetype(&target_shape) {
                Some(target) => {
                    proof {
                        before.lemma_has_shape(target as int);
                    }
                    self.move_into(entity_id, source, target, ty, Some(comp));
                    proof {
                        self.lemma_has_shape(target as int);
                    }
                },
                None => {
                    proof {
                        before.lemma_no_shape(target_shape);
                    }
                    self.move_into_new(entity_id, source, target_shape, ty, comp);
                    proof {
                        self.lemma_has_shape(self.archetypes().len() - 1);
                    }
                },
            }
        }
    }

    /// Overwrites the value that the entity `entity` of the archetype
    /// `source` has for the component type `ty`, which it holds.
    fn overwrite(&mut self, entity_id: EntityId, source: usize, ty: TypeKey, comp: V)
        requires
            old(self).wf(),
            old(self)@.contains_key(entity_id),
            old(self).archetype_of()[entity_id] == source,
            old(self)@[entity_id].contains_key(ty),
        ensures
            final(self).wf(),
            final(self)@ == old(self)@.insert(entity_id, old(self)@[entity_id].insert(ty, comp)),
            old(self).rows_kept(final(self)),
            old(self).shapes_kept(final(self)),
            final(self).archetypes().len() == old(self).archetypes().len(),
    {
        proof {
            self.lemma_entity_bundle(entity_id);
        }
        self.archetypes[source].update(entity_id, ty, comp);
        proof {
            assert forall|i: int| 0 <= i < old(self).archetypes().len() && i != source implies (
            #[trigger] self.archetypes()[i]) == old(self).archetypes()[i] by {}
            old(self).lemma_value_changed(self, entity_id, ty, comp);
            old(self).lemma_columns_kept(self, source as int);
        }
    }

    /// Moves the entity `entity` from its archetype `source` to the
    /// archetype `target`, whose shape is that of `source` with `ty` put in
    /// if a value for `ty` is given, and with `ty` taken out if none is.
    fn move_into(
        &mut self,
        entity_id: EntityId,
        source: usize,
        target: usize,
        ty: TypeKey,
        added: Option<V>,
    )
        requires
            old(self).wf(),
            old(self)@.contains_key(entity_id),
            old(self).archetype_of()[entity_id] == source,
            target < old(self).archetypes().len(),
            old(self).archetypes()[target as int].shape().type_set() == (match added {
                Some(_) => old(self)@[entity_id].dom().insert(ty),
                None => old(self)@[entity_id].dom().remove(ty),
            }),
            added is Some <==> !old(self)@[entity_id].contains_key(ty),
        ensures
            final(self).wf(),
            final(self)@ == old(self)@.insert(
                entity_id,
                match added {
                    Some(comp) => old(self)@[entity_id].insert(ty, comp),
                    None => old(self)@[entity_id].remove(ty),
                },
            ),
            old(self).entity_moved(final(self), entity_id, target),
            old(self).shapes_kept(final(self)),
            final(self).archetypes().len() == old(self).archetypes().len(),
    {
        broadcast use vstd::std_specs::hash::group_hash_axioms;

        let ghost before = *self;
        let ghost given = added;
        let ghost bundle = match given {
            Some(comp) => before@[entity_id].insert(ty, comp),
            None => before@[entity_id].remove(ty),
        };
        let ghost a0 = before.archetypes()[source as int];
        let ghost b0 = before.archetypes()[target as int];
        proof {
            before.lemma_entity_bundle(entity_id);
            assert(b0.wf());
            assert(a0.shape().type_set().contains(ty) <==> a0.has_column(ty));
            assert(a0.shape().type_set() != b0.shape().type_set()) by {
                assert(b0.shape().type_set().contains(ty) != a0.shape().type_set().contains(ty));
            }
            if b0.contains(entity_id) {
                assert(before.archetypes()[target as int].contains(entity_id));
            }
            assert forall|t: TypeKey| b0.has_column(t) <==> (if given is Some {
                a0.has_column(t) || t == ty
            } else {
                a0.has_column(t) && t != ty
            }) by {
                assert(b0.shape().type_set().contains(t) <==> b0.has_column(t));
                assert(a0.shape().type_set().contains(t) <==> a0.has_column(t));
            }
        }
        let (old_archetype, new_archetype) = Self::two_archetypes(
            &mut self.archetypes,
            source,
            target,
        );
        old_archetype.transfer(new_archetype, entity_id);
        let ghost a1 = *old_archetype;
        let ghost b1 = *new_archetype;
        match added {
            Some(comp) => {
                new_archetype.add(ty, comp);
                proof {
                    b0.lemma_same_column_types(&b1);
                    b0.lemma_received_and_added(
                        &b1,
                        new_archetype,
                        &a0,
                        entity_id,
                        ty,
                        given.unwrap(),
                    );
                }
            },
            None => {
                proof {
                    b0.lemma_received_all(&b1, &a0, entity_id, ty);
                }
            },
        }
        let ghost b2 = *new_archetype;
        old_archetype.remove(entity_id);
        let ghost a2 = *old_archetype;
        self.entities.insert(entity_id, target);
        proof {
            a0.lemma_row_removed(&a1, &a2, entity_id);
            assert(bundle.dom() =~= b0.shape().type_set());
            b0.lemma_row_appended(&b2, entity_id, bundle);
            a0.lemma_column_types(&a1);
            b0.lemma_column_types(&b2);
            assert forall|i: int| 0 <= i < self.archetypes().len() implies (
            #[trigger] self.archetypes()[i]).wf() && self.archetypes()[i].shape()
                == before.archetypes()[i].shape() && self.archetypes()[i].column_types()
                == before.archetypes()[i].column_types() by {
                if i != source && i != target {
                    assert(self.archetypes()[i] == before.archetypes()[i]);
                }
            }
            before.lemma_shapes_kept(self);
            before.lemma_holders_kept(self);
            before.lemma_buckets_kept(self);
            assert forall|i: int|
                0 <= i < before.archetypes().len() && i != source && i != target implies (
            #[trigger] self.archetypes()[i])@ == before.archetypes()[i]@ by {
                assert(self.archetypes()[i] == before.archetypes()[i]);
            }
            before.lemma_entity_moved(self, entity_id, source, target, bundle);
            assert forall|i: int|
                0 <= i < before.archetypes().len() && i != source && i != target implies (
            #[trigger] self.archetypes()[i]).rows() == before.archetypes()[i].rows() by {
                assert(self.archetypes()[i] == before.archetypes()[i]);
            }
        }
    }

    /// Makes the archetype of the shape `target_shape`, which is the shape
    /// of the archetype `source` with `ty` put in and which no archetype
    /// stores yet, and moves the entity `entity` from `source` to it, with
    /// `comp` as its value for `ty`.
    fn move_into_new(
        &mut self,
        entity_id: EntityId,
        source: usize,
        target_shape: ArchetypeIndex,
        ty: TypeKey,
        comp: V,
    )
        requires
            old(self).wf(),
            old(self)@.contains_key(entity_id),
            old(self).archetype_of()[entity_id] == source,
            !old(self)@[entity_id].contains_key(ty),
            target_shape.wf(),
            target_shape.type_set() == old(self)@[entity_id].dom().insert(ty),
            forall|i: int|
                0 <= i < old(self).archetypes().len()
                    ==> (#[trigger] old(self).archetypes()[i]).shape()@
                    != target_shape@,
        ensures
            final(self).wf(),
            final(self)@ == old(self)@.insert(entity_id, old(self)@[entity_id].insert(ty, comp)),
            old(self).entity_moved(final(self), entity_id, old(self).archetypes().len() as usize),
            old(self).shapes_kept(final(self)),
            final(self).archetypes().len() == old(self).archetypes().len() + 1,
            final(self).archetypes().last().shape()@ == target_shape@,
            final(self).archetypes().last().column_types() == old(
                self,
            ).archetypes()[source as int].column_types().push(ty),
    {
        broadcast use vstd::std_specs::hash::group_hash_axioms;

        let ghost before = *self;
        let ghost bundle = before@[entity_id].insert(ty, comp);
        let ghost a0 = before.archetypes()[source as int];
        proof {
            before.lemma_entity_bundle(entity_id);
            assert(a0.shape().type_set().contains(ty) <==> a0.has_column(ty));
        }
        let new_arch_id = self.archetypes.len();
        let hash = target_shape.signature();
        let mut new_archetype = self.archetypes[source].duplicate(target_shape.clone());
        let ghost c0 = new_archetype;
        new_archetype.insert_comp_storage(ty, comp);
        let ghost c1 = new_archetype;
        self.archetypes[source].transfer(&mut new_archetype, entity_id);
        let ghost a1 = self.archetypes()[source as int];
        let ghost c2 = new_archetype;
        proof {
            assert(c0.shape().type_set() == a0.shape().type_set().insert(ty));
            c0.lemma_fresh_received(&c1, &c2, &a0, entity_id, ty, comp);
            a0.lemma_column_types(&a1);
            a0.lemma_column_types(&c0);
            c1.lemma_column_types(&c2);
            assert(c1.column_types() =~= c0.column_types().push(ty)) by {
                assert forall|k: int| 0 <= k < c1.columns().len() implies c1.column_types()[k]
                    == c0.column_types().push(ty)[k] by {
                    if k < c0.columns().len() {
                        assert(c1.columns().drop_last()[k] == c1.columns()[k]);
                    }
                }
            }
        }
        self.archetypes.push(new_archetype);
        proof {
            before.lemma_covers_kept(self);
        }
        self.enter_shape(hash, new_arch_id);
        self.set_all_contained(&target_shape, new_arch_id);
        let ghost listed = *self;
        self.archetypes[source].remove(entity_id);
        self.entities.insert(entity_id, new_arch_id);
        proof {
            let a2 = self.archetypes()[source as int];
            a0.lemma_row_removed(&a1, &a2, entity_id);
            assert forall|i: int| 0 <= i < self.archetypes().len() implies (
            #[trigger] self.archetypes()[i]).wf() by {
                if i != source && i != new_arch_id {
                    assert(self.archetypes()[i] == before.archetypes()[i]);
                }
            }
            assert forall|i: int| 0 <= i < before.archetypes().len() implies (
            #[trigger] self.archetypes()[i]).shape() == before.archetypes()[i].shape()
                && self.archetypes()[i].column_types() == before.archetypes()[i].column_types() by {
                if i != source {
                    assert(self.archetypes()[i] == before.archetypes()[i]);
                }
            }
            before.lemma_shapes_kept(self);
            assert forall|i: int| 0 <= i < listed.archetypes().len() implies (
            #[trigger] self.archetypes()[i]).shape() == listed.archetypes()[i].shape() by {
                if i != source {
                    assert(self.archetypes()[i] == listed.archetypes()[i]);
                }
            }
            listed.lemma_holders_kept(self);
            listed.lemma_buckets_kept(self);
            assert forall|i: int|
                0 <= i < before.archetypes().len() && i != source && i != new_arch_id implies (
            #[trigger] self.archetypes()[i])@ == before.archetypes()[i]@ by {
                assert(self.archetypes()[i] == before.archetypes()[i]);
            }
            before.lemma_entity_moved(self, entity_id, source, new_arch_id, bundle);
            assert forall|i: int|
                0 <= i < before.archetypes().len() && i != source && i != new_arch_id implies (
            #[trigger] self.archetypes()[i]).rows() == before.archetypes()[i].rows() by {
                assert(self.archetypes()[i] == before.archetypes()[i]);
            }
        }
    }

    /// Makes the archetype of the shape `new_shape`, which is the shape of
    /// the archetype `source` with `ty` taken out and which no archetype
    /// stores yet: it has the columns of `source` but the one for `ty`, and
    /// no rows.
    fn add_archetype_without(&mut self, source: usize, new_shape: ArchetypeIndex, ty: TypeKey)
        requires
            old(self).wf(),
            source < old(self).archetypes().len(),
            new_shape.wf(),
            new_shape.type_set() == old(self).archetypes()[source as int].shape().type_set().remove(
                ty,
            ),
            forall|i: int|
                0 <= i < old(self).archetypes().len()
                    ==> (#[trigger] old(self).archetypes()[i]).shape()@
                    != new_shape@,
        ensures
            final(self).wf(),
            final(self)@ == old(self)@,
            final(self).archetype_of() == old(self).archetype_of(),
            final(self).archetypes().len() == old(self).archetypes().len() + 1,
            final(self).archetypes().drop_last() == old(self).archetypes(),
            final(self).archetypes().last().shape()@ == new_shape@,
            final(self).archetypes().last().rows() == Seq::<EntityId>::empty(),
            final(self).archetypes().last().column_types() == old(
                self,
            ).archetypes()[source as int].column_types().remove(
                old(self).archetypes()[source as int].column_at(ty),
            ),
            old(self).archetypes()[source as int].has_column(ty),
    {
        let ghost before = *self;
        let ghost a0 = before.archetypes()[source as int];
        proof {
            assert(a0.wf());
            assert(a0.has_column(ty)) by {
                if !a0.has_column(ty) {
                    assert(!a0.shape().type_set().contains(ty));
                    assert(new_shape.type_set() =~= a0.shape().type_set());
                    new_shape.lemma_equal_by_set(&a0.shape());
                }
            }
        }
        let hash = new_shape.signature();
        let mut new_arch = self.archetypes[source].duplicate(new_shape.clone());
        let ghost c0 = new_arch;
        new_arch.remove_comp_storage(ty);
        proof {
            a0.lemma_same_column_types(&c0);
            c0.lemma_fresh_without(&new_arch, &a0, ty);
            a0.lemma_column_types(&c0);
            assert(new_arch.column_types() =~= a0.column_types().remove(a0.column_at(ty)));
        }
        self.archetypes.push(new_arch);
        let new_arch_id = self.archetypes.len() - 1;
        proof {
            assert(self.archetypes().drop_last() =~= before.archetypes());
            before.lemma_covers_kept(self);
        }
        self.enter_shape(hash, new_arch_id);
        self.set_all_contained(&new_shape, new_arch_id);
        proof {
            assert forall|i: int| 0 <= i < self.archetypes().len() implies (
            #[trigger] self.archetypes()[i]).wf() by {
                if i != new_arch_id {
                    assert(self.archetypes()[i] == before.archetypes()[i]);
                }
            }
            assert forall|i: int| 0 <= i < before.archetypes().len() implies (
            #[trigger] self.archetypes()[i]).shape() == before.archetypes()[i].shape() by {
                assert(self.archetypes()[i] == before.archetypes()[i]);
            }
            before.lemma_shapes_kept(self);
            assert(self.entities_wf()) by {
                assert forall|e: EntityId| #[trigger]
                    self.archetype_of().contains_key(e) implies self.archetype_of()[e]
                    < self.archetypes().len()
                        && self.archetypes()[self.archetype_of()[e] as int].contains(
                    e,
                ) by {
                    assert(before.archetype_of().contains_key(e));
                    assert(self.archetypes()[self.archetype_of()[e] as int]
                        == before.archetypes()[before.archetype_of()[e] as int]);
                }
                assert forall|i: int, e: EntityId|
                    0 <= i < self.archetypes().len() && (#[trigger] self.archetypes()[i].contains(
                        e,
                    )) implies self.archetype_of().contains_key(e)
                        && self.archetype_of()[e] == i by {
                    if i != new_arch_id {
                        assert(self.archetypes()[i] == before.archetypes()[i]);
                        assert(before.archetypes()[i].contains(e));
                    } else {
                        assert(self.archetypes()[i]@.contains_key(e));
                    }
                }
            }
            assert(self@ =~= before@) by {
                assert forall|e: EntityId| #[trigger] self@.contains_key(e) implies self@[e]
                    == before@[e] by {
                    assert(before.archetype_of().contains_key(e));
                    assert(self.archetypes()[self.archetype_of()[e] as int]
                        == before.archetypes()[before.archetype_of()[e] as int]);
                }
            }
        }
    }

    /// Detaches the component of type `ty` from the live entity `entity`:
    /// the entity moves to the archetype of the smaller shape, which is made
    /// if it is not there yet, and keeps its other values. An entity without
    /// a component of that type stays where it is.
    pub fn remove(&mut self, entity_id: EntityId, ty: TypeKey)
        requires
            old(self).wf(),
            old(self)@.contains_key(entity_id),
        ensures
            final(self).wf(),
            final(self)@ == old(self)@.insert(entity_id, old(self)@[entity_id].remove(ty)),
            old(self).shapes_after(final(self), old(self)@[entity_id].dom().remove(ty)),
            if old(self)@[entity_id].contains_key(ty) {
                old(self).entity_moved(final(self), entity_id,
                    final(self).archetype_of()[entity_id])
            } else {
                old(self).rows_kept(final(self))
            },
            !old(self).has_shape(old(self)@[entity_id].dom().remove(ty))
                ==> final(self).archetypes().last().column_types()
                == old(self).archetypes()[old(self).archetype_of()[entity_id] as int].column_types(
                    ).remove(
                old(self).archetypes()[old(self).archetype_of()[entity_id] as int].column_at(ty),
            ),
    {
        broadcast use vstd::std_specs::hash::group_hash_axioms;

        let ghost before = *self;
        let ghost types = before@[entity_id].dom().remove(ty);
        proof {
            before.lemma_entity_bundle(entity_id);
        }
        let source = match self.entities.get(&entity_id) {
            Some(id) => *id,
            None => {
                proof {
                    assert(false);
                }
                0
            },
        };
        let ghost a0 = before.archetypes()[source as int];
        let mut new_shape = self.archetypes[source].index().clone();
        new_shape.remove(ty);
        proof {
            assert(new_shape.type_set() == types);
        }
        let target = match self.find_archetype(&new_shape) {
            Some(target) => {
                proof {
                    before.lemma_has_shape(target as int);
                }
                target
            },
            None => {
                proof {
                    before.lemma_no_shape(new_shape);
                }
                self.add_archetype_without(source, new_shape, ty);
                self.archetypes.len() - 1
            },
        };
        let ghost listed = *self;
        proof {
            assert forall|i: int| 0 <= i < before.archetypes().len() implies (
            #[trigger] listed.archetypes()[i]) == before.archetypes()[i] by {
                if listed.archetypes().len() > before.archetypes().len() {
                    assert(listed.archetypes().drop_last()[i] == listed.archetypes()[i]);
                }
            }
            assert(listed.archetypes()[target as int].shape().type_set() == types);
            listed.lemma_has_shape(target as int);
        }
        if source != target {
            proof {
                assert(a0.shape().type_set().contains(ty)) by {
                    if !a0.shape().type_set().contains(ty) {
                        assert(types =~= a0.shape().type_set());
                        assert(listed.archetypes()[target as int].wf());
                        listed.archetypes()[target as int].shape().lemma_equal_by_set(&a0.shape());
                        if source < target {
                            assert(listed.archetypes()[source as int].shape()@
                                != listed.archetypes()[target as int].shape()@);
                        } else {
                            assert(listed.archetypes()[target as int].shape()@
                                != listed.archetypes()[source as int].shape()@);
                        }
                    }
                }
                listed.lemma_entity_bundle(entity_id);
            }
            self.move_into(entity_id, source, target, ty, None);
            proof {
                self.lemma_has_shape(target as int);
                assert(before.entity_moved(self, entity_id, target)) by {
                    assert forall|i: int|
                        0 <= i < before.archetypes().len() && i != source && i != target implies (
                    #[trigger] self.archetypes()[i]).rows() == before.archetypes()[i].rows() by {
                        assert(self.archetypes()[i].rows() == listed.archetypes()[i].rows());
                    }
                }
                assert forall|i: int| 0 <= i < before.archetypes().len() implies (
                #[trigger] self.archetypes()[i]).shape() == before.archetypes()[i].shape()
                    && self.archetypes()[i].column_types()
                        == before.archetypes()[i].column_types() by {
                    assert(self.archetypes()[i].shape() == listed.archetypes()[i].shape());
                }
            }
        } else {
            proof {
                assert(!a0.shape().type_set().contains(ty)) by {
                    if a0.shape().type_set().contains(ty) {
                        assert(!types.contains(ty));
                    }
                }
                assert(before@[entity_id].remove(ty) =~= before@[entity_id]);
                assert(self@ =~= before@.insert(entity_id, before@[entity_id].remove(ty)));
                assert forall|i: int| 0 <= i < before.archetypes().len() implies (
                #[trigger] self.archetypes()[i]).shape() == before.archetypes()[i].shape()
                    && self.archetypes()[i].column_types()
                        == before.archetypes()[i].column_types() by {}
                assert(before.rows_kept(self));
            }
        }
    }

    /// The value that `entity` has for the component type `ty`, for writing,
    /// if the entity is live and holds a component of that type.
    pub fn query_mut(&mut self, entity_id: EntityId, ty: TypeKey) -> (comp: Option<&mut V>)
        requires
            old(self).wf(),
        ensures
            comp.is_some() == (old(self)@.contains_key(entity_id) && old(
                self,
            )@[entity_id].contains_key(ty)),
            comp.is_some() ==> *comp.unwrap() == old(self)@[entity_id][ty],
            final(self).wf(),
            comp.is_some() ==> final(self)@ == old(self)@.insert(
                entity_id,
                old(self)@[entity_id].insert(ty, *final(comp.unwrap())),
            ),
            comp.is_none() ==> *final(self) == *old(self),
            final(self).archetypes().len() == old(self).archetypes().len(),
            old(self).shapes_kept(final(self)),
            old(self).rows_kept(final(self)),
    {
        broadcast use vstd::std_specs::hash::group_hash_axioms;

        let found = match self.entities.get(&entity_id) {
            Some(id) => {
                proof {
                    self.lemma_entity_bundle(entity_id);
                    assert(self.archetypes()[*id as int].shape_matches());
                }
                if self.archetypes[*id].find_column(ty).is_some() {
                    Some(*id)
                } else {
                    None
                }
            },
            None => None,
        };
        match found {
            Some(id) => {
                proof {
                    let row = self.archetypes()[id as int].row_of()[entity_id] as int;
                    assert forall|after: Self|
                        #![trigger after.wf()]
                        #![trigger after@]
                        #![trigger after.archetypes()]
                        after.archetype_of() == self.archetype_of() && after.holders()
                            == self.holders() && after.buckets() == self.buckets()
                            && after.archetypes().len() == self.archetypes().len()
                            && (forall|i: int|
                            0 <= i < self.archetypes().len() && i != id ==> (
                            #[trigger] after.archetypes()[i]) == self.archetypes()[i])
                            && self.archetypes()[id as int].same_but_column(
                            &after.archetypes()[id as int],
                            self.archetypes()[id as int].column_at(ty),
                        ) && after.archetypes()[id as int].column(ty)
                            == self.archetypes()[id as int].column(ty).update(
                            row,
                            after.archetypes()[id as int].column(ty)[row],
                        ) implies after.wf() && after@ == self@.insert(
                        entity_id,
                        self@[entity_id].insert(ty, after.archetypes()[id as int].column(ty)[row]),
                    ) && self.rows_kept(&after) && self.shapes_kept(&after) by {
                        self.lemma_value_changed(
                            &after,
                            entity_id,
                            ty,
                            after.archetypes()[id as int].column(ty)[row],
                        );
                    }
                    assert(row < self.archetypes()[id as int].column(ty).len()) by {
                        let archetype = self.archetypes()[id as int];
                        assert(archetype.row_of().contains_key(entity_id));
                        archetype.lemma_column_at(archetype.column_at(ty));
                    }
                }
                self.archetypes[id].query_mut(entity_id, ty)
            },
            None => None,
        }
    }

    /// Removes the live entity `entity` with all its components.
    pub fn remove_entity(&mut self, entity_id: EntityId)
        requires
            old(self).wf(),
            old(self)@.contains_key(entity_id),
        ensures
            final(self).wf(),
            final(self)@ == old(self)@.remove(entity_id),
            final(self).archetypes().len() == old(self).archetypes().len(),
            old(self).shapes_kept(final(self)),
            final(self).archetype_of() == old(self).archetype_of().remove(entity_id),
            final(self).archetypes()[old(self).archetype_of()[entity_id] as int].rows()
                == swap_removed(
                old(self).archetypes()[old(self).archetype_of()[entity_id] as int].rows(),
                old(self).archetypes()[old(self).archetype_of()[entity_id] as int].row_of(
                    )[entity_id] as int,
            ),
            forall|i: int|
                0 <= i < old(self).archetypes().len() && i != old(self).archetype_of()[entity_id]
                    ==> #[trigger] final(self).archetypes()[i] == old(self).archetypes()[i],
    {
        broadcast use vstd::std_specs::hash::group_hash_axioms;

        let ghost before = *self;
        proof {
            before.lemma_entity_bundle(entity_id);
        }
        let source = match self.entities.get(&entity_id) {
            Some(id) => *id,
            None => {
                proof {
                    assert(false);
                }
                0
            },
        };
        self.archetypes[source].discard(entity_id);
        self.entities.remove(&entity_id);
        proof {
            assert forall|i: int| 0 <= i < self.archetypes().len() implies (
            #[trigger] self.archetypes()[i]).wf() && self.archetypes()[i].shape()
                == before.archetypes()[i].shape() by {
                if i != source {
                    assert(self.archetypes()[i] == before.archetypes()[i]);
                }
            }
            before.lemma_shapes_kept(self);
            before.lemma_holders_kept(self);
            before.lemma_buckets_kept(self);
            before.lemma_columns_kept(self, source as int);
            assert forall|i: int| 0 <= i < before.archetypes().len() && i != source implies (
            #[trigger] self.archetypes()[i])@ == before.archetypes()[i]@ by {
                assert(self.archetypes()[i] == before.archetypes()[i]);
            }
            before.lemma_entity_removed(self, entity_id, source);
        }
    }

    /// A read-only view of all values of the component type `ty`: one
    /// block for each archetype that holds the type, in the order of the
    /// numbers of the archetypes, with the entities of its rows and the
    /// values of its column for `ty`.
    pub fn fetch_info(&self, ty: TypeKey) -> (query: ArchetypeQuery<'_, V>)
        requires
            self.wf(),
        ensures
            query.wf(),
            self.blocks_of(ty, query.rows(), query.values()),
    {
        broadcast use vstd::std_specs::hash::group_hash_axioms;

        let mut storages: Vec<&Vec<V>> = Vec::new();
        let mut indices: Vec<&Vec<EntityId>> = Vec::new();
        match self.archetypes_contains.get(&ty) {
            Some(index_for_storage) => {
                proof {
                    assert(self.holders().contains_key(ty));
                    assert(index_for_storage@ == self.holders_of(ty));
                }
                let mut k: usize = 0;
                while k < index_for_storage.len()
                    invariant
                        self.wf(),
                        index_for_storage@ == self.holders_of(ty),
                        k <= index_for_storage@.len(),
                        indices@.len() == k,
                        storages@.len() == k,
                        forall|j: int|
                            0 <= j < k ==> (#[trigger] indices@[j])@
                                == self.archetypes()[self.holders_of(ty)[j] as int].rows(),
                        forall|j: int|
                            0 <= j < k ==> (#[trigger] storages@[j])@
                                == self.archetypes()[self.holders_of(ty)[j] as int].column(ty),
                    decreases index_for_storage.len() - k,
                {
                    let index = index_for_storage[k];
                    proof {
                        assert(self.holders_of(ty)[k as int] < self.archetypes().len());
                        assert(self.holders_of(ty).contains(index));
                        assert(self.archetypes()[index as int].shape().type_set().contains(ty));
                        assert(self.archetypes()[index as int].wf());
                    }
                    let ghost gathered_rows = indices@;
                    let ghost gathered_values = storages@;
                    match self.archetypes[index].storage(ty) {
                        Some(storage) => {
                            indices.push(self.archetypes[index].indices());
                            storages.push(storage);
                            proof {
                                assert forall|j: int| 0 <= j < k + 1 implies (
                                #[trigger] indices@[j])@ == self.archetypes()[self.holders_of(
                                    ty,
                                )[j] as int].rows() by {
                                    if j < k {
                                        assert(indices@[j] == gathered_rows[j]);
                                    }
                                }
                                assert forall|j: int| 0 <= j < k + 1 implies (
                                #[trigger] storages@[j])@ == self.archetypes()[self.holders_of(
                                    ty,
                                )[j] as int].column(ty) by {
                                    if j < k {
                                        assert(storages@[j] == gathered_values[j]);
                                    }
                                }
                            }
                        },
                        None => {
                            proof {
                                assert(false);
                            }
                        },
                    }
                    k += 1;
                }
            },
            None => {
                proof {
                    assert(!self.holders().contains_key(ty));
                }
            },
        }
        proof {
            assert forall|j: int| 0 <= j < indices@.len() implies (#[trigger] indices@[j])@.len()
                == storages@[j]@.len() by {
                let archetype = self.archetypes()[self.holders_of(ty)[j] as int];
                assert(storages@[j]@ == archetype.column(ty));
                assert(self.holders_of(ty)[j] < self.archetypes().len());
                assert(self.holders_of(ty).contains(self.holders_of(ty)[j]));
                assert(archetype.wf());
                assert(archetype.shape().type_set().contains(ty));
                assert(archetype.has_column(ty));
                archetype.lemma_column_at(archetype.column_at(ty));
            }
        }
        let query = ArchetypeQuery::new(indices, storages);
        proof {
            assert forall|k: int| 0 <= k < self.holders_of(ty).len() implies (
            #[trigger] query.rows()[k]) == self.archetypes()[self.holders_of(ty)[k] as int].rows()
                && query.values()[k] == self.archetypes()[self.holders_of(ty)[k] as int].column(
                ty,
            ) by {
                assert(query.rows()[k] == indices@[k]@);
                assert(query.values()[k] == storages@[k]@);
            }
            assert(self.blocks_of(ty, query.rows(), query.values()));
        }
        query
    }

    /// The number of archetypes that hold the component type `ty`.
    pub fn holder_count(&self, ty: TypeKey) -> (count: usize)
        ensures
            count == self.holders_of(ty).len(),
    {
        broadcast use vstd::std_specs::hash::group_hash_axioms;

        match self.archetypes_contains.get(&ty) {
            Some(ids) => {
                proof {
                    assert(self.holders().contains_key(ty));
                }
                ids.len()
            },
            None => {
                proof {
                    assert(!self.holders().contains_key(ty));
                }
                0
            },
        }
    }

    /// The entities of the rows of the block `block` of the component type
    /// `ty`.
    pub fn rows_of_block(&self, ty: TypeKey, block: usize) -> (rows: &Vec<EntityId>)
        requires
            self.wf(),
            block < self.holders_of(ty).len(),
        ensures
            rows@ == self.block_rows(ty)[block as int],
    {
        broadcast use vstd::std_specs::hash::group_hash_axioms;

        proof {
            self.lemma_blocks_wf(ty);
        }
        match self.archetypes_contains.get(&ty) {
            Some(ids) => {
                proof {
                    assert(self.holders().contains_key(ty));
                }
                self.archetypes[ids[block]].indices()
            },
            None => {
                proof {
                    assert(!self.holders().contains_key(ty));
                }
                self.archetypes[0].indices()
            },
        }
    }

    /// The values of the rows of the block `block` of the component type
    /// `ty`.
    pub fn values_of_block(&self, ty: TypeKey, block: usize) -> (values: &Vec<V>)
        requires
            self.wf(),
            block < self.holders_of(ty).len(),
        ensures
            values@ == self.block_values(ty)[block as int],
    {
        broadcast use vstd::std_specs::hash::group_hash_axioms;

        proof {
            self.lemma_blocks_wf(ty);
        }
        let id = match self.archetypes_contains.get(&ty) {
            Some(ids) => {
                proof {
                    assert(self.holders().contains_key(ty));
                }
                ids[block]
            },
            None => {
                proof {
                    assert(!self.holders().contains_key(ty));
                }
                0
            },
        };
        proof {
            assert(self.archetypes()[id as int].wf());
        }
        self.archetypes[id].storage(ty).unwrap()
    }

    /// The value of the row `row` of the block `block` of the component
    /// type `ty`, for writing.
    pub fn value_of_block_mut(&mut self, ty: TypeKey, block: usize, row: usize) -> (comp: &mut V)
        requires
            old(self).wf(),
            block < old(self).holders_of(ty).len(),
            row < old(self).block_rows(ty)[block as int].len(),
        ensures
            *comp == old(self).block_values(ty)[block as int][row as int],
            final(self).wf(),
            final(self).holders() == old(self).holders(),
            final(self).block_rows(ty) == old(self).block_rows(ty),
            final(self).block_values(ty) == old(self).block_values(ty).update(
                block as int,
                old(self).block_values(ty)[block as int].update(row as int, *final(comp)),
            ),
            final(self)@ == old(self)@.insert(
                old(self).block_rows(ty)[block as int][row as int],
                old(self)@[old(self).block_rows(ty)[block as int][row as int]].insert(
                    ty,
                    *final(comp),
                ),
            ),
            final(self).archetypes().len() == old(self).archetypes().len(),
            old(self).shapes_kept(final(self)),
            old(self).rows_kept(final(self)),
    {
        broadcast use vstd::std_specs::hash::group_hash_axioms;

        proof {
            self.lemma_blocks_wf(ty);
        }
        let id = match self.archetypes_contains.get(&ty) {
            Some(ids) => {
                proof {
                    assert(self.holders().contains_key(ty));
                }
                ids[block]
            },
            None => {
                proof {
                    assert(!self.holders().contains_key(ty));
                }
                0
            },
        };
        let entity_id = self.archetypes[id].indices()[row];
        proof {
            let archetype = self.archetypes()[id as int];
            assert(archetype.wf());
            assert(archetype.row_of().contains_key(archetype.rows()[row as int]));
            assert(archetype.row_of()[entity_id] == row);
            assert(archetype.has_column(ty));
            assert forall|after: Self|
                #![trigger after.wf()]
                #![trigger after@]
                #![trigger after.archetypes()]
                #![trigger after.block_rows(ty)]
                #![trigger after.block_values(ty)]
                #![trigger after.holders()]
                after.archetype_of() == self.archetype_of() && after.holders() == self.holders()
                    && after.buckets() == self.buckets() && after.archetypes().len()
                    == self.archetypes().len() && (forall|i: int|
                    0 <= i < self.archetypes().len() && i != id ==> (
                    #[trigger] after.archetypes()[i]) == self.archetypes()[i])
                    && self.archetypes()[id as int].same_but_column(
                    &after.archetypes()[id as int],
                    self.archetypes()[id as int].column_at(ty),
                ) && after.archetypes()[id as int].column(ty)
                    == self.archetypes()[id as int].column(
                    ty,
                ).update(
                    row as int,
                    after.archetypes()[id as int].column(ty)[row as int],
                ) implies after.wf() && after@ == self@.insert(
                entity_id,
                self@[entity_id].insert(ty, after.archetypes()[id as int].column(ty)[row as int]),
            ) && after.block_rows(ty) == self.block_rows(ty) && after.block_values(ty)
                == self.block_values(ty).update(
                block as int,
                self.block_values(ty)[block as int].update(
                    row as int,
                    after.archetypes()[id as int].column(ty)[row as int],
                ),
            ) && self.shapes_kept(&after) && self.rows_kept(&after) by {
                self.lemma_block_value_changed(
                    &after,
                    ty,
                    block as int,
                    row as int,
                    after.archetypes()[id as int].column(ty)[row as int],
                );
            }
        }
        self.archetypes[id].query_mut(entity_id, ty).unwrap()
    }

    /// A view of all values of the component type `ty` for writing. While
    /// the view is there, the store is reached through it alone.
    pub fn fetch_info_mut(&mut self, ty: TypeKey) -> (query: ArchetypeQueryMut<'_, V>)
        requires
            old(self).wf(),
        ensures
            query.wf(),
            query.ty == ty,
            query.store() == *old(self),
            *final(query.manager) == *final(self),
    {
        ArchetypeQueryMut::new(self, ty)
    }
}

impl<V> ArchetypeManager<V> {
    /// In a sound registry every column of every archetype has one value
    /// per row, and each entity of an archetype is the entity of its row.
    pub proof fn lemma_archetypes_aligned(&self)
        requires
            self.wf(),
        ensures
            forall|i: int, k: int|
                0 <= i < self.archetypes().len() && 0 <= k < self.archetypes()[i].columns().len()
                    ==> (#[trigger] self.archetypes()[i].columns()[k])@.len()
                    == self.archetypes()[i].rows().len(),
            forall|i: int, e: EntityId|
                0 <= i < self.archetypes().len() && (#[trigger] self.archetypes()[i].contains(e))
                    ==> self.archetypes()[i].row_of()[e] < self.archetypes()[i].rows().len()
                    && self.archetypes()[i].rows()[self.archetypes()[i].row_of()[e] as int] == e,
            forall|i: int, row: int|
                0 <= i < self.archetypes().len() && 0 <= row < self.archetypes()[i].rows().len()
                    ==> self.archetypes()[i].contains(#[trigger] self.archetypes()[i].rows()[row])
                    && self.archetypes()[i].row_of()[self.archetypes()[i].rows()[row]] == row,
    {
        assert forall|i: int, k: int|
            0 <= i < self.archetypes().len()
                && 0 <= k < self.archetypes()[i].columns().len() implies (
        #[trigger] self.archetypes()[i].columns()[k])@.len()
            == self.archetypes()[i].rows().len() by {
            assert(self.archetypes()[i].wf());
        }
        assert forall|i: int, e: EntityId|
            0 <= i < self.archetypes().len() && (#[trigger] self.archetypes()[i].contains(
                e,
            )) implies self.archetypes()[i].row_of()[e] < self.archetypes()[i].rows().len()
            && self.archetypes()[i].rows()[self.archetypes()[i].row_of()[e] as int] == e by {
            assert(self.archetypes()[i].wf());
        }
        assert forall|i: int, row: int|
            0 <= i < self.archetypes().len()
                && 0 <= row < self.archetypes()[i].rows().len()
                    implies self.archetypes()[i].contains(
            #[trigger] self.archetypes()[i].rows()[row],
        ) && self.archetypes()[i].row_of()[self.archetypes()[i].rows()[row]] == row by {
            assert(self.archetypes()[i].wf());
        }
    }

    /// A registry whose archetypes are at rest and have the shapes that they
    /// had, with one more archetype of a new shape at most, still has
    /// sound archetypes.
    pub proof fn lemma_shapes_kept(&self, after: &Self)
        requires
            self.archetypes_wf(),
            self.archetypes().len() <= after.archetypes().len() <= self.archetypes().len() + 1,
            forall|i: int|
                0 <= i < after.archetypes().len() ==> (#[trigger] after.archetypes()[i]).wf(),
            forall|i: int|
                0 <= i < self.archetypes().len() ==> (#[trigger] after.archetypes()[i]).shape()
                    == self.archetypes()[i].shape(),
            forall|i: int|
                0 <= i < self.archetypes().len() < after.archetypes().len() ==> (
                #[trigger] self.archetypes()[i]).shape()@ != after.archetypes().last().shape()@,
        ensures
            after.archetypes_wf(),
    {
        assert forall|i: int, j: int| 0 <= i < j < after.archetypes().len() implies (
        #[trigger] after.archetypes()[i]).shape()@
            != (#[trigger] after.archetypes()[j]).shape()@ by {
            if j < self.archetypes().len() {
                assert(self.archetypes()[i].shape()@ != self.archetypes()[j].shape()@);
            } else {
                assert(self.archetypes()[i].shape()@ != after.archetypes().last().shape()@);
            }
        }
    }

    /// The lists of holders stay exact while the shapes stay as they are.
    pub proof fn lemma_holders_kept(&self, after: &Self)
        requires
            self.holders_wf(),
            after.archetypes().len() == self.archetypes().len(),
            forall|i: int|
                0 <= i < self.archetypes().len() ==> (#[trigger] after.archetypes()[i]).shape()
                    == self.archetypes()[i].shape(),
            after.holders() == self.holders(),
        ensures
            after.holders_wf(),
    {
        assert forall|ty: TypeKey, i: int| 0 <= i < after.archetypes().len() implies (
        #[trigger] after.archetypes()[i].shape().type_set().contains(ty) <==> after.holders_of(
            ty,
        ).contains(i as usize)) by {
            assert(after.archetypes()[i].shape() == self.archetypes()[i].shape());
            assert(self.archetypes()[i].shape().type_set().contains(ty) <==> self.holders_of(
                ty,
            ).contains(i as usize));
        }
        assert forall|ty: TypeKey, k: int| 0 <= k < after.holders_of(ty).len() implies (
        #[trigger] after.holders_of(ty)[k]) < after.archetypes().len() by {
            assert(self.holders_of(ty)[k] < self.archetypes().len());
        }
    }

    /// The shape of an archetype is a shape that some archetype stores.
    pub proof fn lemma_has_shape(&self, at: int)
        requires
            0 <= at < self.archetypes().len(),
        ensures
            self.has_shape(self.archetypes()[at].shape().type_set()),
    {
    }

    /// A sound shape that differs as a sequence from the shape of every
    /// archetype has component types that no archetype stores.
    pub proof fn lemma_no_shape(&self, shape: ArchetypeIndex)
        requires
            self.archetypes_wf(),
            shape.wf(),
            forall|i: int|
                0 <= i < self.archetypes().len() ==> (#[trigger] self.archetypes()[i]).shape()@
                    != shape@,
        ensures
            !self.has_shape(shape.type_set()),
    {
        if self.has_shape(shape.type_set()) {
            let i = choose|i: int|
                0 <= i < self.archetypes().len()
                    && (#[trigger] self.archetypes()[i]).shape().type_set()
                    == shape.type_set();
            assert(self.archetypes()[i].wf());
            lemma_strictly_increasing_unique(self.archetypes()[i].shape()@, shape@);
        }
    }

    /// Changing the values of one archetype keeps the columns of all.
    pub proof fn lemma_columns_kept(&self, after: &Self, at: int)
        requires
            0 <= at < self.archetypes().len(),
            after.archetypes().len() == self.archetypes().len(),
            forall|i: int|
                0 <= i < self.archetypes().len() && i != at ==> (#[trigger] after.archetypes()[i])
                    == self.archetypes()[i],
            self.archetypes()[at].same_column_types(&after.archetypes()[at]),
            after.archetypes()[at].shape() == self.archetypes()[at].shape(),
        ensures
            self.shapes_kept(after),
    {
        self.archetypes()[at].lemma_column_types(&after.archetypes()[at]);
    }

    /// With one more archetype at the end, the lists of holders and the
    /// buckets still cover the archetypes that were there.
    pub proof fn lemma_covers_kept(&self, after: &Self)
        requires
            self.holders_wf(),
            self.buckets_wf(),
            after.archetypes().len() == self.archetypes().len() + 1,
            forall|i: int|
                0 <= i < self.archetypes().len() ==> (#[trigger] after.archetypes()[i]).shape()
                    == self.archetypes()[i].shape(),
            after.holders() == self.holders(),
            after.buckets() == self.buckets(),
        ensures
            after.holders_cover(self.archetypes().len() as int),
            after.buckets_cover(self.archetypes().len() as int),
    {
        let count = self.archetypes().len() as int;
        assert forall|i: int| 0 <= i < count implies after.buckets().contains_key(
            signature_of((#[trigger] after.archetypes()[i]).shape()@),
        ) && after.buckets()[signature_of(after.archetypes()[i].shape()@)].contains(i as usize) by {
            assert(after.archetypes()[i].shape() == self.archetypes()[i].shape());
            assert(self.buckets().contains_key(signature_of(self.archetypes()[i].shape()@)));
        }
        assert forall|key: u64, k: int|
            after.buckets().contains_key(key) && 0 <= k < after.buckets()[key].len() implies (
        #[trigger] after.buckets()[key][k]) < count && signature_of(
            after.archetypes()[after.buckets()[key][k] as int].shape()@,
        ) == key by {
            let id = self.buckets()[key][k];
            assert(id < self.archetypes().len());
            assert(after.archetypes()[id as int].shape() == self.archetypes()[id as int].shape());
        }
        assert forall|t: TypeKey, i: int| 0 <= i < count implies (
        #[trigger] after.archetypes()[i].shape().type_set().contains(t) <==> after.holders_of(
            t,
        ).contains(i as usize)) by {
            assert(after.archetypes()[i].shape() == self.archetypes()[i].shape());
            assert(self.archetypes()[i].shape().type_set().contains(t) <==> self.holders_of(
                t,
            ).contains(i as usize));
        }
        assert forall|t: TypeKey, k: int| 0 <= k < after.holders_of(t).len() implies (
        #[trigger] after.holders_of(t)[k]) < count by {
            assert(self.holders_of(t)[k] < self.archetypes().len());
        }
    }

    /// The number of archetypes is a machine number.
    pub proof fn lemma_count_bounded(&self)
        ensures
            self.archetypes().len() <= usize::MAX,
    {
        assert(self.archetypes@.len() == self.archetypes.len());
    }

    /// The archetypes stay filed under the hashes of their shapes while
    /// the shapes stay as they are.
    pub proof fn lemma_buckets_kept(&self, after: &Self)
        requires
            self.buckets_wf(),
            after.archetypes().len() == self.archetypes().len(),
            forall|i: int|
                0 <= i < self.archetypes().len() ==> (#[trigger] after.archetypes()[i]).shape()
                    == self.archetypes()[i].shape(),
            after.buckets() == self.buckets(),
        ensures
            after.buckets_wf(),
    {
        assert forall|i: int| 0 <= i < after.archetypes().len()
            implies after.buckets().contains_key(
            signature_of((#[trigger] after.archetypes()[i]).shape()@),
        ) && after.buckets()[signature_of(after.archetypes()[i].shape()@)].contains(i as usize) by {
            assert(after.archetypes()[i].shape() == self.archetypes()[i].shape());
            assert(self.buckets().contains_key(signature_of(self.archetypes()[i].shape()@)));
        }
        assert forall|hash: u64, k: int|
            after.buckets().contains_key(hash) && 0 <= k < after.buckets()[hash].len() implies (
        #[trigger] after.buckets()[hash][k]) < after.archetypes().len() && signature_of(
            after.archetypes()[after.buckets()[hash][k] as int].shape()@,
        ) == hash by {
            let id = self.buckets()[hash][k];
            assert(id < self.archetypes().len());
            assert(after.archetypes()[id as int].shape() == self.archetypes()[id as int].shape());
        }
    }

    /// Changing the values of one archetype, without touching its entities
    /// or those of any other archetype, keeps the entity map sound.
    pub proof fn lemma_entities_kept(&self, after: &Self)
        requires
            self.entities_wf(),
            after.archetypes().len() == self.archetypes().len(),
            forall|i: int|
                0 <= i < self.archetypes().len() ==> (#[trigger] after.archetypes()[i])@.dom()
                    == self.archetypes()[i]@.dom(),
            after.archetype_of() == self.archetype_of(),
        ensures
            after.entities_wf(),
    {
        assert forall|e: EntityId| #[trigger]
            after.archetype_of().contains_key(e) implies after.archetype_of()[e]
            < after.archetypes().len()
                && after.archetypes()[after.archetype_of()[e] as int].contains(
            e,
        ) by {
            let i = self.archetype_of()[e] as int;
            assert(self.archetypes()[i].contains(e));
            assert(self.archetypes()[i]@.dom().contains(e));
            assert(after.archetypes()[i]@.dom().contains(e));
        }
        assert forall|i: int, e: EntityId|
            0 <= i < after.archetypes().len() && (#[trigger] after.archetypes()[i].contains(
                e,
            )) implies after.archetype_of().contains_key(e) && after.archetype_of()[e] == i by {
            assert(after.archetypes()[i]@.dom().contains(e));
            assert(self.archetypes()[i]@.dom().contains(e));
            assert(self.archetypes()[i].contains(e));
        }
    }

    /// Moving `entity` from the archetype `source` to the archetype `target`,
    /// which may be a new last one, with the values `bundle`, changes the
    /// values of that entity and nothing else.
    pub proof fn lemma_entity_moved(
        &self,
        after: &Self,
        entity: EntityId,
        source: usize,
        target: usize,
        bundle: Map<TypeKey, V>,
    )
        requires
            self.wf(),
            self.archetype_of().contains_key(entity),
            self.archetype_of()[entity] == source,
            source != target,
            target < after.archetypes().len(),
            self.archetypes().len() <= after.archetypes().len() <= self.archetypes().len() + 1,
            target >= self.archetypes().len() ==> target == self.archetypes().len(),
            after.archetypes().len() == self.archetypes().len() + 1 ==> target
                == self.archetypes().len(),
            forall|i: int|
                0 <= i < self.archetypes().len() && i != source && i != target ==> (
                #[trigger] after.archetypes()[i])@ == self.archetypes()[i]@,
            after.archetypes()[source as int]@ == self.archetypes()[source as int]@.remove(entity),
            after.archetypes()[target as int]@ == (if target < self.archetypes().len() {
                self.archetypes()[target as int]@
            } else {
                Map::<EntityId, Map<TypeKey, V>>::empty()
            }).insert(entity, bundle),
            after.archetype_of() == self.archetype_of().insert(entity, target),
        ensures
            after.entities_wf(),
            after@ == self@.insert(entity, bundle),
    {
        let count = self.archetypes().len() as int;
        assert(self.archetypes()[source as int].contains(entity));
        assert forall|e: EntityId| #[trigger]
            after.archetype_of().contains_key(e) implies after.archetype_of()[e]
            < after.archetypes().len()
                && after.archetypes()[after.archetype_of()[e] as int].contains(
            e,
        ) && after.archetypes()[after.archetype_of()[e] as int]@[e]
            == self@.insert(entity, bundle)[e] by {
            if e == entity {
                assert(after.archetypes()[target as int]@.dom().contains(e));
            } else {
                assert(self.archetype_of().contains_key(e));
                let i = self.archetype_of()[e] as int;
                assert(self.archetypes()[i].contains(e));
                assert(self.archetypes()[i]@.dom().contains(e));
                if i == source {
                    assert(after.archetypes()[i]@.dom().contains(e));
                } else if i == target {
                    assert(after.archetypes()[i]@.dom().contains(e));
                } else {
                    assert(after.archetypes()[i]@.dom().contains(e));
                }
            }
        }
        assert forall|i: int, e: EntityId|
            0 <= i < after.archetypes().len() && (#[trigger] after.archetypes()[i].contains(
                e,
            )) implies after.archetype_of().contains_key(e) && after.archetype_of()[e] == i by {
            assert(after.archetypes()[i]@.dom().contains(e));
            if i == source {
                assert(self.archetypes()[i]@.dom().contains(e));
                assert(self.archetypes()[i].contains(e));
            } else if i == target {
                if e != entity {
                    assert(i < count);
                    assert(self.archetypes()[i]@.dom().contains(e));
                    assert(self.archetypes()[i].contains(e));
                }
            } else {
                assert(self.archetypes()[i]@.dom().contains(e));
                assert(self.archetypes()[i].contains(e));
                if e == entity {
                    assert(false);
                }
            }
        }
        assert(after@ =~= self@.insert(entity, bundle));
    }

    /// Taking `entity` out of its archetype and out of the entity map
    /// removes that entity and nothing else.
    pub proof fn lemma_entity_removed(&self, after: &Self, entity: EntityId, source: usize)
        requires
            self.wf(),
            self.archetype_of().contains_key(entity),
            self.archetype_of()[entity] == source,
            after.archetypes().len() == self.archetypes().len(),
            forall|i: int|
                0 <= i < self.archetypes().len() && i != source
                    ==> (#[trigger] after.archetypes()[i])@
                    == self.archetypes()[i]@,
            after.archetypes()[source as int]@ == self.archetypes()[source as int]@.remove(entity),
            after.archetype_of() == self.archetype_of().remove(entity),
        ensures
            after.entities_wf(),
            after@ == self@.remove(entity),
    {
        assert(self.archetypes()[source as int].contains(entity));
        assert forall|e: EntityId| #[trigger]
            after.archetype_of().contains_key(e) implies after.archetype_of()[e]
            < after.archetypes().len()
                && after.archetypes()[after.archetype_of()[e] as int].contains(
            e,
        ) && after.archetypes()[after.archetype_of()[e] as int]@[e] == self@.remove(entity)[e] by {
            assert(self.archetype_of().contains_key(e));
            let i = self.archetype_of()[e] as int;
            assert(self.archetypes()[i].contains(e));
            assert(self.archetypes()[i]@.dom().contains(e));
            assert(after.archetypes()[i]@.dom().contains(e));
        }
        assert forall|i: int, e: EntityId|
            0 <= i < after.archetypes().len() && (#[trigger] after.archetypes()[i].contains(
                e,
            )) implies after.archetype_of().contains_key(e) && after.archetype_of()[e] == i by {
            assert(after.archetypes()[i]@.dom().contains(e));
            assert(self.archetypes()[i]@.dom().contains(e));
            assert(self.archetypes()[i].contains(e));
        }
        assert(after@ =~= self@.remove(entity));
    }

    /// Overwriting one value of one entity in its archetype changes that
    /// value in the view of the registry and nothing else.
    pub proof fn lemma_value_changed(
        &self,
        after: &Self,
        entity: EntityId,
        ty: TypeKey,
        comp: V,
    )
        requires
            self.wf(),
            self@.contains_key(entity),
            self@[entity].contains_key(ty),
            after.archetype_of() == self.archetype_of(),
            after.holders() == self.holders(),
            after.buckets() == self.buckets(),
            after.archetypes().len() == self.archetypes().len(),
            forall|i: int|
                0 <= i < self.archetypes().len() && i != self.archetype_of()[entity] ==> (
                #[trigger] after.archetypes()[i]) == self.archetypes()[i],
            self.archetypes()[self.archetype_of()[entity] as int].same_but_column(
                &after.archetypes()[self.archetype_of()[entity] as int],
                self.archetypes()[self.archetype_of()[entity] as int].column_at(ty),
            ),
            after.archetypes()[self.archetype_of()[entity] as int].column(ty)
                == self.archetypes()[self.archetype_of()[entity] as int].column(
                ty,
            ).update(
                self.archetypes()[self.archetype_of()[entity] as int].row_of()[entity] as int,
                comp,
            ),
        ensures
            after.wf(),
            after@ == self@.insert(entity, self@[entity].insert(ty, comp)),
            after.archetypes().len() == self.archetypes().len(),
            forall|i: int|
                0 <= i < self.archetypes().len() ==> (#[trigger] after.archetypes()[i]).shape()
                    == self.archetypes()[i].shape(),
            self.rows_kept(after),
            self.shapes_kept(after),
    {
        self.lemma_entity_bundle(entity);
        self.lemma_columns_kept(after, self.archetype_of()[entity] as int);
        let source = self.archetype_of()[entity] as int;
        let a0 = self.archetypes()[source];
        let a1 = after.archetypes()[source];
        assert(a0.has_column(ty));
        a0.lemma_value_updated(&a1, entity, ty, comp);
        assert forall|i: int| 0 <= i < after.archetypes().len() implies (
        #[trigger] after.archetypes()[i]).wf() && after.archetypes()[i].shape()
            == self.archetypes()[i].shape() && after.archetypes()[i]@.dom()
            == self.archetypes()[i]@.dom() by {
            if i != source {
                assert(after.archetypes()[i] == self.archetypes()[i]);
            } else {
                assert(a1@.dom() =~= a0@.dom());
            }
        }
        self.lemma_shapes_kept(after);
        self.lemma_holders_kept(after);
        self.lemma_buckets_kept(after);
        self.lemma_entities_kept(after);
        assert(after@ =~= self@.insert(entity, self@[entity].insert(ty, comp))) by {
            assert forall|e: EntityId| #[trigger] after@.contains_key(e) implies after@[e]
                == self@.insert(entity, self@[entity].insert(ty, comp))[e] by {
                let i = after.archetype_of()[e] as int;
                assert(self.archetype_of().contains_key(e));
                if i != source {
                    assert(after.archetypes()[i] == self.archetypes()[i]);
                }
            }
        }
    }

    /// Appending the number of the last archetype to the lists of holders of
    /// the component types of its shape makes the lists cover it.
    proof fn lemma_holders_extended(&self, after: &Self, last: int)
        requires
            0 <= last <= usize::MAX,
            last + 1 == self.archetypes().len(),
            self.holders_cover(last),
            after.archetypes() == self.archetypes(),
            forall|ty: TypeKey|
                after.holders_of(ty) == if self.archetypes()[last].shape().type_set().contains(ty) {
                    self.holders_of(ty).push(last as usize)
                } else {
                    self.holders_of(ty)
                },
        ensures
            after.holders_wf(),
    {
        let shape = self.archetypes()[last].shape().type_set();
        assert forall|ty: TypeKey| #[trigger] after.holders().contains_key(ty)
            implies ids_increasing(
            after.holders()[ty],
        ) by {
            let ids = after.holders_of(ty);
            assert(ids == after.holders()[ty]);
            if self.holders().contains_key(ty) {
                assert(ids_increasing(self.holders()[ty]));
            }
            assert forall|i: int, j: int| 0 <= i < j < ids.len() implies ids[i] < ids[j] by {
                if shape.contains(ty) {
                    if j == ids.len() - 1 {
                        assert(self.holders_of(ty)[i] < last);
                    }
                }
            }
        }
        assert forall|ty: TypeKey, i: int| 0 <= i < after.archetypes().len() implies (
        #[trigger] after.archetypes()[i].shape().type_set().contains(ty) <==> after.holders_of(
            ty,
        ).contains(i as usize)) by {
            let ids = after.holders_of(ty);
            if i < last {
                assert(self.archetypes()[i].shape().type_set().contains(ty) <==> self.holders_of(
                    ty,
                ).contains(i as usize));
                if self.holders_of(ty).contains(i as usize) {
                    let k = choose|k: int|
                        0 <= k < self.holders_of(ty).len() && self.holders_of(ty)[k] == i as usize;
                    assert(ids[k] == i as usize);
                }
                if ids.contains(i as usize) {
                    let k = choose|k: int| 0 <= k < ids.len() && ids[k] == i as usize;
                    if k < self.holders_of(ty).len() {
                        assert(self.holders_of(ty)[k] == i as usize);
                    }
                }
            } else {
                if shape.contains(ty) {
                    assert(ids[ids.len() - 1] == last as usize);
                }
                if ids.contains(i as usize) {
                    let k = choose|k: int| 0 <= k < ids.len() && ids[k] == i as usize;
                    if k < self.holders_of(ty).len() {
                        assert(self.holders_of(ty)[k] < last);
                    }
                }
            }
        }
        assert forall|ty: TypeKey, k: int| 0 <= k < after.holders_of(ty).len() implies (
        #[trigger] after.holders_of(ty)[k]) < after.archetypes().len() by {
            let ids = after.holders_of(ty);
            assert(ids == if shape.contains(ty) {
                self.holders_of(ty).push(last as usize)
            } else {
                self.holders_of(ty)
            });
            if k < self.holders_of(ty).len() {
                assert(self.holders_of(ty)[k] < last);
                assert(ids[k] == self.holders_of(ty)[k]);
            } else {
                assert(ids[k] == last as usize);
            }
        }
    }

    /// When an entity has moved out of an archetype, the entity of the last
    /// row of that archetype has taken over the row of the moved one, is in
    /// the row maps under that row, and has the values that it had.
    pub proof fn lemma_move_backfills(&self, after: &Self, entity: EntityId, target: usize)
        requires
            self.wf(),
            after.wf(),
            self@.contains_key(entity),
            self.entity_moved(after, entity, target),
            after@.remove(entity) == self@.remove(entity),
            self.archetypes()[self.archetype_of()[entity] as int].rows().last() != entity,
        ensures
            ({
                let source = self.archetype_of()[entity] as int;
                let displaced = self.archetypes()[source].rows().last();
                &&& after.archetype_of()[displaced] == source
                &&& after.archetypes()[source].row_of()[displaced]
                    == self.archetypes()[source].row_of()[entity]
                &&& after.archetypes()[source].rows()[self.archetypes()[source].row_of(
                    )[entity] as int]
                    == displaced
                &&& after@[displaced] == self@[displaced]
            }),
    {
        self.lemma_entity_bundle(entity);
        let source = self.archetype_of()[entity] as int;
        let before = self.archetypes()[source];
        assert(before.wf());
        assert(before.row_of().contains_key(entity));
        let row = before.row_of()[entity] as int;
        let last = before.rows().len() - 1;
        let displaced = before.rows().last();
        assert(before.row_of().contains_key(before.rows()[last]));
        assert(self.archetypes()[source].contains(displaced));
        assert(self.archetype_of().contains_key(displaced));
        assert(row != last) by {
            if row == last {
                assert(before.rows()[row] == entity);
            }
        }
        let now = after.archetypes()[source];
        assert(now.wf());
        assert(now.rows()[row] == displaced);
        assert(now.row_of().contains_key(now.rows()[row]));
        assert(after@.remove(entity)[displaced] == self@.remove(entity)[displaced]);
    }

    /// The values of a live entity are those of its row in its archetype,
    /// and its component types are those of the shape of that archetype.
    pub proof fn lemma_entity_bundle(&self, entity: EntityId)
        requires
            self.wf(),
            self@.contains_key(entity),
        ensures
            self.archetype_of().contains_key(entity),
            self.archetype_of()[entity] < self.archetypes().len(),
            self.archetypes()[self.archetype_of()[entity] as int].wf(),
            self.archetypes()[self.archetype_of()[entity] as int].contains(entity),
            self@[entity] == self.archetypes()[self.archetype_of()[entity] as int].bundle(entity),
            self@[entity].dom()
                == self.archetypes()[self.archetype_of()[entity] as int].shape().type_set(),
    {
        let archetype = self.archetypes()[self.archetype_of()[entity] as int];
        assert(self.archetype_of().contains_key(entity));
        assert(archetype.wf());
        assert(self@[entity].dom() =~= archetype.shape().type_set());
    }

    /// The blocks of a component type are sound: each has one value per
    /// row, and its archetype holds the type.
    pub proof fn lemma_blocks_wf(&self, ty: TypeKey)
        requires
            self.wf(),
        ensures
            self.blocks_of(ty, self.block_rows(ty), self.block_values(ty)),
            forall|k: int|
                0 <= k < self.holders_of(ty).len() ==> (#[trigger] self.block_rows(ty)[k]).len()
                    == self.block_values(ty)[k].len(),
            forall|k: int|
                0 <= k < self.holders_of(ty).len() ==> (#[trigger] self.holders_of(ty)[k])
                    < self.archetypes().len() && self.archetypes()[self.holders_of(
                    ty,
                )[k] as int].has_column(ty),
    {
        assert forall|k: int| 0 <= k < self.holders_of(ty).len() implies (
        #[trigger] self.holders_of(ty)[k]) < self.archetypes().len()
            && self.archetypes()[self.holders_of(ty)[k] as int].has_column(ty) && self.block_rows(
            ty,
        )[k].len() == self.block_values(ty)[k].len() by {
            let id = self.holders_of(ty)[k];
            assert(id < self.archetypes().len());
            assert(self.holders_of(ty).contains(id));
            let archetype = self.archetypes()[id as int];
            assert(archetype.wf());
            assert(archetype.shape().type_set().contains(ty));
            assert(archetype.has_column(ty));
            archetype.lemma_column_at(archetype.column_at(ty));
        }
        assert forall|k: int| 0 <= k < self.holders_of(ty).len() implies (
        #[trigger] self.block_rows(ty)[k]).len() == self.block_values(ty)[k].len() by {
            assert(self.holders_of(ty)[k] < self.archetypes().len());
        }
    }

    /// The entity of a row of a block is live, and the value of the row is
    /// its component of the type of the block.
    pub proof fn lemma_block_entity(&self, ty: TypeKey, block: int, row: int)
        requires
            self.wf(),
            0 <= block < self.holders_of(ty).len(),
            0 <= row < self.block_rows(ty)[block].len(),
        ensures
            self@.contains_key(self.block_rows(ty)[block][row]),
            self@[self.block_rows(ty)[block][row]].contains_key(ty),
            self@[self.block_rows(ty)[block][row]][ty] == self.block_values(ty)[block][row],
    {
        self.lemma_blocks_wf(ty);
        let id = self.holders_of(ty)[block];
        let archetype = self.archetypes()[id as int];
        let entity = archetype.rows()[row];
        assert(archetype.wf());
        assert(archetype.row_of().contains_key(archetype.rows()[row]));
        assert(self.archetypes()[id as int].contains(entity));
        assert(self.archetype_of().contains_key(entity) && self.archetype_of()[entity] == id);
        self.lemma_entity_bundle(entity);
    }

    /// Overwriting the value of one row of one block changes that value in
    /// the blocks and in the view of the registry, and nothing else.
    pub proof fn lemma_block_value_changed(
        &self,
        after: &Self,
        ty: TypeKey,
        block: int,
        row: int,
        comp: V,
    )
        requires
            self.wf(),
            0 <= block < self.holders_of(ty).len(),
            0 <= row < self.block_rows(ty)[block].len(),
            after.archetype_of() == self.archetype_of(),
            after.holders() == self.holders(),
            after.buckets() == self.buckets(),
            after.archetypes().len() == self.archetypes().len(),
            forall|i: int|
                0 <= i < self.archetypes().len() && i != self.holders_of(ty)[block] ==> (
                #[trigger] after.archetypes()[i]) == self.archetypes()[i],
            self.archetypes()[self.holders_of(ty)[block] as int].same_but_column(
                &after.archetypes()[self.holders_of(ty)[block] as int],
                self.archetypes()[self.holders_of(ty)[block] as int].column_at(ty),
            ),
            after.archetypes()[self.holders_of(ty)[block] as int].column(ty)
                == self.archetypes()[self.holders_of(ty)[block] as int].column(ty).update(row,
                    comp),
        ensures
            after.wf(),
            after@ == self@.insert(
                self.block_rows(ty)[block][row],
                self@[self.block_rows(ty)[block][row]].insert(ty, comp),
            ),
            self@.contains_key(self.block_rows(ty)[block][row]),
            self@[self.block_rows(ty)[block][row]].contains_key(ty),
            after.block_rows(ty) == self.block_rows(ty),
            after.block_values(ty) == self.block_values(ty).update(
                block,
                self.block_values(ty)[block].update(row, comp),
            ),
            after.archetypes().len() == self.archetypes().len(),
            self.shapes_kept(after),
            self.rows_kept(after),
    {
        self.lemma_blocks_wf(ty);
        let ids = self.holders_of(ty);
        let id = ids[block];
        let archetype = self.archetypes()[id as int];
        let entity = archetype.rows()[row];
        assert(archetype.wf());
        assert(archetype.row_of().contains_key(archetype.rows()[row]));
        assert(self.archetypes()[id as int].contains(entity));
        assert(self.archetype_of().contains_key(entity) && self.archetype_of()[entity] == id);
        self.lemma_entity_bundle(entity);
        self.lemma_value_changed(after, entity, ty, comp);
        assert(after.block_rows(ty) =~= self.block_rows(ty)) by {
            assert forall|k: int| 0 <= k < ids.len() implies after.block_rows(ty)[k]
                == self.block_rows(ty)[k] by {
                if ids[k] != id {
                    assert(after.archetypes()[ids[k] as int] == self.archetypes()[ids[k] as int]);
                }
            }
        }
        assert(after.block_values(ty) =~= self.block_values(ty).update(
            block,
            self.block_values(ty)[block].update(row, comp),
        )) by {
            assert forall|k: int| 0 <= k < ids.len() implies after.block_values(ty)[k]
                == self.block_values(ty).update(
                block,
                self.block_values(ty)[block].update(row, comp),
            )[k] by {
                if k != block {
                    assert(ids_increasing(self.holders()[ty]));
                    if k < block {
                        assert(ids[k] < ids[block]);
                    } else {
                        assert(ids[block] < ids[k]);
                    }
                    assert(after.archetypes()[ids[k] as int] == self.archetypes()[ids[k] as int]);
                }
            }
        }
    }

    /// The blocks of a component type hold exactly the live entities with a
    /// component of that type, each once, with the value that it has.
    pub proof fn lemma_blocks_complete(
        &self,
        ty: TypeKey,
        rows: Seq<Seq<EntityId>>,
        values: Seq<Seq<V>>,
        entity: EntityId,
    )
        requires
            self.wf(),
            self.blocks_of(ty, rows, values),
        ensures
            find_first(entries_from(rows, values, 0, 0), entity) == if self@.contains_key(entity)
                && self@[entity].contains_key(ty) {
                Some(self@[entity][ty])
            } else {
                None
            },
    {
        let ids = self.holders_of(ty);
        if self@.contains_key(entity) && self@[entity].contains_key(ty) {
            self.lemma_entity_bundle(entity);
            let home = self.archetype_of()[entity];
            let archetype = self.archetypes()[home as int];
            assert(archetype.shape().type_set().contains(ty));
            assert(ids.contains(home));
            let block = choose|k: int| 0 <= k < ids.len() && ids[k] == home;
            let row = archetype.row_of()[entity] as int;
            assert(archetype.row_of().contains_key(entity));
            assert(rows[block] == archetype.rows());
            assert forall|i: int, j: int|
                0 <= i < rows.len() && 0 <= j < rows[i].len() && (i > 0 || j >= 0) && (i != block
                    || j != row) implies #[trigger] rows[i][j] != entity by {
                if rows[i][j] == entity {
                    let other = self.archetypes()[ids[i] as int];
                    assert(ids[i] < self.archetypes().len());
                    assert(other.wf());
                    assert(rows[i] == other.rows());
                    assert(other.row_of().contains_key(other.rows()[j]));
                    assert(self.archetypes()[ids[i] as int].contains(entity));
                    assert(ids[i] == home);
                    if i < block {
                        assert(ids_increasing(self.holders()[ty]));
                        assert(ids[i] < ids[block]);
                    } else if block < i {
                        assert(ids_increasing(self.holders()[ty]));
                        assert(ids[block] < ids[i]);
                    }
                    assert(j == row);
                }
            }
            lemma_find_first_only(rows, values, 0, 0, entity, block, row);
            assert(values[block] == archetype.column(ty));
        } else {
            assert forall|i: int, j: int|
                0 <= i < rows.len() && 0 <= j < rows[i].len() && (i > 0 || j >= 0)
                    implies #[trigger] rows[i][j]
                != entity by {
                if rows[i][j] == entity {
                    let other = self.archetypes()[ids[i] as int];
                    assert(ids[i] < self.archetypes().len());
                    assert(ids.contains(ids[i]));
                    assert(other.shape().type_set().contains(ty));
                    assert(other.wf());
                    assert(rows[i] == other.rows());
                    assert(other.row_of().contains_key(other.rows()[j]));
                    assert(self.archetypes()[ids[i] as int].contains(entity));
                    self.lemma_entity_bundle(entity);
                }
            }
            lemma_find_first_none(rows, values, 0, 0, entity);
        }
    }
}

/// One structural call on an entity: attach a value, or detach the
/// component of a type.
pub enum ComponentCall<V> {
    /// Attach the value as the component of the type.
    Add(TypeKey, V),
    /// Detach the component of the type.
    Remove(TypeKey),
}

impl<V> ComponentCall<V> {
    /// The component type that the call is about.
    pub open spec fn type_key(self) -> TypeKey {
        match self {
            ComponentCall::Add(ty, _) => ty,
            ComponentCall::Remove(ty) => ty,
        }
    }

    /// The components of an entity after the call.
    pub open spec fn apply(self, bundle: Map<TypeKey, V>) -> Map<TypeKey, V> {
        match self {
            ComponentCall::Add(ty, comp) => bundle.insert(ty, comp),
            ComponentCall::Remove(ty) => bundle.remove(ty),
        }
    }
}

/// The components of an entity after `calls`, made in their order.
pub open spec fn apply_calls<V>(bundle: Map<TypeKey, V>, calls: Seq<ComponentCall<V>>) -> Map<
    TypeKey,
    V,
>
    decreases calls.len(),
{
    if calls.len() == 0 {
        bundle
    } else {
        calls.last().apply(apply_calls(bundle, calls.drop_last()))
    }
}

/// The last of `calls` that is about the component type `ty`.
pub open spec fn last_call_on<V>(calls: Seq<ComponentCall<V>>, ty: TypeKey) -> Option<
    ComponentCall<V>,
>
    decreases calls.len(),
{
    if calls.len() == 0 {
        None
    } else if calls.last().type_key() == ty {
        Some(calls.last())
    } else {
        last_call_on(calls.drop_last(), ty)
    }
}

/// After any sequence of calls that attach and detach components of one
/// entity, the entity holds a component of type `ty` exactly if the last
/// call about `ty` attached one, or if no call was about `ty` and the entity
/// held one before; its value is the one attached last, or the earlier one.
pub proof fn lemma_net_effect<V>(bundle: Map<TypeKey, V>, calls: Seq<ComponentCall<V>>, ty: TypeKey)
    ensures
        apply_calls(bundle, calls).contains_key(ty) <==> match last_call_on(calls, ty) {
            Some(ComponentCall::Add(_, _)) => true,
            Some(ComponentCall::Remove(_)) => false,
            None => bundle.contains_key(ty),
        },
        apply_calls(bundle, calls).contains_key(ty) ==> apply_calls(bundle, calls)[ty]
            == match last_call_on(calls, ty) {
            Some(ComponentCall::Add(_, comp)) => comp,
            _ => bundle[ty],
        },
    decreases calls.len(),
{
    if calls.len() > 0 {
        lemma_net_effect(bundle, calls.drop_last(), ty);
    }
}

/// Where each of a sequence of views of a registry comes from the view
/// before it by a call that attaches or detaches a component of the entity
/// `entity`, as [`ArchetypeManager::add`] and [`ArchetypeManager::remove`]
/// change the view, a query for the component type `ty` of the entity in
/// the last view gives a value exactly if the calls have left a component of
/// that type attached, and then the value that was attached last.
pub proof fn lemma_query_after_calls<V>(
    views: Seq<Map<EntityId, Map<TypeKey, V>>>,
    entity: EntityId,
    calls: Seq<ComponentCall<V>>,
    ty: TypeKey,
)
    requires
        views.len() == calls.len() + 1,
        views[0].contains_key(entity),
        forall|i: int|
            0 <= i < calls.len() ==> #[trigger] views[i + 1] == views[i].insert(
                entity,
                calls[i].apply(views[i][entity]),
            ),
    ensures
        views.last().contains_key(entity),
        views.last()[entity] == apply_calls(views[0][entity], calls),
        views.last()[entity].contains_key(ty) <==> match last_call_on(calls, ty) {
            Some(ComponentCall::Add(_, _)) => true,
            Some(ComponentCall::Remove(_)) => false,
            None => views[0][entity].contains_key(ty),
        },
        views.last()[entity].contains_key(ty) ==> views.last()[entity][ty] == match last_call_on(
            calls,
            ty,
        ) {
            Some(ComponentCall::Add(_, comp)) => comp,
            _ => views[0][entity][ty],
        },
    decreases calls.len(),
{
    if calls.len() > 0 {
        let n = calls.len() as int;
        assert(views[(n - 1) + 1] == views[n - 1].insert(
            entity,
            calls[n - 1].apply(views[n - 1][entity]),
        ));
        assert forall|i: int| 0 <= i < n - 1 implies #[trigger] views.drop_last()[i + 1]
            == views.drop_last()[i].insert(
            entity,
            calls.drop_last()[i].apply(views.drop_last()[i][entity]),
        ) by {
            assert(views[i + 1] == views[i].insert(entity, calls[i].apply(views[i][entity])));
        }
        lemma_query_after_calls(views.drop_last(), entity, calls.drop_last(), ty);
    }
    lemma_net_effect(views[0][entity], calls, ty);
}

/// Attaching a component to an entity, which may move the entity to another
/// archetype, leaves its other components and those of every other entity
/// with the values that they had.
pub proof fn lemma_add_keeps_values<V>(
    before: Map<EntityId, Map<TypeKey, V>>,
    after: Map<EntityId, Map<TypeKey, V>>,
    entity: EntityId,
    ty: TypeKey,
    comp: V,
)
    requires
        before.contains_key(entity),
        after == before.insert(entity, before[entity].insert(ty, comp)),
    ensures
        after.dom() == before.dom(),
        after[entity][ty] == comp,
        forall|other: TypeKey|
            other != ty ==> after[entity].contains_key(other) == before[entity].contains_key(other),
        forall|other: TypeKey|
            other != ty && before[entity].contains_key(other) ==> after[entity][other]
                == before[entity][other],
        forall|displaced: EntityId|
            displaced != entity && before.contains_key(displaced) ==> after[displaced]
                == before[displaced],
{
    assert(after.dom() =~= before.dom());
}

} // verus!
