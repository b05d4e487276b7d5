//! Shapes and archetypes: the storage block of all entities that hold the same
//! set of component types.

use crate::component::comp_storage::{swap_removed, CompStorage};
use crate::component::component::TypeKey;
use crate::entity::entity::EntityId;
use std::collections::HashMap;
use vstd::prelude::*;

verus! {

/// `s` is sorted and holds nothing twice.
pub open spec fn strictly_increasing(s: Seq<TypeKey>) -> bool {
    forall|i: int, j: int| 0 <= i < j < s.len() ==> s[i] < s[j]
}

/// A strictly increasing sequence is determined by the set of its elements.
pub proof fn lemma_strictly_increasing_unique(a: Seq<TypeKey>, b: Seq<TypeKey>)
    requires
        strictly_increasing(a),
        strictly_increasing(b),
        a.to_set() == b.to_set(),
    ensures
        a == b,
    decreases a.len(),
{
    if a.len() == 0 {
        if b.len() > 0 {
            assert(b.to_set().contains(b[0]));
            assert(a.to_set().contains(b[0]));
        }
        assert(a =~= b);
    } else {
        let top = a.last();
        assert(a.to_set().contains(top));
        assert(b.to_set().contains(top));
        assert(b.len() > 0);
        let k = choose|k: int| 0 <= k < b.len() && b[k] == top;
        // the last element of `b` is in `a`, hence not above `top`
        assert(b.to_set().contains(b.last()));
        assert(a.to_set().contains(b.last()));
        let m = choose|m: int| 0 <= m < a.len() && a[m] == b.last();
        assert(b.last() <= top);
        assert(k == b.len() - 1);
        let a0 = a.drop_last();
        let b0 = b.drop_last();
        assert forall|x: TypeKey| a0.to_set().contains(x) <==> b0.to_set().contains(x) by {
            if a0.to_set().contains(x) {
                let i = choose|i: int| 0 <= i < a0.len() && a0[i] == x;
                assert(a[i] == x);
                assert(x < top);
                assert(a.to_set().contains(x));
                assert(b.to_set().contains(x));
                let j = choose|j: int| 0 <= j < b.len() && b[j] == x;
                assert(j < b.len() - 1);
                assert(b0[j] == x);
            }
            if b0.to_set().contains(x) {
                let i = choose|i: int| 0 <= i < b0.len() && b0[i] == x;
                assert(b[i] == x);
                assert(x < top);
                assert(b.to_set().contains(x));
                assert(a.to_set().contains(x));
                let j = choose|j: int| 0 <= j < a.len() && a[j] == x;
                assert(j < a.len() - 1);
                assert(a0[j] == x);
            }
        }
        assert(a0.to_set() =~= b0.to_set());
        lemma_strictly_increasing_unique(a0, b0);
        assert(a =~= a0.push(top));
        assert(b =~= b0.push(top));
    }
}

/// The hash of the empty shape.
pub const SIGNATURE_SEED: u64 = 0xcbf2_9ce4_8422_2325;

/// The factor by which the hash is multiplied after each component type.
pub const SIGNATURE_FACTOR: u64 = 0x0000_0100_0000_01b3;

/// The hash of a sequence of component types: each type in turn is mixed
/// into the hash of the types before it.
pub open spec fn signature_of(types: Seq<TypeKey>) -> u64
    decreases types.len(),
{
    if types.len() == 0 {
        SIGNATURE_SEED
    } else {
        (signature_of(types.drop_last()) ^ types.last()).wrapping_mul(SIGNATURE_FACTOR)
    }
}

/// The shape of an archetype: the set of component types that its entities
/// hold, kept as a sorted sequence without repetition.
pub struct ArchetypeIndex {
    types: Vec<TypeKey>,
}

impl View for ArchetypeIndex {
    type V = Seq<TypeKey>;

    /// The component types in increasing order.
    closed spec fn view(&self) -> Seq<TypeKey> {
        self.types@
    }
}

impl PartialEq for ArchetypeIndex {
    /// Two shapes are equal where they hold the same component types.
    fn eq(&self, other: &Self) -> (same: bool) {
        if self.types.len() != other.types.len() {
            return false;
        }
        let mut i: usize = 0;
        while i < self.types.len()
            invariant
                i <= self@.len(),
                self@.len() == other@.len(),
                forall|k: int| 0 <= k < i ==> self@[k] == other@[k],
            decreases self.types.len() - i,
        {
            if self.types[i] != other.types[i] {
                return false;
            }
            i += 1;
        }
        proof {
            assert(self@ =~= other@);
        }
        true
    }
}

impl Eq for ArchetypeIndex {
}

impl vstd::std_specs::cmp::PartialEqSpecImpl for ArchetypeIndex {
    open spec fn obeys_eq_spec() -> bool {
        true
    }

    open spec fn eq_spec(&self, other: &Self) -> bool {
        self@ == other@
    }
}

impl Clone for ArchetypeIndex {
    fn clone(&self) -> (copy: Self)
        ensures
            copy@ == self@,
    {
        ArchetypeIndex { types: self.types.clone() }
    }
}

impl ArchetypeIndex {
    /// The sequence of types is sorted and free of repetition.
    pub open spec fn wf(&self) -> bool {
        strictly_increasing(self@)
    }

    /// The set of component types of this shape.
    pub open spec fn type_set(&self) -> Set<TypeKey> {
        self@.to_set()
    }

    /// Two sound shapes with the same component types are the same
    /// sequence, whatever the order in which the types were put in.
    pub proof fn lemma_equal_by_set(&self, other: &ArchetypeIndex)
        requires
            self.wf(),
            other.wf(),
            self.type_set() == other.type_set(),
        ensures
            self@ == other@,
    {
        lemma_strictly_increasing_unique(self@, other@);
    }

    /// The empty shape.
    pub fn new() -> (index: Self)
        ensures
            index.wf(),
            index@ == Seq::<TypeKey>::empty(),
    {
        ArchetypeIndex { types: Vec::new() }
    }

    /// The shape that holds exactly the types that occur in `comp_types`,
    /// whatever their order and however often each occurs.
    pub fn from_slice(comp_types: &[TypeKey]) -> (index: Self)
        ensures
            index.wf(),
            index.type_set() == comp_types@.to_set(),
    {
        let mut index = ArchetypeIndex::new();
        let mut i: usize = 0;
        while i < comp_types.len()
            invariant
                i <= comp_types.len(),
                index.wf(),
                index.type_set() == comp_types@.take(i as int).to_set(),
            decreases comp_types.len() - i,
        {
            index.add(comp_types[i]);
            proof {
                let before = comp_types@.take(i as int);
                let after = comp_types@.take(i + 1);
                assert(after =~= before.push(comp_types@[i as int]));
                assert(after.to_set() =~= before.to_set().insert(comp_types@[i as int])) by {
                    assert forall|x: TypeKey| after.to_set().contains(x)
                        <==> before.to_set().insert(
                        comp_types@[i as int],
                    ).contains(x) by {
                        if after.to_set().contains(x) {
                            let k = choose|k: int| 0 <= k < after.len() && after[k] == x;
                            if k < i {
                                assert(before[k] == x);
                            }
                        }
                        if before.to_set().contains(x) {
                            let k = choose|k: int| 0 <= k < before.len() && before[k] == x;
                            assert(after[k] == x);
                        }
                        if x == comp_types@[i as int] {
                            assert(after[i as int] == x);
                        }
                    }
                }
            }
            i += 1;
        }
        proof {
            assert(comp_types@.take(comp_types.len() as int) =~= comp_types@);
        }
        index
    }

    /// The position of the first type that is not below `ty`.
    fn lower_bound(&self, ty: TypeKey) -> (pos: usize)
        requires
            self.wf(),
        ensures
            pos <= self@.len(),
            forall|k: int| 0 <= k < pos ==> self@[k] < ty,
            forall|k: int| pos <= k < self@.len() ==> ty <= self@[k],
    {
        let mut low: usize = 0;
        let mut high: usize = self.types.len();
        while low < high
            invariant
                self.wf(),
                low <= high <= self@.len(),
                forall|k: int| 0 <= k < low ==> self@[k] < ty,
                forall|k: int| high <= k < self@.len() ==> ty <= self@[k],
            decreases high - low,
        {
            let mid: usize = low + (high - low) / 2;
            if self.types[mid] < ty {
                low = mid + 1;
            } else {
                high = mid;
            }
        }
        low
    }

    /// Puts `ty` into the shape. Returns whether the shape changed, that is
    /// whether `ty` was not yet part of it.
    pub fn add(&mut self, ty: TypeKey) -> (changed: bool)
        requires
            old(self).wf(),
        ensures
            final(self).wf(),
            final(self).type_set() == old(self).type_set().insert(ty),
            changed == !old(self).type_set().contains(ty),
            !changed ==> final(self)@ == old(self)@,
    {
        let pos = self.lower_bound(ty);
        if pos < self.types.len() && self.types[pos] == ty {
            proof {
                assert(self@.to_set().contains(ty));
                assert(self@.to_set().insert(ty) =~= self@.to_set());
            }
            false
        } else {
            proof {
                if self@.to_set().contains(ty) {
                    let k = choose|k: int| 0 <= k < self@.len() && self@[k] == ty;
                    assert(false);
                }
            }
            self.types.insert(pos, ty);
            proof {
                let before = old(self)@;
                let after = self@;
                assert(after == before.insert(pos as int, ty));
                assert forall|i: int, j: int| 0 <= i < j < after.len()
                    implies after[i] < after[j] by {
                    if i < pos && j > pos {
                        assert(after[i] == before[i]);
                        assert(after[j] == before[j - 1]);
                    } else if i < pos && j < pos {
                        assert(after[i] == before[i]);
                        assert(after[j] == before[j]);
                    } else if i > pos {
                        assert(after[i] == before[i - 1]);
                        assert(after[j] == before[j - 1]);
                    }
                }
                assert forall|x: TypeKey| after.to_set().contains(x) <==> before.to_set().insert(
                    ty,
                ).contains(x) by {
                    if after.to_set().contains(x) {
                        let k = choose|k: int| 0 <= k < after.len() && after[k] == x;
                        if k < pos {
                            assert(before[k] == x);
                        } else if k > pos {
                            assert(before[k - 1] == x);
                        }
                    }
                    if before.to_set().contains(x) {
                        let k = choose|k: int| 0 <= k < before.len() && before[k] == x;
                        if k < pos {
                            assert(after[k] == x);
                        } else {
                            assert(after[k + 1] == x);
                        }
                    }
                    if x == ty {
                        assert(after[pos as int] == x);
                    }
                }
                assert(after.to_set() =~= before.to_set().insert(ty));
            }
            true
        }
    }

    /// Whether `ty` is part of the shape.
    pub fn contains(&self, ty: TypeKey) -> (found: bool)
        requires
            self.wf(),
        ensures
            found == self.type_set().contains(ty),
    {
        let pos = self.lower_bound(ty);
        let found = pos < self.types.len() && self.types[pos] == ty;
        proof {
            if found {
                assert(self@[pos as int] == ty);
            } else if self@.to_set().contains(ty) {
                let k = choose|k: int| 0 <= k < self@.len() && self@[k] == ty;
                assert(false);
            }
        }
        found
    }

    /// Takes `ty` out of the shape; a shape without `ty` stays as it is.
    pub fn remove(&mut self, ty: TypeKey)
        requires
            old(self).wf(),
        ensures
            final(self).wf(),
            final(self).type_set() == old(self).type_set().remove(ty),
            !old(self).type_set().contains(ty) ==> final(self)@ == old(self)@,
    {
        let pos = self.lower_bound(ty);
        if pos < self.types.len() && self.types[pos] == ty {
            self.types.remove(pos);
            proof {
                let before = old(self)@;
                let after = self@;
                assert(after == before.remove(pos as int));
                assert forall|i: int, j: int| 0 <= i < j < after.len()
                    implies after[i] < after[j] by {
                    let bi = if i < pos { i } else { i + 1 };
                    let bj = if j < pos { j } else { j + 1 };
                    assert(after[i] == before[bi]);
                    assert(after[j] == before[bj]);
                }
                assert forall|x: TypeKey| after.to_set().contains(x) <==> before.to_set().remove(
                    ty,
                ).contains(x) by {
                    if after.to_set().contains(x) {
                        let k = choose|k: int| 0 <= k < after.len() && after[k] == x;
                        let bk = if k < pos { k } else { k + 1 };
                        assert(before[bk] == x);
                    }
                    if before.to_set().contains(x) && x != ty {
                        let k = choose|k: int| 0 <= k < before.len() && before[k] == x;
                        if k < pos {
                            assert(after[k] == x);
                        } else {
                            assert(after[k - 1] == x);
                        }
                    }
                }
                assert(after.to_set() =~= before.to_set().remove(ty));
            }
        } else {
            proof {
                if self@.to_set().contains(ty) {
                    let k = choose|k: int| 0 <= k < self@.len() && self@[k] == ty;
                    assert(false);
                }
                assert(self@.to_set().remove(ty) =~= self@.to_set());
            }
        }
    }

    /// The hash of the shape, over all its component types in increasing
    /// order: equal shapes have equal hashes.
    pub fn signature(&self) -> (hash: u64)
        ensures
            hash == signature_of(self@),
    {
        let mut hash: u64 = SIGNATURE_SEED;
        let mut i: usize = 0;
        proof {
            assert(self@.take(0) =~= Seq::<TypeKey>::empty());
        }
        while i < self.types.len()
            invariant
                i <= self@.len(),
                hash == signature_of(self@.take(i as int)),
            decreases self.types.len() - i,
        {
            proof {
                assert(self@.take(i + 1).drop_last() =~= self@.take(i as int));
            }
            hash = (hash ^ self.types[i]).wrapping_mul(SIGNATURE_FACTOR);
            i += 1;
        }
        proof {
            assert(self@.take(self@.len() as int) =~= self@);
        }
        hash
    }

    /// The component types in increasing order.
    pub fn types(&self) -> (types: &Vec<TypeKey>)
        ensures
            types@ == self@,
    {
        &self.types
    }

    /// The number of component types of the shape.
    pub fn len(&self) -> (count: usize)
        ensures
            count == self@.len(),
    {
        self.types.len()
    }
}

/// The storage block of one shape: one row per entity that has exactly the
/// component types of the shape, and one column per component type.
pub struct Archetype<V> {
    index: ArchetypeIndex,
    // the row of each entity
    entities: HashMap<EntityId, usize>,
    // the entity of each row
    indices: Vec<EntityId>,
    // one column for each component type of the index
    components: Vec<CompStorage<V>>,
}

impl<V> View for Archetype<V> {
    type V = Map<EntityId, Map<TypeKey, V>>;

    /// The entities of the archetype, each with its component values by type.
    open spec fn view(&self) -> Map<EntityId, Map<TypeKey, V>> {
        Map::new(|e: EntityId| self.contains(e), |e: EntityId| self.bundle(e))
    }
}

impl<V> Archetype<V> {
    /// The shape that the archetype stores.
    pub closed spec fn shape(&self) -> ArchetypeIndex {
        self.index
    }

    /// The entity of each row.
    pub closed spec fn rows(&self) -> Seq<EntityId> {
        self.indices@
    }

    /// The row of each entity.
    pub closed spec fn row_of(&self) -> Map<EntityId, usize> {
        self.entities@
    }

    /// The columns in the order in which they are held.
    pub closed spec fn columns(&self) -> Seq<CompStorage<V>> {
        self.components@
    }

    /// Whether `entity` has a row here.
    pub open spec fn contains(&self, entity: EntityId) -> bool {
        self.row_of().contains_key(entity)
    }

    /// The component types of the columns in the order in which they are
    /// held.
    pub open spec fn column_types(&self) -> Seq<TypeKey> {
        Seq::new(self.columns().len(), |k: int| self.columns()[k].type_key())
    }

    /// Whether a column of component type `ty` is held.
    pub open spec fn has_column(&self, ty: TypeKey) -> bool {
        exists|k: int| 0 <= k < self.columns().len()
            && #[trigger] self.columns()[k].type_key() == ty
    }

    /// The position of a column of component type `ty`.
    pub open spec fn column_at(&self, ty: TypeKey) -> int {
        choose|k: int| 0 <= k < self.columns().len()
            && #[trigger] self.columns()[k].type_key() == ty
    }

    /// The values of the column of component type `ty`, by row.
    pub open spec fn column(&self, ty: TypeKey) -> Seq<V> {
        self.columns()[self.column_at(ty)]@
    }

    /// The component values of `entity` by type.
    pub open spec fn bundle(&self, entity: EntityId) -> Map<TypeKey, V> {
        Map::new(
            |ty: TypeKey| self.has_column(ty),
            |ty: TypeKey| self.column(ty)[self.row_of()[entity] as int],
        )
    }

    /// The two row maps are inverse to each other: rows are packed, and each
    /// entity has one row.
    pub open spec fn rows_wf(&self) -> bool {
        &&& forall|i: int|
            0 <= i < self.rows().len() ==> self.row_of().contains_key(#[trigger] self.rows()[i])
                && self.row_of()[self.rows()[i]] == i
        &&& forall|e: EntityId| #[trigger]
            self.row_of().contains_key(e) ==> self.row_of()[e] < self.rows().len()
                && self.rows()[self.row_of()[e] as int] == e
    }

    /// No two columns hold the same component type.
    pub open spec fn columns_distinct(&self) -> bool {
        forall|i: int, j: int|
            0 <= i < j < self.columns().len() ==> (#[trigger] self.columns()[i]).type_key() != (
            #[trigger] self.columns()[j]).type_key()
    }

    /// Every column has `n` rows.
    pub open spec fn columns_len(&self, n: nat) -> bool {
        forall|k: int| 0 <= k < self.columns().len() ==> (#[trigger] self.columns()[k])@.len() == n
    }

    /// Every column has a value in the row of `entity`.
    pub open spec fn row_filled(&self, entity: EntityId) -> bool {
        forall|k: int|
            0 <= k < self.columns().len()
                ==> self.row_of()[entity] < (#[trigger] self.columns()[k])@.len()
    }

    /// There is a column for each component type of the shape, and no other.
    pub open spec fn shape_matches(&self) -> bool {
        forall|ty: TypeKey| self.shape().type_set().contains(ty) <==> self.has_column(ty)
    }

    /// What holds of an archetype between the steps of a structural change:
    /// the shape is sorted, the row maps agree, the columns differ in type.
    pub open spec fn inv(&self) -> bool {
        &&& self.shape().wf()
        &&& self.rows_wf()
        &&& self.columns_distinct()
    }

    /// What holds of an archetype at rest: in addition to [`Self::inv`], the
    /// columns are those of the shape and each has one value per row.
    pub open spec fn wf(&self) -> bool {
        &&& self.inv()
        &&& self.shape_matches()
        &&& self.columns_len(self.rows().len())
    }

    /// `after` has the shape, the rows and the row numbers of `self`.
    pub open spec fn same_rows(&self, after: &Self) -> bool {
        &&& after.shape() == self.shape()
        &&& after.rows() == self.rows()
        &&& after.row_of() == self.row_of()
    }

    /// `after` has as many columns as `self`, of the same types in the same
    /// order.
    pub open spec fn same_column_types(&self, after: &Self) -> bool {
        &&& after.columns().len() == self.columns().len()
        &&& forall|k: int|
            0 <= k < self.columns().len() ==> (#[trigger] after.columns()[k]).type_key()
                == self.columns()[k].type_key()
    }

    /// `after` differs from `self` at most in the values of the column at
    /// position `position`.
    pub open spec fn same_but_column(&self, after: &Self, position: int) -> bool {
        &&& self.same_rows(after)
        &&& self.same_column_types(after)
        &&& forall|k: int|
            0 <= k < self.columns().len() && k != position ==> (#[trigger] after.columns()[k])@
                == self.columns()[k]@
    }

    /// `emptied` is `self` after the values of row `row` were taken out of
    /// every column, the last value of each column taking their place. The
    /// row maps are those of `self`.
    pub open spec fn row_emptied(&self, emptied: &Self, row: int) -> bool {
        &&& self.same_rows(emptied)
        &&& self.same_column_types(emptied)
        &&& forall|k: int|
            0 <= k < self.columns().len() ==> (#[trigger] emptied.columns()[k])@ == swap_removed(
                self.columns()[k]@,
                row,
            )
    }

    /// `after` is `self` without the row of `entity` in the row maps: the
    /// entity of the last row has taken over its row number. The columns are
    /// those of `self`.
    pub open spec fn row_unmapped(&self, after: &Self, entity: EntityId) -> bool {
        &&& after.shape() == self.shape()
        &&& after.columns() == self.columns()
        &&& after.rows() == swap_removed(self.rows(), self.row_of()[entity] as int)
        &&& after.row_of() == self.row_of().insert(
            self.rows().last(),
            self.row_of()[entity],
        ).remove(entity)
    }

    /// `after` is `self` with a new last row for `entity` in the row maps.
    /// The columns are those of `self`.
    pub open spec fn row_added(&self, after: &Self, entity: EntityId) -> bool {
        &&& after.shape() == self.shape()
        &&& after.columns() == self.columns()
        &&& after.rows() == self.rows().push(entity)
        &&& after.row_of() == self.row_of().insert(entity, self.rows().len() as usize)
    }

    /// `after` is `self` with a new last row for `entity` that holds the
    /// value of `bundle` in each column.
    pub open spec fn row_appended(
        &self,
        after: &Self,
        entity: EntityId,
        bundle: Map<TypeKey, V>,
    ) -> bool {
        &&& after.shape() == self.shape()
        &&& after.rows() == self.rows().push(entity)
        &&& after.row_of() == self.row_of().insert(entity, self.rows().len() as usize)
        &&& self.same_column_types(after)
        &&& forall|k: int|
            0 <= k < self.columns().len() ==> (#[trigger] after.columns()[k])@
                == self.columns()[k]@.push(bundle[self.columns()[k].type_key()])
    }

    /// `after` is `self` with a new last row for `entity` that holds, in each
    /// column whose component type `source` holds too, the value that
    /// `entity` has in `source`. The other columns are as they were.
    pub open spec fn row_received(&self, after: &Self, source: &Self, entity: EntityId) -> bool {
        &&& after.shape() == self.shape()
        &&& after.rows() == self.rows().push(entity)
        &&& after.row_of() == self.row_of().insert(entity, self.rows().len() as usize)
        &&& self.same_column_types(after)
        &&& forall|k: int|
            0 <= k < self.columns().len() ==> (#[trigger] after.columns()[k])@ == (
            if source.has_column(self.columns()[k].type_key()) {
                self.columns()[k]@.push(
                    source.column(self.columns()[k].type_key())[source.row_of()[entity] as int],
                )
            } else {
                self.columns()[k]@
            })
    }
}

impl<V> Archetype<V> {
    /// An archetype of shape `index` without rows and without columns.
    pub fn new(index: ArchetypeIndex) -> (archetype: Self)
        requires
            index.wf(),
        ensures
            archetype.inv(),
            archetype.shape()@ == index@,
            archetype.rows() == Seq::<EntityId>::empty(),
            archetype.row_of() == Map::<EntityId, usize>::empty(),
            archetype.columns() == Seq::<CompStorage<V>>::empty(),
    {
        Archetype { index, entities: HashMap::new(), indices: Vec::new(), components: Vec::new() }
    }

    /// The shape that the archetype stores.
    pub fn index(&self) -> (index: &ArchetypeIndex)
        ensures
            *index == self.shape(),
    {
        &self.index
    }

    /// The position of the column of component type `ty`, if there is one.
    pub fn find_column(&self, ty: TypeKey) -> (position: Option<usize>)
        requires
            self.columns_distinct(),
        ensures
            position.is_some() == self.has_column(ty),
            position.is_some() ==> position.unwrap() == self.column_at(ty),
    {
        let mut k: usize = 0;
        while k < self.components.len()
            invariant
                self.columns_distinct(),
                k <= self.columns().len(),
                forall|j: int| 0 <= j < k ==> (#[trigger] self.columns()[j]).type_key() != ty,
            decreases self.components.len() - k,
        {
            if self.components[k].contained_type() == ty {
                proof {
                    self.lemma_column_at(k as int);
                }
                return Some(k);
            }
            k += 1;
        }
        None
    }

    /// Adds a column for the component type `ty`, which the archetype must
    /// not hold yet, with `comp` as the value of its first row.
    pub fn insert_comp_storage(&mut self, ty: TypeKey, comp: V)
        requires
            old(self).inv(),
            !old(self).has_column(ty),
        ensures
            final(self).inv(),
            old(self).same_rows(final(self)),
            final(self).columns().len() == old(self).columns().len() + 1,
            final(self).columns().drop_last() == old(self).columns(),
            final(self).columns().last().type_key() == ty,
            final(self).columns().last()@ == seq![comp],
    {
        let mut storage = CompStorage::<V>::new(ty);
        storage.add(comp);
        self.components.push(storage);
        proof {
            old(self).lemma_same_rows(self);
            assert(self.columns().drop_last() =~= old(self).columns());
            assert(storage@ =~= seq![comp]);
            assert forall|i: int, j: int| 0 <= i < j < self.columns().len() implies (
            #[trigger] self.columns()[i]).type_key()
                != (#[trigger] self.columns()[j]).type_key() by {
                if j == self.columns().len() - 1 {
                    assert(old(self).columns()[i].type_key() != ty);
                }
            }
        }
    }

    /// Drops the column of component type `ty` with all its values. An
    /// archetype without such a column stays as it is.
    pub fn remove_comp_storage(&mut self, ty: TypeKey)
        requires
            old(self).inv(),
        ensures
            final(self).inv(),
            old(self).same_rows(final(self)),
            !final(self).has_column(ty),
            final(self).columns() == if old(self).has_column(ty) {
                old(self).columns().remove(old(self).column_at(ty))
            } else {
                old(self).columns()
            },
    {
        match self.find_column(ty) {
            Some(k) => {
                let _ = self.components.remove(k);
                proof {
                    let before = old(self).columns();
                    let after = self.columns();
                    old(self).lemma_same_rows(self);
                    assert(after == before.remove(k as int));
                    assert forall|i: int, j: int| 0 <= i < j < after.len() implies (
                    #[trigger] after[i]).type_key() != (#[trigger] after[j]).type_key() by {
                        let bi = if i < k { i } else { i + 1 };
                        let bj = if j < k { j } else { j + 1 };
                        assert(after[i] == before[bi]);
                        assert(after[j] == before[bj]);
                    }
                    if self.has_column(ty) {
                        let i = self.column_at(ty);
                        let bi = if i < k { i } else { i + 1 };
                        assert(after[i] == before[bi]);
                        if bi < k {
                            assert(before[bi].type_key() != before[k as int].type_key());
                        } else {
                            assert(before[k as int].type_key() != before[bi].type_key());
                        }
                    }
                }
            },
            None => {},
        }
    }

    /// Appends a row for `entity`, which must not have one yet, without
    /// touching any column.
    pub fn add_without_comp(&mut self, entity_id: EntityId)
        requires
            old(self).inv(),
            !old(self).contains(entity_id),
        ensures
            final(self).inv(),
            old(self).row_added(final(self), entity_id),
    {
        broadcast use vstd::std_specs::hash::group_hash_axioms;

        let row = self.indices.len();
        self.entities.insert(entity_id, row);
        self.indices.push(entity_id);
        proof {
            assert forall|i: int| 0 <= i < self.rows().len() implies self.row_of().contains_key(
                #[trigger] self.rows()[i],
            ) && self.row_of()[self.rows()[i]] == i by {
                if i < row {
                    assert(self.rows()[i] == old(self).rows()[i]);
                    assert(old(self).row_of().contains_key(old(self).rows()[i]));
                }
            }
            assert(self.columns() == old(self).columns());
        }
    }

    /// Appends `comp` to the column of component type `ty`. An archetype
    /// without such a column stays as it is, and `comp` is dropped.
    pub fn add(&mut self, ty: TypeKey, comp: V)
        requires
            old(self).inv(),
        ensures
            final(self).inv(),
            old(self).same_but_column(final(self), old(self).column_at(ty)),
            old(self).has_column(ty) ==> final(self).column(ty) == old(self).column(ty).push(comp),
            !old(self).has_column(ty) ==> final(self).columns() == old(self).columns(),
    {
        match self.find_column(ty) {
            Some(k) => {
                self.components[k].add(comp);
                proof {
                    old(self).lemma_same_rows(self);
                    old(self).lemma_same_column_types(self);
                    self.lemma_column_at(k as int);
                }
            },
            None => {
                proof {
                    assert(self.columns() =~= old(self).columns());
                }
            },
        }
    }

    /// Overwrites the value that `entity` has for the component type `ty`.
    /// An archetype without a column for `ty` stays as it is, and `comp` is
    /// dropped.
    pub fn update(&mut self, entity_id: EntityId, ty: TypeKey, comp: V)
        requires
            old(self).inv(),
            old(self).has_column(ty)
                ==> old(self).contains(entity_id)
                    && old(self).row_of()[entity_id] < old(self).column(ty).len(),
        ensures
            final(self).inv(),
            old(self).same_but_column(final(self), old(self).column_at(ty)),
            old(self).has_column(ty) ==> final(self).column(ty) == old(self).column(ty).update(
                old(self).row_of()[entity_id] as int,
                comp,
            ),
            !old(self).has_column(ty) ==> final(self).columns() == old(self).columns(),
    {
        broadcast use vstd::std_specs::hash::group_hash_axioms;

        match self.find_column(ty) {
            Some(k) => {
                let row = match self.entities.get(&entity_id) {
                    Some(row) => *row,
                    None => {
                        proof {
                            assert(false);
                        }
                        0
                    },
                };
                self.components[k].update(row, comp);
                proof {
                    old(self).lemma_same_rows(self);
                    old(self).lemma_same_column_types(self);
                    self.lemma_column_at(k as int);
                }
            },
            None => {
                proof {
                    assert(self.columns() =~= old(self).columns());
                }
            },
        }
    }

    /// Takes the row of `entity` out of the row maps: the entity of the last
    /// row takes over its row number. The columns are not touched; the caller
    /// has emptied the row before (see [`Self::transfer`]).
    pub fn remove(&mut self, entity_id: EntityId)
        requires
            old(self).inv(),
            old(self).contains(entity_id),
        ensures
            final(self).inv(),
            old(self).row_unmapped(final(self), entity_id),
    {
        broadcast use vstd::std_specs::hash::group_hash_axioms;

        let row = match self.entities.get(&entity_id) {
            Some(row) => *row,
            None => {
                proof {
                    assert(false);
                }
                0
            },
        };
        let last_entity = self.indices[self.indices.len() - 1];
        self.entities.insert(last_entity, row);
        self.entities.remove(&entity_id);
        let _ = self.indices.swap_remove(row);
        proof {
            let before = old(self);
            assert(self.shape().wf());
            assert(self.columns() == before.columns());
            assert(self.columns_distinct());
            assert forall|i: int| 0 <= i < self.rows().len() implies self.row_of().contains_key(
                #[trigger] self.rows()[i],
            ) && self.row_of()[self.rows()[i]] == i by {
                if i == row {
                    assert(self.rows()[i] == last_entity);
                    assert(before.row_of().contains_key(before.rows()[before.rows().len() - 1]));
                } else {
                    assert(self.rows()[i] == before.rows()[i]);
                    assert(before.row_of().contains_key(before.rows()[i]));
                    assert(before.row_of().contains_key(before.rows()[before.rows().len() - 1]));
                }
            }
            assert forall|e: EntityId| #[trigger] self.row_of().contains_key(e)
                implies self.row_of()[e]
                < self.rows().len() && self.rows()[self.row_of()[e] as int] == e by {
                assert(before.row_of().contains_key(before.rows()[before.rows().len() - 1]));
                if e == last_entity {
                } else {
                    assert(before.row_of().contains_key(e));
                }
            }
        }
    }

    /// The value that `entity` has for the component type `ty`, if the
    /// entity has a row here and the archetype a column for `ty`.
    pub fn query(&self, entity_id: EntityId, ty: TypeKey) -> (comp: Option<&V>)
        requires
            self.inv(),
            self.contains(entity_id) && self.has_column(ty) ==> self.row_of()[entity_id]
                < self.column(ty).len(),
        ensures
            comp.is_some() == (self.contains(entity_id) && self.has_column(ty)),
            comp.is_some() ==> *comp.unwrap() == self.column(ty)[self.row_of()[entity_id] as int],
    {
        broadcast use vstd::std_specs::hash::group_hash_axioms;

        match self.entities.get(&entity_id) {
            Some(row) => {
                match self.find_column(ty) {
                    Some(k) => {
                        proof {
                            assert(self.row_of().contains_key(entity_id));
                        }
                        Some(self.components[k].get(*row))
                    },
                    None => None,
                }
            },
            None => None,
        }
    }

    /// An archetype of shape `new_index` without rows, with an empty column
    /// for each column of this archetype, of the same type and in the same
    /// order.
    pub fn duplicate(&self, new_index: ArchetypeIndex) -> (archetype: Archetype<V>)
        requires
            self.inv(),
            new_index.wf(),
        ensures
            archetype.inv(),
            archetype.shape()@ == new_index@,
            archetype.rows() == Seq::<EntityId>::empty(),
            archetype.row_of() == Map::<EntityId, usize>::empty(),
            self.same_column_types(&archetype),
            archetype.columns_len(0),
    {
        let mut new_arch = Archetype::<V>::new(new_index);
        let mut k: usize = 0;
        while k < self.components.len()
            invariant
                k <= self.columns().len(),
                new_arch.shape()@ == new_index@,
                new_arch.shape().wf(),
                new_arch.rows() == Seq::<EntityId>::empty(),
                new_arch.row_of() == Map::<EntityId, usize>::empty(),
                new_arch.columns().len() == k,
                forall|j: int|
                    0 <= j < k ==> (#[trigger] new_arch.columns()[j]).type_key()
                        == self.columns()[j].type_key(),
                forall|j: int| 0 <= j < k ==> (#[trigger] new_arch.columns()[j])@.len() == 0,
            decreases self.components.len() - k,
        {
            let empty = self.components[k].duplicate();
            new_arch.components.push(empty);
            k += 1;
        }
        proof {
            self.lemma_same_column_types(&new_arch);
        }
        new_arch
    }

    /// The entity of each row.
    pub fn indices(&self) -> (rows: &Vec<EntityId>)
        ensures
            rows@ == self.rows(),
    {
        &self.indices
    }

    /// The values of the column of component type `ty` by row, if there is
    /// such a column.
    pub fn storage(&self, ty: TypeKey) -> (values: Option<&Vec<V>>)
        requires
            self.inv(),
        ensures
            values.is_some() == self.has_column(ty),
            values.is_some() ==> values.unwrap()@ == self.column(ty),
    {
        match self.find_column(ty) {
            Some(k) => Some(self.components[k].components()),
            None => None,
        }
    }

    /// The values of the column of component type `ty` by row, for writing,
    /// if there is such a column. The archetype is at rest again once the
    /// column has as many values as the archetype has rows.
    pub fn storage_mut(&mut self, ty: TypeKey) -> (values: Option<&mut Vec<V>>)
        requires
            old(self).inv(),
        ensures
            values.is_some() == old(self).has_column(ty),
            old(self).same_but_column(final(self), old(self).column_at(ty)),
            final(self).inv(),
            values.is_some() ==> values.unwrap()@ == old(self).column(ty) && final(self).column(ty)
                == final(values.unwrap())@,
            values.is_none() ==> final(self).columns() == old(self).columns(),
    {
        match self.find_column(ty) {
            Some(k) => {
                proof {
                    assert forall|after: Self|
                        self.same_but_column(&after, k as int) implies #[trigger] after.inv()
                        && after.column_at(ty) == k by {
                        self.lemma_same_rows(&after);
                        self.lemma_same_column_types(&after);
                        after.lemma_column_at(k as int);
                    }
                }
                Some(self.components[k].components_mut())
            },
            None => {
                proof {
                    assert(self.columns() =~= old(self).columns());
                    old(self).lemma_same_rows(self);
                }
                None
            },
        }
    }

    /// Moves the row of `entity` to `other`. The entity gets a new last row
    /// in `other`. For each component type that both archetypes hold, the
    /// value of the row moves to the end of the column of `other`; the value
    /// of a component type that `other` does not hold is dropped. A column
    /// of `other` whose type this archetype does not hold gets no value: the
    /// caller fills it. In this archetype the last row of each column takes
    /// the place of the moved one, while the row maps still know the entity:
    /// the caller removes it from them afterwards (see [`Self::remove`]).
    ///
    /// An entity without a row in this archetype gets its row in `other` all
    /// the same, and no value moves.
    pub fn transfer(&mut self, other: &mut Self, entity_id: EntityId)
        requires
            old(self).inv(),
            old(self).contains(entity_id) ==> old(self).row_filled(entity_id),
            old(other).inv(),
            !old(other).contains(entity_id),
        ensures
            final(self).inv(),
            final(other).inv(),
            old(self).contains(entity_id) ==> old(self).row_emptied(
                final(self),
                old(self).row_of()[entity_id] as int,
            ) && old(other).row_received(final(other), old(self), entity_id),
            !old(self).contains(entity_id) ==> *final(self) == *old(self) && old(other).row_added(
                final(other),
                entity_id,
            ),
    {
        broadcast use vstd::std_specs::hash::group_hash_axioms;

        other.add_without_comp(entity_id);
        let row = match self.entities.get(&entity_id) {
            Some(row) => *row,
            None => {
                return ;
            },
        };
        let ghost source = *old(self);
        let ghost target = *old(other);
        let ghost filled = *other;
        proof {
            assert(source.row_of().contains_key(entity_id));
        }
        let mut i: usize = 0;
        while i < self.components.len()
            invariant
                source.inv(),
                source.contains(entity_id),
                source.row_filled(entity_id),
                row == source.row_of()[entity_id],
                target.inv(),
                filled.inv(),
                filled.columns() == target.columns(),
                i <= source.columns().len(),
                source.same_rows(self),
                source.same_column_types(self),
                forall|k: int|
                    0 <= k < i ==> (#[trigger] self.columns()[k])@ == swap_removed(
                        source.columns()[k]@,
                        row as int,
                    ),
                forall|k: int|
                    i <= k < source.columns().len() ==> (#[trigger] self.columns()[k])@
                        == source.columns()[k]@,
                filled.same_rows(other),
                target.same_column_types(other),
                forall|j: int|
                    0 <= j < target.columns().len() ==> (#[trigger] other.columns()[j])@ == (
                    if source.has_column(target.columns()[j].type_key()) && source.column_at(
                        target.columns()[j].type_key(),
                    ) < i {
                        target.columns()[j]@.push(
                            source.column(target.columns()[j].type_key())[row as int],
                        )
                    } else {
                        target.columns()[j]@
                    }),
            decreases source.columns().len() - i,
        {
            let ty = self.components[i].contained_type();
            proof {
                target.lemma_same_column_types(other);
                source.lemma_column_at(i as int);
                assert(row < source.columns()[i as int]@.len());
            }
            let ghost other_before = *other;
            match other.find_column(ty) {
                Some(j) => {
                    let left = &mut self.components[i];
                    let right = &mut other.components[j];
                    let _ = left.transfer(right, row);
                    proof {
                        assert forall|m: int| 0 <= m < target.columns().len() implies (
                        #[trigger] other.columns()[m])@ == (if source.has_column(
                            target.columns()[m].type_key(),
                        ) && source.column_at(target.columns()[m].type_key()) < i + 1 {
                            target.columns()[m]@.push(
                                source.column(target.columns()[m].type_key())[row as int],
                            )
                        } else {
                            target.columns()[m]@
                        }) by {
                            if m == j {
                            } else {
                                assert(other.columns()[m] == other_before.columns()[m]);
                                assert(target.columns()[m].type_key() != ty) by {
                                    if m < j {
                                        assert(target.columns()[m].type_key()
                                            != target.columns()[j as int].type_key());
                                    } else {
                                        assert(target.columns()[j as int].type_key()
                                            != target.columns()[m].type_key());
                                    }
                                }
                                if source.has_column(target.columns()[m].type_key()) {
                                    let at = source.column_at(target.columns()[m].type_key());
                                    assert(source.columns()[at].type_key() != ty);
                                    assert(at != i);
                                }
                            }
                        }
                    }
                },
                None => {
                    self.components[i].remove(row);
                    proof {
                        assert forall|m: int| 0 <= m < target.columns().len() implies (
                        #[trigger] other.columns()[m])@ == (if source.has_column(
                            target.columns()[m].type_key(),
                        ) && source.column_at(target.columns()[m].type_key()) < i + 1 {
                            target.columns()[m]@.push(
                                source.column(target.columns()[m].type_key())[row as int],
                            )
                        } else {
                            target.columns()[m]@
                        }) by {
                            assert(other.columns()[m].type_key() == target.columns()[m].type_key());
                            assert(target.columns()[m].type_key() != ty);
                            if source.has_column(target.columns()[m].type_key()) {
                                let at = source.column_at(target.columns()[m].type_key());
                                assert(source.columns()[at].type_key() != ty);
                                assert(at != i);
                            }
                        }
                    }
                },
            }
            i += 1;
        }
        proof {
            source.lemma_same_rows(self);
            source.lemma_same_column_types(self);
            filled.lemma_same_rows(other);
            target.lemma_same_column_types(other);
        }
    }

    /// The value that `entity` has for the component type `ty`, for writing,
    /// if the entity has a row here and the archetype a column for `ty`.
    pub fn query_mut(&mut self, entity_id: EntityId, ty: TypeKey) -> (comp: Option<&mut V>)
        requires
            old(self).inv(),
            old(self).contains(entity_id) && old(self).has_column(ty)
                ==> old(self).row_of()[entity_id] < old(self).column(ty).len(),
        ensures
            comp.is_some() == (old(self).contains(entity_id) && old(self).has_column(ty)),
            old(self).same_but_column(final(self), old(self).column_at(ty)),
            final(self).inv(),
            comp.is_some()
                ==> *comp.unwrap() == old(self).column(ty)[old(self).row_of()[entity_id] as int]
                    && final(self).column(ty) == old(self).column(ty).update(
                old(self).row_of()[entity_id] as int,
                *final(comp.unwrap()),
            ),
            comp.is_none() ==> final(self).columns() == old(self).columns(),
    {
        broadcast use vstd::std_specs::hash::group_hash_axioms;

        let found = match self.entities.get(&entity_id) {
            Some(row) => {
                match self.find_column(ty) {
                    Some(k) => Some((*row, k)),
                    None => None,
                }
            },
            None => None,
        };
        match found {
            Some((row, k)) => {
                proof {
                    assert(self.row_of().contains_key(entity_id));
                    assert forall|after: Self|
                        self.same_but_column(&after, k as int) implies #[trigger] after.inv()
                        && after.column_at(ty) == k by {
                        self.lemma_same_rows(&after);
                        self.lemma_same_column_types(&after);
                        after.lemma_column_at(k as int);
                    }
                }
                Some(self.components[k].get_mut(row))
            },
            None => {
                proof {
                    assert(self.columns() =~= old(self).columns());
                    old(self).lemma_same_rows(self);
                }
                None
            },
        }
    }

    /// Removes `entity` with all its values: the last row takes the place of
    /// its row in every column and in the row maps.
    pub fn discard(&mut self, entity_id: EntityId)
        requires
            old(self).wf(),
            old(self).contains(entity_id),
        ensures
            final(self).wf(),
            final(self).shape() == old(self).shape(),
            final(self)@ == old(self)@.remove(entity_id),
            final(self).rows() == swap_removed(
                old(self).rows(),
                old(self).row_of()[entity_id] as int,
            ),
            old(self).same_column_types(final(self)),
    {
        broadcast use vstd::std_specs::hash::group_hash_axioms;

        let row = match self.entities.get(&entity_id) {
            Some(row) => *row,
            None => {
                proof {
                    assert(false);
                }
                0
            },
        };
        proof {
            assert(self.row_of().contains_key(entity_id));
        }
        let mut k: usize = 0;
        while k < self.components.len()
            invariant
                old(self).wf(),
                row == old(self).row_of()[entity_id],
                row < old(self).rows().len(),
                k <= old(self).columns().len(),
                old(self).same_rows(self),
                old(self).same_column_types(self),
                forall|j: int|
                    0 <= j < k ==> (#[trigger] self.columns()[j])@ == swap_removed(
                        old(self).columns()[j]@,
                        row as int,
                    ),
                forall|j: int|
                    k <= j < old(self).columns().len()
                        ==> (#[trigger] self.columns()[j])@ == old(self).columns()[j]@,
            decreases old(self).columns().len() - k,
        {
            proof {
                assert(old(self).columns()[k as int]@.len() == old(self).rows().len());
            }
            self.components[k].remove(row);
            k += 1;
        }
        let ghost emptied = *self;
        proof {
            old(self).lemma_same_rows(self);
            old(self).lemma_same_column_types(self);
        }
        self.remove(entity_id);
        proof {
            old(self).lemma_row_removed(&emptied, self, entity_id);
        }
    }
}

impl<V> Archetype<V> {
    /// With distinct columns, the column at position `k` is the one that
    /// [`Self::column_at`] finds for its type.
    pub proof fn lemma_column_at(&self, k: int)
        requires
            self.columns_distinct(),
            0 <= k < self.columns().len(),
        ensures
            self.has_column(self.columns()[k].type_key()),
            self.column_at(self.columns()[k].type_key()) == k,
    {
        let ty = self.columns()[k].type_key();
        let found = self.column_at(ty);
        assert(0 <= found < self.columns().len() && self.columns()[found].type_key() == ty);
        if found < k {
            assert(self.columns()[found].type_key() != self.columns()[k].type_key());
        } else if k < found {
            assert(self.columns()[k].type_key() != self.columns()[found].type_key());
        }
    }

    /// The invariant of the row maps goes over to an archetype with the same
    /// row maps.
    pub proof fn lemma_same_rows(&self, after: &Self)
        requires
            self.rows_wf(),
            self.shape().wf(),
            self.same_rows(after),
        ensures
            after.rows_wf(),
            after.shape().wf(),
    {
    }

    /// Distinctness of the columns goes over to an archetype whose columns
    /// have the same types.
    pub proof fn lemma_same_column_types(&self, after: &Self)
        requires
            self.columns_distinct(),
            self.same_column_types(after),
        ensures
            after.columns_distinct(),
            forall|ty: TypeKey| self.has_column(ty) == after.has_column(ty),
            forall|ty: TypeKey| self.has_column(ty) ==> self.column_at(ty) == after.column_at(ty),
    {
        assert forall|i: int, j: int| 0 <= i < j < after.columns().len() implies (
        #[trigger] after.columns()[i]).type_key() != (#[trigger] after.columns()[j]).type_key() by {
            assert(self.columns()[i].type_key() != self.columns()[j].type_key());
        }
        assert forall|ty: TypeKey| self.has_column(ty) == after.has_column(ty) by {
            if self.has_column(ty) {
                let k = self.column_at(ty);
                assert(after.columns()[k].type_key() == ty);
            }
            if after.has_column(ty) {
                let k = after.column_at(ty);
                assert(self.columns()[k].type_key() == ty);
            }
        }
        assert forall|ty: TypeKey| self.has_column(ty)
            implies self.column_at(ty) == after.column_at(
            ty,
        ) by {
            let k = self.column_at(ty);
            assert(after.columns()[k].type_key() == ty);
            after.lemma_column_at(k);
        }
    }

    /// Columns of the same types in the same order have the same sequence
    /// of types.
    pub proof fn lemma_column_types(&self, after: &Self)
        requires
            self.same_column_types(after),
        ensures
            after.column_types() == self.column_types(),
    {
        assert(after.column_types() =~= self.column_types());
    }

    /// The number of rows is a machine number.
    pub proof fn lemma_rows_bounded(&self)
        ensures
            self.rows().len() <= usize::MAX,
    {
        assert(self.indices@.len() == self.indices.len());
    }

    /// Emptying the row of an entity and then taking it out of the row maps
    /// removes the entity and leaves every other entity with its values.
    pub proof fn lemma_row_removed(&self, emptied: &Self, after: &Self, entity: EntityId)
        requires
            self.wf(),
            self.contains(entity),
            self.row_emptied(emptied, self.row_of()[entity] as int),
            emptied.row_unmapped(after, entity),
        ensures
            after.wf(),
            after@ == self@.remove(entity),
    {
        let row = self.row_of()[entity] as int;
        let last = self.rows().len() - 1;
        let last_entity = self.rows().last();
        assert(self.row_of().contains_key(self.rows()[last]));
        assert(after.shape().wf());
        assert(after.rows().len() == last);
        // the row maps agree
        assert forall|i: int| 0 <= i < after.rows().len() implies after.row_of().contains_key(
            #[trigger] after.rows()[i],
        ) && after.row_of()[after.rows()[i]] == i by {
            if i == row {
                assert(after.rows()[i] == last_entity);
            } else {
                assert(after.rows()[i] == self.rows()[i]);
                assert(self.row_of().contains_key(self.rows()[i]));
            }
        }
        assert forall|e: EntityId| #[trigger] after.row_of().contains_key(e)
            implies after.row_of()[e]
            < after.rows().len() && after.rows()[after.row_of()[e] as int] == e by {
            if e != last_entity {
                assert(self.row_of().contains_key(e));
            }
        }
        self.lemma_same_column_types(emptied);
        assert(after.columns_distinct());
        assert forall|ty: TypeKey| after.shape().type_set().contains(ty) <==> after.has_column(
            ty,
        ) by {
            assert(self.shape().type_set().contains(ty) <==> self.has_column(ty));
        }
        assert forall|k: int| 0 <= k < after.columns().len()
            implies (#[trigger] after.columns()[k])@.len()
            == after.rows().len() by {
            assert(emptied.columns()[k]@ == swap_removed(self.columns()[k]@, row));
            assert(self.columns()[k]@.len() == self.rows().len());
        }
        assert(after.wf());
        assert forall|e: EntityId| after@.contains_key(e) <==> self@.remove(entity).contains_key(
            e,
        ) by {
            if e == last_entity && e != entity {
                assert(after.row_of().contains_key(e));
            }
        }
        assert forall|e: EntityId| #[trigger] after@.contains_key(e)
            implies after@[e] =~= self@.remove(
            entity,
        )[e] by {
            assert(self.row_of().contains_key(e));
            let r0 = self.row_of()[e] as int;
            let r1 = after.row_of()[e] as int;
            assert forall|ty: TypeKey| after.has_column(ty) implies #[trigger] after.bundle(e)[ty]
                == self.bundle(e)[ty] by {
                let k = self.column_at(ty);
                assert(after.column_at(ty) == k);
                assert(emptied.columns()[k]@ == swap_removed(self.columns()[k]@, row));
                assert(self.columns()[k]@.len() == self.rows().len());
                if e == last_entity {
                    assert(r0 == last);
                    assert(r1 == row);
                } else {
                    assert(r1 == r0);
                    assert(r0 != row);
                    assert(r0 != last) by {
                        if r0 == last {
                            assert(self.rows()[r0] == e);
                        }
                    }
                }
            }
        }
        assert(after@ =~= self@.remove(entity));
    }

    /// Appending a row that holds a value for each component type of the
    /// shape adds the entity with these values and leaves every other entity
    /// with its own.
    pub proof fn lemma_row_appended(&self, after: &Self, entity: EntityId, bundle: Map<TypeKey, V>)
        requires
            self.wf(),
            !self.contains(entity),
            self.row_appended(after, entity, bundle),
            bundle.dom() =~= self.shape().type_set(),
        ensures
            after.wf(),
            after@ == self@.insert(entity, bundle),
    {
        let row = self.rows().len() as int;
        self.lemma_rows_bounded();
        assert(after.shape().wf());
        assert forall|i: int| 0 <= i < after.rows().len() implies after.row_of().contains_key(
            #[trigger] after.rows()[i],
        ) && after.row_of()[after.rows()[i]] == i by {
            if i < row {
                assert(after.rows()[i] == self.rows()[i]);
                assert(self.row_of().contains_key(self.rows()[i]));
            }
        }
        assert forall|e: EntityId| #[trigger] after.row_of().contains_key(e)
            implies after.row_of()[e]
            < after.rows().len() && after.rows()[after.row_of()[e] as int] == e by {
            if e != entity {
                assert(self.row_of().contains_key(e));
            }
        }
        self.lemma_same_column_types(after);
        assert forall|ty: TypeKey| after.shape().type_set().contains(ty) <==> after.has_column(
            ty,
        ) by {
            assert(self.shape().type_set().contains(ty) <==> self.has_column(ty));
        }
        assert forall|k: int| 0 <= k < after.columns().len()
            implies (#[trigger] after.columns()[k])@.len()
            == after.rows().len() by {
            assert(self.columns()[k]@.len() == self.rows().len());
        }
        assert(after.wf());
        assert forall|e: EntityId| #[trigger] after@.contains_key(e)
            implies after@[e] =~= self@.insert(
            entity,
            bundle,
        )[e] by {
            assert forall|ty: TypeKey| after.has_column(ty) implies #[trigger] after.bundle(e)[ty]
                == (if e == entity {
                bundle[ty]
            } else {
                self.bundle(e)[ty]
            }) by {
                let k = self.column_at(ty);
                assert(after.column_at(ty) == k);
                assert(self.columns()[k].type_key() == ty);
                assert(after.columns()[k]@ == self.columns()[k]@.push(bundle[ty]));
                assert(self.columns()[k]@.len() == self.rows().len());
                if e != entity {
                    assert(self.row_of().contains_key(e));
                }
            }
            if e == entity {
                assert(after.bundle(e).dom() =~= bundle.dom()) by {
                    assert forall|ty: TypeKey| after.has_column(ty) <==> bundle.dom().contains(
                        ty,
                    ) by {
                        assert(self.shape().type_set().contains(ty) <==> self.has_column(ty));
                    }
                }
            }
        }
        assert(after@ =~= self@.insert(entity, bundle));
    }

    /// An archetype with one row, whose columns are those of its shape and
    /// hold one value each, is at rest and holds the one entity with the
    /// values of its row.
    pub proof fn lemma_single_row(&self, entity: EntityId, bundle: Map<TypeKey, V>)
        requires
            self.inv(),
            self.shape_matches(),
            self.rows() == seq![entity],
            self.row_of() == Map::<EntityId, usize>::empty().insert(entity, 0),
            forall|k: int|
                0 <= k < self.columns().len() ==> (#[trigger] self.columns()[k])@
                    == seq![bundle[self.columns()[k].type_key()]],
            bundle.dom() =~= self.shape().type_set(),
        ensures
            self.wf(),
            self@ == Map::<EntityId, Map<TypeKey, V>>::empty().insert(entity, bundle),
    {
        assert forall|k: int| 0 <= k < self.columns().len()
            implies (#[trigger] self.columns()[k])@.len()
            == self.rows().len() by {
            assert(self.columns()[k]@ == seq![bundle[self.columns()[k].type_key()]]);
        }
        assert(self.bundle(entity) =~= bundle) by {
            assert forall|ty: TypeKey| self.has_column(ty)
                implies #[trigger] self.bundle(entity)[ty]
                == bundle[ty] by {
                let k = self.column_at(ty);
                assert(self.columns()[k]@ == seq![bundle[self.columns()[k].type_key()]]);
            }
        }
        assert(self@ =~= Map::<EntityId, Map<TypeKey, V>>::empty().insert(entity, bundle));
    }

    /// Overwriting the value of one entity in one column changes that value
    /// in the view and nothing else.
    pub proof fn lemma_value_updated(&self, after: &Self, entity: EntityId, ty: TypeKey, comp: V)
        requires
            self.wf(),
            self.contains(entity),
            self.has_column(ty),
            self.same_but_column(after, self.column_at(ty)),
            after.column(ty) == self.column(ty).update(self.row_of()[entity] as int, comp),
        ensures
            after.wf(),
            after@ == self@.insert(entity, self@[entity].insert(ty, comp)),
    {
        let at = self.column_at(ty);
        let row = self.row_of()[entity] as int;
        self.lemma_same_rows(after);
        self.lemma_same_column_types(after);
        assert forall|t: TypeKey| after.shape().type_set().contains(t) <==> after.has_column(t) by {
            assert(self.shape().type_set().contains(t) <==> self.has_column(t));
        }
        assert forall|k: int| 0 <= k < after.columns().len()
            implies (#[trigger] after.columns()[k])@.len()
            == after.rows().len() by {
            assert(self.columns()[k]@.len() == self.rows().len());
            if k == at {
                assert(after.column_at(ty) == at);
            }
        }
        assert forall|e: EntityId| #[trigger] after@.contains_key(e)
            implies after@[e] =~= self@.insert(
            entity,
            self@[entity].insert(ty, comp),
        )[e] by {
            assert(self.row_of().contains_key(e));
            assert forall|t: TypeKey| after.has_column(t) implies #[trigger] after.bundle(e)[t] == (
            if e == entity && t == ty {
                comp
            } else {
                self.bundle(e)[t]
            }) by {
                let k = self.column_at(t);
                assert(after.column_at(t) == k);
                assert(self.columns()[k]@.len() == self.rows().len());
                if k == at {
                    assert(t == ty);
                    if e != entity {
                        assert(self.row_of()[e] != row) by {
                            if self.row_of()[e] == row {
                                assert(self.rows()[row] == e);
                                assert(self.rows()[row] == entity);
                            }
                        }
                    }
                } else {
                    assert(t != ty);
                    assert(after.columns()[k]@ == self.columns()[k]@);
                }
            }
        }
        assert(after@ =~= self@.insert(entity, self@[entity].insert(ty, comp)));
    }

    /// A row received from an archetype that holds every component type of
    /// this one carries the values that the entity had there.
    pub proof fn lemma_received_all(
        &self,
        after: &Self,
        source: &Self,
        entity: EntityId,
        dropped: TypeKey,
    )
        requires
            self.inv(),
            source.inv(),
            self.row_received(after, source, entity),
            forall|ty: TypeKey| self.has_column(ty) <==> source.has_column(ty) && ty != dropped,
        ensures
            self.row_appended(after, entity, source.bundle(entity).remove(dropped)),
            source.bundle(entity).remove(dropped).dom() =~= Set::new(
                |ty: TypeKey| self.has_column(ty),
            ),
    {
        let bundle = source.bundle(entity).remove(dropped);
        assert forall|k: int| 0 <= k < self.columns().len() implies (#[trigger] after.columns()[k])@
            == self.columns()[k]@.push(bundle[self.columns()[k].type_key()]) by {
            self.lemma_column_at(k);
        }
    }

    /// A row received from an archetype that holds every component type of
    /// this one but `ty`, followed by a value for `ty`, carries the values
    /// that the entity had there and the new one.
    pub proof fn lemma_received_and_added(
        &self,
        received: &Self,
        after: &Self,
        source: &Self,
        entity: EntityId,
        ty: TypeKey,
        comp: V,
    )
        requires
            self.inv(),
            source.inv(),
            self.row_received(received, source, entity),
            forall|t: TypeKey| self.has_column(t) <==> source.has_column(t) || t == ty,
            !source.has_column(ty),
            received.same_but_column(after, received.column_at(ty)),
            after.column(ty) == received.column(ty).push(comp),
        ensures
            self.row_appended(after, entity, source.bundle(entity).insert(ty, comp)),
            source.bundle(entity).insert(ty, comp).dom() =~= Set::new(
                |t: TypeKey| self.has_column(t),
            ),
    {
        let bundle = source.bundle(entity).insert(ty, comp);
        self.lemma_same_column_types(received);
        received.lemma_same_column_types(after);
        let at = self.column_at(ty);
        assert(self.has_column(ty));
        assert(received.column_at(ty) == at);
        assert(after.column_at(ty) == at);
        assert forall|k: int| 0 <= k < self.columns().len() implies (#[trigger] after.columns()[k])@
            == self.columns()[k]@.push(bundle[self.columns()[k].type_key()]) by {
            self.lemma_column_at(k);
            if k == at {
                assert(self.columns()[k].type_key() == ty);
                assert(received.columns()[k]@ == self.columns()[k]@);
            } else {
                assert(after.columns()[k]@ == received.columns()[k]@);
                assert(self.columns()[k].type_key() != ty);
            }
        }
    }

    /// A fresh archetype with the columns of `source` and one more, filled
    /// for `ty`, that then received the row of `entity` from `source`, holds
    /// that entity alone, with the values that it had there and the new one.
    pub proof fn lemma_fresh_received(
        &self,
        filled: &Self,
        after: &Self,
        source: &Self,
        entity: EntityId,
        ty: TypeKey,
        comp: V,
    )
        requires
            source.wf(),
            source.contains(entity),
            !source.has_column(ty),
            self.inv(),
            self.rows() == Seq::<EntityId>::empty(),
            self.row_of() == Map::<EntityId, usize>::empty(),
            source.same_column_types(self),
            self.columns_len(0),
            self.shape().type_set() == source.shape().type_set().insert(ty),
            filled.inv(),
            self.same_rows(filled),
            filled.columns().drop_last() == self.columns(),
            filled.columns().len() == self.columns().len() + 1,
            filled.columns().last().type_key() == ty,
            filled.columns().last()@ == seq![comp],
            after.inv(),
            filled.row_received(after, source, entity),
        ensures
            after.wf(),
            after@ == Map::<EntityId, Map<TypeKey, V>>::empty().insert(
                entity,
                source.bundle(entity).insert(ty, comp),
            ),
    {
        let bundle = source.bundle(entity).insert(ty, comp);
        let n = self.columns().len() as int;
        let row = source.row_of()[entity] as int;
        assert forall|k: int| 0 <= k < filled.columns().len() implies (
        #[trigger] filled.columns()[k]).type_key() == (if k < n {
            source.columns()[k].type_key()
        } else {
            ty
        }) by {
            if k < n {
                assert(filled.columns().drop_last()[k] == filled.columns()[k]);
                assert(self.columns()[k].type_key() == source.columns()[k].type_key());
            }
        }
        assert forall|t: TypeKey| after.shape().type_set().contains(t) <==> after.has_column(t) by {
            assert(source.shape().type_set().contains(t) <==> source.has_column(t));
            if source.has_column(t) {
                let k = source.column_at(t);
                assert(filled.columns()[k].type_key() == t);
                assert(after.columns()[k].type_key() == t);
            }
            if t == ty {
                assert(filled.columns()[n].type_key() == t);
                assert(after.columns()[n].type_key() == t);
            }
            if after.has_column(t) {
                let k = after.column_at(t);
                assert(filled.columns()[k].type_key() == t);
                if k < n {
                    assert(source.columns()[k].type_key() == t);
                }
            }
        }
        assert forall|k: int| 0 <= k < after.columns().len()
            implies (#[trigger] after.columns()[k])@
            == seq![bundle[after.columns()[k].type_key()]] by {
            assert(after.columns()[k].type_key() == filled.columns()[k].type_key());
            if k < n {
                source.lemma_column_at(k);
                assert(filled.columns().drop_last()[k] == filled.columns()[k]);
                assert(self.columns()[k]@.len() == 0);
                assert(filled.columns()[k]@ =~= Seq::<V>::empty());
                assert(after.columns()[k]@
                    =~= seq![source.column(source.columns()[k].type_key())[row]]);
            } else {
                assert(filled.columns()[k] == filled.columns().last());
            }
        }
        assert(bundle.dom() =~= after.shape().type_set()) by {
            assert forall|t: TypeKey| bundle.dom().contains(t)
                <==> after.shape().type_set().contains(
                t,
            ) by {
                assert(source.shape().type_set().contains(t) <==> source.has_column(t));
            }
        }
        after.lemma_single_row(entity, bundle);
    }

    /// A fresh archetype with the columns of `source` but the one for `ty`
    /// is at rest and holds no entity.
    pub proof fn lemma_fresh_without(&self, trimmed: &Self, source: &Self, ty: TypeKey)
        requires
            source.wf(),
            self.inv(),
            self.rows() == Seq::<EntityId>::empty(),
            self.row_of() == Map::<EntityId, usize>::empty(),
            source.same_column_types(self),
            self.columns_len(0),
            self.shape().type_set() == source.shape().type_set().remove(ty),
            trimmed.inv(),
            self.same_rows(trimmed),
            !trimmed.has_column(ty),
            trimmed.columns() == if self.has_column(ty) {
                self.columns().remove(self.column_at(ty))
            } else {
                self.columns()
            },
        ensures
            trimmed.wf(),
            trimmed@ == Map::<EntityId, Map<TypeKey, V>>::empty(),
    {
        source.lemma_same_column_types(self);
        assert forall|t: TypeKey| trimmed.shape().type_set().contains(t) <==> trimmed.has_column(
            t,
        ) by {
            assert(source.shape().type_set().contains(t) <==> source.has_column(t));
            if self.has_column(ty) {
                let at = self.column_at(ty);
                if self.has_column(t) && t != ty {
                    let k = self.column_at(t);
                    let shifted = if k < at { k } else { k - 1 };
                    assert(trimmed.columns()[shifted] == self.columns()[k]);
                }
                if trimmed.has_column(t) {
                    let k = trimmed.column_at(t);
                    let origin = if k < at { k } else { k + 1 };
                    assert(trimmed.columns()[k] == self.columns()[origin]);
                }
            }
        }
        assert forall|k: int| 0 <= k < trimmed.columns().len() implies (
        #[trigger] trimmed.columns()[k])@.len() == trimmed.rows().len() by {
            if self.has_column(ty) {
                let at = self.column_at(ty);
                let origin = if k < at { k } else { k + 1 };
                assert(trimmed.columns()[k] == self.columns()[origin]);
                assert(self.columns()[origin]@.len() == 0);
            } else {
                assert(self.columns()[k]@.len() == 0);
            }
        }
        assert(trimmed@ =~= Map::<EntityId, Map<TypeKey, V>>::empty());
    }
}

} // verus!
