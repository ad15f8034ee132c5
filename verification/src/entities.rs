//! Entities, the container that tracks them by slot, and the small rules
//! around them: handles, the delta header, field keys.

use crate::entityclasses::{class_of, EntityClasses};
use crate::entitymap::{
    entries_of, map_clear, map_entries, map_get, map_insert, map_is_empty, map_remove,
    map_with_capacity, no_entries, EntityMap,
};
use crate::fieldstate::{
    demand, lemma_fresh_tree, lemma_tree_inv_alloc, lemma_tree_inv_same, node_at, tree_inv,
    value_at, FieldState,
};
use crate::fieldvalue::FieldValue;
use crate::flattenedserializers::{
    find_serializer, share_serializer, FlattenedSerializer, FlattenedSerializerContainer,
};
use crate::fxhash::{add_u64_to_hash, hash_bytes, spec_add_u64_to_hash, spec_hash_bytes};
use crate::rangealloc::RangeAlloc;
use std::rc::Rc;
use vstd::prelude::*;
use vstd::string::StringSliceAdditionalSpecFns;

verus! {

/// What can go wrong in the container and in reading an entity.
#[derive(Debug, Clone, Copy, PartialEq, Eq)]
pub enum Error {
    /// The field asked for was never written.
    FieldValueNotExist,
    /// The stored value is of another variant than the one asked for.
    FieldValueInvalidConversion,
    /// An entity's node arena has no room for a write.
    AllocExhausted,
    /// No entity lives in the slot.
    UnknownSlot,
    /// The class table has no class of that id.
    UnknownClass,
    /// No schema carries the class's network name hash.
    UnknownSerializer,
}

// ---------------------------------------------------------------------------
// Handles
// ---------------------------------------------------------------------------

/// The width of a slot index.
pub const MAX_EDICT_BITS: u32 = 14;

/// The number of slots.
pub const MAX_EDICTS: u32 = 16384;

/// The width of a slot index in the stream.
pub const NUM_ENT_ENTRY_BITS: u32 = 15;

/// The width of the serial number in a networked handle.
pub const NUM_NETWORKED_EHANDLE_SERIAL_NUMBER_BITS: u32 = 10;

/// The width of a networked handle.
pub const NUM_NETWORKED_EHANDLE_BITS: u32 = 24;

/// The handle that names no entity.
pub const INVALID_NETWORKED_EHANDLE_VALUE: u32 = 0x00FF_FFFF;

/// The slot index of a handle: its low fourteen bits.
pub open spec fn handle_index(handle: u32) -> u32 {
    handle & 0x3FFF
}

/// The serial number of a handle: the ten bits above the slot index.
pub open spec fn handle_serial(handle: u32) -> u32 {
    (handle >> 14) & 0x3FF
}

/// The handle of a slot index and a serial number.
pub open spec fn spec_make_handle(index: u32, serial: u32) -> u32 {
    (index & 0x3FFF) | ((serial & 0x3FF) << 14)
}

/// Whether `handle` names an entity.
pub fn is_handle_valid(handle: u32) -> (r: bool)
    ensures
        r == (handle != INVALID_NETWORKED_EHANDLE_VALUE),
{
    handle != INVALID_NETWORKED_EHANDLE_VALUE
}

/// The slot index of `handle`.
pub fn handle_to_index(handle: u32) -> (r: usize)
    ensures
        r == handle_index(handle),
        r < MAX_EDICTS,
{
    let low: u32 = handle & 0x3FFF;
    assert(low < 16384) by (bit_vector)
        requires
            low == handle & 0x3FFF,
    ;
    low as usize
}

/// The handle of slot `index` with serial number `serial`; of either only
/// the bits that a handle has room for are kept.
pub fn make_handle(index: u32, serial: u32) -> (r: u32)
    ensures
        r == spec_make_handle(index, serial),
{
    (index & 0x3FFF) | ((serial & 0x3FF) << 14)
}

/// A handle gives back the slot index and the serial number it was made of,
/// and takes no more than twenty-four bits.
pub proof fn lemma_handle_round_trip(index: u32, serial: u32)
    requires
        index < 16384,
        serial < 1024,
    ensures
        handle_index(spec_make_handle(index, serial)) == index,
        handle_serial(spec_make_handle(index, serial)) == serial,
        spec_make_handle(index, serial) <= 0x00FF_FFFF,
{
    assert(((index & 0x3FFF) | ((serial & 0x3FF) << 14)) & 0x3FFF == index) by (bit_vector)
        requires
            index < 16384,
            serial < 1024,
    ;
    assert((((index & 0x3FFF) | ((serial & 0x3FF) << 14)) >> 14) & 0x3FF == serial)
        by (bit_vector)
        requires
            index < 16384,
            serial < 1024,
    ;
    assert(((index & 0x3FFF) | ((serial & 0x3FF) << 14)) <= 0x00FF_FFFF) by (bit_vector)
        requires
            index < 16384,
            serial < 1024,
    ;
}

// ---------------------------------------------------------------------------
// The delta header
// ---------------------------------------------------------------------------

/// The two-bit tag in front of each entity record.
#[derive(Debug, Clone, Copy, PartialEq, Eq, Structural)]
pub enum DeltaHeader {
    /// `00`: the entity is updated.
    Update,
    /// `10`: the entity entered the visible set and is made from its baseline.
    Create,
    /// `01`: the entity left the visible set and is kept.
    Leave,
    /// `11`: the entity left the visible set and is removed.
    Delete,
}

impl DeltaHeader {
    pub const UPDATE: DeltaHeader = DeltaHeader::Update;

    pub const CREATE: DeltaHeader = DeltaHeader::Create;

    pub const LEAVE: DeltaHeader = DeltaHeader::Leave;

    pub const DELETE: DeltaHeader = DeltaHeader::Delete;

    /// The tag's two bits.
    pub open spec fn bits(self) -> u8 {
        match self {
            DeltaHeader::Update => 0b00,
            DeltaHeader::Create => 0b10,
            DeltaHeader::Leave => 0b01,
            DeltaHeader::Delete => 0b11,
        }
    }

    /// The header whose tag is the low two bits of `bits`, the two bits read
    /// from the stream.
    pub fn from_bit_reader(bits: u8) -> (r: DeltaHeader)
        ensures
            r.bits() == bits & 0b11,
    {
        let tag: u8 = bits & 0b11;
        assert(tag == 0b00 || tag == 0b01 || tag == 0b10 || tag == 0b11) by (bit_vector)
            requires
                tag == bits & 0b11,
        ;
        if tag == 0b00 {
            DeltaHeader::Update
        } else if tag == 0b10 {
            DeltaHeader::Create
        } else if tag == 0b01 {
            DeltaHeader::Leave
        } else {
            DeltaHeader::Delete
        }
    }
}

// ---------------------------------------------------------------------------
// Field updates
// ---------------------------------------------------------------------------

/// One decoded write: a field path and the value to store there.
#[derive(Debug, Clone)]
pub struct FieldUpdate {
    pub path: Vec<usize>,
    pub value: FieldValue,
}

/// The values after the writes of `updates`, in their order, on `values`.
pub open spec fn apply_updates(
    values: Map<Seq<usize>, FieldValue>,
    updates: Seq<FieldUpdate>,
) -> Map<Seq<usize>, FieldValue>
    decreases updates.len(),
{
    if updates.len() == 0 {
        values
    } else {
        apply_updates(values, updates.drop_last()).insert(
            updates.last().path@,
            updates.last().value,
        )
    }
}

/// An upper bound on the arena slots that the writes of `updates` take.
pub open spec fn total_demand(updates: Seq<FieldUpdate>) -> nat
    decreases updates.len(),
{
    if updates.len() == 0 {
        0
    } else {
        total_demand(updates.drop_last()) + demand(updates.last().path@)
    }
}

/// Some write of `updates` goes to `path`.
pub open spec fn writes(updates: Seq<FieldUpdate>, path: Seq<usize>) -> bool {
    exists|i: int| 0 <= i < updates.len() && (#[trigger] updates[i]).path@ == path
}

/// The value of the last write of `updates` to `path`.
pub open spec fn last_written(updates: Seq<FieldUpdate>, path: Seq<usize>) -> Option<FieldValue>
    decreases updates.len(),
{
    if updates.len() == 0 {
        None
    } else if updates.last().path@ == path {
        Some(updates.last().value)
    } else {
        last_written(updates.drop_last(), path)
    }
}

/// A longer run of writes demands no less.
pub proof fn lemma_total_demand_prefix(updates: Seq<FieldUpdate>, n: int)
    requires
        0 <= n <= updates.len(),
    ensures
        total_demand(updates.take(n)) <= total_demand(updates),
    decreases updates.len() - n,
{
    if n < updates.len() {
        assert(updates.take(n + 1).drop_last() =~= updates.take(n));
        lemma_total_demand_prefix(updates, n + 1);
    } else {
        assert(updates.take(n) =~= updates);
    }
}

/// After a run of writes a path holds the value of the last write to it, and
/// what it held before where no write went to it.
pub proof fn lemma_apply_updates_at(
    values: Map<Seq<usize>, FieldValue>,
    updates: Seq<FieldUpdate>,
    path: Seq<usize>,
)
    ensures
        writes(updates, path) <==> last_written(updates, path) is Some,
        writes(updates, path) ==> apply_updates(values, updates).dom().contains(path)
            && apply_updates(values, updates)[path] == last_written(updates, path)->0,
        !writes(updates, path) ==> (apply_updates(values, updates).dom().contains(path)
            <==> values.dom().contains(path)),
        !writes(updates, path) && values.dom().contains(path) ==> apply_updates(
            values,
            updates,
        )[path] == values[path],
    decreases updates.len(),
{
    if updates.len() > 0 {
        let front = updates.drop_last();
        lemma_apply_updates_at(values, front, path);
        if updates.last().path@ == path {
            assert(updates[updates.len() - 1].path@ == path);
        } else {
            if writes(updates, path) {
                let i = choose|i: int| 0 <= i < updates.len() && (#[trigger] updates[i]).path@ == path;
                assert(front[i].path@ == path);
            }
            if writes(front, path) {
                let i = choose|i: int| 0 <= i < front.len() && (#[trigger] front[i]).path@ == path;
                assert(updates[i].path@ == path);
            }
        }
    }
}

/// An entity made of a baseline with a delta on top holds, at every path, the
/// delta's last value where the delta writes there, else the baseline's last
/// value where the baseline writes there, else nothing.
pub proof fn lemma_baseline_then_delta(
    baseline: Seq<FieldUpdate>,
    delta: Seq<FieldUpdate>,
    path: Seq<usize>,
)
    ensures
        ({
            let v = apply_updates(apply_updates(Map::empty(), baseline), delta);
            &&& writes(delta, path) ==> v.dom().contains(path) && Some(v[path]) == last_written(
                delta,
                path,
            )
            &&& !writes(delta, path) && writes(baseline, path) ==> v.dom().contains(path) && Some(
                v[path],
            ) == last_written(baseline, path)
            &&& !writes(delta, path) && !writes(baseline, path) ==> !v.dom().contains(path)
        }),
{
    let base = apply_updates(Map::empty(), baseline);
    lemma_apply_updates_at(Map::empty(), baseline, path);
    lemma_apply_updates_at(base, delta, path);
}

// ---------------------------------------------------------------------------
// Entities
// ---------------------------------------------------------------------------

/// How many nodes the arena of one entity can hold.
pub const FIELD_STATES_LIMIT: usize = 131072;

/// What an entity is: its slot, its schema, and the value at each path that
/// was written.
pub struct EntityView {
    pub index: i32,
    pub serializer: FlattenedSerializer,
    pub values: Map<Seq<usize>, FieldValue>,
}

/// One entity: a slot index, the schema of its class, and its field-state
/// tree with the arena that the tree's nodes live in.
#[derive(Debug, Clone)]
pub struct Entity {
    index: i32,
    serializer: Rc<FlattenedSerializer>,
    state: FieldState,
    field_states: Vec<FieldState>,
    field_states_alloc: RangeAlloc,
}

/// The values of the tree under `root`, by path.
spec fn values_of(root: FieldState, arena: Seq<FieldState>) -> Map<Seq<usize>, FieldValue> {
    Map::new(
        |q: Seq<usize>| value_at(root, arena, q) is Some,
        |q: Seq<usize>| value_at(root, arena, q)->0,
    )
}

/// The view of an entity of slot `index` and schema `serializer` that holds
/// `values`.
pub open spec fn entity_view(
    index: i32,
    serializer: FlattenedSerializer,
    values: Map<Seq<usize>, FieldValue>,
) -> EntityView {
    EntityView { index, serializer, values }
}

impl View for Entity {
    type V = EntityView;

    closed spec fn view(&self) -> EntityView {
        EntityView {
            index: self.index,
            serializer: *self.serializer,
            values: values_of(self.state, self.field_states@),
        }
    }
}

impl Entity {
    /// The entity's tree is sound in its arena, and the arena's pool has the
    /// size that every entity is made with.
    pub closed spec fn wf(&self) -> bool {
        &&& tree_inv(self.state, self.field_states@, self.field_states_alloc)
        &&& self.field_states_alloc.limit() == FIELD_STATES_LIMIT
    }

    /// How many slots of its arena the entity has in use.
    pub closed spec fn nodes(&self) -> nat {
        self.field_states@.len()
    }

    /// An entity of slot `index` and schema `serializer` that holds no value.
    pub fn new(index: i32, serializer: Rc<FlattenedSerializer>) -> (r: Entity)
        ensures
            r.wf(),
            r@ == entity_view(index, *serializer, Map::empty()),
            r.nodes() == 0,
    {
        let alloc = RangeAlloc::new(FIELD_STATES_LIMIT);
        let state = FieldState::new();
        let field_states: Vec<FieldState> = Vec::new();
        proof {
            lemma_fresh_tree(state, alloc);
            assert(field_states@ =~= Seq::<FieldState>::empty());
            assert(values_of(state, field_states@) =~= Map::<Seq<usize>, FieldValue>::empty()) by {
                assert forall|q: Seq<usize>| value_at(state, field_states@, q) is None by {
                    if q.len() > 0 {
                        assert(node_at(state, field_states@, q) is None);
                    }
                }
            }
        }
        Entity { index, serializer, state, field_states, field_states_alloc: alloc }
    }

    /// The slot that the entity lives in.
    pub fn index(&self) -> (r: i32)
        ensures
            r == self@.index,
    {
        self.index
    }

    /// The schema of the entity's class.
    pub fn serializer(&self) -> (r: &FlattenedSerializer)
        ensures
            *r == self@.serializer,
    {
        &self.serializer
    }

    /// The value at `fp`; `FieldValueNotExist` where none was written there.
    pub fn get_value(&self, fp: &[usize]) -> (r: Result<&FieldValue, Error>)
        ensures
            match r {
                Ok(v) => self@.values.dom().contains(fp@) && self@.values[fp@] == *v,
                Err(e) => e == Error::FieldValueNotExist && !self@.values.dom().contains(fp@),
            },
    {
        match self.state.get(fp, &self.field_states) {
            Some(node) => match &node.value {
                Some(v) => Ok(v),
                None => Err(Error::FieldValueNotExist),
            },
            None => Err(Error::FieldValueNotExist),
        }
    }

    /// A second entity with the same values, for slot `index` and with schema
    /// `serializer`. It has an arena of its own: writes to either leave the
    /// other as it is.
    pub fn duplicate_as(&self, index: i32, serializer: Rc<FlattenedSerializer>) -> (r: Entity)
        requires
            self.wf(),
        ensures
            r.wf(),
            r@ == entity_view(index, *serializer, self@.values),
            r.nodes() == self.nodes(),
    {
        let mut field_states: Vec<FieldState> = Vec::new();
        let mut i: usize = 0;
        while i < self.field_states.len()
            invariant
                i <= self.field_states@.len(),
                field_states@ == self.field_states@.take(i as int),
            decreases self.field_states@.len() - i,
        {
            field_states.push(self.field_states[i].duplicate());
            proof {
                assert(field_states@ =~= self.field_states@.take(i + 1));
            }
            i += 1;
        }
        let state = self.state.duplicate();
        proof {
            lemma_tree_inv_alloc(self.state, self.field_states@, self.field_states_alloc);
        }
        let field_states_alloc = self.field_states_alloc.duplicate();
        proof {
            assert(field_states@ =~= self.field_states@);
            lemma_tree_inv_same(
                self.state,
                self.field_states@,
                self.field_states_alloc,
                field_states@,
                field_states_alloc,
            );
        }
        Entity { index, serializer, state, field_states, field_states_alloc }
    }

    /// Applies the writes of `updates` in their order.
    ///
    /// The writes succeed where the arena has room for what they demand. Where
    /// it runs out, the writes before the failing one stand and the rest are
    /// not made.
    pub fn parse(&mut self, updates: &Vec<FieldUpdate>) -> (r: Result<(), Error>)
        requires
            old(self).wf(),
        ensures
            final(self).wf(),
            final(self)@.index == old(self)@.index,
            final(self)@.serializer == old(self)@.serializer,
            final(self).nodes() <= old(self).nodes() + total_demand(updates@),
            old(self).nodes() + total_demand(updates@) <= FIELD_STATES_LIMIT ==> r is Ok,
            match r {
                Ok(_) => final(self)@.values == apply_updates(old(self)@.values, updates@),
                Err(e) => e == Error::AllocExhausted && exists|n: int|
                    0 <= n < updates@.len() && final(self)@.values == #[trigger] apply_updates(
                        old(self)@.values,
                        updates@.take(n),
                    ) && final(self).nodes() + demand(updates@[n].path@) > FIELD_STATES_LIMIT,
            },
    {
        let mut i: usize = 0;
        while i < updates.len()
            invariant
                i <= updates@.len(),
                self.wf(),
                self@.index == old(self)@.index,
                self@.serializer == old(self)@.serializer,
                self.nodes() <= old(self).nodes() + total_demand(updates@.take(i as int)),
                self@.values == apply_updates(old(self)@.values, updates@.take(i as int)),
            decreases updates@.len() - i,
        {
            let update = &updates[i];
            let ghost before = self@.values;
            let ghost root0 = self.state;
            let ghost arena0 = self.field_states@;
            proof {
                assert(updates@.take(i + 1).drop_last() =~= updates@.take(i as int));
                lemma_total_demand_prefix(updates@, i + 1);
            }
            let res = self.state.set(
                update.path.as_slice(),
                update.value.duplicate(),
                &mut self.field_states,
                &mut self.field_states_alloc,
            );
            match res {
                Ok(_) => {
                    proof {
                        assert(self@.values =~= before.insert(update.path@, update.value)) by {
                            assert forall|q: Seq<usize>|
                                value_at(self.state, self.field_states@, q) == (if q
                                    == update.path@ {
                                    Some(update.value)
                                } else {
                                    value_at(root0, arena0, q)
                                }) by {}
                        }
                    }
                },
                Err(_) => {
                    proof {
                        assert(self@.values =~= before) by {
                            assert forall|q: Seq<usize>|
                                value_at(self.state, self.field_states@, q) == value_at(
                                    root0,
                                    arena0,
                                    q,
                                ) by {}
                        }
                    }
                    return Err(Error::AllocExhausted);
                },
            }
            i += 1;
        }
        proof {
            assert(updates@.take(i as int) =~= updates@);
        }
        Ok(())
    }
}

// ---------------------------------------------------------------------------
// The container
// ---------------------------------------------------------------------------

/// What a container is: the live entities by slot, and the cached baseline
/// of each class that an entity was made of.
pub struct ContainerView {
    pub entities: Map<i32, EntityView>,
    pub baselines: Map<i32, EntityView>,
}

/// The live entities and the baseline cache.
#[derive(Debug)]
pub struct EntityContainer {
    entities: EntityMap,
    baseline_entities: EntityMap,
}

/// The views of the entities of a map.
pub open spec fn views_of(m: Map<i32, Entity>) -> Map<i32, EntityView> {
    Map::new(|k: i32| m.dom().contains(k), |k: i32| m[k]@)
}

/// The container that holds nothing.
pub open spec fn empty_container() -> ContainerView {
    ContainerView { entities: Map::empty(), baselines: Map::empty() }
}

/// The schema of class `class_id`: the first schema that carries the name
/// hash of the class of that id.
pub open spec fn class_schema(
    classes: EntityClasses,
    serializers: FlattenedSerializerContainer,
    class_id: i32,
) -> Option<Rc<FlattenedSerializer>> {
    match class_of(classes.classes@, class_id) {
        Some(info) => find_serializer(serializers.serializers@, info.network_name_hash),
        None => None,
    }
}

/// The writes of a baseline that may be absent.
pub open spec fn baseline_updates(baseline: Option<&Vec<FieldUpdate>>) -> Seq<FieldUpdate> {
    match baseline {
        Some(b) => b@,
        None => Seq::empty(),
    }
}

/// The values that a new entity of class `class_id` starts with: those of
/// the class's cached baseline where there is one, else those that the writes
/// of `baseline` leave.
pub open spec fn base_values(v: ContainerView, class_id: i32, baseline: Seq<FieldUpdate>) -> Map<
    Seq<usize>,
    FieldValue,
> {
    if v.baselines.dom().contains(class_id) {
        v.baselines[class_id].values
    } else {
        apply_updates(Map::empty(), baseline)
    }
}

/// The container after an entity of class `class_id` and schema `schema` was
/// made in slot `index` with the writes of `delta` on top of its baseline.
pub open spec fn created(
    v: ContainerView,
    index: i32,
    class_id: i32,
    schema: FlattenedSerializer,
    baseline: Seq<FieldUpdate>,
    delta: Seq<FieldUpdate>,
) -> ContainerView {
    let base = base_values(v, class_id, baseline);
    ContainerView {
        entities: v.entities.insert(index, entity_view(index, schema, apply_updates(base, delta))),
        baselines: if v.baselines.dom().contains(class_id) {
            v.baselines
        } else {
            v.baselines.insert(class_id, entity_view(index, schema, base))
        },
    }
}

/// The container after the writes of `delta` went to the entity in slot
/// `index`; the container itself where the slot is empty.
pub open spec fn updated(v: ContainerView, index: i32, delta: Seq<FieldUpdate>) -> ContainerView {
    if v.entities.dom().contains(index) {
        ContainerView {
            entities: v.entities.insert(
                index,
                entity_view(
                    v.entities[index].index,
                    v.entities[index].serializer,
                    apply_updates(v.entities[index].values, delta),
                ),
            ),
            baselines: v.baselines,
        }
    } else {
        v
    }
}

/// The container after the entity in slot `index` was removed.
pub open spec fn deleted(v: ContainerView, index: i32) -> ContainerView {
    ContainerView { entities: v.entities.remove(index), baselines: v.baselines }
}

impl View for EntityContainer {
    type V = ContainerView;

    closed spec fn view(&self) -> ContainerView {
        ContainerView {
            entities: views_of(entries_of(self.entities)),
            baselines: views_of(entries_of(self.baseline_entities)),
        }
    }
}

impl EntityContainer {
    /// Every entity of the container is sound, and each live entity knows
    /// the slot it lives in.
    pub closed spec fn wf(&self) -> bool {
        &&& forall|k: i32| #[trigger]
            entries_of(self.entities).dom().contains(k) ==> entries_of(self.entities)[k].wf()
                && entries_of(self.entities)[k]@.index == k
        &&& forall|k: i32| #[trigger]
            entries_of(self.baseline_entities).dom().contains(k) ==> entries_of(
                self.baseline_entities,
            )[k].wf()
    }

    /// How many arena slots the entity in slot `index` has in use.
    pub closed spec fn entity_nodes(&self, index: i32) -> nat {
        entries_of(self.entities)[index].nodes()
    }

    /// How many arena slots the cached baseline of class `class_id` has in
    /// use.
    pub closed spec fn baseline_nodes(&self, class_id: i32) -> nat {
        entries_of(self.baseline_entities)[class_id].nodes()
    }

    /// The arena slots that a new entity of class `class_id` starts with, at
    /// most.
    pub open spec fn base_nodes(&self, class_id: i32, baseline: Seq<FieldUpdate>) -> nat {
        if self@.baselines.dom().contains(class_id) {
            self.baseline_nodes(class_id)
        } else {
            total_demand(baseline)
        }
    }

    /// A container without entities and without cached baselines.
    pub fn new() -> (r: EntityContainer)
        ensures
            r.wf(),
            r@ == empty_container(),
    {
        let r = EntityContainer {
            entities: map_with_capacity(16384),
            baseline_entities: map_with_capacity(1024),
        };
        proof {
            assert(r@.entities =~= Map::<i32, EntityView>::empty());
            assert(r@.baselines =~= Map::<i32, EntityView>::empty());
        }
        r
    }

    /// Makes the entity of class `class_id` in slot `index`.
    ///
    /// The entity gets the schema of its class and starts from the class's
    /// baseline: from the cached one where the class has one, else from the
    /// writes of `baseline`, which are cached for the class from now on. The
    /// writes of `delta` go on top. Whatever lived in the slot is replaced.
    pub fn handle_create(
        &mut self,
        index: i32,
        class_id: i32,
        entity_classes: &EntityClasses,
        serializers: &FlattenedSerializerContainer,
        baseline: Option<&Vec<FieldUpdate>>,
        delta: &Vec<FieldUpdate>,
    ) -> (r: Result<&Entity, Error>)
        requires
            old(self).wf(),
        ensures
            final(self).wf(),
            class_of(entity_classes.classes@, class_id) is None ==> r == Err::<&Entity, Error>(
                Error::UnknownClass,
            ),
            class_of(entity_classes.classes@, class_id) is Some && class_schema(
                *entity_classes,
                *serializers,
                class_id,
            ) is None ==> r == Err::<&Entity, Error>(Error::UnknownSerializer),
            class_schema(*entity_classes, *serializers, class_id) is Some && r is Err ==> r
                == Err::<&Entity, Error>(Error::AllocExhausted),
            class_schema(*entity_classes, *serializers, class_id) is Some && old(self).base_nodes(
                class_id,
                baseline_updates(baseline),
            ) + total_demand(delta@) <= FIELD_STATES_LIMIT && total_demand(
                baseline_updates(baseline),
            ) <= FIELD_STATES_LIMIT ==> r is Ok,
            match r {
                Ok(e) => {
                    &&& class_schema(*entity_classes, *serializers, class_id) is Some
                    &&& final(self)@ == created(
                        old(self)@,
                        index,
                        class_id,
                        *class_schema(*entity_classes, *serializers, class_id)->0,
                        baseline_updates(baseline),
                        delta@,
                    )
                    &&& e@ == final(self)@.entities[index]
                    &&& e.wf()
                    &&& final(self).entity_nodes(index) <= old(self).base_nodes(
                        class_id,
                        baseline_updates(baseline),
                    ) + total_demand(delta@)
                },
                Err(_) => {
                    &&& final(self)@.entities == old(self)@.entities
                    &&& final(self)@.baselines == old(self)@.baselines || (class_schema(
                        *entity_classes,
                        *serializers,
                        class_id,
                    ) is Some && final(self)@.baselines == created(
                        old(self)@,
                        index,
                        class_id,
                        *class_schema(*entity_classes, *serializers, class_id)->0,
                        baseline_updates(baseline),
                        delta@,
                    ).baselines)
                },
            },
            forall|k: i32|
                k != index && old(self)@.entities.dom().contains(k) ==> final(self).entity_nodes(k)
                    == old(self).entity_nodes(k),
            forall|c: i32|
                old(self)@.baselines.dom().contains(c) ==> final(self).baseline_nodes(c) == old(self).baseline_nodes(c),
            !old(self)@.baselines.dom().contains(class_id) && final(self)@.baselines.dom().contains(
                class_id,
            ) ==> final(self).baseline_nodes(class_id) <= total_demand(baseline_updates(baseline)),
    {
        let ghost old_entities = entries_of(self.entities);
        let ghost old_baselines = entries_of(self.baseline_entities);
        let info = match entity_classes.by_id(class_id) {
            Some(info) => info,
            None => {
                return Err(Error::UnknownClass);
            },
        };
        let serializer = match serializers.by_name_hash(info.network_name_hash) {
            Some(serializer) => serializer,
            None => {
                return Err(Error::UnknownSerializer);
            },
        };
        let cached: Option<Entity> = match map_get(&self.baseline_entities, class_id) {
            Some(base) => Some(base.duplicate_as(index, share_serializer(&serializer))),
            None => None,
        };
        let mut entity = match cached {
            Some(entity) => entity,
            None => {
                let mut fresh = Entity::new(index, share_serializer(&serializer));
                match baseline {
                    Some(writes) => {
                        match fresh.parse(writes) {
                            Ok(_) => {},
                            Err(e) => {
                                return Err(e);
                            },
                        }
                    },
                    None => {},
                }
                let entity = fresh.duplicate_as(index, share_serializer(&serializer));
                let _ = map_insert(&mut self.baseline_entities, class_id, fresh);
                proof {
                    assert(views_of(entries_of(self.baseline_entities)) =~= views_of(
                        old_baselines,
                    ).insert(
                        class_id,
                        entity_view(
                            index,
                            *serializer,
                            apply_updates(Map::empty(), baseline_updates(baseline)),
                        ),
                    ));
                }
                entity
            },
        };
        match entity.parse(delta) {
            Ok(_) => {},
            Err(e) => {
                return Err(e);
            },
        }
        let ghost made = entity;
        let _ = map_insert(&mut self.entities, index, entity);
        proof {
            assert(views_of(entries_of(self.entities)) =~= views_of(old_entities).insert(
                index,
                made@,
            ));
        }
        let found = map_get(&self.entities, index);
        Ok(found.unwrap())
    }

    /// Applies the writes of `delta` to the entity in slot `index`.
    ///
    /// Where the entity's arena runs out, the writes before the failing one
    /// stand.
    pub fn handle_update(&mut self, index: i32, delta: &Vec<FieldUpdate>) -> (r: Result<
        &Entity,
        Error,
    >)
        requires
            old(self).wf(),
        ensures
            final(self).wf(),
            final(self)@.baselines == old(self)@.baselines,
            final(self)@.entities.dom() == old(self)@.entities.dom(),
            !old(self)@.entities.dom().contains(index) ==> r == Err::<&Entity, Error>(
                Error::UnknownSlot,
            ) && final(self)@ == old(self)@,
            old(self)@.entities.dom().contains(index) && r is Err ==> r == Err::<&Entity, Error>(
                Error::AllocExhausted,
            ),
            old(self)@.entities.dom().contains(index) && old(self).entity_nodes(index)
                + total_demand(delta@) <= FIELD_STATES_LIMIT ==> r is Ok,
            old(self)@.entities.dom().contains(index) ==> final(self).entity_nodes(index) <= old(self).entity_nodes(index) + total_demand(delta@),
            match r {
                Ok(e) => final(self)@ == updated(old(self)@, index, delta@) && e.wf() && e@
                    == final(self)@.entities[index],
                Err(_) => old(self)@.entities.dom().contains(index) ==> exists|n: int|
                    0 <= n < delta@.len() && final(self)@ == #[trigger] updated(
                        old(self)@,
                        index,
                        delta@.take(n),
                    ) && final(self).entity_nodes(index) + demand(delta@[n].path@)
                        > FIELD_STATES_LIMIT,
            },
            forall|k: i32|
                k != index && old(self)@.entities.dom().contains(k) ==> final(self).entity_nodes(k)
                    == old(self).entity_nodes(k),
            forall|c: i32| final(self).baseline_nodes(c) == old(self).baseline_nodes(c),
    {
        let ghost old_entities = entries_of(self.entities);
        let mut entity = match map_remove(&mut self.entities, index) {
            Some(entity) => entity,
            None => {
                proof {
                    assert(entries_of(self.entities) =~= old_entities);
                }
                return Err(Error::UnknownSlot);
            },
        };
        let ghost before = entity;
        let res = entity.parse(delta);
        let ghost after = entity;
        let _ = map_insert(&mut self.entities, index, entity);
        proof {
            assert(entries_of(self.entities) =~= old_entities.insert(index, after));
            assert(views_of(entries_of(self.entities)) =~= views_of(old_entities).insert(
                index,
                after@,
            ));
            assert(views_of(entries_of(self.entities)).dom() =~= views_of(old_entities).dom());
        }
        match res {
            Ok(_) => {
                let found = map_get(&self.entities, index);
                Ok(found.unwrap())
            },
            Err(e) => {
                proof {
                    let n = choose|n: int|
                        0 <= n < delta@.len() && after@.values == #[trigger] apply_updates(
                            before@.values,
                            delta@.take(n),
                        ) && after.nodes() + demand(delta@[n].path@) > FIELD_STATES_LIMIT;
                    assert(self@ == updated(old(self)@, index, delta@.take(n)));
                }
                Err(e)
            },
        }
    }

    /// Removes the entity in slot `index` and hands it out.
    pub fn handle_delete(&mut self, index: i32) -> (r: Result<Entity, Error>)
        requires
            old(self).wf(),
        ensures
            final(self).wf(),
            final(self)@ == deleted(old(self)@, index),
            match r {
                Ok(e) => old(self)@.entities.dom().contains(index) && e@ == old(self)@.entities[index] && e.wf(),
                Err(e) => e == Error::UnknownSlot && !old(self)@.entities.dom().contains(index),
            },
            forall|k: i32|
                k != index && old(self)@.entities.dom().contains(k) ==> final(self).entity_nodes(k)
                    == old(self).entity_nodes(k),
            forall|c: i32| final(self).baseline_nodes(c) == old(self).baseline_nodes(c),
    {
        let ghost old_entities = entries_of(self.entities);
        let removed = map_remove(&mut self.entities, index);
        proof {
            assert(views_of(entries_of(self.entities)) =~= views_of(old_entities).remove(index));
        }
        match removed {
            Some(entity) => Ok(entity),
            None => Err(Error::UnknownSlot),
        }
    }

    /// The live entities with their slots, each once, in no stated order.
    pub fn iter(&self) -> (r: Vec<(i32, &Entity)>)
        ensures
            forall|i: int|
                0 <= i < r@.len() ==> self@.entities.dom().contains((#[trigger] r@[i]).0)
                    && r@[i].1@ == self@.entities[r@[i].0],
            forall|k: i32|
                self@.entities.dom().contains(k) ==> exists|i: int|
                    0 <= i < r@.len() && (#[trigger] r@[i]).0 == k,
            forall|i: int, j: int|
                0 <= i < j < r@.len() ==> (#[trigger] r@[i]).0 != (#[trigger] r@[j]).0,
    {
        map_entries(&self.entities)
    }

    /// The entity in slot `index`.
    pub fn get(&self, index: &i32) -> (r: Option<&Entity>)
        ensures
            match r {
                Some(e) => self@.entities.dom().contains(*index) && e@ == self@.entities[*index]
                    && (self.wf() ==> e.wf()),
                None => !self@.entities.dom().contains(*index),
            },
    {
        map_get(&self.entities, *index)
    }

    /// The cached baselines with their class ids, each once, in no stated
    /// order.
    pub fn iter_baselines(&self) -> (r: Vec<(i32, &Entity)>)
        ensures
            forall|i: int|
                0 <= i < r@.len() ==> self@.baselines.dom().contains((#[trigger] r@[i]).0)
                    && r@[i].1@ == self@.baselines[r@[i].0],
            forall|k: i32|
                self@.baselines.dom().contains(k) ==> exists|i: int|
                    0 <= i < r@.len() && (#[trigger] r@[i]).0 == k,
            forall|i: int, j: int|
                0 <= i < j < r@.len() ==> (#[trigger] r@[i]).0 != (#[trigger] r@[j]).0,
    {
        map_entries(&self.baseline_entities)
    }

    /// The cached baseline of class `index`.
    pub fn get_baseline(&self, index: &i32) -> (r: Option<&Entity>)
        ensures
            match r {
                Some(e) => self@.baselines.dom().contains(*index) && e@ == self@.baselines[*index]
                    && (self.wf() ==> e.wf()),
                None => !self@.baselines.dom().contains(*index),
            },
    {
        map_get(&self.baseline_entities, *index)
    }

    /// Drops every entity and every cached baseline. The maps keep the room
    /// they have; the container is as a new one in all that can be told of it.
    pub fn clear(&mut self)
        ensures
            final(self).wf(),
            final(self)@ == empty_container(),
    {
        map_clear(&mut self.entities);
        map_clear(&mut self.baseline_entities);
        proof {
            assert(self@.entities =~= Map::<i32, EntityView>::empty());
            assert(self@.baselines =~= Map::<i32, EntityView>::empty());
        }
    }

    /// Whether no entity is live.
    pub fn is_empty(&self) -> (r: bool)
        ensures
            r == (self@.entities == Map::<i32, EntityView>::empty()),
    {
        let r = map_is_empty(&self.entities);
        proof {
            if r {
                assert(self@.entities =~= Map::<i32, EntityView>::empty());
            } else {
                assert(self@.entities.dom() =~= entries_of(self.entities).dom());
            }
        }
        r
    }
}

// ---------------------------------------------------------------------------
// What a run of records does to the container
// ---------------------------------------------------------------------------

/// One record of a packet, as far as the container goes.
pub enum Step {
    Create {
        index: i32,
        class_id: i32,
        schema: FlattenedSerializer,
        baseline: Seq<FieldUpdate>,
        delta: Seq<FieldUpdate>,
    },
    Update { index: i32, delta: Seq<FieldUpdate> },
    Leave { index: i32 },
    Delete { index: i32 },
}

/// The container after one record.
pub open spec fn step(v: ContainerView, s: Step) -> ContainerView {
    match s {
        Step::Create { index, class_id, schema, baseline, delta } => created(
            v,
            index,
            class_id,
            schema,
            baseline,
            delta,
        ),
        Step::Update { index, delta } => updated(v, index, delta),
        Step::Leave { index } => v,
        Step::Delete { index } => deleted(v, index),
    }
}

/// The container after a run of records.
pub open spec fn run(v: ContainerView, steps: Seq<Step>) -> ContainerView
    decreases steps.len(),
{
    if steps.len() == 0 {
        v
    } else {
        step(run(v, steps.drop_last()), steps.last())
    }
}

/// The record makes or removes the entity of slot `index`.
pub open spec fn replaces_slot(s: Step, index: i32) -> bool {
    match s {
        Step::Create { index: i, .. } => i == index,
        Step::Delete { index: i } => i == index,
        _ => false,
    }
}

/// An entity that was made stays in its slot, with the schema of its class,
/// through every run of records that neither removes it nor makes another
/// entity in its slot.
pub proof fn lemma_created_entity_stays(
    v: ContainerView,
    index: i32,
    class_id: i32,
    schema: FlattenedSerializer,
    baseline: Seq<FieldUpdate>,
    delta: Seq<FieldUpdate>,
    later: Seq<Step>,
)
    requires
        forall|i: int| 0 <= i < later.len() ==> !replaces_slot(#[trigger] later[i], index),
    ensures
        run(created(v, index, class_id, schema, baseline, delta), later).entities.dom().contains(
            index,
        ),
        run(created(v, index, class_id, schema, baseline, delta), later).entities[index].serializer
            == schema,
        run(created(v, index, class_id, schema, baseline, delta), later).entities[index].index
            == index,
    decreases later.len(),
{
    if later.len() > 0 {
        let front = later.drop_last();
        assert forall|i: int| 0 <= i < front.len() implies !replaces_slot(
            #[trigger] front[i],
            index,
        ) by {
            assert(front[i] == later[i]);
        }
        lemma_created_entity_stays(v, index, class_id, schema, baseline, delta, front);
        assert(!replaces_slot(later[later.len() - 1], index));
    }
}

/// Once a class has a cached baseline, the baseline handed to the making of
/// another entity of that class is not read: whatever it is, the outcome is
/// the same.
pub proof fn lemma_cached_baseline_is_reused(
    v: ContainerView,
    index: i32,
    class_id: i32,
    schema: FlattenedSerializer,
    baseline1: Seq<FieldUpdate>,
    baseline2: Seq<FieldUpdate>,
    delta: Seq<FieldUpdate>,
)
    requires
        v.baselines.dom().contains(class_id),
    ensures
        created(v, index, class_id, schema, baseline1, delta) == created(
            v,
            index,
            class_id,
            schema,
            baseline2,
            delta,
        ),
{
}

/// The making of an entity leaves its class with a cached baseline, which
/// holds the values that the class's first entity started from.
pub proof fn lemma_create_caches_baseline(
    v: ContainerView,
    index: i32,
    class_id: i32,
    schema: FlattenedSerializer,
    baseline: Seq<FieldUpdate>,
    delta: Seq<FieldUpdate>,
)
    ensures
        created(v, index, class_id, schema, baseline, delta).baselines.dom().contains(class_id),
        created(v, index, class_id, schema, baseline, delta).baselines[class_id].values
            == base_values(v, class_id, baseline),
        created(v, index, class_id, schema, baseline, delta).entities[index].values
            == apply_updates(base_values(v, class_id, baseline), delta),
{
}

// ---------------------------------------------------------------------------
// Field keys
// ---------------------------------------------------------------------------

/// The key of a dotted field path given by the bytes of its parts: the hash
/// of the first part, with the hash of each later part folded in.
pub open spec fn spec_field_key(parts: Seq<Seq<u8>>) -> u64
    decreases parts.len(),
{
    if parts.len() == 0 {
        0
    } else if parts.len() == 1 {
        spec_hash_bytes(parts[0])
    } else {
        spec_add_u64_to_hash(spec_field_key(parts.drop_last()), spec_hash_bytes(parts.last()))
    }
}

/// The bytes of each part of a path of strings.
pub open spec fn part_bytes(path: Seq<&str>) -> Seq<Seq<u8>> {
    Seq::new(path.len(), |i: int| path[i].spec_bytes())
}

/// The key of the field path whose parts are `path`.
pub fn make_field_key(path: &[&str]) -> (r: u64)
    requires
        path@.len() > 0,
    ensures
        r == spec_field_key(part_bytes(path@)),
{
    let ghost parts = part_bytes(path@);
    let mut hash: u64 = hash_bytes(path[0].as_bytes());
    let mut i: usize = 1;
    proof {
        assert(parts.take(1).len() == 1);
        assert(parts.take(1)[0] == parts[0]);
    }
    while i < path.len()
        invariant
            1 <= i <= path@.len(),
            parts == part_bytes(path@),
            hash == spec_field_key(parts.take(i as int)),
        decreases path@.len() - i,
    {
        proof {
            assert(parts.take(i + 1).drop_last() =~= parts.take(i as int));
            assert(parts.take(i + 1).last() == path@[i as int].spec_bytes());
        }
        let part: u64 = hash_bytes(path[i].as_bytes());
        hash = add_u64_to_hash(hash, part);
        i += 1;
    }
    proof {
        assert(parts.take(i as int) =~= parts);
    }
    hash
}

} // verus!
