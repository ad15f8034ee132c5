//! The hash map that the container keeps its entities in.
//!
//! The map is `hashbrown`'s. Nothing of it is proved here: each function
//! below states what the `hashbrown` method it calls is documented to do, over
//! the pairs that the map holds.

use crate::entities::Entity;
use vstd::prelude::*;

verus! {

/// A `hashbrown::HashMap` from `i32` keys to entities.
#[verifier::external_body]
#[derive(Debug)]
pub struct EntityMap {
    inner: hashbrown::HashMap<i32, Entity>,
}

/// The pairs that the map holds.
pub uninterp spec fn entries_of(m: EntityMap) -> Map<i32, Entity>;

/// The map that holds nothing.
pub open spec fn no_entries() -> Map<i32, Entity> {
    Map::empty()
}

/// `HashMap::with_capacity`: an empty map with room for `capacity` pairs.
/// The capacity is kept small, so that sizing the table cannot overflow.
#[verifier::external_body]
pub(crate) fn map_with_capacity(capacity: usize) -> (m: EntityMap)
    requires
        capacity <= 0x10000,
    ensures
        entries_of(m) == no_entries(),
{
    EntityMap { inner: hashbrown::HashMap::with_capacity(capacity) }
}

/// `HashMap::insert`: the map holds `v` at `k` afterwards and is otherwise as
/// before; the value that `k` had comes back, `None` where it had none.
#[verifier::external_body]
pub(crate) fn map_insert(m: &mut EntityMap, k: i32, v: Entity) -> (prev: Option<Entity>)
    ensures
        entries_of(*final(m)) == entries_of(*old(m)).insert(k, v),
        prev == (if entries_of(*old(m)).dom().contains(k) {
            Some(entries_of(*old(m))[k])
        } else {
            None
        }),
{
    m.inner.insert(k, v)
}

/// `HashMap::remove`: the map no longer holds `k` and is otherwise as before;
/// the value that `k` had comes back, `None` where it had none.
#[verifier::external_body]
pub(crate) fn map_remove(m: &mut EntityMap, k: i32) -> (prev: Option<Entity>)
    ensures
        entries_of(*final(m)) == entries_of(*old(m)).remove(k),
        prev == (if entries_of(*old(m)).dom().contains(k) {
            Some(entries_of(*old(m))[k])
        } else {
            None
        }),
{
    m.inner.remove(&k)
}

/// `HashMap::get`: the value at `k`, `None` where the map holds none.
#[verifier::external_body]
pub(crate) fn map_get<'a>(m: &'a EntityMap, k: i32) -> (r: Option<&'a Entity>)
    ensures
        r == (if entries_of(*m).dom().contains(k) {
            Some(&entries_of(*m)[k])
        } else {
            None
        }),
{
    m.inner.get(&k)
}

/// `HashMap::clear`: the map holds nothing afterwards.
#[verifier::external_body]
pub(crate) fn map_clear(m: &mut EntityMap)
    ensures
        entries_of(*final(m)) == no_entries(),
{
    m.inner.clear()
}

/// `HashMap::is_empty`: whether the map holds no pair.
#[verifier::external_body]
pub(crate) fn map_is_empty(m: &EntityMap) -> (r: bool)
    ensures
        r == (entries_of(*m).dom() == Set::<i32>::empty()),
{
    m.inner.is_empty()
}

/// `HashMap::iter`, collected: every pair of the map once, in no stated order.
#[verifier::external_body]
pub(crate) fn map_entries<'a>(m: &'a EntityMap) -> (r: Vec<(i32, &'a Entity)>)
    ensures
        forall|i: int|
            0 <= i < r@.len() ==> entries_of(*m).dom().contains((#[trigger] r@[i]).0)
                && *r@[i].1 == entries_of(*m)[r@[i].0],
        forall|k: i32|
            entries_of(*m).dom().contains(k) ==> exists|i: int|
                0 <= i < r@.len() && (#[trigger] r@[i]).0 == k,
        forall|i: int|
            forall|j: int|
                0 <= i < j < r@.len() ==> (#[trigger] r@[i]).0 != (#[trigger] r@[j]).0,
{
    m.inner.iter().map(|(k, v)| (*k, v)).collect()
}

} // verus!
