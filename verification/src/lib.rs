//! The entity delta decoder of a Source 2 replay parser, verified with Verus.
//!
//! A replay carries, message by message, the creations, updates and removals
//! of networked entities. This library keeps the state that those records
//! add up to: the live entities by slot, each a tree of values addressed by
//! field paths, and the cached baseline of every class that an entity was
//! made of. Reading the stream itself, and decoding the payload of a field,
//! is left to the caller, who hands the library decoded writes.

pub mod entities;
pub mod entityclasses;
pub mod entitymap;
pub mod fieldstate;
pub mod fieldvalue;
pub mod flattenedserializers;
pub mod fxhash;
pub mod instancebaseline;
pub mod rangealloc;
