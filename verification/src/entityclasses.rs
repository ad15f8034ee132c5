//! The table of entity classes: how many bits a class id takes in the stream,
//! and for each class id the name hash that finds its schema.

use vstd::prelude::*;

verus! {

/// What the decoder needs to know of one class.
#[derive(Debug, Clone, Copy, PartialEq, Eq)]
pub struct ClassInfo {
    /// The hash of the class's network name.
    pub network_name_hash: u64,
}

/// The classes, each at the position of its id.
#[derive(Debug, Clone)]
pub struct EntityClasses {
    /// The width of a class id in the stream.
    pub bits: usize,
    pub classes: Vec<ClassInfo>,
}

/// The class of id `class_id`, where the table has one.
pub open spec fn class_of(classes: Seq<ClassInfo>, class_id: i32) -> Option<ClassInfo> {
    if 0 <= class_id < classes.len() {
        Some(classes[class_id as int])
    } else {
        None
    }
}

impl EntityClasses {
    /// The class of id `class_id`.
    pub fn by_id(&self, class_id: i32) -> (r: Option<&ClassInfo>)
        ensures
            match r {
                Some(info) => class_of(self.classes@, class_id) == Some(*info),
                None => class_of(self.classes@, class_id) is None,
            },
    {
        if class_id >= 0 && (class_id as usize) < self.classes.len() {
            Some(&self.classes[class_id as usize])
        } else {
            None
        }
    }
}

} // verus!
