//! The schema of a networked class: a tree of fields, each naming the decoder
//! that reads its payload, and the rule by which a field path picks a field.

use crate::fxhash::{add_u64_to_hash, spec_add_u64_to_hash};
use std::rc::Rc;
use vstd::prelude::*;

verus! {

/// One field of a schema.
#[derive(Debug)]
pub struct FlattenedSerializerField {
    /// The hash of the field's name.
    pub var_name_hash: u64,
    /// The hash of the name of the field's type.
    pub var_type_hash: u64,
    /// Which decoder reads the field's payload.
    pub decoder: u32,
    /// Whether the field is an array whose one child is the template of
    /// every element.
    pub is_dynamic_array: bool,
    pub children: Vec<FlattenedSerializerField>,
}

/// The schema of one class.
#[derive(Debug)]
pub struct FlattenedSerializer {
    /// The hash of the class's network name.
    pub serializer_name_hash: u64,
    pub fields: Vec<FlattenedSerializerField>,
}

/// The schemas of all classes.
#[derive(Debug, Clone)]
pub struct FlattenedSerializerContainer {
    pub serializers: Vec<Rc<FlattenedSerializer>>,
}

/// Field `i` of `fields`, where there is one.
pub open spec fn child_field(fields: Seq<FlattenedSerializerField>, i: usize) -> Option<
    FlattenedSerializerField,
> {
    if i < fields.len() {
        Some(fields[i as int])
    } else {
        None
    }
}

/// The field that `path` picks in `schema`, with the key of the path.
///
/// The first component picks a field of the schema and the key starts as that
/// field's name hash. Each later component picks a child of the field reached
/// so far: under a dynamic array always the template child, and the
/// component itself is folded into the key; elsewhere the child of that
/// number, and the child's name hash is folded in.
pub open spec fn resolve_in(schema: FlattenedSerializer, path: Seq<usize>) -> Option<
    (FlattenedSerializerField, u64),
>
    decreases path.len(),
{
    if path.len() == 0 {
        None
    } else if path.len() == 1 {
        match child_field(schema.fields@, path[0]) {
            Some(f) => Some((f, f.var_name_hash)),
            None => None,
        }
    } else {
        match resolve_in(schema, path.drop_last()) {
            Some((f, key)) => if f.is_dynamic_array {
                match child_field(f.children@, 0) {
                    Some(g) => Some(
                        (g, spec_add_u64_to_hash(key, spec_add_u64_to_hash(0, path.last() as u64))),
                    ),
                    None => None,
                }
            } else {
                match child_field(f.children@, path.last()) {
                    Some(g) => Some((g, spec_add_u64_to_hash(key, g.var_name_hash))),
                    None => None,
                }
            },
            None => None,
        }
    }
}

/// A path whose start picks nothing picks nothing.
pub proof fn lemma_unresolved_extends(schema: FlattenedSerializer, path: Seq<usize>, i: int)
    requires
        1 <= i <= path.len(),
        resolve_in(schema, path.take(i)) is None,
    ensures
        resolve_in(schema, path) is None,
    decreases path.len() - i,
{
    if i < path.len() {
        assert(path.take(i + 1).drop_last() =~= path.take(i));
        lemma_unresolved_extends(schema, path, i + 1);
    } else {
        assert(path.take(i) =~= path);
    }
}

/// The first schema of `list` whose name hash is `hash`.
pub open spec fn find_serializer(list: Seq<Rc<FlattenedSerializer>>, hash: u64) -> Option<
    Rc<FlattenedSerializer>,
>
    decreases list.len(),
{
    if list.len() == 0 {
        None
    } else {
        match find_serializer(list.drop_last(), hash) {
            Some(s) => Some(s),
            None => if list.last().serializer_name_hash == hash {
                Some(list.last())
            } else {
                None
            },
        }
    }
}

/// What is found in the start of a list is found in the list.
pub proof fn lemma_found_in_prefix(list: Seq<Rc<FlattenedSerializer>>, hash: u64, i: int)
    requires
        0 <= i <= list.len(),
        find_serializer(list.take(i), hash) is Some,
    ensures
        find_serializer(list, hash) == find_serializer(list.take(i), hash),
    decreases list.len() - i,
{
    if i < list.len() {
        assert(list.take(i + 1).drop_last() =~= list.take(i));
        lemma_found_in_prefix(list, hash, i + 1);
    } else {
        assert(list.take(i) =~= list);
    }
}

/// One more reference to the same schema.
///
/// Wraps `Rc::clone`, which hands back a pointer to the same allocation: the
/// result is the schema that `schema` points to.
#[verifier::external_body]
pub(crate) fn share_serializer(schema: &Rc<FlattenedSerializer>) -> (r: Rc<FlattenedSerializer>)
    ensures
        r == *schema,
{
    Rc::clone(schema)
}

impl FlattenedSerializerField {
    /// Child `i` of the field.
    fn child(&self, i: usize) -> (r: Option<&FlattenedSerializerField>)
        ensures
            match r {
                Some(f) => child_field(self.children@, i) == Some(*f),
                None => child_field(self.children@, i) is None,
            },
    {
        if i < self.children.len() {
            Some(&self.children[i])
        } else {
            None
        }
    }
}

impl FlattenedSerializer {
    /// The field that `fp` picks, with the key of the path; `None` where the
    /// path is empty or leaves the schema.
    pub fn resolve<'a>(&'a self, fp: &[usize]) -> (r: Option<(&'a FlattenedSerializerField, u64)>)
        ensures
            match r {
                Some((f, key)) => resolve_in(*self, fp@) == Some((*f, key)),
                None => resolve_in(*self, fp@) is None,
            },
    {
        if fp.len() == 0 {
            return None;
        }
        if fp[0] >= self.fields.len() {
            proof {
                lemma_unresolved_extends(*self, fp@, 1);
            }
            return None;
        }
        let mut field: &FlattenedSerializerField = &self.fields[fp[0]];
        let mut key: u64 = field.var_name_hash;
        let mut i: usize = 1;
        while i < fp.len()
            invariant
                1 <= i <= fp@.len(),
                resolve_in(*self, fp@.take(i as int)) == Some((*field, key)),
            decreases fp@.len() - i,
        {
            proof {
                assert(fp@.take(i + 1).drop_last() =~= fp@.take(i as int));
            }
            let next = if field.is_dynamic_array {
                field.child(0)
            } else {
                field.child(fp[i])
            };
            match next {
                Some(g) => {
                    key = if field.is_dynamic_array {
                        add_u64_to_hash(key, add_u64_to_hash(0, fp[i] as u64))
                    } else {
                        add_u64_to_hash(key, g.var_name_hash)
                    };
                    field = g;
                },
                None => {
                    proof {
                        lemma_unresolved_extends(*self, fp@, i + 1);
                    }
                    return None;
                },
            }
            i += 1;
        }
        proof {
            assert(fp@.take(i as int) =~= fp@);
        }
        Some((field, key))
    }
}

impl FlattenedSerializerContainer {
    /// The first schema whose name hash is `hash`.
    pub fn by_name_hash(&self, hash: u64) -> (r: Option<Rc<FlattenedSerializer>>)
        ensures
            r == find_serializer(self.serializers@, hash),
    {
        let mut i: usize = 0;
        while i < self.serializers.len()
            invariant
                i <= self.serializers@.len(),
                find_serializer(self.serializers@.take(i as int), hash) is None,
            decreases self.serializers@.len() - i,
        {
            proof {
                assert(self.serializers@.take(i + 1).drop_last() =~= self.serializers@.take(
                    i as int,
                ));
            }
            if self.serializers[i].serializer_name_hash == hash {
                proof {
                    lemma_found_in_prefix(self.serializers@, hash, i + 1);
                }
                return Some(share_serializer(&self.serializers[i]));
            }
            i += 1;
        }
        proof {
            assert(self.serializers@.take(i as int) =~= self.serializers@);
        }
        None
    }
}

} // verus!
