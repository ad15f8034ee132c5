//! The values that decoders produce and field states hold.

use crate::entities::Error;
use vstd::prelude::*;

verus! {

/// One decoded field value.
///
/// Floating-point payloads are held as their IEEE-754 bit patterns, so that a
/// value can be stored, copied and compared bit for bit.
#[derive(Debug, Clone, PartialEq, Eq)]
pub enum FieldValue {
    Bool(bool),
    I8(i8),
    I16(i16),
    I32(i32),
    I64(i64),
    U8(u8),
    U16(u16),
    U32(u32),
    U64(u64),
    /// The bits of an `f32`.
    F32(u32),
    String(String),
    /// The bits of two `f32`s.
    Vector2([u32; 2]),
    /// The bits of three `f32`s.
    Vector3([u32; 3]),
    /// The bits of four `f32`s.
    Vector4([u32; 4]),
    /// The bits of four `f32`s.
    Quaternion([u32; 4]),
    /// A networked entity handle.
    Handle(u32),
}

impl FieldValue {
    /// The value as a `bool`; `FieldValueInvalidConversion` where it is of
    /// another variant.
    pub fn try_into_bool(&self) -> (r: Result<bool, Error>)
        ensures
            match r {
                Ok(v) => *self == FieldValue::Bool(v),
                Err(e) => e == Error::FieldValueInvalidConversion && !(self is Bool),
            },
    {
        match self {
            FieldValue::Bool(v) => Ok(*v),
            _ => Err(Error::FieldValueInvalidConversion),
        }
    }

    /// The value as an `i32`; `FieldValueInvalidConversion` where it is of
    /// another variant.
    pub fn try_into_i32(&self) -> (r: Result<i32, Error>)
        ensures
            match r {
                Ok(v) => *self == FieldValue::I32(v),
                Err(e) => e == Error::FieldValueInvalidConversion && !(self is I32),
            },
    {
        match self {
            FieldValue::I32(v) => Ok(*v),
            _ => Err(Error::FieldValueInvalidConversion),
        }
    }

    /// The value as an `i64`; `FieldValueInvalidConversion` where it is of
    /// another variant.
    pub fn try_into_i64(&self) -> (r: Result<i64, Error>)
        ensures
            match r {
                Ok(v) => *self == FieldValue::I64(v),
                Err(e) => e == Error::FieldValueInvalidConversion && !(self is I64),
            },
    {
        match self {
            FieldValue::I64(v) => Ok(*v),
            _ => Err(Error::FieldValueInvalidConversion),
        }
    }

    /// The value as a `u32`; `FieldValueInvalidConversion` where it is of
    /// another variant.
    pub fn try_into_u32(&self) -> (r: Result<u32, Error>)
        ensures
            match r {
                Ok(v) => *self == FieldValue::U32(v),
                Err(e) => e == Error::FieldValueInvalidConversion && !(self is U32),
            },
    {
        match self {
            FieldValue::U32(v) => Ok(*v),
            _ => Err(Error::FieldValueInvalidConversion),
        }
    }

    /// The value as a `u64`; `FieldValueInvalidConversion` where it is of
    /// another variant.
    pub fn try_into_u64(&self) -> (r: Result<u64, Error>)
        ensures
            match r {
                Ok(v) => *self == FieldValue::U64(v),
                Err(e) => e == Error::FieldValueInvalidConversion && !(self is U64),
            },
    {
        match self {
            FieldValue::U64(v) => Ok(*v),
            _ => Err(Error::FieldValueInvalidConversion),
        }
    }

    /// A copy of the value.
    pub fn duplicate(&self) -> (r: FieldValue)
        ensures
            r == *self,
    {
        match self {
            FieldValue::Bool(v) => FieldValue::Bool(*v),
            FieldValue::I8(v) => FieldValue::I8(*v),
            FieldValue::I16(v) => FieldValue::I16(*v),
            FieldValue::I32(v) => FieldValue::I32(*v),
            FieldValue::I64(v) => FieldValue::I64(*v),
            FieldValue::U8(v) => FieldValue::U8(*v),
            FieldValue::U16(v) => FieldValue::U16(*v),
            FieldValue::U32(v) => FieldValue::U32(*v),
            FieldValue::U64(v) => FieldValue::U64(*v),
            FieldValue::F32(v) => FieldValue::F32(*v),
            FieldValue::String(v) => FieldValue::String(v.clone()),
            FieldValue::Vector2(v) => FieldValue::Vector2(*v),
            FieldValue::Vector3(v) => FieldValue::Vector3(*v),
            FieldValue::Vector4(v) => FieldValue::Vector4(*v),
            FieldValue::Quaternion(v) => FieldValue::Quaternion(*v),
            FieldValue::Handle(v) => FieldValue::Handle(*v),
        }
    }
}

} // verus!
