use vstd::prelude::*;

verus! {

/// A dynamically-typed component field value.
///
/// Floating-point values are carried as their IEEE-754 bit patterns
/// (`f32::to_bits` / `f64::to_bits`): storage only ever moves their
/// little-endian bytes, which are exactly the little-endian bytes of the bits.
#[derive(Clone, Copy, Debug, PartialEq, Eq, Structural)]
pub enum ComponentValue {
    F32(u32),
    F64(u64),
    I8(i8),
    I16(i16),
    I32(i32),
    I64(i64),
    U8(u8),
    U16(u16),
    U32(u32),
    U64(u64),
    Bool(bool),
}

impl ComponentValue {
    /// The bit pattern of an `F32` value.
    pub fn as_f32(&self) -> (r: Option<u32>)
        ensures
            r == (match *self {
                ComponentValue::F32(v) => Some(v),
                _ => None,
            }),
    {
        if let ComponentValue::F32(v) = self {
            Some(*v)
        } else {
            None
        }
    }

    /// The bit pattern of an `F64` value.
    pub fn as_f64(&self) -> (r: Option<u64>)
        ensures
            r == (match *self {
                ComponentValue::F64(v) => Some(v),
                _ => None,
            }),
    {
        if let ComponentValue::F64(v) = self {
            Some(*v)
        } else {
            None
        }
    }

    pub fn as_i32(&self) -> (r: Option<i32>)
        ensures
            r == (match *self {
                ComponentValue::I32(v) => Some(v),
                _ => None,
            }),
    {
        if let ComponentValue::I32(v) = self {
            Some(*v)
        } else {
            None
        }
    }

    pub fn as_u32(&self) -> (r: Option<u32>)
        ensures
            r == (match *self {
                ComponentValue::U32(v) => Some(v),
                _ => None,
            }),
    {
        if let ComponentValue::U32(v) = self {
            Some(*v)
        } else {
            None
        }
    }

    pub fn as_bool(&self) -> (r: Option<bool>)
        ensures
            r == (match *self {
                ComponentValue::Bool(v) => Some(v),
                _ => None,
            }),
    {
        if let ComponentValue::Bool(v) = self {
            Some(*v)
        } else {
            None
        }
    }
}

} // verus!
