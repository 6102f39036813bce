//! Column data types: the closed set of scalar, join, label, object and
//! variant types a column can expose or store, and the inference of the
//! minimal integer storage width for a range of values.

use vstd::prelude::*;

verus! {

/// Data type of a column, either as seen by a consumer (`interface_type`) or
/// as actually stored in the generated table (`table_type`).
pub enum BaseType {
    Label { name: String },
    Bool,
    I8,
    I16,
    I32,
    I64,
    U8,
    U16,
    U32,
    U64,
    F32,
    F64,
    Str,
    Object { objtype: String },
    Join { strname: String },
    Variant,
}

/// The integer type picked for a closed range `[min, max]`: the smallest
/// signed width whose range covers `max(-min, max)` when `min` is negative,
/// otherwise the smallest unsigned width covering `max`.
pub open spec fn spec_int_type_for_range(min: int, max: int) -> BaseType {
    if min < 0 {
        let bound = if -min > max {
            -min
        } else {
            max
        };
        if bound <= 0x7F {
            BaseType::I8
        } else if bound <= 0x7FFF {
            BaseType::I16
        } else if bound <= 0x7FFF_FFFF {
            BaseType::I32
        } else {
            BaseType::I64
        }
    } else {
        if max <= 0xFF {
            BaseType::U8
        } else if max <= 0xFFFF {
            BaseType::U16
        } else if max <= 0xFFFF_FFFF {
            BaseType::U32
        } else {
            BaseType::U64
        }
    }
}

/// Integer type needed to handle values in the range `[min, max]`.
pub fn int_type_for_range(min: i64, max: i64) -> (t: BaseType)
    requires
        min <= max,
    ensures
        t == spec_int_type_for_range(min as int, max as int),
{
    if min < 0 {
        if min >= -0x7F && max <= 0x7F {
            BaseType::I8
        } else if min >= -0x7FFF && max <= 0x7FFF {
            BaseType::I16
        } else if min >= -0x7FFF_FFFF && max <= 0x7FFF_FFFF {
            BaseType::I32
        } else {
            BaseType::I64
        }
    } else {
        if max <= 0xFF {
            BaseType::U8
        } else if max <= 0xFFFF {
            BaseType::U16
        } else if max <= 0xFFFF_FFFF {
            BaseType::U32
        } else {
            BaseType::U64
        }
    }
}

/// Largest value an integer type can hold; 0 for non-integer types.
pub open spec fn spec_max(t: &BaseType) -> int {
    match t {
        BaseType::I8 => 0x7F,
        BaseType::I16 => 0x7FFF,
        BaseType::I32 => 0x7FFF_FFFF,
        BaseType::I64 => 0x7FFF_FFFF_FFFF_FFFF,
        BaseType::U8 => 0xFF,
        BaseType::U16 => 0xFFFF,
        BaseType::U32 => 0xFFFF_FFFF,
        BaseType::U64 => 0xFFFF_FFFF_FFFF_FFFF,
        _ => 0,
    }
}

/// Smallest value an integer type can hold; 0 for non-integer types.
pub open spec fn spec_min(t: &BaseType) -> int {
    match t {
        BaseType::I8 => -0x80,
        BaseType::I16 => -0x8000,
        BaseType::I32 => -0x8000_0000,
        BaseType::I64 => -0x8000_0000_0000_0000,
        _ => 0,
    }
}

impl BaseType {
    pub fn max(&self) -> (r: u64)
        ensures
            r as int == spec_max(self),
    {
        match self {
            BaseType::I8 => i8::MAX as u64,
            BaseType::I16 => i16::MAX as u64,
            BaseType::I32 => i32::MAX as u64,
            BaseType::I64 => i64::MAX as u64,
            BaseType::U8 => u8::MAX as u64,
            BaseType::U16 => u16::MAX as u64,
            BaseType::U32 => u32::MAX as u64,
            BaseType::U64 => u64::MAX,
            BaseType::Bool
            | BaseType::F32
            | BaseType::F64
            | BaseType::Str
            | BaseType::Label { .. }
            | BaseType::Join { .. }
            | BaseType::Object { .. }
            | BaseType::Variant => 0,
        }
    }

    pub fn min(&self) -> (r: i64)
        ensures
            r as int == spec_min(self),
    {
        match self {
            BaseType::I8 => i8::MIN as i64,
            BaseType::I16 => i16::MIN as i64,
            BaseType::I32 => i32::MIN as i64,
            BaseType::I64 => i64::MIN,
            BaseType::U8 => u8::MIN as i64,
            BaseType::U16 => u16::MIN as i64,
            BaseType::U32 => u32::MIN as i64,
            BaseType::U64 => u64::MIN as i64,
            BaseType::Bool
            | BaseType::F32
            | BaseType::F64
            | BaseType::Str
            | BaseType::Label { .. }
            | BaseType::Join { .. }
            | BaseType::Object { .. }
            | BaseType::Variant => 0,
        }
    }
}

} // verus!
