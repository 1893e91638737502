use vstd::prelude::*;

verus! {

/// The kind of a scalar value.
#[derive(Debug, Clone, Copy, PartialEq, Eq, Structural)]
pub enum ValueType {
    Null,
    Int8,
    UInt8,
    Int16,
    UInt16,
    Int32,
    UInt32,
    Int64,
    UInt64,
    Float,
    Double,
    Boolean,
    String,
}

/// A scalar value. Floating-point values are held as their IEEE-754 bit
/// patterns; strings as their bytes, without a terminator.
#[derive(Debug, Clone)]
pub enum Value {
    Null,
    Int8(i8),
    UInt8(u8),
    Int16(i16),
    UInt16(u16),
    Int32(i32),
    UInt32(u32),
    Int64(i64),
    UInt64(u64),
    Float(u32),
    Double(u64),
    Boolean(bool),
    String(Vec<u8>),
}

pub open spec fn type_of(v: Value) -> ValueType {
    match v {
        Value::Null => ValueType::Null,
        Value::Int8(_) => ValueType::Int8,
        Value::UInt8(_) => ValueType::UInt8,
        Value::Int16(_) => ValueType::Int16,
        Value::UInt16(_) => ValueType::UInt16,
        Value::Int32(_) => ValueType::Int32,
        Value::UInt32(_) => ValueType::UInt32,
        Value::Int64(_) => ValueType::Int64,
        Value::UInt64(_) => ValueType::UInt64,
        Value::Float(_) => ValueType::Float,
        Value::Double(_) => ValueType::Double,
        Value::Boolean(_) => ValueType::Boolean,
        Value::String(_) => ValueType::String,
    }
}

/// The integer that an integer or boolean value stands for; 0 for the rest.
pub open spec fn int_of(v: Value) -> int {
    match v {
        Value::Int8(x) => x as int,
        Value::UInt8(x) => x as int,
        Value::Int16(x) => x as int,
        Value::UInt16(x) => x as int,
        Value::Int32(x) => x as int,
        Value::UInt32(x) => x as int,
        Value::Int64(x) => x as int,
        Value::UInt64(x) => x as int,
        Value::Boolean(b) => if b { 1 } else { 0 },
        _ => 0,
    }
}

/// Values of these kinds convert to integers.
pub open spec fn is_integral(v: Value) -> bool {
    match v {
        Value::Float(_) | Value::Double(_) | Value::String(_) => false,
        _ => true,
    }
}

/// `x` modulo 2^64.
pub fn wrap_u64(x: i64) -> (r: u64)
    ensures
        r as int == (if x < 0 { x + 0x1_0000_0000_0000_0000 } else { x as int }),
{
    if x < 0 {
        u64::MAX - ((-(x + 1)) as u64)
    } else {
        x as u64
    }
}

impl Value {
    pub fn get_type(&self) -> (r: ValueType)
        ensures
            r == type_of(*self),
    {
        match self {
            Value::Null => ValueType::Null,
            Value::Int8(_) => ValueType::Int8,
            Value::UInt8(_) => ValueType::UInt8,
            Value::Int16(_) => ValueType::Int16,
            Value::UInt16(_) => ValueType::UInt16,
            Value::Int32(_) => ValueType::Int32,
            Value::UInt32(_) => ValueType::UInt32,
            Value::Int64(_) => ValueType::Int64,
            Value::UInt64(_) => ValueType::UInt64,
            Value::Float(_) => ValueType::Float,
            Value::Double(_) => ValueType::Double,
            Value::Boolean(_) => ValueType::Boolean,
            Value::String(_) => ValueType::String,
        }
    }

    /// The value as a signed 64-bit integer: integers are widened, or wrapped
    /// for a `u64` above `i64::MAX`; booleans are 0 or 1; the rest is 0.
    pub fn as_i64(&self) -> (r: i64)
        ensures
            r as int == (if int_of(*self) > i64::MAX { int_of(*self) - 0x1_0000_0000_0000_0000 } else { int_of(*self) }),
    {
        match self {
            Value::Int8(v) => *v as i64,
            Value::UInt8(v) => *v as i64,
            Value::Int16(v) => *v as i64,
            Value::UInt16(v) => *v as i64,
            Value::Int32(v) => *v as i64,
            Value::UInt32(v) => *v as i64,
            Value::Int64(v) => *v,
            Value::UInt64(v) => if *v > i64::MAX as u64 {
                ((*v - 0x8000_0000_0000_0000u64) as i64) + i64::MIN
            } else {
                *v as i64
            },
            Value::Boolean(v) => if *v { 1 } else { 0 },
            _ => 0,
        }
    }

    /// The value as an unsigned 64-bit integer: integers are widened, or
    /// wrapped modulo 2^64 when negative; booleans are 0 or 1; the rest is 0.
    pub fn as_u64(&self) -> (r: u64)
        ensures
            r as int == (if int_of(*self) < 0 { int_of(*self) + 0x1_0000_0000_0000_0000 } else { int_of(*self) }),
    {
        match self {
            Value::Int8(v) => wrap_u64(*v as i64),
            Value::UInt8(v) => *v as u64,
            Value::Int16(v) => wrap_u64(*v as i64),
            Value::UInt16(v) => *v as u64,
            Value::Int32(v) => wrap_u64(*v as i64),
            Value::UInt32(v) => *v as u64,
            Value::Int64(v) => wrap_u64(*v),
            Value::UInt64(v) => *v,
            Value::Boolean(v) => if *v { 1 } else { 0 },
            _ => 0,
        }
    }

    /// Whether an integer or boolean value is non-zero; false for the rest.
    pub fn as_bool(&self) -> (r: bool)
        ensures
            r == (int_of(*self) != 0),
    {
        match self {
            Value::Int8(v) => *v != 0,
            Value::UInt8(v) => *v != 0,
            Value::Int16(v) => *v != 0,
            Value::UInt16(v) => *v != 0,
            Value::Int32(v) => *v != 0,
            Value::UInt32(v) => *v != 0,
            Value::Int64(v) => *v != 0,
            Value::UInt64(v) => *v != 0,
            Value::Boolean(v) => *v,
            _ => false,
        }
    }

    /// The bytes of a string value; empty for the rest.
    pub fn as_str(&self) -> (r: &[u8])
        ensures
            r@ == (match *self {
                Value::String(s) => s@,
                _ => Seq::<u8>::empty(),
            }),
    {
        match self {
            Value::String(v) => v.as_slice(),
            _ => &[],
        }
    }
}

} // verus!
