//! Values of columns.

use vstd::prelude::*;

verus! {

/// A floating-point number by its IEEE 754 bits, in the width it was sent in.
#[derive(Debug, Clone, Copy, PartialEq, Eq)]
pub enum FloatBits {
    Single(u32),
    Double(u64),
}

/// A value of a column.
#[derive(Debug, Clone, PartialEq, Eq)]
pub enum Value {
    NULL,
    Bytes(Vec<u8>),
    Int(i64),
    UInt(u64),
    Float(FloatBits),
    /// year, month, day, hour, minutes, seconds, micro seconds
    Date(u16, u8, u8, u8, u8, u8, u32),
    /// is negative, days, hours, minutes, seconds, micro seconds
    Time(bool, u32, u8, u8, u8, u32),
}

/// A value of a column, over unbounded numbers.
pub enum ValueView {
    NULL,
    Bytes(Seq<u8>),
    Int(int),
    UInt(nat),
    Single(nat),
    Double(nat),
    Date(nat, u8, u8, u8, u8, u8, nat),
    Time(bool, nat, u8, u8, u8, nat),
}

impl View for Value {
    type V = ValueView;

    open spec fn view(&self) -> ValueView {
        match *self {
            Value::NULL => ValueView::NULL,
            Value::Bytes(bytes) => ValueView::Bytes(bytes@),
            Value::Int(i) => ValueView::Int(i as int),
            Value::UInt(u) => ValueView::UInt(u as nat),
            Value::Float(FloatBits::Single(bits)) => ValueView::Single(bits as nat),
            Value::Float(FloatBits::Double(bits)) => ValueView::Double(bits as nat),
            Value::Date(y, m, d, h, min, s, us) => ValueView::Date(
                y as nat, m, d, h, min, s, us as nat,
            ),
            Value::Time(neg, d, h, m, s, us) => ValueView::Time(neg, d as nat, h, m, s, us as nat),
        }
    }
}

} // verus!
