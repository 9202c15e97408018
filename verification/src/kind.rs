//! The closed set of scalar kinds and the two byte orders.

use vstd::prelude::*;

verus! {

/// A fixed-width numeric type that a byte group can be read as.
#[derive(Clone, Copy, Debug, PartialEq, Eq, Structural)]
pub enum ParseType {
    U8,
    U16,
    U32,
    U64,
    I8,
    I16,
    I32,
    I64,
    F32,
    F64,
}

/// The order in which the bytes of a multi-byte value lie in the stream.
#[derive(Clone, Copy, Debug, PartialEq, Eq, Structural)]
pub enum ByteOrder {
    /// Least significant byte first.
    LittleEndian,
    /// Most significant byte first.
    BigEndian,
}

impl ParseType {
    /// Number of bytes that one value of this kind occupies.
    pub open spec fn spec_width(self) -> nat {
        match self {
            ParseType::U8 | ParseType::I8 => 1,
            ParseType::U16 | ParseType::I16 => 2,
            ParseType::U32 | ParseType::I32 | ParseType::F32 => 4,
            ParseType::U64 | ParseType::I64 | ParseType::F64 => 8,
        }
    }

    /// Whether values of this kind are two's-complement signed integers.
    pub open spec fn spec_is_signed(self) -> bool {
        match self {
            ParseType::I8 | ParseType::I16 | ParseType::I32 | ParseType::I64 => true,
            _ => false,
        }
    }

    /// Byte width of the kind, as a buffer length.
    pub fn width(&self) -> (w: usize)
        ensures
            w == self.spec_width(),
            1 <= w <= 8,
    {
        match self {
            ParseType::U8 | ParseType::I8 => 1,
            ParseType::U16 | ParseType::I16 => 2,
            ParseType::U32 | ParseType::I32 | ParseType::F32 => 4,
            ParseType::U64 | ParseType::I64 | ParseType::F64 => 8,
        }
    }

    /// Byte width of the kind, as a signed count.
    pub fn size_of(&self) -> (n: i64)
        ensures
            n == self.spec_width(),
    {
        match self {
            ParseType::U8 | ParseType::I8 => 1,
            ParseType::U16 | ParseType::I16 => 2,
            ParseType::U32 | ParseType::I32 | ParseType::F32 => 4,
            ParseType::U64 | ParseType::I64 | ParseType::F64 => 8,
        }
    }
}

impl ByteOrder {
    /// The name of the byte order as it is written on a command line.
    pub fn name(&self) -> (s: &'static str)
        ensures
            s@ == (match *self {
                ByteOrder::LittleEndian => "little-endian"@,
                ByteOrder::BigEndian => "big-endian"@,
            }),
    {
        match self {
            ByteOrder::LittleEndian => "little-endian",
            ByteOrder::BigEndian => "big-endian",
        }
    }
}

} // verus!
