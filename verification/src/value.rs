//! Decoded scalar values and the reinterpretation of one byte group.

use vstd::prelude::*;
use crate::kind::{ByteOrder, ParseType};

verus! {

/// One decoded value. Integers are held as such; a float is held as its
/// IEEE-754 bit pattern, which a caller turns into a float with `from_bits`.
#[derive(Clone, Copy, Debug, PartialEq, Eq, Structural)]
pub enum ScalarValue {
    U8(u8),
    U16(u16),
    U32(u32),
    U64(u64),
    I8(i8),
    I16(i16),
    I32(i32),
    I64(i64),
    /// Bit pattern of a single-precision float.
    F32(u32),
    /// Bit pattern of a double-precision float.
    F64(u64),
}

/// 256 to the power `n`: the number of distinct groups of `n` bytes.
pub open spec fn radix_pow(n: nat) -> nat
    decreases n,
{
    if n == 0 {
        1
    } else {
        256 * radix_pow((n - 1) as nat)
    }
}

/// The number that `bytes` spell with the least significant byte first.
pub open spec fn unsigned_le(bytes: Seq<u8>) -> nat
    decreases bytes.len(),
{
    if bytes.len() == 0 {
        0
    } else {
        (bytes[0] as nat) + 256 * unsigned_le(bytes.skip(1))
    }
}

/// The number that `bytes` spell with the most significant byte first.
pub open spec fn unsigned_be(bytes: Seq<u8>) -> nat
    decreases bytes.len(),
{
    if bytes.len() == 0 {
        0
    } else {
        256 * unsigned_be(bytes.drop_last()) + (bytes.last() as nat)
    }
}

/// The unsigned number that a byte group spells in the given order.
pub open spec fn unsigned_of(order: ByteOrder, bytes: Seq<u8>) -> nat {
    match order {
        ByteOrder::LittleEndian => unsigned_le(bytes),
        ByteOrder::BigEndian => unsigned_be(bytes),
    }
}

/// The two's-complement reading of an unsigned number of `width` bytes.
pub open spec fn twos_complement(raw: nat, width: nat) -> int {
    if 2 * raw < radix_pow(width) {
        raw as int
    } else {
        raw - radix_pow(width)
    }
}

/// The value that a raw unsigned number stands for in the given kind.
pub open spec fn value_of_raw(kind: ParseType, raw: nat) -> ScalarValue {
    match kind {
        ParseType::U8 => ScalarValue::U8(raw as u8),
        ParseType::U16 => ScalarValue::U16(raw as u16),
        ParseType::U32 => ScalarValue::U32(raw as u32),
        ParseType::U64 => ScalarValue::U64(raw as u64),
        ParseType::I8 => ScalarValue::I8(twos_complement(raw, 1) as i8),
        ParseType::I16 => ScalarValue::I16(twos_complement(raw, 2) as i16),
        ParseType::I32 => ScalarValue::I32(twos_complement(raw, 4) as i32),
        ParseType::I64 => ScalarValue::I64(twos_complement(raw, 8) as i64),
        ParseType::F32 => ScalarValue::F32(raw as u32),
        ParseType::F64 => ScalarValue::F64(raw as u64),
    }
}

/// The value of kind `kind` that a group of exactly `kind.spec_width()` bytes
/// holds in byte order `order`.
pub open spec fn spec_decode(kind: ParseType, order: ByteOrder, bytes: Seq<u8>) -> ScalarValue {
    value_of_raw(kind, unsigned_of(order, bytes))
}

impl ScalarValue {
    /// The kind that this value was decoded as.
    pub open spec fn spec_kind(self) -> ParseType {
        match self {
            ScalarValue::U8(_) => ParseType::U8,
            ScalarValue::U16(_) => ParseType::U16,
            ScalarValue::U32(_) => ParseType::U32,
            ScalarValue::U64(_) => ParseType::U64,
            ScalarValue::I8(_) => ParseType::I8,
            ScalarValue::I16(_) => ParseType::I16,
            ScalarValue::I32(_) => ParseType::I32,
            ScalarValue::I64(_) => ParseType::I64,
            ScalarValue::F32(_) => ParseType::F32,
            ScalarValue::F64(_) => ParseType::F64,
        }
    }

    /// The kind that this value was decoded as.
    pub fn kind(&self) -> (k: ParseType)
        ensures
            k == self.spec_kind(),
    {
        match self {
            ScalarValue::U8(_) => ParseType::U8,
            ScalarValue::U16(_) => ParseType::U16,
            ScalarValue::U32(_) => ParseType::U32,
            ScalarValue::U64(_) => ParseType::U64,
            ScalarValue::I8(_) => ParseType::I8,
            ScalarValue::I16(_) => ParseType::I16,
            ScalarValue::I32(_) => ParseType::I32,
            ScalarValue::I64(_) => ParseType::I64,
            ScalarValue::F32(_) => ParseType::F32,
            ScalarValue::F64(_) => ParseType::F64,
        }
    }
}

/// The powers of 256 that the four widths reach.
pub proof fn lemma_radix_pow_values()
    ensures
        radix_pow(0) == 1,
        radix_pow(1) == 0x100,
        radix_pow(2) == 0x1_0000,
        radix_pow(4) == 0x1_0000_0000,
        radix_pow(8) == 0x1_0000_0000_0000_0000,
{
    reveal_with_fuel(radix_pow, 10);
}

/// A group of `n` bytes spells a number below 256 to the `n`, in either order.
pub proof fn lemma_unsigned_bound(order: ByteOrder, bytes: Seq<u8>)
    ensures
        unsigned_of(order, bytes) < radix_pow(bytes.len()),
    decreases bytes.len(),
{
    if bytes.len() > 0 {
        lemma_unsigned_bound(order, bytes.skip(1));
        lemma_unsigned_bound(order, bytes.drop_last());
    }
}

/// `radix_pow` grows with its exponent.
pub proof fn lemma_radix_pow_monotone(a: nat, b: nat)
    requires
        a <= b,
    ensures
        radix_pow(a) <= radix_pow(b),
        radix_pow(a) >= 1,
    decreases b,
{
    if a < b {
        lemma_radix_pow_monotone(a, (b - 1) as nat);
    } else if a > 0 {
        lemma_radix_pow_monotone((a - 1) as nat, (a - 1) as nat);
    }
}

/// The raw unsigned number spelled by the `len` bytes of `bytes` that start at
/// `start`.
fn raw_at(order: ByteOrder, bytes: &[u8], start: usize, len: usize) -> (raw: u64)
    requires
        len <= 8,
        start + len <= bytes@.len(),
    ensures
        raw == unsigned_of(order, bytes@.subrange(start as int, start + len)),
{
    let ghost group = bytes@.subrange(start as int, start + len);
    let total: usize = bytes.len();
    let mut acc: u64 = 0;
    let mut i: usize = 0;
    while i < len
        invariant
            i <= len <= 8,
            total == bytes@.len(),
            start + len <= total,
            group == bytes@.subrange(start as int, start + len),
            acc < radix_pow(i as nat),
            order == ByteOrder::BigEndian ==> acc == unsigned_be(group.take(i as int)),
            order == ByteOrder::LittleEndian ==> acc == unsigned_le(group.skip(len - i)),
        decreases len - i,
    {
        let at: usize = match order {
            ByteOrder::BigEndian => start + i,
            ByteOrder::LittleEndian => start + (len - 1 - i),
        };
        let b: u8 = bytes[at];
        proof {
            reveal_with_fuel(radix_pow, 10);
            assert(radix_pow(i as nat) <= radix_pow(7)) by {
                lemma_radix_pow_monotone(i as nat, 7);
            }
            assert(radix_pow((i + 1) as nat) == 256 * radix_pow(i as nat));
            match order {
                ByteOrder::BigEndian => {
                    let next = group.take(i + 1);
                    assert(next.drop_last() =~= group.take(i as int));
                    assert(next.last() == b);
                },
                ByteOrder::LittleEndian => {
                    let next = group.skip(len - i - 1);
                    assert(next.skip(1) =~= group.skip(len - i));
                    assert(next[0] == b);
                },
            }
        }
        acc = acc * 256 + (b as u64);
        i = i + 1;
    }
    proof {
        assert(group.take(len as int) =~= group);
        assert(group.skip(0) =~= group);
    }
    acc
}

/// Reads the group of `kind.width()` bytes that starts at `start` in `bytes`
/// as one value.
pub fn decode_at(kind: ParseType, order: ByteOrder, bytes: &[u8], start: usize) -> (value:
    ScalarValue)
    requires
        start + kind.spec_width() <= bytes@.len(),
    ensures
        value == spec_decode(
            kind,
            order,
            bytes@.subrange(start as int, start + kind.spec_width()),
        ),
{
    let width = kind.width();
    let raw = raw_at(order, bytes, start, width);
    proof {
        lemma_radix_pow_values();
        lemma_unsigned_bound(order, bytes@.subrange(start as int, start + kind.spec_width()));
    }
    match kind {
        ParseType::U8 => ScalarValue::U8(raw as u8),
        ParseType::U16 => ScalarValue::U16(raw as u16),
        ParseType::U32 => ScalarValue::U32(raw as u32),
        ParseType::U64 => ScalarValue::U64(raw),
        ParseType::I8 => ScalarValue::I8(
            if raw < 0x80 {
                raw as i8
            } else {
                i8::MIN + ((raw - 0x80) as i8)
            },
        ),
        ParseType::I16 => ScalarValue::I16(
            if raw < 0x8000 {
                raw as i16
            } else {
                i16::MIN + ((raw - 0x8000) as i16)
            },
        ),
        ParseType::I32 => ScalarValue::I32(
            if raw < 0x8000_0000 {
                raw as i32
            } else {
                i32::MIN + ((raw - 0x8000_0000) as i32)
            },
        ),
        ParseType::I64 => ScalarValue::I64(
            if raw < 0x8000_0000_0000_0000 {
                raw as i64
            } else {
                i64::MIN + ((raw - 0x8000_0000_0000_0000) as i64)
            },
        ),
        ParseType::F32 => ScalarValue::F32(raw as u32),
        ParseType::F64 => ScalarValue::F64(raw),
    }
}

/// Reads a group of exactly `kind.width()` bytes as one value. For the
/// one-byte kinds the byte order makes no difference.
pub fn decode(kind: ParseType, order: ByteOrder, bytes: &[u8]) -> (value: ScalarValue)
    requires
        bytes@.len() == kind.spec_width(),
    ensures
        value == spec_decode(kind, order, bytes@),
{
    proof {
        assert(bytes@.subrange(0, kind.spec_width() as int) =~= bytes@);
    }
    decode_at(kind, order, bytes, 0)
}

/// For a group of one byte both orders give the same value.
pub proof fn lemma_single_byte_ignores_order(kind: ParseType, bytes: Seq<u8>)
    requires
        bytes.len() == 1,
    ensures
        spec_decode(kind, ByteOrder::LittleEndian, bytes) == spec_decode(
            kind,
            ByteOrder::BigEndian,
            bytes,
        ),
{
    reveal_with_fuel(unsigned_le, 3);
    reveal_with_fuel(unsigned_be, 3);
}

} // verus!
