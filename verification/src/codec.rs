//! The byte groups that spell a value, and the law that decoding undoes them.

use vstd::prelude::*;
use vstd::arithmetic::div_mod::lemma_fundamental_div_mod_converse;
use crate::groups::{
    decode_groups,
    group_at,
    lemma_decode_groups_split,
    lemma_whole_groups,
    remainder,
};
use crate::kind::{ByteOrder, ParseType};
use crate::value::{
    lemma_radix_pow_values,
    radix_pow,
    spec_decode,
    unsigned_be,
    unsigned_le,
    ScalarValue,
};

verus! {

/// The `width` bytes that spell `raw`, least significant first.
pub open spec fn bytes_le(raw: nat, width: nat) -> Seq<u8>
    decreases width,
{
    if width == 0 {
        Seq::empty()
    } else {
        seq![(raw % 256) as u8] + bytes_le(raw / 256, (width - 1) as nat)
    }
}

/// The `width` bytes that spell `raw`, most significant first.
pub open spec fn bytes_be(raw: nat, width: nat) -> Seq<u8>
    decreases width,
{
    if width == 0 {
        Seq::empty()
    } else {
        bytes_be(raw / 256, (width - 1) as nat).push((raw % 256) as u8)
    }
}

/// The unsigned number whose two's-complement reading in `width` bytes is
/// `signed`.
pub open spec fn raw_of_signed(signed: int, width: nat) -> nat {
    if signed >= 0 {
        signed as nat
    } else {
        (signed + radix_pow(width)) as nat
    }
}

/// The raw unsigned number that stands for a value.
pub open spec fn raw_of_value(value: ScalarValue) -> nat {
    match value {
        ScalarValue::U8(x) => x as nat,
        ScalarValue::U16(x) => x as nat,
        ScalarValue::U32(x) => x as nat,
        ScalarValue::U64(x) => x as nat,
        ScalarValue::I8(x) => raw_of_signed(x as int, 1),
        ScalarValue::I16(x) => raw_of_signed(x as int, 2),
        ScalarValue::I32(x) => raw_of_signed(x as int, 4),
        ScalarValue::I64(x) => raw_of_signed(x as int, 8),
        ScalarValue::F32(x) => x as nat,
        ScalarValue::F64(x) => x as nat,
    }
}

/// The byte group that holds `value` in byte order `order`.
pub open spec fn spec_encode(order: ByteOrder, value: ScalarValue) -> Seq<u8> {
    match order {
        ByteOrder::LittleEndian => bytes_le(raw_of_value(value), value.spec_kind().spec_width()),
        ByteOrder::BigEndian => bytes_be(raw_of_value(value), value.spec_kind().spec_width()),
    }
}

/// The byte groups of `values`, one after the other.
pub open spec fn spec_encode_all(order: ByteOrder, values: Seq<ScalarValue>) -> Seq<u8>
    decreases values.len(),
{
    if values.len() == 0 {
        Seq::empty()
    } else {
        spec_encode_all(order, values.drop_last()) + spec_encode(order, values.last())
    }
}

/// The bytes that spell a number below 256 to the `width` spell it back, in
/// either order.
pub proof fn lemma_bytes_spell_raw(raw: nat, width: nat)
    requires
        raw < radix_pow(width),
    ensures
        bytes_le(raw, width).len() == width,
        bytes_be(raw, width).len() == width,
        unsigned_le(bytes_le(raw, width)) == raw,
        unsigned_be(bytes_be(raw, width)) == raw,
    decreases width,
{
    if width > 0 {
        let high = raw / 256;
        lemma_bytes_spell_raw(high, (width - 1) as nat);
        let le = bytes_le(raw, width);
        assert(le.skip(1) =~= bytes_le(high, (width - 1) as nat));
        let be = bytes_be(raw, width);
        assert(be.drop_last() =~= bytes_be(high, (width - 1) as nat));
    }
}

/// Decoding the byte group of a value gives the value back.
pub proof fn lemma_decode_encode(order: ByteOrder, value: ScalarValue)
    ensures
        spec_encode(order, value).len() == value.spec_kind().spec_width(),
        spec_decode(value.spec_kind(), order, spec_encode(order, value)) == value,
{
    lemma_radix_pow_values();
    let raw = raw_of_value(value);
    lemma_bytes_spell_raw(raw, value.spec_kind().spec_width());
}

/// Every value of `values` is of kind `kind`.
pub open spec fn all_of_kind(kind: ParseType, values: Seq<ScalarValue>) -> bool {
    forall|i: int| 0 <= i < values.len() ==> (#[trigger] values[i]).spec_kind() == kind
}

/// Round trip: the byte groups of any values of one kind, written one after
/// the other in one byte order, decode to the same values in the same order.
pub proof fn lemma_round_trip(kind: ParseType, order: ByteOrder, values: Seq<ScalarValue>)
    requires
        all_of_kind(kind, values),
    ensures
        spec_encode_all(order, values).len() == values.len() * kind.spec_width(),
        decode_groups(kind, order, spec_encode_all(order, values)) == values,
    decreases values.len(),
{
    let w = kind.spec_width() as int;
    if values.len() == 0 {
        lemma_whole_groups(w, 0);
        assert(decode_groups(kind, order, Seq::<u8>::empty()) =~= values);
    } else {
        let front = values.drop_last();
        let head = spec_encode_all(order, front);
        let tail = spec_encode(order, values.last());
        lemma_round_trip(kind, order, front);
        lemma_decode_encode(order, values.last());
        lemma_decode_groups_split(kind, order, head, tail);
        assert(values.len() * w == front.len() * w + w) by (nonlinear_arith)
            requires
                values.len() == front.len() + 1,
        ;
        lemma_fundamental_div_mod_converse(
            head.len() as int,
            w,
            front.len() as int,
            0,
        );
        assert(remainder(kind, head) + tail =~= tail);
        lemma_fundamental_div_mod_converse(tail.len() as int, w, 1, 0);
        assert(group_at(tail, w as nat, 0) =~= tail);
        assert(decode_groups(kind, order, tail) =~= seq![values.last()]);
        assert(front + seq![values.last()] =~= values);
    }
}

} // verus!
