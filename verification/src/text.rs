//! The printed form of integer values: decimal digits in ASCII, with a minus
//! sign before a negative number.

use vstd::prelude::*;
use crate::value::ScalarValue;

verus! {

/// The ASCII code of the digit `d`.
pub open spec fn digit_byte(d: nat) -> u8 {
    (48 + d) as u8
}

/// The decimal digits of `n` in ASCII, most significant first, without
/// leading zeros; zero is the single digit `0`.
pub open spec fn spec_digits(n: nat) -> Seq<u8>
    decreases n,
{
    if n < 10 {
        seq![digit_byte(n)]
    } else {
        spec_digits(n / 10).push(digit_byte(n % 10))
    }
}

/// The decimal text of an integer in ASCII: a minus sign for a negative
/// number, then the digits of its magnitude.
pub open spec fn spec_integer_text(v: int) -> Seq<u8> {
    if v < 0 {
        seq![45u8] + spec_digits((-v) as nat)
    } else {
        spec_digits(v as nat)
    }
}

impl ScalarValue {
    /// The integer that the value holds; `None` for a float.
    pub open spec fn spec_integer(self) -> Option<int> {
        match self {
            ScalarValue::U8(v) => Some(v as int),
            ScalarValue::U16(v) => Some(v as int),
            ScalarValue::U32(v) => Some(v as int),
            ScalarValue::U64(v) => Some(v as int),
            ScalarValue::I8(v) => Some(v as int),
            ScalarValue::I16(v) => Some(v as int),
            ScalarValue::I32(v) => Some(v as int),
            ScalarValue::I64(v) => Some(v as int),
            ScalarValue::F32(_) => None,
            ScalarValue::F64(_) => None,
        }
    }

    /// The decimal text of an integer value in ASCII; `None` for a float,
    /// whose text is made from its bit pattern by the caller.
    pub fn integer_text(&self) -> (text: Option<Vec<u8>>)
        ensures
            match text {
                Some(bytes) => self.spec_integer() is Some && bytes@ == spec_integer_text(
                    self.spec_integer()->Some_0,
                ),
                None => self.spec_integer() is None,
            },
    {
        let mut out: Vec<u8> = Vec::new();
        match *self {
            ScalarValue::U8(v) => push_unsigned(v as u64, &mut out),
            ScalarValue::U16(v) => push_unsigned(v as u64, &mut out),
            ScalarValue::U32(v) => push_unsigned(v as u64, &mut out),
            ScalarValue::U64(v) => push_unsigned(v, &mut out),
            ScalarValue::I8(v) => push_signed(v as i64, &mut out),
            ScalarValue::I16(v) => push_signed(v as i64, &mut out),
            ScalarValue::I32(v) => push_signed(v as i64, &mut out),
            ScalarValue::I64(v) => push_signed(v, &mut out),
            ScalarValue::F32(_) => {
                return None;
            },
            ScalarValue::F64(_) => {
                return None;
            },
        }
        Some(out)
    }
}

/// Appends the decimal digits of `n` to `out`.
pub fn push_unsigned(n: u64, out: &mut Vec<u8>)
    ensures
        final(out)@ == old(out)@ + spec_digits(n as nat),
    decreases n,
{
    if n >= 10 {
        push_unsigned(n / 10, out);
    }
    let digit: u8 = (n % 10) as u8;
    out.push(48 + digit);
    proof {
        assert(final(out)@ =~= old(out)@ + spec_digits(n as nat));
    }
}

/// Appends the decimal text of `v` to `out`.
pub fn push_signed(v: i64, out: &mut Vec<u8>)
    ensures
        final(out)@ == old(out)@ + spec_integer_text(v as int),
{
    if v < 0 {
        out.push(45);
        let magnitude: u64 = ((-(v + 1)) as u64) + 1;
        push_unsigned(magnitude, out);
        proof {
            assert(final(out)@ =~= old(out)@ + spec_integer_text(v as int));
        }
    } else {
        push_unsigned(v as u64, out);
    }
}

} // verus!
