//! The reading of a whole byte stream as consecutive groups of one width,
//! and the laws that let a stream be decoded piece by piece.

use vstd::prelude::*;
use vstd::arithmetic::div_mod::{
    lemma_fundamental_div_mod,
    lemma_fundamental_div_mod_converse,
    lemma_mod_pos_bound,
};
use crate::kind::{ByteOrder, ParseType};
use crate::value::{spec_decode, ScalarValue};

verus! {

/// The `index`-th group of `width` bytes in `bytes`.
pub open spec fn group_at(bytes: Seq<u8>, width: nat, index: int) -> Seq<u8> {
    bytes.subrange(index * width, index * width + width)
}

/// The values of all complete groups of `bytes`, in stream order. Trailing
/// bytes that do not fill a group contribute nothing.
pub open spec fn decode_groups(kind: ParseType, order: ByteOrder, bytes: Seq<u8>) -> Seq<
    ScalarValue,
> {
    Seq::new(
        bytes.len() / kind.spec_width(),
        |i: int| spec_decode(kind, order, group_at(bytes, kind.spec_width(), i)),
    )
}

/// The bytes of `bytes` that follow its last complete group: always fewer
/// than one width.
pub open spec fn remainder(kind: ParseType, bytes: Seq<u8>) -> Seq<u8> {
    bytes.skip(((bytes.len() / kind.spec_width()) * kind.spec_width()) as int)
}

/// Adding whole multiples of `w` moves the quotient and keeps the remainder.
pub proof fn lemma_div_mod_shift(w: int, q: int, x: int)
    requires
        w > 0,
        x >= 0,
    ensures
        (q * w + x) / w == q + x / w,
        (q * w + x) % w == x % w,
        0 <= x % w < w,
        x == (x / w) * w + x % w,
{
    lemma_fundamental_div_mod(x, w);
    lemma_mod_pos_bound(x, w);
    assert(x == (x / w) * w + x % w) by (nonlinear_arith)
        requires
            x == w * (x / w) + x % w,
    ;
    assert(q * w + x == (q + x / w) * w + x % w) by (nonlinear_arith)
        requires
            x == (x / w) * w + x % w,
    ;
    lemma_fundamental_div_mod_converse(q * w + x, w, q + x / w, x % w);
}

/// The bounds of the `i`-th of `q` groups of width `w`.
pub proof fn lemma_group_bounds(w: int, q: int, i: int)
    requires
        w > 0,
        0 <= i < q,
    ensures
        0 <= i * w,
        i * w + w <= q * w,
{
    assert(0 <= i * w && i * w + w <= q * w) by (nonlinear_arith)
        requires
            w > 0,
            0 <= i < q,
    ;
}

/// A stream of `len` bytes holds `len / w` complete groups, which end at or
/// before `len`, and fewer than `w` bytes follow them.
pub proof fn lemma_whole_groups(w: int, len: int)
    requires
        w > 0,
        len >= 0,
    ensures
        0 <= (len / w) * w <= len,
        len - (len / w) * w == len % w,
        0 <= len % w < w,
        0 <= len / w,
{
    lemma_div_mod_shift(w, 0, len);
    assert(len / w >= 0) by (nonlinear_arith)
        requires
            len == (len / w) * w + len % w,
            0 <= len % w < w,
            w > 0,
            len >= 0,
    ;
}

/// The remainder of a stream is shorter than one group.
pub proof fn lemma_remainder_len(kind: ParseType, bytes: Seq<u8>)
    ensures
        remainder(kind, bytes).len() == bytes.len() % kind.spec_width(),
        remainder(kind, bytes).len() < kind.spec_width(),
{
    lemma_whole_groups(kind.spec_width() as int, bytes.len() as int);
}

/// Decoding a stream piece by piece: the values of `head + tail` are those of
/// `head` followed by those of what `head` left undecoded joined with `tail`,
/// and the same bytes are left over at the end.
pub proof fn lemma_decode_groups_split(
    kind: ParseType,
    order: ByteOrder,
    head: Seq<u8>,
    tail: Seq<u8>,
)
    ensures
        decode_groups(kind, order, head + tail) == decode_groups(kind, order, head)
            + decode_groups(kind, order, remainder(kind, head) + tail),
        remainder(kind, head + tail) == remainder(kind, remainder(kind, head) + tail),
{
    let w = kind.spec_width() as int;
    let whole = head + tail;
    let q = head.len() as int / w;
    let rest = remainder(kind, head) + tail;
    lemma_whole_groups(w, head.len() as int);
    lemma_whole_groups(w, rest.len() as int);
    lemma_div_mod_shift(w, q, rest.len() as int);
    assert(whole.len() == q * w + rest.len());
    let p = rest.len() as int / w;
    let left = decode_groups(kind, order, whole);
    let right = decode_groups(kind, order, head) + decode_groups(kind, order, rest);
    assert(left.len() == q + p);
    assert(right.len() == q + p);
    assert forall|i: int| 0 <= i < q + p implies left[i] == right[i] by {
        if i < q {
            lemma_group_bounds(w, q, i);
            assert(group_at(whole, w as nat, i) =~= group_at(head, w as nat, i));
        } else {
            lemma_group_bounds(w, p, i - q);
            assert(i * w == q * w + (i - q) * w) by (nonlinear_arith);
            assert(group_at(whole, w as nat, i) =~= group_at(rest, w as nat, i - q));
        }
    }
    assert(left =~= right);
    assert((q + p) * w == q * w + p * w) by (nonlinear_arith);
    assert(remainder(kind, whole) =~= remainder(kind, rest));
}

/// The number of decoded values is the stream's length divided by the width,
/// rounded down, and each value is the reinterpretation of its own group.
pub proof fn lemma_decode_groups_shape(kind: ParseType, order: ByteOrder, bytes: Seq<u8>)
    ensures
        decode_groups(kind, order, bytes).len() == bytes.len() / kind.spec_width(),
        forall|i: int|
            0 <= i < bytes.len() / kind.spec_width() ==> #[trigger] decode_groups(
                kind,
                order,
                bytes,
            )[i] == spec_decode(kind, order, group_at(bytes, kind.spec_width(), i)),
{
    lemma_whole_groups(kind.spec_width() as int, bytes.len() as int);
}

/// Trailing bytes that do not fill a group never show: a stream of
/// `width * k + r` bytes with `r < width` has exactly `k` values, those of its
/// first `width * k` bytes.
pub proof fn lemma_partial_group_dropped(
    kind: ParseType,
    order: ByteOrder,
    bytes: Seq<u8>,
    k: nat,
    r: nat,
)
    requires
        bytes.len() == kind.spec_width() * k + r,
        r < kind.spec_width(),
    ensures
        decode_groups(kind, order, bytes).len() == k,
        decode_groups(kind, order, bytes) == decode_groups(
            kind,
            order,
            bytes.take((kind.spec_width() * k) as int),
        ),
{
    let w = kind.spec_width() as int;
    assert(w * k == k * w) by (nonlinear_arith);
    lemma_fundamental_div_mod_converse(bytes.len() as int, w, k as int, r as int);
    let head = bytes.take(w * k);
    lemma_fundamental_div_mod_converse(head.len() as int, w, k as int, 0);
    let whole = decode_groups(kind, order, bytes);
    let cut = decode_groups(kind, order, head);
    assert forall|i: int| 0 <= i < k implies whole[i] == cut[i] by {
        lemma_group_bounds(w, k as int, i);
        assert(group_at(bytes, w as nat, i) =~= group_at(head, w as nat, i));
    }
    assert(whole =~= cut);
}

/// Starting at an offset that is a multiple of the width gives the values of
/// the whole stream without the first `offset / width` of them.
pub proof fn lemma_offset_skips_values(
    kind: ParseType,
    order: ByteOrder,
    bytes: Seq<u8>,
    offset: nat,
)
    requires
        offset <= bytes.len(),
        offset % kind.spec_width() == 0,
    ensures
        decode_groups(kind, order, bytes.skip(offset as int)) == decode_groups(
            kind,
            order,
            bytes,
        ).skip((offset / kind.spec_width()) as int),
{
    let w = kind.spec_width() as int;
    let s = offset as int / w;
    lemma_whole_groups(w, offset as int);
    let tail = bytes.skip(offset as int);
    lemma_whole_groups(w, tail.len() as int);
    lemma_div_mod_shift(w, s, tail.len() as int);
    assert(bytes.len() == s * w + tail.len());
    let p = tail.len() as int / w;
    let left = decode_groups(kind, order, tail);
    let all = decode_groups(kind, order, bytes);
    assert(all.len() == s + p);
    let right = all.skip(s);
    assert forall|i: int| 0 <= i < p implies left[i] == right[i] by {
        lemma_group_bounds(w, p, i);
        assert((i + s) * w == s * w + i * w) by (nonlinear_arith);
        assert(group_at(tail, w as nat, i) =~= group_at(bytes, w as nat, i + s));
    }
    assert(left =~= right);
}

} // verus!
