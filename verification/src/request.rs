//! What a decode run is asked to do, and the byte budget that follows from it.

use vstd::prelude::*;
use crate::groups::{
    decode_groups,
    group_at,
    lemma_group_bounds,
    lemma_offset_skips_values,
    lemma_partial_group_dropped,
    lemma_whole_groups,
};
use crate::kind::{ByteOrder, ParseType};
use crate::reader::ChunkReader;
use crate::stream::{decode_reader, within_budget};
use crate::value::{spec_decode, ScalarValue};

verus! {

/// Why a run is refused before any byte is decoded.
#[derive(Clone, Copy, Debug, PartialEq, Eq, Structural)]
pub enum SetupError {
    /// The target is a directory, not a file.
    IsDirectory,
    /// The starting offset is not inside the file.
    OffsetOutOfRange { offset: u64, file_size: u64 },
}

/// A request to decode one file.
#[derive(Clone, Copy, Debug, PartialEq, Eq, Structural)]
pub struct DecodeRequest {
    pub kind: ParseType,
    pub order: ByteOrder,
    /// Byte offset of the first group.
    pub offset: u64,
    /// Largest number of values to decode; `None` decodes to the end.
    pub limit: Option<u64>,
    /// Number of values in a printed row.
    pub row_width: usize,
}

/// The limit that a signed count stands for: the largest `i64` means no
/// limit, and a negative count lets nothing through.
pub open spec fn spec_limit_of_number(number: i64) -> Option<u64> {
    if number == i64::MAX {
        None
    } else if number < 0 {
        Some(0u64)
    } else {
        Some(number as u64)
    }
}

/// Turns a signed count, in which the largest `i64` means "no limit", into an
/// explicit optional limit.
pub fn limit_of_number(number: i64) -> (limit: Option<u64>)
    ensures
        limit == spec_limit_of_number(number),
{
    if number == i64::MAX {
        None
    } else if number < 0 {
        Some(0)
    } else {
        Some(number as u64)
    }
}

/// The byte budget: with a limit, the bytes of that many values or the
/// `available` bytes, whichever is less; without one, all `available` bytes.
pub open spec fn spec_byte_budget(limit: Option<u64>, width: nat, available: nat) -> nat {
    match limit {
        None => available,
        Some(count) => if count * width <= available {
            (count * width) as nat
        } else {
            available
        },
    }
}

/// Computes the byte budget of a run over `available` bytes. A limit whose
/// byte count does not fit in 64 bits is larger than any file and so leaves
/// the whole rest of the file.
pub fn byte_budget(kind: ParseType, limit: Option<u64>, available: u64) -> (budget: u64)
    ensures
        budget == spec_byte_budget(limit, kind.spec_width(), available as nat),
        budget <= available,
{
    match limit {
        None => available,
        Some(count) => {
            let width: u64 = kind.width() as u64;
            match count.checked_mul(width) {
                Some(bytes) => if bytes <= available {
                    bytes
                } else {
                    available
                },
                None => available,
            }
        },
    }
}

impl DecodeRequest {
    /// The outcome of setting up a run on a target of `file_size` bytes.
    pub open spec fn spec_plan(self, is_directory: bool, file_size: u64) -> Result<
        u64,
        SetupError,
    > {
        if is_directory {
            Err(SetupError::IsDirectory)
        } else if self.offset >= file_size {
            Err(SetupError::OffsetOutOfRange { offset: self.offset, file_size })
        } else {
            Ok(
                spec_byte_budget(
                    self.limit,
                    self.kind.spec_width(),
                    (file_size - self.offset) as nat,
                ) as u64,
            )
        }
    }

    /// Holds the request against what is known of the target and gives the
    /// byte budget of the run. A directory is refused, and so is an offset at
    /// or past the end of the file.
    pub fn plan(&self, is_directory: bool, file_size: u64) -> (outcome: Result<u64, SetupError>)
        ensures
            outcome == self.spec_plan(is_directory, file_size),
            outcome is Ok ==> outcome->Ok_0 <= file_size - self.offset,
    {
        if is_directory {
            Err(SetupError::IsDirectory)
        } else if self.offset >= file_size {
            Err(SetupError::OffsetOutOfRange { offset: self.offset, file_size })
        } else {
            Ok(byte_budget(self.kind, self.limit, file_size - self.offset))
        }
    }

    /// The values that the request asks for from a file whose whole content
    /// is `image`.
    pub open spec fn spec_values(self, image: Seq<u8>) -> Seq<ScalarValue> {
        decode_groups(
            self.kind,
            self.order,
            within_budget(
                image.skip(self.offset as int),
                spec_byte_budget(
                    self.limit,
                    self.kind.spec_width(),
                    (image.len() - self.offset) as nat,
                ),
            ),
        )
    }

    /// Decodes a file held in memory, reading it in blocks of `block` bytes.
    /// The block size has no effect on the result.
    pub fn decode_image(&self, image: &[u8], block: usize) -> (outcome: Result<
        Vec<ScalarValue>,
        SetupError,
    >)
        requires
            block > 0,
        ensures
            match outcome {
                Ok(values) => self.offset < image@.len() && values@ == self.spec_values(image@),
                Err(error) => self.offset >= image@.len() && error == (
                SetupError::OffsetOutOfRange {
                    offset: self.offset,
                    file_size: image@.len() as u64,
                }),
            },
    {
        let file_size: u64 = image.len() as u64;
        match self.plan(false, file_size) {
            Err(error) => Err(error),
            Ok(budget) => {
                let mut reader = ChunkReader::new(image, self.offset as usize, block);
                Ok(decode_reader(self.kind, self.order, budget, &mut reader))
            },
        }
    }
}

/// A limit of `count` values lets through exactly the first `count` values
/// of the unlimited decode, or all of them where there are fewer; and where
/// the bytes of `count` values are more than the stream holds, the decode
/// runs to the end of the stream and yields fewer than `count` values.
pub proof fn lemma_limit_takes_prefix(
    kind: ParseType,
    order: ByteOrder,
    bytes: Seq<u8>,
    count: u64,
)
    ensures
        ({
            let all = decode_groups(kind, order, bytes);
            let limited = decode_groups(
                kind,
                order,
                within_budget(
                    bytes,
                    spec_byte_budget(Some(count), kind.spec_width(), bytes.len()),
                ),
            );
            &&& limited.len() <= count
            &&& count <= all.len() ==> limited == all.take(count as int)
            &&& count >= all.len() ==> limited == all
            &&& count * kind.spec_width() > bytes.len() ==> limited == all && all.len() < count
        }),
{
    let w = kind.spec_width() as int;
    let all = decode_groups(kind, order, bytes);
    let budget = spec_byte_budget(Some(count), kind.spec_width(), bytes.len());
    let cut = within_budget(bytes, budget);
    let limited = decode_groups(kind, order, cut);
    lemma_whole_groups(w, bytes.len() as int);
    let q = bytes.len() as int / w;
    if count * w <= bytes.len() {
        assert(cut =~= bytes.take(count * w));
        assert(count <= q) by (nonlinear_arith)
            requires
                count * w <= bytes.len(),
                bytes.len() - q * w < w,
                w > 0,
        ;
        assert(w * (count as nat) == count * w) by (nonlinear_arith);
        lemma_partial_group_dropped(kind, order, cut, count as nat, 0);
        assert forall|i: int| 0 <= i < count implies limited[i] == all[i] by {
            lemma_group_bounds(w, count as int, i);
            assert(group_at(cut, w as nat, i) =~= group_at(bytes, w as nat, i));
        }
        assert(limited =~= all.take(count as int));
        if count >= all.len() {
            assert(all.take(count as int) =~= all);
        }
    } else {
        assert(cut == bytes);
        assert(q < count) by (nonlinear_arith)
            requires
                count * w > bytes.len(),
                q * w <= bytes.len(),
                w > 0,
        ;
    }
}

/// Decoding a whole file, from its first byte and without a limit, yields
/// one value for each complete group of the file: the file's length divided
/// by the width, rounded down. The values are the readings of consecutive
/// groups that do not overlap, in the order of the file.
pub proof fn lemma_whole_file(request: DecodeRequest, image: Seq<u8>)
    requires
        request.offset == 0,
        request.limit is None,
    ensures
        request.spec_values(image) == decode_groups(request.kind, request.order, image),
        request.spec_values(image).len() == image.len() / request.kind.spec_width(),
        forall|i: int|
            0 <= i < image.len() / request.kind.spec_width() ==> #[trigger] request.spec_values(
                image,
            )[i] == spec_decode(
                request.kind,
                request.order,
                image.subrange(
                    i * request.kind.spec_width(),
                    i * request.kind.spec_width() + request.kind.spec_width(),
                ),
            ),
{
    assert(image.skip(0) =~= image);
}

/// Starting at an offset that is a multiple of the width discards the first
/// `offset / width` values of the whole file and changes no other; a limit
/// then keeps the first values of what is left.
pub proof fn lemma_offset_discards_values(request: DecodeRequest, image: Seq<u8>)
    requires
        request.offset <= image.len(),
        (request.offset as nat) % request.kind.spec_width() == 0,
    ensures
        ({
            let all = decode_groups(request.kind, request.order, image);
            let kept = all.skip((request.offset as nat / request.kind.spec_width()) as int);
            match request.limit {
                None => request.spec_values(image) == kept,
                Some(count) => {
                    &&& count <= kept.len() ==> request.spec_values(image) == kept.take(
                        count as int,
                    )
                    &&& count >= kept.len() ==> request.spec_values(image) == kept
                },
            }
        }),
{
    let rest = image.skip(request.offset as int);
    lemma_offset_skips_values(request.kind, request.order, image, request.offset as nat);
    match request.limit {
        None => {},
        Some(count) => {
            lemma_limit_takes_prefix(request.kind, request.order, rest, count);
        },
    }
}

} // verus!
