//! The streaming decode loop: chunks of any size go in, the values of the
//! complete groups come out, and the bytes of a split group wait in a carry
//! buffer for the next chunk.

use vstd::prelude::*;
use vstd::arithmetic::div_mod::lemma_fundamental_div_mod_converse;
use crate::groups::{
    decode_groups,
    group_at,
    lemma_decode_groups_split,
    lemma_div_mod_shift,
    lemma_whole_groups,
    remainder,
};
use crate::kind::{ByteOrder, ParseType};
use crate::reader::ChunkReader;
use crate::value::{decode, decode_at, ScalarValue};

verus! {

/// The mathematical state of a decode loop.
pub struct LoopState {
    pub kind: ParseType,
    pub order: ByteOrder,
    /// Number of stream bytes that may be consumed in all.
    pub budget: nat,
    /// Number of stream bytes consumed so far.
    pub consumed: nat,
    /// The bytes consumed so far that no emitted value covers yet.
    pub carry: Seq<u8>,
}

impl LoopState {
    /// The state before any byte was consumed.
    pub open spec fn initial(kind: ParseType, order: ByteOrder, budget: nat) -> LoopState {
        LoopState { kind, order, budget, consumed: 0, carry: Seq::empty() }
    }

    /// The carry is shorter than one group and accounts for exactly the
    /// consumed bytes that lie past the last complete group; the budget is
    /// never exceeded.
    pub open spec fn wf(self) -> bool {
        &&& self.consumed <= self.budget
        &&& self.carry.len() == self.consumed % self.kind.spec_width()
    }

    /// The number of bytes that the budget still allows.
    pub open spec fn remaining(self) -> nat {
        (self.budget - self.consumed) as nat
    }

    /// The part of `chunk` that the budget lets the loop consume.
    pub open spec fn accepted(self, chunk: Seq<u8>) -> Seq<u8> {
        if chunk.len() <= self.remaining() {
            chunk
        } else {
            chunk.take(self.remaining() as int)
        }
    }

    /// The carried bytes followed by the accepted part of `chunk`.
    pub open spec fn joined(self, chunk: Seq<u8>) -> Seq<u8> {
        self.carry + self.accepted(chunk)
    }

    /// The values that `chunk` completes.
    pub open spec fn emit(self, chunk: Seq<u8>) -> Seq<ScalarValue> {
        decode_groups(self.kind, self.order, self.joined(chunk))
    }

    /// The state after `chunk`.
    pub open spec fn step(self, chunk: Seq<u8>) -> LoopState {
        LoopState {
            consumed: self.consumed + self.accepted(chunk).len(),
            carry: remainder(self.kind, self.joined(chunk)),
            ..self
        }
    }

    /// The state after each of `chunks` in turn.
    pub open spec fn run(self, chunks: Seq<Seq<u8>>) -> LoopState
        decreases chunks.len(),
    {
        if chunks.len() == 0 {
            self
        } else {
            self.run(chunks.drop_last()).step(chunks.last())
        }
    }

    /// All values emitted while consuming each of `chunks` in turn.
    pub open spec fn run_output(self, chunks: Seq<Seq<u8>>) -> Seq<ScalarValue>
        decreases chunks.len(),
    {
        if chunks.len() == 0 {
            Seq::empty()
        } else {
            self.run_output(chunks.drop_last()) + self.run(chunks.drop_last()).emit(
                chunks.last(),
            )
        }
    }
}

/// The bytes of `chunks` laid end to end.
pub open spec fn concat_chunks(chunks: Seq<Seq<u8>>) -> Seq<u8>
    decreases chunks.len(),
{
    if chunks.len() == 0 {
        Seq::empty()
    } else {
        concat_chunks(chunks.drop_last()) + chunks.last()
    }
}

/// The first `budget` bytes of `stream`, or all of it where it is shorter.
pub open spec fn within_budget(stream: Seq<u8>, budget: nat) -> Seq<u8> {
    if stream.len() <= budget {
        stream
    } else {
        stream.take(budget as int)
    }
}

/// One step keeps a state well formed.
pub proof fn lemma_step_wf(state: LoopState, chunk: Seq<u8>)
    requires
        state.wf(),
    ensures
        state.step(chunk).wf(),
        state.step(chunk).carry.len() < state.kind.spec_width(),
        state.carry.len() < state.kind.spec_width(),
{
    let w = state.kind.spec_width() as int;
    let taken = state.accepted(chunk);
    let q = state.consumed as int / w;
    lemma_whole_groups(w, state.consumed as int);
    lemma_whole_groups(w, state.joined(chunk).len() as int);
    lemma_div_mod_shift(w, q, state.joined(chunk).len() as int);
    assert(state.consumed + taken.len() == q * w + state.joined(chunk).len());
}

/// However a stream is cut into chunks, a loop that starts fresh emits the
/// values of the complete groups among the stream's first `budget` bytes,
/// each once and in stream order, and ends holding what follows them.
pub proof fn lemma_chunking_is_unobservable(
    kind: ParseType,
    order: ByteOrder,
    budget: nat,
    chunks: Seq<Seq<u8>>,
)
    ensures
        LoopState::initial(kind, order, budget).run_output(chunks) == decode_groups(
            kind,
            order,
            within_budget(concat_chunks(chunks), budget),
        ),
        LoopState::initial(kind, order, budget).run(chunks).carry == remainder(
            kind,
            within_budget(concat_chunks(chunks), budget),
        ),
        LoopState::initial(kind, order, budget).run(chunks).consumed == within_budget(
            concat_chunks(chunks),
            budget,
        ).len(),
        LoopState::initial(kind, order, budget).run(chunks).wf(),
        LoopState::initial(kind, order, budget).run(chunks).kind == kind,
        LoopState::initial(kind, order, budget).run(chunks).order == order,
        LoopState::initial(kind, order, budget).run(chunks).budget == budget,
    decreases chunks.len(),
{
    let start = LoopState::initial(kind, order, budget);
    if chunks.len() == 0 {
        lemma_whole_groups(kind.spec_width() as int, 0);
        assert(decode_groups(kind, order, Seq::<u8>::empty()) =~= Seq::<ScalarValue>::empty());
        assert(remainder(kind, Seq::<u8>::empty()) =~= Seq::<u8>::empty());
    } else {
        let before = chunks.drop_last();
        let last = chunks.last();
        lemma_chunking_is_unobservable(kind, order, budget, before);
        let mid = start.run(before);
        let seen = within_budget(concat_chunks(before), budget);
        let taken = mid.accepted(last);
        assert(within_budget(concat_chunks(chunks), budget) =~= seen + taken);
        lemma_decode_groups_split(kind, order, seen, taken);
        lemma_step_wf(mid, last);
    }
}

/// Two ways of cutting the same stream into chunks give the same values.
pub proof fn lemma_same_stream_same_values(
    kind: ParseType,
    order: ByteOrder,
    budget: nat,
    first: Seq<Seq<u8>>,
    second: Seq<Seq<u8>>,
)
    requires
        concat_chunks(first) == concat_chunks(second),
    ensures
        LoopState::initial(kind, order, budget).run_output(first) == LoopState::initial(
            kind,
            order,
            budget,
        ).run_output(second),
{
    lemma_chunking_is_unobservable(kind, order, budget, first);
    lemma_chunking_is_unobservable(kind, order, budget, second);
}

/// The running state of a streaming decode: the kind and order asked for,
/// the byte budget, the bytes consumed, and the carry buffer.
pub struct DecodeLoop {
    kind: ParseType,
    order: ByteOrder,
    budget: u64,
    consumed: u64,
    carry: Vec<u8>,
}

impl View for DecodeLoop {
    type V = LoopState;

    closed spec fn view(&self) -> LoopState {
        LoopState {
            kind: self.kind,
            order: self.order,
            budget: self.budget as nat,
            consumed: self.consumed as nat,
            carry: self.carry@,
        }
    }
}

impl DecodeLoop {
    /// A loop that has consumed nothing yet and may consume `budget` bytes.
    pub fn new(kind: ParseType, order: ByteOrder, budget: u64) -> (fresh: DecodeLoop)
        ensures
            fresh@ == LoopState::initial(kind, order, budget as nat),
            fresh@.wf(),
    {
        proof {
            lemma_whole_groups(kind.spec_width() as int, 0);
        }
        DecodeLoop { kind, order, budget, consumed: 0, carry: Vec::new() }
    }

    /// The scalar kind being decoded.
    pub fn kind(&self) -> (k: ParseType)
        ensures
            k == self@.kind,
    {
        self.kind
    }

    /// The byte order being decoded.
    pub fn order(&self) -> (o: ByteOrder)
        ensures
            o == self@.order,
    {
        self.order
    }

    /// The number of bytes that may be consumed in all.
    pub fn budget(&self) -> (n: u64)
        ensures
            n == self@.budget,
    {
        self.budget
    }

    /// The number of bytes consumed so far.
    pub fn consumed(&self) -> (n: u64)
        ensures
            n == self@.consumed,
    {
        self.consumed
    }

    /// The number of bytes that the budget still allows.
    pub fn remaining(&self) -> (n: u64)
        requires
            self@.wf(),
        ensures
            n == self@.remaining(),
    {
        self.budget - self.consumed
    }

    /// Whether the budget is used up.
    pub fn is_finished(&self) -> (done: bool)
        ensures
            done == (self@.consumed >= self@.budget),
    {
        self.consumed >= self.budget
    }

    /// The number of carried bytes.
    pub fn pending(&self) -> (n: usize)
        ensures
            n == self@.carry.len(),
    {
        self.carry.len()
    }

    /// How many bytes to ask the source for next, given room for `capacity`
    /// bytes: as many as fit, but never more than the budget still allows.
    pub fn next_read_len(&self, capacity: usize) -> (n: usize)
        requires
            self@.wf(),
        ensures
            n == if capacity <= self@.remaining() {
                capacity as nat
            } else {
                self@.remaining()
            },
    {
        let left: u64 = self.budget - self.consumed;
        if (capacity as u64) <= left {
            capacity
        } else {
            left as usize
        }
    }

    /// Consumes one chunk: appends to `out` the value of every group that the
    /// chunk completes, in stream order, and keeps the bytes of a trailing
    /// incomplete group for the next chunk. Bytes beyond the budget are ignored.
    pub fn feed(&mut self, chunk: &[u8], out: &mut Vec<ScalarValue>)
        requires
            old(self)@.wf(),
        ensures
            final(self)@ == old(self)@.step(chunk@),
            final(self)@.wf(),
            final(out)@ == old(out)@ + old(self)@.emit(chunk@),
    {
        let ghost before = self@;
        let ghost out_before = out@;
        let width: usize = self.kind.width();
        let left: u64 = self.budget - self.consumed;
        let n: usize = if (chunk.len() as u64) <= left {
            chunk.len()
        } else {
            left as usize
        };
        let ghost taken = before.accepted(chunk@);
        let ghost joined = before.joined(chunk@);
        let ghost w = width as int;
        let ghost c = self.carry@.len() as int;
        proof {
            lemma_step_wf(before, chunk@);
            lemma_whole_groups(w, joined.len() as int);
            assert(taken =~= chunk@.take(n as int));
            assert(joined.len() == c + n);
        }
        self.consumed = self.consumed + (n as u64);
        let mut cursor: usize = 0;
        if self.carry.len() > 0 {
            // Fill the carried group from the front of the chunk.
            while self.carry.len() < width && cursor < n
                invariant
                    cursor <= n <= chunk@.len(),
                    self.carry@.len() == c + cursor,
                    self.carry@.len() <= width,
                    self.carry@ == joined.take(c + cursor),
                    joined == before.carry + chunk@.take(n as int),
                    joined == before.joined(chunk@),
                    c == before.carry.len(),
                    self.kind == before.kind,
                    self.order == before.order,
                    self.budget == before.budget,
                    self.consumed == before.consumed + n,
                decreases n - cursor,
            {
                self.carry.push(chunk[cursor]);
                proof {
                    assert(self.carry@ =~= joined.take(c + cursor + 1));
                }
                cursor = cursor + 1;
            }
            if self.carry.len() < width {
                proof {
                    assert(cursor == n);
                    assert(joined.len() / (w as nat) == 0) by {
                        lemma_fundamental_div_mod_converse(
                            joined.len() as int,
                            w,
                            0,
                            joined.len() as int,
                        );
                    }
                    assert(self.carry@ =~= remainder(before.kind, joined));
                    assert(before.emit(chunk@) =~= Seq::<ScalarValue>::empty());
                    assert(out@ =~= out_before + before.emit(chunk@));
                }
                return ;
            }
            let seam = decode(self.kind, self.order, self.carry.as_slice());
            out.push(seam);
            self.carry.clear();
            proof {
                assert(joined.take(w) =~= group_at(joined, w as nat, 0));
            }
        }
        let ghost base = c + cursor;
        let ghost total = joined.len() as int / w;
        proof {
            assert(base == 0 || base == w);
            assert(base % w == 0 && (base == 0 ==> base / w == 0) && (base == w ==> base / w == 1))
                by {
                if base == w {
                    lemma_fundamental_div_mod_converse(base, w, 1, 0);
                } else {
                    lemma_fundamental_div_mod_converse(base, w, 0, 0);
                }
            }
        }
        let ghost mut done: int = base / w;
        proof {
            assert(before.emit(chunk@).len() == total);
            if done == 1 {
                assert(1 <= total) by {
                    lemma_div_mod_shift(w, 1, (n - cursor) as int);
                    lemma_whole_groups(w, (n - cursor) as int);
                }
                assert(out@ =~= out_before + before.emit(chunk@).take(1));
            } else {
                assert(out@ =~= out_before + before.emit(chunk@).take(0));
            }
        }
        while n - cursor >= width
            invariant
                cursor <= n <= chunk@.len(),
                width == w,
                w == before.kind.spec_width(),
                c + cursor == done * w,
                0 <= done <= total,
                total == joined.len() as int / w,
                joined == before.carry + chunk@.take(n as int),
                joined == before.joined(chunk@),
                0 <= c,
                joined.len() == c + n,
                c == before.carry.len(),
                before.emit(chunk@).len() == total,
                out@ == out_before + before.emit(chunk@).take(done),
                self.carry@.len() == 0,
                self.kind == before.kind,
                self.order == before.order,
                self.budget == before.budget,
                self.consumed == before.consumed + n,
            decreases n - cursor,
        {
            let value = decode_at(self.kind, self.order, chunk, cursor);
            proof {
                assert((done + 1) * w == done * w + w) by (nonlinear_arith);
                assert(done + 1 <= total) by {
                    lemma_div_mod_shift(w, done + 1, (n - cursor - w) as int);
                    lemma_whole_groups(w, (n - cursor - w) as int);
                }
                assert(chunk@.subrange(cursor as int, cursor + w) =~= group_at(
                    joined,
                    w as nat,
                    done,
                ));
                assert(before.emit(chunk@)[done] == value);
            }
            out.push(value);
            proof {
                assert(out@ =~= out_before + before.emit(chunk@).take(done + 1));
                done = done + 1;
            }
            cursor = cursor + width;
        }
        proof {
            assert(done == total) by {
                lemma_div_mod_shift(w, done, (n - cursor) as int);
                lemma_fundamental_div_mod_converse(
                    (n - cursor) as int,
                    w,
                    0,
                    (n - cursor) as int,
                );
            }
            assert(before.emit(chunk@).take(total) =~= before.emit(chunk@));
        }
        // Keep what is left of the chunk for the next one.
        let ghost tail_start = cursor as int;
        while cursor < n
            invariant
                0 <= tail_start <= cursor <= n <= chunk@.len(),
                c + tail_start == total * w,
                joined == before.carry + chunk@.take(n as int),
                joined == before.joined(chunk@),
                0 <= c,
                joined.len() == c + n,
                self.carry@ == joined.subrange(total * w, c + cursor),
                self.kind == before.kind,
                self.order == before.order,
                self.budget == before.budget,
                self.consumed == before.consumed + n,
            decreases n - cursor,
        {
            self.carry.push(chunk[cursor]);
            proof {
                assert(self.carry@ =~= joined.subrange(total * w, c + cursor + 1));
            }
            cursor = cursor + 1;
        }
        proof {
            assert(self.carry@ =~= remainder(before.kind, joined));
        }
    }
}

/// Runs a decode loop over everything that `reader` still holds, within
/// `budget` bytes: reads chunk after chunk until the budget is used up or the
/// source is exhausted, and returns the values in stream order.
pub fn decode_reader(
    kind: ParseType,
    order: ByteOrder,
    budget: u64,
    reader: &mut ChunkReader<'_>,
) -> (out: Vec<ScalarValue>)
    requires
        old(reader).wf(),
    ensures
        out@ == decode_groups(kind, order, within_budget(old(reader).rest(), budget as nat)),
        final(reader).wf(),
        final(reader).rest() == old(reader).rest().skip(
            within_budget(old(reader).rest(), budget as nat).len() as int,
        ),
{
    let mut state = DecodeLoop::new(kind, order, budget);
    let mut out: Vec<ScalarValue> = Vec::new();
    let ghost stream = reader.rest();
    let ghost mut seen: Seq<u8> = Seq::empty();
    proof {
        lemma_whole_groups(kind.spec_width() as int, 0);
        assert(decode_groups(kind, order, seen) =~= out@);
        assert(remainder(kind, seen) =~= seen);
        assert(stream.skip(0) =~= stream);
        assert(stream.take(0) =~= seen);
    }
    loop
        invariant
            reader.wf(),
            state@.wf(),
            state@.kind == kind,
            state@.order == order,
            state@.budget == budget,
            state@.consumed == seen.len(),
            seen.len() <= stream.len(),
            seen == stream.take(seen.len() as int),
            reader.rest() == stream.skip(seen.len() as int),
            out@ == decode_groups(kind, order, seen),
            state@.carry == remainder(kind, seen),
        ensures
            seen == within_budget(stream, budget as nat),
            out@ == decode_groups(kind, order, seen),
            reader.wf(),
            reader.rest() == stream.skip(seen.len() as int),
        decreases stream.len() - seen.len(),
    {
        let want: usize = state.next_read_len(usize::MAX);
        if want == 0 {
            proof {
                assert(stream.len() == budget ==> stream.take(budget as int) =~= stream);
            }
            break ;
        }
        let chunk = reader.next_chunk(want);
        if chunk.len() == 0 {
            proof {
                assert(stream.take(stream.len() as int) =~= stream);
            }
            break ;
        }
        let ghost prior = state@;
        state.feed(chunk, &mut out);
        proof {
            lemma_decode_groups_split(kind, order, seen, chunk@);
            assert(prior.accepted(chunk@) == chunk@);
            let next = seen + chunk@;
            assert(next =~= stream.take(next.len() as int));
            assert(stream.skip(seen.len() as int).skip(chunk@.len() as int) =~= stream.skip(
                next.len() as int,
            ));
            seen = next;
        }
    }
    out
}

} // verus!
