//! Row layout: which separator follows each printed value.

use vstd::prelude::*;
use vstd::arithmetic::div_mod::lemma_fundamental_div_mod_converse;
use crate::groups::lemma_div_mod_shift;

verus! {

/// What is printed after a value.
#[derive(Clone, Copy, Debug, PartialEq, Eq, Structural)]
pub enum Separator {
    /// The value is followed by another value of the same row.
    Space,
    /// The value is the last of its row.
    LineBreak,
}

impl Separator {
    /// The ASCII byte that stands for the separator in the output.
    pub open spec fn spec_byte(self) -> u8 {
        match self {
            Separator::Space => 32u8,
            Separator::LineBreak => 10u8,
        }
    }

    /// The ASCII byte that stands for the separator in the output: a space,
    /// or a line feed for a row break.
    pub fn byte(&self) -> (b: u8)
        ensures
            b == self.spec_byte(),
    {
        match self {
            Separator::Space => 32,
            Separator::LineBreak => 10,
        }
    }
}

/// The mathematical state of a row emitter.
pub struct RowState {
    /// Number of values in a full row.
    pub row_width: nat,
    /// Number of values already printed in the current row.
    pub position: nat,
}

impl RowState {
    /// The state at the start of the first row.
    pub open spec fn fresh(row_width: nat) -> RowState {
        RowState { row_width, position: 0 }
    }

    /// The current row is not full. A row width of zero counts as one.
    pub open spec fn wf(self) -> bool {
        self.position == 0 || self.position < self.row_width
    }

    /// Whether the next value fills its row.
    pub open spec fn closes_row(self) -> bool {
        self.position + 1 >= self.row_width
    }

    /// The separator that follows the next value.
    pub open spec fn separator(self) -> Separator {
        if self.closes_row() {
            Separator::LineBreak
        } else {
            Separator::Space
        }
    }

    /// The state after the next value.
    pub open spec fn next(self) -> RowState {
        RowState {
            row_width: self.row_width,
            position: if self.closes_row() {
                0
            } else {
                self.position + 1
            },
        }
    }

    /// The state after `count` values.
    pub open spec fn after(self, count: nat) -> RowState
        decreases count,
    {
        if count == 0 {
            self
        } else {
            self.after((count - 1) as nat).next()
        }
    }
}

/// Counts the values of the current row and says after each value whether a
/// separator or a row break follows.
pub struct RowEmitter {
    row_width: usize,
    position: usize,
}

impl View for RowEmitter {
    type V = RowState;

    closed spec fn view(&self) -> RowState {
        RowState { row_width: self.row_width as nat, position: self.position as nat }
    }
}

impl RowEmitter {
    /// An emitter at the start of its first row.
    pub fn new(row_width: usize) -> (emitter: RowEmitter)
        ensures
            emitter@ == RowState::fresh(row_width as nat),
            emitter@.wf(),
    {
        RowEmitter { row_width, position: 0 }
    }

    /// Number of values in a full row.
    pub fn row_width(&self) -> (n: usize)
        ensures
            n == self@.row_width,
    {
        self.row_width
    }

    /// Number of values already in the current row.
    pub fn position(&self) -> (n: usize)
        ensures
            n == self@.position,
    {
        self.position
    }

    /// Records one printed value and returns what follows it: a row break
    /// after the value that fills the row, a space after any other.
    pub fn advance(&mut self) -> (separator: Separator)
        requires
            old(self)@.wf(),
        ensures
            separator == old(self)@.separator(),
            final(self)@ == old(self)@.next(),
            final(self)@.wf(),
    {
        if self.row_width <= 1 || self.position >= self.row_width - 1 {
            self.position = 0;
            Separator::LineBreak
        } else {
            self.position = self.position + 1;
            Separator::Space
        }
    }

    /// Appends the text of one value to `out`, followed by what separates it
    /// from the next: a row break after the value that fills the row, a space
    /// after any other.
    pub fn output(&mut self, cell: &[u8], out: &mut Vec<u8>)
        requires
            old(self)@.wf(),
        ensures
            final(self)@ == old(self)@.next(),
            final(self)@.wf(),
            final(out)@ == (old(out)@ + cell@).push(old(self)@.separator().spec_byte()),
    {
        out.extend_from_slice(cell);
        let separator = self.advance();
        out.push(separator.byte());
    }
}

/// In rows of `row_width` values, after `count` values the current row holds
/// `count % row_width` of them, so the value that follows is the last of its
/// row exactly when `count + 1` is a multiple of `row_width`: every block of
/// `row_width` consecutive values ends in a row break, and no other value does.
pub proof fn lemma_row_breaks(row_width: nat, count: nat)
    requires
        row_width >= 1,
    ensures
        RowState::fresh(row_width).after(count).wf(),
        RowState::fresh(row_width).after(count).row_width == row_width,
        RowState::fresh(row_width).after(count).position == count % row_width,
        RowState::fresh(row_width).after(count).separator() == Separator::LineBreak <==> (count
            + 1) % row_width == 0,
    decreases count,
{
    let r = row_width as int;
    let state = RowState::fresh(row_width).after(count);
    if count == 0 {
        lemma_fundamental_div_mod_converse(0, r, 0, 0);
    } else {
        lemma_row_breaks(row_width, (count - 1) as nat);
        lemma_position_step(r, count - 1);
    }
    lemma_position_step(r, count as int);
}

/// How the position in a row moves from one count to the next.
proof fn lemma_position_step(r: int, n: int)
    requires
        r >= 1,
        n >= 0,
    ensures
        0 <= n % r < r,
        n % r + 1 >= r ==> (n + 1) % r == 0,
        n % r + 1 < r ==> (n + 1) % r == n % r + 1,
{
    lemma_div_mod_shift(r, 0, n);
    let q = n / r;
    let p = n % r;
    if p + 1 >= r {
        assert(n + 1 == (q + 1) * r + 0) by (nonlinear_arith)
            requires
                n == q * r + p,
                p + 1 == r,
        ;
        lemma_fundamental_div_mod_converse(n + 1, r, q + 1, 0);
    } else {
        lemma_fundamental_div_mod_converse(n + 1, r, q, p + 1);
    }
}

} // verus!
