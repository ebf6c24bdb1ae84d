//! Quoted cells that never end.
//!
//! A cell that opens with a double quote runs to the next double quote that
//! is not doubled.  Input that stops before that quote comes is malformed.
//! Whether it does is read off the bytes with four states, under the
//! conventions of the decoder: cells end at a comma, a line feed or a
//! carriage return; a quote opens a quoted cell only as the first byte of a
//! cell; inside quotes two quotes in a row stand for one; and a byte-order
//! mark at the very start of the input is not part of any cell.

use vstd::prelude::*;
use vstd::slice::slice_subrange;

verus! {

/// The byte `"`.
pub const QUOTE: u8 = 0x22;

/// The byte `,`.
pub const COMMA: u8 = 0x2c;

/// The line feed.
pub const LINE_FEED: u8 = 0x0a;

/// The carriage return.
pub const CARRIAGE_RETURN: u8 = 0x0d;

/// Where the bytes read so far have left off.
#[derive(Clone, Copy, Debug, PartialEq, Eq, Structural)]
pub enum QuoteState {
    /// At the start of a cell.
    CellStart,
    /// In a cell without quotes around it.
    Plain,
    /// Inside quotes.
    Quoted,
    /// Inside quotes, just after a quote: the cell's end, unless another
    /// quote follows.
    QuoteSeen,
}

/// A comma, a line feed or a carriage return.
pub open spec fn ends_cell(b: u8) -> bool {
    b == COMMA || b == LINE_FEED || b == CARRIAGE_RETURN
}

/// The state after one more byte.
pub open spec fn step(state: QuoteState, b: u8) -> QuoteState {
    match state {
        QuoteState::CellStart => if b == QUOTE {
            QuoteState::Quoted
        } else if ends_cell(b) {
            QuoteState::CellStart
        } else {
            QuoteState::Plain
        },
        QuoteState::Plain => if ends_cell(b) {
            QuoteState::CellStart
        } else {
            QuoteState::Plain
        },
        QuoteState::Quoted => if b == QUOTE {
            QuoteState::QuoteSeen
        } else {
            QuoteState::Quoted
        },
        QuoteState::QuoteSeen => if b == QUOTE {
            QuoteState::Quoted
        } else if ends_cell(b) {
            QuoteState::CellStart
        } else {
            QuoteState::Plain
        },
    }
}

/// The state after all of `s`, read from the start of a cell.
pub open spec fn quote_state(s: Seq<u8>) -> QuoteState
    decreases s.len(),
{
    if s.len() == 0 {
        QuoteState::CellStart
    } else {
        step(quote_state(s.drop_last()), s.last())
    }
}

/// `s` begins with the three bytes of a byte-order mark.
pub open spec fn has_mark(s: Seq<u8>) -> bool {
    s.len() >= 3 && s[0] == 0xef && s[1] == 0xbb && s[2] == 0xbf
}

/// `s` without its byte-order mark, if it begins with one.
pub open spec fn without_mark(s: Seq<u8>) -> Seq<u8> {
    if has_mark(s) {
        s.skip(3)
    } else {
        s
    }
}

/// The input stops inside quotes: a quoted cell was opened and its closing
/// quote never came.
pub open spec fn ends_in_open_quote(data: Seq<u8>) -> bool {
    quote_state(without_mark(data)) == QuoteState::Quoted
}

fn next_state(state: QuoteState, b: u8) -> (r: QuoteState)
    ensures
        r == step(state, b),
{
    let ends = b == COMMA || b == LINE_FEED || b == CARRIAGE_RETURN;
    match state {
        QuoteState::CellStart | QuoteState::QuoteSeen => {
            if b == QUOTE {
                QuoteState::Quoted
            } else if ends {
                QuoteState::CellStart
            } else {
                QuoteState::Plain
            }
        },
        QuoteState::Plain => {
            if ends {
                QuoteState::CellStart
            } else {
                QuoteState::Plain
            }
        },
        QuoteState::Quoted => {
            if b == QUOTE {
                QuoteState::QuoteSeen
            } else {
                QuoteState::Quoted
            }
        },
    }
}

/// Whether `data` stops inside a quoted cell.
pub fn has_open_quote(data: &[u8]) -> (r: bool)
    ensures
        r == ends_in_open_quote(data@),
{
    let n = data.len();
    let start: usize = if n >= 3 && data[0] == 0xef && data[1] == 0xbb && data[2] == 0xbf {
        3
    } else {
        0
    };
    let body = slice_subrange(data, start, n);
    assert(body@ =~= without_mark(data@));
    let m = body.len();
    let mut state = QuoteState::CellStart;
    let mut i: usize = 0;
    while i < m
        invariant
            m == body@.len(),
            i <= m,
            state == quote_state(body@.take(i as int)),
        decreases m - i,
    {
        assert(body@.take(i + 1).drop_last() =~= body@.take(i as int));
        state = next_state(state, body[i]);
        i += 1;
    }
    assert(body@.take(m as int) =~= body@);
    state == QuoteState::Quoted
}

} // verus!
