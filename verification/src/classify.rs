//! The classifier: from the bytes of one cell to its type tag.
//!
//! The rules are tried in a fixed order and the first that applies decides:
//! bytes that are not valid UTF-8 are `Unknown`; the marker `NULL` is a null;
//! then integer, then float, and what is left is `String`.  Nothing is
//! trimmed and no cell depends on another.

use crate::field::Field;
use crate::number::{
    is_float_text, is_integer_text, is_mantissa, is_sign, reads_as_float, reads_as_integer,
    unsigned_part,
};
use vstd::prelude::*;
use vstd::utf8::*;

verus! {

/// The bytes of `NULL`, the marker of an explicit null.
pub open spec fn null_marker() -> Seq<u8> {
    seq![0x4eu8, 0x55, 0x4c, 0x4c]
}

/// The tag of a cell, or `None` for the null marker.
pub open spec fn classify(bytes: Seq<u8>) -> Option<Field> {
    if !valid_utf8(bytes) {
        Some(Field::Unknown)
    } else if bytes == null_marker() {
        None
    } else if is_integer_text(bytes) {
        Some(Field::Integer)
    } else if is_float_text(bytes) {
        Some(Field::Float)
    } else {
        Some(Field::String)
    }
}

/// The tags of a sequence of cells, cell by cell.
pub open spec fn classify_all(cells: Seq<Seq<u8>>) -> Seq<Option<Field>> {
    cells.map_values(|c: Seq<u8>| classify(c))
}

/// The bytes of each cell of a vector of cells.
pub open spec fn cell_bytes(cells: Seq<Vec<u8>>) -> Seq<Seq<u8>> {
    cells.map_values(|c: Vec<u8>| c@)
}

/// Every byte of `s` is below `0x80`.
pub open spec fn is_ascii(s: Seq<u8>) -> bool {
    forall|i: int| 0 <= i < s.len() ==> #[trigger] s[i] < 0x80
}

/// ASCII bytes are valid UTF-8.
pub proof fn lemma_ascii_is_text(s: Seq<u8>)
    requires
        is_ascii(s),
    ensures
        valid_utf8(s),
{
    assert(s.subrange(0, 0) =~= Seq::<u8>::empty());
    assert(partial_valid_utf8(s, 0));
    partial_valid_utf8_extend_ascii_block(s, 0, s.len() as int);
    assert(s.subrange(0, s.len() as int) =~= s);
}

/// Only the marker itself is a null: a cell is classified as `None`
/// exactly when its bytes are `NULL`.
pub proof fn lemma_null_exact(bytes: Seq<u8>)
    ensures
        classify(bytes) is None <==> bytes == null_marker(),
{
    if bytes == null_marker() {
        lemma_ascii_is_text(bytes);
    }
}

/// Integer comes before float: text that reads as an integer also reads as
/// a float, and is classified as `Integer`.
pub proof fn lemma_integer_before_float(bytes: Seq<u8>)
    requires
        is_integer_text(bytes),
    ensures
        is_float_text(bytes),
        classify(bytes) == Some(Field::Integer),
{
    let digits = unsigned_part(bytes);
    assert(is_mantissa(digits));
    assert(is_ascii(bytes)) by {
        assert forall|i: int| 0 <= i < bytes.len() implies #[trigger] bytes[i] < 0x80 by {
            if bytes.len() > 0 && is_sign(bytes[0]) {
                if i > 0 {
                    assert(digits[i - 1] == bytes[i]);
                }
            } else {
                assert(digits[i] == bytes[i]);
            }
        }
    }
    lemma_ascii_is_text(bytes);
    assert(bytes[0] != null_marker()[0]) by {
        if !is_sign(bytes[0]) {
            assert(digits[0] == bytes[0]);
        }
    }
}

/// `std::str::from_utf8`, asked only whether it succeeds: it does exactly on
/// the byte strings that are valid UTF-8.
#[verifier::external_body]
fn is_utf8(bytes: &[u8]) -> (r: bool)
    ensures
        r == valid_utf8(bytes@),
{
    match std::str::from_utf8(bytes) {
        Ok(_) => true,
        Err(_) => false,
    }
}

fn is_null_marker(bytes: &[u8]) -> (r: bool)
    ensures
        r == (bytes@ == null_marker()),
{
    let r = bytes.len() == 4 && bytes[0] == 0x4e && bytes[1] == 0x55 && bytes[2] == 0x4c
        && bytes[3] == 0x4c;
    assert(null_marker().len() == 4);
    assert(r == (bytes@ =~= null_marker()));
    r
}

/// Classifies one cell.
pub fn parse(bytes: &[u8]) -> (r: Option<Field>)
    ensures
        r == classify(bytes@),
{
    if !is_utf8(bytes) {
        return Some(Field::Unknown);
    }
    if is_null_marker(bytes) {
        return None;
    }
    if reads_as_integer(bytes) {
        return Some(Field::Integer);
    }
    if reads_as_float(bytes) {
        return Some(Field::Float);
    }
    Some(Field::String)
}

/// Classifies every cell, in order.
pub fn classify_cells(cells: &[Vec<u8>]) -> (r: Vec<Option<Field>>)
    ensures
        r@ == classify_all(cell_bytes(cells@)),
{
    let mut fields: Vec<Option<Field>> = Vec::new();
    let n = cells.len();
    let mut i: usize = 0;
    while i < n
        invariant
            n == cells@.len(),
            i <= n,
            fields@ == classify_all(cell_bytes(cells@)).take(i as int),
        decreases n - i,
    {
        let tag = parse(cells[i].as_slice());
        fields.push(tag);
        assert(fields@ =~= classify_all(cell_bytes(cells@)).take(i + 1));
        i += 1;
    }
    assert(fields@ =~= classify_all(cell_bytes(cells@)));
    fields
}

} // verus!
