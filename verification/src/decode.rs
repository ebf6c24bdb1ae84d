//! The decoder: from the bytes of a file to the cells of its data records.
//!
//! The first record is the header.  It is taken and dropped, and the cells
//! of every later record follow each other in the order of the file.  A
//! file that stops inside a quoted cell, that has no header, whose header is
//! not text, or that holds records of different lengths is rejected as a
//! whole.

use crate::classify::{cell_bytes, classify_all, classify_cells};
use crate::field::Field;
use crate::quote::{ends_in_open_quote, has_open_quote};
use crate::reader::{
    csv_records, header_of, is_text_row, new_record, open_reader, read_headers, read_record,
    reader_cursor, reader_records, record_cells,
};
use vstd::prelude::*;

verus! {

/// Why a file could not be decoded.
#[derive(Clone, Copy, Debug, PartialEq, Eq, Structural)]
pub enum DecodeError {
    /// The input stops inside a quoted cell.
    UnterminatedQuote,
    /// The input holds no header: its first record is missing or has no
    /// cells.
    MissingHeader,
    /// A cell of the header is not valid UTF-8.
    InvalidHeader,
    /// A record has another number of cells than the header.
    UnequalLengths,
}

/// Some record after the first differs from it in length.
pub open spec fn is_ragged(records: Seq<Seq<Seq<u8>>>) -> bool {
    exists|i: int| 1 <= i < records.len() && (#[trigger] records[i]).len() != records[0].len()
}

/// What decoding makes of the records of a file: the cells of all records
/// but the first, in order, or the reason for which the file is rejected.
pub open spec fn decoded_cells(records: Seq<Seq<Seq<u8>>>) -> Result<Seq<Seq<u8>>, DecodeError> {
    if header_of(records).len() == 0 {
        Err(DecodeError::MissingHeader)
    } else if !is_text_row(records[0]) {
        Err(DecodeError::InvalidHeader)
    } else if is_ragged(records) {
        Err(DecodeError::UnequalLengths)
    } else {
        Ok(records.skip(1).flatten())
    }
}

/// What the whole pipeline up to the classifier makes of the records of a
/// file: the tag of every data cell, or the decoder's error.
pub open spec fn inferred_fields(records: Seq<Seq<Seq<u8>>>) -> Result<
    Seq<Option<Field>>,
    DecodeError,
> {
    match decoded_cells(records) {
        Ok(cells) => Ok(classify_all(cells)),
        Err(e) => Err(e),
    }
}

/// Header exclusion: what the header's cells hold does not reach the result.
/// Two sequences of records with the same data records, whose headers are
/// both text and have the same number of cells, decode and classify alike.
pub proof fn lemma_header_excluded(
    first: Seq<Seq<u8>>,
    second: Seq<Seq<u8>>,
    body: Seq<Seq<Seq<u8>>>,
)
    requires
        first.len() == second.len(),
        is_text_row(first),
        is_text_row(second),
    ensures
        decoded_cells(seq![first] + body) == decoded_cells(seq![second] + body),
        inferred_fields(seq![first] + body) == inferred_fields(seq![second] + body),
{
    let a = seq![first] + body;
    let b = seq![second] + body;
    assert(a.skip(1) =~= body);
    assert(b.skip(1) =~= body);
    assert forall|i: int| 1 <= i < a.len() implies a[i] == b[i] by {
        assert(a[i] == body[i - 1]);
        assert(b[i] == body[i - 1]);
    }
    if is_ragged(a) {
        let i = choose|i: int| 1 <= i < a.len() && (#[trigger] a[i]).len() != a[0].len();
        assert(b[i].len() != b[0].len());
    }
    if is_ragged(b) {
        let i = choose|i: int| 1 <= i < b.len() && (#[trigger] b[i]).len() != b[0].len();
        assert(a[i].len() != a[0].len());
    }
}

/// Decodes `data` into the cells of its data records.
///
/// Input that stops inside a quoted cell is rejected as a whole. Any other
/// input is split into records, and the outcome is what `decoded_cells`
/// makes of them.
pub fn decode_cells(data: &[u8]) -> (r: Result<Vec<Vec<u8>>, DecodeError>)
    ensures
        ends_in_open_quote(data@) ==> r == Err::<Vec<Vec<u8>>, DecodeError>(
            DecodeError::UnterminatedQuote,
        ),
        !ends_in_open_quote(data@) ==> match r {
            Ok(cells) => decoded_cells(csv_records(data@)) == Ok::<Seq<Seq<u8>>, DecodeError>(
                cell_bytes(cells@),
            ),
            Err(e) => decoded_cells(csv_records(data@)) == Err::<Seq<Seq<u8>>, DecodeError>(e),
        },
        data@.len() == 0 ==> r == Err::<Vec<Vec<u8>>, DecodeError>(DecodeError::MissingHeader),
{
    if has_open_quote(data) {
        return Err(DecodeError::UnterminatedQuote);
    }
    let ghost records = csv_records(data@);
    let mut reader = open_reader(data);
    let header = match read_headers(&mut reader) {
        Ok(header) => header,
        Err(_) => {
            return Err(DecodeError::InvalidHeader);
        },
    };
    let header_cells = record_cells(&header);
    if header_cells.len() == 0 {
        return Err(DecodeError::MissingHeader);
    }
    assert(cell_bytes(header_cells@).len() == header_cells@.len());
    assert(records.len() >= 1);
    let mut record = new_record();
    let mut cells: Vec<Vec<u8>> = Vec::new();
    assert(cell_bytes(cells@) =~= records.subrange(1, 1).flatten());
    loop
        invariant
            records == csv_records(data@),
            !ends_in_open_quote(data@),
            data@.len() > 0,
            records[0].len() > 0,
            is_text_row(records[0]),
            reader_records(reader) == records,
            1 <= reader_cursor(reader) <= records.len(),
            forall|i: int| 1 <= i < reader_cursor(reader) ==> (#[trigger] records[i]).len()
                == records[0].len(),
            cell_bytes(cells@) == records.subrange(1, reader_cursor(reader) as int).flatten(),
        ensures
            reader_cursor(reader) == records.len(),
        decreases records.len() - reader_cursor(reader),
    {
        let ghost at = reader_cursor(reader) as int;
        let ghost before = cell_bytes(cells@);
        match read_record(&mut reader, &mut record) {
            Err(_) => {
                return Err(DecodeError::UnequalLengths);
            },
            Ok(more) => {
                if !more {
                    break ;
                }
                let mut row = record_cells(&record);
                cells.append(&mut row);
                proof {
                    assert(cell_bytes(cells@) =~= before + records[at]);
                    assert(records.subrange(1, at + 1) =~= records.subrange(1, at).push(
                        records[at],
                    ));
                    records.subrange(1, at).lemma_flatten_push(records[at]);
                }
            },
        }
    }
    assert(records.subrange(1, records.len() as int) =~= records.skip(1));
    Ok(cells)
}

/// Decodes `data` and classifies the cells of its data records.
pub fn read_csv(data: &[u8]) -> (r: Result<Vec<Option<Field>>, DecodeError>)
    ensures
        ends_in_open_quote(data@) ==> r == Err::<Vec<Option<Field>>, DecodeError>(
            DecodeError::UnterminatedQuote,
        ),
        !ends_in_open_quote(data@) ==> match r {
            Ok(fields) => inferred_fields(csv_records(data@)) == Ok::<
                Seq<Option<Field>>,
                DecodeError,
            >(fields@),
            Err(e) => inferred_fields(csv_records(data@)) == Err::<Seq<Option<Field>>, DecodeError>(
                e,
            ),
        },
        data@.len() == 0 ==> r == Err::<Vec<Option<Field>>, DecodeError>(
            DecodeError::MissingHeader,
        ),
{
    match decode_cells(data) {
        Ok(cells) => Ok(classify_cells(cells.as_slice())),
        Err(e) => Err(e),
    }
}

} // verus!
