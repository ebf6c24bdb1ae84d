//! What this library takes on trust from the `csv` crate.
//!
//! The crate's reader is used in its default configuration (comma as
//! delimiter, double quote as quote, a header record, records of one
//! length) on a byte slice that is wholly in memory.  The statements made
//! here about it are not proved; each says which function of `csv` it is
//! about.

use crate::classify::cell_bytes;
use vstd::prelude::*;
use vstd::utf8::valid_utf8;

verus! {

/// `csv::Reader`, carried through as an opaque value.
#[verifier::external_type_specification]
#[verifier::external_body]
#[verifier::reject_recursive_types(R)]
pub struct ExReader<R>(csv::Reader<R>);

/// `csv::ByteRecord`, carried through as an opaque value.
#[verifier::external_type_specification]
#[verifier::external_body]
pub struct ExByteRecord(csv::ByteRecord);

/// `csv::Error`, carried through as an opaque value.
#[verifier::external_type_specification]
#[verifier::external_body]
pub struct ExError(csv::Error);

/// The records that `csv` finds in `data`, the first one included: each a
/// sequence of fields, each field the bytes between delimiters with the
/// quoting undone.
pub uninterp spec fn csv_records(data: Seq<u8>) -> Seq<Seq<Seq<u8>>>;

/// The records of the input that a reader was made for.
pub uninterp spec fn reader_records(reader: csv::Reader<&[u8]>) -> Seq<Seq<Seq<u8>>>;

/// How many of its records a reader has taken from its input so far.
pub uninterp spec fn reader_cursor(reader: csv::Reader<&[u8]>) -> nat;

/// The fields that a record buffer holds.
pub uninterp spec fn record_fields(record: csv::ByteRecord) -> Seq<Seq<u8>>;

/// The first record of `records`, or no fields at all where there is none.
pub open spec fn header_of(records: Seq<Seq<Seq<u8>>>) -> Seq<Seq<u8>> {
    if records.len() == 0 {
        Seq::empty()
    } else {
        records[0]
    }
}

/// Every field of `row` is valid UTF-8.
pub open spec fn is_text_row(row: Seq<Seq<u8>>) -> bool {
    forall|i: int| 0 <= i < row.len() ==> valid_utf8(#[trigger] row[i])
}

/// `csv::Reader::from_reader` on a byte slice. The new reader has taken
/// nothing yet, and its records are those that `csv` finds in `data`; in
/// empty data it finds none.
#[verifier::external_body]
pub(crate) fn open_reader<'a>(data: &'a [u8]) -> (reader: csv::Reader<&'a [u8]>)
    ensures
        reader_records(reader) == csv_records(data@),
        reader_cursor(reader) == 0,
        data@.len() == 0 ==> reader_records(reader).len() == 0,
{
    csv::Reader::from_reader(data)
}

/// `csv::Reader::headers` on a reader that has taken nothing yet, with the
/// header handed out as a byte record. The call takes the first record, if
/// there is one. It fails exactly when a field of that record is not valid
/// UTF-8; otherwise it returns the record, which has no fields where the
/// input has no record.
#[verifier::external_body]
pub(crate) fn read_headers(reader: &mut csv::Reader<&[u8]>) -> (r: Result<
    csv::ByteRecord,
    csv::Error,
>)
    requires
        reader_cursor(*old(reader)) == 0,
    ensures
        reader_records(*final(reader)) == reader_records(*old(reader)),
        reader_cursor(*final(reader)) == (if reader_records(*old(reader)).len() == 0 {
            0nat
        } else {
            1nat
        }),
        match r {
            Ok(header) => is_text_row(header_of(reader_records(*old(reader)))) && record_fields(
                header,
            ) == header_of(reader_records(*old(reader))),
            Err(_) => !is_text_row(header_of(reader_records(*old(reader)))),
        },
{
    match reader.headers() {
        Ok(header) => Ok(header.clone().into_byte_record()),
        Err(e) => Err(e),
    }
}

/// `csv::ByteRecord::new`: a record buffer without fields.
#[verifier::external_body]
pub(crate) fn new_record() -> (record: csv::ByteRecord)
    ensures
        record_fields(record) == Seq::<Seq<u8>>::empty(),
{
    csv::ByteRecord::new()
}

/// `csv::Reader::read_byte_record` on a reader that has taken its header.
/// With a record left, the call takes it: it returns `Ok(true)` and leaves
/// the record in the buffer if the record has as many fields as the first
/// one, and fails if it has not. With none left it returns `Ok(false)` and
/// leaves the buffer without fields.
#[verifier::external_body]
pub(crate) fn read_record(reader: &mut csv::Reader<&[u8]>, record: &mut csv::ByteRecord) -> (r:
    Result<bool, csv::Error>)
    requires
        reader_cursor(*old(reader)) >= 1,
    ensures
        reader_records(*final(reader)) == reader_records(*old(reader)),
        match r {
            Ok(true) => {
                &&& reader_cursor(*old(reader)) < reader_records(*old(reader)).len()
                &&& reader_records(*old(reader))[reader_cursor(*old(reader)) as int].len()
                    == reader_records(*old(reader))[0].len()
                &&& reader_cursor(*final(reader)) == reader_cursor(*old(reader)) + 1
                &&& record_fields(*final(record)) == reader_records(*old(reader))[reader_cursor(
                    *old(reader),
                ) as int]
            },
            Ok(false) => {
                &&& reader_cursor(*old(reader)) >= reader_records(*old(reader)).len()
                &&& reader_cursor(*final(reader)) == reader_cursor(*old(reader))
                &&& record_fields(*final(record)).len() == 0
            },
            Err(_) => {
                &&& reader_cursor(*old(reader)) < reader_records(*old(reader)).len()
                &&& reader_records(*old(reader))[reader_cursor(*old(reader)) as int].len()
                    != reader_records(*old(reader))[0].len()
            },
        },
{
    reader.read_byte_record(record)
}

/// `csv::ByteRecord::iter`, with each field copied out: the fields of the
/// record, in order.
#[verifier::external_body]
pub(crate) fn record_cells(record: &csv::ByteRecord) -> (cells: Vec<Vec<u8>>)
    ensures
        cell_bytes(cells@) == record_fields(*record),
{
    record.iter().map(|field| field.to_vec()).collect()
}

} // verus!
