use csv_count::{decode_cells, histogram, read_csv, DecodeError, Field};

fn cells_of(texts: &[&str]) -> Vec<Vec<u8>> {
    texts.iter().map(|t| t.as_bytes().to_vec()).collect()
}

#[test]
fn end_to_end() {
    let data = b"a,b\n1,hello\nNULL,2.5\nx,NULL\n";
    assert_eq!(
        decode_cells(data),
        Ok(cells_of(&["1", "hello", "NULL", "2.5", "x", "NULL"]))
    );
    let fields = read_csv(data).unwrap();
    assert_eq!(
        fields,
        vec![
            Some(Field::Integer),
            Some(Field::String),
            None,
            Some(Field::Float),
            Some(Field::String),
            None,
        ]
    );
    let h = histogram(&fields);
    assert_eq!(h.get(&Some(Field::Integer)), Some(1));
    assert_eq!(h.get(&Some(Field::String)), Some(2));
    assert_eq!(h.get(&Some(Field::Float)), Some(1));
    assert_eq!(h.get(&None), Some(2));
    assert_eq!(h.get(&Some(Field::Unknown)), None);
    assert_eq!(h.total(), 6);
}

#[test]
fn header_is_never_counted() {
    let fields = read_csv(b"42,NULL\nx,y\n").unwrap();
    assert_eq!(fields, vec![Some(Field::String), Some(Field::String)]);
    let h = histogram(&fields);
    assert_eq!(h.get(&Some(Field::Integer)), None);
    assert_eq!(h.get(&None), None);
    assert_eq!(h.get(&Some(Field::String)), Some(2));
    assert_eq!(h.total(), 2);
}

#[test]
fn header_values_do_not_matter() {
    assert_eq!(read_csv(b"a,b\n1,2.5\n"), read_csv(b"42,NULL\n1,2.5\n"));
    assert_eq!(decode_cells(b"a,b\n1,2.5\n"), decode_cells(b"3.5,\n1,2.5\n"));
}

#[test]
fn header_alone_gives_no_cells() {
    assert_eq!(decode_cells(b"a,b\n"), Ok(Vec::new()));
    assert_eq!(decode_cells(b"a,b"), Ok(Vec::new()));
    assert_eq!(read_csv(b"a,b\n"), Ok(Vec::new()));
}

#[test]
fn empty_input_has_no_header() {
    assert_eq!(decode_cells(b""), Err(DecodeError::MissingHeader));
    assert_eq!(read_csv(b""), Err(DecodeError::MissingHeader));
}

#[test]
fn blank_lines_hold_no_header() {
    assert_eq!(decode_cells(b"\n\n\n"), Err(DecodeError::MissingHeader));
    assert_eq!(read_csv(b"\r\n\r\n"), Err(DecodeError::MissingHeader));
}

#[test]
fn header_must_be_text() {
    assert_eq!(decode_cells(b"a,\xff\n1,2\n"), Err(DecodeError::InvalidHeader));
    assert_eq!(read_csv(b"\x80\n1\n"), Err(DecodeError::InvalidHeader));
}

#[test]
fn records_must_be_as_long_as_the_header() {
    assert_eq!(decode_cells(b"a,b\n1,2\n3\n"), Err(DecodeError::UnequalLengths));
    assert_eq!(decode_cells(b"a,b\n1,2,3\n"), Err(DecodeError::UnequalLengths));
    assert_eq!(read_csv(b"a\n1\n2,3\n4\n"), Err(DecodeError::UnequalLengths));
}

#[test]
fn quoting_is_undone() {
    let data = b"a,b\n\"x,y\",\"he said \"\"hi\"\"\"\n\"line\nbreak\",\"\"\n";
    assert_eq!(
        decode_cells(data),
        Ok(cells_of(&["x,y", "he said \"hi\"", "line\nbreak", ""]))
    );
    assert_eq!(
        read_csv(b"a,b\n\"1\",\"NULL\"\n"),
        Ok(vec![Some(Field::Integer), None])
    );
}

#[test]
fn cells_keep_their_whitespace() {
    assert_eq!(
        decode_cells(b"a,b\n 1,2 \n"),
        Ok(cells_of(&[" 1", "2 "]))
    );
    assert_eq!(
        read_csv(b"a,b\n 1,NULL \n"),
        Ok(vec![Some(Field::String), Some(Field::String)])
    );
}

#[test]
fn last_record_needs_no_line_end() {
    assert_eq!(decode_cells(b"a,b\n1,2"), Ok(cells_of(&["1", "2"])));
    assert_eq!(decode_cells(b"a,b\r\n1,2\r\n"), Ok(cells_of(&["1", "2"])));
}

#[test]
fn blank_lines_between_records_are_skipped() {
    assert_eq!(decode_cells(b"a\n\n1\n\n2\n"), Ok(cells_of(&["1", "2"])));
}

#[test]
fn cells_that_are_not_text_are_kept() {
    assert_eq!(
        decode_cells(b"a,b\n\xff,1\n"),
        Ok(vec![vec![0xff], b"1".to_vec()])
    );
    assert_eq!(
        read_csv(b"a,b\n\xff,1\n"),
        Ok(vec![Some(Field::Unknown), Some(Field::Integer)])
    );
}

#[test]
fn rows_come_in_file_order() {
    assert_eq!(
        decode_cells(b"h1,h2,h3\na,b,c\nd,e,f\ng,h,i\n"),
        Ok(cells_of(&["a", "b", "c", "d", "e", "f", "g", "h", "i"]))
    );
}

#[test]
fn every_decoded_cell_is_counted() {
    let data = b"a,b,c\n1,2,3\nx,NULL,4.5\n,,\n\xfe,7,y\n";
    let cells = decode_cells(data).unwrap();
    let fields = read_csv(data).unwrap();
    assert_eq!(cells.len(), 12);
    assert_eq!(fields.len(), cells.len());
    assert_eq!(histogram(&fields).total(), 12);
}

#[test]
fn open_quote_in_a_data_record_is_fatal() {
    assert_eq!(decode_cells(b"a\n\"1\n"), Err(DecodeError::UnterminatedQuote));
    assert_eq!(read_csv(b"a\n\"1\n"), Err(DecodeError::UnterminatedQuote));
    assert!(read_csv(b"a\n\"1\n").is_err());
    assert_eq!(read_csv(b"a,b\n1,2\n3,\"4"), Err(DecodeError::UnterminatedQuote));
    assert_eq!(read_csv(b"a,b\n1,\"2\n3,4\n"), Err(DecodeError::UnterminatedQuote));
}

#[test]
fn open_quote_in_the_header_is_fatal() {
    assert_eq!(read_csv(b"\"a,b\n1,2\n"), Err(DecodeError::UnterminatedQuote));
    assert_eq!(read_csv(b"\""), Err(DecodeError::UnterminatedQuote));
}

#[test]
fn open_quote_after_a_doubled_quote_is_fatal() {
    assert_eq!(read_csv(b"a\n\"1\"\""), Err(DecodeError::UnterminatedQuote));
    assert_eq!(read_csv(b"a\n\"1\"\"\""), Ok(vec![Some(Field::String)]));
}

#[test]
fn open_quote_comes_before_the_other_errors() {
    assert_eq!(read_csv(b"a,b\n1\n\"x"), Err(DecodeError::UnterminatedQuote));
    assert_eq!(read_csv(b"\xff\n\"x"), Err(DecodeError::UnterminatedQuote));
}

#[test]
fn closed_quote_at_the_end_is_accepted() {
    assert_eq!(decode_cells(b"a\n\"1\""), Ok(cells_of(&["1"])));
    assert_eq!(decode_cells(b"a\n\"1\"\n"), Ok(cells_of(&["1"])));
    assert_eq!(decode_cells(b"a\n\"\""), Ok(cells_of(&[""])));
}

#[test]
fn quote_inside_a_plain_cell_opens_nothing() {
    assert_eq!(decode_cells(b"a\nx\"y\n"), Ok(cells_of(&["x\"y"])));
    assert_eq!(decode_cells(b"a,b\n1\",2"), Ok(cells_of(&["1\"", "2"])));
}

#[test]
fn byte_order_mark_is_no_cell_content() {
    assert_eq!(decode_cells(b"\xef\xbb\xbf\"a\"\n1\n"), Ok(cells_of(&["1"])));
    assert_eq!(
        decode_cells(b"\xef\xbb\xbf\"a\n1\n"),
        Err(DecodeError::UnterminatedQuote)
    );
}
