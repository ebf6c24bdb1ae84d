use csv_count::has_open_quote;

#[test]
fn input_without_quotes_is_closed() {
    assert!(!has_open_quote(b""));
    assert!(!has_open_quote(b"a,b\n1,2\n"));
    assert!(!has_open_quote(b"\n\n"));
}

#[test]
fn quote_at_a_cell_start_opens() {
    assert!(has_open_quote(b"\""));
    assert!(has_open_quote(b"\"abc"));
    assert!(has_open_quote(b"a,\""));
    assert!(has_open_quote(b"a\n\"b"));
    assert!(has_open_quote(b"a\r\"b"));
    assert!(has_open_quote(b"a\r\n\"b,c\nd"));
}

#[test]
fn closing_quote_closes() {
    assert!(!has_open_quote(b"\"\""));
    assert!(!has_open_quote(b"\"abc\""));
    assert!(!has_open_quote(b"\"a,b\nc\",d"));
    assert!(!has_open_quote(b"\"a\"b"));
    assert!(!has_open_quote(b"\"a\"b\""));
}

#[test]
fn doubled_quote_stays_inside() {
    assert!(has_open_quote(b"\"\"\""));
    assert!(has_open_quote(b"\"a\"\"b"));
    assert!(!has_open_quote(b"\"a\"\"b\""));
    assert!(!has_open_quote(b"\"\"\"\""));
}

#[test]
fn quote_in_a_plain_cell_is_content() {
    assert!(!has_open_quote(b"a\""));
    assert!(!has_open_quote(b"a\"b,c"));
    assert!(!has_open_quote(b" \"a"));
    assert!(has_open_quote(b"a\"b,\"c"));
}

#[test]
fn byte_order_mark_is_skipped_once() {
    assert!(has_open_quote(b"\xef\xbb\xbf\""));
    assert!(!has_open_quote(b"\xef\xbb\xbf\"a\""));
    assert!(!has_open_quote(b"\xef\xbb\xbf"));
    assert!(!has_open_quote(b"\xef\xbb\""));
    assert!(!has_open_quote(b"a\xef\xbb\xbf\""));
    assert!(!has_open_quote(b"\xef\xbb\xbf\xef\xbb\xbf\""));
}
