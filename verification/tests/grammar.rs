use warc_parser::lines::{header_aggregator, header_match, init_line, line_end, warc_header};
use warc_parser::elements::Cursor;
use warc_parser::status::{ParseStatus, SyntaxElement};

fn malformed(element: SyntaxElement, location: usize) -> ParseStatus {
    ParseStatus::MalformedSyntax { element, location }
}

#[test]
fn init_line_returns_the_version() {
    assert_eq!(init_line(b"WARC/1.0\r\nrest").unwrap(), (&b"1.0"[..], 10));
    assert_eq!(init_line(b"WARC/1.0\nrest").unwrap(), (&b"1.0"[..], 9));
    assert_eq!(init_line(b"WARC/0.18\n").unwrap(), (&b"0.18"[..], 10));
    assert_eq!(init_line(b"WARC/ \t 1.1\r\n").unwrap(), (&b"1.1"[..], 13));
}

#[test]
fn init_line_skips_one_line_end_before_it() {
    assert_eq!(init_line(b"\r\nWARC/1.0\r\n").unwrap(), (&b"1.0"[..], 12));
    assert_eq!(init_line(b"\nWARC/1.0\r\n").unwrap(), (&b"1.0"[..], 11));
    assert_eq!(init_line(b"\rWARC/1.0\r\n").unwrap(), (&b"1.0"[..], 11));
    assert_eq!(
        init_line(b"\n\nWARC/1.0\r\n").unwrap_err(),
        malformed(SyntaxElement::VersionLine, 1)
    );
    assert_eq!(
        init_line(b"\n\rWARC/1.0\r\n").unwrap_err(),
        malformed(SyntaxElement::VersionLine, 1)
    );
}

#[test]
fn init_line_errors() {
    assert_eq!(init_line(b"warc/1.0\r\n").unwrap_err(), malformed(SyntaxElement::VersionLine, 0));
    assert_eq!(init_line(b"WARX/1.0\r\n").unwrap_err(), malformed(SyntaxElement::VersionLine, 3));
    assert_eq!(init_line(b"WARC 1.0\r\n").unwrap_err(), malformed(SyntaxElement::VersionLine, 4));
    assert_eq!(init_line(b"WARC/1.0\r\r\n").unwrap_err(), malformed(SyntaxElement::VersionLine, 9));
    assert_eq!(init_line(b"WARC/1.0 \r\n").unwrap_err(), malformed(SyntaxElement::VersionLine, 8));
    assert_eq!(init_line(b"WARC/one\r\n").unwrap_err(), malformed(SyntaxElement::VersionLine, 5));
}

#[test]
fn init_line_incomplete() {
    for cut in 0..b"WARC/1.0\r\n".len() {
        assert_eq!(init_line(&b"WARC/1.0\r\n"[..cut]).unwrap_err(), ParseStatus::Incomplete { needed: 1 });
    }
    assert_eq!(init_line(b"WARC/  ").unwrap_err(), ParseStatus::Incomplete { needed: 1 });
}

#[test]
fn header_match_returns_name_and_value() {
    let ((name, value), used) = header_match(b"Content-Type: text/plain\r\nnext").unwrap();
    assert_eq!(name, b"Content-Type");
    assert_eq!(value, b"text/plain");
    assert_eq!(used, 26);
    let ((name, value), used) = header_match(b"a:b\n").unwrap();
    assert_eq!((name, value, used), (&b"a"[..], &b"b"[..], 4));
    let ((name, value), used) = header_match(b"a \t:\t b c \n").unwrap();
    assert_eq!(name, b"a");
    assert_eq!(value, b"b c ");
    assert_eq!(used, 11);
}

#[test]
fn header_match_value_keeps_colons_and_trailing_blanks() {
    let ((name, value), _) = header_match(b"WARC-Date: 2014-08-02T09:52:13Z  \r\n").unwrap();
    assert_eq!(name, b"WARC-Date");
    assert_eq!(value, b"2014-08-02T09:52:13Z  ");
}

#[test]
fn header_match_errors() {
    assert_eq!(header_match(b"\r\n").unwrap_err(), malformed(SyntaxElement::HeaderLine, 0));
    assert_eq!(header_match(b"name\r\n").unwrap_err(), malformed(SyntaxElement::HeaderLine, 4));
    assert_eq!(header_match(b"na me: v\n").unwrap_err(), malformed(SyntaxElement::HeaderLine, 3));
    assert_eq!(header_match(b"n: v\rx").unwrap_err(), malformed(SyntaxElement::HeaderLine, 5));
    assert_eq!(header_match(b"n: v\x00\n").unwrap_err(), malformed(SyntaxElement::HeaderLine, 4));
}

#[test]
fn header_match_incomplete() {
    let line = b"Name : value\r\n";
    for cut in 0..line.len() {
        assert_eq!(header_match(&line[..cut]).unwrap_err(), ParseStatus::Incomplete { needed: 1 });
    }
}

#[test]
fn header_aggregator_collects_the_lines_in_order() {
    let (fields, used) = header_aggregator(b"a: 1\r\nb: 2\nc:3\r\n\r\nbody").unwrap();
    assert_eq!(used, 16);
    assert_eq!(fields, vec![(&b"a"[..], &b"1"[..]), (&b"b"[..], &b"2"[..]), (&b"c"[..], &b"3"[..])]);
}

#[test]
fn header_aggregator_keeps_duplicates() {
    let (fields, _) = header_aggregator(b"a: 1\na: 2\n\n").unwrap();
    assert_eq!(fields, vec![(&b"a"[..], &b"1"[..]), (&b"a"[..], &b"2"[..])]);
}

#[test]
fn header_aggregator_stops_at_a_line_that_is_no_header() {
    let (fields, used) = header_aggregator(b"a: 1\nno header here\n").unwrap();
    assert_eq!(fields.len(), 1);
    assert_eq!(used, 5);
}

#[test]
fn header_aggregator_needs_a_first_header() {
    assert_eq!(
        header_aggregator(b"\r\n").unwrap_err(),
        malformed(SyntaxElement::HeaderLine, 0)
    );
    assert_eq!(
        header_aggregator(b"no colon\n").unwrap_err(),
        malformed(SyntaxElement::HeaderLine, 3)
    );
}

#[test]
fn header_aggregator_incomplete() {
    assert_eq!(header_aggregator(b"").unwrap_err(), ParseStatus::Incomplete { needed: 1 });
    assert_eq!(header_aggregator(b"a: 1\n").unwrap_err(), ParseStatus::Incomplete { needed: 1 });
    assert_eq!(header_aggregator(b"a: 1\nb").unwrap_err(), ParseStatus::Incomplete { needed: 1 });
    assert_eq!(header_aggregator(b"a: 1\nb: 2").unwrap_err(), ParseStatus::Incomplete { needed: 1 });
}

#[test]
fn warc_header_returns_version_and_headers() {
    let ((version, fields), used) =
        warc_header(b"WARC/1.0\r\nWARC-Type: response\r\nContent-Length: 4\r\n\r\nbody").unwrap();
    assert_eq!(version, b"1.0");
    assert_eq!(
        fields,
        vec![(&b"WARC-Type"[..], &b"response"[..]), (&b"Content-Length"[..], &b"4"[..])]
    );
    assert_eq!(used, 52);
}

#[test]
fn warc_header_errors_are_located_in_its_input() {
    assert_eq!(
        warc_header(b"WARC/1.0\r\nWARC-Type response\r\n\r\n").unwrap_err(),
        malformed(SyntaxElement::HeaderLine, 20)
    );
    assert_eq!(
        warc_header(b"WARC/1.0\r\na: 1\r\n\rx").unwrap_err(),
        malformed(SyntaxElement::HeaderLine, 17)
    );
    assert_eq!(
        warc_header(b"WARC/1.0\r\na: 1\r\nb\r\n").unwrap_err(),
        malformed(SyntaxElement::HeaderLine, 16)
    );
    assert_eq!(warc_header(b"WARC/1.0\r\na: 1\r\n").unwrap_err(), ParseStatus::Incomplete { needed: 1 });
    assert_eq!(warc_header(b"WARC/1.0\r\na: 1\r\n\r").unwrap_err(), ParseStatus::Incomplete { needed: 1 });
}

#[test]
fn line_end_takes_lf_or_crlf() {
    assert_eq!(line_end(b"x\r\ny", Cursor::At(1)), Cursor::At(3));
    assert_eq!(line_end(b"x\ny", Cursor::At(1)), Cursor::At(2));
    assert_eq!(line_end(b"xy", Cursor::At(1)), Cursor::Malformed(1));
    assert_eq!(line_end(b"x\ry", Cursor::At(1)), Cursor::Malformed(2));
    assert_eq!(line_end(b"x\r", Cursor::At(1)), Cursor::Incomplete);
    assert_eq!(line_end(b"x", Cursor::At(1)), Cursor::Incomplete);
}

#[test]
fn cursor_offset_and_fault() {
    assert_eq!(Cursor::At(7).offset(), 7);
    assert_eq!(Cursor::Incomplete.offset(), 0);
    assert_eq!(Cursor::Malformed(7).offset(), 0);
    assert_eq!(
        Cursor::Malformed(7).fault(SyntaxElement::RecordTerminator),
        malformed(SyntaxElement::RecordTerminator, 7)
    );
    assert_eq!(Cursor::Incomplete.fault(SyntaxElement::HeaderLine), ParseStatus::Incomplete { needed: 1 });
}
