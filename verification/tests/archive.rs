use warc_parser::{record, records, ParseStatus, Record, SyntaxElement};

fn sample(name: &str) -> Vec<u8> {
    let mut data: Vec<u8> = Vec::new();
    if name == "bbc.warc" {
        data.extend_from_slice(b"WARC/1.0\r\n");
        data.extend_from_slice(b"WARC-Type: response\r\n");
        data.extend_from_slice(b"WARC-Target-URI: http://www.bbc.co.uk/\r\n");
        data.extend_from_slice(b"WARC-Date: 2014-08-02T09:52:13Z\r\n");
        data.extend_from_slice(b"WARC-Payload-Digest: sha1:M63W6MNGFDWXDSLTHF7GWUPCJUH4JK3J\r\n");
        data.extend_from_slice(b"WARC-IP-Address: 212.58.244.70\r\n");
        data.extend_from_slice(b"WARC-Record-ID: <urn:uuid:ffbfb0c0-6456-42b0-af03-3867be6fc09f>\r\n");
        data.extend_from_slice(b"WARC-Filename: bbc.warc\r\n");
        data.extend_from_slice(b"WARC-Warcinfo-ID: <urn:uuid:3169ca8e-39a6-42e9-a4e3-9f001f067bdf>\r\n");
        data.extend_from_slice(b"WARC-Block-Digest: sha1:YZEXWBVWXBTVVLM3JRK3KIC4NBJZUC2G\r\n");
        data.extend_from_slice(b"WARC-Concurrent-To: <urn:uuid:dd1d4a19-21b2-4b4b-9b5d-0b1b1a0b3d0f>\r\n");
        data.extend_from_slice(b"Content-Type: application/http; msgtype=response\r\n");
        data.extend_from_slice(b"Content-Length: 38\r\n");
        data.extend_from_slice(b"\r\n");
        data.extend_from_slice(b"HTTP/1.1 200 OK\r\nContent-Length: 0\r\n\r\n");
    } else if name == "plethora.warc" {
        data.extend_from_slice(b"WARC/1.0\r\nWARC-Type: warcinfo\r\nWARC-Filename: plethora.warc\r\n");
        data.extend_from_slice(b"Content-Length: 21\r\n\r\nsoftware: wget/1.15\r\n\r\n\r\n");
        data.extend_from_slice(b"WARC/1.0\r\nWARC-Type: request\r\nContent-Length: 18\r\n\r\n");
        data.extend_from_slice(b"GET / HTTP/1.1\r\n\r\n\r\n\r\n");
        data.extend_from_slice(b"WARC/1.0\nWARC-Type: response\nContent-Length: 4\n\n\x00\xff\r\n\n\n");
        data.extend_from_slice(b"WARC/0.18\r\nWARC-Type : metadata\r\nContent-Length:0\r\n\r\n\r\n\r\n");
    }
    data
}

fn header<'a>(record: &'a Record, name: &str) -> Option<&'a str> {
    record.headers.get(name).map(|value| value.as_str())
}

#[test]
fn it_parses_a_plethora() {
    let examples = sample("plethora.warc");
    let parsed = records(&examples);
    println!("{:?}", parsed);
    assert!(parsed.is_ok());
}

#[test]
fn it_parses_single() {
    let bbc = sample("bbc.warc");
    let parsed = record(&bbc);
    assert!(parsed.is_ok());
    match parsed {
        Err(ParseStatus::Incomplete { .. }) => assert!(false),
        Err(_) => assert!(false),
        Ok((record, i)) => {
            let empty: Vec<u8> = Vec::new();
            assert_eq!(empty, i);
            assert_eq!(13, record.headers.len());
        }
    }
}

#[test]
fn plethora_holds_four_records_in_order() {
    let examples = sample("plethora.warc");
    let (list, rest) = records(&examples).unwrap();
    assert!(rest.is_empty());
    assert_eq!(list.len(), 4);
    assert_eq!(header(&list[0], "WARC-Type"), Some("warcinfo"));
    assert_eq!(header(&list[1], "WARC-Type"), Some("request"));
    assert_eq!(header(&list[2], "WARC-Type"), Some("response"));
    assert_eq!(header(&list[3], "WARC-Type"), Some("metadata"));
    assert_eq!(list[0].content, b"software: wget/1.15\r\n".to_vec());
    assert_eq!(list[1].content, b"GET / HTTP/1.1\r\n\r\n".to_vec());
    assert_eq!(list[2].content, vec![0x00u8, 0xff, 0x0d, 0x0a]);
    assert_eq!(list[3].content, Vec::<u8>::new());
    assert_eq!(header(&list[3], "WARCVERSION"), Some("0.18"));
    assert_eq!(header(&list[0], "WARC-Filename"), Some("plethora.warc"));
}

#[test]
fn single_record_scenario() {
    let input = b"WARC/1.0\r\nContent-Length: 5\r\n\r\nhello\r\n\r\n";
    let (list, rest) = records(input).unwrap();
    assert!(rest.is_empty());
    assert_eq!(list.len(), 1);
    assert_eq!(list[0].headers.len(), 2);
    assert_eq!(header(&list[0], "WARCVERSION"), Some("1.0"));
    assert_eq!(header(&list[0], "Content-Length"), Some("5"));
    assert_eq!(list[0].content, b"hello".to_vec());
}

#[test]
fn record_leaves_the_separator() {
    let input = b"WARC/1.0\r\nContent-Length: 5\r\n\r\nhello\r\n\r\n";
    let (rec, rest) = record(input).unwrap();
    assert_eq!(rec.content, b"hello".to_vec());
    assert_eq!(rest, b"\r\n\r\n");
}

#[test]
fn exact_length_body_without_truncation() {
    let input = b"WARC/1.0\r\nContent-Length: 10\r\n\r\n0123456789\r\n\r\nWARC/1.0";
    let (rec, rest) = record(input).unwrap();
    assert_eq!(rec.content, b"0123456789".to_vec());
    assert_eq!(rec.content.len(), 10);
    assert_eq!(rest, b"\r\n\r\nWARC/1.0");
    assert!(!rec.headers.contains_key("WARC-Truncated"));
}

#[test]
fn body_that_ends_with_the_buffer() {
    let input = b"WARC/1.0\r\nContent-Length: 10\r\n\r\n0123456789";
    let (rec, rest) = record(input).unwrap();
    assert_eq!(rec.content, b"0123456789".to_vec());
    assert!(rest.is_empty());
}

#[test]
fn truncated_record_is_clamped() {
    let mut input = b"WARC/1.0\r\nContent-Length: 1000\r\nWARC-Truncated: length\r\n\r\n".to_vec();
    let body: Vec<u8> = (0..40u8).collect();
    input.extend_from_slice(&body);
    let (rec, rest) = record(&input).unwrap();
    assert_eq!(rec.content.len(), 40);
    assert_eq!(rec.content, body);
    assert!(rest.is_empty());
    assert_eq!(header(&rec, "WARC-Truncated"), Some("length"));
    assert_eq!(header(&rec, "Content-Length"), Some("1000"));
}

#[test]
fn truncated_record_with_enough_bytes_takes_the_declared_length() {
    let input = b"WARC/1.0\r\nWARC-Truncated:\r\nContent-Length: 3\r\n\r\nabcdef";
    let (rec, rest) = record(input).unwrap();
    assert_eq!(rec.content, b"abc".to_vec());
    assert_eq!(rest, b"def");
    assert_eq!(header(&rec, "WARC-Truncated"), Some(""));
}

#[test]
fn clamped_record_has_no_separator_left() {
    let input = b"WARC/1.0\r\nContent-Length: 1000\r\nWARC-Truncated: length\r\n\r\nshort\r\n\r\n";
    let (rec, rest) = record(input).unwrap();
    assert_eq!(rec.content, b"short\r\n\r\n".to_vec());
    assert!(rest.is_empty());
    assert_eq!(records(input).unwrap_err(), ParseStatus::Incomplete { needed: 1 });
}

#[test]
fn short_body_without_truncation_is_incomplete() {
    let input = b"WARC/1.0\r\nContent-Length: 1000\r\n\r\nonly a few bytes";
    assert_eq!(record(input).unwrap_err(), ParseStatus::Incomplete { needed: 984 });
    assert_eq!(records(input).unwrap_err(), ParseStatus::Incomplete { needed: 984 });
}

#[test]
fn duplicate_header_last_value_wins() {
    let input = b"WARC/1.0\r\nX-Tag: first\r\nContent-Length: 0\r\nX-Tag: second\r\nX-Tag: third\r\n\r\n";
    let (rec, _) = record(input).unwrap();
    assert_eq!(header(&rec, "X-Tag"), Some("third"));
    assert_eq!(rec.headers.len(), 3);
}

#[test]
fn duplicate_content_length_last_value_wins() {
    let input = b"WARC/1.0\r\nContent-Length: 4\r\nContent-Length: 2\r\n\r\nabcdef";
    let (rec, rest) = record(input).unwrap();
    assert_eq!(rec.content, b"ab".to_vec());
    assert_eq!(rest, b"cdef");
}

#[test]
fn header_named_like_the_version_entry_replaces_it() {
    let input = b"WARC/1.0\r\nWARCVERSION: 9\r\nContent-Length: 0\r\n\r\n";
    let (rec, _) = record(input).unwrap();
    assert_eq!(header(&rec, "WARCVERSION"), Some("9"));
    assert_eq!(rec.headers.len(), 2);
}

#[test]
fn header_names_are_case_sensitive() {
    let input = b"WARC/1.0\r\ncontent-length: 3\r\n\r\nabc";
    assert_eq!(
        record(input).unwrap_err(),
        ParseStatus::MissingRequiredHeader { name: "Content-Length".to_string() }
    );
}

#[test]
fn missing_content_length_is_an_error() {
    let input = b"WARC/1.0\r\nWARC-Type: response\r\n\r\nbody";
    assert_eq!(
        record(input).unwrap_err(),
        ParseStatus::MissingRequiredHeader { name: "Content-Length".to_string() }
    );
    assert_eq!(
        records(input).unwrap_err(),
        ParseStatus::MissingRequiredHeader { name: "Content-Length".to_string() }
    );
}

#[test]
fn non_numeric_content_length_is_an_error() {
    let input = b"WARC/1.0\r\nContent-Length: five\r\n\r\nhello";
    assert_eq!(
        record(input).unwrap_err(),
        ParseStatus::InvalidHeaderValue {
            name: "Content-Length".to_string(),
            raw_value: "five".to_string(),
        }
    );
}

#[test]
fn content_length_with_trailing_blank_is_an_error() {
    let input = b"WARC/1.0\r\nContent-Length: 5 \r\n\r\nhello";
    assert_eq!(
        record(input).unwrap_err(),
        ParseStatus::InvalidHeaderValue {
            name: "Content-Length".to_string(),
            raw_value: "5 ".to_string(),
        }
    );
}

#[test]
fn content_length_that_overflows_is_an_error() {
    let input = b"WARC/1.0\r\nContent-Length: 99999999999999999999999999\r\n\r\nhello";
    assert_eq!(
        record(input).unwrap_err(),
        ParseStatus::InvalidHeaderValue {
            name: "Content-Length".to_string(),
            raw_value: "99999999999999999999999999".to_string(),
        }
    );
}

#[test]
fn version_line_without_magic_is_malformed() {
    let input = b"HTTP/1.0\r\nContent-Length: 0\r\n\r\n\r\n\r\n";
    assert_eq!(
        record(input).unwrap_err(),
        ParseStatus::MalformedSyntax { element: SyntaxElement::VersionLine, location: 0 }
    );
    assert_eq!(
        records(input).unwrap_err(),
        ParseStatus::MalformedSyntax { element: SyntaxElement::VersionLine, location: 0 }
    );
}

#[test]
fn version_line_with_wrong_slash_is_malformed_at_the_slash() {
    let input = b"\r\nWARC-1.0\r\n";
    assert_eq!(
        record(input).unwrap_err(),
        ParseStatus::MalformedSyntax { element: SyntaxElement::VersionLine, location: 6 }
    );
}

#[test]
fn short_magic_mismatch_is_malformed_not_incomplete() {
    assert_eq!(
        record(b"WX").unwrap_err(),
        ParseStatus::MalformedSyntax { element: SyntaxElement::VersionLine, location: 1 }
    );
    assert_eq!(record(b"WA").unwrap_err(), ParseStatus::Incomplete { needed: 1 });
}

#[test]
fn version_line_with_garbage_after_the_number_is_malformed() {
    let input = b"WARC/1.0 beta\r\n";
    assert_eq!(
        record(input).unwrap_err(),
        ParseStatus::MalformedSyntax { element: SyntaxElement::VersionLine, location: 8 }
    );
}

#[test]
fn header_line_without_colon_is_malformed() {
    let input = b"WARC/1.0\r\nWARC-Type response\r\n\r\n";
    assert_eq!(
        record(input).unwrap_err(),
        ParseStatus::MalformedSyntax { element: SyntaxElement::HeaderLine, location: 20 }
    );
}

#[test]
fn header_block_needs_one_header() {
    let input = b"WARC/1.0\r\n\r\nbody";
    assert_eq!(
        record(input).unwrap_err(),
        ParseStatus::MalformedSyntax { element: SyntaxElement::HeaderLine, location: 10 }
    );
}

#[test]
fn line_that_is_no_header_after_the_headers_is_malformed() {
    let input = b"WARC/1.0\r\nContent-Length: 0\r\nnot a header\r\n\r\n";
    assert_eq!(
        record(input).unwrap_err(),
        ParseStatus::MalformedSyntax { element: SyntaxElement::HeaderLine, location: 29 }
    );
}

#[test]
fn value_with_a_byte_that_is_not_printable_is_malformed() {
    let input = b"WARC/1.0\r\nX: caf\xc3\xa9\r\nContent-Length: 0\r\n\r\n";
    assert_eq!(
        record(input).unwrap_err(),
        ParseStatus::MalformedSyntax { element: SyntaxElement::HeaderLine, location: 16 }
    );
}

#[test]
fn garbage_after_a_record_is_malformed() {
    let input = b"WARC/1.0\r\nContent-Length: 5\r\n\r\nhelloXY\r\n\r\n";
    let (rec, rest) = record(input).unwrap();
    assert_eq!(rec.content, b"hello".to_vec());
    assert_eq!(rest, b"XY\r\n\r\n");
    assert_eq!(
        records(input).unwrap_err(),
        ParseStatus::MalformedSyntax { element: SyntaxElement::RecordTerminator, location: 36 }
    );
}

#[test]
fn error_in_a_later_record_is_located_from_the_start_of_the_buffer() {
    let mut input = b"WARC/1.0\r\nContent-Length: 5\r\n\r\nhello\r\n\r\n".to_vec();
    let first = input.len();
    input.extend_from_slice(b"WARC/1.0\r\nbroken line\r\n\r\n");
    assert_eq!(
        records(&input).unwrap_err(),
        ParseStatus::MalformedSyntax {
            element: SyntaxElement::HeaderLine,
            location: first + 17,
        }
    );
}

#[test]
fn later_record_without_length_fails_the_whole_buffer() {
    let mut input = b"WARC/1.0\r\nContent-Length: 5\r\n\r\nhello\r\n\r\n".to_vec();
    input.extend_from_slice(b"WARC/1.0\r\nWARC-Type: request\r\n\r\n");
    assert_eq!(
        records(&input).unwrap_err(),
        ParseStatus::MissingRequiredHeader { name: "Content-Length".to_string() }
    );
}

#[test]
fn empty_buffer_is_incomplete() {
    assert_eq!(record(b"").unwrap_err(), ParseStatus::Incomplete { needed: 1 });
    assert_eq!(records(b"").unwrap_err(), ParseStatus::Incomplete { needed: 1 });
}

#[test]
fn every_proper_prefix_of_a_record_is_incomplete() {
    let input = b"WARC/1.0\r\nWARC-Type: response\r\nContent-Length: 5\r\n\r\nhello\r\n\r\n";
    assert_eq!(records(input).unwrap().0.len(), 1);
    let body = input.len() - 9;
    for cut in 0..input.len() {
        let needed = if body <= cut && cut < body + 5 { body + 5 - cut } else { 1 };
        assert_eq!(records(&input[..cut]).unwrap_err(), ParseStatus::Incomplete { needed }, "cut at {}", cut);
    }
}

#[test]
fn incomplete_body_asks_for_the_missing_bytes() {
    let head = b"WARC/1.0\r\nContent-Length: 10\r\n\r\n";
    let mut input = head.to_vec();
    for have in 0..10 {
        assert_eq!(record(&input).unwrap_err(), ParseStatus::Incomplete { needed: 10 - have });
        input.push(b'x');
    }
    assert_eq!(record(&input).unwrap().0.content, b"xxxxxxxxxx".to_vec());
}

#[test]
fn buffer_cut_inside_a_later_record_is_incomplete() {
    let one = b"WARC/1.0\r\nContent-Length: 5\r\n\r\nhello\r\n\r\n";
    let mut input = one.to_vec();
    input.extend_from_slice(one);
    input.extend_from_slice(one);
    assert_eq!(records(&input).unwrap().0.len(), 3);
    for cut in 0..input.len() {
        let result = records(&input[..cut]);
        if cut > 0 && cut % one.len() == 0 {
            assert_eq!(result.unwrap().0.len(), cut / one.len());
        } else {
            assert!(matches!(result.unwrap_err(), ParseStatus::Incomplete { .. }), "cut at {}", cut);
        }
    }
}

#[test]
fn header_cut_before_its_line_end_is_incomplete() {
    assert_eq!(record(b"WARC/1.0\r\nContent-Length: 5").unwrap_err(), ParseStatus::Incomplete { needed: 1 });
    assert_eq!(record(b"WARC/1.0\r\nContent-Length: 5\r").unwrap_err(), ParseStatus::Incomplete { needed: 1 });
    assert_eq!(record(b"WARC/1.0\r\nContent-Length: 5\r\n").unwrap_err(), ParseStatus::Incomplete { needed: 1 });
    assert_eq!(record(b"WARC/1.0\r\nContent-Len").unwrap_err(), ParseStatus::Incomplete { needed: 1 });
    assert_eq!(record(b"WARC/1.0\r\nContent-Length:   ").unwrap_err(), ParseStatus::Incomplete { needed: 1 });
}

#[test]
fn concatenated_records_come_back_in_order() {
    let bodies: Vec<&[u8]> = vec![b"", b"a", b"bb\r\n", b"\r\n\r\nWARC/1.0\r\n", b"last"];
    let mut input: Vec<u8> = Vec::new();
    for (i, body) in bodies.iter().enumerate() {
        input.extend_from_slice(format!("WARC/1.0\r\nX-Index: {}\r\nContent-Length: {}\r\n\r\n", i, body.len()).as_bytes());
        input.extend_from_slice(body);
        input.extend_from_slice(b"\r\n\r\n");
    }
    let (list, rest) = records(&input).unwrap();
    assert!(rest.is_empty());
    assert_eq!(list.len(), bodies.len());
    for (i, body) in bodies.iter().enumerate() {
        assert_eq!(list[i].content, body.to_vec());
        assert_eq!(header(&list[i], "X-Index"), Some(format!("{}", i).as_str()));
        assert_eq!(header(&list[i], "Content-Length"), Some(format!("{}", body.len()).as_str()));
    }
}

#[test]
fn blanks_around_the_colon_are_skipped() {
    let input = b"WARC/ \t1.1\nName \t : \t value with blanks \nContent-Length\t:\t2\n\nok";
    let (rec, rest) = record(input).unwrap();
    assert_eq!(header(&rec, "WARCVERSION"), Some("1.1"));
    assert_eq!(header(&rec, "Name"), Some("value with blanks "));
    assert_eq!(header(&rec, "Content-Length"), Some("2"));
    assert_eq!(rec.content, b"ok".to_vec());
    assert!(rest.is_empty());
}

#[test]
fn tab_inside_a_value_ends_it() {
    let input = b"WARC/1.0\r\nName: a\tb\r\nContent-Length: 0\r\n\r\n";
    assert_eq!(
        record(input).unwrap_err(),
        ParseStatus::MalformedSyntax { element: SyntaxElement::HeaderLine, location: 17 }
    );
}

#[test]
fn empty_name_value_and_version_are_accepted() {
    let input = b"WARC/\n:\nContent-Length: 0\n\n";
    let (rec, _) = record(input).unwrap();
    assert_eq!(header(&rec, "WARCVERSION"), Some(""));
    assert_eq!(header(&rec, ""), Some(""));
    assert_eq!(rec.headers.len(), 3);
}

#[test]
fn leading_blank_line_is_skipped() {
    let input = b"\r\nWARC/1.0\r\nContent-Length: 0\r\n\r\n";
    let (rec, rest) = record(input).unwrap();
    assert_eq!(header(&rec, "WARCVERSION"), Some("1.0"));
    assert!(rest.is_empty());
}

#[test]
fn content_is_a_copy() {
    let rec = {
        let input = b"WARC/1.0\r\nContent-Length: 5\r\n\r\nhello".to_vec();
        let (rec, _) = record(&input).unwrap();
        rec
    };
    assert_eq!(rec.content, b"hello".to_vec());
}

#[test]
fn tilde_is_a_token_byte_and_dot_is_not() {
    let input = b"WARC/1.0\r\nX~Y: 1\r\nContent-Length: 0\r\n\r\n";
    let (rec, _) = record(input).unwrap();
    assert_eq!(header(&rec, "X~Y"), Some("1"));
    let input = b"WARC/1.0\r\nX.Y: 1\r\nContent-Length: 0\r\n\r\n";
    assert_eq!(
        record(input).unwrap_err(),
        ParseStatus::MalformedSyntax { element: SyntaxElement::HeaderLine, location: 11 }
    );
}

#[test]
fn answers_are_final_when_the_buffer_grows() {
    let whole = b"WARC/1.0\r\nContent-Length: 5\r\n\r\nhello\r\n\r\nWARC/1.0\r\nbroken\r\n";
    let mut earlier: Option<Result<(Vec<u8>, usize), ParseStatus>> = None;
    for end in 0..=whole.len() {
        let now = match warc_parser::record_complete(&whole[..end]) {
            Ok((rec, used)) => Ok((rec.content, used)),
            Err(status) => Err(status),
        };
        if let Some(before) = earlier {
            if !matches!(before, Err(ParseStatus::Incomplete { .. })) {
                assert_eq!(before, now, "at {}", end);
            }
        }
        earlier = Some(now);
    }
    assert_eq!(earlier, Some(Ok((b"hello".to_vec(), 40))));
}

#[test]
fn errors_are_final_when_the_buffer_grows() {
    let whole = b"WARC/1.0\r\nContent-Length: 5\r\n\r\nhello\r\n\r\nWARC/1.0\r\nbroken\r\nmore";
    let mut failed: Option<ParseStatus> = None;
    for end in 0..=whole.len() {
        match records(&whole[..end]) {
            Err(ParseStatus::Incomplete { .. }) => assert!(failed.is_none(), "at {}", end),
            Err(status) => {
                if let Some(before) = &failed {
                    assert_eq!(before, &status, "at {}", end);
                }
                failed = Some(status);
            }
            Ok((list, _)) => {
                assert!(failed.is_none());
                assert_eq!(end, 40);
                assert_eq!(list.len(), 1);
            }
        }
    }
    assert_eq!(
        failed,
        Some(ParseStatus::MalformedSyntax { element: SyntaxElement::HeaderLine, location: 56 })
    );
}
