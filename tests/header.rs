use mailparsing::{ConformanceFlag, Header, HeaderConformance, MailParsingError};

fn assert_static_lifetime(_header: Header<'static>) {
    assert!(true, "I wouldn't compile if this wasn't true");
}

#[test]
fn header_construction() {
    let header = Header::with_name_value("To", "someone@example.com");
    assert_eq!(header.get_name(), "To");
    assert_eq!(header.get_raw_value(), "someone@example.com");
    assert_eq!(header.to_header_string(), "To: someone@example.com\r\n");
    assert_static_lifetime(header);
}

#[test]
fn header_parsing() {
    let message = "Subject: hello there\n\
        From:  Someone <someone@example.com>\n\
        \n\
        I am the body";

    let (headers, body_offset) = Header::parse_headers(message).unwrap();
    assert_eq!(&message[body_offset..], "I am the body");
    assert_eq!(headers.len(), 2);
    assert_eq!(headers[0].get_name(), "Subject");
    assert_eq!(headers[0].get_raw_value(), "hello there");
    assert_eq!(headers[0].get_separator(), ": ");
    assert_eq!(headers[0].conformance().bits(), 0b0000_0010);
    assert_eq!(headers[1].get_name(), "From");
    assert_eq!(headers[1].get_raw_value(), "Someone <someone@example.com>");
    assert_eq!(headers[1].get_separator(), ":  ");
    assert_eq!(headers[1].conformance().bits(), 0b0000_0010);
}

#[test]
fn folded_continuation_keeps_interior_newline() {
    let input = "X-A: line1\n line2\n";
    let (h, used) = Header::parse(input).unwrap();
    assert_eq!(used, input.len());
    assert_eq!(h.get_name(), "X-A");
    assert_eq!(h.get_raw_value(), "line1\n line2");
    assert!(h.conformance().contains(ConformanceFlag::NonCanonicalLineEndings));
    assert!(!h.conformance().contains(ConformanceFlag::MissingColonValue));
}

#[test]
fn missing_colon_then_header_then_body() {
    let input = "Malformed\nNext: ok\n\nbody";
    let (headers, offset) = Header::parse_headers(input).unwrap();
    assert_eq!(headers.len(), 2);
    assert_eq!(headers[0].get_name(), "Malformed");
    assert_eq!(headers[0].get_raw_value(), "");
    assert!(headers[0].conformance().contains(ConformanceFlag::MissingColonValue));
    assert_eq!(headers[1].get_name(), "Next");
    assert_eq!(headers[1].get_raw_value(), "ok");
    assert!(!headers[1].conformance().contains(ConformanceFlag::MissingColonValue));
    assert_eq!(&input[offset..], "body");
}

#[test]
fn canonical_two_header_block() {
    let input = "Subject: hi\r\nFrom: a@b\r\n\r\nBODY";
    let (headers, offset) = Header::parse_headers(input).unwrap();
    assert_eq!(headers.len(), 2);
    assert_eq!(headers[0].get_name(), "Subject");
    assert_eq!(headers[0].get_raw_value(), "hi");
    assert!(headers[0].conformance().is_empty());
    assert_eq!(headers[1].get_name(), "From");
    assert_eq!(headers[1].get_raw_value(), "a@b");
    assert!(headers[1].conformance().is_empty());
    assert_eq!(&input[offset..], "BODY");
}

#[test]
fn lone_cr_between_headers_fails() {
    let r = Header::parse_headers("Subject: hi\r\n\rJunk");
    assert!(matches!(r, Err(MailParsingError::LoneCarriageReturn)));
}

#[test]
fn block_starting_with_space_fails() {
    let r = Header::parse_headers(" Subject: hi\n\n");
    assert!(matches!(r, Err(MailParsingError::MalformedHeader)));
}

#[test]
fn canonical_header_round_trips() {
    let built = Header::with_name_value("Subject", "hello world");
    let text = built.to_header_string();
    assert_eq!(text, "Subject: hello world\r\n");
    let (parsed, used) = Header::parse(&text).unwrap();
    assert_eq!(used, text.len());
    assert_eq!(parsed.get_name(), "Subject");
    assert_eq!(parsed.get_separator(), ": ");
    assert_eq!(parsed.get_raw_value(), "hello world");
    assert!(parsed.conformance().is_empty());
}

#[test]
fn empty_value_round_trips() {
    let built = Header::with_name_value("X", "");
    let mut out = Vec::new();
    built.write_header(&mut out);
    assert_eq!(out, b"X: \r\n".to_vec());
    let text = built.to_header_string();
    let (parsed, used) = Header::parse(&text).unwrap();
    assert_eq!(used, 5);
    assert_eq!(parsed.get_name(), "X");
    assert_eq!(parsed.get_raw_value(), "");
    assert!(parsed.conformance().is_empty());
}

#[test]
fn parse_always_advances_on_single_bytes() {
    for s in ["a", ":", "\n", " ", "\r", "\t"] {
        match Header::parse(s) {
            Ok((_, used)) => assert!(used >= 1 && used <= s.len()),
            Err(e) => assert_eq!(e, MailParsingError::MalformedHeader),
        }
    }
    let (h, used) = Header::parse("a").unwrap();
    assert_eq!(used, 1);
    assert_eq!(h.get_name(), "a");
    assert!(h.conformance().contains(ConformanceFlag::MissingColonValue));
}

#[test]
fn parse_empty_input_fails() {
    assert!(matches!(Header::parse(""), Err(MailParsingError::EmptyInput)));
}

#[test]
fn parse_rejects_leading_whitespace() {
    assert!(matches!(Header::parse("\tX: y\n"), Err(MailParsingError::MalformedHeader)));
}

#[test]
fn parse_rejects_control_byte_in_name() {
    assert!(matches!(Header::parse("Bad\rName: y\n"), Err(MailParsingError::MalformedHeader)));
    assert!(matches!(Header::parse("Bad Name: y\n"), Err(MailParsingError::MalformedHeader)));
}

#[test]
fn parse_stops_before_next_header() {
    let input = "A: 1\r\nB: 2\r\n";
    let (h, used) = Header::parse(input).unwrap();
    assert_eq!(used, 6);
    assert_eq!(h.get_raw_value(), "1");
    assert!(h.conformance().is_empty());
}

#[test]
fn folded_crlf_header_is_canonical() {
    let input = "A: 1\r\n\t2\r\nB: x\r\n";
    let (h, used) = Header::parse(input).unwrap();
    assert_eq!(used, 10);
    assert_eq!(h.get_raw_value(), "1\r\n\t2");
    assert!(h.conformance().is_empty());
}

#[test]
fn header_without_colon_at_end_of_input() {
    let (h, used) = Header::parse("Foo").unwrap();
    assert_eq!(used, 3);
    assert_eq!(h.get_name(), "Foo");
    assert_eq!(h.get_separator(), "");
    assert_eq!(h.get_raw_value(), "");
    assert!(h.conformance().contains(ConformanceFlag::MissingColonValue));
}

#[test]
fn separator_running_to_end_of_input() {
    let (h, used) = Header::parse("A:  ").unwrap();
    assert_eq!(used, 4);
    assert_eq!(h.get_name(), "A");
    assert_eq!(h.get_separator(), ":  ");
    assert_eq!(h.get_raw_value(), "");
    assert!(h.conformance().is_empty());
}

#[test]
fn value_keeps_multibyte_text() {
    let (h, used) = Header::parse("Subject: caf\u{e9} \u{2603}\nrest").unwrap();
    assert_eq!(h.get_raw_value(), "caf\u{e9} \u{2603}");
    assert_eq!(used, "Subject: caf\u{e9} \u{2603}\n".len());
}

#[test]
fn non_canonical_header_is_written_with_lf() {
    let (h, _) = Header::parse("A: b\n").unwrap();
    assert_eq!(h.to_header_string(), "A: b\n");
    let mut out = b"x".to_vec();
    h.write_header(&mut out);
    assert_eq!(out, b"xA: b\n".to_vec());
}

#[test]
fn missing_colon_header_is_written_back_unchanged() {
    let (h, used) = Header::parse("Malformed\n").unwrap();
    assert_eq!(used, 10);
    assert_eq!(h.to_header_string(), "Malformed\n");
}

#[test]
fn block_ending_without_blank_line() {
    let (headers, offset) = Header::parse_headers("A: 1\nB: 2").unwrap();
    assert_eq!(headers.len(), 2);
    assert_eq!(headers[1].get_raw_value(), "2");
    assert_eq!(offset, 9);
}

#[test]
fn block_starting_with_blank_line_fails() {
    assert!(matches!(Header::parse_headers("\r\nbody"), Err(MailParsingError::MalformedHeader)));
    assert!(matches!(Header::parse_headers("\nbody"), Err(MailParsingError::MalformedHeader)));
}

#[test]
fn block_ending_with_lone_cr_fails() {
    let r = Header::parse_headers("A: 1\r\n\r");
    assert!(matches!(r, Err(MailParsingError::LoneCarriageReturn)));
}

#[test]
fn block_propagates_header_error() {
    let r = Header::parse_headers("A: 1\nB@d\x01: 2\n\n");
    assert!(matches!(r, Err(MailParsingError::MalformedHeader)));
}

#[test]
fn empty_block_has_no_headers() {
    let (headers, offset) = Header::parse_headers("").unwrap();
    assert!(headers.is_empty());
    assert_eq!(offset, 0);
}

#[test]
fn conformance_flags_set_and_clear() {
    let mut c = HeaderConformance::default();
    assert!(c.is_empty());
    c.set(ConformanceFlag::MissingColonValue, true);
    assert_eq!(c.bits(), 1);
    c.set(ConformanceFlag::NonCanonicalLineEndings, true);
    assert_eq!(c.bits(), 3);
    assert!(c.contains(ConformanceFlag::NonCanonicalLineEndings));
    c.set(ConformanceFlag::MissingColonValue, false);
    assert_eq!(c.bits(), 2);
    assert!(!c.contains(ConformanceFlag::MissingColonValue));
    assert_eq!(HeaderConformance::from_flags(true, true).bits(), 3);
    assert_eq!(HeaderConformance::empty(), HeaderConformance::default());
}
