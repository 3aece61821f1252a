use fastmulp_core::bindings::{convert_part, parse_content_type, parse_parts};
use fastmulp_core::{parse, BindingError, Error, Header, MultipartParser, TextValue};

const BODY: &[u8] = b"preamble\r\n--xyz\r\nContent-Disposition: form-data; name=\"a\"\r\n\r\nfirst\r\n--xyz \t\r\nContent-Disposition: form-data; name=\"b\"; filename=\"b.bin\"\r\nContent-Type: application/octet-stream\r\nX-Extra: 1\r\n\r\nsecond\r\n--xyz--\r\nepilogue";

#[test]
fn parts_come_in_order_each_before_a_delimiter() {
    let multipart = parse(BODY, b"xyz").unwrap_or_else(|e| panic!("{}", e.message()));
    let parts = multipart.parts();
    assert_eq!(parts.len(), 2);
    let mut previous_end = 0;
    for part in parts {
        let range = part.body_range();
        assert!(previous_end < range.start && range.start <= range.end);
        assert!(BODY[range.end..].starts_with(b"\r\n--xyz"));
        previous_end = range.end;
    }
    assert_eq!(parts[0].body(BODY), b"first");
    assert_eq!(parts[1].body(BODY), b"second");
    assert_eq!(multipart.body(), BODY);
}

#[test]
fn every_part_has_a_disposition_header_and_token_names() {
    let multipart = parse(BODY, b"xyz").unwrap_or_else(|e| panic!("{}", e.message()));
    for part in multipart.parts() {
        assert!(part
            .headers()
            .iter()
            .any(|h| h.name_eq_ignore_ascii_case(b"content-disposition")));
        assert!(part.name().is_some());
    }
    let headers = multipart.parts()[1].headers();
    assert_eq!(headers.len(), 3);
    assert_eq!(headers[2].name(), b"X-Extra");
    assert_eq!(headers[2].value(), b"1");
    assert_eq!(
        multipart.parts()[1].content_type(),
        Some(&b"application/octet-stream"[..])
    );
}

#[test]
fn parser_yields_parts_then_stops() {
    let mut parser = MultipartParser::new(BODY, b"xyz").unwrap_or_else(|e| panic!("{}", e.message()));
    let first = parser.next();
    assert!(matches!(&first, Some(Ok(p)) if p.body(BODY) == b"first"));
    let second = parser.next();
    assert!(matches!(&second, Some(Ok(p)) if p.body(BODY) == b"second"));
    assert!(parser.next().is_none());
    assert!(parser.next().is_none());
}

#[test]
fn header_accessors_and_case_insensitive_names() {
    let header = Header::new(b"Content-Type", b"text/plain");
    assert_eq!(header.name(), b"Content-Type");
    assert_eq!(header.value(), b"text/plain");
    assert!(header.name_eq_ignore_ascii_case(b"CONTENT-type"));
    assert!(!header.name_eq_ignore_ascii_case(b"content-typ"));
}

#[test]
fn header_values_lose_surrounding_spaces_and_tabs() {
    let body = b"--abc\r\nContent-Disposition: \t form-data; name=x \t\r\n\r\nv\r\n--abc--";
    let multipart = parse(body, b"abc").unwrap_or_else(|e| panic!("{}", e.message()));
    assert_eq!(multipart.parts()[0].headers()[0].value(), b"form-data; name=x");
}

#[test]
fn text_value_as_str_requires_utf8() {
    let body = b"--abc\r\nContent-Disposition: form-data; name=\"\xff\"\r\n\r\nv\r\n--abc--";
    let multipart = parse(body, b"abc").unwrap_or_else(|e| panic!("{}", e.message()));
    let name = multipart.parts()[0].name().unwrap_or_else(|| panic!("name"));
    assert_eq!(name.as_bytes(), b"\xff");
    assert!(name.as_str().is_err());
    assert!(matches!(name, TextValue::Borrowed(_)));
}

#[test]
fn bindings_hand_over_text_and_offsets() {
    let parts = parse_parts(BODY, b"xyz").unwrap_or_else(|e| panic!("{}", e.message()));
    assert_eq!(parts.len(), 2);
    assert_eq!(parts[0].name.as_deref(), Some("a"));
    assert_eq!(parts[0].file_name, None);
    assert_eq!(parts[1].file_name.as_deref(), Some("b.bin"));
    assert_eq!(parts[1].content_type.as_deref(), Some("application/octet-stream"));
    let start = parts[1].body_start as usize;
    let end = parts[1].body_end as usize;
    assert_eq!(&BODY[start..end], b"second");
    assert_eq!(parts[1].headers.len(), 3);
    assert_eq!(parts[1].headers[1].name, "Content-Type");
    assert_eq!(parts[1].headers[1].value, "application/octet-stream");
}

#[test]
fn bindings_read_the_boundary_from_the_content_type() {
    let parts = parse_content_type(BODY, "multipart/form-data; boundary=xyz")
        .unwrap_or_else(|e| panic!("{}", e.message()));
    assert_eq!(parts.len(), 2);
    let missing = parse_content_type(BODY, "text/plain");
    assert!(matches!(missing, Err(BindingError::MissingBoundary)));
    assert_eq!(
        BindingError::MissingBoundary.message(),
        "missing boundary parameter in Content-Type"
    );
}

#[test]
fn bindings_reject_non_utf8_fields_and_parse_errors() {
    let body = b"--abc\r\nContent-Disposition: form-data; name=x\r\nX-Bin: \xff\r\n\r\nv\r\n--abc--";
    let err = parse_parts(body, b"abc").err();
    assert_eq!(err, Some(BindingError::InvalidUtf8 { label: "header value" }));
    assert_eq!(
        BindingError::InvalidUtf8 { label: "header value" }.message(),
        "header value must be valid UTF-8"
    );
    let multipart = parse(body, b"abc").unwrap_or_else(|e| panic!("{}", e.message()));
    assert_eq!(
        convert_part(&multipart.parts()[0]).err(),
        Some(BindingError::InvalidUtf8 { label: "header value" })
    );
    let err = parse_parts(b"nothing", b"abc").err();
    assert_eq!(err, Some(BindingError::Parse(Error::InvalidStartingBoundary)));
    assert_eq!(
        BindingError::Parse(Error::InvalidStartingBoundary).message(),
        "multipart body does not start with the expected boundary"
    );
    assert_eq!(
        BindingError::ExceedsU32 { label: "body_end" }.message(),
        "body_end exceeds u32"
    );
}

#[test]
fn bytes_after_a_crlf_terminated_body_change_nothing() {
    let body: &[u8] = b"--b\r\nContent-Disposition: form-data; name=\"f\"\r\n\r\nvalue\r\n--b--\r\n";
    let mut extended = body.to_vec();
    extended.extend_from_slice(b"trailing epilogue bytes");
    let plain = parse(body, b"b").unwrap_or_else(|e| panic!("{}", e.message()));
    let longer = parse(&extended, b"b").unwrap_or_else(|e| panic!("{}", e.message()));
    assert_eq!(plain.parts().len(), 1);
    assert_eq!(longer.parts().len(), 1);
    assert_eq!(plain.parts()[0].body_range(), longer.parts()[0].body_range());
    assert_eq!(longer.parts()[0].body(&extended), b"value");
    assert_eq!(
        plain.parts()[0].name().map(|n| n.as_bytes().to_vec()),
        longer.parts()[0].name().map(|n| n.as_bytes().to_vec())
    );
}

#[test]
fn bytes_glued_to_the_close_delimiter_are_not_an_epilogue() {
    let body: &[u8] = b"--b\r\nContent-Disposition: form-data; name=\"f\"\r\n\r\nvalue\r\n--b--";
    assert!(parse(body, b"b").is_ok());
    let mut extended = body.to_vec();
    extended.extend_from_slice(b"x");
    assert!(parse(&extended, b"b").is_err());
}

#[test]
fn a_preamble_moves_every_body_range_by_its_length() {
    let body: &[u8] = b"--b\r\nContent-Disposition: form-data; name=\"f\"\r\n\r\nvalue\r\n--b\r\nContent-Disposition: form-data; name=\"g\"\r\n\r\nother\r\n--b--\r\n";
    let preamble: &[u8] = b"This is the preamble.\r\n";
    let mut whole = preamble.to_vec();
    whole.extend_from_slice(body);
    let plain = parse(body, b"b").unwrap_or_else(|e| panic!("{}", e.message()));
    let shifted = parse(&whole, b"b").unwrap_or_else(|e| panic!("{}", e.message()));
    assert_eq!(plain.parts().len(), 2);
    assert_eq!(shifted.parts().len(), 2);
    for (a, b) in plain.parts().iter().zip(shifted.parts().iter()) {
        let (ra, rb) = (a.body_range(), b.body_range());
        assert_eq!(ra.start + preamble.len(), rb.start);
        assert_eq!(ra.end + preamble.len(), rb.end);
        assert_eq!(a.body(body), b.body(&whole));
        assert_eq!(a.headers().len(), b.headers().len());
    }
}

#[test]
fn letter_case_outside_the_boundary_value_changes_nothing() {
    let lower = "multipart/form-data; charset=utf-8; boundary=AbC-123";
    let upper = "MULTIPART/Form-Data; CHARSET=utf-8; BOUNDARY=AbC-123";
    assert_eq!(fastmulp_core::boundary_from_content_type(lower), Some("AbC-123"));
    assert_eq!(
        fastmulp_core::boundary_from_content_type(upper),
        fastmulp_core::boundary_from_content_type(lower)
    );
    assert_eq!(fastmulp_core::boundary_from_content_type("TEXT/plain; boundary=x"), None);
}

fn parse_ranges(body: &[u8], boundary: &[u8]) -> fastmulp_core::Result<Vec<std::ops::Range<usize>>> {
    let multipart = parse(body, boundary)?;
    Ok(multipart.parts().iter().map(|p| p.body_range()).collect())
}

#[test]
fn every_body_starts_right_after_a_blank_line() {
    let ranges = parse_ranges(BODY, b"xyz").unwrap_or_else(|e| panic!("{}", e.message()));
    assert_eq!(ranges.len(), 2);
    for range in ranges {
        assert!(range.start >= 4);
        assert_eq!(&BODY[range.start - 4..range.start], b"\r\n\r\n");
    }
    assert!(matches!(parse_ranges(b"--b\r\n", b"b"), Err(Error::UnexpectedEnd { .. })));
}

#[test]
fn many_headers_parts_and_long_escaped_names_are_kept_whole() {
    let long_name = "a-rather-long-field-name-with-an-\\\"escape\\\"-inside-it";
    let mut body = Vec::new();
    for i in 0..6 {
        body.extend_from_slice(b"--q\r\n");
        body.extend_from_slice(format!("Content-Disposition: form-data; name=\"{long_name}{i}\"\r\n").as_bytes());
        for h in 0..5 {
            body.extend_from_slice(format!("X-H{h}: v{h}\r\n").as_bytes());
        }
        body.extend_from_slice(format!("\r\nbody{i}\r\n").as_bytes());
    }
    body.extend_from_slice(b"--q--\r\n");
    let multipart = parse(&body, b"q").unwrap_or_else(|e| panic!("{}", e.message()));
    assert_eq!(multipart.parts().len(), 6);
    for (i, part) in multipart.parts().iter().enumerate() {
        assert_eq!(part.headers().len(), 6);
        assert_eq!(part.headers()[5].name(), b"X-H4");
        assert_eq!(part.body(&body), format!("body{i}").as_bytes());
        let expected = format!("a-rather-long-field-name-with-an-\"escape\"-inside-it{i}");
        assert_eq!(part.name().map(|n| n.as_bytes()), Some(expected.as_bytes()));
    }
}
