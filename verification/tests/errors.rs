use fastmulp_core::{parse, Boundary, Error};

fn parse_error(body: &[u8], boundary: &[u8]) -> Error {
    match parse(body, boundary) {
        Ok(_) => panic!("expected an error"),
        Err(e) => e,
    }
}

#[test]
fn rejects_empty_boundary() {
    assert_eq!(parse_error(b"--\r\n", b""), Error::EmptyBoundary);
}

#[test]
fn rejects_boundary_longer_than_seventy_bytes() {
    assert_eq!(
        parse_error(b"", &[b'a'; 71]),
        Error::BoundaryTooLong { len: 71 }
    );
    assert!(Boundary::new(&[b'a'; 70]).is_ok());
}

#[test]
fn reports_first_invalid_boundary_byte() {
    assert_eq!(
        Boundary::new(b"abc ").err(),
        Some(Error::InvalidBoundaryByte { offset: 3, byte: b' ' })
    );
    assert_eq!(
        Boundary::new(b"ab\"c;").err(),
        Some(Error::InvalidBoundaryByte { offset: 2, byte: b'"' })
    );
}

#[test]
fn boundary_opening_line_is_dashes_then_boundary() {
    let boundary = Boundary::new(b"abc'()+_,-./:=? x").unwrap_or_else(|e| panic!("{}", e.message()));
    assert_eq!(boundary.as_bytes(), b"abc'()+_,-./:=? x");
    assert_eq!(boundary.opening(), b"--abc'()+_,-./:=? x");
}

#[test]
fn rejects_body_without_starting_boundary() {
    assert_eq!(parse_error(b"hello world", b"abc"), Error::InvalidStartingBoundary);
    assert_eq!(parse_error(b"--ab\r\n", b"abc"), Error::InvalidStartingBoundary);
}

#[test]
fn rejects_bad_boundary_terminator() {
    assert_eq!(
        parse_error(b"--abcX\r\n", b"abc"),
        Error::InvalidBoundaryTerminator { offset: 5 }
    );
}

#[test]
fn rejects_headers_without_line_feed() {
    assert_eq!(
        parse_error(b"--abc\r\nContent-Disposition: form-data; name=a", b"abc"),
        Error::UnexpectedEnd { offset: 7 }
    );
}

#[test]
fn rejects_header_line_without_carriage_return() {
    assert_eq!(
        parse_error(b"--abc\r\nX: y\n", b"abc"),
        Error::InvalidHeaderLineEnding { offset: 11 }
    );
}

#[test]
fn rejects_header_continuation_lines() {
    assert_eq!(
        parse_error(b"--abc\r\n x: y\r\n", b"abc"),
        Error::InvalidHeaderContinuation { offset: 7 }
    );
}

#[test]
fn rejects_header_without_colon() {
    assert_eq!(
        parse_error(b"--abc\r\nnocolon\r\n\r\n", b"abc"),
        Error::MissingHeaderSeparator { offset: 7 }
    );
}

#[test]
fn rejects_header_name_that_is_not_a_token() {
    assert_eq!(
        parse_error(b"--abc\r\nbad name: v\r\n\r\n", b"abc"),
        Error::InvalidHeaderName { offset: 7 }
    );
    assert_eq!(
        parse_error(b"--abc\r\n: v\r\n\r\n", b"abc"),
        Error::InvalidHeaderName { offset: 7 }
    );
}

#[test]
fn rejects_part_without_content_disposition() {
    assert_eq!(
        parse_error(b"--abc\r\nContent-Type: text/plain\r\n\r\nbody\r\n--abc--", b"abc"),
        Error::MissingContentDisposition { offset: 7 }
    );
}

#[test]
fn rejects_form_data_part_without_name() {
    assert_eq!(
        parse_error(b"--abc\r\nContent-Disposition: form-data\r\n\r\nx\r\n--abc--", b"abc"),
        Error::MissingPartName { offset: 7 }
    );
}

#[test]
fn accepts_file_part_without_name() {
    let multipart = parse(b"--abc\r\nContent-Disposition: file\r\n\r\nx\r\n--abc--", b"abc")
        .unwrap_or_else(|e| panic!("{}", e.message()));
    assert_eq!(multipart.parts().len(), 1);
    assert!(multipart.parts()[0].name().is_none());
}

#[test]
fn rejects_unknown_disposition_type() {
    assert_eq!(
        parse_error(b"--abc\r\nContent-Disposition: attachment\r\n\r\nx\r\n--abc--", b"abc"),
        Error::InvalidContentDisposition { offset: 7 }
    );
}

#[test]
fn rejects_body_without_closing_boundary() {
    assert_eq!(
        parse_error(
            b"--abc\r\nContent-Disposition: form-data; name=a\r\n\r\npayload",
            b"abc"
        ),
        Error::MissingClosingBoundary { offset: 49 }
    );
}

#[test]
fn error_messages_match_display_text() {
    assert_eq!(Error::EmptyBoundary.message(), "multipart boundary must not be empty");
    assert_eq!(
        Error::BoundaryTooLong { len: 71 }.message(),
        "multipart boundary is too long: 71"
    );
    assert_eq!(
        Error::InvalidBoundaryByte { offset: 3, byte: b' ' }.message(),
        "multipart boundary contains an invalid byte at 3: 0x20"
    );
    assert_eq!(
        Error::InvalidBoundaryByte { offset: 0, byte: 0xff }.message(),
        "multipart boundary contains an invalid byte at 0: 0xff"
    );
    assert_eq!(
        Error::InvalidBoundaryByte { offset: 10, byte: 0x0a }.message(),
        "multipart boundary contains an invalid byte at 10: 0x0a"
    );
    assert_eq!(
        Error::InvalidStartingBoundary.message(),
        "multipart body does not start with the expected boundary"
    );
    assert_eq!(
        Error::InvalidBoundaryTerminator { offset: 5 }.message(),
        "multipart boundary terminator is invalid at byte offset 5"
    );
    assert_eq!(
        Error::UnexpectedEnd { offset: 1234567890 }.message(),
        "multipart body ended unexpectedly at byte offset 1234567890"
    );
    assert_eq!(
        Error::InvalidHeaderLineEnding { offset: 0 }.message(),
        "multipart header line must end with CRLF at byte offset 0"
    );
    assert_eq!(
        Error::InvalidHeaderContinuation { offset: 7 }.message(),
        "multipart header continuation is not supported at byte offset 7"
    );
    assert_eq!(
        Error::MissingHeaderSeparator { offset: 7 }.message(),
        "multipart header is missing ':' at byte offset 7"
    );
    assert_eq!(
        Error::InvalidHeaderName { offset: 7 }.message(),
        "multipart header name is invalid at byte offset 7"
    );
    assert_eq!(
        Error::MissingContentDisposition { offset: 7 }.message(),
        "multipart part is missing Content-Disposition at byte offset 7"
    );
    assert_eq!(
        Error::MissingPartName { offset: 7 }.message(),
        "multipart part is missing the Content-Disposition name parameter at byte offset 7"
    );
    assert_eq!(
        Error::InvalidContentDisposition { offset: 42 }.message(),
        "Content-Disposition is invalid at byte offset 42"
    );
    assert_eq!(
        Error::MissingClosingBoundary { offset: 49 }.message(),
        "multipart closing boundary was not found after byte offset 49"
    );
    assert_eq!(
        Error::TrailingData { offset: 9 }.message(),
        "multipart body has trailing data after byte offset 9"
    );
}
