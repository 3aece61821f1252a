use fastmulp_core::{parse_content_disposition, DispositionKind, Error, TextValue};

fn name_of<'a>(value: &'a [u8]) -> Option<Vec<u8>> {
    let cd = parse_content_disposition(value, 0).unwrap_or_else(|e| panic!("{}", e.message()));
    cd.name.as_ref().map(|n| n.as_bytes().to_vec())
}

#[test]
fn reads_kind_name_and_file_name() {
    let cd = parse_content_disposition(b"form-data; name=\"field\"; filename=\"a.txt\"", 0)
        .unwrap_or_else(|e| panic!("{}", e.message()));
    assert_eq!(cd.kind, DispositionKind::FormData);
    assert_eq!(cd.name.as_ref().map(|n| n.as_bytes()), Some(&b"field"[..]));
    assert_eq!(cd.file_name.as_ref().map(|n| n.as_bytes()), Some(&b"a.txt"[..]));
    let cd = parse_content_disposition(b" FILE ", 0).unwrap_or_else(|e| panic!("{}", e.message()));
    assert_eq!(cd.kind, DispositionKind::File);
    assert!(cd.name.is_none());
    assert!(cd.file_name.is_none());
}

#[test]
fn borrows_values_that_need_no_decoding() {
    let value = b"form-data; name=\"plain\"";
    let cd = parse_content_disposition(value, 0).unwrap_or_else(|e| panic!("{}", e.message()));
    assert!(matches!(cd.name, Some(TextValue::Borrowed(b"plain"))));
    let cd = parse_content_disposition(b"form-data; name=a%41", 0)
        .unwrap_or_else(|e| panic!("{}", e.message()));
    assert!(matches!(cd.name, Some(TextValue::Borrowed(b"a%41"))));
}

#[test]
fn unescapes_quoted_values_into_owned_text() {
    let cd = parse_content_disposition(b"form-data; name=\"a\\\"b\\\\c\"", 0)
        .unwrap_or_else(|e| panic!("{}", e.message()));
    match cd.name {
        Some(TextValue::Owned(_)) => {}
        _ => panic!("an escaped value is decoded into a buffer"),
    }
    assert_eq!(cd.name.as_ref().map(|n| n.as_bytes()), Some(&b"a\"b\\c"[..]));
}

#[test]
fn decodes_html_form_escapes() {
    assert_eq!(name_of(b"form-data; name=\"a%22b%0d%0A\""), Some(b"a\"b\r\n".to_vec()));
    assert_eq!(name_of(b"form-data; name=\"%2%22\""), Some(b"%2\"".to_vec()));
    assert_eq!(name_of(b"form-data; name=\"100%\""), Some(b"100%".to_vec()));
}

#[test]
fn keeps_first_of_repeated_parameters() {
    assert_eq!(name_of(b"form-data; name=a; name=b"), Some(b"a".to_vec()));
    assert_eq!(name_of(b"FORM-DATA; NAME=x ; foo=bar;"), Some(b"x".to_vec()));
}

#[test]
fn decodes_extended_file_name() {
    let cd = parse_content_disposition(b"file; filename*=utf-8'en'%41%62c", 0)
        .unwrap_or_else(|e| panic!("{}", e.message()));
    assert_eq!(cd.kind, DispositionKind::File);
    assert_eq!(cd.file_name.as_ref().map(|n| n.as_bytes()), Some(&b"Abc"[..]));
    let cd = parse_content_disposition(b"form-data; name=a; filename*=US-ASCII''plain.txt", 0)
        .unwrap_or_else(|e| panic!("{}", e.message()));
    assert!(matches!(cd.file_name, Some(TextValue::Borrowed(b"plain.txt"))));
    let cd = parse_content_disposition(
        b"form-data; name=a; filename*=\"UTF-8''quoted\\\".txt\"; filename=fallback",
        0,
    )
    .unwrap_or_else(|e| panic!("{}", e.message()));
    assert_eq!(cd.file_name.as_ref().map(|n| n.as_bytes()), Some(&b"quoted\".txt"[..]));
}

#[test]
fn reports_invalid_content_disposition_offsets() {
    let err = |value: &[u8], offset: usize| match parse_content_disposition(value, offset) {
        Ok(_) => panic!("expected an error"),
        Err(e) => e,
    };
    assert_eq!(err(b"attachment", 5), Error::InvalidContentDisposition { offset: 5 });
    assert_eq!(
        err(b"form-data; filename*=iso-8859-1''x", 0),
        Error::InvalidContentDisposition { offset: 21 }
    );
    assert_eq!(
        err(b"form-data; filename*=UTF-8''%4", 0),
        Error::InvalidContentDisposition { offset: 21 }
    );
    assert_eq!(
        err(b"form-data; filename*=UTF-8''%zz", 0),
        Error::InvalidContentDisposition { offset: 22 }
    );
    assert_eq!(
        err(b"form-data; filename*=UTF-8''%4z", 0),
        Error::InvalidContentDisposition { offset: 23 }
    );
    assert_eq!(
        err(b"form-data; filename*=noquotes", 0),
        Error::InvalidContentDisposition { offset: 21 }
    );
    assert_eq!(err(b"form-data; name", 0), Error::InvalidContentDisposition { offset: 11 });
    assert_eq!(err(b"form-data; name=\"abc", 0), Error::InvalidContentDisposition { offset: 17 });
    assert_eq!(err(b"form-data; name=\"ab\\", 0), Error::InvalidContentDisposition { offset: 19 });
    assert_eq!(err(b"form-data; name=", 3), Error::InvalidContentDisposition { offset: 3 });
    assert_eq!(err(b"form-data; name= ;x=1", 0), Error::InvalidContentDisposition { offset: 17 });
    assert_eq!(err(b"form-data; name=\"a\"x", 0), Error::InvalidContentDisposition { offset: 19 });
}
