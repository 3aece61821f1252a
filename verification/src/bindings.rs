//! What the JavaScript bindings hand over: each part as owned strings and
//! `u32` body offsets, so that callers slice the original buffer themselves.
use vstd::prelude::*;
use vstd::string::{StringExecFns, StringSliceAdditionalSpecFns};
use vstd::utf8::{decode_utf8, encode_utf8_decode_utf8, valid_utf8};

use crate::boundary::{boundary_from_content_type, spec_boundary_from_content_type};
use crate::deps::str_from_utf8;
use crate::error::Error;
use crate::header::Header;
use crate::parser::{parse, spec_parse};
use crate::part::{opt_bytes_view, Part, SpecPart};
use crate::text::TextValue;

verus! {

/// A header as text.
pub struct JsHeader {
    pub name: String,
    pub value: String,
}

/// A part as text, with the range of its body in the multipart body.
pub struct JsPart {
    pub name: Option<String>,
    pub file_name: Option<String>,
    pub content_type: Option<String>,
    pub body_start: u32,
    pub body_end: u32,
    pub headers: Vec<JsHeader>,
}

/// The model of a `JsPart`.
pub struct SpecJsPart {
    pub name: Option<Seq<char>>,
    pub file_name: Option<Seq<char>>,
    pub content_type: Option<Seq<char>>,
    pub body_start: u32,
    pub body_end: u32,
    pub headers: Seq<(Seq<char>, Seq<char>)>,
}

pub open spec fn opt_string(o: Option<String>) -> Option<Seq<char>> {
    match o {
        Some(s) => Some(s@),
        None => None,
    }
}

impl View for JsHeader {
    type V = (Seq<char>, Seq<char>);

    open spec fn view(&self) -> (Seq<char>, Seq<char>) {
        (self.name@, self.value@)
    }
}

impl View for JsPart {
    type V = SpecJsPart;

    open spec fn view(&self) -> SpecJsPart {
        SpecJsPart {
            name: opt_string(self.name),
            file_name: opt_string(self.file_name),
            content_type: opt_string(self.content_type),
            body_start: self.body_start,
            body_end: self.body_end,
            headers: self.headers@.map_values(|h: JsHeader| h@),
        }
    }
}

/// Why the bindings reject a body.
#[derive(Debug, PartialEq, Eq)]
pub enum BindingError {
    /// The multipart body or its boundary is invalid.
    Parse(Error),
    /// The `Content-Type` names no boundary.
    MissingBoundary,
    /// The field named by `label` is not valid UTF-8.
    InvalidUtf8 { label: &'static str },
    /// The offset named by `label` does not fit in a `u32`.
    ExceedsU32 { label: &'static str },
}

impl BindingError {
    /// The human-readable description of the error.
    pub open spec fn spec_message(self) -> Seq<char> {
        match self {
            BindingError::Parse(e) => e.spec_message(),
            BindingError::MissingBoundary => "missing boundary parameter in Content-Type"@,
            BindingError::InvalidUtf8 { label } => label@ + " must be valid UTF-8"@,
            BindingError::ExceedsU32 { label } => label@ + " exceeds u32"@,
        }
    }

    /// The human-readable description of the error.
    pub fn message(&self) -> (r: String)
        ensures
            r@ == self.spec_message(),
    {
        match self {
            BindingError::Parse(e) => e.message(),
            BindingError::MissingBoundary => String::from_str(
                "missing boundary parameter in Content-Type",
            ),
            BindingError::InvalidUtf8 { label } => {
                let mut s = String::from_str(label);
                s.append(" must be valid UTF-8");
                s
            },
            BindingError::ExceedsU32 { label } => {
                let mut s = String::from_str(label);
                s.append(" exceeds u32");
                s
            },
        }
    }
}

/// A field as text, when it is valid UTF-8.
pub open spec fn spec_text_field(b: Seq<u8>, label: &'static str) -> Result<Seq<char>, BindingError> {
    if valid_utf8(b) {
        Ok(decode_utf8(b))
    } else {
        Err(BindingError::InvalidUtf8 { label })
    }
}

/// An optional field as text.
pub open spec fn spec_opt_text_field(o: Option<Seq<u8>>, label: &'static str) -> Result<
    Option<Seq<char>>,
    BindingError,
> {
    match o {
        None => Ok(None),
        Some(b) => match spec_text_field(b, label) {
            Ok(t) => Ok(Some(t)),
            Err(e) => Err(e),
        },
    }
}

/// An offset as a `u32`, when it fits.
pub open spec fn spec_u32_field(v: int, label: &'static str) -> Result<u32, BindingError> {
    if 0 <= v <= u32::MAX {
        Ok(v as u32)
    } else {
        Err(BindingError::ExceedsU32 { label })
    }
}

/// The headers from index `i` on as text; the first that is not UTF-8 (name before
/// value) is reported.
pub open spec fn spec_js_headers(hs: Seq<(Seq<u8>, Seq<u8>)>, i: int) -> Result<
    Seq<(Seq<char>, Seq<char>)>,
    BindingError,
>
    decreases hs.len() - i,
{
    if i < 0 || i >= hs.len() {
        Ok(Seq::empty())
    } else {
        match spec_text_field(hs[i].0, "header name") {
            Err(e) => Err(e),
            Ok(n) => match spec_text_field(hs[i].1, "header value") {
                Err(e) => Err(e),
                Ok(v) => match spec_js_headers(hs, i + 1) {
                    Err(e) => Err(e),
                    Ok(rest) => Ok(seq![(n, v)] + rest),
                },
            },
        }
    }
}

/// A part as text: headers first, then name, file name, content type and offsets,
/// the first failure reported.
pub open spec fn spec_js_part(p: SpecPart) -> Result<SpecJsPart, BindingError> {
    match spec_js_headers(p.headers, 0) {
        Err(e) => Err(e),
        Ok(headers) => match spec_opt_text_field(
            match p.name {
                Some(t) => Some(t.bytes),
                None => None,
            },
            "name",
        ) {
            Err(e) => Err(e),
            Ok(name) => match spec_opt_text_field(
                match p.file_name {
                    Some(t) => Some(t.bytes),
                    None => None,
                },
                "file_name",
            ) {
                Err(e) => Err(e),
                Ok(file_name) => match spec_opt_text_field(p.content_type, "content_type") {
                    Err(e) => Err(e),
                    Ok(content_type) => match spec_u32_field(p.body_start, "body_start") {
                        Err(e) => Err(e),
                        Ok(body_start) => match spec_u32_field(p.body_end, "body_end") {
                            Err(e) => Err(e),
                            Ok(body_end) => Ok(
                                SpecJsPart {
                                    name,
                                    file_name,
                                    content_type,
                                    body_start,
                                    body_end,
                                    headers,
                                },
                            ),
                        },
                    },
                },
            },
        },
    }
}

/// The parts from index `i` on as text; the first failure is reported.
pub open spec fn spec_js_parts(ps: Seq<SpecPart>, i: int) -> Result<Seq<SpecJsPart>, BindingError>
    decreases ps.len() - i,
{
    if i < 0 || i >= ps.len() {
        Ok(Seq::empty())
    } else {
        match spec_js_part(ps[i]) {
            Err(e) => Err(e),
            Ok(p) => match spec_js_parts(ps, i + 1) {
                Err(e) => Err(e),
                Ok(rest) => Ok(seq![p] + rest),
            },
        }
    }
}

/// A multipart body parsed and handed over as text.
pub open spec fn spec_parse_parts(body: Seq<u8>, boundary: Seq<u8>) -> Result<
    Seq<SpecJsPart>,
    BindingError,
> {
    match spec_parse(body, boundary) {
        Err(e) => Err(BindingError::Parse(e)),
        Ok(parts) => spec_js_parts(parts, 0),
    }
}

/// A field as text.
pub fn decode_utf8_field(value: &[u8], label: &'static str) -> (r: Result<String, BindingError>)
    ensures
        match spec_text_field(value@, label) {
            Ok(t) => r matches Ok(s) && s@ == t,
            Err(e) => r == Err::<String, BindingError>(e),
        },
{
    match str_from_utf8(value) {
        Ok(s) => {
            proof {
                encode_utf8_decode_utf8(s@);
            }
            Ok(s.to_owned())
        },
        Err(_) => Err(BindingError::InvalidUtf8 { label }),
    }
}

/// An optional text value as text.
pub fn decode_optional_text(value: Option<&TextValue<'_>>, label: &'static str) -> (r: Result<
    Option<String>,
    BindingError,
>)
    ensures
        match spec_opt_text_field(
            match value {
                Some(t) => Some(t@.bytes),
                None => None,
            },
            label,
        ) {
            Ok(t) => r matches Ok(s) && opt_string(s) == t,
            Err(e) => r == Err::<Option<String>, BindingError>(e),
        },
{
    match value {
        None => Ok(None),
        Some(t) => match decode_utf8_field(t.as_bytes(), label) {
            Ok(s) => Ok(Some(s)),
            Err(e) => Err(e),
        },
    }
}

/// An optional byte value as text.
pub fn decode_optional_bytes(value: Option<&[u8]>, label: &'static str) -> (r: Result<
    Option<String>,
    BindingError,
>)
    ensures
        match spec_opt_text_field(opt_bytes_view(value), label) {
            Ok(t) => r matches Ok(s) && opt_string(s) == t,
            Err(e) => r == Err::<Option<String>, BindingError>(e),
        },
{
    match value {
        None => Ok(None),
        Some(b) => match decode_utf8_field(b, label) {
            Ok(s) => Ok(Some(s)),
            Err(e) => Err(e),
        },
    }
}

/// An offset as a `u32`.
pub fn to_u32(value: usize, label: &'static str) -> (r: Result<u32, BindingError>)
    ensures
        r == spec_u32_field(value as int, label),
{
    if value <= 0xFFFF_FFFFusize {
        Ok(value as u32)
    } else {
        Err(BindingError::ExceedsU32 { label })
    }
}

/// A part as text.
pub fn convert_part(part: &Part<'_>) -> (r: Result<JsPart, BindingError>)
    ensures
        match spec_js_part(part@) {
            Ok(p) => r matches Ok(jp) && jp@ == p,
            Err(e) => r == Err::<JsPart, BindingError>(e),
        },
{
    let part_headers = part.headers();
    let ghost hs = part@.headers;
    let mut headers: Vec<JsHeader> = Vec::new();
    let mut i: usize = 0;
    while i < part_headers.len()
        invariant
            part_headers@.map_values(|h: Header| h@) == hs,
            hs == part@.headers,
            i <= part_headers@.len(),
            spec_js_headers(hs, 0) == match spec_js_headers(hs, i as int) {
                Ok(rest) => Ok(headers@.map_values(|h: JsHeader| h@) + rest),
                Err(e) => Err(e),
            },
        decreases part_headers.len() - i,
    {
        let header = &part_headers[i];
        proof {
            assert(hs[i as int] == part_headers@[i as int]@);
        }
        let name = match decode_utf8_field(header.name(), "header name") {
            Ok(s) => s,
            Err(e) => {
                return Err(e);
            },
        };
        let value = match decode_utf8_field(header.value(), "header value") {
            Ok(s) => s,
            Err(e) => {
                return Err(e);
            },
        };
        let ghost before = headers@.map_values(|h: JsHeader| h@);
        let js = JsHeader { name, value };
        let ghost jv = js@;
        headers.push(js);
        proof {
            assert(headers@.map_values(|h: JsHeader| h@) =~= before.push(jv));
            match spec_js_headers(hs, i + 1) {
                Ok(rest) => {
                    assert(before + (seq![jv] + rest) =~= before.push(jv) + rest);
                },
                Err(_) => {},
            }
        }
        i += 1;
    }
    proof {
        assert(headers@.map_values(|h: JsHeader| h@) + Seq::empty() =~= headers@.map_values(
            |h: JsHeader| h@,
        ));
    }
    let name = match decode_optional_text(part.name(), "name") {
        Ok(s) => s,
        Err(e) => {
            return Err(e);
        },
    };
    let file_name = match decode_optional_text(part.file_name(), "file_name") {
        Ok(s) => s,
        Err(e) => {
            return Err(e);
        },
    };
    let content_type = match decode_optional_bytes(part.content_type(), "content_type") {
        Ok(s) => s,
        Err(e) => {
            return Err(e);
        },
    };
    let range = part.body_range();
    let body_start = match to_u32(range.start, "body_start") {
        Ok(v) => v,
        Err(e) => {
            return Err(e);
        },
    };
    let body_end = match to_u32(range.end, "body_end") {
        Ok(v) => v,
        Err(e) => {
            return Err(e);
        },
    };
    Ok(JsPart { name, file_name, content_type, body_start, body_end, headers })
}

/// Parses a multipart body and hands its parts over as text.
pub fn parse_parts(body: &[u8], boundary: &[u8]) -> (r: Result<Vec<JsPart>, BindingError>)
    ensures
        match spec_parse_parts(body@, boundary@) {
            Ok(ps) => r matches Ok(v) && v@.map_values(|p: JsPart| p@) == ps,
            Err(e) => r == Err::<Vec<JsPart>, BindingError>(e),
        },
{
    let multipart = match parse(body, boundary) {
        Ok(m) => m,
        Err(e) => {
            return Err(BindingError::Parse(e));
        },
    };
    let parts = multipart.parts();
    let ghost ps = multipart@.1;
    let mut out: Vec<JsPart> = Vec::new();
    let mut i: usize = 0;
    while i < parts.len()
        invariant
            parts@.map_values(|p: Part| p@) == ps,
            spec_parse(body@, boundary@) == Ok::<Seq<SpecPart>, Error>(ps),
            i <= parts@.len(),
            spec_js_parts(ps, 0) == match spec_js_parts(ps, i as int) {
                Ok(rest) => Ok(out@.map_values(|p: JsPart| p@) + rest),
                Err(e) => Err(e),
            },
        decreases parts.len() - i,
    {
        proof {
            assert(ps[i as int] == parts@[i as int]@);
        }
        let converted = match convert_part(&parts[i]) {
            Ok(p) => p,
            Err(e) => {
                return Err(e);
            },
        };
        let ghost before = out@.map_values(|p: JsPart| p@);
        let ghost cv = converted@;
        out.push(converted);
        proof {
            assert(out@.map_values(|p: JsPart| p@) =~= before.push(cv));
            match spec_js_parts(ps, i + 1) {
                Ok(rest) => {
                    assert(before + (seq![cv] + rest) =~= before.push(cv) + rest);
                },
                Err(_) => {},
            }
        }
        i += 1;
    }
    proof {
        assert(out@.map_values(|p: JsPart| p@) + Seq::empty() =~= out@.map_values(|p: JsPart| p@));
    }
    Ok(out)
}

/// Reads the boundary from a `Content-Type` value, then parses as `parse_parts` does.
pub fn parse_content_type(body: &[u8], content_type: &str) -> (r: Result<
    Vec<JsPart>,
    BindingError,
>)
    ensures
        match spec_boundary_from_content_type(content_type.spec_bytes()) {
            None => r == Err::<Vec<JsPart>, BindingError>(BindingError::MissingBoundary),
            Some(b) => match spec_parse_parts(body@, b) {
                Ok(ps) => r matches Ok(v) && v@.map_values(|p: JsPart| p@) == ps,
                Err(e) => r == Err::<Vec<JsPart>, BindingError>(e),
            },
        },
{
    let boundary = match boundary_from_content_type(content_type) {
        Some(b) => b,
        None => {
            return Err(BindingError::MissingBoundary);
        },
    };
    parse_parts(body, boundary.as_bytes())
}

} // verus!
