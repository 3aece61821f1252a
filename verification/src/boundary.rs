//! Multipart boundaries: validating one, and reading one from a `Content-Type` value.
use vstd::prelude::*;
use vstd::string::StringSliceAdditionalSpecFns;
use vstd::utf8::*;

use crate::deps::{
    opening_buf_as_slice, opening_buf_bytes, opening_buf_extend_from_slice,
    opening_buf_with_capacity, OpeningBuf,
};
use crate::error::Error;
use crate::names::{
    boundary_param, dash_dash, multipart_prefix, spec_boundary_param, spec_dash_dash,
    spec_multipart_prefix,
};
use crate::util::{
    eq_ignore_ascii_case, is_ws, lemma_skip_ws, lemma_trim_end_index, skip_ascii_whitespace,
    spec_eq_ignore_case, spec_skip_ws, spec_trim, spec_trim_end_index, trim_ascii,
    trim_ascii_end_index,
};

verus! {

broadcast use vstd::utf8::encode_utf8_valid_utf8;

/// The longest boundary RFC 2046 allows.
pub const MAX_BOUNDARY_LEN: usize = 70;

/// A validated boundary together with its opening line `"--" boundary`.
#[derive(Debug, PartialEq, Eq)]
pub struct Boundary<'a> {
    raw: &'a [u8],
    opening: OpeningBuf,
}

impl<'a> View for Boundary<'a> {
    /// The boundary and its opening line.
    type V = (Seq<u8>, Seq<u8>);

    closed spec fn view(&self) -> (Seq<u8>, Seq<u8>) {
        (self.raw@, opening_buf_bytes(self.opening))
    }
}

/// An RFC 2046 `bchars` byte; a space may not end the boundary.
pub open spec fn spec_is_boundary_byte(b: u8, is_last: bool) -> bool {
    ||| 0x30u8 <= b && b <= 0x39u8
    ||| 0x61u8 <= b && b <= 0x7Au8
    ||| 0x41u8 <= b && b <= 0x5Au8
    ||| b == 0x27u8 || b == 0x28u8 || b == 0x29u8 || b == 0x2Bu8 || b == 0x5Fu8 || b == 0x2Cu8
    ||| b == 0x2Du8 || b == 0x2Eu8 || b == 0x2Fu8 || b == 0x3Au8 || b == 0x3Du8 || b == 0x3Fu8
    ||| b == 0x20u8 && !is_last
}

/// The first index at or after `i` whose byte may not stand there in a boundary.
pub open spec fn spec_first_invalid_boundary_byte(raw: Seq<u8>, i: int) -> Option<int>
    decreases raw.len() - i,
{
    if i < 0 || i >= raw.len() {
        None
    } else if !spec_is_boundary_byte(raw[i], i + 1 == raw.len()) {
        Some(i)
    } else {
        spec_first_invalid_boundary_byte(raw, i + 1)
    }
}

/// Why `raw` is not a valid boundary, if it is not one.
pub open spec fn spec_boundary_error(raw: Seq<u8>) -> Option<Error> {
    if raw.len() == 0 {
        Some(Error::EmptyBoundary)
    } else if raw.len() > 70 {
        Some(Error::BoundaryTooLong { len: raw.len() as usize })
    } else {
        match spec_first_invalid_boundary_byte(raw, 0) {
            Some(i) => Some(Error::InvalidBoundaryByte { offset: i as usize, byte: raw[i] }),
            None => None,
        }
    }
}

pub proof fn lemma_first_invalid_boundary_byte(raw: Seq<u8>, i: int)
    requires
        0 <= i,
    ensures
        match spec_first_invalid_boundary_byte(raw, i) {
            Some(k) => i <= k < raw.len() && !spec_is_boundary_byte(raw[k], k + 1 == raw.len()),
            None => forall|k: int|
                i <= k < raw.len() ==> spec_is_boundary_byte(#[trigger] raw[k], k + 1 == raw.len()),
        },
    decreases raw.len() - i,
{
    if i < raw.len() && spec_is_boundary_byte(raw[i], i + 1 == raw.len()) {
        lemma_first_invalid_boundary_byte(raw, i + 1);
    }
}

pub fn is_boundary_byte(byte: u8, is_last: bool) -> (r: bool)
    ensures
        r == spec_is_boundary_byte(byte, is_last),
{
    if (0x30u8 <= byte && byte <= 0x39u8) || (0x61u8 <= byte && byte <= 0x7Au8) || (0x41u8 <= byte
        && byte <= 0x5Au8) {
        return true;
    }
    if byte == 0x27u8 || byte == 0x28u8 || byte == 0x29u8 || byte == 0x2Bu8 || byte == 0x5Fu8
        || byte == 0x2Cu8 || byte == 0x2Du8 || byte == 0x2Eu8 || byte == 0x2Fu8 || byte == 0x3Au8
        || byte == 0x3Du8 || byte == 0x3Fu8 {
        return true;
    }
    if byte == 0x20u8 {
        return !is_last;
    }
    false
}

impl<'a> Boundary<'a> {
    /// Validates `raw` as a boundary (1 to 70 `bchars`, not ending in a space).
    pub fn new(raw: &'a [u8]) -> (r: Result<Self, Error>)
        ensures
            match spec_boundary_error(raw@) {
                None => r matches Ok(b) && b@ == (raw@, spec_dash_dash() + raw@),
                Some(e) => r == Err::<Self, Error>(e),
            },
    {
        if raw.len() == 0 {
            return Err(Error::EmptyBoundary);
        }
        if raw.len() > MAX_BOUNDARY_LEN {
            return Err(Error::BoundaryTooLong { len: raw.len() });
        }
        let mut index: usize = 0;
        while index < raw.len()
            invariant
                0 < raw@.len() <= 70,
                index <= raw@.len(),
                spec_first_invalid_boundary_byte(raw@, index as int)
                    == spec_first_invalid_boundary_byte(raw@, 0),
            decreases raw.len() - index,
        {
            let byte = raw[index];
            if !is_boundary_byte(byte, index + 1 == raw.len()) {
                return Err(Error::InvalidBoundaryByte { offset: index, byte });
            }
            index += 1;
        }
        let mut opening = opening_buf_with_capacity(raw.len() + 2);
        let dashes = dash_dash();
        opening_buf_extend_from_slice(&mut opening, &dashes);
        opening_buf_extend_from_slice(&mut opening, raw);
        Ok(Self { raw, opening })
    }

    /// The boundary itself, without the leading `--`.
    pub fn as_bytes(&self) -> (r: &'a [u8])
        ensures
            r@ == self@.0,
    {
        self.raw
    }

    /// The opening line `"--" boundary`.
    pub fn opening(&self) -> (r: &[u8])
        ensures
            r@ == self@.1,
    {
        opening_buf_as_slice(&self.opening)
    }
}

/// The first index at or after `i` that holds `;` (the length when none does).
pub open spec fn spec_find_semi(b: Seq<u8>, i: int) -> int
    decreases b.len() - i,
{
    if 0 <= i < b.len() && b[i] != 0x3Bu8 {
        spec_find_semi(b, i + 1)
    } else {
        i
    }
}

/// The first index at or after `i` that holds `=` or `;` (the length when none does).
pub open spec fn spec_find_eq_or_semi(b: Seq<u8>, i: int) -> int
    decreases b.len() - i,
{
    if 0 <= i < b.len() && b[i] != 0x3Du8 && b[i] != 0x3Bu8 {
        spec_find_eq_or_semi(b, i + 1)
    } else {
        i
    }
}

pub proof fn lemma_find_semi(b: Seq<u8>, i: int)
    requires
        0 <= i <= b.len(),
    ensures
        i <= spec_find_semi(b, i) <= b.len(),
        spec_find_semi(b, i) < b.len() ==> b[spec_find_semi(b, i)] == 0x3Bu8,
        forall|k: int| i <= k < spec_find_semi(b, i) ==> #[trigger] b[k] != 0x3Bu8,
    decreases b.len() - i,
{
    if i < b.len() && b[i] != 0x3Bu8 {
        lemma_find_semi(b, i + 1);
    }
}

pub proof fn lemma_find_eq_or_semi(b: Seq<u8>, i: int)
    requires
        0 <= i <= b.len(),
    ensures
        i <= spec_find_eq_or_semi(b, i) <= b.len(),
        spec_find_eq_or_semi(b, i) < b.len() ==> (b[spec_find_eq_or_semi(b, i)] == 0x3Du8 || b[spec_find_eq_or_semi(b, i)] == 0x3Bu8),
    decreases b.len() - i,
{
    if i < b.len() && b[i] != 0x3Du8 && b[i] != 0x3Bu8 {
        lemma_find_eq_or_semi(b, i + 1);
    }
}

/// Where a quoted `Content-Type` parameter value that starts at `i` (after its
/// opening quote) is closed, and whether it holds a backslash escape.
pub open spec fn spec_quoted_end(b: Seq<u8>, i: int, escaped: bool) -> Option<(int, bool)>
    decreases b.len() - i,
{
    if i < 0 || i >= b.len() {
        None
    } else if b[i] == 0x22u8 {
        Some((i, escaped))
    } else if b[i] == 0x5Cu8 {
        if i + 1 >= b.len() {
            None
        } else {
            spec_quoted_end(b, i + 2, true)
        }
    } else {
        spec_quoted_end(b, i + 1, escaped)
    }
}

pub proof fn lemma_quoted_end(b: Seq<u8>, i: int, escaped: bool)
    requires
        0 <= i,
    ensures
        spec_quoted_end(b, i, escaped) matches Some((q, _)) ==> i <= q < b.len() && b[q] == 0x22u8,
    decreases b.len() - i,
{
    if 0 <= i < b.len() && b[i] != 0x22u8 {
        if b[i] == 0x5Cu8 {
            if i + 1 < b.len() {
                lemma_quoted_end(b, i + 2, true);
            }
        } else {
            lemma_quoted_end(b, i + 1, escaped);
        }
    }
}

/// A `Content-Type` parameter value that starts at `start`: where its text starts
/// and ends, where the parameter ends, and whether it needs unescaping.
pub open spec fn spec_ct_value(b: Seq<u8>, start: int) -> Option<(int, int, int, bool)> {
    if start < 0 || start >= b.len() {
        None
    } else if b[start] == 0x22u8 {
        match spec_quoted_end(b, start + 1, false) {
            None => None,
            Some((q, escaped)) => Some((start + 1, q, q + 1, escaped)),
        }
    } else {
        let c = spec_find_semi(b, start);
        let e = spec_trim_end_index(b, c);
        if start <= e {
            Some((start, e, c, false))
        } else {
            None
        }
    }
}

pub proof fn lemma_ct_value(b: Seq<u8>, start: int)
    requires
        0 <= start,
    ensures
        spec_ct_value(b, start) matches Some((rs, re, next, _)) ==> (start <= rs <= re <= next
            <= b.len() && (rs == start || b[rs - 1] == 0x22u8) && (re == b.len() || b[re]
            == 0x22u8 || b[re] == 0x3Bu8 || is_ws(b[re]))),
{
    if 0 <= start < b.len() {
        if b[start] == 0x22u8 {
            lemma_quoted_end(b, start + 1, false);
        } else {
            lemma_find_semi(b, start);
            let c = spec_find_semi(b, start);
            lemma_trim_end_index(b, c);
        }
    }
}

/// The `boundary` parameter among the `; name=value` parameters from `cursor` on.
pub open spec fn spec_ct_params(b: Seq<u8>, cursor: int) -> Option<Seq<u8>>
    decreases b.len() - cursor,
{
    if cursor < 0 || cursor >= b.len() {
        None
    } else if b[cursor] != 0x3Bu8 {
        None
    } else {
        let c1 = spec_skip_ws(b, cursor + 1);
        if c1 >= b.len() {
            None
        } else {
            let c2 = spec_find_eq_or_semi(b, c1);
            let name = spec_trim(b.subrange(c1, c2));
            if c2 >= b.len() {
                None
            } else if b[c2] != 0x3Du8 {
                proof {
                    lemma_skip_ws(b, cursor + 1);
                    lemma_find_eq_or_semi(b, c1);
                }
                spec_ct_params(b, c2)
            } else {
                let c3 = spec_skip_ws(b, c2 + 1);
                match spec_ct_value(b, c3) {
                    None => None,
                    Some((rs, re, next, escaped)) => {
                        let c4 = spec_skip_ws(b, next);
                        if c4 < b.len() && b[c4] != 0x3Bu8 {
                            None
                        } else if spec_eq_ignore_case(name, spec_boundary_param()) {
                            if escaped {
                                None
                            } else {
                                Some(b.subrange(rs, re))
                            }
                        } else {
                            proof {
                                lemma_skip_ws(b, cursor + 1);
                                lemma_find_eq_or_semi(b, c1);
                                lemma_skip_ws(b, c2 + 1);
                                lemma_ct_value(b, c3);
                                lemma_skip_ws(b, next);
                            }
                            spec_ct_params(b, c4)
                        }
                    },
                }
            }
        }
    }
}

/// Whether a media type is `multipart/<subtype>` (ASCII case-insensitively).
pub open spec fn spec_is_multipart_media_type(v: Seq<u8>) -> bool {
    v.len() > spec_multipart_prefix().len() && spec_eq_ignore_case(
        v.subrange(0, spec_multipart_prefix().len() as int),
        spec_multipart_prefix(),
    )
}

/// The boundary that a `Content-Type` value (as bytes) names: the value of its
/// `boundary` parameter when the media type is `multipart/*`, the parameter
/// list is well formed up to it, and its value needs no unescaping.
pub open spec fn spec_boundary_from_content_type(b: Seq<u8>) -> Option<Seq<u8>> {
    let media_start = spec_skip_ws(b, 0);
    let media_end = spec_find_semi(b, media_start);
    if !spec_is_multipart_media_type(spec_trim(b.subrange(media_start, media_end))) {
        None
    } else {
        spec_ct_params(b, media_end)
    }
}

pub fn is_multipart_media_type(value: &[u8]) -> (r: bool)
    ensures
        r == spec_is_multipart_media_type(value@),
{
    let prefix = multipart_prefix();
    value.len() > 10 && eq_ignore_ascii_case(&value[0..10], &prefix)
}

/// A byte next to an ASCII byte (or at either end) of valid UTF-8 starts a character.
proof fn lemma_ascii_neighbour_is_char_boundary(bytes: Seq<u8>, i: int)
    requires
        valid_utf8(bytes),
        0 <= i <= bytes.len(),
        i == 0 || i == bytes.len() || bytes[i] < 0x80u8 || bytes[i - 1] < 0x80u8,
    ensures
        is_char_boundary(bytes, i),
{
    is_char_boundary_start_end_of_seq(bytes);
    if 0 < i < bytes.len() {
        if bytes[i] < 0x80u8 {
            is_char_boundary_iff_not_is_continuation_byte(bytes, i);
        } else {
            is_char_boundary_iff_not_is_continuation_byte(bytes, i - 1);
            valid_utf8_split(bytes, i - 1);
            let t = bytes.subrange(i - 1, bytes.len() as int);
            assert(t[0] == bytes[i - 1]);
            assert(valid_first_scalar(t));
            assert(length_of_first_scalar(t) == 1);
            assert(pop_first_scalar(t) =~= bytes.subrange(i, bytes.len() as int));
            let u = bytes.subrange(i, bytes.len() as int);
            assert(valid_utf8(u));
            assert(valid_first_scalar(u));
            assert(u[0] == bytes[i]);
            is_char_boundary_iff_not_is_continuation_byte(bytes, i);
        }
    }
}

/// `content_type[start..end]` when that range lies on character boundaries, as
/// `str::get` gives it.
fn str_get<'s>(content_type: &'s str, start: usize, end: usize) -> (r: Option<&'s str>)
    ensures
        r is Some <==> (start <= end <= content_type.spec_bytes().len() && is_char_boundary(
            content_type.spec_bytes(),
            start as int,
        ) && is_char_boundary(content_type.spec_bytes(), end as int)),
        r matches Some(t) ==> t.spec_bytes() == content_type.spec_bytes().subrange(
            start as int,
            end as int,
        ),
{
    let ghost bytes = content_type.spec_bytes();
    let byte_len = content_type.as_bytes().len();
    if start <= end && end <= byte_len && content_type.is_char_boundary(start)
        && content_type.is_char_boundary(end) {
        let (head, tail) = content_type.split_at(start);
        proof {
            valid_utf8_split(bytes, start as int);
            let t = tail.spec_bytes();
            is_char_boundary_start_end_of_seq(t);
            if end < bytes.len() {
                is_char_boundary_iff_not_is_continuation_byte(bytes, end as int);
                assert(t[end - start] == bytes[end as int]);
                is_char_boundary_iff_not_is_continuation_byte(t, end - start);
            }
        }
        let (mid, rest) = tail.split_at(end - start);
        proof {
            assert(mid.spec_bytes() =~= bytes.subrange(start as int, end as int));
        }
        Some(mid)
    } else {
        None
    }
}

/// The `boundary` parameter of a `multipart/*` `Content-Type` value.
pub fn boundary_from_content_type(content_type: &str) -> (r: Option<&str>)
    ensures
        match spec_boundary_from_content_type(content_type.spec_bytes()) {
            Some(v) => r matches Some(t) && t.spec_bytes() == v,
            None => r is None,
        },
{
    let bytes = content_type.as_bytes();
    let len = bytes.len();
    let mut cursor = skip_ascii_whitespace(bytes, 0);
    let media_start = cursor;
    while cursor < len && bytes[cursor] != 0x3Bu8
        invariant
            len == bytes@.len(),
            media_start <= cursor <= len,
            spec_find_semi(bytes@, cursor as int) == spec_find_semi(bytes@, media_start as int),
        decreases len - cursor,
    {
        cursor += 1;
    }
    if !is_multipart_media_type(trim_ascii(&bytes[media_start..cursor])) {
        return None;
    }
    let ghost whole = spec_boundary_from_content_type(bytes@);
    while cursor < len
        invariant
            len == bytes@.len(),
            bytes@ == content_type.spec_bytes(),
            cursor <= len,
            whole == spec_ct_params(bytes@, cursor as int),
            whole == spec_boundary_from_content_type(bytes@),
        decreases len - cursor,
    {
        if bytes[cursor] != 0x3Bu8 {
            return None;
        }
        let semi_pos = cursor;
        cursor += 1;
        cursor = skip_ascii_whitespace(bytes, cursor);
        proof {
            lemma_skip_ws(bytes@, semi_pos + 1);
        }
        if cursor == len {
            return None;
        }
        let name_start = cursor;
        while cursor < len && bytes[cursor] != 0x3Du8 && bytes[cursor] != 0x3Bu8
            invariant
                len == bytes@.len(),
                name_start <= cursor <= len,
                spec_find_eq_or_semi(bytes@, cursor as int) == spec_find_eq_or_semi(
                    bytes@,
                    name_start as int,
                ),
            decreases len - cursor,
        {
            cursor += 1;
        }
        proof {
            lemma_find_eq_or_semi(bytes@, name_start as int);
        }
        let name = trim_ascii(&bytes[name_start..cursor]);
        if cursor == len || bytes[cursor] != 0x3Du8 {
            if cursor < len && bytes[cursor] == 0x3Bu8 {
                continue ;
            }
            return None;
        }
        let eq_pos = cursor;
        cursor += 1;
        cursor = skip_ascii_whitespace(bytes, cursor);
        proof {
            lemma_skip_ws(bytes@, eq_pos + 1);
            lemma_ct_value(bytes@, cursor as int);
            if cursor < len {
                lemma_ascii_neighbour_is_char_boundary(bytes@, cursor as int);
            }
        }
        let value = match parse_content_type_value(content_type, cursor) {
            Some(v) => v,
            None => {
                return None;
            },
        };
        cursor = skip_ascii_whitespace(bytes, value.next);
        proof {
            lemma_skip_ws(bytes@, value.next as int);
        }
        if cursor < len && bytes[cursor] != 0x3Bu8 {
            return None;
        }
        let boundary_name = boundary_param();
        if eq_ignore_ascii_case(name, &boundary_name) {
            if value.requires_unescape {
                return None;
            }
            return Some(value.raw);
        }
    }
    None
}

/// A parameter value of a `Content-Type`: its text, where the parameter ends, and
/// whether the text holds backslash escapes.
struct ContentTypeValue<'a> {
    raw: &'a str,
    next: usize,
    requires_unescape: bool,
}

/// Reads the `Content-Type` parameter value that starts at byte `start`. An
/// unquoted value is only read from a character boundary, as `str::get` slices.
fn parse_content_type_value(content_type: &str, start: usize) -> (r: Option<
    ContentTypeValue<'_>,
>)
    ensures
        match spec_ct_value(content_type.spec_bytes(), start as int) {
            Some((rs, re, next, escaped)) => if content_type.spec_bytes()[start as int] == 0x22u8
                || is_char_boundary(content_type.spec_bytes(), start as int) {
                r matches Some(v) && v.raw.spec_bytes() == content_type.spec_bytes().subrange(
                    rs,
                    re,
                ) && v.next == next && v.requires_unescape == escaped
            } else {
                r is None
            },
            None => r is None,
        },
{
    let bytes = content_type.as_bytes();
    let len = bytes.len();
    if start >= len {
        return None;
    }
    proof {
        lemma_ct_value(bytes@, start as int);
    }
    if bytes[start] == 0x22u8 {
        let inner_start = start + 1;
        let mut cursor = inner_start;
        let mut requires_unescape = false;
        while cursor < len
            invariant
                len == bytes@.len(),
                bytes@ == content_type.spec_bytes(),
                inner_start <= cursor,
                start < len,
                bytes@[start as int] == 0x22u8,
                inner_start == start + 1,
                spec_quoted_end(bytes@, cursor as int, requires_unescape) == spec_quoted_end(
                    bytes@,
                    inner_start as int,
                    false,
                ),
            decreases len - cursor,
        {
            if bytes[cursor] == 0x22u8 {
                proof {
                    lemma_ascii_neighbour_is_char_boundary(bytes@, inner_start as int);
                    lemma_ascii_neighbour_is_char_boundary(bytes@, cursor as int);
                }
                let raw = match str_get(content_type, inner_start, cursor) {
                    Some(raw) => raw,
                    None => {
                        return None;
                    },
                };
                return Some(ContentTypeValue { raw, next: cursor + 1, requires_unescape });
            } else if bytes[cursor] == 0x5Cu8 {
                requires_unescape = true;
                cursor += 1;
                if cursor == len {
                    return None;
                }
                cursor += 1;
            } else {
                cursor += 1;
            }
        }
        return None;
    }
    let mut cursor = start;
    while cursor < len && bytes[cursor] != 0x3Bu8
        invariant
            len == bytes@.len(),
            start <= cursor <= len,
            spec_find_semi(bytes@, cursor as int) == spec_find_semi(bytes@, start as int),
        decreases len - cursor,
    {
        cursor += 1;
    }
    let end = trim_ascii_end_index(bytes, cursor);
    if start > end {
        return None;
    }
    proof {
        lemma_find_semi(bytes@, start as int);
        lemma_trim_end_index(bytes@, cursor as int);
        lemma_ascii_neighbour_is_char_boundary(bytes@, end as int);
    }
    let raw = match str_get(content_type, start, end) {
        Some(raw) => raw,
        None => {
            return None;
        },
    };
    Some(ContentTypeValue { raw, next: cursor, requires_unescape: false })
}

} // verus!
