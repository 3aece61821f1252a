//! Properties of the parser that hold of every input.
use vstd::prelude::*;

use crate::boundary::{
    lemma_ct_value, lemma_find_eq_or_semi, spec_boundary_from_content_type, spec_ct_params,
    spec_ct_value, spec_find_semi, spec_is_multipart_media_type,
};
use crate::boundary_scan::{
    delimiter_at, lemma_classify, lemma_first_delimiter, lemma_first_marker, marker_at,
    spec_classify, spec_first_delimiter, spec_first_marker, BoundaryLine,
};
use crate::content_disposition::{spec_disposition_end, spec_parse_content_disposition, DispositionKind};
use crate::deps::{first_index_of, lemma_first_index_of};
use crate::header::{spec_header_parse, spec_is_token};
use crate::names::{spec_content_disposition_name, spec_form_data_kind};
use crate::parser::{
    empty_acc, lemma_header_lines, lemma_next_part, spec_add_header, spec_header_lines,
    spec_initial, spec_next_part, spec_parse, spec_parts_from, starts_with_opening, HeaderAcc,
};
use crate::part::SpecPart;
use crate::shifting::{lemma_classify_shifted, lemma_parts_from_shift, shift_parts};
use crate::util::{is_ws, lemma_skip_ws, lemma_trim, spec_eq_ignore_case, spec_skip_ws, spec_trim};

verus! {

/// The body of a part lies in the multipart body, and is followed by a
/// delimiter line (`CRLF "--" boundary`, then `--` or transport padding and
/// CRLF), with no such line inside it.
pub open spec fn part_body_delimited(b: Seq<u8>, boundary: Seq<u8>, p: SpecPart) -> bool {
    &&& 0 <= p.body_start <= p.body_end <= b.len()
    &&& delimiter_at(b, boundary, p.body_end)
    &&& forall|k: int| p.body_start <= k < p.body_end ==> !delimiter_at(b, boundary, k)
}

/// Whether a header is a `Content-Disposition` header.
pub open spec fn is_content_disposition(h: (Seq<u8>, Seq<u8>)) -> bool {
    spec_eq_ignore_case(h.0, spec_content_disposition_name())
}

/// Whether a `Content-Disposition` value has the disposition type `form-data`.
pub open spec fn is_form_data(v: Seq<u8>) -> bool {
    spec_eq_ignore_case(spec_trim(v.subrange(0, spec_disposition_end(v))), spec_form_data_kind())
}

/// A header name that is a token, and a value without surrounding spaces or tabs.
pub open spec fn well_formed_header(h: (Seq<u8>, Seq<u8>)) -> bool {
    &&& spec_is_token(h.0)
    &&& h.1.len() > 0 ==> !is_ws(h.1[0]) && !is_ws(h.1.last())
}

/// What RFC 7578 section 4.2 asks of a part's headers: a `Content-Disposition`
/// header, and a name when one of them is `form-data`; every header well formed.
pub open spec fn part_headers_valid(p: SpecPart) -> bool {
    &&& exists|i: int| 0 <= i < p.headers.len() && is_content_disposition(#[trigger] p.headers[i])
    &&& (exists|i: int|
        0 <= i < p.headers.len() && is_content_disposition(#[trigger] p.headers[i]) && is_form_data(
            p.headers[i].1,
        )) ==> p.name is Some
    &&& forall|i: int| 0 <= i < p.headers.len() ==> well_formed_header(#[trigger] p.headers[i])
}

/// Whether a header is a `Content-Type` header.
pub open spec fn is_content_type(h: (Seq<u8>, Seq<u8>)) -> bool {
    spec_eq_ignore_case(h.0, crate::names::spec_content_type_name())
}

/// The content type of a list of headers: the value of the first `Content-Type`
/// header, wherever it stands among the others; none without such a header.
pub open spec fn content_type_is_first(hs: Seq<(Seq<u8>, Seq<u8>)>, ct: Option<Seq<u8>>) -> bool {
    &&& ct is None <==> forall|j: int| 0 <= j < hs.len() ==> !is_content_type(#[trigger] hs[j])
    &&& ct matches Some(v) ==> exists|j: int|
        0 <= j < hs.len() && is_content_type(#[trigger] hs[j]) && hs[j].1 == v && forall|k: int|
            0 <= k < j ==> !is_content_type(#[trigger] hs[k])
}

/// What the header lines read so far say, as `spec_add_header` records it.
pub open spec fn acc_consistent(acc: HeaderAcc) -> bool {
    &&& content_type_is_first(acc.headers, acc.content_type)
    &&& acc.saw_content_disposition <==> exists|i: int|
        0 <= i < acc.headers.len() && is_content_disposition(#[trigger] acc.headers[i])
    &&& acc.require_name <==> exists|i: int|
        0 <= i < acc.headers.len() && is_content_disposition(#[trigger] acc.headers[i])
            && is_form_data(acc.headers[i].1)
    &&& forall|i: int| 0 <= i < acc.headers.len() ==> well_formed_header(#[trigger] acc.headers[i])
}

proof fn lemma_disposition_kind(v: Seq<u8>, offset: usize)
    ensures
        spec_parse_content_disposition(v, offset) matches Ok(d) ==> (d.kind
            == DispositionKind::FormData <==> is_form_data(v)),
{
}

proof fn lemma_header_parse_well_formed(line: Seq<u8>, offset: usize)
    ensures
        spec_header_parse(line, offset) matches Ok(h) ==> well_formed_header(h),
{
    lemma_first_index_of(line, 0x3Au8);
    if let Some(sep) = first_index_of(line, 0x3Au8) {
        lemma_trim(line.subrange(sep + 1, line.len() as int));
    }
}

proof fn lemma_add_header(acc: HeaderAcc, name: Seq<u8>, value: Seq<u8>, offset: usize)
    requires
        acc_consistent(acc),
        well_formed_header((name, value)),
    ensures
        spec_add_header(acc, name, value, offset) matches Ok(acc2) ==> acc_consistent(acc2),
{
    lemma_disposition_kind(value, offset);
    if let Ok(acc2) = spec_add_header(acc, name, value, offset) {
        let hs = acc.headers;
        let hs2 = acc2.headers;
        assert(hs2 == hs.push((name, value)));
        assert forall|i: int| 0 <= i < hs2.len() implies well_formed_header(#[trigger] hs2[i]) by {
            if i < hs.len() {
                assert(hs2[i] == hs[i]);
            }
        }
        if (exists|i: int| 0 <= i < hs2.len() && is_content_disposition(#[trigger] hs2[i])) {
            let i = choose|i: int| 0 <= i < hs2.len() && is_content_disposition(#[trigger] hs2[i]);
            if i < hs.len() {
                assert(hs2[i] == hs[i]);
            }
        }
        if acc.saw_content_disposition {
            let i = choose|i: int| 0 <= i < hs.len() && is_content_disposition(#[trigger] hs[i]);
            assert(hs2[i] == hs[i]);
        }
        if (exists|i: int|
            0 <= i < hs2.len() && is_content_disposition(#[trigger] hs2[i]) && is_form_data(
                hs2[i].1,
            )) {
            let i = choose|i: int|
                0 <= i < hs2.len() && is_content_disposition(#[trigger] hs2[i]) && is_form_data(
                    hs2[i].1,
                );
            if i < hs.len() {
                assert(hs2[i] == hs[i]);
            }
        }
        if acc.require_name {
            let i = choose|i: int|
                0 <= i < hs.len() && is_content_disposition(#[trigger] hs[i]) && is_form_data(
                    hs[i].1,
                );
            assert(hs2[i] == hs[i]);
        }
        if is_content_disposition((name, value)) {
            assert(hs2[hs.len() as int] == (name, value));
        }
        lemma_content_type_push(hs, acc.content_type, name, value, acc2.content_type);
    }
}

/// `content_type_is_first` after one more header: the content type is set by that
/// header exactly when there was none and it is a `Content-Type` header.
proof fn lemma_content_type_push(
    hs: Seq<(Seq<u8>, Seq<u8>)>,
    ct: Option<Seq<u8>>,
    name: Seq<u8>,
    value: Seq<u8>,
    ct2: Option<Seq<u8>>,
)
    requires
        content_type_is_first(hs, ct),
        ct2 == (if ct is None && is_content_type((name, value)) {
            Some(value)
        } else {
            ct
        }),
    ensures
        content_type_is_first(hs.push((name, value)), ct2),
{
    let hs2 = hs.push((name, value));
    assert(hs2[hs.len() as int] == (name, value));
    assert forall|j: int| 0 <= j < hs.len() implies hs2[j] == hs[j] by {}
    if ct2 is None {
        assert forall|j: int| 0 <= j < hs2.len() implies !is_content_type(#[trigger] hs2[j]) by {
            if j < hs.len() {
                assert(hs2[j] == hs[j]);
            }
        }
    } else {
        if ct is None {
            assert(is_content_type(hs2[hs.len() as int]));
            assert forall|k: int| 0 <= k < hs.len() implies !is_content_type(#[trigger] hs2[k]) by {
                assert(hs2[k] == hs[k]);
            }
        } else {
            let j = choose|j: int|
                0 <= j < hs.len() && is_content_type(#[trigger] hs[j]) && hs[j].1 == ct->0
                    && forall|k: int| 0 <= k < j ==> !is_content_type(#[trigger] hs[k]);
            assert(hs2[j] == hs[j]);
            assert forall|k: int| 0 <= k < j implies !is_content_type(#[trigger] hs2[k]) by {
                assert(hs2[k] == hs[k]);
            }
        }
    }
}

proof fn lemma_header_lines_consistent(b: Seq<u8>, cursor: int, acc: HeaderAcc)
    requires
        acc_consistent(acc),
    ensures
        spec_header_lines(b, cursor, acc) matches Ok((acc2, _)) ==> acc_consistent(acc2),
    decreases b.len() - cursor,
{
    if 0 <= cursor <= b.len() {
        let rest = b.subrange(cursor, b.len() as int);
        lemma_first_index_of(rest, 0x0Au8);
        if let Some(rel) = first_index_of(rest, 0x0Au8) {
            let line_end = cursor + rel;
            if rel != 0 && b[line_end - 1] == 0x0Du8 {
                let line = b.subrange(cursor, line_end - 1);
                if line.len() != 0 && !is_ws(line[0]) {
                    lemma_header_parse_well_formed(line, cursor as usize);
                    if let Ok((name, value)) = spec_header_parse(line, cursor as usize) {
                        lemma_add_header(acc, name, value, cursor as usize);
                        if let Ok(acc2) = spec_add_header(acc, name, value, cursor as usize) {
                            lemma_header_lines_consistent(b, line_end + 1, acc2);
                        }
                    }
                }
            }
        }
    }
}

/// The facts each part of a successful parse carries.
proof fn lemma_next_part_valid(b: Seq<u8>, boundary: Seq<u8>, cursor: int)
    requires
        0 <= cursor <= b.len(),
        b.len() <= usize::MAX,
    ensures
        spec_next_part(b, boundary, cursor) matches Ok((p, next, is_final)) ==> {
            &&& part_body_delimited(b, boundary, p)
            &&& part_headers_valid(p)
            &&& content_type_is_first(p.headers, p.content_type)
            &&& cursor < p.body_start <= p.body_end < next <= b.len()
        },
{
    lemma_next_part(b, boundary, cursor);
    lemma_header_lines(b, cursor, empty_acc());
    assert(acc_consistent(empty_acc()));
    lemma_header_lines_consistent(b, cursor, empty_acc());
    if let Ok((acc, body_start)) = spec_header_lines(b, cursor, empty_acc()) {
        lemma_first_delimiter(b, boundary, body_start);
        if let Ok((p, next, is_final)) = spec_next_part(b, boundary, cursor) {
            assert(acc_consistent(acc));
            assert(p.headers == acc.headers);
            assert(part_body_delimited(b, boundary, p));
            assert(part_headers_valid(p));
            assert(content_type_is_first(p.headers, p.content_type));
        }
    }
}

/// The parts from `cursor` on: each carries the facts of `lemma_next_part_valid`,
/// and each lies after the one before it.
proof fn lemma_parts_from(b: Seq<u8>, boundary: Seq<u8>, cursor: int, done: bool)
    requires
        0 <= cursor,
    ensures
        spec_parts_from(b, boundary, cursor, done) matches Ok(ps) ==> {
            &&& forall|i: int|
                0 <= i < ps.len() ==> part_body_delimited(b, boundary, #[trigger] ps[i])
                    && part_headers_valid(ps[i]) && content_type_is_first(
                    ps[i].headers,
                    ps[i].content_type,
                ) && cursor < ps[i].body_start
            &&& forall|i: int, j: int|
                0 <= i < j < ps.len() ==> (#[trigger] ps[i]).body_end < (#[trigger] ps[j]).body_start
        },
    decreases b.len() - cursor,
{
    if !(done || cursor > b.len() || b.len() > usize::MAX) {
        lemma_next_part_valid(b, boundary, cursor);
        if let Ok((p, next, is_final)) = spec_next_part(b, boundary, cursor) {
            lemma_parts_from(b, boundary, next, is_final);
            if let Ok(rest) = spec_parts_from(b, boundary, next, is_final) {
                let ps = seq![p] + rest;
                assert forall|i: int| 0 <= i < ps.len() implies part_body_delimited(
                    b,
                    boundary,
                    #[trigger] ps[i],
                ) && part_headers_valid(ps[i]) && content_type_is_first(
                    ps[i].headers,
                    ps[i].content_type,
                ) && cursor < ps[i].body_start by {
                    if i > 0 {
                        assert(ps[i] == rest[i - 1]);
                    }
                }
                assert forall|i: int, j: int|
                    0 <= i < j < ps.len() implies (#[trigger] ps[i]).body_end < (
                    #[trigger] ps[j]).body_start by {
                    assert(ps[j] == rest[j - 1]);
                    if i > 0 {
                        assert(ps[i] == rest[i - 1]);
                    }
                }
            }
        }
    }
}

/// Whether the bytes just before `i` are CRLF.
pub open spec fn crlf_ends_at(b: Seq<u8>, i: int) -> bool {
    2 <= i <= b.len() && b[i - 2] == 0x0Du8 && b[i - 1] == 0x0Au8
}

/// The body of a part starts right after the CRLF CRLF that ends its header block
/// (the boundary line's CRLF when the part has no header lines).
pub open spec fn body_after_blank_line(b: Seq<u8>, p: SpecPart) -> bool {
    &&& 4 <= p.body_start <= b.len()
    &&& b.subrange(p.body_start - 4, p.body_start) == seq![0x0Du8, 0x0Au8, 0x0Du8, 0x0Au8]
}

proof fn lemma_header_lines_after_crlf(b: Seq<u8>, cursor: int, acc: HeaderAcc)
    requires
        crlf_ends_at(b, cursor),
    ensures
        spec_header_lines(b, cursor, acc) matches Ok((_, body_start)) ==> 4 <= body_start
            <= b.len() && b.subrange(body_start - 4, body_start) == seq![
            0x0Du8,
            0x0Au8,
            0x0Du8,
            0x0Au8,
        ],
    decreases b.len() - cursor,
{
    let rest = b.subrange(cursor, b.len() as int);
    lemma_first_index_of(rest, 0x0Au8);
    if let Some(rel) = first_index_of(rest, 0x0Au8) {
        let line_end = cursor + rel;
        assert(b[line_end] == rest[rel]);
        if rel != 0 && b[line_end - 1] == 0x0Du8 {
            let line = b.subrange(cursor, line_end - 1);
            if line.len() == 0 {
                assert(b.subrange(line_end - 3, line_end + 1) =~= seq![
                    0x0Du8,
                    0x0Au8,
                    0x0Du8,
                    0x0Au8,
                ]);
            } else if !is_ws(line[0]) {
                if let Ok((name, value)) = spec_header_parse(line, cursor as usize) {
                    if let Ok(acc2) = spec_add_header(acc, name, value, cursor as usize) {
                        lemma_header_lines_after_crlf(b, line_end + 1, acc2);
                    }
                }
            }
        }
    }
}

/// The line after an encapsulation boundary starts right after its CRLF.
proof fn lemma_classify_crlf(b: Seq<u8>, q: int)
    requires
        b.len() <= usize::MAX,
    ensures
        spec_classify(b, q) matches Some(BoundaryLine::Encapsulation { next_cursor })
            ==> crlf_ends_at(b, next_cursor as int),
{
}

proof fn lemma_parts_after_blank_line(b: Seq<u8>, boundary: Seq<u8>, cursor: int, done: bool)
    requires
        0 <= cursor,
        !done ==> crlf_ends_at(b, cursor),
    ensures
        spec_parts_from(b, boundary, cursor, done) matches Ok(ps) ==> forall|i: int|
            0 <= i < ps.len() ==> body_after_blank_line(b, #[trigger] ps[i]),
    decreases b.len() - cursor,
{
    if !(done || cursor > b.len() || b.len() > usize::MAX) {
        lemma_next_part(b, boundary, cursor);
        lemma_header_lines_after_crlf(b, cursor, empty_acc());
        if let Ok((acc, body_start)) = spec_header_lines(b, cursor, empty_acc()) {
            lemma_first_delimiter(b, boundary, body_start);
            if let Some(c) = spec_first_delimiter(b, boundary, body_start) {
                lemma_classify_crlf(b, c + 4 + boundary.len());
            }
        }
        if let Ok((p, next, is_final)) = spec_next_part(b, boundary, cursor) {
            lemma_parts_after_blank_line(b, boundary, next, is_final);
            if let Ok(rest) = spec_parts_from(b, boundary, next, is_final) {
                let ps = seq![p] + rest;
                assert forall|i: int| 0 <= i < ps.len() implies body_after_blank_line(
                    b,
                    #[trigger] ps[i],
                ) by {
                    if i > 0 {
                        assert(ps[i] == rest[i - 1]);
                    }
                }
            }
        }
    }
}

/// Each part's body starts right after the CRLF CRLF that ends its header block,
/// so it holds none of the header bytes.
pub proof fn law_body_follows_blank_line(body: Seq<u8>, boundary: Seq<u8>)
    ensures
        spec_parse(body, boundary) matches Ok(ps) ==> forall|i: int|
            0 <= i < ps.len() ==> body_after_blank_line(body, #[trigger] ps[i]),
{
    if let Ok(ps) = spec_parse(body, boundary) {
        if let Ok((cursor, done)) = crate::parser::spec_initial(body, boundary) {
            let start: int = if starts_with_opening(body, boundary) {
                0
            } else {
                lemma_first_marker(body, boundary, 0);
                spec_first_marker(body, boundary, 0)->0 + 2
            };
            if body.len() <= usize::MAX {
                lemma_classify_crlf(body, start + boundary.len() + 2);
                if 0 <= cursor {
                    lemma_parts_after_blank_line(body, boundary, cursor, done);
                }
            }
        }
    }
}

/// Each part of a parsed body has its body range inside the body, ends right
/// before a delimiter line and holds none itself: boundary-like bytes in a body
/// that do not form a delimiter line stay part of the body.
pub proof fn law_part_bodies_delimited(body: Seq<u8>, boundary: Seq<u8>)
    ensures
        spec_parse(body, boundary) matches Ok(ps) ==> forall|i: int|
            0 <= i < ps.len() ==> part_body_delimited(body, boundary, #[trigger] ps[i]),
{
    if let Ok(ps) = spec_parse(body, boundary) {
        if let Ok((cursor, done)) = crate::parser::spec_initial(body, boundary) {
            if 0 <= cursor {
                lemma_parts_from(body, boundary, cursor, done);
            }
        }
    }
}

/// The parts of a parsed body appear in the order of the body, without overlapping.
pub proof fn law_parts_in_order(body: Seq<u8>, boundary: Seq<u8>)
    ensures
        spec_parse(body, boundary) matches Ok(ps) ==> forall|i: int, j: int|
            0 <= i < j < ps.len() ==> (#[trigger] ps[i]).body_end < (#[trigger] ps[j]).body_start,
{
    if let Ok(ps) = spec_parse(body, boundary) {
        if let Ok((cursor, done)) = crate::parser::spec_initial(body, boundary) {
            if 0 <= cursor {
                lemma_parts_from(body, boundary, cursor, done);
            }
        }
    }
}

/// Every part of a parsed body has a `Content-Disposition` header, a name when
/// that header says `form-data`, and only well-formed headers.
pub proof fn law_part_headers_valid(body: Seq<u8>, boundary: Seq<u8>)
    ensures
        spec_parse(body, boundary) matches Ok(ps) ==> forall|i: int|
            0 <= i < ps.len() ==> part_headers_valid(#[trigger] ps[i]),
{
    if let Ok(ps) = spec_parse(body, boundary) {
        if let Ok((cursor, done)) = crate::parser::spec_initial(body, boundary) {
            if 0 <= cursor {
                lemma_parts_from(body, boundary, cursor, done);
            }
        }
    }
}

/// The content type of each part of a parsed body is the value of its first
/// header named `Content-Type` (ASCII case-insensitively), whatever the order of
/// its other headers, and it has none exactly when no header has that name.
pub proof fn law_content_type_is_first_header(body: Seq<u8>, boundary: Seq<u8>)
    ensures
        spec_parse(body, boundary) matches Ok(ps) ==> forall|i: int|
            0 <= i < ps.len() ==> content_type_is_first(
                (#[trigger] ps[i]).headers,
                ps[i].content_type,
            ),
{
    if let Ok(ps) = spec_parse(body, boundary) {
        if let Ok((cursor, done)) = crate::parser::spec_initial(body, boundary) {
            if 0 <= cursor {
                lemma_parts_from(body, boundary, cursor, done);
            }
        }
    }
}

proof fn lemma_ct_params_substring(b: Seq<u8>, cursor: int)
    requires
        0 <= cursor,
    ensures
        spec_ct_params(b, cursor) matches Some(v) ==> exists|i: int, j: int|
            cursor <= i <= j <= b.len() && v == b.subrange(i, j),
    decreases b.len() - cursor,
{
    if 0 <= cursor < b.len() && b[cursor] == 0x3Bu8 {
        let c1 = spec_skip_ws(b, cursor + 1);
        lemma_skip_ws(b, cursor + 1);
        if c1 < b.len() {
            let c2 = crate::boundary::spec_find_eq_or_semi(b, c1);
            lemma_find_eq_or_semi(b, c1);
            if c2 < b.len() {
                if b[c2] != 0x3Du8 {
                    lemma_ct_params_substring(b, c2);
                } else {
                    let c3 = spec_skip_ws(b, c2 + 1);
                    lemma_skip_ws(b, c2 + 1);
                    lemma_ct_value(b, c3);
                    if let Some((rs, re, next, escaped)) = spec_ct_value(b, c3) {
                        lemma_skip_ws(b, next);
                        let c4 = spec_skip_ws(b, next);
                        lemma_ct_params_substring(b, c4);
                        if let Some(v) = spec_ct_params(b, cursor) {
                            if v == b.subrange(rs, re) {
                                assert(cursor <= rs <= re <= b.len());
                            }
                        }
                    }
                }
            }
        }
    }
}

/// A boundary read from a `Content-Type` value is a piece of that value, and is
/// only read from a `multipart/*` media type.
pub proof fn law_boundary_from_content_type(content_type: Seq<u8>)
    ensures
        spec_boundary_from_content_type(content_type) matches Some(v) ==> {
            &&& exists|i: int, j: int|
                0 <= i <= j <= content_type.len() && v == content_type.subrange(i, j)
            &&& spec_is_multipart_media_type(
                spec_trim(
                    content_type.subrange(
                        spec_skip_ws(content_type, 0),
                        spec_find_semi(content_type, spec_skip_ws(content_type, 0)),
                    ),
                ),
            )
        },
{
    lemma_skip_ws(content_type, 0);
    let s = spec_skip_ws(content_type, 0);
    crate::boundary::lemma_find_semi(content_type, s);
    lemma_ct_params_substring(content_type, spec_find_semi(content_type, s));
}

/// ASCII case in the media type and in parameter names does not matter: two
/// `Content-Type` values that agree up to ASCII case both name a boundary or
/// neither does, and then from the same byte range of each, so the two
/// boundaries are equal whenever the two values agree on that range.
pub proof fn law_boundary_case_insensitive(content_type: Seq<u8>, other: Seq<u8>)
    requires
        spec_eq_ignore_case(content_type, other),
    ensures
        spec_boundary_from_content_type(content_type) is Some <==> spec_boundary_from_content_type(
            other,
        ) is Some,
        spec_boundary_from_content_type(content_type) matches Some(v)
            ==> spec_boundary_from_content_type(other) matches Some(v2) && exists|i: int, j: int|
            0 <= i <= j <= content_type.len() && v == content_type.subrange(i, j) && v2
                == other.subrange(i, j),
{
    crate::casefold::lemma_boundary_case(content_type, other);
}

/// Whether `b` ends with CRLF.
pub open spec fn ends_with_crlf(b: Seq<u8>) -> bool {
    b.len() >= 2 && b[b.len() - 2] == 0x0Du8 && b[b.len() - 1] == 0x0Au8
}

proof fn lemma_skip_ws_extend(b: Seq<u8>, e: Seq<u8>, i: int)
    requires
        0 <= i <= b.len(),
        spec_skip_ws(b, i) < b.len(),
    ensures
        spec_skip_ws(b + e, i) == spec_skip_ws(b, i),
    decreases b.len() - i,
{
    assert((b + e)[i] == b[i]);
    if is_ws(b[i]) {
        lemma_skip_ws_extend(b, e, i + 1);
    }
}

/// A run of spaces and tabs stops at the latest at a byte that is neither.
proof fn lemma_skip_ws_stops(b: Seq<u8>, i: int, j: int)
    requires
        0 <= i <= j < b.len(),
        !is_ws(b[j]),
    ensures
        spec_skip_ws(b, i) <= j,
    decreases j - i,
{
    if i < j && is_ws(b[i]) {
        lemma_skip_ws_stops(b, i + 1, j);
    }
}

/// In a body that ends with CRLF, how a boundary line goes on is settled by the
/// body alone.
proof fn lemma_classify_extend(b: Seq<u8>, e: Seq<u8>, q: int)
    requires
        ends_with_crlf(b),
        0 <= q < b.len(),
    ensures
        spec_classify(b + e, q) == spec_classify(b, q),
{
    let b2 = b + e;
    let n = b.len() as int;
    assert(b2[q] == b[q]);
    if q + 1 < n {
        assert(b2[q + 1] == b[q + 1]);
    }
    if q + 2 <= n && b[q] == 0x2Du8 && b[q + 1] == 0x2Du8 {
        assert(q + 2 <= n - 2);
        lemma_skip_ws_stops(b, q + 2, n - 2);
        lemma_skip_ws(b, q + 2);
        lemma_skip_ws_extend(b, e, q + 2);
        let padded = spec_skip_ws(b, q + 2);
        assert(b2[padded] == b[padded]);
        assert(b2[padded + 1] == b[padded + 1]);
    } else {
        if q <= n - 2 {
            lemma_skip_ws_stops(b, q, n - 2);
        } else {
            lemma_skip_ws_stops(b, q, n - 1);
        }
        lemma_skip_ws(b, q);
        lemma_skip_ws_extend(b, e, q);
        let padded = spec_skip_ws(b, q);
        assert(b2[padded] == b[padded]);
        if padded + 1 < n {
            assert(b2[padded + 1] == b[padded + 1]);
        }
    }
}

proof fn lemma_marker_extend(b: Seq<u8>, e: Seq<u8>, boundary: Seq<u8>, k: int)
    requires
        0 <= k,
        k + boundary.len() + 4 <= b.len(),
    ensures
        marker_at(b + e, boundary, k) == marker_at(b, boundary, k),
{
    let b2 = b + e;
    assert(b2[k] == b[k]);
    assert(b2[k + 1] == b[k + 1]);
    assert(b2[k + 2] == b[k + 2]);
    assert(b2[k + 3] == b[k + 3]);
    assert(b2.subrange(k + 4, k + 4 + boundary.len()) =~= b.subrange(k + 4, k + 4 + boundary.len()));
}

/// The line that classifies as a delimiter lies before the body's end.
proof fn lemma_classify_at_end(b: Seq<u8>)
    ensures
        spec_classify(b, b.len() as int) is None,
{
}

proof fn lemma_first_marker_extend(b: Seq<u8>, e: Seq<u8>, boundary: Seq<u8>, from: int)
    requires
        0 <= from,
        spec_first_marker(b, boundary, from) is Some,
    ensures
        spec_first_marker(b + e, boundary, from) == spec_first_marker(b, boundary, from),
    decreases b.len() - from,
{
    lemma_marker_extend(b, e, boundary, from);
    if !marker_at(b, boundary, from) {
        lemma_first_marker_extend(b, e, boundary, from + 1);
    }
}

proof fn lemma_first_delimiter_extend(b: Seq<u8>, e: Seq<u8>, boundary: Seq<u8>, from: int)
    requires
        ends_with_crlf(b),
        0 <= from,
        spec_first_delimiter(b, boundary, from) is Some,
    ensures
        spec_first_delimiter(b + e, boundary, from) == spec_first_delimiter(b, boundary, from),
    decreases b.len() - from,
{
    let q = from + boundary.len() + 4;
    lemma_marker_extend(b, e, boundary, from);
    lemma_classify_at_end(b);
    if q < b.len() {
        lemma_classify_extend(b, e, q);
    }
    if !delimiter_at(b, boundary, from) {
        lemma_first_delimiter_extend(b, e, boundary, from + 1);
    }
}

proof fn lemma_first_index_of_extend(s: Seq<u8>, t: Seq<u8>, x: u8)
    requires
        first_index_of(s, x) is Some,
    ensures
        first_index_of(s + t, x) == first_index_of(s, x),
    decreases s.len(),
{
    assert((s + t)[0] == s[0]);
    if s[0] != x {
        assert((s + t).drop_first() =~= s.drop_first() + t);
        lemma_first_index_of_extend(s.drop_first(), t, x);
    }
}

proof fn lemma_header_lines_extend(b: Seq<u8>, e: Seq<u8>, cursor: int, acc: HeaderAcc)
    requires
        spec_header_lines(b, cursor, acc) is Ok,
    ensures
        spec_header_lines(b + e, cursor, acc) == spec_header_lines(b, cursor, acc),
    decreases b.len() - cursor,
{
    let b2 = b + e;
    let rest = b.subrange(cursor, b.len() as int);
    assert(b2.subrange(cursor, b2.len() as int) =~= rest + e);
    lemma_first_index_of(rest, 0x0Au8);
    lemma_first_index_of_extend(rest, e, 0x0Au8);
    let rel = first_index_of(rest, 0x0Au8)->0;
    let line_end = cursor + rel;
    if rel != 0 {
        assert(b2[line_end - 1] == b[line_end - 1]);
        assert(b2.subrange(cursor, line_end - 1) =~= b.subrange(cursor, line_end - 1));
        let line = b.subrange(cursor, line_end - 1);
        if line.len() != 0 && !is_ws(line[0]) {
            if let Ok((name, value)) = spec_header_parse(line, cursor as usize) {
                if let Ok(acc2) = spec_add_header(acc, name, value, cursor as usize) {
                    lemma_header_lines_extend(b, e, line_end + 1, acc2);
                }
            }
        }
    }
}

proof fn lemma_next_part_extend(b: Seq<u8>, e: Seq<u8>, boundary: Seq<u8>, cursor: int)
    requires
        ends_with_crlf(b),
        0 <= cursor <= b.len(),
        (b + e).len() <= usize::MAX,
        spec_next_part(b, boundary, cursor) is Ok,
    ensures
        spec_next_part(b, boundary, cursor) matches Ok((p, next, is_final)) && spec_next_part(
            b + e,
            boundary,
            cursor,
        ) == Ok::<(SpecPart, int, bool), crate::error::Error>(
            (p, if is_final { (b + e).len() as int } else { next }, is_final),
        ),
{
    lemma_header_lines_extend(b, e, cursor, empty_acc());
    lemma_header_lines(b, cursor, empty_acc());
    let (acc, body_start) = spec_header_lines(b, cursor, empty_acc())->Ok_0;
    lemma_first_delimiter(b, boundary, body_start);
    lemma_first_delimiter_extend(b, e, boundary, body_start);
    let c = spec_first_delimiter(b, boundary, body_start)->0;
    lemma_classify_at_end(b);
    lemma_classify_extend(b, e, c + 4 + boundary.len());
}

proof fn lemma_parts_from_extend(
    b: Seq<u8>,
    e: Seq<u8>,
    boundary: Seq<u8>,
    cursor: int,
    done: bool,
)
    requires
        ends_with_crlf(b),
        0 <= cursor <= b.len(),
        (b + e).len() <= usize::MAX,
        spec_parts_from(b, boundary, cursor, done) is Ok,
    ensures
        spec_parts_from(b + e, boundary, cursor, done) == spec_parts_from(b, boundary, cursor, done),
    decreases b.len() - cursor,
{
    if !done {
        lemma_next_part_extend(b, e, boundary, cursor);
        lemma_next_part(b, boundary, cursor);
        let (p, next, is_final) = spec_next_part(b, boundary, cursor)->Ok_0;
        if !is_final {
            lemma_parts_from_extend(b, e, boundary, next, is_final);
        } else {
            assert(spec_parts_from(b, boundary, next, true) == Ok::<Seq<SpecPart>, crate::error::Error>(Seq::empty()));
            assert(spec_parts_from(b + e, boundary, (b + e).len() as int, true) == Ok::<Seq<SpecPart>, crate::error::Error>(Seq::empty()));
        }
    }
}

proof fn lemma_initial_extend(b: Seq<u8>, e: Seq<u8>, boundary: Seq<u8>)
    requires
        ends_with_crlf(b),
        (b + e).len() <= usize::MAX,
        spec_initial(b, boundary) is Ok,
    ensures
        spec_initial(b, boundary) matches Ok((cursor, done)) && spec_initial(b + e, boundary) == Ok::<
            (int, bool),
            crate::error::Error,
        >((if done { (b + e).len() as int } else { cursor }, done)),
        spec_initial(b, boundary) matches Ok((cursor, done)) && 0 <= cursor <= b.len(),
{
    let b2 = b + e;
    let opening = crate::names::spec_dash_dash() + boundary;
    lemma_first_marker(b, boundary, 0);
    if !starts_with_opening(b, boundary) {
        lemma_first_marker_extend(b, e, boundary, 0);
        let p = spec_first_marker(b, boundary, 0)->0;
        assert(opening.len() <= b.len());
    }
    if opening.len() <= b.len() {
        assert(b2.subrange(0, opening.len() as int) =~= b.subrange(0, opening.len() as int));
    }
    let start: int = if starts_with_opening(b, boundary) {
        0
    } else {
        spec_first_marker(b, boundary, 0)->0 + 2
    };
    let cursor = start + boundary.len() + 2;
    lemma_classify_at_end(b);
    if cursor < b.len() {
        lemma_classify_extend(b, e, cursor);
        lemma_classify(b, cursor);
    }
}

/// Bytes after a body that ends with CRLF (an epilogue after the close
/// delimiter line) do not change what the body parses to. Without the final
/// CRLF this fails: `--b--` parses, `--b--x` does not.
pub proof fn law_epilogue_ignored(body: Seq<u8>, boundary: Seq<u8>, epilogue: Seq<u8>)
    requires
        ends_with_crlf(body),
        (body + epilogue).len() <= usize::MAX,
    ensures
        spec_parse(body, boundary) is Ok ==> spec_parse(body + epilogue, boundary) == spec_parse(
            body,
            boundary,
        ),
{
    if spec_parse(body, boundary) is Ok {
        lemma_initial_extend(body, epilogue, boundary);
        let (cursor, done) = spec_initial(body, boundary)->Ok_0;
        if !done {
            lemma_parts_from_extend(body, epilogue, boundary, cursor, done);
        }
    }
}


/// Where the first part starts when the body opens with `"--" boundary` at its
/// first byte, and where it starts when `preamble` comes before that line.
proof fn lemma_initial_preamble(preamble: Seq<u8>, body: Seq<u8>, boundary: Seq<u8>)
    requires
        starts_with_opening(body, boundary),
        !starts_with_opening(preamble + body, boundary),
        spec_first_marker(preamble + body, boundary, 0) == Some(preamble.len() - 2),
        (preamble + body).len() <= usize::MAX,
        spec_initial(body, boundary) is Ok,
    ensures
        spec_initial(body, boundary) matches Ok((cursor, done)) && 0 <= cursor <= body.len()
            && spec_initial(preamble + body, boundary) == Ok::<(int, bool), crate::error::Error>(
            (cursor + preamble.len(), done),
        ),
{
    let cursor = boundary.len() + 2int;
    assert((crate::names::spec_dash_dash() + boundary).len() == cursor);
    lemma_classify_shifted(preamble, body, cursor);
}

/// A preamble before the first boundary line is passed over: the body parses to
/// the same parts, each body range moved by the preamble's length. The preamble
/// is what stands before the first delimiter (`CRLF "--" boundary`) of the whole
/// input, here the one whose `"--" boundary` opens `body`; the whole input must
/// not itself start with `"--" boundary`.
pub proof fn law_preamble_ignored(preamble: Seq<u8>, body: Seq<u8>, boundary: Seq<u8>)
    requires
        starts_with_opening(body, boundary),
        !starts_with_opening(preamble + body, boundary),
        spec_first_marker(preamble + body, boundary, 0) == Some(preamble.len() - 2),
        (preamble + body).len() <= usize::MAX,
    ensures
        spec_parse(body, boundary) is Ok ==> spec_parse(preamble + body, boundary) == Ok::<
            Seq<SpecPart>,
            crate::error::Error,
        >(shift_parts(spec_parse(body, boundary)->Ok_0, preamble.len() as int)),
{
    if spec_parse(body, boundary) is Ok {
        lemma_initial_preamble(preamble, body, boundary);
        let (cursor, done) = spec_initial(body, boundary)->Ok_0;
        lemma_parts_from_shift(preamble, body, boundary, cursor, done);
    }
}

} // verus!
