//! Where in the body a piece of input stands does not change what it parses to:
//! offsets reach only the errors, and a body parsed after `n` bytes of preamble
//! gives the same parts with every position moved by `n`.
use vstd::prelude::*;

use crate::boundary_scan::{
    delimiter_at, lemma_classify, lemma_first_delimiter, marker_at, spec_classify,
    spec_find_next_boundary, spec_first_delimiter, BoundaryLine,
};
use crate::content_disposition::{
    spec_cd_params, spec_decode_extended, spec_param_value, spec_parse_content_disposition,
    spec_percent_decode, spec_quoted,
};
use crate::deps::{first_index_of, lemma_first_index_of};
use crate::error::Error;
use crate::header::spec_header_parse;
use crate::parser::{
    empty_acc, lemma_header_lines, lemma_next_part, spec_add_header, spec_header_lines,
    spec_next_part, spec_parts_from, HeaderAcc,
};
use crate::part::SpecPart;
use crate::text::SpecText;
use crate::util::{is_ws, lemma_skip_ws, spec_skip_ws};

verus! {

proof fn lemma_quoted_offset(v: Seq<u8>, start: int, i: int, o1: usize, o2: usize)
    requires
        spec_quoted(v, start, i, o1) is Ok,
    ensures
        spec_quoted(v, start, i, o2) == spec_quoted(v, start, i, o1),
    decreases v.len() - i,
{
    if 0 <= i < v.len() && v[i] != 0x22u8 {
        if v[i] == 0x5Cu8 {
            lemma_quoted_offset(v, start, i + 2, o1, o2);
        } else {
            lemma_quoted_offset(v, start, i + 1, o1, o2);
        }
    }
}

proof fn lemma_param_value_offset(v: Seq<u8>, start: int, o1: usize, o2: usize)
    requires
        spec_param_value(v, start, o1) is Ok,
    ensures
        spec_param_value(v, start, o2) == spec_param_value(v, start, o1),
{
    if 0 <= start < v.len() && v[start] == 0x22u8 {
        lemma_quoted_offset(v, start + 1, start + 1, o1, o2);
    }
}

proof fn lemma_percent_decode_offset(s: Seq<u8>, i: int, o1: usize, o2: usize)
    requires
        spec_percent_decode(s, i, o1) is Ok,
    ensures
        spec_percent_decode(s, i, o2) == spec_percent_decode(s, i, o1),
    decreases s.len() - i,
{
    if 0 <= i < s.len() {
        if s[i] == 0x25u8 {
            lemma_percent_decode_offset(s, i + 3, o1, o2);
        } else {
            lemma_percent_decode_offset(s, i + 1, o1, o2);
        }
    }
}

proof fn lemma_decode_extended_offset(t: SpecText, o1: usize, o2: usize)
    requires
        spec_decode_extended(t, o1) is Ok,
    ensures
        spec_decode_extended(t, o2) == spec_decode_extended(t, o1),
{
    if let Ok((charset, encoded)) = crate::content_disposition::spec_split_extended(t.bytes, o1) {
        if first_index_of(encoded, 0x25u8) is Some {
            lemma_percent_decode_offset(encoded, 0, o1, o2);
        }
    }
}

proof fn lemma_cd_params_offset(
    v: Seq<u8>,
    o1: usize,
    o2: usize,
    cursor: int,
    name: Option<SpecText>,
    file: Option<SpecText>,
    star: Option<SpecText>,
)
    requires
        spec_cd_params(v, o1, cursor, name, file, star) is Ok,
    ensures
        spec_cd_params(v, o2, cursor, name, file, star) == spec_cd_params(
            v,
            o1,
            cursor,
            name,
            file,
            star,
        ),
    decreases v.len() - cursor,
{
    if 0 <= cursor < v.len() && v[cursor] == 0x3Bu8 {
        let c1 = spec_skip_ws(v, cursor + 1);
        lemma_skip_ws(v, cursor + 1);
        if c1 < v.len() {
            let c2 = crate::boundary::spec_find_eq_or_semi(v, c1);
            crate::boundary::lemma_find_eq_or_semi(v, c1);
            let pname = crate::util::spec_trim(v.subrange(c1, c2));
            if !(pname.len() == 0 || c2 >= v.len() || v[c2] != 0x3Du8) {
                let c3 = spec_skip_ws(v, c2 + 1);
                lemma_skip_ws(v, c2 + 1);
                lemma_param_value_offset(v, c3, o1, o2);
                crate::content_disposition::lemma_param_value(v, c3, o1);
                let (pv, next) = spec_param_value(v, c3, o1)->Ok_0;
                let after = spec_skip_ws(v, next);
                lemma_skip_ws(v, next);
                if crate::util::spec_eq_ignore_case(pname, crate::names::spec_name_param()) {
                    let name2 = if name is None {
                        Some(crate::content_disposition::spec_html_unescape(pv))
                    } else {
                        name
                    };
                    lemma_cd_params_offset(v, o1, o2, after, name2, file, star);
                } else if crate::util::spec_eq_ignore_case(
                    pname,
                    crate::names::spec_filename_param(),
                ) {
                    let file2 = if file is None {
                        Some(crate::content_disposition::spec_html_unescape(pv))
                    } else {
                        file
                    };
                    lemma_cd_params_offset(v, o1, o2, after, name, file2, star);
                } else if crate::util::spec_eq_ignore_case(
                    pname,
                    crate::names::spec_filename_star_param(),
                ) && star is None {
                    lemma_decode_extended_offset(pv, (o1 + c3) as usize, (o2 + c3) as usize);
                    let x = spec_decode_extended(pv, (o1 + c3) as usize)->Ok_0;
                    lemma_cd_params_offset(v, o1, o2, after, name, file, Some(x));
                } else {
                    lemma_cd_params_offset(v, o1, o2, after, name, file, star);
                }
            }
        }
    }
}

proof fn lemma_add_header_offset(
    acc: HeaderAcc,
    name: Seq<u8>,
    value: Seq<u8>,
    o1: usize,
    o2: usize,
)
    requires
        spec_add_header(acc, name, value, o1) is Ok,
    ensures
        spec_add_header(acc, name, value, o2) == spec_add_header(acc, name, value, o1),
{
    if crate::util::spec_eq_ignore_case(name, crate::names::spec_content_disposition_name()) {
        let end = crate::content_disposition::spec_disposition_end(value);
        lemma_cd_params_offset(value, o1, o2, end, None, None, None);
        assert(spec_parse_content_disposition(value, o2) == spec_parse_content_disposition(
            value,
            o1,
        ));
    }
}

proof fn lemma_skip_ws_shift(p: Seq<u8>, b: Seq<u8>, i: int)
    requires
        0 <= i <= b.len(),
    ensures
        spec_skip_ws(p + b, i + p.len()) == spec_skip_ws(b, i) + p.len(),
    decreases b.len() - i,
{
    if i < b.len() {
        assert((p + b)[i + p.len()] == b[i]);
        if is_ws(b[i]) {
            lemma_skip_ws_shift(p, b, i + 1);
        }
    }
}

/// A boundary line read `n` bytes further on: the next part starts `n` bytes later.
pub open spec fn shift_line(l: Option<BoundaryLine>, n: int) -> Option<BoundaryLine> {
    match l {
        Some(BoundaryLine::Encapsulation { next_cursor }) => Some(
            BoundaryLine::Encapsulation { next_cursor: (next_cursor + n) as usize },
        ),
        _ => l,
    }
}

proof fn lemma_classify_shift(p: Seq<u8>, b: Seq<u8>, q: int)
    requires
        0 <= q <= b.len(),
        (p + b).len() <= usize::MAX,
    ensures
        spec_classify(p + b, q + p.len()) == shift_line(spec_classify(b, q), p.len() as int),
{
    let b2 = p + b;
    let n = p.len() as int;
    if q + 2 <= b.len() {
        assert(b2[q + n] == b[q]);
        assert(b2[q + n + 1] == b[q + 1]);
    }
    if q + 2 <= b.len() && b[q] == 0x2Du8 && b[q + 1] == 0x2Du8 {
        lemma_skip_ws_shift(p, b, q + 2);
        lemma_skip_ws(b, q + 2);
        let padded = spec_skip_ws(b, q + 2);
        if padded + 2 <= b.len() {
            assert(b2[padded + n] == b[padded]);
            assert(b2[padded + n + 1] == b[padded + 1]);
        }
    } else {
        lemma_skip_ws_shift(p, b, q);
        lemma_skip_ws(b, q);
        let padded = spec_skip_ws(b, q);
        if padded + 2 <= b.len() {
            assert(b2[padded + n] == b[padded]);
            assert(b2[padded + n + 1] == b[padded + 1]);
        }
    }
}

proof fn lemma_marker_shift(p: Seq<u8>, b: Seq<u8>, boundary: Seq<u8>, k: int)
    requires
        0 <= k,
    ensures
        marker_at(p + b, boundary, k + p.len()) == marker_at(b, boundary, k),
{
    let b2 = p + b;
    let n = p.len() as int;
    if k + 4 + boundary.len() <= b.len() {
        assert(b2[k + n] == b[k]);
        assert(b2[k + n + 1] == b[k + 1]);
        assert(b2[k + n + 2] == b[k + 2]);
        assert(b2[k + n + 3] == b[k + 3]);
        assert(b2.subrange(k + n + 4, k + n + 4 + boundary.len()) =~= b.subrange(
            k + 4,
            k + 4 + boundary.len(),
        ));
    }
}

proof fn lemma_first_delimiter_shift(p: Seq<u8>, b: Seq<u8>, boundary: Seq<u8>, from: int)
    requires
        0 <= from,
        (p + b).len() <= usize::MAX,
    ensures
        spec_first_delimiter(p + b, boundary, from + p.len()) == match spec_first_delimiter(
            b,
            boundary,
            from,
        ) {
            Some(c) => Some(c + p.len()),
            None => None::<int>,
        },
    decreases b.len() - from,
{
    if from + boundary.len() + 4 <= b.len() {
        lemma_marker_shift(p, b, boundary, from);
        lemma_classify_shift(p, b, from + 4 + boundary.len());
        assert(delimiter_at(p + b, boundary, from + p.len()) == delimiter_at(b, boundary, from));
        if !delimiter_at(b, boundary, from) {
            lemma_first_delimiter_shift(p, b, boundary, from + 1);
        }
    }
}

proof fn lemma_find_next_boundary_shift(p: Seq<u8>, b: Seq<u8>, boundary: Seq<u8>, s: int)
    requires
        0 <= s <= b.len(),
        (p + b).len() <= usize::MAX,
        spec_find_next_boundary(b, boundary, s as usize) is Ok,
    ensures
        spec_find_next_boundary(b, boundary, s as usize) matches Ok((e, next, is_final))
            && spec_find_next_boundary(p + b, boundary, (s + p.len()) as usize) == Ok::<
            (usize, usize, bool),
            Error,
        >(((e + p.len()) as usize, (next + p.len()) as usize, is_final)),
{
    lemma_first_delimiter_shift(p, b, boundary, s);
    lemma_first_delimiter(b, boundary, s);
    let c = spec_first_delimiter(b, boundary, s)->0;
    lemma_classify_shift(p, b, c + 4 + boundary.len());
}

proof fn lemma_header_lines_shift(p: Seq<u8>, b: Seq<u8>, cursor: int, acc: HeaderAcc)
    requires
        0 <= cursor <= b.len(),
        (p + b).len() <= usize::MAX,
        spec_header_lines(b, cursor, acc) is Ok,
    ensures
        spec_header_lines(b, cursor, acc) matches Ok((acc2, body_start)) && spec_header_lines(
            p + b,
            cursor + p.len(),
            acc,
        ) == Ok::<(HeaderAcc, int), Error>((acc2, body_start + p.len())),
    decreases b.len() - cursor,
{
    let b2 = p + b;
    let n = p.len() as int;
    let rest = b.subrange(cursor, b.len() as int);
    assert(b2.subrange(cursor + n, b2.len() as int) =~= rest);
    lemma_first_index_of(rest, 0x0Au8);
    let rel = first_index_of(rest, 0x0Au8)->0;
    let line_end = cursor + rel;
    if rel != 0 {
        assert(b2[line_end + n - 1] == b[line_end - 1]);
        assert(b2.subrange(cursor + n, line_end + n - 1) =~= b.subrange(cursor, line_end - 1));
        let line = b.subrange(cursor, line_end - 1);
        if line.len() != 0 && !is_ws(line[0]) {
            let (name, value) = spec_header_parse(line, cursor as usize)->Ok_0;
            assert(spec_header_parse(line, (cursor + n) as usize) == spec_header_parse(
                line,
                cursor as usize,
            ));
            lemma_add_header_offset(acc, name, value, cursor as usize, (cursor + n) as usize);
            let acc2 = spec_add_header(acc, name, value, cursor as usize)->Ok_0;
            lemma_header_lines_shift(p, b, line_end + 1, acc2);
        }
    }
}

/// A part read `n` bytes further on: its body lies `n` bytes later.
pub open spec fn shift_part(q: SpecPart, n: int) -> SpecPart {
    SpecPart { body_start: q.body_start + n, body_end: q.body_end + n, ..q }
}

/// Parts read `n` bytes further on.
pub open spec fn shift_parts(parts: Seq<SpecPart>, n: int) -> Seq<SpecPart> {
    parts.map_values(|q: SpecPart| shift_part(q, n))
}

proof fn lemma_next_part_shift(p: Seq<u8>, b: Seq<u8>, boundary: Seq<u8>, cursor: int)
    requires
        0 <= cursor <= b.len(),
        (p + b).len() <= usize::MAX,
        spec_next_part(b, boundary, cursor) is Ok,
    ensures
        spec_next_part(b, boundary, cursor) matches Ok((q, next, is_final)) && spec_next_part(
            p + b,
            boundary,
            cursor + p.len(),
        ) == Ok::<(SpecPart, int, bool), Error>(
            (shift_part(q, p.len() as int), next + p.len(), is_final),
        ),
{
    lemma_header_lines_shift(p, b, cursor, empty_acc());
    lemma_header_lines(b, cursor, empty_acc());
    let (acc, body_start) = spec_header_lines(b, cursor, empty_acc())->Ok_0;
    lemma_find_next_boundary_shift(p, b, boundary, body_start);
    lemma_next_part(b, boundary, cursor);
}

/// The parts from `cursor` on, read `n` bytes further on, are the same parts
/// moved by `n`.
pub proof fn lemma_parts_from_shift(
    p: Seq<u8>,
    b: Seq<u8>,
    boundary: Seq<u8>,
    cursor: int,
    done: bool,
)
    requires
        0 <= cursor <= b.len(),
        (p + b).len() <= usize::MAX,
        spec_parts_from(b, boundary, cursor, done) is Ok,
    ensures
        spec_parts_from(p + b, boundary, cursor + p.len(), done) == Ok::<Seq<SpecPart>, Error>(
            shift_parts(spec_parts_from(b, boundary, cursor, done)->Ok_0, p.len() as int),
        ),
    decreases b.len() - cursor,
{
    let n = p.len() as int;
    if done {
        assert(shift_parts(Seq::<SpecPart>::empty(), n) =~= Seq::<SpecPart>::empty());
    } else {
        lemma_next_part_shift(p, b, boundary, cursor);
        lemma_next_part(b, boundary, cursor);
        let (q, next, is_final) = spec_next_part(b, boundary, cursor)->Ok_0;
        if !is_final {
            lemma_parts_from_shift(p, b, boundary, next, is_final);
        } else {
            assert(spec_parts_from(b, boundary, next, true) == Ok::<Seq<SpecPart>, Error>(
                Seq::empty(),
            ));
            assert(spec_parts_from(p + b, boundary, next + n, true) == Ok::<Seq<SpecPart>, Error>(
                Seq::empty(),
            ));
            assert(shift_parts(Seq::<SpecPart>::empty(), n) =~= Seq::<SpecPart>::empty());
        }
        let rest = spec_parts_from(b, boundary, next, is_final)->Ok_0;
        assert(shift_parts(seq![q] + rest, n) =~= seq![shift_part(q, n)] + shift_parts(rest, n));
    }
}

/// The first boundary line's classification, read `n` bytes further on.
pub proof fn lemma_classify_shifted(p: Seq<u8>, b: Seq<u8>, q: int)
    requires
        0 <= q <= b.len(),
        (p + b).len() <= usize::MAX,
    ensures
        spec_classify(p + b, q + p.len()) == shift_line(spec_classify(b, q), p.len() as int),
        spec_classify(b, q) matches Some(BoundaryLine::Encapsulation { next_cursor }) ==> q
            < next_cursor <= b.len(),
{
    lemma_classify_shift(p, b, q);
    lemma_classify(b, q);
}

} // verus!
