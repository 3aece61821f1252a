//! Reading a `Content-Type` value only looks at ASCII letters through their
//! lower-case form, except inside parameter values: two values that agree up to
//! ASCII case split into the same pieces at the same positions.
use vstd::prelude::*;

use crate::boundary::{
    spec_boundary_from_content_type, spec_ct_params, spec_ct_value, spec_find_eq_or_semi,
    spec_find_semi, spec_is_multipart_media_type, spec_quoted_end,
};
use crate::util::{
    ascii_lower, is_ws, spec_eq_ignore_case, spec_skip_ws, spec_trim, spec_trim_end_index,
};

verus! {

/// Bytes that agree up to ASCII case are equal when either is not a letter, so
/// spaces, tabs and the separators `;`, `=`, `"` and `\` sit at the same places.
proof fn lemma_same_byte(c: u8, d: u8)
    requires
        ascii_lower(c) == ascii_lower(d),
    ensures
        is_ws(c) <==> is_ws(d),
        c == 0x3Bu8 <==> d == 0x3Bu8,
        c == 0x3Du8 <==> d == 0x3Du8,
        c == 0x22u8 <==> d == 0x22u8,
        c == 0x5Cu8 <==> d == 0x5Cu8,
{
}

proof fn lemma_byte_at(b: Seq<u8>, b2: Seq<u8>, k: int)
    requires
        spec_eq_ignore_case(b, b2),
        0 <= k < b.len(),
    ensures
        is_ws(b[k]) <==> is_ws(b2[k]),
        b[k] == 0x3Bu8 <==> b2[k] == 0x3Bu8,
        b[k] == 0x3Du8 <==> b2[k] == 0x3Du8,
        b[k] == 0x22u8 <==> b2[k] == 0x22u8,
        b[k] == 0x5Cu8 <==> b2[k] == 0x5Cu8,
{
    assert(ascii_lower(b[k]) == ascii_lower(b2[k]));
    lemma_same_byte(b[k], b2[k]);
}

proof fn lemma_sub(b: Seq<u8>, b2: Seq<u8>, i: int, j: int)
    requires
        spec_eq_ignore_case(b, b2),
        0 <= i <= j <= b.len(),
    ensures
        spec_eq_ignore_case(b.subrange(i, j), b2.subrange(i, j)),
{
    assert forall|k: int| 0 <= k < j - i implies ascii_lower(#[trigger] b.subrange(i, j)[k])
        == ascii_lower(b2.subrange(i, j)[k]) by {
        assert(ascii_lower(b[i + k]) == ascii_lower(b2[i + k]));
    }
}

proof fn lemma_skip_ws_case(b: Seq<u8>, b2: Seq<u8>, i: int)
    requires
        spec_eq_ignore_case(b, b2),
    ensures
        spec_skip_ws(b, i) == spec_skip_ws(b2, i),
    decreases b.len() - i,
{
    if 0 <= i < b.len() {
        lemma_byte_at(b, b2, i);
        if is_ws(b[i]) {
            lemma_skip_ws_case(b, b2, i + 1);
        }
    }
}

proof fn lemma_find_semi_case(b: Seq<u8>, b2: Seq<u8>, i: int)
    requires
        spec_eq_ignore_case(b, b2),
    ensures
        spec_find_semi(b, i) == spec_find_semi(b2, i),
    decreases b.len() - i,
{
    if 0 <= i < b.len() {
        lemma_byte_at(b, b2, i);
        if b[i] != 0x3Bu8 {
            lemma_find_semi_case(b, b2, i + 1);
        }
    }
}

proof fn lemma_find_eq_or_semi_case(b: Seq<u8>, b2: Seq<u8>, i: int)
    requires
        spec_eq_ignore_case(b, b2),
    ensures
        spec_find_eq_or_semi(b, i) == spec_find_eq_or_semi(b2, i),
    decreases b.len() - i,
{
    if 0 <= i < b.len() {
        lemma_byte_at(b, b2, i);
        if b[i] != 0x3Du8 && b[i] != 0x3Bu8 {
            lemma_find_eq_or_semi_case(b, b2, i + 1);
        }
    }
}

proof fn lemma_quoted_end_case(b: Seq<u8>, b2: Seq<u8>, i: int, escaped: bool)
    requires
        spec_eq_ignore_case(b, b2),
    ensures
        spec_quoted_end(b, i, escaped) == spec_quoted_end(b2, i, escaped),
    decreases b.len() - i,
{
    if 0 <= i < b.len() {
        lemma_byte_at(b, b2, i);
        if b[i] != 0x22u8 {
            if b[i] == 0x5Cu8 {
                if i + 1 < b.len() {
                    lemma_quoted_end_case(b, b2, i + 2, true);
                }
            } else {
                lemma_quoted_end_case(b, b2, i + 1, escaped);
            }
        }
    }
}

proof fn lemma_trim_end_index_case(b: Seq<u8>, b2: Seq<u8>, end: int)
    requires
        spec_eq_ignore_case(b, b2),
    ensures
        spec_trim_end_index(b, end) == spec_trim_end_index(b2, end),
    decreases end,
{
    if 0 < end <= b.len() {
        lemma_byte_at(b, b2, end - 1);
        if is_ws(b[end - 1]) {
            lemma_trim_end_index_case(b, b2, end - 1);
        }
    }
}

proof fn lemma_trim_case(s: Seq<u8>, s2: Seq<u8>)
    requires
        spec_eq_ignore_case(s, s2),
    ensures
        spec_eq_ignore_case(spec_trim(s), spec_trim(s2)),
{
    crate::util::lemma_skip_ws(s, 0);
    lemma_skip_ws_case(s, s2, 0);
    let start = spec_skip_ws(s, 0);
    lemma_sub(s, s2, start, s.len() as int);
    let t = s.subrange(start, s.len() as int);
    let t2 = s2.subrange(start, s.len() as int);
    lemma_trim_end_index_case(t, t2, t.len() as int);
    crate::util::lemma_trim_end_index(t, t.len() as int);
    lemma_sub(t, t2, 0, spec_trim_end_index(t, t.len() as int));
}

proof fn lemma_eq_ignore_case_swap(a: Seq<u8>, a2: Seq<u8>, p: Seq<u8>)
    requires
        spec_eq_ignore_case(a, a2),
    ensures
        spec_eq_ignore_case(a, p) <==> spec_eq_ignore_case(a2, p),
{
    if spec_eq_ignore_case(a, p) {
        assert forall|i: int| 0 <= i < a2.len() implies ascii_lower(#[trigger] a2[i])
            == ascii_lower(p[i]) by {
            assert(ascii_lower(a[i]) == ascii_lower(a2[i]));
            assert(ascii_lower(a[i]) == ascii_lower(p[i]));
        }
    }
    if spec_eq_ignore_case(a2, p) {
        assert forall|i: int| 0 <= i < a.len() implies ascii_lower(#[trigger] a[i]) == ascii_lower(
            p[i],
        ) by {
            assert(ascii_lower(a[i]) == ascii_lower(a2[i]));
            assert(ascii_lower(a2[i]) == ascii_lower(p[i]));
        }
    }
}

proof fn lemma_ct_value_case(b: Seq<u8>, b2: Seq<u8>, start: int)
    requires
        spec_eq_ignore_case(b, b2),
    ensures
        spec_ct_value(b, start) == spec_ct_value(b2, start),
{
    if 0 <= start < b.len() {
        lemma_byte_at(b, b2, start);
        lemma_quoted_end_case(b, b2, start + 1, false);
        lemma_find_semi_case(b, b2, start);
        lemma_trim_end_index_case(b, b2, spec_find_semi(b, start));
    }
}

/// Both readings give a value, or neither does; a value comes from the same byte
/// range of each.
pub open spec fn same_range(b: Seq<u8>, b2: Seq<u8>, r: Option<Seq<u8>>, r2: Option<Seq<u8>>) -> bool {
    match (r, r2) {
        (None, None) => true,
        (Some(v), Some(v2)) => exists|i: int, j: int|
            0 <= i <= j <= b.len() && v == b.subrange(i, j) && v2 == b2.subrange(i, j),
        _ => false,
    }
}

proof fn lemma_ct_params_case(b: Seq<u8>, b2: Seq<u8>, cursor: int)
    requires
        spec_eq_ignore_case(b, b2),
        0 <= cursor,
    ensures
        same_range(b, b2, spec_ct_params(b, cursor), spec_ct_params(b2, cursor)),
    decreases b.len() - cursor,
{
    if cursor < b.len() {
        lemma_byte_at(b, b2, cursor);
        if b[cursor] == 0x3Bu8 {
            lemma_skip_ws_case(b, b2, cursor + 1);
            crate::util::lemma_skip_ws(b, cursor + 1);
            let c1 = spec_skip_ws(b, cursor + 1);
            if c1 < b.len() {
                lemma_find_eq_or_semi_case(b, b2, c1);
                crate::boundary::lemma_find_eq_or_semi(b, c1);
                let c2 = spec_find_eq_or_semi(b, c1);
                lemma_sub(b, b2, c1, c2);
                lemma_trim_case(b.subrange(c1, c2), b2.subrange(c1, c2));
                lemma_eq_ignore_case_swap(
                    spec_trim(b.subrange(c1, c2)),
                    spec_trim(b2.subrange(c1, c2)),
                    crate::names::spec_boundary_param(),
                );
                if c2 < b.len() {
                    lemma_byte_at(b, b2, c2);
                    if b[c2] != 0x3Du8 {
                        lemma_ct_params_case(b, b2, c2);
                    } else {
                        lemma_skip_ws_case(b, b2, c2 + 1);
                        crate::util::lemma_skip_ws(b, c2 + 1);
                        let c3 = spec_skip_ws(b, c2 + 1);
                        lemma_ct_value_case(b, b2, c3);
                        crate::boundary::lemma_ct_value(b, c3);
                        if let Some((rs, re, next, escaped)) = spec_ct_value(b, c3) {
                            lemma_skip_ws_case(b, b2, next);
                            crate::util::lemma_skip_ws(b, next);
                            let c4 = spec_skip_ws(b, next);
                            if c4 < b.len() {
                                lemma_byte_at(b, b2, c4);
                            }
                            lemma_ct_params_case(b, b2, c4);
                            if spec_ct_params(b, cursor) == Some(b.subrange(rs, re))
                                && spec_ct_params(b2, cursor) == Some(b2.subrange(rs, re)) {
                                assert(same_range(
                                    b,
                                    b2,
                                    Some(b.subrange(rs, re)),
                                    Some(b2.subrange(rs, re)),
                                ));
                            }
                        }
                    }
                }
            }
        }
    }
}

/// Two `Content-Type` values that agree up to ASCII case name a boundary alike:
/// both or neither, read from the same byte range.
pub proof fn lemma_boundary_case(b: Seq<u8>, b2: Seq<u8>)
    requires
        spec_eq_ignore_case(b, b2),
    ensures
        same_range(b, b2, spec_boundary_from_content_type(b), spec_boundary_from_content_type(b2)),
{
    lemma_skip_ws_case(b, b2, 0);
    crate::util::lemma_skip_ws(b, 0);
    let s = spec_skip_ws(b, 0);
    lemma_find_semi_case(b, b2, s);
    crate::boundary::lemma_find_semi(b, s);
    let e = spec_find_semi(b, s);
    lemma_sub(b, b2, s, e);
    lemma_trim_case(b.subrange(s, e), b2.subrange(s, e));
    let m = spec_trim(b.subrange(s, e));
    let m2 = spec_trim(b2.subrange(s, e));
    let p = crate::names::spec_multipart_prefix();
    if m.len() > p.len() {
        lemma_sub(m, m2, 0, p.len() as int);
        lemma_eq_ignore_case_swap(m.subrange(0, p.len() as int), m2.subrange(0, p.len() as int), p);
    }
    assert(spec_is_multipart_media_type(m) == spec_is_multipart_media_type(m2));
    lemma_ct_params_case(b, b2, e);
}

} // verus!
