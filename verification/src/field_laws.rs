//! Properties of the field-level readers that hold of every input: quoted
//! parameter values, percent-decoding, boundary bytes and the conversion of parts
//! for the JavaScript targets.
use vstd::prelude::*;
use vstd::utf8::valid_utf8;

use crate::bindings::{spec_js_headers, spec_js_part, spec_u32_field, BindingError};
use crate::boundary::{
    lemma_first_invalid_boundary_byte, spec_boundary_error, spec_first_invalid_boundary_byte,
    spec_is_boundary_byte,
};
use crate::content_disposition::{spec_param_value, spec_percent_decode, spec_quoted};
use crate::content_disposition::spec_hex;
use crate::part::SpecPart;
use crate::text::SpecText;
use crate::util::ascii_lower;

verus! {

proof fn lemma_quoted_plain(v: Seq<u8>, start: int, i: int, end: int, offset: usize)
    requires
        0 <= start <= i <= end < v.len(),
        v[end] == 0x22u8,
        forall|k: int| i <= k < end ==> #[trigger] v[k] != 0x22u8 && v[k] != 0x5Cu8,
    ensures
        spec_quoted(v, start, i, offset) == Ok::<(Seq<u8>, int, bool), crate::error::Error>(
            (v.subrange(i, end), end, false),
        ),
    decreases end - i,
{
    if i == end {
        assert(v.subrange(i, end) =~= Seq::<u8>::empty());
    } else {
        lemma_quoted_plain(v, start, i + 1, end, offset);
        assert(seq![v[i]] + v.subrange(i + 1, end) =~= v.subrange(i, end));
    }
}

/// A quoted parameter value `"` q `"` whose text q holds no quote and no
/// backslash always parses, to exactly q (so `""` gives the empty text),
/// borrowed, and the parameter ends right after the closing quote.
pub proof fn law_plain_quoted_value(v: Seq<u8>, start: int, q: Seq<u8>, offset: usize)
    requires
        0 <= start,
        start + q.len() + 2 <= v.len(),
        v[start] == 0x22u8,
        v.subrange(start + 1, start + 1 + q.len()) == q,
        v[start + 1 + q.len()] == 0x22u8,
        forall|k: int| 0 <= k < q.len() ==> #[trigger] q[k] != 0x22u8 && q[k] != 0x5Cu8,
    ensures
        spec_param_value(v, start, offset) == Ok::<(SpecText, int), crate::error::Error>(
            (SpecText { bytes: q, owned: false }, start + q.len() + 2),
        ),
{
    let end = start + 1 + q.len();
    assert forall|k: int| start + 1 <= k < end implies #[trigger] v[k] != 0x22u8 && v[k]
        != 0x5Cu8 by {
        assert(v[k] == q[k - start - 1]);
    }
    lemma_quoted_plain(v, start + 1, start + 1, end, offset);
}

/// The hexadecimal digit of `n` (below 16): `0`-`9`, then `a`-`f`, or `A`-`F`
/// when `upper`.
pub open spec fn hex_digit(n: u8, upper: bool) -> u8 {
    if n < 10 {
        (0x30u8 + n) as u8
    } else if upper {
        (0x41u8 + n - 10) as u8
    } else {
        (0x61u8 + n - 10) as u8
    }
}

/// Every hexadecimal digit, in either case, reads as its value; the letter case
/// of a byte never changes how it reads; and nothing else reads as a digit.
pub proof fn law_hex_digits(c: u8, n: u8, upper: bool)
    requires
        n < 16,
    ensures
        spec_hex(hex_digit(n, upper)) == Some(n),
        spec_hex(c) == spec_hex(ascii_lower(c)),
        spec_hex(c) matches Some(d) ==> d < 16 && (c == hex_digit(d, false) || c == hex_digit(
            d,
            true,
        )),
{
}

/// Percent-decoding inverts percent-encoding: `%` followed by the two hexadecimal
/// digits of a byte, each in either letter case, decodes to that byte.
pub proof fn law_percent_decode_byte(x: u8, upper_hi: bool, upper_lo: bool, offset: usize)
    ensures
        spec_percent_decode(
            seq![0x25u8, hex_digit(x / 16, upper_hi), hex_digit(x % 16, upper_lo)],
            0,
            offset,
        ) == Ok::<Seq<u8>, crate::error::Error>(seq![x]),
{
    let s = seq![0x25u8, hex_digit(x / 16, upper_hi), hex_digit(x % 16, upper_lo)];
    law_hex_digits(0, x / 16, upper_hi);
    law_hex_digits(0, x % 16, upper_lo);
    assert(s[1] == hex_digit(x / 16, upper_hi));
    assert(s[2] == hex_digit(x % 16, upper_lo));
    assert((x / 16) * 16 + x % 16 == x) by (nonlinear_arith);
    assert(spec_percent_decode(s, 3, offset) == Ok::<Seq<u8>, crate::error::Error>(Seq::empty()));
    assert(seq![x] + Seq::<u8>::empty() =~= seq![x]);
}

/// The punctuation that RFC 2046 allows in a boundary besides letters, digits
/// and space: `'()+_,-./:=?`.
pub open spec fn rfc2046_punctuation() -> Seq<u8> {
    seq![0x27u8, 0x28u8, 0x29u8, 0x2Bu8, 0x5Fu8, 0x2Cu8, 0x2Du8, 0x2Eu8, 0x2Fu8, 0x3Au8, 0x3Du8, 0x3Fu8]
}

/// An RFC 2046 `bcharsnospace` byte: an ASCII letter or digit, or one of the
/// allowed punctuation characters.
pub open spec fn rfc2046_bchar_nospace(c: u8) -> bool {
    ||| 0x61u8 <= ascii_lower(c) <= 0x7Au8
    ||| 0x30u8 <= c <= 0x39u8
    ||| rfc2046_punctuation().contains(c)
}

proof fn lemma_boundary_byte(c: u8, is_last: bool)
    ensures
        spec_is_boundary_byte(c, is_last) <==> rfc2046_bchar_nospace(c) || (c == 0x20u8
            && !is_last),
{
    let p = rfc2046_punctuation();
    if p.contains(c) {
        let k = choose|k: int| 0 <= k < p.len() && p[k] == c;
        assert(0 <= k < 12);
        assert(k == 0 || k == 1 || k == 2 || k == 3 || k == 4 || k == 5 || k == 6 || k == 7
            || k == 8 || k == 9 || k == 10 || k == 11);
    }
    if c == 0x27u8 { assert(p[0] == c); }
    if c == 0x28u8 { assert(p[1] == c); }
    if c == 0x29u8 { assert(p[2] == c); }
    if c == 0x2Bu8 { assert(p[3] == c); }
    if c == 0x5Fu8 { assert(p[4] == c); }
    if c == 0x2Cu8 { assert(p[5] == c); }
    if c == 0x2Du8 { assert(p[6] == c); }
    if c == 0x2Eu8 { assert(p[7] == c); }
    if c == 0x2Fu8 { assert(p[8] == c); }
    if c == 0x3Au8 { assert(p[9] == c); }
    if c == 0x3Du8 { assert(p[10] == c); }
    if c == 0x3Fu8 { assert(p[11] == c); }
}

/// A boundary is accepted exactly when it has 1 to 70 bytes, each an RFC 2046
/// `bchars` byte: a letter, a digit, one of `'()+_,-./:=?`, or a space that is
/// not the last byte.
pub proof fn law_boundary_accepts_rfc2046_bchars(raw: Seq<u8>)
    ensures
        spec_boundary_error(raw) is None <==> {
            &&& 1 <= raw.len() <= 70
            &&& forall|i: int|
                0 <= i < raw.len() ==> rfc2046_bchar_nospace(#[trigger] raw[i]) || (raw[i]
                    == 0x20u8 && i + 1 < raw.len())
        },
{
    lemma_first_invalid_boundary_byte(raw, 0);
    assert forall|i: int| 0 <= i < raw.len() implies (spec_is_boundary_byte(
        #[trigger] raw[i],
        i + 1 == raw.len(),
    ) <==> (rfc2046_bchar_nospace(raw[i]) || (raw[i] == 0x20u8 && i + 1 < raw.len()))) by {
        lemma_boundary_byte(raw[i], i + 1 == raw.len());
    }
    if 1 <= raw.len() <= 70 {
        if let Some(k) = spec_first_invalid_boundary_byte(raw, 0) {
            lemma_boundary_byte(raw[k], k + 1 == raw.len());
        }
    }
}

/// An offset converts for the JavaScript targets exactly when it fits in a
/// `u32`, and then to the same number.
pub proof fn law_u32_field(v: int, label: &'static str)
    ensures
        0 <= v <= u32::MAX ==> spec_u32_field(v, label) == Ok::<u32, BindingError>(v as u32),
        !(0 <= v <= u32::MAX) ==> spec_u32_field(v, label) is Err,
{
}

/// Whether every text of a part (header names and values, name, file name and
/// content type) is valid UTF-8.
pub open spec fn part_texts_utf8(p: SpecPart) -> bool {
    &&& forall|i: int|
        0 <= i < p.headers.len() ==> valid_utf8((#[trigger] p.headers[i]).0) && valid_utf8(
            p.headers[i].1,
        )
    &&& p.name matches Some(t) ==> valid_utf8(t.bytes)
    &&& p.file_name matches Some(t) ==> valid_utf8(t.bytes)
    &&& p.content_type matches Some(c) ==> valid_utf8(c)
}

proof fn lemma_js_headers_ok(hs: Seq<(Seq<u8>, Seq<u8>)>, i: int)
    requires
        0 <= i,
        forall|k: int| 0 <= k < hs.len() ==> valid_utf8((#[trigger] hs[k]).0) && valid_utf8(
            hs[k].1,
        ),
    ensures
        spec_js_headers(hs, i) is Ok,
    decreases hs.len() - i,
{
    if i < hs.len() {
        assert(valid_utf8(hs[i].0) && valid_utf8(hs[i].1));
        lemma_js_headers_ok(hs, i + 1);
    }
}

/// A part converts for the JavaScript targets, with its own body offsets, whenever
/// its texts are UTF-8 and its offsets fit in a `u32`; a converted part always
/// carries the part's own offsets; and a part whose body ends beyond `u32::MAX`
/// is refused.
pub proof fn law_js_part_offsets(p: SpecPart)
    ensures
        spec_js_part(p) matches Ok(j) ==> j.body_start == p.body_start && j.body_end
            == p.body_end,
        part_texts_utf8(p) && 0 <= p.body_start <= u32::MAX && 0 <= p.body_end <= u32::MAX
            ==> spec_js_part(p) is Ok,
        !(0 <= p.body_end <= u32::MAX) ==> spec_js_part(p) is Err,
{
    if part_texts_utf8(p) {
        lemma_js_headers_ok(p.headers, 0);
    }
}


/// `xs` percent-encoded: each byte as `%` and its two hexadecimal digits.
pub open spec fn percent_encode(xs: Seq<u8>, upper: bool) -> Seq<u8>
    decreases xs.len(),
{
    if xs.len() == 0 {
        Seq::empty()
    } else {
        seq![0x25u8, hex_digit(xs[0] / 16, upper), hex_digit(xs[0] % 16, upper)] + percent_encode(
            xs.drop_first(),
            upper,
        )
    }
}

/// Decoding does not depend on what stands before the decoded range.
proof fn lemma_percent_decode_after(p: Seq<u8>, r: Seq<u8>, i: int, offset: usize)
    requires
        0 <= i,
        spec_percent_decode(r, i, offset) is Ok,
    ensures
        spec_percent_decode(p + r, i + p.len(), offset) == spec_percent_decode(r, i, offset),
    decreases r.len() - i,
{
    let n = p.len() as int;
    if i < r.len() {
        assert((p + r)[i + n] == r[i]);
        if r[i] == 0x25u8 {
            assert((p + r)[i + n + 1] == r[i + 1]);
            assert((p + r)[i + n + 2] == r[i + 2]);
            lemma_percent_decode_after(p, r, i + 3, offset);
        } else {
            lemma_percent_decode_after(p, r, i + 1, offset);
        }
    }
}

/// Percent-decoding undoes percent-encoding, for any bytes and either letter case.
pub proof fn law_percent_decode_inverts_encoding(xs: Seq<u8>, upper: bool, offset: usize)
    ensures
        spec_percent_decode(percent_encode(xs, upper), 0, offset) == Ok::<
            Seq<u8>,
            crate::error::Error,
        >(xs),
    decreases xs.len(),
{
    if xs.len() == 0 {
        assert(xs =~= Seq::<u8>::empty());
        assert(spec_percent_decode(Seq::<u8>::empty(), 0, offset) == Ok::<
            Seq<u8>,
            crate::error::Error,
        >(Seq::<u8>::empty()));
    } else {
        let x = xs[0];
        let c = seq![0x25u8, hex_digit(x / 16, upper), hex_digit(x % 16, upper)];
        let e = percent_encode(xs.drop_first(), upper);
        law_percent_decode_inverts_encoding(xs.drop_first(), upper, offset);
        lemma_percent_decode_after(c, e, 0, offset);
        law_hex_digits(0, x / 16, upper);
        law_hex_digits(0, x % 16, upper);
        let s = c + e;
        assert(s[0] == 0x25u8);
        assert(s[1] == hex_digit(x / 16, upper));
        assert(s[2] == hex_digit(x % 16, upper));
        assert((x / 16) * 16 + x % 16 == x) by (nonlinear_arith);
        assert(percent_encode(xs, upper) == s);
        assert(spec_percent_decode(s, 3, offset) == Ok::<Seq<u8>, crate::error::Error>(
            xs.drop_first(),
        ));
        assert(spec_percent_decode(s, 0, offset) == Ok::<Seq<u8>, crate::error::Error>(
            seq![x] + xs.drop_first(),
        ));
        assert(seq![x] + xs.drop_first() =~= xs);
    }
}

/// Text without `%` decodes to itself.
pub proof fn law_percent_decode_plain(s: Seq<u8>, i: int, offset: usize)
    requires
        0 <= i <= s.len(),
        forall|k: int| i <= k < s.len() ==> #[trigger] s[k] != 0x25u8,
    ensures
        spec_percent_decode(s, i, offset) == Ok::<Seq<u8>, crate::error::Error>(
            s.subrange(i, s.len() as int),
        ),
    decreases s.len() - i,
{
    if i < s.len() {
        law_percent_decode_plain(s, i + 1, offset);
        assert(seq![s[i]] + s.subrange(i + 1, s.len() as int) =~= s.subrange(i, s.len() as int));
    } else {
        assert(s.subrange(i, s.len() as int) =~= Seq::<u8>::empty());
    }
}

/// The bytes that the HTML form encoding escapes: LF, CR and `"`.
pub open spec fn html_special(c: u8) -> bool {
    c == 0x0Au8 || c == 0x0Du8 || c == 0x22u8
}

/// `xs` as an HTML form encodes a name or file name: LF as `%0A`, CR as `%0D`
/// and `"` as `%22` (the letters in lower case when `lower`), other bytes as
/// they are.
pub open spec fn html_encode(xs: Seq<u8>, lower: bool) -> Seq<u8>
    decreases xs.len(),
{
    if xs.len() == 0 {
        Seq::empty()
    } else {
        let c = xs[0];
        let head = if c == 0x0Au8 {
            seq![0x25u8, 0x30u8, if lower { 0x61u8 } else { 0x41u8 }]
        } else if c == 0x0Du8 {
            seq![0x25u8, 0x30u8, if lower { 0x64u8 } else { 0x44u8 }]
        } else if c == 0x22u8 {
            seq![0x25u8, 0x32u8, 0x32u8]
        } else {
            seq![c]
        };
        head + html_encode(xs.drop_first(), lower)
    }
}

proof fn lemma_html_decode_after(p: Seq<u8>, r: Seq<u8>, i: int)
    requires
        0 <= i,
    ensures
        crate::content_disposition::spec_html_decode(p + r, i + p.len())
            == crate::content_disposition::spec_html_decode(r, i),
    decreases r.len() - i,
{
    let n = p.len() as int;
    let b = p + r;
    if i + 2 >= r.len() {
        if i <= r.len() {
            assert(b.subrange(i + n, b.len() as int) =~= r.subrange(i, r.len() as int));
        } else {
            assert(b.subrange(b.len() as int, b.len() as int) =~= r.subrange(
                r.len() as int,
                r.len() as int,
            ));
        }
    } else {
        assert(b[i + n] == r[i]);
        assert(b[i + n + 1] == r[i + 1]);
        assert(b[i + n + 2] == r[i + 2]);
        lemma_html_decode_after(p, r, i + 3);
        lemma_html_decode_after(p, r, i + 1);
    }
}

/// Decoding the HTML form escapes undoes the HTML form encoding of any text
/// without `%`, in either letter case, and reports a replacement exactly when the
/// text holds LF, CR or `"`.
pub proof fn law_html_decode_inverts_encoding(xs: Seq<u8>, lower: bool)
    requires
        forall|k: int| 0 <= k < xs.len() ==> #[trigger] xs[k] != 0x25u8,
    ensures
        crate::content_disposition::spec_html_decode(html_encode(xs, lower), 0) == (
            xs,
            exists|k: int| 0 <= k < xs.len() && html_special(#[trigger] xs[k]),
        ),
    decreases xs.len(),
{
    lemma_html_encode(xs, lower);
}

proof fn lemma_html_encode(xs: Seq<u8>, lower: bool)
    requires
        forall|k: int| 0 <= k < xs.len() ==> #[trigger] xs[k] != 0x25u8,
    ensures
        crate::content_disposition::spec_html_decode(html_encode(xs, lower), 0) == (
            xs,
            exists|k: int| 0 <= k < xs.len() && html_special(#[trigger] xs[k]),
        ),
        (exists|k: int| 0 <= k < xs.len() && html_special(#[trigger] xs[k])) ==> html_encode(
            xs,
            lower,
        ).len() >= 3,
        !(exists|k: int| 0 <= k < xs.len() && html_special(#[trigger] xs[k])) ==> html_encode(
            xs,
            lower,
        ) == xs,
    decreases xs.len(),
{
    let s = html_encode(xs, lower);
    if xs.len() == 0 {
        assert(s.subrange(0, 0) =~= xs);
    } else {
        let c = xs[0];
        let rest = xs.drop_first();
        assert forall|k: int| 0 <= k < rest.len() implies #[trigger] rest[k] != 0x25u8 by {
            assert(rest[k] == xs[k + 1]);
        }
        lemma_html_encode(rest, lower);
        let e = html_encode(rest, lower);
        let any = exists|k: int| 0 <= k < xs.len() && html_special(#[trigger] xs[k]);
        let any_rest = exists|k: int| 0 <= k < rest.len() && html_special(#[trigger] rest[k]);
        if any_rest {
            let k = choose|k: int| 0 <= k < rest.len() && html_special(#[trigger] rest[k]);
            assert(xs[k + 1] == rest[k]);
        }
        if any && !html_special(c) {
            let k = choose|k: int| 0 <= k < xs.len() && html_special(#[trigger] xs[k]);
            assert(k != 0);
            assert(rest[k - 1] == xs[k]);
        }
        assert(any <==> html_special(c) || any_rest);
        assert(seq![c] + rest =~= xs);
        if html_special(c) {
            let head = if c == 0x0Au8 {
                seq![0x25u8, 0x30u8, if lower { 0x61u8 } else { 0x41u8 }]
            } else if c == 0x0Du8 {
                seq![0x25u8, 0x30u8, if lower { 0x64u8 } else { 0x44u8 }]
            } else {
                seq![0x25u8, 0x32u8, 0x32u8]
            };
            assert(s == head + e);
            lemma_html_decode_after(head, e, 0);
            assert(s[0] == 0x25u8 && s[1] == head[1] && s[2] == head[2]);
        } else {
            assert(xs[0] != 0x25u8);
            assert(s == seq![c] + e);
            lemma_html_decode_after(seq![c], e, 0);
            if s.len() <= 2 {
                assert(e == rest);
                assert(s.subrange(0, s.len() as int) =~= xs);
            }
        }
    }
}

/// An RFC 7230 `tchar`: an ASCII letter or digit or one of ``!#$%&'*+-.^_`|~``.
pub open spec fn rfc7230_tchar(c: u8) -> bool {
    ||| 0x61u8 <= ascii_lower(c) <= 0x7Au8
    ||| 0x30u8 <= c <= 0x39u8
    ||| seq![0x21u8, 0x23u8, 0x24u8, 0x25u8, 0x26u8, 0x27u8, 0x2Au8, 0x2Bu8, 0x2Du8, 0x2Eu8, 0x5Eu8, 0x5Fu8, 0x60u8, 0x7Cu8, 0x7Eu8].contains(c)
}

proof fn lemma_tchar(c: u8)
    ensures
        crate::header::spec_is_tchar(c) <==> rfc7230_tchar(c),
        rfc7230_tchar(c) ==> c != 0x3Au8,
{
    let p = seq![0x21u8, 0x23u8, 0x24u8, 0x25u8, 0x26u8, 0x27u8, 0x2Au8, 0x2Bu8, 0x2Du8, 0x2Eu8, 0x5Eu8, 0x5Fu8, 0x60u8, 0x7Cu8, 0x7Eu8];
    if p.contains(c) {
        let k = choose|k: int| 0 <= k < p.len() && p[k] == c;
        assert(k == 0 || k == 1 || k == 2 || k == 3 || k == 4 || k == 5 || k == 6 || k == 7
            || k == 8 || k == 9 || k == 10 || k == 11 || k == 12 || k == 13 || k == 14);
    }
    if c == 0x21u8 { assert(p[0] == c); }
    if c == 0x23u8 { assert(p[1] == c); }
    if c == 0x24u8 { assert(p[2] == c); }
    if c == 0x25u8 { assert(p[3] == c); }
    if c == 0x26u8 { assert(p[4] == c); }
    if c == 0x27u8 { assert(p[5] == c); }
    if c == 0x2Au8 { assert(p[6] == c); }
    if c == 0x2Bu8 { assert(p[7] == c); }
    if c == 0x2Du8 { assert(p[8] == c); }
    if c == 0x2Eu8 { assert(p[9] == c); }
    if c == 0x5Eu8 { assert(p[10] == c); }
    if c == 0x5Fu8 { assert(p[11] == c); }
    if c == 0x60u8 { assert(p[12] == c); }
    if c == 0x7Cu8 { assert(p[13] == c); }
    if c == 0x7Eu8 { assert(p[14] == c); }
}

/// Whether `val` is `v` without its leading and trailing spaces and tabs.
pub open spec fn trimmed(v: Seq<u8>, val: Seq<u8>) -> bool {
    exists|a: int, e: int|
        0 <= a <= e <= v.len() && val == v.subrange(a, e) && (forall|k: int|
            0 <= k < a ==> crate::util::is_ws(#[trigger] v[k])) && (forall|k: int|
            e <= k < v.len() ==> crate::util::is_ws(#[trigger] v[k])) && (val.len() > 0 ==> (
        !crate::util::is_ws(val[0]) && !crate::util::is_ws(val.last())))
}

/// A header line is read exactly when the bytes before its first `:` form a
/// non-empty token; the header's name is that token and its value is the rest of
/// the line without its surrounding spaces and tabs.
pub proof fn law_header_line(line: Seq<u8>, offset: usize)
    ensures
        crate::header::spec_header_parse(line, offset) is Ok <==> exists|sep: int|
            0 < sep < line.len() && line[sep] == 0x3Au8 && forall|k: int|
                0 <= k < sep ==> rfc7230_tchar(#[trigger] line[k]),
        crate::header::spec_header_parse(line, offset) matches Ok((n, val)) ==> {
            &&& n.len() < line.len() && line.subrange(0, n.len() as int) == n
            &&& line[n.len() as int] == 0x3Au8
            &&& trimmed(line.subrange(n.len() + 1int, line.len() as int), val)
        },
{
    crate::deps::lemma_first_index_of(line, 0x3Au8);
    assert forall|c: u8| #![trigger rfc7230_tchar(c)] crate::header::spec_is_tchar(c)
        <==> rfc7230_tchar(c) by {
        lemma_tchar(c);
    }
    if exists|sep: int|
        0 < sep < line.len() && line[sep] == 0x3Au8 && forall|k: int|
            0 <= k < sep ==> rfc7230_tchar(#[trigger] line[k]) {
        let sep = choose|sep: int|
            0 < sep < line.len() && line[sep] == 0x3Au8 && forall|k: int|
                0 <= k < sep ==> rfc7230_tchar(#[trigger] line[k]);
        let f = crate::deps::first_index_of(line, 0x3Au8)->0;
        if f < sep {
            lemma_tchar(line[f]);
        }
        if sep < f {
            assert(line[sep] != 0x3Au8);
        }
        assert(f == sep);
        let name = line.subrange(0, sep);
        assert forall|i: int| 0 <= i < name.len() implies crate::header::spec_is_tchar(
            #[trigger] name[i],
        ) by {
            lemma_tchar(line[i]);
        }
    }
    if let Ok((n, val)) = crate::header::spec_header_parse(line, offset) {
        let sep = crate::deps::first_index_of(line, 0x3Au8)->0;
        assert forall|k: int| 0 <= k < sep implies rfc7230_tchar(#[trigger] line[k]) by {
            assert(n[k] == line[k]);
            assert(crate::header::spec_is_tchar(n[k]));
            lemma_tchar(line[k]);
        }
        let v = line.subrange(sep + 1, line.len() as int);
        crate::util::lemma_skip_ws(v, 0);
        crate::util::lemma_trim(v);
        let a = crate::util::spec_skip_ws(v, 0);
        let t = v.subrange(a, v.len() as int);
        crate::util::lemma_trim_end_index(t, t.len() as int);
        let e = a + crate::util::spec_trim_end_index(t, t.len() as int);
        assert(val =~= v.subrange(a, e));
        assert forall|k: int| e <= k < v.len() implies crate::util::is_ws(#[trigger] v[k]) by {
            assert(v[k] == t[k - a]);
        }
        assert(trimmed(v, val));
    }
}


/// Text that stands in a quoted parameter as it is: no quote, backslash, `%`,
/// CR or LF.
pub open spec fn plain_text(q: Seq<u8>) -> bool {
    forall|k: int|
        0 <= k < q.len() ==> #[trigger] q[k] != 0x22u8 && q[k] != 0x5Cu8 && q[k] != 0x25u8
            && !html_special(q[k])
}

/// `form-data; name="` q `"; ` p `="` f `"`: a name parameter and a second
/// parameter named `p`.
pub open spec fn form_data_value(q: Seq<u8>, p: Seq<u8>, f: Seq<u8>) -> Seq<u8> {
    seq![0x66u8, 0x6Fu8, 0x72u8, 0x6Du8, 0x2Du8, 0x64u8, 0x61u8, 0x74u8, 0x61u8, 0x3Bu8, 0x20u8, 0x6Eu8, 0x61u8, 0x6Du8, 0x65u8, 0x3Du8, 0x22u8]
        + q + seq![0x22u8, 0x3Bu8, 0x20u8] + p + seq![0x3Du8, 0x22u8] + f + seq![0x22u8]
}

proof fn lemma_trim_plain(s: Seq<u8>)
    requires
        s.len() > 0,
        !crate::util::is_ws(s[0]),
        !crate::util::is_ws(s.last()),
    ensures
        crate::util::spec_trim(s) == s,
{
    assert(crate::util::spec_skip_ws(s, 0) == 0);
    let t = s.subrange(0, s.len() as int);
    assert(t =~= s);
    assert(crate::util::spec_trim_end_index(t, t.len() as int) == t.len());
    assert(t.subrange(0, t.len() as int) =~= s);
}

proof fn lemma_unescape_plain(q: Seq<u8>)
    requires
        plain_text(q),
    ensures
        crate::content_disposition::spec_html_unescape((SpecText { bytes: q, owned: false }))
            == (SpecText { bytes: q, owned: false }),
{
    lemma_html_encode(q, false);
}

/// The bytes of `form_data_value(q, p, f)`, position by position.
pub open spec fn form_data_shape(v: Seq<u8>, q: Seq<u8>, p: Seq<u8>, f: Seq<u8>) -> bool {
    let lq = q.len() as int;
    let lp = p.len() as int;
    let lf = f.len() as int;
    &&& v.len() == 23 + lq + lp + lf
    &&& v.subrange(0, 9) == crate::names::spec_form_data_kind()
    &&& v[9] == 0x3Bu8 && v[10] == 0x20u8
    &&& v.subrange(11, 15) == crate::names::spec_name_param()
    &&& v[15] == 0x3Du8 && v[16] == 0x22u8
    &&& v.subrange(17, 17 + lq) == q
    &&& v[17 + lq] == 0x22u8 && v[18 + lq] == 0x3Bu8 && v[19 + lq] == 0x20u8
    &&& v.subrange(20 + lq, 20 + lq + lp) == p
    &&& v[20 + lq + lp] == 0x3Du8 && v[21 + lq + lp] == 0x22u8
    &&& v.subrange(22 + lq + lp, 22 + lq + lp + lf) == f
    &&& v[22 + lq + lp + lf] == 0x22u8
}

proof fn lemma_form_data_shape(q: Seq<u8>, p: Seq<u8>, f: Seq<u8>)
    ensures
        form_data_shape(form_data_value(q, p, f), q, p, f),
{
    let v = form_data_value(q, p, f);
    let lq = q.len() as int;
    let lp = p.len() as int;
    let lf = f.len() as int;
    assert(v.subrange(0, 9) =~= crate::names::spec_form_data_kind());
    assert(v.subrange(11, 15) =~= crate::names::spec_name_param());
    assert(v.subrange(17, 17 + lq) =~= q);
    assert(v.subrange(20 + lq, 20 + lq + lp) =~= p);
    assert(v.subrange(22 + lq + lp, 22 + lq + lp + lf) =~= f);
}

proof fn lemma_byte_of(v: Seq<u8>, s: Seq<u8>, at: int, k: int)
    requires
        0 <= at,
        at + s.len() <= v.len(),
        v.subrange(at, at + s.len()) == s,
        0 <= k < s.len(),
    ensures
        v[at + k] == s[k],
{
    assert(v.subrange(at, at + s.len())[k] == v[at + k]);
}

proof fn lemma_find_eq(v: Seq<u8>, i: int, e: int)
    requires
        0 <= i <= e < v.len(),
        v[e] == 0x3Du8,
        forall|j: int| i <= j < e ==> #[trigger] v[j] != 0x3Du8 && v[j] != 0x3Bu8,
    ensures
        crate::boundary::spec_find_eq_or_semi(v, i) == e,
    decreases e - i,
{
    if i < e {
        lemma_find_eq(v, i + 1, e);
    }
}

/// The type of a value of that shape is `form-data`.
proof fn lemma_form_data_kind(v: Seq<u8>, q: Seq<u8>, p: Seq<u8>, f: Seq<u8>, offset: usize)
    requires
        form_data_shape(v, q, p, f),
    ensures
        crate::content_disposition::spec_disposition_end(v) == 9,
        crate::content_disposition::spec_disposition_kind(
            crate::util::spec_trim(v.subrange(0, 9)),
            offset,
        ) == Ok::<crate::content_disposition::DispositionKind, crate::error::Error>(
            crate::content_disposition::DispositionKind::FormData,
        ),
{
    let k = crate::names::spec_form_data_kind();
    crate::deps::lemma_first_index_of(v, 0x3Bu8);
    assert forall|j: int| 0 <= j < 9 implies v[j] != 0x3Bu8 by {
        lemma_byte_of(v, k, 0, j);
    }
    lemma_byte_of(v, k, 0, 0);
    lemma_byte_of(v, k, 0, 8);
    lemma_trim_plain(v.subrange(0, 9));
}

/// Whether `p` is the parameter name `filename`, or `name` again.
pub open spec fn second_param(p: Seq<u8>) -> bool {
    p == crate::names::spec_filename_param() || p == crate::names::spec_name_param()
}

/// The second parameter of a value of that shape, with the name already read.
proof fn lemma_form_data_second(v: Seq<u8>, q: Seq<u8>, p: Seq<u8>, f: Seq<u8>, offset: usize)
    requires
        form_data_shape(v, q, p, f),
        second_param(p),
        plain_text(f),
    ensures
        crate::content_disposition::spec_cd_params(
            v,
            offset,
            18int + q.len(),
            Some((SpecText { bytes: q, owned: false })),
            None,
            None,
        ) == Ok::<(Option<SpecText>, Option<SpecText>, Option<SpecText>), crate::error::Error>(
            (
                Some((SpecText { bytes: q, owned: false })),
                if p == crate::names::spec_filename_param() {
                    Some((SpecText { bytes: f, owned: false }))
                } else {
                    None
                },
                None,
            ),
        ),
{
    let lq = q.len() as int;
    let lp = p.len() as int;
    let lf = f.len() as int;
    assert forall|j: int| 0 <= j < lp implies v[20 + lq + j] == p[j] by {
        lemma_byte_of(v, p, 20 + lq, j);
    }
    assert forall|j: int| 20 + lq <= j < 20 + lq + lp implies #[trigger] v[j] != 0x3Du8 && v[j]
        != 0x3Bu8 by {
        assert(v[20 + lq + (j - 20 - lq)] == p[j - 20 - lq]);
    }
    assert(crate::util::spec_skip_ws(v, 20 + lq) == 20 + lq);
    assert(crate::util::spec_skip_ws(v, 19 + lq) == 20 + lq);
    lemma_find_eq(v, 20 + lq, 20 + lq + lp);
    lemma_trim_plain(v.subrange(20 + lq, 20 + lq + lp));
    assert(crate::util::spec_skip_ws(v, 21 + lq + lp) == 21 + lq + lp);
    law_plain_quoted_value(v, 21 + lq + lp, f, offset);
    assert(crate::util::spec_skip_ws(v, 23 + lq + lp + lf) == 23 + lq + lp + lf);
    lemma_unescape_plain(f);
    let qt = Some((SpecText { bytes: q, owned: false }));
    let ft = Some((SpecText { bytes: f, owned: false }));
    assert(crate::content_disposition::spec_cd_params(v, offset, 23 + lq + lp + lf, qt, ft, None)
        == Ok::<(Option<SpecText>, Option<SpecText>, Option<SpecText>), crate::error::Error>(
        (qt, ft, None),
    ));
    assert(crate::content_disposition::spec_cd_params(v, offset, 23 + lq + lp + lf, qt, None, None)
        == Ok::<(Option<SpecText>, Option<SpecText>, Option<SpecText>), crate::error::Error>(
        (qt, None, None),
    ));
}

/// The `name` parameter of a value of that shape, then the rest.
proof fn lemma_form_data_name(v: Seq<u8>, q: Seq<u8>, p: Seq<u8>, f: Seq<u8>, offset: usize)
    requires
        form_data_shape(v, q, p, f),
        second_param(p),
        plain_text(q),
        plain_text(f),
    ensures
        crate::content_disposition::spec_cd_params(v, offset, 9, None, None, None) == Ok::<
            (Option<SpecText>, Option<SpecText>, Option<SpecText>),
            crate::error::Error,
        >(
            (
                Some((SpecText { bytes: q, owned: false })),
                if p == crate::names::spec_filename_param() {
                    Some((SpecText { bytes: f, owned: false }))
                } else {
                    None
                },
                None,
            ),
        ),
{
    let lq = q.len() as int;
    let n = crate::names::spec_name_param();
    assert forall|j: int| 0 <= j < 4 implies v[11 + j] == n[j] by {
        lemma_byte_of(v, n, 11, j);
    }
    assert(crate::util::spec_skip_ws(v, 11) == 11);
    assert(crate::util::spec_skip_ws(v, 10) == 11);
    lemma_find_eq(v, 11, 15);
    lemma_trim_plain(v.subrange(11, 15));
    assert(crate::util::spec_skip_ws(v, 16) == 16);
    law_plain_quoted_value(v, 16, q, offset);
    assert(crate::util::spec_skip_ws(v, 18 + lq) == 18 + lq);
    lemma_unescape_plain(q);
    lemma_form_data_second(v, q, p, f, offset);
}

/// A `form-data` disposition with a quoted `name` of plain text followed by a
/// quoted `filename` or a second quoted `name` reads as: type `form-data`, the
/// first name as it stands, and the file name as it stands when the second
/// parameter is `filename` (a repeated `name` does not replace the first).
pub proof fn law_form_data_name_and_filename(q: Seq<u8>, p: Seq<u8>, f: Seq<u8>, offset: usize)
    requires
        plain_text(q),
        plain_text(f),
        second_param(p),
    ensures
        crate::content_disposition::spec_parse_content_disposition(
            form_data_value(q, p, f),
            offset,
        ) == Ok::<crate::content_disposition::SpecDisposition, crate::error::Error>(
            (crate::content_disposition::SpecDisposition {
                kind: crate::content_disposition::DispositionKind::FormData,
                name: Some((SpecText { bytes: q, owned: false })),
                file_name: if p == crate::names::spec_filename_param() {
                    Some((SpecText { bytes: f, owned: false }))
                } else {
                    None
                },
            }),
        ),
{
    let v = form_data_value(q, p, f);
    lemma_form_data_shape(q, p, f);
    lemma_form_data_kind(v, q, p, f, offset);
    lemma_form_data_name(v, q, p, f, offset);
}

} // verus!
