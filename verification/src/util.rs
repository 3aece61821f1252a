//! Byte helpers shared by the header, boundary and parameter parsers.
use vstd::prelude::*;

verus! {

/// Space or horizontal tab: the only whitespace the multipart grammar skips.
pub open spec fn is_ws(c: u8) -> bool {
    c == 0x20u8 || c == 0x09u8
}

/// ASCII lower-casing of one byte; other bytes are unchanged.
pub open spec fn ascii_lower(c: u8) -> u8 {
    if 0x41u8 <= c && c <= 0x5Au8 {
        (c + 0x20u8) as u8
    } else {
        c
    }
}

/// Two byte strings of equal length that agree byte by byte up to ASCII case.
pub open spec fn spec_eq_ignore_case(a: Seq<u8>, b: Seq<u8>) -> bool {
    &&& a.len() == b.len()
    &&& forall|i: int| 0 <= i < a.len() ==> ascii_lower(#[trigger] a[i]) == ascii_lower(b[i])
}

/// The first index at or after `i` that holds no space or tab (the length when none does).
pub open spec fn spec_skip_ws(s: Seq<u8>, i: int) -> int
    decreases s.len() - i,
{
    if 0 <= i < s.len() && is_ws(s[i]) {
        spec_skip_ws(s, i + 1)
    } else {
        i
    }
}

/// The end of `s.subrange(0, end)` once trailing spaces and tabs are dropped.
pub open spec fn spec_trim_end_index(s: Seq<u8>, end: int) -> int
    decreases end,
{
    if 0 < end <= s.len() && is_ws(s[end - 1]) {
        spec_trim_end_index(s, end - 1)
    } else {
        end
    }
}

/// `s` without its leading spaces and tabs.
pub open spec fn spec_trim_start(s: Seq<u8>) -> Seq<u8> {
    s.subrange(spec_skip_ws(s, 0), s.len() as int)
}

/// `s` without its trailing spaces and tabs.
pub open spec fn spec_trim_end(s: Seq<u8>) -> Seq<u8> {
    s.subrange(0, spec_trim_end_index(s, s.len() as int))
}

/// `s` without its leading and trailing spaces and tabs.
pub open spec fn spec_trim(s: Seq<u8>) -> Seq<u8> {
    spec_trim_end(spec_trim_start(s))
}

pub proof fn lemma_skip_ws(s: Seq<u8>, i: int)
    requires
        0 <= i <= s.len(),
    ensures
        i <= spec_skip_ws(s, i) <= s.len(),
        forall|k: int| i <= k < spec_skip_ws(s, i) ==> is_ws(#[trigger] s[k]),
        spec_skip_ws(s, i) < s.len() ==> !is_ws(s[spec_skip_ws(s, i)]),
    decreases s.len() - i,
{
    if i < s.len() && is_ws(s[i]) {
        lemma_skip_ws(s, i + 1);
    }
}

pub proof fn lemma_trim_end_index(s: Seq<u8>, end: int)
    requires
        0 <= end <= s.len(),
    ensures
        0 <= spec_trim_end_index(s, end) <= end,
        forall|k: int| spec_trim_end_index(s, end) <= k < end ==> is_ws(#[trigger] s[k]),
        spec_trim_end_index(s, end) > 0 ==> !is_ws(s[spec_trim_end_index(s, end) - 1]),
    decreases end,
{
    if 0 < end && is_ws(s[end - 1]) {
        lemma_trim_end_index(s, end - 1);
    }
}

/// The trimmed bytes have no space or tab at either end and are no longer than `s`.
pub proof fn lemma_trim(s: Seq<u8>)
    ensures
        spec_trim(s).len() <= s.len(),
        spec_trim(s).len() > 0 ==> !is_ws(spec_trim(s)[0]) && !is_ws(spec_trim(s).last()),
        spec_trim(s).len() == 0 <==> (forall|k: int| 0 <= k < s.len() ==> is_ws(#[trigger] s[k])),
{
    lemma_skip_ws(s, 0);
    let start = spec_skip_ws(s, 0);
    let t = spec_trim_start(s);
    lemma_trim_end_index(t, t.len() as int);
    let end = spec_trim_end_index(t, t.len() as int);
    if end > 0 {
        assert(t[0] == s[start]);
        if start < s.len() {
            assert(!is_ws(s[start]));
        }
    }
    if spec_trim(s).len() == 0 {
        assert forall|k: int| 0 <= k < s.len() implies is_ws(#[trigger] s[k]) by {
            if k >= start {
                assert(t[k - start] == s[k]);
            }
        }
    }
    if (forall|k: int| 0 <= k < s.len() ==> is_ws(#[trigger] s[k])) {
        if start < s.len() {
            assert(is_ws(s[start]));
        }
    }
}

pub fn skip_ascii_whitespace(bytes: &[u8], start: usize) -> (r: usize)
    ensures
        r == spec_skip_ws(bytes@, start as int),
        start <= bytes@.len() ==> start <= r <= bytes@.len(),
        start > bytes@.len() ==> r == start,
{
    let mut cursor = start;
    while cursor < bytes.len() && (bytes[cursor] == 0x20u8 || bytes[cursor] == 0x09u8)
        invariant
            start <= cursor,
            start <= bytes@.len() ==> cursor <= bytes@.len(),
            start > bytes@.len() ==> cursor == start,
            spec_skip_ws(bytes@, cursor as int) == spec_skip_ws(bytes@, start as int),
        decreases bytes.len() - cursor,
    {
        cursor += 1;
    }
    cursor
}

/// The end index of `bytes[..end]` once trailing spaces and tabs are dropped.
pub fn trim_ascii_end_index(bytes: &[u8], limit: usize) -> (r: usize)
    requires
        limit <= bytes@.len(),
    ensures
        r == spec_trim_end_index(bytes@, limit as int),
        r <= limit,
{
    let mut end = limit;
    while end > 0 && (bytes[end - 1] == 0x20u8 || bytes[end - 1] == 0x09u8)
        invariant
            end <= limit,
            limit <= bytes@.len(),
            spec_trim_end_index(bytes@, end as int) == spec_trim_end_index(bytes@, limit as int),
        decreases end,
    {
        end -= 1;
    }
    end
}

/// `bytes` without its leading spaces and tabs.
pub fn trim_ascii_start(bytes: &[u8]) -> (r: &[u8])
    ensures
        r@ == spec_trim_start(bytes@),
{
    let start = skip_ascii_whitespace(bytes, 0);
    &bytes[start..bytes.len()]
}

/// `bytes` without its trailing spaces and tabs.
pub fn trim_ascii_end(bytes: &[u8]) -> (r: &[u8])
    ensures
        r@ == spec_trim_end(bytes@),
{
    let end = trim_ascii_end_index(bytes, bytes.len());
    &bytes[0..end]
}

/// `bytes` without its leading and trailing spaces and tabs.
pub fn trim_ascii(bytes: &[u8]) -> (r: &[u8])
    ensures
        r@ == spec_trim(bytes@),
{
    trim_ascii_end(trim_ascii_start(bytes))
}

/// ASCII lower-casing of one byte.
pub fn to_ascii_lower(c: u8) -> (r: u8)
    ensures
        r == ascii_lower(c),
{
    if 0x41u8 <= c && c <= 0x5Au8 {
        c + 0x20u8
    } else {
        c
    }
}

/// Whether `left` and `right` are equal up to ASCII case.
pub fn eq_ignore_ascii_case(left: &[u8], right: &[u8]) -> (r: bool)
    ensures
        r == spec_eq_ignore_case(left@, right@),
{
    if left.len() != right.len() {
        return false;
    }
    let mut i: usize = 0;
    while i < left.len()
        invariant
            left@.len() == right@.len(),
            i <= left@.len(),
            forall|k: int| 0 <= k < i ==> ascii_lower(#[trigger] left@[k]) == ascii_lower(right@[k]),
        decreases left.len() - i,
    {
        if to_ascii_lower(left[i]) != to_ascii_lower(right[i]) {
            return false;
        }
        i += 1;
    }
    true
}

} // verus!
