//! Finding delimiter lines (`CRLF "--" boundary`) in a multipart body.
use vstd::prelude::*;

use crate::deps::{lemma_first_index_of, memchr};
use crate::error::Error;
use crate::util::{lemma_skip_ws, skip_ascii_whitespace, spec_skip_ws};

verus! {

/// What follows `"--" boundary` on a boundary line.
#[derive(Debug, Clone, Copy, PartialEq, Eq, Structural)]
pub enum BoundaryLine {
    /// An encapsulation boundary; the next part starts at `next_cursor`.
    Encapsulation { next_cursor: usize },
    /// The close delimiter `"--" boundary "--"`.
    Close,
}

/// Whether `b` holds `pat` at `pos`.
pub open spec fn bytes_at(b: Seq<u8>, pos: int, pat: Seq<u8>) -> bool {
    &&& 0 <= pos
    &&& pos + pat.len() <= b.len()
    &&& b.subrange(pos, pos + pat.len()) == pat
}

/// Whether a CRLF starts at `p`.
pub open spec fn crlf_at(b: Seq<u8>, p: int) -> bool {
    0 <= p && p + 2 <= b.len() && b[p] == 0x0Du8 && b[p + 1] == 0x0Au8
}

/// Whether the delimiter `CRLF "--" boundary` starts at `c`.
pub open spec fn marker_at(b: Seq<u8>, boundary: Seq<u8>, c: int) -> bool {
    &&& crlf_at(b, c)
    &&& c + 4 + boundary.len() <= b.len()
    &&& b[c + 2] == 0x2Du8
    &&& b[c + 3] == 0x2Du8
    &&& bytes_at(b, c + 4, boundary)
}

/// The first delimiter at or after `from`.
pub open spec fn spec_first_marker(b: Seq<u8>, boundary: Seq<u8>, from: int) -> Option<int>
    decreases b.len() - from,
{
    if from < 0 || from + boundary.len() + 4 > b.len() {
        None
    } else if marker_at(b, boundary, from) {
        Some(from)
    } else {
        spec_first_marker(b, boundary, from + 1)
    }
}

/// How the boundary line whose `"--" boundary` ends at `cursor` goes on: `"--"`,
/// transport padding and CRLF (or the end of the body) close the body; transport
/// padding and CRLF start another part.
pub open spec fn spec_classify(b: Seq<u8>, cursor: int) -> Option<BoundaryLine> {
    if cursor + 2 <= b.len() && b[cursor] == 0x2Du8 && b[cursor + 1] == 0x2Du8 {
        let padded = spec_skip_ws(b, cursor + 2);
        if padded == b.len() || crlf_at(b, padded) {
            Some(BoundaryLine::Close)
        } else {
            None
        }
    } else {
        let padded = spec_skip_ws(b, cursor);
        if crlf_at(b, padded) {
            Some(BoundaryLine::Encapsulation { next_cursor: (padded + 2) as usize })
        } else {
            None
        }
    }
}

/// A delimiter at `c` that is followed by a well-formed rest of its boundary line.
pub open spec fn delimiter_at(b: Seq<u8>, boundary: Seq<u8>, c: int) -> bool {
    marker_at(b, boundary, c) && spec_classify(b, c + 4 + boundary.len()) is Some
}

/// The first delimiter line at or after `from`.
pub open spec fn spec_first_delimiter(b: Seq<u8>, boundary: Seq<u8>, from: int) -> Option<int>
    decreases b.len() - from,
{
    if from < 0 || from + boundary.len() + 4 > b.len() {
        None
    } else if delimiter_at(b, boundary, from) {
        Some(from)
    } else {
        spec_first_delimiter(b, boundary, from + 1)
    }
}

/// Where the body that starts at `from` ends, where the next part starts and
/// whether the delimiter line closes the multipart body.
pub open spec fn spec_find_next_boundary(b: Seq<u8>, boundary: Seq<u8>, from: usize) -> Result<
    (usize, usize, bool),
    Error,
> {
    match spec_first_delimiter(b, boundary, from as int) {
        None => Err(Error::MissingClosingBoundary { offset: from }),
        Some(c) => match spec_classify(b, c + 4 + boundary.len()) {
            Some(BoundaryLine::Encapsulation { next_cursor }) => Ok((c as usize, next_cursor, false)),
            _ => Ok((c as usize, b.len() as usize, true)),
        },
    }
}

pub proof fn lemma_first_marker(b: Seq<u8>, boundary: Seq<u8>, from: int)
    requires
        0 <= from,
    ensures
        match spec_first_marker(b, boundary, from) {
            Some(c) => from <= c && marker_at(b, boundary, c) && forall|k: int|
                from <= k < c ==> !marker_at(b, boundary, k),
            None => forall|k: int| from <= k ==> !marker_at(b, boundary, k),
        },
    decreases b.len() - from,
{
    if from + boundary.len() + 4 <= b.len() && !marker_at(b, boundary, from) {
        lemma_first_marker(b, boundary, from + 1);
    }
}

pub proof fn lemma_first_delimiter(b: Seq<u8>, boundary: Seq<u8>, from: int)
    requires
        0 <= from,
    ensures
        match spec_first_delimiter(b, boundary, from) {
            Some(c) => from <= c && delimiter_at(b, boundary, c) && c + 4 + boundary.len() <= b.len()
                && forall|k: int| from <= k < c ==> !delimiter_at(b, boundary, k),
            None => forall|k: int| from <= k ==> !delimiter_at(b, boundary, k),
        },
    decreases b.len() - from,
{
    if from + boundary.len() + 4 <= b.len() && !delimiter_at(b, boundary, from) {
        lemma_first_delimiter(b, boundary, from + 1);
    }
}

/// Skipping positions that hold no delimiter line does not change the first one.
pub proof fn lemma_first_delimiter_skip(b: Seq<u8>, boundary: Seq<u8>, from: int, to: int)
    requires
        0 <= from <= to,
        forall|k: int| from <= k < to ==> !delimiter_at(b, boundary, k),
    ensures
        spec_first_delimiter(b, boundary, from) == spec_first_delimiter(b, boundary, to),
    decreases to - from,
{
    if from < to {
        lemma_first_delimiter_skip(b, boundary, from + 1, to);
    }
}

/// The classification of a boundary line: its next cursor (if any) lies past
/// `cursor` and within the body.
pub proof fn lemma_classify(b: Seq<u8>, cursor: int)
    requires
        0 <= cursor <= b.len(),
        b.len() <= usize::MAX,
    ensures
        spec_classify(b, cursor) matches Some(BoundaryLine::Encapsulation { next_cursor }) ==> cursor
            < next_cursor <= b.len(),
{
    if !(cursor + 2 <= b.len() && b[cursor] == 0x2Du8 && b[cursor + 1] == 0x2Du8) {
        lemma_skip_ws(b, cursor);
    }
}

/// Whether `body` holds `pat` at `pos`.
pub fn bytes_match_at(body: &[u8], pos: usize, pat: &[u8]) -> (r: bool)
    requires
        pos + pat@.len() <= body@.len(),
    ensures
        r == bytes_at(body@, pos as int, pat@),
{
    let body_len = body.len();
    let mut i: usize = 0;
    while i < pat.len()
        invariant
            body_len == body@.len(),
            pos + pat@.len() <= body@.len(),
            i <= pat@.len(),
            forall|k: int| 0 <= k < i ==> body@[pos + k] == pat@[k],
        decreases pat.len() - i,
    {
        if body[pos + i] != pat[i] {
            assert(body@.subrange(pos as int, pos + pat@.len())[i as int] != pat@[i as int]);
            return false;
        }
        i += 1;
    }
    assert(body@.subrange(pos as int, pos + pat@.len()) =~= pat@);
    true
}

/// The first delimiter `CRLF "--" boundary` at or after `from`.
pub fn find_boundary_start(body: &[u8], boundary: &[u8], from: usize) -> (r: Option<usize>)
    requires
        boundary@.len() + 4 <= usize::MAX,
    ensures
        match spec_first_marker(body@, boundary@, from as int) {
            Some(c) => r == Some(c as usize),
            None => r is None,
        },
{
    let marker_len = boundary.len() + 4;
    let body_len = body.len();
    let mut pos = from;
        while pos < body_len
        invariant
            body_len == body@.len(),
            marker_len == boundary@.len() + 4,
            spec_first_marker(body@, boundary@, pos as int) == spec_first_marker(
                body@,
                boundary@,
                from as int,
            ),
        decreases body_len - pos,
    {
        let rest = &body[pos..body_len];
        let relative = match memchr(0x0Du8, rest) {
            Some(i) => i,
            None => {
                proof {
                    lemma_first_index_of(rest@, 0x0Du8);
                    assert forall|k: int| pos <= k < body@.len() implies body@[k] != 0x0Du8 by {
                        assert(rest@[k - pos] == body@[k]);
                    }
                    lemma_no_marker_then_none(body@, boundary@, pos as int, body@.len() as int);
                    assert(spec_first_marker(body@, boundary@, body@.len() as int) is None);
                    assert(spec_first_marker(body@, boundary@, pos as int) is None);
                }
                return None;
            },
        };
        proof {
            lemma_first_index_of(rest@, 0x0Du8);
        }
        let candidate = pos + relative;
        proof {
            assert forall|k: int| pos <= k < candidate implies body@[k] != 0x0Du8 by {
                assert(rest@[k - pos] == body@[k]);
            }
            lemma_no_marker_then_none(body@, boundary@, pos as int, candidate as int);
            assert(rest@[relative as int] == body@[candidate as int]);
        }
        if body_len - candidate < marker_len {
            assert(spec_first_marker(body@, boundary@, candidate as int) is None);
            assert(spec_first_marker(body@, boundary@, pos as int) is None);
            return None;
        }
        if body[candidate + 1] == 0x0Au8 && body[candidate + 2] == 0x2Du8 && body[candidate + 3]
            == 0x2Du8 && bytes_match_at(body, candidate + 4, boundary) {
            return Some(candidate);
        }
        pos = candidate + 1;
    }
    None
}

/// Positions in `[from, to)` that hold no CR hold no delimiter, so the search
/// may start at `to`.
proof fn lemma_no_marker_then_none(b: Seq<u8>, boundary: Seq<u8>, from: int, to: int)
    requires
        0 <= from <= to <= b.len(),
        forall|k: int| from <= k < to ==> b[k] != 0x0Du8,
    ensures
        spec_first_marker(b, boundary, from) == spec_first_marker(b, boundary, to),
    decreases to - from,
{
    if from < to {
        lemma_no_marker_then_none(b, boundary, from + 1, to);
    }
}

/// How the boundary line goes on after `"--" boundary`, which ends at `cursor`.
pub fn classify_boundary_line(body: &[u8], cursor: usize) -> (r: Option<BoundaryLine>)
    requires
        cursor <= body@.len(),
    ensures
        r == spec_classify(body@, cursor as int),
{
    let len = body.len();
    if len - cursor >= 2 && body[cursor] == 0x2Du8 && body[cursor + 1] == 0x2Du8 {
        let padded = skip_transport_padding(body, cursor + 2);
        if padded == len || (len - padded >= 2 && body[padded] == 0x0Du8 && body[padded + 1]
            == 0x0Au8) {
            return Some(BoundaryLine::Close);
        }
        return None;
    }
    let padded = skip_transport_padding(body, cursor);
    if len - padded >= 2 && body[padded] == 0x0Du8 && body[padded + 1] == 0x0Au8 {
        return Some(BoundaryLine::Encapsulation { next_cursor: padded + 2 });
    }
    None
}

/// Skips RFC 2046 transport padding (spaces and tabs).
pub fn skip_transport_padding(body: &[u8], cursor: usize) -> (r: usize)
    ensures
        r == spec_skip_ws(body@, cursor as int),
        cursor <= body@.len() ==> cursor <= r <= body@.len(),
        cursor > body@.len() ==> r == cursor,
{
    skip_ascii_whitespace(body, cursor)
}

/// The end of the part body that starts at `from`: the first delimiter line after
/// it, where the next part starts, and whether that line closes the body.
pub fn find_next_boundary(body: &[u8], boundary: &[u8], from: usize) -> (r: Result<
    (usize, usize, bool),
    Error,
>)
    requires
        boundary@.len() + 4 <= usize::MAX,
    ensures
        r == spec_find_next_boundary(body@, boundary@, from),
{
    let body_len = body.len();
    let mut cursor = from;
    loop
        invariant
            body_len == body@.len(),
            boundary@.len() + 4 <= usize::MAX,
            from <= cursor,
            spec_first_delimiter(body@, boundary@, cursor as int) == spec_first_delimiter(
                body@,
                boundary@,
                from as int,
            ),
        decreases body@.len() - cursor,
    {
        let boundary_start = match find_boundary_start(body, boundary, cursor) {
            Some(s) => s,
            None => {
                proof {
                    lemma_first_marker(body@, boundary@, cursor as int);
                    lemma_first_delimiter(body@, boundary@, cursor as int);
                }
                return Err(Error::MissingClosingBoundary { offset: from });
            },
        };
        proof {
            lemma_first_marker(body@, boundary@, cursor as int);
            assert forall|k: int| cursor <= k < boundary_start implies !delimiter_at(
                body@,
                boundary@,
                k,
            ) by {
                assert(!marker_at(body@, boundary@, k));
            }
            lemma_first_delimiter_skip(body@, boundary@, cursor as int, boundary_start as int);
        }
        let boundary_end = boundary_start + boundary.len() + 4;
        match classify_boundary_line(body, boundary_end) {
            None => {
                cursor = boundary_start + 1;
            },
            Some(BoundaryLine::Encapsulation { next_cursor }) => {
                return Ok((boundary_start, next_cursor, false));
            },
            Some(BoundaryLine::Close) => {
                return Ok((boundary_start, body.len(), true));
            },
        }
    }
}

} // verus!
