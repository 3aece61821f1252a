//! The multipart body parser: a part-by-part parser and `parse`, which collects
//! every part.
use vstd::prelude::*;

use crate::boundary::{spec_boundary_error, Boundary};
use crate::boundary_scan::{
    classify_boundary_line, find_boundary_start, find_next_boundary, lemma_classify,
    lemma_first_delimiter, lemma_first_marker, spec_classify, spec_find_next_boundary,
    spec_first_marker, BoundaryLine,
};
use crate::content_disposition::{
    opt_text, parse_content_disposition, spec_parse_content_disposition, DispositionKind,
};
use crate::buffers::{header_list_pushed, part_list_pushed};
use crate::deps::{
    first_index_of, header_list_items, header_list_new, lemma_first_index_of, memchr,
    part_list_as_slice, part_list_items, part_list_new, HeaderList, PartList,
};
use crate::error::Error;
use crate::header::{spec_header_parse, Header};
use crate::names::{
    content_disposition_name, content_type_name, spec_content_disposition_name,
    spec_content_type_name, spec_dash_dash,
};
use crate::part::{opt_bytes_view, Part, SpecPart};
use crate::text::{SpecText, TextValue};
use crate::util::{is_ws, lemma_trim, spec_eq_ignore_case};

verus! {

/// What the header lines of a part have said so far.
pub struct HeaderAcc {
    pub headers: Seq<(Seq<u8>, Seq<u8>)>,
    pub saw_content_disposition: bool,
    pub require_name: bool,
    pub name: Option<SpecText>,
    pub file_name: Option<SpecText>,
    pub content_type: Option<Seq<u8>>,
}

/// Nothing read yet.
pub open spec fn empty_acc() -> HeaderAcc {
    HeaderAcc {
        headers: Seq::empty(),
        saw_content_disposition: false,
        require_name: false,
        name: None,
        file_name: None,
        content_type: None,
    }
}

/// `acc` updated with the header `(name, value)`: a `Content-Disposition` sets the
/// part's name and file name (the first found of each) and, for `form-data`,
/// requires a name; the first `Content-Type` sets the part's content type.
pub open spec fn spec_add_header(
    acc: HeaderAcc,
    name: Seq<u8>,
    value: Seq<u8>,
    offset: usize,
) -> Result<HeaderAcc, Error> {
    let headers = acc.headers.push((name, value));
    if spec_eq_ignore_case(name, spec_content_disposition_name()) {
        match spec_parse_content_disposition(value, offset) {
            Err(e) => Err(e),
            Ok(d) => Ok(
                HeaderAcc {
                    headers,
                    saw_content_disposition: true,
                    require_name: acc.require_name || d.kind == DispositionKind::FormData,
                    name: if acc.name is None {
                        d.name
                    } else {
                        acc.name
                    },
                    file_name: if acc.file_name is None {
                        d.file_name
                    } else {
                        acc.file_name
                    },
                    content_type: acc.content_type,
                },
            ),
        }
    } else if acc.content_type is None && spec_eq_ignore_case(name, spec_content_type_name()) {
        Ok(HeaderAcc { headers, content_type: Some(value), ..acc })
    } else {
        Ok(HeaderAcc { headers, ..acc })
    }
}

/// The header lines of a part from `cursor` up to the empty line that ends them,
/// and where the part's body starts.
pub open spec fn spec_header_lines(b: Seq<u8>, cursor: int, acc: HeaderAcc) -> Result<
    (HeaderAcc, int),
    Error,
>
    decreases b.len() - cursor,
{
    if cursor < 0 || cursor > b.len() {
        Err(Error::UnexpectedEnd { offset: cursor as usize })
    } else {
        match first_index_of(b.subrange(cursor, b.len() as int), 0x0Au8) {
            None => Err(Error::UnexpectedEnd { offset: cursor as usize }),
            Some(rel) => {
                let line_end = cursor + rel;
                if rel == 0 || b[line_end - 1] != 0x0Du8 {
                    Err(Error::InvalidHeaderLineEnding { offset: line_end as usize })
                } else {
                    let line = b.subrange(cursor, line_end - 1);
                    let next = line_end + 1;
                    if line.len() == 0 {
                        Ok((acc, next))
                    } else if is_ws(line[0]) {
                        Err(Error::InvalidHeaderContinuation { offset: cursor as usize })
                    } else {
                        match spec_header_parse(line, cursor as usize) {
                            Err(e) => Err(e),
                            Ok((name, value)) => match spec_add_header(
                                acc,
                                name,
                                value,
                                cursor as usize,
                            ) {
                                Err(e) => Err(e),
                                Ok(acc2) => {
                                    proof {
                                        lemma_first_index_of(
                                            b.subrange(cursor, b.len() as int),
                                            0x0Au8,
                                        );
                                    }
                                    spec_header_lines(b, next, acc2)
                                },
                            },
                        }
                    }
                }
            },
        }
    }
}

/// The part that starts at `cursor`, where the next one starts, and whether the
/// delimiter after it closes the body.
pub open spec fn spec_next_part(b: Seq<u8>, boundary: Seq<u8>, cursor: int) -> Result<
    (SpecPart, int, bool),
    Error,
> {
    match spec_header_lines(b, cursor, empty_acc()) {
        Err(e) => Err(e),
        Ok((acc, body_start)) => if !acc.saw_content_disposition {
            Err(Error::MissingContentDisposition { offset: cursor as usize })
        } else if acc.require_name && acc.name is None {
            Err(Error::MissingPartName { offset: cursor as usize })
        } else {
            match spec_find_next_boundary(b, boundary, body_start as usize) {
                Err(e) => Err(e),
                Ok((body_end, next, is_final)) => Ok(
                    (
                        SpecPart {
                            headers: acc.headers,
                            body_start,
                            body_end: body_end as int,
                            name: acc.name,
                            file_name: acc.file_name,
                            content_type: acc.content_type,
                        },
                        next as int,
                        is_final,
                    ),
                ),
            }
        },
    }
}

/// Whether `b` starts with the opening line `"--" boundary`.
pub open spec fn starts_with_opening(b: Seq<u8>, boundary: Seq<u8>) -> bool {
    let opening = spec_dash_dash() + boundary;
    opening.len() <= b.len() && b.subrange(0, opening.len() as int) == opening
}

/// The first boundary line (after any preamble): where the first part starts,
/// and whether the body is already closed.
pub open spec fn spec_initial(b: Seq<u8>, boundary: Seq<u8>) -> Result<(int, bool), Error> {
    let start = if starts_with_opening(b, boundary) {
        Some(0int)
    } else {
        match spec_first_marker(b, boundary, 0) {
            Some(p) => Some(p + 2),
            None => None,
        }
    };
    match start {
        None => Err(Error::InvalidStartingBoundary),
        Some(s) => {
            let cursor = s + boundary.len() + 2;
            match spec_classify(b, cursor) {
                None => Err(Error::InvalidBoundaryTerminator { offset: cursor as usize }),
                Some(BoundaryLine::Encapsulation { next_cursor }) => Ok((next_cursor as int, false)),
                Some(BoundaryLine::Close) => Ok((b.len() as int, true)),
            }
        },
    }
}

/// The parts from `cursor` on, until the close delimiter; the first error met
/// ends the parse.
pub open spec fn spec_parts_from(b: Seq<u8>, boundary: Seq<u8>, cursor: int, done: bool) -> Result<
    Seq<SpecPart>,
    Error,
>
    decreases b.len() - cursor,
{
    if done || cursor < 0 || cursor > b.len() || b.len() > usize::MAX {
        Ok(Seq::empty())
    } else {
        match spec_next_part(b, boundary, cursor) {
            Err(e) => Err(e),
            Ok((p, next, is_final)) => {
                proof {
                    lemma_next_part(b, boundary, cursor);
                }
                match spec_parts_from(b, boundary, next, is_final) {
                    Err(e) => Err(e),
                    Ok(rest) => Ok(seq![p] + rest),
                }
            },
        }
    }
}

/// The parts of the multipart body `b` delimited by `boundary`, or why it is rejected.
pub open spec fn spec_parse(b: Seq<u8>, boundary: Seq<u8>) -> Result<Seq<SpecPart>, Error> {
    match spec_boundary_error(boundary) {
        Some(e) => Err(e),
        None => match spec_initial(b, boundary) {
            Err(e) => Err(e),
            Ok((cursor, done)) => spec_parts_from(b, boundary, cursor, done),
        },
    }
}

pub proof fn lemma_header_lines(b: Seq<u8>, cursor: int, acc: HeaderAcc)
    requires
        0 <= cursor <= b.len(),
    ensures
        spec_header_lines(b, cursor, acc) matches Ok((acc2, body_start)) ==> cursor < body_start
            <= b.len(),
    decreases b.len() - cursor,
{
    let rest = b.subrange(cursor, b.len() as int);
    lemma_first_index_of(rest, 0x0Au8);
    if let Some(rel) = first_index_of(rest, 0x0Au8) {
        let line_end = cursor + rel;
        if rel != 0 && b[line_end - 1] == 0x0Du8 {
            let line = b.subrange(cursor, line_end - 1);
            if line.len() != 0 && !is_ws(line[0]) {
                if let Ok((name, value)) = spec_header_parse(line, cursor as usize) {
                    if let Ok(acc2) = spec_add_header(acc, name, value, cursor as usize) {
                        lemma_header_lines(b, line_end + 1, acc2);
                    }
                }
            }
        }
    }
}

pub proof fn lemma_next_part(b: Seq<u8>, boundary: Seq<u8>, cursor: int)
    requires
        0 <= cursor <= b.len(),
        b.len() <= usize::MAX,
    ensures
        spec_next_part(b, boundary, cursor) matches Ok((p, next, is_final)) ==> {
            &&& cursor < p.body_start <= p.body_end < next <= b.len()
            &&& is_final ==> next == b.len()
        },
{
    lemma_header_lines(b, cursor, empty_acc());
    if let Ok((acc, body_start)) = spec_header_lines(b, cursor, empty_acc()) {
        lemma_first_delimiter(b, boundary, body_start);
        if let Some(c) = crate::boundary_scan::spec_first_delimiter(b, boundary, body_start) {
            lemma_classify(b, c + 4 + boundary.len());
        }
    }
}

/// A parsed multipart body: the body itself and its parts, in order.
#[derive(Debug)]
pub struct Multipart<'a> {
    body: &'a [u8],
    parts: PartList<'a>,
}

impl<'a> View for Multipart<'a> {
    /// The body and the models of its parts.
    type V = (Seq<u8>, Seq<SpecPart>);

    closed spec fn view(&self) -> (Seq<u8>, Seq<SpecPart>) {
        (self.body@, part_list_items(self.parts))
    }
}

impl<'a> Multipart<'a> {
    /// The multipart body that was parsed.
    pub fn body(&self) -> (r: &'a [u8])
        ensures
            r@ == self@.0,
    {
        self.body
    }

    /// The parts, in the order they appear in the body.
    pub fn parts(&self) -> (r: &[Part<'a>])
        ensures
            r@.map_values(|p: Part<'a>| p@) == self@.1,
    {
        part_list_as_slice(&self.parts)
    }
}

/// The model of a part-by-part parser.
pub struct ParserState {
    pub body: Seq<u8>,
    pub boundary: Seq<u8>,
    pub cursor: int,
    pub done: bool,
}

/// A part-by-part parser over a multipart body.
pub struct MultipartParser<'a> {
    body: &'a [u8],
    boundary: Boundary<'a>,
    cursor: usize,
    done: bool,
}

impl<'a> View for MultipartParser<'a> {
    type V = ParserState;

    closed spec fn view(&self) -> ParserState {
        ParserState {
            body: self.body@,
            boundary: self.boundary@.0,
            cursor: self.cursor as int,
            done: self.done,
        }
    }
}

impl<'a> MultipartParser<'a> {
    #[verifier::type_invariant]
    spec fn inv(self) -> bool {
        &&& self.boundary@.1 == spec_dash_dash() + self.boundary@.0
        &&& spec_boundary_error(self.boundary@.0) is None
        &&& self.cursor <= self.body@.len()
    }

    /// A parser over `body`, positioned after the first boundary line (any
    /// preamble before it is skipped).
    pub fn new(body: &'a [u8], boundary: &'a [u8]) -> (r: Result<Self, Error>)
        ensures
            match spec_boundary_error(boundary@) {
                Some(e) => r == Err::<Self, Error>(e),
                None => match spec_initial(body@, boundary@) {
                    Err(e) => r == Err::<Self, Error>(e),
                    Ok((cursor, done)) => r matches Ok(p) && p@ == (ParserState {
                        body: body@,
                        boundary: boundary@,
                        cursor,
                        done,
                    }),
                },
            },
    {
        let boundary = match Boundary::new(boundary) {
            Ok(b) => b,
            Err(e) => {
                return Err(e);
            },
        };
        let mut parser = Self { body, boundary, cursor: 0, done: false };
        match parser.consume_initial_boundary() {
            Ok(()) => Ok(parser),
            Err(e) => Err(e),
        }
    }

    fn consume_initial_boundary(&mut self) -> (r: Result<(), Error>)
        requires
            !old(self)@.done,
        ensures
            final(self)@.body == old(self)@.body,
            final(self)@.boundary == old(self)@.boundary,
            match spec_initial(old(self)@.body, old(self)@.boundary) {
                Err(e) => r == Err::<(), Error>(e),
                Ok((cursor, done)) => r is Ok && final(self)@.cursor == cursor && final(self)@.done
                    == done,
            },
    {
        proof {
            use_type_invariant(&*self);
        }
        let body = self.body;
        let len = body.len();
        let raw = self.boundary.as_bytes();
        let opening = self.boundary.opening();
        let opening_len = opening.len();
        let starts = opening_len <= len && crate::boundary_scan::bytes_match_at(body, 0, opening);
        proof {
            if opening_len <= len {
                assert(body@.subrange(0, opening_len as int) =~= body@.subrange(
                    0,
                    0 + opening@.len() as int,
                ));
            }
        }
        let boundary_start = if starts {
            0
        } else {
            match find_boundary_start(body, raw, 0) {
                Some(p) => {
                    proof {
                        lemma_first_marker(body@, raw@, 0);
                    }
                    p + 2
                },
                None => {
                    return Err(Error::InvalidStartingBoundary);
                },
            }
        };
        let cursor = boundary_start + opening_len;
        match classify_boundary_line(body, cursor) {
            None => Err(Error::InvalidBoundaryTerminator { offset: cursor }),
            Some(BoundaryLine::Encapsulation { next_cursor }) => {
                proof {
                    lemma_classify(body@, cursor as int);
                }
                self.cursor = next_cursor;
                Ok(())
            },
            Some(BoundaryLine::Close) => {
                self.cursor = len;
                self.done = true;
                Ok(())
            },
        }
    }

    fn parse_next_part(&mut self) -> (r: Result<Part<'a>, Error>)
        requires
            !old(self)@.done,
        ensures
            final(self)@.body == old(self)@.body,
            final(self)@.boundary == old(self)@.boundary,
            match spec_next_part(old(self)@.body, old(self)@.boundary, old(self)@.cursor) {
                Err(e) => r == Err::<Part<'a>, Error>(e) && final(self)@ == old(self)@,
                Ok((p, next, is_final)) => r matches Ok(part) && part@ == p && final(self)@.cursor
                    == next && final(self)@.done == is_final,
            },
    {
        proof {
            use_type_invariant(&*self);
        }
        let body = self.body;
        let len = body.len();
        let part_offset = self.cursor;
        let mut cursor = self.cursor;
        let mut headers: HeaderList<'a> = header_list_new();
        let mut saw_content_disposition = false;
        let mut require_name = false;
        let mut name: Option<TextValue<'a>> = None;
        let mut file_name: Option<TextValue<'a>> = None;
        let mut content_type: Option<&'a [u8]> = None;
        let cd_name = content_disposition_name();
        let ct_name = content_type_name();
        let ghost whole = spec_header_lines(body@, part_offset as int, empty_acc());
        proof {
            assert(header_list_items(headers) =~= Seq::<(Seq<u8>, Seq<u8>)>::empty());
        }
        loop
            invariant_except_break
                whole == spec_header_lines(
                    body@,
                    cursor as int,
                    HeaderAcc {
                        headers: header_list_items(headers),
                        saw_content_disposition,
                        require_name,
                        name: opt_text(name),
                        file_name: opt_text(file_name),
                        content_type: opt_bytes_view(content_type),
                    },
                ),
            invariant
                self@ == old(self)@,
                part_offset as int == old(self)@.cursor,
                body@ == old(self)@.body,
                len == body@.len(),
                part_offset <= cursor <= len,
                cd_name@ == spec_content_disposition_name(),
                ct_name@ == spec_content_type_name(),
                whole == spec_header_lines(body@, part_offset as int, empty_acc()),
            ensures
                part_offset < cursor <= len,
                whole == spec_header_lines(body@, part_offset as int, empty_acc()),
                whole == Ok::<(HeaderAcc, int), Error>(
                    (
                        HeaderAcc {
                            headers: header_list_items(headers),
                            saw_content_disposition,
                            require_name,
                            name: opt_text(name),
                            file_name: opt_text(file_name),
                            content_type: opt_bytes_view(content_type),
                        },
                        cursor as int,
                    ),
                ),
            decreases len - cursor,
        {
            let rest = &body[cursor..len];
            let relative = match memchr(0x0Au8, rest) {
                Some(i) => i,
                None => {
                    return Err(Error::UnexpectedEnd { offset: cursor });
                },
            };
            proof {
                lemma_first_index_of(rest@, 0x0Au8);
            }
            let line_end = cursor + relative;
            if relative == 0 || body[line_end - 1] != 0x0Du8 {
                return Err(Error::InvalidHeaderLineEnding { offset: line_end });
            }
            let line_start = cursor;
            let line = &body[line_start..line_end - 1];
            cursor = line_end + 1;
            if line.len() == 0 {
                break;
            }
            if line[0] == 0x20u8 || line[0] == 0x09u8 {
                return Err(Error::InvalidHeaderContinuation { offset: line_start });
            }
            let header = match Header::parse(line, line_start) {
                Ok(h) => h,
                Err(e) => {
                    return Err(e);
                },
            };
            proof {
                lemma_header_parse_len(line@, line_start as usize);
            }
            let ghost acc = HeaderAcc {
                headers: header_list_items(headers),
                saw_content_disposition,
                require_name,
                name: opt_text(name),
                file_name: opt_text(file_name),
                content_type: opt_bytes_view(content_type),
            };
            if header.name_eq_ignore_ascii_case(&cd_name) {
                saw_content_disposition = true;
                let disposition = match parse_content_disposition(header.value(), line_start) {
                    Ok(d) => d,
                    Err(e) => {
                        return Err(e);
                    },
                };
                let kind = disposition.kind;
                let d_name = disposition.name;
                let d_file_name = disposition.file_name;
                if kind == DispositionKind::FormData {
                    require_name = true;
                }
                if name.is_none() {
                    name = d_name;
                }
                if file_name.is_none() {
                    file_name = d_file_name;
                }
            } else if content_type.is_none() && header.name_eq_ignore_ascii_case(&ct_name) {
                content_type = Some(header.value());
            }
            let ghost hv = header@;
            headers = header_list_pushed(headers, header);
            proof {
                assert(header_list_items(headers) =~= acc.headers.push(hv));
            }
        }
        if !saw_content_disposition {
            return Err(Error::MissingContentDisposition { offset: part_offset });
        }
        if require_name && name.is_none() {
            return Err(Error::MissingPartName { offset: part_offset });
        }
        let body_start = cursor;
        let (body_end, next_cursor, is_final) = match find_next_boundary(
            body,
            self.boundary.as_bytes(),
            body_start,
        ) {
            Ok(found) => found,
            Err(e) => {
                return Err(e);
            },
        };
        proof {
            lemma_next_part(body@, self.boundary@.0, part_offset as int);
        }
        self.cursor = next_cursor;
        if is_final {
            self.done = true;
        }
        Ok(Part::new(
            headers,
            body_start,
            body_end,
            name,
            file_name,
            content_type,
        ))
    }

    /// The next part, or why the body is rejected; `None` once the close delimiter
    /// has been read or an error has been returned.
    pub fn next(&mut self) -> (r: Option<Result<Part<'a>, Error>>)
        ensures
            final(self)@.body == old(self)@.body,
            final(self)@.boundary == old(self)@.boundary,
            old(self)@.done ==> r is None && final(self)@ == old(self)@,
            !old(self)@.done ==> match spec_next_part(
                old(self)@.body,
                old(self)@.boundary,
                old(self)@.cursor,
            ) {
                Err(e) => r == Some(Err::<Part<'a>, Error>(e)) && final(self)@.done
                    && final(self)@.cursor == old(self)@.cursor,
                Ok((p, next, is_final)) => r matches Some(Ok(part)) && part@ == p
                    && final(self)@.cursor == next && final(self)@.done == is_final,
            },
    {
        proof {
            use_type_invariant(&*self);
        }
        if self.done {
            return None;
        }
        match self.parse_next_part() {
            Ok(part) => Some(Ok(part)),
            Err(e) => {
                proof {
                    use_type_invariant(&*self);
                }
                self.done = true;
                Some(Err(e))
            },
        }
    }
}

/// The header value that a header line yields is no longer than the line.
proof fn lemma_header_parse_len(line: Seq<u8>, offset: usize)
    ensures
        spec_header_parse(line, offset) matches Ok((n, v)) ==> v.len() <= line.len(),
{
    lemma_first_index_of(line, 0x3Au8);
    if let Some(sep) = first_index_of(line, 0x3Au8) {
        lemma_trim(line.subrange(sep + 1, line.len() as int));
    }
}

/// `parts` put in front of the parts that the rest of the parse yields.
pub open spec fn spec_prepend_parts(parts: Seq<SpecPart>, r: Result<Seq<SpecPart>, Error>) -> Result<
    Seq<SpecPart>,
    Error,
> {
    match r {
        Ok(rest) => Ok(parts + rest),
        Err(e) => Err(e),
    }
}

/// Parses a whole multipart body: every part up to the close delimiter.
pub fn parse<'a>(body: &'a [u8], boundary: &'a [u8]) -> (r: Result<Multipart<'a>, Error>)
    ensures
        match spec_parse(body@, boundary@) {
            Ok(parts) => r matches Ok(m) && m@ == (body@, parts),
            Err(e) => r == Err::<Multipart<'a>, Error>(e),
        },
{
    let mut parser = match MultipartParser::new(body, boundary) {
        Ok(p) => p,
        Err(e) => {
            return Err(e);
        },
    };
    let mut parts: PartList<'a> = part_list_new();
    let body_len = body.len();
    loop
        invariant
            body_len == body@.len(),
            parser@.body == body@,
            parser@.boundary == boundary@,
            parser@.cursor <= body@.len(),
            spec_parse(body@, boundary@) == spec_prepend_parts(
                part_list_items(parts),
                spec_parts_from(body@, boundary@, parser@.cursor, parser@.done),
            ),
        ensures
            spec_parse(body@, boundary@) == Ok::<Seq<SpecPart>, Error>(
                part_list_items(parts),
            ),
        decreases body@.len() - parser@.cursor,
    {
        let ghost before = parser@;
        let ghost done_parts = part_list_items(parts);
        match parser.next() {
            None => {
                proof {
                    assert(done_parts + Seq::<SpecPart>::empty() =~= done_parts);
                }
                break;
            },
            Some(Ok(part)) => {
                proof {
                    lemma_next_part(body@, boundary@, before.cursor);
                }
                let ghost pv = part@;
                parts = part_list_pushed(parts, part);
                proof {
                    assert(part_list_items(parts) =~= done_parts.push(pv));
                    match spec_parts_from(body@, boundary@, parser@.cursor, parser@.done) {
                        Ok(rest) => {
                            assert(done_parts + (seq![pv] + rest) =~= done_parts.push(pv) + rest);
                        },
                        Err(_) => {},
                    }
                }
            },
            Some(Err(e)) => {
                return Err(e);
            },
        }
    }
    Ok(Multipart { body, parts })
}

} // verus!
