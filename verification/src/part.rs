//! One part of a multipart body.
use vstd::prelude::*;

use crate::content_disposition::opt_text;
use crate::deps::{header_list_as_slice, header_list_items, HeaderList};
use crate::header::Header;
use crate::text::{SpecText, TextValue};

verus! {

/// The model of a part: its headers (name and value), the range of its body in
/// the multipart body, and what its headers say of it.
pub struct SpecPart {
    pub headers: Seq<(Seq<u8>, Seq<u8>)>,
    pub body_start: int,
    pub body_end: int,
    pub name: Option<SpecText>,
    pub file_name: Option<SpecText>,
    pub content_type: Option<Seq<u8>>,
}

/// A part of a multipart body; its body is kept as a range of the multipart body.
#[derive(Debug)]
pub struct Part<'a> {
    headers: HeaderList<'a>,
    body_start: usize,
    body_end: usize,
    name: Option<TextValue<'a>>,
    file_name: Option<TextValue<'a>>,
    content_type: Option<&'a [u8]>,
}

/// The model of an optional byte slice.
pub open spec fn opt_bytes_view(o: Option<&[u8]>) -> Option<Seq<u8>> {
    match o {
        Some(b) => Some(b@),
        None => None,
    }
}

impl<'a> View for Part<'a> {
    type V = SpecPart;

    closed spec fn view(&self) -> SpecPart {
        SpecPart {
            headers: header_list_items(self.headers),
            body_start: self.body_start as int,
            body_end: self.body_end as int,
            name: opt_text(self.name),
            file_name: opt_text(self.file_name),
            content_type: opt_bytes_view(self.content_type),
        }
    }
}

impl<'a> Part<'a> {
    /// A part with the given headers, body range and disposition values.
    pub fn new(
        headers: HeaderList<'a>,
        body_start: usize,
        body_end: usize,
        name: Option<TextValue<'a>>,
        file_name: Option<TextValue<'a>>,
        content_type: Option<&'a [u8]>,
    ) -> (r: Self)
        ensures
            r@ == (SpecPart {
                headers: header_list_items(headers),
                body_start: body_start as int,
                body_end: body_end as int,
                name: opt_text(name),
                file_name: opt_text(file_name),
                content_type: opt_bytes_view(content_type),
            }),
    {
        Self { headers, body_start, body_end, name, file_name, content_type }
    }

    /// The part's headers, in the order they appear.
    pub fn headers(&self) -> (r: &[Header<'a>])
        ensures
            r@.map_values(|h: Header<'a>| h@) == self@.headers,
    {
        header_list_as_slice(&self.headers)
    }

    /// The byte range of this part's body within the multipart body.
    pub fn body_range(&self) -> (r: core::ops::Range<usize>)
        ensures
            r.start == self@.body_start,
            r.end == self@.body_end,
    {
        self.body_start..self.body_end
    }

    /// This part's body, sliced from `source`, the multipart body it was parsed
    /// from.
    pub fn body<'b>(&self, source: &'b [u8]) -> (r: &'b [u8])
        requires
            self@.body_start <= self@.body_end <= source@.len(),
        ensures
            r@ == source@.subrange(self@.body_start, self@.body_end),
    {
        &source[self.body_start..self.body_end]
    }

    /// This part's body when `source` covers its range; `None` otherwise.
    pub fn try_body<'b>(&self, source: &'b [u8]) -> (r: Option<&'b [u8]>)
        ensures
            r is Some <==> self@.body_start <= self@.body_end <= source@.len(),
            r matches Some(b) ==> b@ == source@.subrange(self@.body_start, self@.body_end),
    {
        if self.body_start <= self.body_end && self.body_end <= source.len() {
            Some(&source[self.body_start..self.body_end])
        } else {
            None
        }
    }

    /// The `name` parameter of the part's `Content-Disposition`.
    pub fn name(&self) -> (r: Option<&TextValue<'a>>)
        ensures
            match r {
                Some(t) => self@.name == Some(t@),
                None => self@.name is None,
            },
    {
        self.name.as_ref()
    }

    /// The part's file name: its `filename*` parameter, else its `filename`.
    pub fn file_name(&self) -> (r: Option<&TextValue<'a>>)
        ensures
            match r {
                Some(t) => self@.file_name == Some(t@),
                None => self@.file_name is None,
            },
    {
        self.file_name.as_ref()
    }

    /// The value of the part's first `Content-Type` header.
    pub fn content_type(&self) -> (r: Option<&'a [u8]>)
        ensures
            opt_bytes_view(r) == self@.content_type,
    {
        self.content_type
    }
}

} // verus!
