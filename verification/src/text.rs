//! Parameter values that are either borrowed from the body or decoded into a buffer.
use vstd::prelude::*;
use vstd::string::StringSliceAdditionalSpecFns;
use vstd::utf8::valid_utf8;

use crate::deps::{str_from_utf8, text_buf_as_slice, text_buf_bytes, TextBuf};

verus! {

/// The model of a `TextValue`: its bytes, and whether they were decoded into a
/// buffer of their own rather than borrowed from the input.
pub struct SpecText {
    pub bytes: Seq<u8>,
    pub owned: bool,
}

/// Text read from a header: borrowed from the body where no decoding was needed.
#[derive(Debug, PartialEq, Eq)]
pub enum TextValue<'a> {
    Borrowed(&'a [u8]),
    Owned(TextBuf),
}

impl<'a> View for TextValue<'a> {
    type V = SpecText;

    open spec fn view(&self) -> SpecText {
        match self {
            TextValue::Borrowed(b) => SpecText { bytes: b@, owned: false },
            TextValue::Owned(buf) => SpecText { bytes: text_buf_bytes(*buf), owned: true },
        }
    }
}

impl<'a> TextValue<'a> {
    /// The bytes of the value.
    pub fn as_bytes(&self) -> (r: &[u8])
        ensures
            r@ == self@.bytes,
    {
        match self {
            TextValue::Borrowed(bytes) => bytes,
            TextValue::Owned(bytes) => text_buf_as_slice(bytes),
        }
    }

    /// The value as text, when its bytes are valid UTF-8.
    pub fn as_str(&self) -> (r: Result<&str, core::str::Utf8Error>)
        ensures
            r is Ok <==> valid_utf8(self@.bytes),
            r matches Ok(s) ==> s.spec_bytes() == self@.bytes,
    {
        str_from_utf8(self.as_bytes())
    }
}

} // verus!
