//! One `name: value` header line of a part.
use vstd::prelude::*;

use crate::deps::{first_index_of, memchr};
use crate::error::Error;
use crate::util::{eq_ignore_ascii_case, spec_eq_ignore_case, spec_trim, trim_ascii};

verus! {

/// A header of a part: its name and its value with surrounding spaces and tabs removed.
#[derive(Debug, Clone, PartialEq, Eq)]
pub struct Header<'a> {
    name: &'a [u8],
    value: &'a [u8],
}

impl<'a> View for Header<'a> {
    type V = (Seq<u8>, Seq<u8>);

    closed spec fn view(&self) -> (Seq<u8>, Seq<u8>) {
        (self.name@, self.value@)
    }
}

/// An RFC 7230 `tchar`: the bytes a header name may hold.
pub open spec fn spec_is_tchar(b: u8) -> bool {
    ||| b == 0x21u8 || b == 0x23u8 || b == 0x24u8 || b == 0x25u8 || b == 0x26u8 || b == 0x27u8
    ||| b == 0x2Au8 || b == 0x2Bu8 || b == 0x2Du8 || b == 0x2Eu8
    ||| b == 0x5Eu8 || b == 0x5Fu8 || b == 0x60u8 || b == 0x7Cu8 || b == 0x7Eu8
    ||| 0x30u8 <= b && b <= 0x39u8
    ||| 0x61u8 <= b && b <= 0x7Au8
    ||| 0x41u8 <= b && b <= 0x5Au8
}

/// A valid header name: non-empty and made of `tchar` bytes only.
pub open spec fn spec_is_token(s: Seq<u8>) -> bool {
    s.len() > 0 && forall|i: int| 0 <= i < s.len() ==> spec_is_tchar(#[trigger] s[i])
}

/// The header held by `line` (a header line without its CRLF), or why it is rejected;
/// `offset` is where the line starts in the body.
pub open spec fn spec_header_parse(line: Seq<u8>, offset: usize) -> Result<(Seq<u8>, Seq<u8>), Error> {
    match first_index_of(line, 0x3Au8) {
        None => Err(Error::MissingHeaderSeparator { offset }),
        Some(sep) => {
            let name = line.subrange(0, sep);
            if !spec_is_token(name) {
                Err(Error::InvalidHeaderName { offset })
            } else {
                Ok((name, spec_trim(line.subrange(sep + 1, line.len() as int))))
            }
        },
    }
}

pub fn is_tchar(byte: u8) -> (r: bool)
    ensures
        r == spec_is_tchar(byte),
{
    byte == 0x21u8 || byte == 0x23u8 || byte == 0x24u8 || byte == 0x25u8 || byte == 0x26u8
        || byte == 0x27u8 || byte == 0x2Au8 || byte == 0x2Bu8 || byte == 0x2Du8 || byte == 0x2Eu8
        || byte == 0x5Eu8 || byte == 0x5Fu8 || byte == 0x60u8 || byte == 0x7Cu8 || byte == 0x7Eu8
        || (0x30u8 <= byte && byte <= 0x39u8) || (0x61u8 <= byte && byte <= 0x7Au8)
        || (0x41u8 <= byte && byte <= 0x5Au8)
}

impl<'a> Header<'a> {
    pub fn new(name: &'a [u8], value: &'a [u8]) -> (r: Self)
        ensures
            r@ == (name@, value@),
    {
        Self { name, value }
    }

    pub fn name(&self) -> (r: &'a [u8])
        ensures
            r@ == self@.0,
    {
        self.name
    }

    pub fn value(&self) -> (r: &'a [u8])
        ensures
            r@ == self@.1,
    {
        self.value
    }

    /// Whether the header's name equals `other` up to ASCII case.
    pub fn name_eq_ignore_ascii_case(&self, other: &[u8]) -> (r: bool)
        ensures
            r == spec_eq_ignore_case(self@.0, other@),
    {
        eq_ignore_ascii_case(self.name, other)
    }

    /// Splits a header line (without its CRLF) at its first `:`.
    pub fn parse(line: &'a [u8], offset: usize) -> (r: Result<Self, Error>)
        ensures
            match spec_header_parse(line@, offset) {
                Ok(h) => r matches Ok(header) && header@ == h,
                Err(e) => r == Err::<Self, Error>(e),
            },
    {
        let separator = match memchr(0x3Au8, line) {
            Some(i) => i,
            None => {
                return Err(Error::MissingHeaderSeparator { offset });
            },
        };
        proof {
            crate::deps::lemma_first_index_of(line@, 0x3Au8);
        }
        let name = &line[0..separator];
        if name.len() == 0 {
            return Err(Error::InvalidHeaderName { offset });
        }
        let mut i: usize = 0;
        while i < name.len()
            invariant
                i <= name@.len(),
                separator < line@.len(),
                first_index_of(line@, 0x3Au8) == Some(separator as int),
                name@ == line@.subrange(0, separator as int),
                forall|k: int| 0 <= k < i ==> spec_is_tchar(#[trigger] name@[k]),
            decreases name.len() - i,
        {
            if !is_tchar(name[i]) {
                return Err(Error::InvalidHeaderName { offset });
            }
            i += 1;
        }
        let line_len = line.len();
        let value = trim_ascii(&line[separator + 1..line_len]);
        Ok(Self { name, value })
    }
}

} // verus!
