//! The errors a boundary or a multipart body can be rejected with.
use vstd::prelude::*;
use vstd::string::StringExecFns;

verus! {

/// Why a boundary or a multipart body was rejected; offsets are byte offsets
/// into the body (or into the boundary, for `InvalidBoundaryByte`).
#[derive(Debug, Clone, PartialEq, Eq, Structural)]
pub enum Error {
    EmptyBoundary,
    BoundaryTooLong { len: usize },
    InvalidBoundaryByte { offset: usize, byte: u8 },
    InvalidStartingBoundary,
    InvalidBoundaryTerminator { offset: usize },
    UnexpectedEnd { offset: usize },
    InvalidHeaderLineEnding { offset: usize },
    InvalidHeaderContinuation { offset: usize },
    MissingHeaderSeparator { offset: usize },
    InvalidHeaderName { offset: usize },
    MissingContentDisposition { offset: usize },
    MissingPartName { offset: usize },
    InvalidContentDisposition { offset: usize },
    MissingClosingBoundary { offset: usize },
    TrailingData { offset: usize },
}

/// The lower-case hexadecimal digit for `d` (< 16).
pub open spec fn spec_digit_char(d: nat) -> char {
    if d < 10 {
        ((d + 0x30) as u32) as char
    } else {
        ((d - 10 + 0x61) as u32) as char
    }
}

/// The decimal digits of `n`, most significant first, without leading zeros.
pub open spec fn spec_decimal(n: nat) -> Seq<char>
    decreases n,
{
    if n < 10 {
        seq![spec_digit_char(n)]
    } else {
        spec_decimal(n / 10) + seq![spec_digit_char(n % 10)]
    }
}

/// A byte as two lower-case hexadecimal digits.
pub open spec fn spec_hex_byte(b: u8) -> Seq<char> {
    seq![spec_digit_char((b / 16) as nat), spec_digit_char((b % 16) as nat)]
}

/// The one-character text of a hexadecimal digit.
fn digit_str(d: usize) -> (r: &'static str)
    requires
        d < 16,
    ensures
        r@ == seq![spec_digit_char(d as nat)],
{
    proof {
        reveal_strlit("0");
        reveal_strlit("1");
        reveal_strlit("2");
        reveal_strlit("3");
        reveal_strlit("4");
        reveal_strlit("5");
        reveal_strlit("6");
        reveal_strlit("7");
        reveal_strlit("8");
        reveal_strlit("9");
        reveal_strlit("a");
        reveal_strlit("b");
        reveal_strlit("c");
        reveal_strlit("d");
        reveal_strlit("e");
        reveal_strlit("f");
    }
    let r = match d {
        0 => "0",
        1 => "1",
        2 => "2",
        3 => "3",
        4 => "4",
        5 => "5",
        6 => "6",
        7 => "7",
        8 => "8",
        9 => "9",
        10 => "a",
        11 => "b",
        12 => "c",
        13 => "d",
        14 => "e",
        _ => "f",
    };
    assert(r@ =~= seq![spec_digit_char(d as nat)]);
    r
}

/// Appends the decimal digits of `n`.
fn push_decimal(s: &mut String, n: usize)
    ensures
        final(s)@ == old(s)@ + spec_decimal(n as nat),
    decreases n,
{
    if n >= 10 {
        push_decimal(s, n / 10);
    }
    let d = digit_str(n % 10);
    s.append(d);
    assert(final(s)@ =~= old(s)@ + spec_decimal(n as nat));
}

/// Appends a byte as two lower-case hexadecimal digits.
fn push_hex_byte(s: &mut String, b: u8)
    ensures
        final(s)@ == old(s)@ + spec_hex_byte(b),
{
    s.append(digit_str((b / 16) as usize));
    s.append(digit_str((b % 16) as usize));
    assert(final(s)@ =~= old(s)@ + spec_hex_byte(b));
}

impl Error {
    /// The human-readable description of the error.
    pub open spec fn spec_message(self) -> Seq<char> {
        match self {
            Error::EmptyBoundary => "multipart boundary must not be empty"@,
            Error::BoundaryTooLong { len } => "multipart boundary is too long: "@ + spec_decimal(len as nat),
            Error::InvalidBoundaryByte { offset, byte } => "multipart boundary contains an invalid byte at "@ + spec_decimal(offset as nat) + ": 0x"@
                + spec_hex_byte(byte),
            Error::InvalidStartingBoundary => "multipart body does not start with the expected boundary"@,
            Error::InvalidBoundaryTerminator { offset } => "multipart boundary terminator is invalid at byte offset "@ + spec_decimal(offset as nat),
            Error::UnexpectedEnd { offset } => "multipart body ended unexpectedly at byte offset "@ + spec_decimal(offset as nat),
            Error::InvalidHeaderLineEnding { offset } => "multipart header line must end with CRLF at byte offset "@ + spec_decimal(offset as nat),
            Error::InvalidHeaderContinuation { offset } => "multipart header continuation is not supported at byte offset "@ + spec_decimal(offset as nat),
            Error::MissingHeaderSeparator { offset } => "multipart header is missing ':' at byte offset "@ + spec_decimal(offset as nat),
            Error::InvalidHeaderName { offset } => "multipart header name is invalid at byte offset "@ + spec_decimal(offset as nat),
            Error::MissingContentDisposition { offset } => "multipart part is missing Content-Disposition at byte offset "@ + spec_decimal(offset as nat),
            Error::MissingPartName { offset } => "multipart part is missing the Content-Disposition name parameter at byte offset "@ + spec_decimal(offset as nat),
            Error::InvalidContentDisposition { offset } => "Content-Disposition is invalid at byte offset "@ + spec_decimal(offset as nat),
            Error::MissingClosingBoundary { offset } => "multipart closing boundary was not found after byte offset "@ + spec_decimal(offset as nat),
            Error::TrailingData { offset } => "multipart body has trailing data after byte offset "@ + spec_decimal(offset as nat),
        }
    }

    /// The human-readable description of the error.
    pub fn message(&self) -> (r: String)
        ensures
            r@ == self.spec_message(),
    {
        match self {
            Error::EmptyBoundary => String::from_str("multipart boundary must not be empty"),
            Error::BoundaryTooLong { len } => {
                let mut s = String::from_str("multipart boundary is too long: ");
                push_decimal(&mut s, *len);
                s
            },
            Error::InvalidBoundaryByte { offset, byte } => {
                let mut s = String::from_str("multipart boundary contains an invalid byte at ");
                push_decimal(&mut s, *offset);
                s.append(": 0x");
                push_hex_byte(&mut s, *byte);
                s
            },
            Error::InvalidStartingBoundary => String::from_str("multipart body does not start with the expected boundary"),
            Error::InvalidBoundaryTerminator { offset } => {
                let mut s = String::from_str("multipart boundary terminator is invalid at byte offset ");
                push_decimal(&mut s, *offset);
                s
            },
            Error::UnexpectedEnd { offset } => {
                let mut s = String::from_str("multipart body ended unexpectedly at byte offset ");
                push_decimal(&mut s, *offset);
                s
            },
            Error::InvalidHeaderLineEnding { offset } => {
                let mut s = String::from_str("multipart header line must end with CRLF at byte offset ");
                push_decimal(&mut s, *offset);
                s
            },
            Error::InvalidHeaderContinuation { offset } => {
                let mut s = String::from_str("multipart header continuation is not supported at byte offset ");
                push_decimal(&mut s, *offset);
                s
            },
            Error::MissingHeaderSeparator { offset } => {
                let mut s = String::from_str("multipart header is missing ':' at byte offset ");
                push_decimal(&mut s, *offset);
                s
            },
            Error::InvalidHeaderName { offset } => {
                let mut s = String::from_str("multipart header name is invalid at byte offset ");
                push_decimal(&mut s, *offset);
                s
            },
            Error::MissingContentDisposition { offset } => {
                let mut s = String::from_str("multipart part is missing Content-Disposition at byte offset ");
                push_decimal(&mut s, *offset);
                s
            },
            Error::MissingPartName { offset } => {
                let mut s = String::from_str("multipart part is missing the Content-Disposition name parameter at byte offset ");
                push_decimal(&mut s, *offset);
                s
            },
            Error::InvalidContentDisposition { offset } => {
                let mut s = String::from_str("Content-Disposition is invalid at byte offset ");
                push_decimal(&mut s, *offset);
                s
            },
            Error::MissingClosingBoundary { offset } => {
                let mut s = String::from_str("multipart closing boundary was not found after byte offset ");
                push_decimal(&mut s, *offset);
                s
            },
            Error::TrailingData { offset } => {
                let mut s = String::from_str("multipart body has trailing data after byte offset ");
                push_decimal(&mut s, *offset);
                s
            },
        }
    }
}

/// The result of a parse: a value, or the `Error` that rejected the input.
pub type Result<T> = core::result::Result<T, Error>;

} // verus!
