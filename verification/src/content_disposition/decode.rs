//! Decoding of `filename*` extended values (RFC 8187) and of the HTML form
//! escapes `%0A`, `%0D` and `%22` in `name` and `filename`.
use vstd::prelude::*;

use crate::buffers::text_buf_pushed;
use crate::deps::{
    first_index_of, lemma_first_index_of, memchr, text_buf_as_slice, text_buf_bytes, text_buf_new,
    TextBuf,
};
use crate::error::Error;
use crate::names::{spec_us_ascii_charset, spec_utf8_charset, us_ascii_charset, utf8_charset};
use crate::text::{SpecText, TextValue};
use crate::util::{eq_ignore_ascii_case, spec_eq_ignore_case};

verus! {

/// The byte an HTML form escape `%` `a` `b` stands for, if it is one.
pub open spec fn spec_html_escape(a: u8, b: u8) -> Option<u8> {
    if a == 0x30u8 && (b == 0x41u8 || b == 0x61u8) {
        Some(0x0Au8)
    } else if a == 0x30u8 && (b == 0x44u8 || b == 0x64u8) {
        Some(0x0Du8)
    } else if a == 0x32u8 && b == 0x32u8 {
        Some(0x22u8)
    } else {
        None
    }
}

/// `s[i..]` with its HTML form escapes replaced, scanning left to right, and
/// whether any was replaced.
pub open spec fn spec_html_decode(s: Seq<u8>, i: int) -> (Seq<u8>, bool)
    decreases s.len() - i,
{
    if i < 0 || i + 2 >= s.len() {
        (s.subrange(if i < 0 { 0 } else if i > s.len() { s.len() as int } else { i }, s.len() as int), false)
    } else if s[i] == 0x25u8 && spec_html_escape(s[i + 1], s[i + 2]) is Some {
        let rest = spec_html_decode(s, i + 3);
        (seq![spec_html_escape(s[i + 1], s[i + 2])->0] + rest.0, true)
    } else {
        let rest = spec_html_decode(s, i + 1);
        (seq![s[i]] + rest.0, rest.1)
    }
}

/// A `name` or `filename` value with its HTML form escapes decoded; a value with
/// none is returned as it is.
pub open spec fn spec_html_unescape(t: SpecText) -> SpecText {
    let (decoded, replaced) = spec_html_decode(t.bytes, 0);
    if replaced {
        SpecText { bytes: decoded, owned: true }
    } else {
        t
    }
}

/// Bytes without `%` go through the decoding unchanged.
proof fn lemma_html_prefix(s: Seq<u8>, i: int, k: int)
    requires
        0 <= i <= k <= s.len(),
        forall|j: int| i <= j < k ==> s[j] != 0x25u8,
    ensures
        spec_html_decode(s, i) == (s.subrange(i, k) + spec_html_decode(s, k).0, spec_html_decode(
            s,
            k,
        ).1),
    decreases k - i,
{
    if i < k {
        lemma_html_prefix(s, i + 1, k);
        if i + 2 >= s.len() {
            assert(s.subrange(i, s.len() as int) =~= s.subrange(i, k) + s.subrange(k, s.len() as int));
        } else {
            assert(s.subrange(i, k) =~= seq![s[i]] + s.subrange(i + 1, k));
        }
    } else {
        assert(s.subrange(i, k) =~= Seq::<u8>::empty());
    }
}

/// The HTML form escapes of `bytes` replaced, or `None` when it holds none.
pub fn decode_html_name_escape_bytes(bytes: &[u8]) -> (r: Option<TextBuf>)
    ensures
        match r {
            Some(d) => spec_html_decode(bytes@, 0) == (text_buf_bytes(d), true),
            None => !spec_html_decode(bytes@, 0).1,
        },
{
    let len = bytes.len();
    let first = match memchr(0x25u8, bytes) {
        Some(i) => i,
        None => {
            proof {
                lemma_first_index_of(bytes@, 0x25u8);
                lemma_html_prefix(bytes@, 0, len as int);
            }
            return None;
        },
    };
    proof {
        lemma_first_index_of(bytes@, 0x25u8);
        lemma_html_prefix(bytes@, 0, first as int);
    }
    let mut cursor = first;
    let mut copied_from: usize = 0;
    let mut decoded: Option<TextBuf> = None;
    while cursor < len && len - cursor > 2
        invariant
            len == bytes@.len(),
            copied_from <= cursor <= len,
            decoded is None ==> copied_from == 0,
            spec_html_decode(bytes@, 0) == (
                match decoded {
                    Some(d) => text_buf_bytes(d),
                    None => Seq::<u8>::empty(),
                } + bytes@.subrange(copied_from as int, cursor as int) + spec_html_decode(
                    bytes@,
                    cursor as int,
                ).0,
                decoded is Some || spec_html_decode(bytes@, cursor as int).1,
            ),
        decreases len - cursor,
    {
        if bytes[cursor] != 0x25u8 {
            proof {
                assert(bytes@.subrange(copied_from as int, cursor + 1) =~= bytes@.subrange(
                    copied_from as int,
                    cursor as int,
                ) + seq![bytes@[cursor as int]]);
            }
            cursor += 1;
            continue;
        }
        let a = bytes[cursor + 1];
        let b = bytes[cursor + 2];
        let replacement: Option<u8> = if a == 0x30u8 && (b == 0x41u8 || b == 0x61u8) {
            Some(0x0Au8)
        } else if a == 0x30u8 && (b == 0x44u8 || b == 0x64u8) {
            Some(0x0Du8)
        } else if a == 0x32u8 && b == 0x32u8 {
            Some(0x22u8)
        } else {
            None
        };
        match replacement {
            Some(rep) => {
                let out = match decoded {
                    Some(d) => d,
                    None => text_buf_new(),
                };
                let ghost before = text_buf_bytes(out);
                let out = super::push_range(out, bytes, copied_from, cursor);
                let out = text_buf_pushed(out, rep);
                proof {
                    assert(text_buf_bytes(out) =~= before + bytes@.subrange(
                        copied_from as int,
                        cursor as int,
                    ) + seq![rep]);
                    assert(bytes@.subrange(cursor + 3, cursor + 3) =~= Seq::<u8>::empty());
                }
                decoded = Some(out);
                cursor += 3;
                copied_from = cursor;
            },
            None => {
                proof {
                    assert(bytes@.subrange(copied_from as int, cursor + 1) =~= bytes@.subrange(
                        copied_from as int,
                        cursor as int,
                    ) + seq![bytes@[cursor as int]]);
                }
                cursor += 1;
            },
        }
    }
    match decoded {
        Some(d) => {
            let ghost before = text_buf_bytes(d);
            let out = super::push_range(d, bytes, copied_from, len);
            proof {
                assert(bytes@.subrange(copied_from as int, cursor as int) + bytes@.subrange(
                    cursor as int,
                    len as int,
                ) =~= bytes@.subrange(copied_from as int, len as int));
            }
            Some(out)
        },
        None => None,
    }
}

/// Decodes the HTML form escapes of a `name` or `filename` value.
pub fn decode_html_name_escapes<'a>(value: TextValue<'a>) -> (r: TextValue<'a>)
    ensures
        r@ == spec_html_unescape(value@),
        value matches TextValue::Borrowed(b) && !spec_html_decode(b@, 0).1 ==> r == value,
{
    match value {
        TextValue::Borrowed(bytes) => match decode_html_name_escape_bytes(bytes) {
            Some(decoded) => TextValue::Owned(decoded),
            None => TextValue::Borrowed(bytes),
        },
        TextValue::Owned(bytes) => match decode_html_name_escape_bytes(text_buf_as_slice(&bytes)) {
            Some(decoded) => TextValue::Owned(decoded),
            None => TextValue::Owned(bytes),
        },
    }
}

/// The value of a hexadecimal digit.
pub open spec fn spec_hex(b: u8) -> Option<u8> {
    if 0x30u8 <= b && b <= 0x39u8 {
        Some((b - 0x30u8) as u8)
    } else if 0x61u8 <= b && b <= 0x66u8 {
        Some((b - 0x61u8 + 10) as u8)
    } else if 0x41u8 <= b && b <= 0x46u8 {
        Some((b - 0x41u8 + 10) as u8)
    } else {
        None
    }
}

pub fn decode_hex(byte: u8) -> (r: Option<u8>)
    ensures
        r == spec_hex(byte),
{
    if 0x30u8 <= byte && byte <= 0x39u8 {
        Some(byte - 0x30u8)
    } else if 0x61u8 <= byte && byte <= 0x66u8 {
        Some(byte - 0x61u8 + 10)
    } else if 0x41u8 <= byte && byte <= 0x46u8 {
        Some(byte - 0x41u8 + 10)
    } else {
        None
    }
}

/// `s[i..]` percent-decoded; `offset` is where `s` starts in the body.
pub open spec fn spec_percent_decode(s: Seq<u8>, i: int, offset: usize) -> Result<Seq<u8>, Error>
    decreases s.len() - i,
{
    if i < 0 || i >= s.len() {
        Ok(Seq::empty())
    } else if s[i] == 0x25u8 {
        if i + 2 >= s.len() {
            Err(Error::InvalidContentDisposition { offset: (offset + i) as usize })
        } else {
            match (spec_hex(s[i + 1]), spec_hex(s[i + 2])) {
                (None, _) => Err(Error::InvalidContentDisposition { offset: (offset + i + 1) as usize }),
                (Some(_), None) => Err(
                    Error::InvalidContentDisposition { offset: (offset + i + 2) as usize },
                ),
                (Some(hi), Some(lo)) => match spec_percent_decode(s, i + 3, offset) {
                    Ok(rest) => Ok(seq![(hi * 16 + lo) as u8] + rest),
                    Err(e) => Err(e),
                },
            }
        }
    } else {
        match spec_percent_decode(s, i + 1, offset) {
            Ok(rest) => Ok(seq![s[i]] + rest),
            Err(e) => Err(e),
        }
    }
}

/// Percent-decodes `bytes`; `offset` is where `bytes` starts in the body.
pub fn percent_decode(bytes: &[u8], offset: usize) -> (r: Result<TextBuf, Error>)
    requires
        offset + bytes@.len() <= usize::MAX,
    ensures
        match spec_percent_decode(bytes@, 0, offset) {
            Ok(d) => r matches Ok(v) && text_buf_bytes(v) == d,
            Err(e) => r == Err::<TextBuf, Error>(e),
        },
{
    let len = bytes.len();
    let mut decoded: TextBuf = text_buf_new();
    let mut cursor: usize = 0;
    while cursor < len
        invariant
            len == bytes@.len(),
            offset + len <= usize::MAX,
            cursor <= len,
            spec_percent_decode(bytes@, 0, offset) == match spec_percent_decode(
                bytes@,
                cursor as int,
                offset,
            ) {
                Ok(rest) => Ok(text_buf_bytes(decoded) + rest),
                Err(e) => Err(e),
            },
        decreases len - cursor,
    {
        if bytes[cursor] == 0x25u8 {
            if len - cursor <= 2 {
                return Err(Error::InvalidContentDisposition { offset: offset + cursor });
            }
            let hi = match decode_hex(bytes[cursor + 1]) {
                Some(h) => h,
                None => {
                    return Err(Error::InvalidContentDisposition { offset: offset + cursor + 1 });
                },
            };
            let lo = match decode_hex(bytes[cursor + 2]) {
                Some(l) => l,
                None => {
                    return Err(Error::InvalidContentDisposition { offset: offset + cursor + 2 });
                },
            };
            let ghost before = text_buf_bytes(decoded);
            decoded = text_buf_pushed(decoded, hi * 16 + lo);
            proof {
                match spec_percent_decode(bytes@, cursor + 3, offset) {
                    Ok(rest) => {
                        assert(text_buf_bytes(decoded) + rest =~= before + (seq![(hi * 16 + lo) as u8]
                            + rest));
                    },
                    Err(_) => {},
                }
            }
            cursor += 3;
            continue;
        }
        let ghost before = text_buf_bytes(decoded);
        decoded = text_buf_pushed(decoded, bytes[cursor]);
        proof {
            match spec_percent_decode(bytes@, cursor + 1, offset) {
                Ok(rest) => {
                    assert(text_buf_bytes(decoded) + rest =~= before + (seq![bytes@[cursor as int]]
                        + rest));
                },
                Err(_) => {},
            }
        }
        cursor += 1;
    }
    proof {
        assert(text_buf_bytes(decoded) + Seq::<u8>::empty() =~= text_buf_bytes(decoded));
    }
    Ok(decoded)
}

pub proof fn lemma_percent_decode_len(s: Seq<u8>, i: int, offset: usize)
    requires
        0 <= i <= s.len(),
    ensures
        spec_percent_decode(s, i, offset) matches Ok(d) ==> d.len() <= s.len() - i,
    decreases s.len() - i,
{
    if i < s.len() {
        if s[i] == 0x25u8 {
            if i + 2 < s.len() {
                lemma_percent_decode_len(s, i + 3, offset);
            }
        } else {
            lemma_percent_decode_len(s, i + 1, offset);
        }
    }
}

/// The charset and the encoded text of an RFC 8187 `charset'language'text` value.
pub open spec fn spec_split_extended(b: Seq<u8>, offset: usize) -> Result<(Seq<u8>, Seq<u8>), Error> {
    match first_index_of(b, 0x27u8) {
        None => Err(Error::InvalidContentDisposition { offset }),
        Some(charset_end) => match first_index_of(
            b.subrange(charset_end + 1, b.len() as int),
            0x27u8,
        ) {
            None => Err(Error::InvalidContentDisposition { offset }),
            Some(language_len) => Ok(
                (
                    b.subrange(0, charset_end),
                    b.subrange(charset_end + language_len + 2, b.len() as int),
                ),
            ),
        },
    }
}

/// A `filename*` value decoded: only the `UTF-8` and `US-ASCII` charsets are
/// accepted, and text without `%` keeps its form (borrowed or owned).
pub open spec fn spec_decode_extended(t: SpecText, offset: usize) -> Result<SpecText, Error> {
    match spec_split_extended(t.bytes, offset) {
        Err(e) => Err(e),
        Ok((charset, encoded)) => if !spec_eq_ignore_case(charset, spec_utf8_charset())
            && !spec_eq_ignore_case(charset, spec_us_ascii_charset()) {
            Err(Error::InvalidContentDisposition { offset })
        } else if first_index_of(encoded, 0x25u8) is None {
            Ok(SpecText { bytes: encoded, owned: t.owned })
        } else {
            match spec_percent_decode(encoded, 0, offset) {
                Ok(d) => Ok(SpecText { bytes: d, owned: true }),
                Err(e) => Err(e),
            }
        },
    }
}

/// Splits an RFC 8187 value into its charset and its encoded text.
pub fn split_extended_value(bytes: &[u8], offset: usize) -> (r: Result<(&[u8], &[u8]), Error>)
    ensures
        match spec_split_extended(bytes@, offset) {
            Ok((c, e)) => r matches Ok((rc, re)) && rc@ == c && re@ == e,
            Err(err) => r == Err::<(&[u8], &[u8]), Error>(err),
        },
        r matches Ok((rc, re)) ==> re@.len() <= bytes@.len(),
{
    let len = bytes.len();
    let charset_end = match memchr(0x27u8, bytes) {
        Some(i) => i,
        None => {
            return Err(Error::InvalidContentDisposition { offset });
        },
    };
    proof {
        lemma_first_index_of(bytes@, 0x27u8);
    }
    let rest = &bytes[charset_end + 1..len];
    let language_len = match memchr(0x27u8, rest) {
        Some(i) => i,
        None => {
            return Err(Error::InvalidContentDisposition { offset });
        },
    };
    proof {
        lemma_first_index_of(rest@, 0x27u8);
    }
    let value_start = charset_end + language_len + 2;
    Ok((&bytes[0..charset_end], &bytes[value_start..len]))
}

/// Whether an RFC 8187 charset is one this parser decodes.
pub fn validate_charset(charset: &[u8], offset: usize) -> (r: Result<(), Error>)
    ensures
        (spec_eq_ignore_case(charset@, spec_utf8_charset()) || spec_eq_ignore_case(
            charset@,
            spec_us_ascii_charset(),
        )) ==> r is Ok,
        !(spec_eq_ignore_case(charset@, spec_utf8_charset()) || spec_eq_ignore_case(
            charset@,
            spec_us_ascii_charset(),
        )) ==> r == Err::<(), Error>(Error::InvalidContentDisposition { offset }),
{
    let utf8 = utf8_charset();
    let ascii = us_ascii_charset();
    if eq_ignore_ascii_case(charset, &utf8) || eq_ignore_ascii_case(charset, &ascii) {
        return Ok(());
    }
    Err(Error::InvalidContentDisposition { offset })
}

/// Decodes a `filename*` value.
pub fn decode_extended_value<'a>(value: TextValue<'a>, offset: usize) -> (r: Result<
    TextValue<'a>,
    Error,
>)
    requires
        offset + value@.bytes.len() <= usize::MAX,
    ensures
        match spec_decode_extended(value@, offset) {
            Ok(t) => r matches Ok(v) && v@ == t,
            Err(e) => r == Err::<TextValue<'a>, Error>(e),
        },
{
    match value {
        TextValue::Borrowed(bytes) => decode_extended_borrowed(bytes, offset),
        TextValue::Owned(bytes) => decode_extended_owned(text_buf_as_slice(&bytes), offset),
    }
}

fn decode_extended_borrowed<'a>(bytes: &'a [u8], offset: usize) -> (r: Result<TextValue<'a>, Error>)
    requires
        offset + bytes@.len() <= usize::MAX,
    ensures
        match spec_decode_extended(SpecText { bytes: bytes@, owned: false }, offset) {
            Ok(t) => r matches Ok(v) && v@ == t,
            Err(e) => r == Err::<TextValue<'a>, Error>(e),
        },
{
    let (charset, encoded) = match split_extended_value(bytes, offset) {
        Ok(parts) => parts,
        Err(e) => {
            return Err(e);
        },
    };
    match validate_charset(charset, offset) {
        Ok(()) => {},
        Err(e) => {
            return Err(e);
        },
    }
    if memchr(0x25u8, encoded).is_none() {
        return Ok(TextValue::Borrowed(encoded));
    }
    match percent_decode(encoded, offset) {
        Ok(decoded) => Ok(TextValue::Owned(decoded)),
        Err(e) => Err(e),
    }
}

fn decode_extended_owned<'a>(bytes: &[u8], offset: usize) -> (r: Result<TextValue<'a>, Error>)
    requires
        offset + bytes@.len() <= usize::MAX,
    ensures
        match spec_decode_extended(SpecText { bytes: bytes@, owned: true }, offset) {
            Ok(t) => r matches Ok(v) && v@ == t,
            Err(e) => r == Err::<TextValue<'a>, Error>(e),
        },
{
    let (charset, encoded) = match split_extended_value(bytes, offset) {
        Ok(parts) => parts,
        Err(e) => {
            return Err(e);
        },
    };
    match validate_charset(charset, offset) {
        Ok(()) => {},
        Err(e) => {
            return Err(e);
        },
    }
    if memchr(0x25u8, encoded).is_none() {
        let owned = super::push_range(text_buf_new(), encoded, 0, encoded.len());
        proof {
            assert(text_buf_bytes(owned) =~= encoded@);
        }
        return Ok(TextValue::Owned(owned));
    }
    match percent_decode(encoded, offset) {
        Ok(decoded) => Ok(TextValue::Owned(decoded)),
        Err(e) => Err(e),
    }
}

} // verus!
