//! The `Content-Disposition` header of a part (RFC 7578 section 4.2).
mod decode;

use vstd::prelude::*;

use crate::boundary::{
    lemma_find_eq_or_semi, lemma_find_semi, spec_find_eq_or_semi, spec_find_semi,
};
use crate::buffers::text_buf_pushed;
use crate::deps::{first_index_of, lemma_first_index_of, memchr, text_buf_bytes, text_buf_new, TextBuf};
use crate::error::Error;
use crate::names::{
    file_kind, filename_param, filename_star_param, form_data_kind, name_param, spec_file_kind,
    spec_filename_param, spec_filename_star_param, spec_form_data_kind, spec_name_param,
};
use crate::text::{SpecText, TextValue};
use crate::util::{
    eq_ignore_ascii_case, lemma_skip_ws, lemma_trim, skip_ascii_whitespace, spec_eq_ignore_case,
    spec_skip_ws, spec_trim, trim_ascii,
};

pub use self::decode::{
    decode_extended_value, decode_html_name_escapes, spec_decode_extended, spec_html_decode,
    spec_hex, spec_html_unescape, spec_percent_decode, spec_split_extended,
};

verus! {

/// The disposition type of a part.
#[derive(Debug, Clone, Copy, PartialEq, Eq, Structural)]
pub enum DispositionKind {
    FormData,
    File,
}

/// A parsed `Content-Disposition` value.
#[derive(Debug, PartialEq, Eq)]
pub struct ContentDisposition<'a> {
    pub kind: DispositionKind,
    pub name: Option<TextValue<'a>>,
    pub file_name: Option<TextValue<'a>>,
}

/// The model of a `ContentDisposition`.
pub struct SpecDisposition {
    pub kind: DispositionKind,
    pub name: Option<SpecText>,
    pub file_name: Option<SpecText>,
}

/// The model of an optional text value.
pub open spec fn opt_text(o: Option<TextValue<'_>>) -> Option<SpecText> {
    match o {
        Some(t) => Some(t@),
        None => None,
    }
}

impl<'a> View for ContentDisposition<'a> {
    type V = SpecDisposition;

    open spec fn view(&self) -> SpecDisposition {
        SpecDisposition {
            kind: self.kind,
            name: opt_text(self.name),
            file_name: opt_text(self.file_name),
        }
    }
}

/// The disposition type named by `v` (ASCII case-insensitively).
pub open spec fn spec_disposition_kind(v: Seq<u8>, offset: usize) -> Result<DispositionKind, Error> {
    if spec_eq_ignore_case(v, spec_form_data_kind()) {
        Ok(DispositionKind::FormData)
    } else if spec_eq_ignore_case(v, spec_file_kind()) {
        Ok(DispositionKind::File)
    } else {
        Err(Error::InvalidContentDisposition { offset })
    }
}

/// The text of a quoted parameter value from `i` on (backslash escapes removed),
/// where its closing quote is, and whether it held an escape; `start` is where the
/// text starts and `offset` where the header value starts in the body.
pub open spec fn spec_quoted(v: Seq<u8>, start: int, i: int, offset: usize) -> Result<
    (Seq<u8>, int, bool),
    Error,
>
    decreases v.len() - i,
{
    if i < 0 || i >= v.len() {
        Err(Error::InvalidContentDisposition { offset: (offset + start) as usize })
    } else if v[i] == 0x22u8 {
        Ok((Seq::empty(), i, false))
    } else if v[i] == 0x5Cu8 {
        if i + 1 >= v.len() {
            Err(Error::InvalidContentDisposition { offset: (offset + i) as usize })
        } else {
            match spec_quoted(v, start, i + 2, offset) {
                Ok((d, q, _)) => Ok((seq![v[i + 1]] + d, q, true)),
                Err(e) => Err(e),
            }
        }
    } else {
        match spec_quoted(v, start, i + 1, offset) {
            Ok((d, q, escaped)) => Ok((seq![v[i]] + d, q, escaped)),
            Err(e) => Err(e),
        }
    }
}

/// The parameter value that starts at `start`, and where the parameter ends.
pub open spec fn spec_param_value(v: Seq<u8>, start: int, offset: usize) -> Result<(SpecText, int), Error> {
    if start < 0 || start >= v.len() {
        Err(Error::InvalidContentDisposition { offset })
    } else if v[start] == 0x22u8 {
        match spec_quoted(v, start + 1, start + 1, offset) {
            Ok((d, q, escaped)) => Ok((SpecText { bytes: d, owned: escaped }, q + 1)),
            Err(e) => Err(e),
        }
    } else {
        let c = spec_find_semi(v, start);
        let token = spec_trim(v.subrange(start, c));
        if token.len() == 0 {
            Err(Error::InvalidContentDisposition { offset: (offset + start) as usize })
        } else {
            Ok((SpecText { bytes: token, owned: false }, c))
        }
    }
}

pub proof fn lemma_quoted(v: Seq<u8>, start: int, i: int, offset: usize)
    requires
        0 <= i <= v.len(),
    ensures
        spec_quoted(v, start, i, offset) matches Ok((d, q, escaped)) ==> {
            &&& i <= q < v.len()
            &&& v[q] == 0x22u8
            &&& d.len() <= q - i
            &&& !escaped ==> d == v.subrange(i, q)
        },
    decreases v.len() - i,
{
    if i < v.len() && v[i] != 0x22u8 {
        if v[i] == 0x5Cu8 {
            if i + 1 < v.len() {
                lemma_quoted(v, start, i + 2, offset);
            }
        } else {
            lemma_quoted(v, start, i + 1, offset);
            if let Ok((d, q, escaped)) = spec_quoted(v, start, i + 1, offset) {
                if !escaped {
                    assert(seq![v[i]] + d =~= v.subrange(i, q));
                }
            }
        }
    } else if i < v.len() {
        assert(v.subrange(i, i) =~= Seq::<u8>::empty());
    }
}

pub proof fn lemma_param_value(v: Seq<u8>, start: int, offset: usize)
    requires
        0 <= start <= v.len(),
    ensures
        spec_param_value(v, start, offset) matches Ok((t, next)) ==> start < next <= v.len()
            && t.bytes.len() <= next - start,
{
    if start < v.len() {
        if v[start] == 0x22u8 {
            lemma_quoted(v, start + 1, start + 1, offset);
        } else {
            lemma_find_semi(v, start);
            lemma_trim(v.subrange(start, spec_find_semi(v, start)));
        }
    }
}

/// The `name`, `filename` and `filename*` values among the parameters from
/// `cursor` on, the first of each kept; `name`, `file` and `star` are the ones
/// read before `cursor`.
pub open spec fn spec_cd_params(
    v: Seq<u8>,
    offset: usize,
    cursor: int,
    name: Option<SpecText>,
    file: Option<SpecText>,
    star: Option<SpecText>,
) -> Result<(Option<SpecText>, Option<SpecText>, Option<SpecText>), Error>
    decreases v.len() - cursor,
{
    if cursor < 0 || cursor >= v.len() {
        Ok((name, file, star))
    } else if v[cursor] != 0x3Bu8 {
        Err(Error::InvalidContentDisposition { offset: (offset + cursor) as usize })
    } else {
        let c1 = spec_skip_ws(v, cursor + 1);
        if c1 >= v.len() {
            Ok((name, file, star))
        } else {
            let c2 = spec_find_eq_or_semi(v, c1);
            let pname = spec_trim(v.subrange(c1, c2));
            if pname.len() == 0 || c2 >= v.len() || v[c2] != 0x3Du8 {
                Err(Error::InvalidContentDisposition { offset: (offset + c1) as usize })
            } else {
                let c3 = spec_skip_ws(v, c2 + 1);
                match spec_param_value(v, c3, offset) {
                    Err(e) => Err(e),
                    Ok((pv, next)) => {
                        let after = spec_skip_ws(v, next);
                        proof {
                            lemma_skip_ws(v, cursor + 1);
                            lemma_find_eq_or_semi(v, c1);
                            lemma_skip_ws(v, c2 + 1);
                            lemma_param_value(v, c3, offset);
                            lemma_skip_ws(v, next);
                        }
                        if spec_eq_ignore_case(pname, spec_name_param()) {
                            let name2 = if name is None {
                                Some(spec_html_unescape(pv))
                            } else {
                                name
                            };
                            spec_cd_params(v, offset, after, name2, file, star)
                        } else if spec_eq_ignore_case(pname, spec_filename_param()) {
                            let file2 = if file is None {
                                Some(spec_html_unescape(pv))
                            } else {
                                file
                            };
                            spec_cd_params(v, offset, after, name, file2, star)
                        } else if spec_eq_ignore_case(pname, spec_filename_star_param())
                            && star is None {
                            match spec_decode_extended(pv, (offset + c3) as usize) {
                                Err(e) => Err(e),
                                Ok(x) => spec_cd_params(v, offset, after, name, file, Some(x)),
                            }
                        } else {
                            spec_cd_params(v, offset, after, name, file, star)
                        }
                    },
                }
            }
        }
    }
}

/// The end of the disposition type: the first `;`, or the end of the value.
pub open spec fn spec_disposition_end(v: Seq<u8>) -> int {
    match first_index_of(v, 0x3Bu8) {
        Some(i) => i,
        None => v.len() as int,
    }
}

/// A `Content-Disposition` value parsed: its type, its first `name`, and its
/// first `filename*` (decoded) or else its first `filename`; `offset` is where
/// the value's header line starts in the body.
pub open spec fn spec_parse_content_disposition(v: Seq<u8>, offset: usize) -> Result<
    SpecDisposition,
    Error,
> {
    let end = spec_disposition_end(v);
    match spec_disposition_kind(spec_trim(v.subrange(0, end)), offset) {
        Err(e) => Err(e),
        Ok(kind) => match spec_cd_params(v, offset, end, None, None, None) {
            Err(e) => Err(e),
            Ok((name, file, star)) => Ok(
                SpecDisposition {
                    kind,
                    name,
                    file_name: if star is Some {
                        star
                    } else {
                        file
                    },
                },
            ),
        },
    }
}

pub fn parse_disposition_kind(value: &[u8], offset: usize) -> (r: Result<DispositionKind, Error>)
    ensures
        r == spec_disposition_kind(value@, offset),
{
    let form_data = form_data_kind();
    if eq_ignore_ascii_case(value, &form_data) {
        return Ok(DispositionKind::FormData);
    }
    let file = file_kind();
    if eq_ignore_ascii_case(value, &file) {
        return Ok(DispositionKind::File);
    }
    Err(Error::InvalidContentDisposition { offset })
}

/// `p` put in front of the text that a quoted value scan yields.
pub open spec fn spec_prepend_quoted(
    p: Seq<u8>,
    escaped: bool,
    r: Result<(Seq<u8>, int, bool), Error>,
) -> Result<(Seq<u8>, int, bool), Error> {
    match r {
        Ok((d, q, e)) => Ok((p + d, q, escaped || e)),
        Err(x) => Err(x),
    }
}

/// The bytes held so far, if any.
pub open spec fn opt_bytes(o: Option<TextBuf>) -> Seq<u8> {
    match o {
        Some(v) => text_buf_bytes(v),
        None => Seq::empty(),
    }
}

/// `out` with `value[from..to]` appended.
fn push_range(out: TextBuf, value: &[u8], from: usize, to: usize) -> (r: TextBuf)
    requires
        from <= to <= value@.len(),
    ensures
        text_buf_bytes(r) == text_buf_bytes(out) + value@.subrange(from as int, to as int),
{
    let mut buf = out;
    let mut k = from;
    while k < to
        invariant
            from <= k <= to <= value@.len(),
            text_buf_bytes(buf) == text_buf_bytes(out) + value@.subrange(from as int, k as int),
        decreases to - k,
    {
        buf = text_buf_pushed(buf, value[k]);
        proof {
            assert(value@.subrange(from as int, k + 1) =~= value@.subrange(from as int, k as int)
                + seq![value@[k as int]]);
        }
        k += 1;
    }
    buf
}

/// Reads a quoted parameter value whose text starts at `start` (after the quote).
fn parse_quoted_value<'a>(value: &'a [u8], start: usize, offset: usize) -> (r: Result<
    (TextValue<'a>, usize),
    Error,
>)
    requires
        start <= value@.len(),
        offset + value@.len() <= usize::MAX,
    ensures
        match spec_quoted(value@, start as int, start as int, offset) {
            Ok((d, q, escaped)) => r matches Ok((t, n)) && t@ == SpecText { bytes: d, owned: escaped }
                && n == q + 1,
            Err(e) => r == Err::<(TextValue<'a>, usize), Error>(e),
        },
{
    let len = value.len();
    let mut cursor = start;
    let mut copied_from = start;
    let mut owned: Option<TextBuf> = None;
    while cursor < len
        invariant
            len == value@.len(),
            offset + len <= usize::MAX,
            start <= copied_from <= cursor <= len,
            owned is None ==> copied_from == start,
            spec_quoted(value@, start as int, start as int, offset) == spec_prepend_quoted(
                opt_bytes(owned) + value@.subrange(copied_from as int, cursor as int),
                owned is Some,
                spec_quoted(value@, start as int, cursor as int, offset),
            ),
        decreases len - cursor,
    {
        if value[cursor] == 0x22u8 {
            match owned {
                None => {
                    proof {
                        assert(Seq::<u8>::empty() + value@.subrange(start as int, cursor as int)
                            + Seq::<u8>::empty() =~= value@.subrange(start as int, cursor as int));
                    }
                    return Ok((TextValue::Borrowed(&value[start..cursor]), cursor + 1));
                },
                Some(o) => {
                    let ghost before = text_buf_bytes(o);
                    let o = push_range(o, value, copied_from, cursor);
                    proof {
                        assert(text_buf_bytes(o) + Seq::<u8>::empty() =~= before + value@.subrange(
                            copied_from as int,
                            cursor as int,
                        ) + Seq::<u8>::empty());
                    }
                    return Ok((TextValue::Owned(o), cursor + 1));
                },
            }
        } else if value[cursor] == 0x5Cu8 {
            if len - cursor == 1 {
                return Err(Error::InvalidContentDisposition { offset: offset + cursor });
            }
            let o = match owned {
                Some(o) => o,
                None => text_buf_new(),
            };
            let ghost before = text_buf_bytes(o);
            let o = push_range(o, value, copied_from, cursor);
            let o = text_buf_pushed(o, value[cursor + 1]);
            proof {
                let p = before + value@.subrange(copied_from as int, cursor as int);
                assert(text_buf_bytes(o) =~= p + seq![value@[cursor + 1]]);
                assert(value@.subrange(cursor + 2, cursor + 2) =~= Seq::<u8>::empty());
                match spec_quoted(value@, start as int, cursor + 2, offset) {
                    Ok((d, q, e)) => {
                        assert(p + (seq![value@[cursor + 1]] + d) =~= text_buf_bytes(o)
                            + Seq::<u8>::empty() + d);
                    },
                    Err(_) => {},
                }
            }
            cursor += 2;
            copied_from = cursor;
            owned = Some(o);
        } else {
            proof {
                let p = opt_bytes(owned);
                match spec_quoted(value@, start as int, cursor + 1, offset) {
                    Ok((d, q, e)) => {
                        assert(p + value@.subrange(copied_from as int, cursor as int) + (
                        seq![value@[cursor as int]] + d) =~= p + value@.subrange(
                            copied_from as int,
                            cursor + 1,
                        ) + d);
                    },
                    Err(_) => {},
                }
            }
            cursor += 1;
        }
    }
    Err(Error::InvalidContentDisposition { offset: offset + start })
}

/// Reads the parameter value that starts at `start`, quoted or a token.
fn parse_parameter_value<'a>(value: &'a [u8], start: usize, offset: usize) -> (r: Result<
    (TextValue<'a>, usize),
    Error,
>)
    requires
        start <= value@.len(),
        offset + value@.len() <= usize::MAX,
    ensures
        match spec_param_value(value@, start as int, offset) {
            Ok((t, next)) => r matches Ok((tv, n)) && tv@ == t && n == next,
            Err(e) => r == Err::<(TextValue<'a>, usize), Error>(e),
        },
{
    let len = value.len();
    if start == len {
        return Err(Error::InvalidContentDisposition { offset });
    }
    if value[start] == 0x22u8 {
        return parse_quoted_value(value, start + 1, offset);
    }
    let mut cursor = start;
    while cursor < len && value[cursor] != 0x3Bu8
        invariant
            len == value@.len(),
            start <= cursor <= len,
            spec_find_semi(value@, cursor as int) == spec_find_semi(value@, start as int),
        decreases len - cursor,
    {
        cursor += 1;
    }
    let token = trim_ascii(&value[start..cursor]);
    if token.len() == 0 {
        return Err(Error::InvalidContentDisposition { offset: offset + start });
    }
    Ok((TextValue::Borrowed(token), cursor))
}

/// Parses a `Content-Disposition` value; `offset` is where its header line starts
/// in the body and is what errors report.
pub fn parse_content_disposition<'a>(value: &'a [u8], offset: usize) -> (r: Result<
    ContentDisposition<'a>,
    Error,
>)
    requires
        offset + value@.len() <= usize::MAX,
    ensures
        match spec_parse_content_disposition(value@, offset) {
            Ok(d) => r matches Ok(cd) && cd@ == d,
            Err(e) => r == Err::<ContentDisposition<'a>, Error>(e),
        },
{
    let len = value.len();
    let disposition_end = match memchr(0x3Bu8, value) {
        Some(i) => i,
        None => len,
    };
    proof {
        lemma_first_index_of(value@, 0x3Bu8);
    }
    let disposition = trim_ascii(&value[0..disposition_end]);
    let kind = match parse_disposition_kind(disposition, offset) {
        Ok(k) => k,
        Err(e) => {
            return Err(e);
        },
    };
    let mut cursor = disposition_end;
    let mut name: Option<TextValue<'a>> = None;
    let mut file_name: Option<TextValue<'a>> = None;
    let mut file_name_star: Option<TextValue<'a>> = None;
    let ghost whole = spec_cd_params(value@, offset, disposition_end as int, None, None, None);
    while cursor < len
        invariant
            len == value@.len(),
            offset + len <= usize::MAX,
            cursor <= len,
            disposition_end as int == spec_disposition_end(value@),
            disposition_end <= len,
            spec_disposition_kind(spec_trim(value@.subrange(0, disposition_end as int)), offset)
                == Ok::<DispositionKind, Error>(kind),
            whole == spec_cd_params(value@, offset, disposition_end as int, None, None, None),
            whole == spec_cd_params(
                value@,
                offset,
                cursor as int,
                opt_text(name),
                opt_text(file_name),
                opt_text(file_name_star),
            ),
        ensures
            whole == Ok::<(Option<SpecText>, Option<SpecText>, Option<SpecText>), Error>(
                (opt_text(name), opt_text(file_name), opt_text(file_name_star)),
            ),
            spec_disposition_kind(spec_trim(value@.subrange(0, disposition_end as int)), offset)
                == Ok::<DispositionKind, Error>(kind),
            whole == spec_cd_params(value@, offset, disposition_end as int, None, None, None),
            disposition_end as int == spec_disposition_end(value@),
        decreases len - cursor,
    {
        if value[cursor] != 0x3Bu8 {
            return Err(Error::InvalidContentDisposition { offset: offset + cursor });
        }
        let semi = cursor;
        cursor = skip_ascii_whitespace(value, cursor + 1);
        proof {
            lemma_skip_ws(value@, semi + 1);
        }
        if cursor == len {
            break;
        }
        let name_start = cursor;
        while cursor < len && value[cursor] != 0x3Du8 && value[cursor] != 0x3Bu8
            invariant
                len == value@.len(),
                name_start <= cursor <= len,
                spec_find_eq_or_semi(value@, cursor as int) == spec_find_eq_or_semi(
                    value@,
                    name_start as int,
                ),
            decreases len - cursor,
        {
            cursor += 1;
        }
        let parameter_name = trim_ascii(&value[name_start..cursor]);
        if parameter_name.len() == 0 || cursor == len || value[cursor] != 0x3Du8 {
            return Err(Error::InvalidContentDisposition { offset: offset + name_start });
        }
        let eq_pos = cursor;
        cursor = skip_ascii_whitespace(value, cursor + 1);
        proof {
            lemma_skip_ws(value@, eq_pos + 1);
        }
        let value_start = cursor;
        let (parameter_value, next) = match parse_parameter_value(value, cursor, offset) {
            Ok(pair) => pair,
            Err(e) => {
                return Err(e);
            },
        };
        proof {
            lemma_param_value(value@, value_start as int, offset);
        }
        let name_key = name_param();
        let filename_key = filename_param();
        let filename_star_key = filename_star_param();
        if eq_ignore_ascii_case(parameter_name, &name_key) {
            if name.is_none() {
                name = Some(decode_html_name_escapes(parameter_value));
            }
        } else if eq_ignore_ascii_case(parameter_name, &filename_key) {
            if file_name.is_none() {
                file_name = Some(decode_html_name_escapes(parameter_value));
            }
        } else if eq_ignore_ascii_case(parameter_name, &filename_star_key)
            && file_name_star.is_none() {
            match decode_extended_value(parameter_value, offset + value_start) {
                Ok(decoded) => {
                    file_name_star = Some(decoded);
                },
                Err(e) => {
                    return Err(e);
                },
            }
        }
        cursor = skip_ascii_whitespace(value, next);
        proof {
            lemma_skip_ws(value@, next as int);
        }
    }
    let file_name = match file_name_star {
        Some(star) => Some(star),
        None => file_name,
    };
    Ok(ContentDisposition { kind, name, file_name })
}

} // verus!
