//! Contracts for the calls this crate makes into `memchr`, `smallvec` and `core::str`.
use vstd::prelude::*;
use vstd::string::StringSliceAdditionalSpecFns;
use vstd::utf8::valid_utf8;
use smallvec::SmallVec;

use crate::header::Header;
use crate::part::{Part, SpecPart};

verus! {

/// Position of the first occurrence of `needle` in `s`, if any.
pub open spec fn first_index_of(s: Seq<u8>, needle: u8) -> Option<int>
    decreases s.len(),
{
    if s.len() == 0 {
        None
    } else if s[0] == needle {
        Some(0)
    } else {
        match first_index_of(s.drop_first(), needle) {
            Some(i) => Some(i + 1),
            None => None,
        }
    }
}

pub proof fn lemma_first_index_of(s: Seq<u8>, needle: u8)
    ensures
        match first_index_of(s, needle) {
            Some(i) => 0 <= i < s.len() && s[i] == needle
                && forall|j: int| 0 <= j < i ==> s[j] != needle,
            None => forall|j: int| 0 <= j < s.len() ==> s[j] != needle,
        },
    decreases s.len(),
{
    if s.len() > 0 {
        lemma_first_index_of(s.drop_first(), needle);
        if s[0] != needle {
            assert forall|j: int| 1 <= j < s.len() implies s[j] == s.drop_first()[j - 1] by {}
        }
    }
}

/// `memchr::memchr`: the index of the first byte of `haystack` equal to
/// `needle`, or `None` when no byte is equal to it.
#[verifier::external_body]
pub(crate) fn memchr(needle: u8, haystack: &[u8]) -> (r: Option<usize>)
    ensures
        r matches Some(i) ==> first_index_of(haystack@, needle) == Some(i as int),
        r is None ==> first_index_of(haystack@, needle) is None,
{
    memchr::memchr(needle, haystack)
}

/// The bytes of a decoded text value, kept inline up to 32 bytes: a
/// `SmallVec<[u8; 32]>` in a private field.
#[derive(Debug, PartialEq, Eq)]
#[verifier::external_body]
pub struct TextBuf {
    bytes: SmallVec<[u8; 32]>,
}

/// The bytes that a `TextBuf` holds, in order.
pub uninterp spec fn text_buf_bytes(b: TextBuf) -> Seq<u8>;

/// `SmallVec::from_vec`: a buffer that holds exactly the items of `v`, in order.
#[verifier::external_body]
pub(crate) fn text_buf_from_vec(v: Vec<u8>) -> (r: TextBuf)
    ensures
        text_buf_bytes(r) == v@,
{
    TextBuf { bytes: SmallVec::from_vec(v) }
}

/// `SmallVec::as_slice`: the items of the buffer, in order.
#[verifier::external_body]
pub(crate) fn text_buf_as_slice(b: &TextBuf) -> (r: &[u8])
    ensures
        r@ == text_buf_bytes(*b),
{
    b.bytes.as_slice()
}

/// `SmallVec::new`: an empty buffer, with no allocation.
#[verifier::external_body]
pub(crate) fn text_buf_new() -> (r: TextBuf)
    ensures
        text_buf_bytes(r) == Seq::<u8>::empty(),
{
    TextBuf { bytes: SmallVec::new() }
}

/// `SmallVec::len`: how many bytes the buffer holds.
#[verifier::external_body]
pub(crate) fn text_buf_len(b: &TextBuf) -> (r: usize)
    ensures
        r == text_buf_bytes(*b).len(),
{
    b.bytes.len()
}

/// `SmallVec::push` while fewer than the 32 inline bytes are held: the capacity
/// (32, or more once spilled) exceeds the length, so no allocation is made and
/// the call cannot fail.
#[verifier::external_body]
pub(crate) fn text_buf_push_within_inline(b: &mut TextBuf, x: u8)
    requires
        text_buf_bytes(*old(b)).len() < 32,
    ensures
        text_buf_bytes(*final(b)) == text_buf_bytes(*old(b)).push(x),
{
    b.bytes.push(x)
}

/// `SmallVec::into_vec`: the held bytes, in order, as a `Vec` (reusing the heap
/// buffer once spilled).
#[verifier::external_body]
pub(crate) fn text_buf_into_vec(b: TextBuf) -> (r: Vec<u8>)
    ensures
        r@ == text_buf_bytes(b),
{
    b.bytes.into_vec()
}

/// An inline byte buffer for a boundary's opening line: a `SmallVec<[u8; 72]>`
/// held privately, as for `TextBuf`.
#[derive(Debug, PartialEq, Eq)]
#[verifier::external_body]
pub struct OpeningBuf {
    bytes: SmallVec<[u8; 72]>,
}

/// The bytes that an `OpeningBuf` holds, in order.
pub uninterp spec fn opening_buf_bytes(b: OpeningBuf) -> Seq<u8>;

/// `SmallVec::with_capacity`: an empty buffer. A capacity within the inline 72
/// bytes needs no allocation, so the call cannot fail.
#[verifier::external_body]
pub(crate) fn opening_buf_with_capacity(n: usize) -> (r: OpeningBuf)
    requires
        n <= 72,
    ensures
        opening_buf_bytes(r) == Seq::<u8>::empty(),
{
    OpeningBuf { bytes: SmallVec::with_capacity(n) }
}

/// `SmallVec::extend_from_slice`: appends the bytes of `s`. While the total stays
/// within the inline 72 bytes no allocation is needed, so the call cannot fail.
#[verifier::external_body]
pub(crate) fn opening_buf_extend_from_slice(b: &mut OpeningBuf, s: &[u8])
    requires
        opening_buf_bytes(*old(b)).len() + s@.len() <= 72,
    ensures
        opening_buf_bytes(*final(b)) == opening_buf_bytes(*old(b)) + s@,
{
    b.bytes.extend_from_slice(s)
}

/// `SmallVec::as_slice`: the bytes of the buffer, in order.
#[verifier::external_body]
pub(crate) fn opening_buf_as_slice(b: &OpeningBuf) -> (r: &[u8])
    ensures
        r@ == opening_buf_bytes(*b),
{
    b.bytes.as_slice()
}

/// The headers of a part: a `SmallVec<[Header; 4]>` held privately, as for `TextBuf`.
#[derive(Debug)]
#[verifier::external_body]
pub struct HeaderList<'a> {
    headers: SmallVec<[Header<'a>; 4]>,
}

/// The headers a `HeaderList` holds, each as its name and value, in order.
pub uninterp spec fn header_list_items(l: HeaderList<'_>) -> Seq<(Seq<u8>, Seq<u8>)>;

/// `SmallVec::from_vec`: a list that holds exactly the headers of `v`, in order.
#[verifier::external_body]
pub(crate) fn header_list_from_vec<'a>(v: Vec<Header<'a>>) -> (r: HeaderList<'a>)
    ensures
        header_list_items(r) == v@.map_values(|h: Header<'a>| h@),
{
    HeaderList { headers: SmallVec::from_vec(v) }
}

/// `SmallVec::as_slice`: the headers of the list, in order.
#[verifier::external_body]
pub(crate) fn header_list_as_slice<'b, 'a>(l: &'b HeaderList<'a>) -> (r: &'b [Header<'a>])
    ensures
        r@.map_values(|h: Header<'a>| h@) == header_list_items(*l),
{
    l.headers.as_slice()
}

/// `SmallVec::new`: an empty list, with no allocation.
#[verifier::external_body]
pub(crate) fn header_list_new<'a>() -> (r: HeaderList<'a>)
    ensures
        header_list_items(r) == Seq::<(Seq<u8>, Seq<u8>)>::empty(),
{
    HeaderList { headers: SmallVec::new() }
}

/// `SmallVec::len`: how many headers the list holds.
#[verifier::external_body]
pub(crate) fn header_list_len(l: &HeaderList<'_>) -> (r: usize)
    ensures
        r == header_list_items(*l).len(),
{
    l.headers.len()
}

/// `SmallVec::push` while fewer than the 4 inline headers are held: the capacity
/// exceeds the length, so no allocation is made and the call cannot fail.
#[verifier::external_body]
pub(crate) fn header_list_push_within_inline<'a>(l: &mut HeaderList<'a>, h: Header<'a>)
    requires
        header_list_items(*old(l)).len() < 4,
    ensures
        header_list_items(*final(l)) == header_list_items(*old(l)).push(h@),
{
    l.headers.push(h)
}

/// `SmallVec::into_vec`: the held headers, in order, as a `Vec`.
#[verifier::external_body]
pub(crate) fn header_list_into_vec<'a>(l: HeaderList<'a>) -> (r: Vec<Header<'a>>)
    ensures
        r@.map_values(|h: Header<'a>| h@) == header_list_items(l),
{
    l.headers.into_vec()
}

/// The parts of a multipart body: a `SmallVec<[Part; 4]>` held privately, as for `TextBuf`.
#[derive(Debug)]
#[verifier::external_body]
pub struct PartList<'a> {
    parts: SmallVec<[Part<'a>; 4]>,
}

/// The parts a `PartList` holds, each by its model, in order.
pub uninterp spec fn part_list_items(l: PartList<'_>) -> Seq<SpecPart>;

/// `SmallVec::from_vec`: a list that holds exactly the parts of `v`, in order.
#[verifier::external_body]
pub(crate) fn part_list_from_vec<'a>(v: Vec<Part<'a>>) -> (r: PartList<'a>)
    ensures
        part_list_items(r) == v@.map_values(|p: Part<'a>| p@),
{
    PartList { parts: SmallVec::from_vec(v) }
}

/// `SmallVec::as_slice`: the parts of the list, in order.
#[verifier::external_body]
pub(crate) fn part_list_as_slice<'b, 'a>(l: &'b PartList<'a>) -> (r: &'b [Part<'a>])
    ensures
        r@.map_values(|p: Part<'a>| p@) == part_list_items(*l),
{
    l.parts.as_slice()
}

/// `SmallVec::new`: an empty list, with no allocation.
#[verifier::external_body]
pub(crate) fn part_list_new<'a>() -> (r: PartList<'a>)
    ensures
        part_list_items(r) == Seq::<SpecPart>::empty(),
{
    PartList { parts: SmallVec::new() }
}

/// `SmallVec::len`: how many parts the list holds.
#[verifier::external_body]
pub(crate) fn part_list_len(l: &PartList<'_>) -> (r: usize)
    ensures
        r == part_list_items(*l).len(),
{
    l.parts.len()
}

/// `SmallVec::push` while fewer than the 4 inline parts are held: the capacity
/// exceeds the length, so no allocation is made and the call cannot fail.
#[verifier::external_body]
pub(crate) fn part_list_push_within_inline<'a>(l: &mut PartList<'a>, p: Part<'a>)
    requires
        part_list_items(*old(l)).len() < 4,
    ensures
        part_list_items(*final(l)) == part_list_items(*old(l)).push(p@),
{
    l.parts.push(p)
}

/// `SmallVec::into_vec`: the held parts, in order, as a `Vec`.
#[verifier::external_body]
pub(crate) fn part_list_into_vec<'a>(l: PartList<'a>) -> (r: Vec<Part<'a>>)
    ensures
        r@.map_values(|p: Part<'a>| p@) == part_list_items(l),
{
    l.parts.into_vec()
}

#[verifier::external_type_specification]
#[verifier::external_body]
pub struct ExUtf8Error(core::str::Utf8Error);

/// `core::str::from_utf8`: `Ok` exactly when the bytes are valid UTF-8, and then
/// the text whose encoding they are.
#[verifier::external_body]
pub(crate) fn str_from_utf8(v: &[u8]) -> (r: Result<&str, core::str::Utf8Error>)
    ensures
        r is Ok <==> valid_utf8(v@),
        r matches Ok(s) ==> s.spec_bytes() == v@,
{
    core::str::from_utf8(v)
}

} // verus!
