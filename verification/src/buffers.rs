//! Appending to the inline-first buffers: in place while the inline part has
//! room, and through a `Vec` once it is full, so that growth never goes through
//! a reallocation whose failure nothing here could rule out.
use vstd::prelude::*;

use crate::deps::{
    header_list_from_vec, header_list_into_vec, header_list_items, header_list_len,
    header_list_push_within_inline, part_list_from_vec, part_list_into_vec, part_list_items,
    part_list_len, part_list_push_within_inline, text_buf_bytes, text_buf_from_vec,
    text_buf_into_vec, text_buf_len, text_buf_push_within_inline, HeaderList, PartList, TextBuf,
};
use crate::header::Header;
use crate::part::Part;

verus! {

/// `buf` with `x` appended.
pub(crate) fn text_buf_pushed(buf: TextBuf, x: u8) -> (r: TextBuf)
    ensures
        text_buf_bytes(r) == text_buf_bytes(buf).push(x),
{
    let mut out = buf;
    if text_buf_len(&out) < 32 {
        text_buf_push_within_inline(&mut out, x);
        out
    } else {
        let mut v = text_buf_into_vec(out);
        v.push(x);
        text_buf_from_vec(v)
    }
}

/// `list` with `h` appended.
pub(crate) fn header_list_pushed<'a>(list: HeaderList<'a>, h: Header<'a>) -> (r: HeaderList<'a>)
    ensures
        header_list_items(r) == header_list_items(list).push(h@),
{
    let mut out = list;
    if header_list_len(&out) < 4 {
        header_list_push_within_inline(&mut out, h);
        out
    } else {
        let mut v = header_list_into_vec(out);
        let ghost before = v@;
        v.push(h);
        proof {
            assert(v@.map_values(|x: Header<'a>| x@) =~= before.map_values(|x: Header<'a>| x@).push(
                h@,
            ));
        }
        header_list_from_vec(v)
    }
}

/// `list` with `p` appended.
pub(crate) fn part_list_pushed<'a>(list: PartList<'a>, p: Part<'a>) -> (r: PartList<'a>)
    ensures
        part_list_items(r) == part_list_items(list).push(p@),
{
    let mut out = list;
    if part_list_len(&out) < 4 {
        part_list_push_within_inline(&mut out, p);
        out
    } else {
        let mut v = part_list_into_vec(out);
        let ghost before = v@;
        v.push(p);
        proof {
            assert(v@.map_values(|x: Part<'a>| x@) =~= before.map_values(|x: Part<'a>| x@).push(
                p@,
            ));
        }
        part_list_from_vec(v)
    }
}

} // verus!
