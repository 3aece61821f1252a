//! The fixed byte strings the parser compares against.
use vstd::prelude::*;

verus! {

/// `multipart/`
pub open spec fn spec_multipart_prefix() -> Seq<u8> {
    seq![0x6Du8, 0x75u8, 0x6Cu8, 0x74u8, 0x69u8, 0x70u8, 0x61u8, 0x72u8, 0x74u8, 0x2Fu8]
}

pub fn multipart_prefix() -> (r: [u8; 10])
    ensures
        r@ == spec_multipart_prefix(),
{
    let r = [0x6Du8, 0x75u8, 0x6Cu8, 0x74u8, 0x69u8, 0x70u8, 0x61u8, 0x72u8, 0x74u8, 0x2Fu8];
    assert(r@ =~= spec_multipart_prefix());
    r
}

/// `boundary`
pub open spec fn spec_boundary_param() -> Seq<u8> {
    seq![0x62u8, 0x6Fu8, 0x75u8, 0x6Eu8, 0x64u8, 0x61u8, 0x72u8, 0x79u8]
}

pub fn boundary_param() -> (r: [u8; 8])
    ensures
        r@ == spec_boundary_param(),
{
    let r = [0x62u8, 0x6Fu8, 0x75u8, 0x6Eu8, 0x64u8, 0x61u8, 0x72u8, 0x79u8];
    assert(r@ =~= spec_boundary_param());
    r
}

/// `content-disposition`
pub open spec fn spec_content_disposition_name() -> Seq<u8> {
    seq![0x63u8, 0x6Fu8, 0x6Eu8, 0x74u8, 0x65u8, 0x6Eu8, 0x74u8, 0x2Du8, 0x64u8, 0x69u8, 0x73u8, 0x70u8, 0x6Fu8, 0x73u8, 0x69u8, 0x74u8, 0x69u8, 0x6Fu8, 0x6Eu8]
}

pub fn content_disposition_name() -> (r: [u8; 19])
    ensures
        r@ == spec_content_disposition_name(),
{
    let r = [0x63u8, 0x6Fu8, 0x6Eu8, 0x74u8, 0x65u8, 0x6Eu8, 0x74u8, 0x2Du8, 0x64u8, 0x69u8, 0x73u8, 0x70u8, 0x6Fu8, 0x73u8, 0x69u8, 0x74u8, 0x69u8, 0x6Fu8, 0x6Eu8];
    assert(r@ =~= spec_content_disposition_name());
    r
}

/// `content-type`
pub open spec fn spec_content_type_name() -> Seq<u8> {
    seq![0x63u8, 0x6Fu8, 0x6Eu8, 0x74u8, 0x65u8, 0x6Eu8, 0x74u8, 0x2Du8, 0x74u8, 0x79u8, 0x70u8, 0x65u8]
}

pub fn content_type_name() -> (r: [u8; 12])
    ensures
        r@ == spec_content_type_name(),
{
    let r = [0x63u8, 0x6Fu8, 0x6Eu8, 0x74u8, 0x65u8, 0x6Eu8, 0x74u8, 0x2Du8, 0x74u8, 0x79u8, 0x70u8, 0x65u8];
    assert(r@ =~= spec_content_type_name());
    r
}

/// `form-data`
pub open spec fn spec_form_data_kind() -> Seq<u8> {
    seq![0x66u8, 0x6Fu8, 0x72u8, 0x6Du8, 0x2Du8, 0x64u8, 0x61u8, 0x74u8, 0x61u8]
}

pub fn form_data_kind() -> (r: [u8; 9])
    ensures
        r@ == spec_form_data_kind(),
{
    let r = [0x66u8, 0x6Fu8, 0x72u8, 0x6Du8, 0x2Du8, 0x64u8, 0x61u8, 0x74u8, 0x61u8];
    assert(r@ =~= spec_form_data_kind());
    r
}

/// `file`
pub open spec fn spec_file_kind() -> Seq<u8> {
    seq![0x66u8, 0x69u8, 0x6Cu8, 0x65u8]
}

pub fn file_kind() -> (r: [u8; 4])
    ensures
        r@ == spec_file_kind(),
{
    let r = [0x66u8, 0x69u8, 0x6Cu8, 0x65u8];
    assert(r@ =~= spec_file_kind());
    r
}

/// `name`
pub open spec fn spec_name_param() -> Seq<u8> {
    seq![0x6Eu8, 0x61u8, 0x6Du8, 0x65u8]
}

pub fn name_param() -> (r: [u8; 4])
    ensures
        r@ == spec_name_param(),
{
    let r = [0x6Eu8, 0x61u8, 0x6Du8, 0x65u8];
    assert(r@ =~= spec_name_param());
    r
}

/// `filename`
pub open spec fn spec_filename_param() -> Seq<u8> {
    seq![0x66u8, 0x69u8, 0x6Cu8, 0x65u8, 0x6Eu8, 0x61u8, 0x6Du8, 0x65u8]
}

pub fn filename_param() -> (r: [u8; 8])
    ensures
        r@ == spec_filename_param(),
{
    let r = [0x66u8, 0x69u8, 0x6Cu8, 0x65u8, 0x6Eu8, 0x61u8, 0x6Du8, 0x65u8];
    assert(r@ =~= spec_filename_param());
    r
}

/// `filename*`
pub open spec fn spec_filename_star_param() -> Seq<u8> {
    seq![0x66u8, 0x69u8, 0x6Cu8, 0x65u8, 0x6Eu8, 0x61u8, 0x6Du8, 0x65u8, 0x2Au8]
}

pub fn filename_star_param() -> (r: [u8; 9])
    ensures
        r@ == spec_filename_star_param(),
{
    let r = [0x66u8, 0x69u8, 0x6Cu8, 0x65u8, 0x6Eu8, 0x61u8, 0x6Du8, 0x65u8, 0x2Au8];
    assert(r@ =~= spec_filename_star_param());
    r
}

/// `utf-8`
pub open spec fn spec_utf8_charset() -> Seq<u8> {
    seq![0x75u8, 0x74u8, 0x66u8, 0x2Du8, 0x38u8]
}

pub fn utf8_charset() -> (r: [u8; 5])
    ensures
        r@ == spec_utf8_charset(),
{
    let r = [0x75u8, 0x74u8, 0x66u8, 0x2Du8, 0x38u8];
    assert(r@ =~= spec_utf8_charset());
    r
}

/// `us-ascii`
pub open spec fn spec_us_ascii_charset() -> Seq<u8> {
    seq![0x75u8, 0x73u8, 0x2Du8, 0x61u8, 0x73u8, 0x63u8, 0x69u8, 0x69u8]
}

pub fn us_ascii_charset() -> (r: [u8; 8])
    ensures
        r@ == spec_us_ascii_charset(),
{
    let r = [0x75u8, 0x73u8, 0x2Du8, 0x61u8, 0x73u8, 0x63u8, 0x69u8, 0x69u8];
    assert(r@ =~= spec_us_ascii_charset());
    r
}

/// `--`
pub open spec fn spec_dash_dash() -> Seq<u8> {
    seq![0x2Du8, 0x2Du8]
}

pub fn dash_dash() -> (r: [u8; 2])
    ensures
        r@ == spec_dash_dash(),
{
    let r = [0x2Du8, 0x2Du8];
    assert(r@ =~= spec_dash_dash());
    r
}

} // verus!
