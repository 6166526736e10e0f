//! Trusted declarations for the `heapless` fixed-capacity collections that the
//! parsers fill. Each wrapper makes one call into `heapless` and states what the
//! crate's source shows it does to the contents.
use vstd::prelude::*;
use crate::book::ChapterMeta;
use crate::epub::{ManifestItem, SpineItem};
use crate::strs::sb;
use crate::text::TextRun;

verus! {

#[verifier::external_type_specification]
#[verifier::external_body]
#[verifier::reject_recursive_types(T)]
pub struct ExHeaplessVec<T, const N: usize>(heapless::Vec<T, N>);

#[verifier::external_type_specification]
#[verifier::external_body]
pub struct ExHeaplessString<const N: usize>(heapless::String<N>);

/// `Clone` for `heapless::String`, which the derived `Clone` of a sync-protocol
/// book calls; nothing is claimed of the copy.
pub assume_specification<const N: usize>[ <heapless::String<N> as Clone>::clone ](
    s: &heapless::String<N>,
) -> heapless::String<N>;

// ---------------------------------------------------------------------------
// heapless::String<40>, used to build a closing tag.
/// The bytes held by a 40-byte `heapless::String`.
pub uninterp spec fn close_buf_bytes(s: heapless::String<40>) -> Seq<u8>;

/// `heapless::String::new`: an empty string.
#[verifier::external_body]
pub(crate) fn close_buf_new() -> (s: heapless::String<40>)
    ensures
        close_buf_bytes(s) == Seq::<u8>::empty(),
{
    heapless::String::new()
}

/// `heapless::String::push_str`: appends all of `t` when it fits in the capacity
/// of 40 bytes, and otherwise leaves the string unchanged and fails.
#[verifier::external_body]
pub(crate) fn close_buf_push_str(s: &mut heapless::String<40>, t: &str) -> (r: Result<(), ()>)
    ensures
        close_buf_bytes(*old(s)).len() + sb(t).len() <= 40 ==> r is Ok && close_buf_bytes(*final(s))
            == close_buf_bytes(*old(s)) + sb(t),
        close_buf_bytes(*old(s)).len() + sb(t).len() > 40 ==> r is Err && close_buf_bytes(
            *final(s),
        ) == close_buf_bytes(*old(s)),
{
    s.push_str(t)
}

/// `heapless::String::push` of a one-byte (ASCII) character: appends it when the
/// string holds fewer than 40 bytes, and otherwise leaves it unchanged and fails.
#[verifier::external_body]
pub(crate) fn close_buf_push(s: &mut heapless::String<40>, c: char) -> (r: Result<(), ()>)
    requires
        (c as u32) < 0x80,
    ensures
        close_buf_bytes(*old(s)).len() < 40 ==> r is Ok && close_buf_bytes(*final(s))
            == close_buf_bytes(*old(s)).push(c as u8),
        close_buf_bytes(*old(s)).len() >= 40 ==> r is Err && close_buf_bytes(*final(s))
            == close_buf_bytes(*old(s)),
{
    s.push(c)
}

/// `heapless::String::as_str`: the held bytes as a string slice.
#[verifier::external_body]
pub(crate) fn close_buf_as_str(s: &heapless::String<40>) -> (r: &str)
    ensures
        sb(r) == close_buf_bytes(*s),
{
    s.as_str()
}

// ---------------------------------------------------------------------------
// heapless::String<64>, used to build a book's display path.
/// The bytes held by a 64-byte `heapless::String`.
pub uninterp spec fn path_buf_bytes(s: heapless::String<64>) -> Seq<u8>;

/// `heapless::String::new`: an empty string.
#[verifier::external_body]
pub(crate) fn path_buf_new() -> (s: heapless::String<64>)
    ensures
        path_buf_bytes(s) == Seq::<u8>::empty(),
{
    heapless::String::new()
}

/// `heapless::String::push_str`: appends all of `t` when it fits in the capacity
/// of 64 bytes, and otherwise leaves the string unchanged and fails.
#[verifier::external_body]
pub(crate) fn path_buf_push_str(s: &mut heapless::String<64>, t: &str) -> (r: Result<(), ()>)
    ensures
        path_buf_bytes(*old(s)).len() + sb(t).len() <= 64 ==> r is Ok && path_buf_bytes(*final(s))
            == path_buf_bytes(*old(s)) + sb(t),
        path_buf_bytes(*old(s)).len() + sb(t).len() > 64 ==> r is Err && path_buf_bytes(
            *final(s),
        ) == path_buf_bytes(*old(s)),
{
    s.push_str(t)
}

// ---------------------------------------------------------------------------
// heapless::Vec<ManifestItem, 96>
/// The items held by a manifest list, in order.
pub uninterp spec fn manifest_items(v: heapless::Vec<ManifestItem<'_>, 96>) -> Seq<
    ManifestItem<'_>,
>;

/// `heapless::Vec::new`: an empty list.
#[verifier::external_body]
pub(crate) fn manifest_new<'a>() -> (v: heapless::Vec<ManifestItem<'a>, 96>)
    ensures
        manifest_items(v) == Seq::<ManifestItem<'a>>::empty(),
{
    heapless::Vec::new()
}

/// `heapless::Vec::push`: appends when fewer than 96 items are held, and
/// otherwise leaves the list unchanged and hands the item back.
#[verifier::external_body]
pub(crate) fn manifest_push<'a>(
    v: &mut heapless::Vec<ManifestItem<'a>, 96>,
    item: ManifestItem<'a>,
) -> (r: Result<(), ManifestItem<'a>>)
    ensures
        manifest_items(*old(v)).len() < 96 ==> r is Ok && manifest_items(*final(v))
            == manifest_items(*old(v)).push(item),
        manifest_items(*old(v)).len() >= 96 ==> (r matches Err(it) && it == item)
            && manifest_items(*final(v)) == manifest_items(*old(v)),
{
    v.push(item)
}

/// `heapless::Vec::as_slice`: the held items.
#[verifier::external_body]
pub(crate) fn manifest_as_slice<'b, 'a>(v: &'b heapless::Vec<ManifestItem<'a>, 96>) -> (r: &'b [ManifestItem<'a>])
    ensures
        r@ == manifest_items(*v),
        r@.len() <= 96,
{
    v.as_slice()
}

// ---------------------------------------------------------------------------
// heapless::Vec<SpineItem, 64>
/// The items held by a spine list, in order.
pub uninterp spec fn spine_items(v: heapless::Vec<SpineItem<'_>, 64>) -> Seq<SpineItem<'_>>;

/// `heapless::Vec::new`: an empty list.
#[verifier::external_body]
pub(crate) fn spine_new<'a>() -> (v: heapless::Vec<SpineItem<'a>, 64>)
    ensures
        spine_items(v) == Seq::<SpineItem<'a>>::empty(),
{
    heapless::Vec::new()
}

/// `heapless::Vec::push`: appends when fewer than 64 items are held, and
/// otherwise leaves the list unchanged and hands the item back.
#[verifier::external_body]
pub(crate) fn spine_push<'a>(v: &mut heapless::Vec<SpineItem<'a>, 64>, item: SpineItem<'a>) -> (r:
    Result<(), SpineItem<'a>>)
    ensures
        spine_items(*old(v)).len() < 64 ==> r is Ok && spine_items(*final(v)) == spine_items(
            *old(v),
        ).push(item),
        spine_items(*old(v)).len() >= 64 ==> (r matches Err(it) && it == item) && spine_items(
            *final(v),
        ) == spine_items(*old(v)),
{
    v.push(item)
}

/// `heapless::Vec::as_slice`: the held items.
#[verifier::external_body]
pub(crate) fn spine_as_slice<'b, 'a>(v: &'b heapless::Vec<SpineItem<'a>, 64>) -> (r: &'b [SpineItem<'a>])
    ensures
        r@ == spine_items(*v),
        r@.len() <= 64,
{
    v.as_slice()
}

// ---------------------------------------------------------------------------
// heapless::Vec<TextRun, 256>
/// The runs held by a run list, in order.
pub uninterp spec fn run_items(v: heapless::Vec<TextRun<'_>, 256>) -> Seq<TextRun<'_>>;

/// `heapless::Vec::clear`: removes every run.
#[verifier::external_body]
pub(crate) fn runs_clear<'a>(v: &mut heapless::Vec<TextRun<'a>, 256>)
    ensures
        run_items(*final(v)) == Seq::<TextRun<'a>>::empty(),
{
    v.clear()
}

/// `heapless::Vec::push`: appends when fewer than 256 runs are held, and
/// otherwise leaves the list unchanged and hands the run back.
#[verifier::external_body]
pub(crate) fn runs_push<'a>(v: &mut heapless::Vec<TextRun<'a>, 256>, item: TextRun<'a>) -> (r:
    Result<(), TextRun<'a>>)
    ensures
        run_items(*old(v)).len() < 256 ==> r is Ok && run_items(*final(v)) == run_items(
            *old(v),
        ).push(item),
        run_items(*old(v)).len() >= 256 ==> (r matches Err(it) && it == item) && run_items(
            *final(v),
        ) == run_items(*old(v)),
{
    v.push(item)
}

// ---------------------------------------------------------------------------
// heapless::Vec<ChapterMeta, 64>
/// The chapters held by a chapter list, in order.
pub uninterp spec fn chapter_items(v: heapless::Vec<ChapterMeta<'_>, 64>) -> Seq<ChapterMeta<'_>>;

/// `heapless::Vec::clear`: removes every chapter.
#[verifier::external_body]
pub(crate) fn chapters_clear<'a>(v: &mut heapless::Vec<ChapterMeta<'a>, 64>)
    ensures
        chapter_items(*final(v)) == Seq::<ChapterMeta<'a>>::empty(),
{
    v.clear()
}

/// `heapless::Vec::push`: appends when fewer than 64 chapters are held, and
/// otherwise leaves the list unchanged and hands the chapter back.
#[verifier::external_body]
pub(crate) fn chapters_push<'a>(v: &mut heapless::Vec<ChapterMeta<'a>, 64>, item: ChapterMeta<'a>) -> (r:
    Result<(), ChapterMeta<'a>>)
    ensures
        chapter_items(*old(v)).len() < 64 ==> r is Ok && chapter_items(*final(v))
            == chapter_items(*old(v)).push(item),
        chapter_items(*old(v)).len() >= 64 ==> (r matches Err(it) && it == item)
            && chapter_items(*final(v)) == chapter_items(*old(v)),
{
    v.push(item)
}

} // verus!
