//! EPUB container and package parsing, and XHTML chapters to styled text runs.
use vstd::prelude::*;
use vstd::string::StringSliceAdditionalSpecFns;
use vstd::utf8::valid_utf8;
use crate::book::{BookId, BookMeta, BookSource, ChapterMeta, CoverStatus};
use crate::hl::{
    chapter_items, chapters_clear, chapters_push, manifest_as_slice, manifest_items, manifest_new,
    manifest_push, run_items, runs_clear, runs_push, spine_as_slice, spine_items, spine_new,
    spine_push,
};
use crate::strs::{
    find_byte, find_seq, find_seq_exec, first_ws, is_cut, lemma_cut_after_char, lemma_str_valid,
    occurs_at, sb, skip_ws, skip_ws_back, str_eq, sub_str, SLASH,
};
use crate::text::{FontStyle, TextRole, TextRun};
use crate::zip::ZipError;
use crate::zip::{archive_layout, archive_read, find_entry_from, str_from_utf8, ZipArchive};
use crate::xml::{
    attr_value, element_text, element_text_range, find_attr_value, lemma_scan_start_tag,
    lemma_scan_token, lemma_text_token_trimmed, lemma_ws_sub, next_start_tag, scan_attr,
    scan_attr_in_tags,
    scan_start_tag, scan_token, trimmed_text, Token, TokenKind, XmlCursor,
};

verus! {

broadcast use vstd::string::group_string_axioms;

pub const MAX_SPINE_ITEMS: usize = 64;

pub const MAX_MANIFEST_ITEMS: usize = 96;

pub const MAX_RUNS: usize = 256;

#[derive(Clone, Copy, Debug, PartialEq, Eq)]
pub struct ManifestItem<'a> {
    pub id: &'a str,
    pub href: &'a str,
    pub media_type: &'a str,
}

#[derive(Clone, Copy, Debug, PartialEq, Eq)]
pub struct SpineItem<'a> {
    pub idref: &'a str,
    pub href: &'a str,
}

#[derive(Clone, Copy, Debug, PartialEq, Eq, Structural)]
pub enum EpubError {
    Zip(ZipError),
    Utf8,
    MissingContainer,
    MissingOpfPath,
    MissingOpf,
    TooManyManifestItems,
    TooManySpineItems,
}

#[derive(Clone, Copy, Debug, PartialEq, Eq, Structural)]
pub enum XhtmlError {
    TooManyRuns,
}

impl From<ZipError> for EpubError {
    fn from(value: ZipError) -> (r: Self)
        ensures
            r == EpubError::Zip(value),
    {
        EpubError::Zip(value)
    }
}

impl vstd::std_specs::convert::FromSpecImpl<ZipError> for EpubError {
    open spec fn obeys_from_spec() -> bool {
        true
    }

    open spec fn from_spec(v: ZipError) -> Self {
        EpubError::Zip(v)
    }
}

/// A parsed package document: the book's metadata, where the package document
/// lives, its manifest and its reading order.
pub struct EpubPackage<'a> {
    pub meta: BookMeta<'a>,
    pub opf_path: &'a str,
    pub manifest: heapless::Vec<ManifestItem<'a>, 96>,
    pub spine: heapless::Vec<SpineItem<'a>, 64>,
}

// ---------------------------------------------------------------------------
// Styles
/// The face for text inside `bold_depth` bold and `italic_depth` italic elements.
pub open spec fn style_of(bold_depth: u8, italic_depth: u8) -> FontStyle {
    if bold_depth > 0 && italic_depth > 0 {
        FontStyle::BoldItalic
    } else if bold_depth > 0 {
        FontStyle::Bold
    } else if italic_depth > 0 {
        FontStyle::Italic
    } else {
        FontStyle::Regular
    }
}

/// The face for text inside the given numbers of bold and italic elements.
pub fn style_for(bold_depth: u8, italic_depth: u8) -> (r: FontStyle)
    ensures
        r == style_of(bold_depth, italic_depth),
{
    if bold_depth > 0 {
        if italic_depth > 0 {
            FontStyle::BoldItalic
        } else {
            FontStyle::Bold
        }
    } else if italic_depth > 0 {
        FontStyle::Italic
    } else {
        FontStyle::Regular
    }
}

// ---------------------------------------------------------------------------
// XHTML to text runs
/// The styling state while walking a chapter: role, bold depth, italic depth.
pub type RunState = (TextRole, u8, u8);

pub open spec fn inc(d: u8) -> u8 {
    if d == 255 {
        255
    } else {
        (d + 1) as u8
    }
}

pub open spec fn dec(d: u8) -> u8 {
    if d == 0 {
        0
    } else {
        (d - 1) as u8
    }
}

/// How a start tag named `name` changes the styling state.
pub open spec fn after_start(name: Seq<u8>, st: RunState) -> RunState {
    if name == sb("h1") {
        (TextRole::Heading1, inc(st.1), st.2)
    } else if name == sb("h2") {
        (TextRole::Heading2, inc(st.1), st.2)
    } else if name == sb("h3") {
        (TextRole::Heading3, inc(st.1), st.2)
    } else if name == sb("blockquote") {
        (TextRole::BlockQuote, st.1, inc(st.2))
    } else if name == sb("strong") || name == sb("b") {
        (st.0, inc(st.1), st.2)
    } else if name == sb("em") || name == sb("i") {
        (st.0, st.1, inc(st.2))
    } else {
        st
    }
}

/// How an end tag named `name` changes the styling state.
pub open spec fn after_end(name: Seq<u8>, st: RunState) -> RunState {
    if name == sb("h1") || name == sb("h2") || name == sb("h3") {
        (TextRole::Body, dec(st.1), st.2)
    } else if name == sb("blockquote") {
        (TextRole::Body, st.1, dec(st.2))
    } else if name == sb("strong") || name == sb("b") {
        (st.0, dec(st.1), st.2)
    } else if name == sb("em") || name == sb("i") {
        (st.0, st.1, dec(st.2))
    } else {
        st
    }
}

/// A run as plain values: its text bytes, role and style.
pub type RunModel = (Seq<u8>, TextRole, FontStyle);

pub open spec fn run_model(r: TextRun) -> RunModel {
    (sb(r.text), r.role, r.style)
}

/// Every run of the XHTML document `x` from offset `c` on, starting in state `st`.
pub open spec fn runs_from(x: Seq<u8>, c: int, st: RunState) -> Seq<RunModel>
    decreases x.len() - c,
{
    let (t, n) = scan_token(x, c);
    match t {
        None => Seq::empty(),
        Some((k, a, b)) => {
            if !(c < n <= x.len()) {
                Seq::empty()
            } else {
                let s = x.subrange(a, b);
                match k {
                    TokenKind::Text => seq![(s, st.0, style_of(st.1, st.2))] + runs_from(x, n, st),
                    TokenKind::Start => runs_from(x, n, after_start(s, st)),
                    TokenKind::End => runs_from(x, n, after_end(s, st)),
                }
            }
        },
    }
}

/// The runs of a whole chapter.
pub open spec fn chapter_runs(x: Seq<u8>) -> Seq<RunModel> {
    runs_from(x, 0, (TextRole::Body, 0u8, 0u8))
}

fn next_state(token: Token, st: RunState) -> (r: RunState)
    ensures
        token matches Token::Start(s) ==> r == after_start(sb(s), st),
        token matches Token::End(s) ==> r == after_end(sb(s), st),
        token matches Token::Text(_) ==> r == st,
{
    let (role, bold, italic) = st;
    match token {
        Token::Start(s) => {
            if str_eq(s, "h1") {
                (TextRole::Heading1, bold.saturating_add(1), italic)
            } else if str_eq(s, "h2") {
                (TextRole::Heading2, bold.saturating_add(1), italic)
            } else if str_eq(s, "h3") {
                (TextRole::Heading3, bold.saturating_add(1), italic)
            } else if str_eq(s, "blockquote") {
                (TextRole::BlockQuote, bold, italic.saturating_add(1))
            } else if str_eq(s, "strong") || str_eq(s, "b") {
                (role, bold.saturating_add(1), italic)
            } else if str_eq(s, "em") || str_eq(s, "i") {
                (role, bold, italic.saturating_add(1))
            } else {
                st
            }
        },
        Token::End(s) => {
            if str_eq(s, "h1") || str_eq(s, "h2") || str_eq(s, "h3") {
                (TextRole::Body, bold.saturating_sub(1), italic)
            } else if str_eq(s, "blockquote") {
                (TextRole::Body, bold, italic.saturating_sub(1))
            } else if str_eq(s, "strong") || str_eq(s, "b") {
                (role, bold.saturating_sub(1), italic)
            } else if str_eq(s, "em") || str_eq(s, "i") {
                (role, bold, italic.saturating_sub(1))
            } else {
                st
            }
        },
        Token::Text(_) => st,
    }
}

/// Turns an XHTML chapter into styled runs in `output` (cleared first): headings
/// and `strong`/`b` are bold, block quotes and `em`/`i` italic. Fails once more
/// than 256 runs would be needed, keeping the first 256.
pub fn xhtml_text_runs<'a>(xhtml: &'a str, output: &mut heapless::Vec<TextRun<'a>, 256>) -> (r:
    Result<(), XhtmlError>)
    ensures
        chapter_runs(sb(xhtml)).len() <= 256 ==> r is Ok && run_items(*final(output)).map_values(
            |run: TextRun| run_model(run),
        ) == chapter_runs(sb(xhtml)),
        chapter_runs(sb(xhtml)).len() > 256 ==> r == Err::<(), XhtmlError>(XhtmlError::TooManyRuns)
            && run_items(*final(output)).map_values(|run: TextRun| run_model(run)) == chapter_runs(
            sb(xhtml),
        ).take(256),
{
    runs_clear(output);
    let mut cursor = XmlCursor::new(xhtml);
    let mut st: RunState = (TextRole::Body, 0u8, 0u8);
    let ghost x = sb(xhtml);
    proof {
        lemma_str_valid(xhtml);
    }
    loop
        invariant
            cursor.source() == x,
            x == sb(xhtml),
            valid_utf8(x),
            0 <= cursor.position() <= x.len(),
            is_cut(x, cursor.position()),
            run_items(*output).len() <= 256,
            run_items(*output).map_values(|run: TextRun| run_model(run)) + runs_from(
                x,
                cursor.position(),
                st,
            ) == chapter_runs(x),
        decreases x.len() - cursor.position(),
    {
        let ghost c = cursor.position();
        let ghost before = run_items(*output);
        proof {
            lemma_scan_token(x, c);
        }
        let token = match cursor.next_token() {
            Some(t) => t,
            None => {
                proof {
                    assert(run_items(*output).map_values(|run: TextRun| run_model(run))
                        =~= chapter_runs(x));
                }
                return Ok(());
            },
        };
        match token {
            Token::Text(text) => {
                let run = TextRun::new(text, st.0, style_for(st.1, st.2));
                match runs_push(output, run) {
                    Ok(()) => {
                        proof {
                            assert(run_items(*output).map_values(|run: TextRun| run_model(run))
                                =~= before.map_values(|run: TextRun| run_model(run)).push(
                                run_model(run),
                            ));
                            assert(runs_from(x, c, st) == seq![run_model(run)] + runs_from(
                                x,
                                cursor.position(),
                                st,
                            ));
                            assert(run_items(*output).map_values(|run: TextRun| run_model(run))
                                + runs_from(x, cursor.position(), st) =~= before.map_values(
                                |run: TextRun| run_model(run),
                            ) + runs_from(x, c, st));
                        }
                    },
                    Err(_) => {
                        proof {
                            let m = before.map_values(|run: TextRun| run_model(run));
                            assert(m.len() == 256);
                            assert(chapter_runs(x) == m + runs_from(x, c, st));
                            assert(runs_from(x, c, st).len() > 0);
                            assert(chapter_runs(x).take(256) =~= m);
                        }
                        return Err(XhtmlError::TooManyRuns);
                    },
                }
            },
            _ => {
                st = next_state(token, st);
            },
        }
    }
}

// ---------------------------------------------------------------------------
// Chapters
/// Offset just past the last `/` in `s`, or 0.
pub open spec fn last_segment_start(s: Seq<u8>, j: int) -> int
    decreases j,
{
    if j <= 0 {
        0
    } else if s[j - 1] == SLASH {
        j
    } else {
        last_segment_start(s, j - 1)
    }
}

/// The part of a path after its last `/`.
pub open spec fn last_segment(s: Seq<u8>) -> Seq<u8> {
    s.subrange(last_segment_start(s, s.len() as int), s.len() as int)
}

proof fn lemma_last_segment_start(s: Seq<u8>, j: int)
    requires
        valid_utf8(s),
        0 <= j <= s.len(),
    ensures
        0 <= last_segment_start(s, j) <= j,
        is_cut(s, last_segment_start(s, j)),
    decreases j,
{
    if j > 0 {
        if s[j - 1] == SLASH {
            lemma_cut_after_char(s, j - 1);
        } else {
            lemma_last_segment_start(s, j - 1);
        }
    } else {
        lemma_str_valid_seq(s);
    }
}

proof fn lemma_last_segment_start_bytes(s: Seq<u8>, j: int)
    requires
        0 <= j <= s.len(),
    ensures
        0 <= last_segment_start(s, j) <= j,
        forall|i: int| last_segment_start(s, j) <= i < j ==> s[i] != SLASH,
        last_segment_start(s, j) == 0 || s[last_segment_start(s, j) - 1] == SLASH,
    decreases j,
{
    if j > 0 && s[j - 1] != SLASH {
        lemma_last_segment_start_bytes(s, j - 1);
    }
}

/// A chapter's title is the part of its href after the last `/`: a suffix of
/// the href that holds no `/`, and that is either the whole href or follows a
/// `/`.
pub proof fn lemma_last_segment(s: Seq<u8>)
    ensures
        ({
            let t = last_segment(s);
            &&& t.len() <= s.len()
            &&& s.subrange(s.len() - t.len(), s.len() as int) == t
            &&& forall|i: int| 0 <= i < t.len() ==> t[i] != SLASH
            &&& t.len() == s.len() || s[s.len() - t.len() - 1] == SLASH
        }),
{
    lemma_last_segment_start_bytes(s, s.len() as int);
    let t = last_segment(s);
    assert forall|i: int| 0 <= i < t.len() implies t[i] != SLASH by {
        assert(t[i] == s[last_segment_start(s, s.len() as int) + i]);
    }
}

proof fn lemma_str_valid_seq(s: Seq<u8>)
    requires
        valid_utf8(s),
    ensures
        is_cut(s, 0),
{
    if s.len() > 0 {
        assert(vstd::utf8::valid_first_scalar(s));
    }
}

/// The file name of a path: what follows its last `/`.
fn file_name<'a>(href: &'a str) -> (r: &'a str)
    ensures
        sb(r) == last_segment(sb(href)),
{
    proof {
        lemma_str_valid(href);
        lemma_last_segment_start(sb(href), sb(href).len() as int);
    }
    let bytes: &[u8] = href.as_bytes();
    let mut j: usize = bytes.len();
    while j > 0 && bytes[j - 1] != SLASH
        invariant
            bytes@ == sb(href),
            j <= bytes@.len(),
            last_segment_start(bytes@, bytes@.len() as int) == last_segment_start(bytes@, j as int),
        decreases j,
    {
        j = j - 1;
    }
    sub_str(href, j, bytes.len())
}

/// Whether a chapter list describes a spine: one chapter per spine item, in
/// order, titled by the item's file name.
pub open spec fn chapters_of(chapters: Seq<ChapterMeta>, spine: Seq<SpineItem>) -> bool {
    &&& chapters.len() == spine.len()
    &&& forall|i: int|
        0 <= i < spine.len() ==> {
            &&& #[trigger] chapters[i].spine_index == i
            &&& chapters[i].source_href == spine[i].href
            &&& sb(chapters[i].title) == last_segment(sb(spine[i].href))
        }
}

impl<'a> EpubPackage<'a> {
    /// Lists the chapters in reading order into `output` (cleared first): one per
    /// spine item, titled by the file name of its href.
    pub fn chapters(&self, output: &mut heapless::Vec<ChapterMeta<'a>, 64>)
        ensures
            chapters_of(chapter_items(*final(output)), spine_items(self.spine)),
    {
        chapters_clear(output);
        let spine: &[SpineItem<'a>] = spine_as_slice(&self.spine);
        let mut index: usize = 0;
        while index < spine.len()
            invariant
                spine@ == spine_items(self.spine),
                spine@.len() <= 64,
                index <= spine@.len(),
                chapter_items(*output).len() == index,
                forall|i: int|
                    0 <= i < index ==> {
                        &&& #[trigger] chapter_items(*output)[i].spine_index == i
                        &&& chapter_items(*output)[i].source_href == spine@[i].href
                        &&& sb(chapter_items(*output)[i].title) == last_segment(sb(spine@[i].href))
                    },
            decreases spine@.len() - index,
        {
            let href: &'a str = spine[index].href;
            let title: &'a str = file_name(href);
            let _ = chapters_push(
                output,
                ChapterMeta { title, spine_index: index as u16, source_href: href },
            );
            index = index + 1;
        }
    }
}

// ---------------------------------------------------------------------------
// Covers
/// Whether a manifest item looks like a cover.
pub open spec fn is_cover_item(id: Seq<u8>, href: Seq<u8>, media_type: Seq<u8>) -> bool {
    ||| id == sb("cover")
    ||| find_seq(href, 0, sb("cover")) is Some
    ||| (sb("image/").len() <= media_type.len() && media_type.subrange(0, sb("image/").len() as int)
        == sb("image/"))
}

/// Whether some manifest item looks like a cover.
pub open spec fn has_cover(items: Seq<ManifestModel>) -> bool {
    exists|i: int| 0 <= i < items.len() && is_cover_item(items[i].0, items[i].1, items[i].2)
}

/// A manifest item as plain values: id, href and media type bytes.
pub type ManifestModel = (Seq<u8>, Seq<u8>, Seq<u8>);

pub open spec fn manifest_model(m: ManifestItem) -> ManifestModel {
    (sb(m.id), sb(m.href), sb(m.media_type))
}

fn starts_with_bytes(s: &[u8], prefix: &[u8]) -> (r: bool)
    ensures
        r == (prefix@.len() <= s@.len() && s@.subrange(0, prefix@.len() as int) == prefix@),
{
    if prefix.len() > s.len() {
        return false;
    }
    let head: &[u8] = vstd::slice::slice_subrange(s, 0, prefix.len());
    crate::strs::bytes_eq(head, prefix)
}

fn is_cover(item: &ManifestItem) -> (r: bool)
    ensures
        r == is_cover_item(sb(item.id), sb(item.href), sb(item.media_type)),
{
    str_eq(item.id, "cover") || find_seq_exec(item.href.as_bytes(), 0, "cover".as_bytes()).is_some()
        || starts_with_bytes(item.media_type.as_bytes(), "image/".as_bytes())
}

/// `Present` when some manifest item has id `cover`, an href containing
/// `cover`, or an `image/` media type; `Missing` otherwise.
pub fn cover_status(manifest: &[ManifestItem]) -> (r: CoverStatus)
    ensures
        r == (if has_cover(manifest@.map_values(|m: ManifestItem| manifest_model(m))) {
            CoverStatus::Present
        } else {
            CoverStatus::Missing
        }),
{
    let ghost models = manifest@.map_values(|m: ManifestItem| manifest_model(m));
    let mut i: usize = 0;
    while i < manifest.len()
        invariant
            i <= manifest@.len(),
            models == manifest@.map_values(|m: ManifestItem| manifest_model(m)),
            forall|j: int| 0 <= j < i ==> !is_cover_item(#[trigger] models[j].0, models[j].1, models[j].2),
        decreases manifest@.len() - i,
    {
        if is_cover(&manifest[i]) {
            proof {
                assert(is_cover_item(models[i as int].0, models[i as int].1, models[i as int].2));
            }
            return CoverStatus::Present;
        }
        i = i + 1;
    }
    CoverStatus::Missing
}

// ---------------------------------------------------------------------------
// Package document
/// A spine item as plain values: idref and href bytes.
pub type SpineModel = (Seq<u8>, Seq<u8>);

pub open spec fn spine_model(s: SpineItem) -> SpineModel {
    (sb(s.idref), sb(s.href))
}

/// Every manifest `item` with an `id` and an `href`, from offset `c` on.
pub open spec fn manifest_from(x: Seq<u8>, c: int) -> Seq<ManifestModel>
    decreases x.len() + 1 - c,
{
    match scan_start_tag(x, sb("item"), c) {
        None => Seq::empty(),
        Some((a, b, n)) => {
            if !(c < n <= x.len()) {
                Seq::empty()
            } else {
                let t = x.subrange(a, b);
                let rest = manifest_from(x, n);
                match scan_attr(t, sb("id"), 0) {
                    None => rest,
                    Some((ia, ib)) => match scan_attr(t, sb("href"), 0) {
                        None => rest,
                        Some((ha, hb)) => {
                            let mt = match scan_attr(t, sb("media-type"), 0) {
                                Some((ma, mb)) => t.subrange(ma, mb),
                                None => Seq::empty(),
                            };
                            seq![(t.subrange(ia, ib), t.subrange(ha, hb), mt)] + rest
                        },
                    },
                }
            }
        },
    }
}

/// The href of the first manifest item at or after `i` whose id is `id`, or
/// nothing.
pub open spec fn href_for(man: Seq<ManifestModel>, id: Seq<u8>, i: int) -> Seq<u8>
    decreases man.len() - i,
{
    if i < 0 || i >= man.len() {
        Seq::empty()
    } else if man[i].0 == id {
        man[i].1
    } else {
        href_for(man, id, i + 1)
    }
}

/// Every spine `itemref` with an `idref`, from offset `c` on, with the href
/// that the manifest gives its idref.
pub open spec fn spine_from(x: Seq<u8>, c: int, man: Seq<ManifestModel>) -> Seq<SpineModel>
    decreases x.len() + 1 - c,
{
    match scan_start_tag(x, sb("itemref"), c) {
        None => Seq::empty(),
        Some((a, b, n)) => {
            if !(c < n <= x.len()) {
                Seq::empty()
            } else {
                let t = x.subrange(a, b);
                let rest = spine_from(x, n, man);
                match scan_attr(t, sb("idref"), 0) {
                    None => rest,
                    Some((ia, ib)) => seq![
                        (t.subrange(ia, ib), href_for(man, t.subrange(ia, ib), 0)),
                    ] + rest,
                }
            }
        },
    }
}

/// The text of the first element named `tag`, or of the first named `alt`, or
/// `fallback`.
pub open spec fn text_or(x: Seq<u8>, tag: Seq<u8>, alt: Seq<u8>, fallback: Seq<u8>) -> Seq<u8> {
    match element_text_range(x, tag) {
        Some((a, b)) => x.subrange(a, b),
        None => match element_text_range(x, alt) {
            Some((a, b)) => x.subrange(a, b),
            None => fallback,
        },
    }
}

pub open spec fn opf_title(x: Seq<u8>) -> Seq<u8> {
    text_or(x, sb("dc:title"), sb("title"), sb("Untitled"))
}

pub open spec fn opf_author(x: Seq<u8>) -> Seq<u8> {
    text_or(x, sb("dc:creator"), sb("creator"), sb("Unknown Author"))
}

/// The error that parsing the package document `x` ends in, if any.
pub open spec fn opf_error(x: Seq<u8>) -> Option<EpubError> {
    if manifest_from(x, 0).len() > 96 {
        Some(EpubError::TooManyManifestItems)
    } else if spine_from(x, 0, manifest_from(x, 0)).len() > 64 {
        Some(EpubError::TooManySpineItems)
    } else {
        None
    }
}

/// Whether `p` is the package that the document `x` describes.
pub open spec fn package_is(
    p: EpubPackage,
    x: Seq<u8>,
    book_id: BookId,
    source_path: &str,
    byte_size: u32,
) -> bool {
    &&& p.meta.id == book_id
    &&& sb(p.meta.title) == opf_title(x)
    &&& sb(p.meta.author) == opf_author(x)
    &&& p.meta.source_path == source_path
    &&& p.meta.byte_size == byte_size
    &&& p.meta.source == BookSource::MicroSd
    &&& p.meta.cover_status == (if has_cover(manifest_from(x, 0)) {
        CoverStatus::Present
    } else {
        CoverStatus::Missing
    })
    &&& manifest_items(p.manifest).map_values(|m: ManifestItem| manifest_model(m)) == manifest_from(
        x,
        0,
    )
    &&& spine_items(p.spine).map_values(|s: SpineItem| spine_model(s)) == spine_from(
        x,
        0,
        manifest_from(x, 0),
    )
}

proof fn lemma_literal_nonempty()
    ensures
        sb("id").len() > 0,
        sb("href").len() > 0,
        sb("media-type").len() > 0,
        sb("idref").len() > 0,
        sb("").len() == 0,
{
    reveal_strlit("id");
    reveal_strlit("href");
    reveal_strlit("media-type");
    reveal_strlit("idref");
    reveal_strlit("");
    assert(vstd::string::is_ascii("id"));
    assert(vstd::string::is_ascii("href"));
    assert(vstd::string::is_ascii("media-type"));
    assert(vstd::string::is_ascii("idref"));
    assert(vstd::string::is_ascii(""));
}

fn collect_manifest<'a>(opf_xml: &'a str) -> (r: Result<heapless::Vec<ManifestItem<'a>, 96>, EpubError>)
    ensures
        manifest_from(sb(opf_xml), 0).len() <= 96 ==> (r matches Ok(v) && manifest_items(v).map_values(
            |m: ManifestItem| manifest_model(m),
        ) == manifest_from(sb(opf_xml), 0)),
        manifest_from(sb(opf_xml), 0).len() > 96 ==> r == Err::<
            heapless::Vec<ManifestItem<'a>, 96>,
            EpubError,
        >(EpubError::TooManyManifestItems),
{
    proof {
        lemma_str_valid(opf_xml);
        lemma_literal_nonempty();
    }
    let ghost x = sb(opf_xml);
    let mut manifest = manifest_new();
    let mut cursor: usize = 0;
    loop
        invariant
            x == sb(opf_xml),
            valid_utf8(x),
            cursor <= x.len(),
            is_cut(x, cursor as int),
            sb("id").len() > 0,
            sb("href").len() > 0,
            sb("media-type").len() > 0,
            sb("").len() == 0,
            manifest_items(manifest).len() <= 96,
            manifest_items(manifest).map_values(|m: ManifestItem| manifest_model(m)) + manifest_from(
                x,
                cursor as int,
            ) == manifest_from(x, 0),
        decreases x.len() - cursor,
    {
        let ghost c = cursor as int;
        let ghost before = manifest_items(manifest).map_values(|m: ManifestItem| manifest_model(m));
        proof {
            lemma_scan_start_tag(x, sb("item"), c);
        }
        let (tag, next) = match next_start_tag(opf_xml, "item", cursor) {
            Some(found) => found,
            None => {
                proof {
                    assert(before =~= manifest_from(x, 0));
                }
                return Ok(manifest);
            },
        };
        cursor = next;
        let id: &'a str = match attr_value(tag, "id") {
            Some(v) => v,
            None => {
                continue;
            },
        };
        let href: &'a str = match attr_value(tag, "href") {
            Some(v) => v,
            None => {
                continue;
            },
        };
        let media_type: &'a str = match attr_value(tag, "media-type") {
            Some(v) => v,
            None => "",
        };
        let item = ManifestItem { id, href, media_type };
        match manifest_push(&mut manifest, item) {
            Ok(()) => {
                proof {
                    assert(manifest_items(manifest).map_values(|m: ManifestItem| manifest_model(m))
                        =~= before.push(manifest_model(item)));
                    assert(manifest_from(x, c) == seq![manifest_model(item)] + manifest_from(
                        x,
                        cursor as int,
                    ));
                    assert(before.push(manifest_model(item)) + manifest_from(x, cursor as int)
                        =~= before + manifest_from(x, c));
                }
            },
            Err(_) => {
                proof {
                    assert(manifest_from(x, c).len() > 0);
                    assert(manifest_from(x, 0).len() == before.len() + manifest_from(x, c).len());
                }
                return Err(EpubError::TooManyManifestItems);
            },
        }
    }
}

/// The href of the first manifest item whose id is `idref`, or the empty string.
fn href_lookup<'a>(items: &[ManifestItem<'a>], idref: &str) -> (r: &'a str)
    ensures
        sb(r) == href_for(items@.map_values(|m: ManifestItem| manifest_model(m)), sb(idref), 0),
{
    let ghost models = items@.map_values(|m: ManifestItem| manifest_model(m));
    let mut i: usize = 0;
    while i < items.len()
        invariant
            i <= items@.len(),
            models == items@.map_values(|m: ManifestItem| manifest_model(m)),
            href_for(models, sb(idref), 0) == href_for(models, sb(idref), i as int),
        decreases items@.len() - i,
    {
        if str_eq(items[i].id, idref) {
            return items[i].href;
        }
        i = i + 1;
    }
    proof {
        reveal_strlit("");
        assert(vstd::string::is_ascii(""));
    }
    ""
}

fn collect_spine<'a>(opf_xml: &'a str, manifest: &heapless::Vec<ManifestItem<'a>, 96>) -> (r: Result<
    heapless::Vec<SpineItem<'a>, 64>,
    EpubError,
>)
    ensures
        ({
            let man = manifest_items(*manifest).map_values(|m: ManifestItem| manifest_model(m));
            &&& spine_from(sb(opf_xml), 0, man).len() <= 64 ==> (r matches Ok(v) && spine_items(
                v,
            ).map_values(|s: SpineItem| spine_model(s)) == spine_from(sb(opf_xml), 0, man))
            &&& spine_from(sb(opf_xml), 0, man).len() > 64 ==> r == Err::<
                heapless::Vec<SpineItem<'a>, 64>,
                EpubError,
            >(EpubError::TooManySpineItems)
        }),
{
    proof {
        lemma_str_valid(opf_xml);
        lemma_literal_nonempty();
    }
    let ghost x = sb(opf_xml);
    let items: &[ManifestItem<'a>] = manifest_as_slice(manifest);
    let ghost man = items@.map_values(|m: ManifestItem| manifest_model(m));
    let mut spine = spine_new();
    let mut cursor: usize = 0;
    loop
        invariant
            x == sb(opf_xml),
            valid_utf8(x),
            man == manifest_items(*manifest).map_values(|m: ManifestItem| manifest_model(m)),
            man == items@.map_values(|m: ManifestItem| manifest_model(m)),
            cursor <= x.len(),
            is_cut(x, cursor as int),
            sb("idref").len() > 0,
            spine_items(spine).len() <= 64,
            spine_items(spine).map_values(|s: SpineItem| spine_model(s)) + spine_from(
                x,
                cursor as int,
                man,
            ) == spine_from(x, 0, man),
        decreases x.len() - cursor,
    {
        let ghost c = cursor as int;
        let ghost before = spine_items(spine).map_values(|s: SpineItem| spine_model(s));
        proof {
            lemma_scan_start_tag(x, sb("itemref"), c);
        }
        let (tag, next) = match next_start_tag(opf_xml, "itemref", cursor) {
            Some(found) => found,
            None => {
                proof {
                    assert(before =~= spine_from(x, 0, man));
                }
                return Ok(spine);
            },
        };
        cursor = next;
        let idref: &'a str = match attr_value(tag, "idref") {
            Some(v) => v,
            None => {
                continue;
            },
        };
        let href: &'a str = href_lookup(items, idref);
        let item = SpineItem { idref, href };
        match spine_push(&mut spine, item) {
            Ok(()) => {
                proof {
                    assert(spine_items(spine).map_values(|s: SpineItem| spine_model(s))
                        =~= before.push(spine_model(item)));
                    assert(spine_from(x, c, man) == seq![spine_model(item)] + spine_from(
                        x,
                        cursor as int,
                        man,
                    ));
                    assert(before.push(spine_model(item)) + spine_from(x, cursor as int, man)
                        =~= before + spine_from(x, c, man));
                }
            },
            Err(_) => {
                proof {
                    assert(spine_from(x, c, man).len() > 0);
                    assert(spine_from(x, 0, man).len() == before.len() + spine_from(x, c, man).len());
                }
                return Err(EpubError::TooManySpineItems);
            },
        }
    }
}

/// Reads the package document: title and author (with fallbacks), the manifest,
/// the spine resolved against the manifest, and whether a cover is present.
pub fn parse_opf<'a>(
    opf_xml: &'a str,
    book_id: BookId,
    source_path: &'a str,
    byte_size: u32,
    opf_path: &'a str,
) -> (r: Result<EpubPackage<'a>, EpubError>)
    ensures
        match opf_error(sb(opf_xml)) {
            Some(e) => r matches Err(f) && f == e,
            None => r matches Ok(p) && package_is(p, sb(opf_xml), book_id, source_path, byte_size)
                && p.opf_path == opf_path,
        },
{
    let title: &'a str = match element_text(opf_xml, "dc:title") {
        Some(t) => t,
        None => match element_text(opf_xml, "title") {
            Some(t) => t,
            None => "Untitled",
        },
    };
    let author: &'a str = match element_text(opf_xml, "dc:creator") {
        Some(t) => t,
        None => match element_text(opf_xml, "creator") {
            Some(t) => t,
            None => "Unknown Author",
        },
    };
    let manifest = match collect_manifest(opf_xml) {
        Ok(m) => m,
        Err(e) => {
            return Err(e);
        },
    };
    let spine = match collect_spine(opf_xml, &manifest) {
        Ok(s) => s,
        Err(e) => {
            return Err(e);
        },
    };
    let cover: CoverStatus = cover_status(manifest_as_slice(&manifest));
    Ok(
        EpubPackage {
            meta: BookMeta {
                id: book_id,
                title,
                author,
                source_path,
                byte_size,
                source: BookSource::MicroSd,
                cover_status: cover,
            },
            opf_path,
            manifest,
            spine,
        },
    )
}

// ---------------------------------------------------------------------------
// Loading a book
/// The bytes of the named entry of an archive with the given central
/// directory, read into a buffer of `cap` bytes, when they are well-formed UTF-8.
pub open spec fn entry_text(b: Seq<u8>, off: int, count: int, name: Seq<u8>, cap: nat, missing: Option<
    EpubError,
>) -> Result<Seq<u8>, EpubError> {
    match find_entry_from(b, off, count as nat, name) {
        Err(e) => Err(
            match missing {
                Some(m) => m,
                None => EpubError::Zip(e),
            },
        ),
        Ok(f) => match archive_read(b, f.2, f.3, f.5, cap) {
            Err(e) => Err(EpubError::Zip(e)),
            Ok(d) => if valid_utf8(d) {
                Ok(d)
            } else {
                Err(EpubError::Utf8)
            },
        },
    }
}

/// The package path and package document bytes that loading an EPUB reads, with
/// scratch buffers of `container_cap` and `opf_cap` bytes, or the error it ends in.
pub open spec fn load_source(b: Seq<u8>, container_cap: nat, opf_cap: nat) -> Result<
    (Seq<u8>, Seq<u8>),
    EpubError,
> {
    match archive_layout(b) {
        Err(e) => Err(EpubError::Zip(e)),
        Ok((off, count)) => match entry_text(
            b,
            off,
            count,
            sb("META-INF/container.xml"),
            container_cap,
            None,
        ) {
            Err(e) => Err(e),
            Ok(cx) => match scan_attr_in_tags(cx, sb("rootfile"), sb("full-path"), 0) {
                None => Err(EpubError::MissingOpfPath),
                Some((pa, pb)) => match entry_text(
                    b,
                    off,
                    count,
                    cx.subrange(pa, pb),
                    opf_cap,
                    Some(EpubError::MissingOpf),
                ) {
                    Err(e) => Err(e),
                    Ok(ox) => Ok((cx.subrange(pa, pb), ox)),
                },
            },
        },
    }
}

/// Reads the named entry of `zip` into `scratch` and views it as text.
fn read_entry_text<'a>(
    zip: &ZipArchive<'a>,
    name: &str,
    scratch: &'a mut [u8],
    missing: Option<EpubError>,
) -> (r: Result<&'a str, EpubError>)
    ensures
        match entry_text(
            zip.data(),
            zip.central_offset(),
            zip.entry_count(),
            sb(name),
            old(scratch)@.len() as nat,
            missing,
        ) {
            Err(e) => r matches Err(f) && f == e,
            Ok(d) => r matches Ok(t) && sb(t) == d,
        },
{
    let entry = match zip.find(name) {
        Ok(e) => e,
        Err(e) => {
            return Err(
                match missing {
                    Some(m) => m,
                    None => EpubError::Zip(e),
                },
            );
        },
    };
    let len: usize = match zip.read_entry(entry, scratch) {
        Ok(n) => n,
        Err(e) => {
            return Err(EpubError::Zip(e));
        },
    };
    let all: &'a [u8] = scratch;
    let bytes: &'a [u8] = vstd::slice::slice_subrange(all, 0, len);
    match str_from_utf8(bytes) {
        Ok(s) => Ok(s),
        Err(_) => Err(EpubError::Utf8),
    }
}

/// Opens an EPUB held in memory: finds the package document through
/// `META-INF/container.xml`, reads it into `opf_scratch` and parses it.
pub fn load_epub_package<'a>(
    epub_bytes: &'a [u8],
    container_scratch: &'a mut [u8],
    opf_scratch: &'a mut [u8],
    book_id: BookId,
    source_path: &'a str,
) -> (r: Result<EpubPackage<'a>, EpubError>)
    ensures
        match load_source(epub_bytes@, old(container_scratch)@.len() as nat, old(opf_scratch)@.len() as nat) {
            Err(e) => r matches Err(f) && f == e,
            Ok((path, opf)) => match opf_error(opf) {
                Some(e) => r matches Err(f) && f == e,
                None => r matches Ok(p) && package_is(
                    p,
                    opf,
                    book_id,
                    source_path,
                    epub_bytes@.len() as u32,
                ) && sb(p.opf_path) == path,
            },
        },
{
    proof {
        reveal_strlit("full-path");
        assert(vstd::string::is_ascii("full-path"));
    }
    let zip = match ZipArchive::new(epub_bytes) {
        Ok(z) => z,
        Err(e) => {
            return Err(EpubError::Zip(e));
        },
    };
    let container_xml: &'a str = match read_entry_text(&zip, "META-INF/container.xml", container_scratch, None) {
        Ok(t) => t,
        Err(e) => {
            return Err(e);
        },
    };
    let opf_path: &'a str = match find_attr_value(container_xml, "rootfile", "full-path") {
        Some(p) => p,
        None => {
            return Err(EpubError::MissingOpfPath);
        },
    };
    let opf_xml: &'a str = match read_entry_text(&zip, opf_path, opf_scratch, Some(EpubError::MissingOpf)) {
        Ok(t) => t,
        Err(e) => {
            return Err(e);
        },
    };
    parse_opf(opf_xml, book_id, source_path, epub_bytes.len() as u32, opf_path)
}

/// Whether `href` is what the manifest `man` gives for `id`: the href of the
/// first item with that id, or nothing when no item has it.
pub open spec fn resolves(man: Seq<ManifestModel>, id: Seq<u8>, href: Seq<u8>) -> bool {
    ||| exists|k: int|
        0 <= k < man.len() && (#[trigger] man[k]).0 == id && man[k].1 == href && forall|l: int|
            0 <= l < k ==> (#[trigger] man[l]).0 != id
    ||| href.len() == 0 && forall|k: int| 0 <= k < man.len() ==> (#[trigger] man[k]).0 != id
}

proof fn lemma_href_for(man: Seq<ManifestModel>, id: Seq<u8>, i: int)
    requires
        0 <= i,
        forall|l: int| 0 <= l < i && l < man.len() ==> (#[trigger] man[l]).0 != id,
    ensures
        resolves(man, id, href_for(man, id, i)),
    decreases man.len() - i,
{
    if i < man.len() && man[i].0 != id {
        lemma_href_for(man, id, i + 1);
    }
}

proof fn lemma_spine_from_resolves(x: Seq<u8>, c: int, man: Seq<ManifestModel>)
    ensures
        forall|j: int|
            0 <= j < spine_from(x, c, man).len() ==> (#[trigger] spine_from(x, c, man)[j]).1
                == href_for(man, spine_from(x, c, man)[j].0, 0),
    decreases x.len() + 1 - c,
{
    if let Some((a, b, n)) = scan_start_tag(x, sb("itemref"), c) {
        if c < n <= x.len() {
            lemma_spine_from_resolves(x, n, man);
            let t = x.subrange(a, b);
            let rest = spine_from(x, n, man);
            let all = spine_from(x, c, man);
            if let Some((ia, ib)) = scan_attr(t, sb("idref"), 0) {
                assert forall|j: int| 0 <= j < all.len() implies (#[trigger] all[j]).1 == href_for(
                    man,
                    all[j].0,
                    0,
                ) by {
                    if j > 0 {
                        assert(all[j] == rest[j - 1]);
                    }
                }
            }
        }
    }
}

/// Every spine item of a package document takes its href from the manifest:
/// the href of the first manifest item whose id is the item's idref, or none
/// when no manifest item has that id.
pub proof fn lemma_spine_resolves_through_manifest(x: Seq<u8>)
    ensures
        forall|j: int|
            0 <= j < spine_from(x, 0, manifest_from(x, 0)).len() ==> resolves(
                manifest_from(x, 0),
                (#[trigger] spine_from(x, 0, manifest_from(x, 0))[j]).0,
                spine_from(x, 0, manifest_from(x, 0))[j].1,
            ),
{
    let man = manifest_from(x, 0);
    lemma_spine_from_resolves(x, 0, man);
    assert forall|j: int| 0 <= j < spine_from(x, 0, man).len() implies resolves(
        man,
        (#[trigger] spine_from(x, 0, man)[j]).0,
        spine_from(x, 0, man)[j].1,
    ) by {
        lemma_href_for(man, spine_from(x, 0, man)[j].0, 0);
    }
}

/// Every run of a chapter holds non-blank text, trimmed at both ends, and no
/// markup.
pub proof fn lemma_runs_trimmed(x: Seq<u8>, c: int, st: RunState)
    requires
        0 <= c,
    ensures
        forall|j: int| 0 <= j < runs_from(x, c, st).len() ==> trimmed_text(
            (#[trigger] runs_from(x, c, st)[j]).0,
        ),
    decreases x.len() - c,
{
    let (t, n) = scan_token(x, c);
    if let Some((k, a, b)) = t {
        if c < n <= x.len() {
            let s = x.subrange(a, b);
            match k {
                TokenKind::Text => {
                    lemma_text_token_trimmed(x, c);
                    lemma_runs_trimmed(x, n, st);
                    let rest = runs_from(x, n, st);
                    let all = runs_from(x, c, st);
                    lemma_ws_sub(x, a, b);
                    assert(trimmed_text(s));
                    assert forall|j: int| 0 <= j < all.len() implies trimmed_text(
                        (#[trigger] all[j]).0,
                    ) by {
                        if j > 0 {
                            assert(all[j] == rest[j - 1]);
                        }
                    }
                },
                TokenKind::Start => {
                    lemma_runs_trimmed(x, n, after_start(s, st));
                    assert(runs_from(x, c, st) == runs_from(x, n, after_start(s, st)));
                },
                TokenKind::End => {
                    lemma_runs_trimmed(x, n, after_end(s, st));
                    assert(runs_from(x, c, st) == runs_from(x, n, after_end(s, st)));
                },
            }
        }
    }
}

/// Text directly inside a heading is set in that heading's role, in bold: in
/// a chapter, a start tag `<h1>`, `<h2>` or `<h3>` followed by character data
/// makes the next run carry role `Heading1`, `Heading2` or `Heading3`
/// respectively, and a bold face.
pub proof fn lemma_heading_runs(x: Seq<u8>, c: int, st: RunState, d: u8)
    requires
        valid_utf8(x),
        0 <= c,
        c + 4 <= x.len(),
        x[c] == 0x3c,
        x[c + 1] == 0x68,
        x[c + 2] == d,
        x[c + 3] == 0x3e,
        d == 0x31 || d == 0x32 || d == 0x33,
        scan_token(x, c + 4).0 matches Some((TokenKind::Text, _, _)),
    ensures
        runs_from(x, c, st).len() > 0,
        runs_from(x, c, st)[0].1 == (if d == 0x31 {
            TextRole::Heading1
        } else if d == 0x32 {
            TextRole::Heading2
        } else {
            TextRole::Heading3
        }),
        runs_from(x, c, st)[0].2 == FontStyle::Bold || runs_from(x, c, st)[0].2
            == FontStyle::BoldItalic,
{
    reveal_strlit("h1");
    reveal_strlit("h2");
    reveal_strlit("h3");
    reveal_strlit("blockquote");
    reveal_strlit("strong");
    reveal_strlit("b");
    reveal_strlit("em");
    reveal_strlit("i");
    assert(vstd::string::is_ascii("h1"));
    assert(vstd::string::is_ascii("h2"));
    assert(vstd::string::is_ascii("h3"));
    assert(vstd::string::is_ascii("blockquote"));
    assert(vstd::string::is_ascii("strong"));
    assert(vstd::string::is_ascii("b"));
    assert(vstd::string::is_ascii("em"));
    assert(vstd::string::is_ascii("i"));
    assert(sb("h1") =~= seq![0x68u8, 0x31u8]);
    assert(sb("h2") =~= seq![0x68u8, 0x32u8]);
    assert(sb("h3") =~= seq![0x68u8, 0x33u8]);
    assert(sb("em") =~= seq![0x65u8, 0x6du8]);
    assert(find_byte(x, c + 3, 0x3e) == Some(c + 3));
    assert(find_byte(x, c + 2, 0x3e) == Some(c + 3));
    assert(find_byte(x, c + 1, 0x3e) == Some(c + 3));
    assert(skip_ws(x, c + 1, c + 3) == c + 1);
    assert(skip_ws_back(x, c + 1, c + 3) == c + 3);
    assert(first_ws(x, c + 3, c + 3) == c + 3);
    assert(first_ws(x, c + 2, c + 3) == c + 3);
    assert(first_ws(x, c + 1, c + 3) == c + 3);
    let name = x.subrange(c + 1, c + 3);
    assert(name =~= seq![0x68u8, d]);
    assert(scan_token(x, c) == (Some((TokenKind::Start, c + 1, c + 3)), c + 4));
    lemma_cut_after_char(x, c + 3);
    lemma_scan_token(x, c + 4);
    let st2 = after_start(name, st);
    assert(st2.1 == inc(st.1));
    assert(runs_from(x, c, st) == runs_from(x, c + 4, st2));
}

} // verus!
