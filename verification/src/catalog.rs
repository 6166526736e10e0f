//! The built-in shelf: one demo book, its chapters and its reader pages.
use vstd::prelude::*;
use crate::book::{BookId, BookMeta, BookSource, ChapterMeta, CoverStatus, first_with_id};

verus! {

/// Id of the book that is open when the device starts.
pub const ACTIVE_BOOK_ID: u32 = 1;

/// The built-in book.
pub open spec fn builtin_book() -> BookMeta<'static> {
    BookMeta {
        id: BookId(1),
        title: "Flowers for Algernon",
        author: "Daniel Keyes",
        source_path: "/books/flowers-for-algernon.epub",
        byte_size: 0,
        source: BookSource::BuiltIn,
        cover_status: CoverStatus::Missing,
    }
}

/// The built-in shelf.
pub open spec fn builtin_books() -> Seq<BookMeta<'static>> {
    seq![builtin_book()]
}

/// The chapters of the built-in book.
pub open spec fn builtin_chapters() -> Seq<ChapterMeta<'static>> {
    seq![
        ChapterMeta { title: "Bring Up", spine_index: 0, source_href: "demo/bring-up.xhtml" },
        ChapterMeta {
            title: "Architecture",
            spine_index: 1,
            source_href: "demo/architecture.xhtml",
        },
        ChapterMeta { title: "Power", spine_index: 2, source_href: "demo/power.xhtml" },
        ChapterMeta {
            title: "Next Phase",
            spine_index: 3,
            source_href: "demo/next-phase.xhtml",
        },
    ]
}

/// The built-in shelf.
pub fn books() -> (r: [BookMeta<'static>; 1])
    ensures
        r@ == builtin_books(),
{
    let r = [
        BookMeta {
            id: BookId(1),
            title: "Flowers for Algernon",
            author: "Daniel Keyes",
            source_path: "/books/flowers-for-algernon.epub",
            byte_size: 0,
            source: BookSource::BuiltIn,
            cover_status: CoverStatus::Missing,
        },
    ];
    assert(r@ =~= builtin_books());
    r
}

/// The chapters of the built-in book.
pub fn chapters() -> (r: [ChapterMeta<'static>; 4])
    ensures
        r@ == builtin_chapters(),
{
    let r = [
        ChapterMeta { title: "Bring Up", spine_index: 0, source_href: "demo/bring-up.xhtml" },
        ChapterMeta {
            title: "Architecture",
            spine_index: 1,
            source_href: "demo/architecture.xhtml",
        },
        ChapterMeta { title: "Power", spine_index: 2, source_href: "demo/power.xhtml" },
        ChapterMeta {
            title: "Next Phase",
            spine_index: 3,
            source_href: "demo/next-phase.xhtml",
        },
    ];
    assert(r@ =~= builtin_chapters());
    r
}

/// The book `active_book` opens for `book_id`: the shelf's book with that id, or
/// the first book.
pub open spec fn active_book_for(book_id: u32) -> BookMeta<'static> {
    match first_with_id(builtin_books(), BookId(book_id), 0) {
        Some(i) => builtin_books()[i],
        None => builtin_books()[0],
    }
}

/// The shelf's book with id `book_id`, or the first book when none has it.
pub fn active_book(book_id: u32) -> (r: BookMeta<'static>)
    ensures
        r == active_book_for(book_id),
{
    let shelf = books();
    let mut i: usize = 0;
    while i < 1
        invariant
            i <= 1,
            shelf@ == builtin_books(),
            first_with_id(builtin_books(), BookId(book_id), 0) == first_with_id(
                builtin_books(),
                BookId(book_id),
                i as int,
            ),
        decreases 1 - i,
    {
        if shelf[i].id.0 == book_id {
            return shelf[i];
        }
        i = i + 1;
    }
    shelf[0]
}

pub fn book_at(index: usize) -> (r: Option<BookMeta<'static>>)
    ensures
        r == (if index < builtin_books().len() {
            Some(builtin_books()[index as int])
        } else {
            None
        }),
{
    let shelf = books();
    if index < 1 {
        Some(shelf[index])
    } else {
        None
    }
}

pub fn book_count() -> (r: u8)
    ensures
        r == builtin_books().len(),
{
    1
}

pub fn chapter_at(index: usize) -> (r: Option<ChapterMeta<'static>>)
    ensures
        r == (if index < builtin_chapters().len() {
            Some(builtin_chapters()[index as int])
        } else {
            None
        }),
{
    let list = chapters();
    if index < 4 {
        Some(list[index])
    } else {
        None
    }
}

pub fn chapter_count() -> (r: u8)
    ensures
        r == builtin_chapters().len(),
{
    4
}

#[derive(Clone, Copy, Debug, PartialEq, Eq, Structural)]
pub enum ReaderLineStyle {
    Heading,
    Body,
    Italic,
    Bold,
    Quote,
}

/// One line of a demo reader page: its text, style and the gap below it.
#[derive(Clone, Copy, Debug, PartialEq, Eq)]
pub struct ReaderLine {
    pub text: &'static str,
    pub style: ReaderLineStyle,
    pub gap_after: u8,
}

impl ReaderLine {
    pub fn new(text: &'static str, style: ReaderLineStyle, gap_after: u8) -> (r: Self)
        ensures
            r == (ReaderLine { text, style, gap_after }),
    {
        Self { text, style, gap_after }
    }
}

/// Number of demo reader pages.
pub const READER_PAGE_COUNT: usize = 4;

/// The lines of each demo reader page.
pub open spec fn reader_page_lines(index: int) -> Seq<ReaderLine> {
    if index == 0 {
        seq![
            ReaderLine { text: "A quiet page, finally", style: ReaderLineStyle::Heading, gap_after: 18 },
            ReaderLine { text: "This is the first proper Literata reading proof on the X4. It uses uppercase, lowercase, punctuation, and enough ordinary sentence rhythm to show whether the page breathes.", style: ReaderLineStyle::Body, gap_after: 14 },
            ReaderLine { text: "Italic text should feel softer, not like a debug overlay.", style: ReaderLineStyle::Italic, gap_after: 10 },
            ReaderLine { text: "Bold text marks headings, chapter names, and emphasis.", style: ReaderLineStyle::Bold, gap_after: 14 },
            ReaderLine { text: "The margins are intentionally narrow because the device already gives the page a physical white border.", style: ReaderLineStyle::Body, gap_after: 0 },
        ]
    } else if index == 1 {
        seq![
            ReaderLine { text: "Typography model", style: ReaderLineStyle::Heading, gap_after: 18 },
            ReaderLine { text: "EPUB text becomes styled runs before it reaches the panel. The renderer can choose Regular, Italic, Bold, or Bold Italic without changing the app state or reader controls.", style: ReaderLineStyle::Body, gap_after: 14 },
            ReaderLine { text: "Block quotes will get indentation and a quieter italic voice.", style: ReaderLineStyle::Quote, gap_after: 10 },
            ReaderLine { text: "Bookerly stays user-provided later; Literata ships built in.", style: ReaderLineStyle::Body, gap_after: 0 },
        ]
    } else if index == 2 {
        seq![
            ReaderLine { text: "Pagination", style: ReaderLineStyle::Heading, gap_after: 18 },
            ReaderLine { text: "A reader should never build a giant layout tree just to turn one page. The firmware keeps cursors and bounded runs, then paints exactly the screen it needs.", style: ReaderLineStyle::Body, gap_after: 14 },
            ReaderLine { text: "Async input is coalesced while the display refreshes, so the CPU can go quiet instead of chasing a backlog of stale pages.", style: ReaderLineStyle::Body, gap_after: 0 },
        ]
    } else {
        seq![
            ReaderLine { text: "Storage", style: ReaderLineStyle::Heading, gap_after: 18 },
            ReaderLine { text: "The next hardware step is the microSD reader path.", style: ReaderLineStyle::Body, gap_after: 8 },
            ReaderLine { text: "Files will scan /books first, then the card root, and parse real EPUB metadata for title and author.", style: ReaderLineStyle::Body, gap_after: 14 },
            ReaderLine { text: "Progress belongs beside the books: current path, chapter, screen cursor, orientation, and refresh policy.", style: ReaderLineStyle::Body, gap_after: 0 },
        ]
    }
}

/// The lines of demo reader page `index`, or `None` past the last page.
pub fn reader_page(index: usize) -> (r: Option<Vec<ReaderLine>>)
    ensures
        index < READER_PAGE_COUNT ==> (r matches Some(v) && v@ == reader_page_lines(index as int)),
        index >= READER_PAGE_COUNT ==> r is None,
{
    if index == 0 {
        Some(
            vec![
                ReaderLine::new("A quiet page, finally", ReaderLineStyle::Heading, 18),
                ReaderLine::new(
                    "This is the first proper Literata reading proof on the X4. It uses uppercase, lowercase, punctuation, and enough ordinary sentence rhythm to show whether the page breathes.",
                    ReaderLineStyle::Body,
                    14,
                ),
                ReaderLine::new(
                    "Italic text should feel softer, not like a debug overlay.",
                    ReaderLineStyle::Italic,
                    10,
                ),
                ReaderLine::new(
                    "Bold text marks headings, chapter names, and emphasis.",
                    ReaderLineStyle::Bold,
                    14,
                ),
                ReaderLine::new(
                    "The margins are intentionally narrow because the device already gives the page a physical white border.",
                    ReaderLineStyle::Body,
                    0,
                ),
            ],
        )
    } else if index == 1 {
        Some(
            vec![
                ReaderLine::new("Typography model", ReaderLineStyle::Heading, 18),
                ReaderLine::new(
                    "EPUB text becomes styled runs before it reaches the panel. The renderer can choose Regular, Italic, Bold, or Bold Italic without changing the app state or reader controls.",
                    ReaderLineStyle::Body,
                    14,
                ),
                ReaderLine::new(
                    "Block quotes will get indentation and a quieter italic voice.",
                    ReaderLineStyle::Quote,
                    10,
                ),
                ReaderLine::new(
                    "Bookerly stays user-provided later; Literata ships built in.",
                    ReaderLineStyle::Body,
                    0,
                ),
            ],
        )
    } else if index == 2 {
        Some(
            vec![
                ReaderLine::new("Pagination", ReaderLineStyle::Heading, 18),
                ReaderLine::new(
                    "A reader should never build a giant layout tree just to turn one page. The firmware keeps cursors and bounded runs, then paints exactly the screen it needs.",
                    ReaderLineStyle::Body,
                    14,
                ),
                ReaderLine::new(
                    "Async input is coalesced while the display refreshes, so the CPU can go quiet instead of chasing a backlog of stale pages.",
                    ReaderLineStyle::Body,
                    0,
                ),
            ],
        )
    } else if index == 3 {
        Some(
            vec![
                ReaderLine::new("Storage", ReaderLineStyle::Heading, 18),
                ReaderLine::new(
                    "The next hardware step is the microSD reader path.",
                    ReaderLineStyle::Body,
                    8,
                ),
                ReaderLine::new(
                    "Files will scan /books first, then the card root, and parse real EPUB metadata for title and author.",
                    ReaderLineStyle::Body,
                    14,
                ),
                ReaderLine::new(
                    "Progress belongs beside the books: current path, chapter, screen cursor, orientation, and refresh policy.",
                    ReaderLineStyle::Body,
                    0,
                ),
            ],
        )
    } else {
        None
    }
}

} // verus!
