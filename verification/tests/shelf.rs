use xteink_x4::book::{BookId, BookMeta, BookProgress, BookSource, Catalog, CoverStatus};
use xteink_x4::catalog::{
    active_book, book_at, book_count, books, chapter_at, chapter_count, chapters, reader_page,
    ReaderLine, ReaderLineStyle, ACTIVE_BOOK_ID, READER_PAGE_COUNT,
};
use xteink_x4::layout::{Layout, NodeKind, Rect, TextSpan, MAX_NODES, NO_NODE};

fn meta(id: u32, title: &'static str) -> BookMeta<'static> {
    BookMeta {
        id: BookId(id),
        title,
        author: "A",
        source_path: "/books/x.epub",
        byte_size: 0,
        source: BookSource::MicroSd,
        cover_status: CoverStatus::Unknown,
    }
}

#[test]
fn the_builtin_shelf_has_one_book() {
    assert_eq!(book_count(), 1);
    assert_eq!(books().len(), 1);
    let book = book_at(0).expect("one book");
    assert_eq!(book.title, "Flowers for Algernon");
    assert_eq!(book.author, "Daniel Keyes");
    assert_eq!(book.source, BookSource::BuiltIn);
    assert_eq!(book_at(1), None);
}

#[test]
fn the_active_book_falls_back_to_the_first() {
    assert_eq!(active_book(ACTIVE_BOOK_ID).id, BookId(1));
    assert_eq!(active_book(99), book_at(0).unwrap());
}

#[test]
fn the_builtin_book_has_four_chapters() {
    assert_eq!(chapter_count(), 4);
    assert_eq!(chapters().len(), 4);
    let third = chapter_at(2).expect("third chapter");
    assert_eq!(third.title, "Power");
    assert_eq!(third.spine_index, 2);
    assert_eq!(third.source_href, "demo/power.xhtml");
    assert_eq!(chapter_at(4), None);
}

#[test]
fn reader_pages_hold_their_lines() {
    let first = reader_page(0).expect("first page");
    assert_eq!(first.len(), 5);
    assert_eq!(
        first[0],
        ReaderLine::new("A quiet page, finally", ReaderLineStyle::Heading, 18)
    );
    assert_eq!(reader_page(2).unwrap().len(), 3);
    assert_eq!(reader_page(3).unwrap()[0].text, "Storage");
    assert!(reader_page(READER_PAGE_COUNT).is_none());
}

#[test]
fn catalog_lookups() {
    let shelf = [meta(3, "c"), meta(5, "e"), meta(3, "c-again")];
    let catalog = Catalog::new(&shelf);
    assert_eq!(catalog.len(), 3);
    assert!(!catalog.is_empty());
    assert_eq!(catalog.first().unwrap().title, "c");
    assert_eq!(catalog.by_id(BookId(3)).unwrap().title, "c");
    assert_eq!(catalog.by_id(BookId(5)).unwrap().title, "e");
    assert_eq!(catalog.by_id(BookId(4)), None);
    assert_eq!(catalog.get(2).unwrap().title, "c-again");
    assert_eq!(catalog.get(3), None);
    assert_eq!(catalog.books().len(), 3);
    let empty = Catalog::new(&[]);
    assert!(empty.is_empty());
    assert_eq!(empty.first(), None);
}

#[test]
fn progress_keeps_its_fields() {
    let p = BookProgress::new(2, 40, 515);
    assert_eq!(p.spine_index, 2);
    assert_eq!(p.rendered_screen_index, 40);
    assert_eq!(p.whole_book_permille, 515);
}

#[test]
fn layout_reads_back_pushed_nodes() {
    let mut layout = Layout::<4>::new();
    assert_eq!(layout.len, 0);
    assert_eq!(layout.parents[3], NO_NODE);
    let rect = Rect::new(1, 2, 3, 4);
    let span = TextSpan { offset: 7, len: 9 };
    assert_eq!(layout.push(NodeKind::Text, rect, NO_NODE, span), Some(0));
    assert_eq!(layout.push(NodeKind::Rule, Rect::default(), 0, TextSpan::default()), Some(1));
    assert_eq!(layout.kinds[0], NodeKind::Text);
    assert_eq!(layout.rects[0], rect);
    assert_eq!(layout.text[0], span);
    assert_eq!(layout.parents[1], 0);
    assert_eq!(layout.len, 2);
}

#[test]
fn a_full_layout_refuses_nodes() {
    let mut layout = Layout::<2>::default();
    assert!(layout.push(NodeKind::Text, Rect::default(), NO_NODE, TextSpan::default()).is_some());
    assert!(layout.push(NodeKind::Text, Rect::default(), NO_NODE, TextSpan::default()).is_some());
    assert_eq!(layout.push(NodeKind::Progress, Rect::default(), NO_NODE, TextSpan::default()), None);
    assert_eq!(layout.len, 2);
    let mut big = Layout::<70>::new();
    for _ in 0..MAX_NODES {
        assert!(big.push(NodeKind::Text, Rect::default(), NO_NODE, TextSpan::default()).is_some());
    }
    assert_eq!(big.push(NodeKind::Text, Rect::default(), NO_NODE, TextSpan::default()), None);
    assert_eq!(big.len as usize, MAX_NODES);
}
