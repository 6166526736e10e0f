//! Book metadata shared by the shelf, the reader and the sync protocol.
use vstd::prelude::*;

verus! {

pub const MAX_CATALOG_ITEMS: usize = 16;

pub const MAX_CHAPTERS: usize = 64;

pub const MAX_TITLE_BYTES: usize = 96;

pub const MAX_AUTHOR_BYTES: usize = 64;

pub const MAX_PATH_BYTES: usize = 160;

pub const MAX_CHAPTER_TITLE_BYTES: usize = 96;

#[derive(Clone, Copy, Debug, PartialEq, Eq, Structural)]
pub struct BookId(pub u32);

#[derive(Clone, Copy, Debug, PartialEq, Eq, Structural)]
pub enum BookSource {
    BuiltIn,
    MicroSd,
    SyncCache,
}

#[derive(Clone, Copy, Debug, PartialEq, Eq, Structural)]
pub enum CoverStatus {
    Unknown,
    Missing,
    Present,
}

#[derive(Clone, Copy, Debug, PartialEq, Eq)]
pub struct BookMeta<'a> {
    pub id: BookId,
    pub title: &'a str,
    pub author: &'a str,
    pub source_path: &'a str,
    pub byte_size: u32,
    pub source: BookSource,
    pub cover_status: CoverStatus,
}

/// Where the reader stands in a book.
#[derive(Clone, Copy, Debug, PartialEq, Eq, Structural)]
pub struct BookProgress {
    pub spine_index: u16,
    pub rendered_screen_index: u32,
    pub whole_book_permille: u16,
}

impl BookProgress {
    pub fn new(spine_index: u16, rendered_screen_index: u32, whole_book_permille: u16) -> (r: Self)
        ensures
            r == (BookProgress { spine_index, rendered_screen_index, whole_book_permille }),
    {
        Self { spine_index, rendered_screen_index, whole_book_permille }
    }
}

#[derive(Clone, Copy, Debug, PartialEq, Eq)]
pub struct ChapterMeta<'a> {
    pub title: &'a str,
    pub spine_index: u16,
    pub source_href: &'a str,
}

/// A read-only shelf of books.
#[derive(Clone, Copy, Debug, PartialEq, Eq)]
pub struct Catalog<'a> {
    books: &'a [BookMeta<'a>],
}

/// Index of the first book in `books` at or after `i` whose id is `id`.
pub open spec fn first_with_id(books: Seq<BookMeta>, id: BookId, i: int) -> Option<int>
    decreases books.len() - i,
{
    if i < 0 || i >= books.len() {
        None
    } else if books[i].id == id {
        Some(i)
    } else {
        first_with_id(books, id, i + 1)
    }
}

/// The book that `Catalog::by_id` finds: the first one with the id.
pub open spec fn book_with_id<'a>(books: Seq<BookMeta<'a>>, id: BookId) -> Option<BookMeta<'a>> {
    match first_with_id(books, id, 0) {
        Some(i) => Some(books[i]),
        None => None,
    }
}

impl<'a> View for Catalog<'a> {
    type V = Seq<BookMeta<'a>>;

    closed spec fn view(&self) -> Seq<BookMeta<'a>> {
        self.books@
    }
}

impl<'a> Catalog<'a> {
    pub fn new(books: &'a [BookMeta<'a>]) -> (r: Self)
        ensures
            r@ == books@,
    {
        Self { books }
    }

    pub fn len(&self) -> (r: usize)
        ensures
            r == self@.len(),
    {
        self.books.len()
    }

    pub fn is_empty(&self) -> (r: bool)
        ensures
            r == (self@.len() == 0),
    {
        self.books.len() == 0
    }

    pub fn books(&self) -> (r: &'a [BookMeta<'a>])
        ensures
            r@ == self@,
    {
        self.books
    }

    pub fn first(&self) -> (r: Option<BookMeta<'a>>)
        ensures
            r == (if self@.len() > 0 {
                Some(self@[0])
            } else {
                None
            }),
    {
        if self.books.len() > 0 {
            Some(self.books[0])
        } else {
            None
        }
    }

    pub fn by_id(&self, id: BookId) -> (r: Option<BookMeta<'a>>)
        ensures
            r == book_with_id(self@, id),
    {
        let mut i: usize = 0;
        while i < self.books.len()
            invariant
                i <= self.books@.len(),
                first_with_id(self.books@, id, 0) == first_with_id(self.books@, id, i as int),
            decreases self.books@.len() - i,
        {
            if self.books[i].id.0 == id.0 {
                return Some(self.books[i]);
            }
            i = i + 1;
        }
        None
    }

    pub fn get(&self, index: usize) -> (r: Option<BookMeta<'a>>)
        ensures
            r == (if index < self@.len() {
                Some(self@[index as int])
            } else {
                None
            }),
    {
        if index < self.books.len() {
            Some(self.books[index])
        } else {
            None
        }
    }
}

proof fn lemma_first_with_id(books: Seq<BookMeta>, id: BookId, i: int)
    requires
        0 <= i,
    ensures
        first_with_id(books, id, i) matches Some(k) ==> i <= k < books.len() && books[k].id == id
            && forall|j: int| i <= j < k ==> books[j].id != id,
        first_with_id(books, id, i) is None ==> forall|j: int| i <= j < books.len() ==> books[j].id
            != id,
    decreases books.len() - i,
{
    if i < books.len() && books[i].id != id {
        lemma_first_with_id(books, id, i + 1);
    }
}

/// Looking a book up by id gives the first book on the shelf with that id, and
/// nothing exactly when no book has it.
pub proof fn lemma_by_id_is_first_match<'a>(books: Seq<BookMeta<'a>>, id: BookId)
    ensures
        book_with_id(books, id) is None <==> forall|j: int| 0 <= j < books.len() ==> books[j].id
            != id,
        book_with_id(books, id) matches Some(b) ==> exists|k: int|
            0 <= k < books.len() && books[k] == b && b.id == id && forall|j: int|
                0 <= j < k ==> books[j].id != id,
{
    lemma_first_with_id(books, id, 0);
    if let Some(k) = first_with_id(books, id, 0) {
        assert(books[k] == books[k]);
    }
}

} // verus!
