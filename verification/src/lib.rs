//! Verified core of a light e-reader firmware: EPUB/ZIP parsing, XML scanning,
//! the 1-bit framebuffer and its PBM image, the UI layout arena, the book
//! catalog and the card library's catalog snapshot.
pub mod book;
pub mod catalog;
pub mod epub;
pub mod fb;
pub mod hl;
pub mod layout;
pub mod library;
pub mod pbm;
pub mod strs;
pub mod text;
pub mod wifi_sync;
pub mod xml;
pub mod zip;
pub mod zip_stream;
