//! Styled text runs produced from XHTML chapters.
use vstd::prelude::*;

verus! {

/// The structural role of a run of text.
#[derive(Clone, Copy, Debug, PartialEq, Eq, Structural)]
pub enum TextRole {
    Body,
    Heading1,
    Heading2,
    Heading3,
    BlockQuote,
}

/// The face a run of text is drawn with.
#[derive(Clone, Copy, Debug, PartialEq, Eq, Structural)]
pub enum FontStyle {
    Regular,
    Bold,
    Italic,
    BoldItalic,
}

/// A piece of text with one role and one style.
#[derive(Clone, Copy, Debug, PartialEq, Eq)]
pub struct TextRun<'a> {
    pub text: &'a str,
    pub role: TextRole,
    pub style: FontStyle,
}

impl<'a> TextRun<'a> {
    pub fn new(text: &'a str, role: TextRole, style: FontStyle) -> (r: Self)
        ensures
            r == (TextRun { text, role, style }),
    {
        TextRun { text, role, style }
    }
}

} // verus!
