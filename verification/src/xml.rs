//! A forgiving XML scanner: tokens for XHTML chapters, and tag and attribute
//! lookup for the EPUB container and package documents.
use vstd::prelude::*;
use vstd::utf8::valid_utf8;
use vstd::string::StringSliceAdditionalSpecFns;
use crate::hl::{close_buf_as_str, close_buf_bytes, close_buf_new, close_buf_push, close_buf_push_str};
use crate::strs::{
    find_byte, find_byte_exec, find_seq, find_seq_exec, first_ws, first_ws_exec, is_cut,
    lemma_cut_after_char, lemma_find_byte, lemma_find_seq, lemma_first_ws, lemma_str_valid,
    lemma_skip_ws_range, lemma_trim, lemma_ws_lead, sb, skip_ws, skip_ws_back, skip_ws_back_exec,
    skip_ws_exec, sub_str, trim_hi, trim_lo, ws_width, ws_width_before, DQUOTE, EQ, GT, LT, SLASH,
    SQUOTE,
};

verus! {

broadcast use vstd::string::group_string_axioms;

/// A lexical unit of an XML document.
#[derive(Clone, Copy, Debug, PartialEq, Eq)]
pub enum Token<'a> {
    /// An opening (or empty-element) tag, by its name.
    Start(&'a str),
    /// A closing tag, by its name.
    End(&'a str),
    /// Non-blank character data, trimmed.
    Text(&'a str),
}

/// The kind of a token, as the scanning specification reports it.
#[derive(Clone, Copy, Debug, PartialEq, Eq, Structural)]
pub enum TokenKind {
    Start,
    End,
    Text,
}

/// The next token of `x` at or after byte offset `c`, as a kind and a byte range,
/// together with the offset at which scanning resumes.
pub open spec fn scan_token(x: Seq<u8>, c: int) -> (Option<(TokenKind, int, int)>, int)
    decreases x.len() - c,
{
    if c < 0 || c >= x.len() {
        (None, c)
    } else if x[c] == LT {
        match find_byte(x, c + 1, GT) {
            None => (None, c),
            Some(e) => {
                let a = trim_lo(x, c + 1, e);
                let b = trim_hi(x, c + 1, e);
                if a < b && x[a] == SLASH {
                    (Some((TokenKind::End, trim_lo(x, a + 1, b), trim_hi(x, a + 1, b))), e + 1)
                } else {
                    (Some((TokenKind::Start, a, first_ws(x, a, b))), e + 1)
                }
            },
        }
    } else {
        let e = match find_byte(x, c, LT) {
            Some(e) => e,
            None => x.len() as int,
        };
        let a = trim_lo(x, c, e);
        let b = trim_hi(x, c, e);
        if a < b {
            (Some((TokenKind::Text, a, b)), e)
        } else if e > c {
            scan_token(x, e)
        } else {
            (None, c)
        }
    }
}

/// Whether an exec token is the one the specification reports over `x`.
pub open spec fn token_matches(r: Option<Token<'_>>, t: Option<(TokenKind, int, int)>, x: Seq<u8>) -> bool {
    match t {
        None => r is None,
        Some((k, a, b)) => match r {
            Some(Token::Start(s)) => k == TokenKind::Start && sb(s) == x.subrange(a, b),
            Some(Token::End(s)) => k == TokenKind::End && sb(s) == x.subrange(a, b),
            Some(Token::Text(s)) => k == TokenKind::Text && sb(s) == x.subrange(a, b),
            None => false,
        },
    }
}

/// Scanning resumes at a later cut, and a reported range lies between cuts.
pub proof fn lemma_scan_token(x: Seq<u8>, c: int)
    requires
        valid_utf8(x),
        0 <= c <= x.len(),
        is_cut(x, c),
    ensures
        c <= scan_token(x, c).1 <= x.len(),
        is_cut(x, scan_token(x, c).1),
        scan_token(x, c).0 is Some ==> c < scan_token(x, c).1,
        scan_token(x, c).0 matches Some((k, a, b)) ==> c <= a <= b <= scan_token(x, c).1 && is_cut(
            x,
            a,
        ) && is_cut(x, b),
    decreases x.len() - c,
{
    if c < x.len() {
        if x[c] == LT {
            lemma_cut_after_char(x, c);
            lemma_find_byte(x, c + 1, GT);
            if let Some(e) = find_byte(x, c + 1, GT) {
                lemma_cut_after_char(x, e);
                lemma_trim(x, c + 1, e);
                let a = trim_lo(x, c + 1, e);
                let b = trim_hi(x, c + 1, e);
                if a < b && x[a] == SLASH {
                    lemma_cut_after_char(x, a);
                    lemma_trim(x, a + 1, b);
                } else {
                    lemma_first_ws(x, a, b);
                }
            }
        } else {
            lemma_find_byte(x, c, LT);
            let e = match find_byte(x, c, LT) {
                Some(e) => e,
                None => x.len() as int,
            };
            lemma_trim(x, c, e);
            let a = trim_lo(x, c, e);
            let b = trim_hi(x, c, e);
            if !(a < b) && e > c {
                lemma_scan_token(x, e);
            }
        }
    }
}

proof fn lemma_skip_ws_stops(s: Seq<u8>, i: int, hi: int)
    requires
        i <= hi,
    ensures
        skip_ws(s, i, hi) == hi || ws_width(s, skip_ws(s, i, hi), hi) == 0,
    decreases hi - i,
{
    if i < hi && ws_width(s, i, hi) > 0 {
        lemma_ws_lead(s, i, hi);
        lemma_skip_ws_stops(s, i + ws_width(s, i, hi), hi);
    }
}

proof fn lemma_skip_ws_back_stops(s: Seq<u8>, lo: int, j: int)
    requires
        lo <= j,
    ensures
        skip_ws_back(s, lo, j) == lo || ws_width_before(s, lo, skip_ws_back(s, lo, j)) == 0,
        lo <= skip_ws_back(s, lo, j) <= j,
    decreases j - lo,
{
    if lo < j && ws_width_before(s, lo, j) > 0 {
        lemma_skip_ws_back_stops(s, lo, j - ws_width_before(s, lo, j));
    }
}

/// Character data comes out non-blank and trimmed: a text token is not empty,
/// neither starts nor ends with white space, and holds no `<`.
pub proof fn lemma_text_token_trimmed(x: Seq<u8>, c: int)
    requires
        0 <= c,
    ensures
        scan_token(x, c).0 matches Some((TokenKind::Text, a, b)) ==> {
            &&& c <= a < b <= x.len()
            &&& ws_width(x, a, b) == 0
            &&& ws_width_before(x, a, b) == 0
            &&& forall|i: int| a <= i < b ==> x[i] != LT
        },
    decreases x.len() - c,
{
    if 0 <= c < x.len() && x[c] != LT {
        lemma_find_byte(x, c, LT);
        let e = match find_byte(x, c, LT) {
            Some(e) => e,
            None => x.len() as int,
        };
        lemma_skip_ws_range(x, c, e);
        let a = trim_lo(x, c, e);
        lemma_skip_ws_stops(x, c, e);
        lemma_skip_ws_back_stops(x, a, e);
        let b = trim_hi(x, c, e);
        if !(a < b) && e > c {
            lemma_text_token_trimmed(x, e);
        }
    }
}

/// Whether text is non-empty, has no white space at either end, and holds no
/// `<`.
pub open spec fn trimmed_text(t: Seq<u8>) -> bool {
    &&& t.len() > 0
    &&& ws_width(t, 0, t.len() as int) == 0
    &&& ws_width_before(t, 0, t.len() as int) == 0
    &&& forall|i: int| 0 <= i < t.len() ==> t[i] != LT
}

/// Whether no white-space character starts anywhere in `t`.
pub open spec fn no_white_space(t: Seq<u8>) -> bool {
    forall|i: int| 0 <= i < t.len() ==> ws_width(t, i, t.len() as int) == 0
}

/// The shape of a token's bytes by its kind: a start tag's name holds no
/// white space, an end tag's name is trimmed, and text is non-blank, trimmed
/// and free of `<`.
pub open spec fn token_bytes_ok(k: TokenKind, t: Seq<u8>) -> bool {
    match k {
        TokenKind::Start => no_white_space(t),
        TokenKind::End => t.len() == 0 || (ws_width(t, 0, t.len() as int) == 0 && ws_width_before(
            t,
            0,
            t.len() as int,
        ) == 0),
        TokenKind::Text => trimmed_text(t),
    }
}

/// The shape of a token handed out by the cursor.
pub open spec fn token_ok(t: Token) -> bool {
    match t {
        Token::Start(s) => token_bytes_ok(TokenKind::Start, sb(s)),
        Token::End(s) => token_bytes_ok(TokenKind::End, sb(s)),
        Token::Text(s) => token_bytes_ok(TokenKind::Text, sb(s)),
    }
}

/// How many tokens repeated calls hand out from offset `c` before the first
/// `None`.
pub open spec fn tokens_left(x: Seq<u8>, c: int) -> nat
    decreases x.len() - c,
{
    let (t, n) = scan_token(x, c);
    match t {
        None => 0,
        Some(_) => if c < n <= x.len() {
            1 + tokens_left(x, n)
        } else {
            0
        },
    }
}

pub proof fn lemma_ws_sub(x: Seq<u8>, a: int, b: int)
    requires
        0 <= a < b <= x.len(),
    ensures
        ws_width(x.subrange(a, b), 0, b - a) == ws_width(x, a, b),
        ws_width_before(x.subrange(a, b), 0, b - a) == ws_width_before(x, a, b),
{
    lemma_ws_sub_at(x, a, b, a);
    let s = x.subrange(a, b);
    assert(s[b - a - 1] == x[b - 1]);
    if b - a >= 2 {
        assert(s[b - a - 2] == x[b - 2]);
    }
    if b - a >= 3 {
        assert(s[b - a - 3] == x[b - 3]);
    }
}

proof fn lemma_ws_sub_at(x: Seq<u8>, a: int, b: int, i: int)
    requires
        0 <= a <= i < b <= x.len(),
    ensures
        ws_width(x.subrange(a, b), i - a, b - a) == ws_width(x, i, b),
{
    let s = x.subrange(a, b);
    assert(s[i - a] == x[i]);
    if i + 1 < b {
        assert(s[i - a + 1] == x[i + 1]);
    }
    if i + 2 < b {
        assert(s[i - a + 2] == x[i + 2]);
    }
}

proof fn lemma_ws_shorter(x: Seq<u8>, i: int, w: int, b: int)
    requires
        i < w <= b <= x.len(),
        ws_width(x, i, b) == 0,
    ensures
        ws_width(x, i, w) == 0,
{
}

proof fn lemma_first_ws_clear(x: Seq<u8>, i: int, hi: int)
    requires
        0 <= i <= hi <= x.len(),
    ensures
        i <= first_ws(x, i, hi) <= hi,
        forall|j: int| i <= j < first_ws(x, i, hi) ==> ws_width(x, j, hi) == 0,
    decreases hi - i,
{
    if i < hi && ws_width(x, i, hi) == 0 {
        lemma_first_ws_clear(x, i + 1, hi);
    }
}

/// Every token has its shape: a start tag's name holds no white space, an end
/// tag's name is trimmed, and text is non-blank, trimmed and free of `<`.
pub proof fn lemma_token_shape(x: Seq<u8>, c: int)
    requires
        0 <= c,
    ensures
        scan_token(x, c).0 matches Some((k, a, b)) ==> 0 <= a <= b <= x.len() && token_bytes_ok(
            k,
            x.subrange(a, b),
        ),
    decreases x.len() - c,
{
    if 0 <= c < x.len() {
        if x[c] == LT {
            lemma_find_byte(x, c + 1, GT);
            if let Some(e) = find_byte(x, c + 1, GT) {
                lemma_skip_ws_range(x, c + 1, e);
                let a = trim_lo(x, c + 1, e);
                lemma_skip_ws_back_stops(x, a, e);
                let b = trim_hi(x, c + 1, e);
                if a < b && x[a] == SLASH {
                    lemma_skip_ws_range(x, a + 1, b);
                    lemma_skip_ws_stops(x, a + 1, b);
                    let a2 = trim_lo(x, a + 1, b);
                    lemma_skip_ws_back_stops(x, a2, b);
                    let b2 = trim_hi(x, a + 1, b);
                    if a2 < b2 {
                        lemma_ws_shorter(x, a2, b2, b);
                        lemma_ws_sub(x, a2, b2);
                    }
                } else {
                    lemma_first_ws_clear(x, a, b);
                    let w = first_ws(x, a, b);
                    let t = x.subrange(a, w);
                    assert forall|i: int| 0 <= i < t.len() implies ws_width(t, i, t.len() as int)
                        == 0 by {
                        lemma_ws_shorter(x, a + i, w, b);
                        lemma_ws_sub_at(x, a, w, a + i);
                    }
                }
            }
        } else {
            lemma_text_token_trimmed(x, c);
            lemma_find_byte(x, c, LT);
            let e = match find_byte(x, c, LT) {
                Some(e) => e,
                None => x.len() as int,
            };
            lemma_skip_ws_range(x, c, e);
            let a = trim_lo(x, c, e);
            lemma_skip_ws_back_stops(x, a, e);
            let b = trim_hi(x, c, e);
            if a < b {
                lemma_ws_sub(x, a, b);
                let t = x.subrange(a, b);
                assert forall|i: int| 0 <= i < t.len() implies t[i] != LT by {
                    assert(t[i] == x[a + i]);
                }
            } else if e > c {
                lemma_token_shape(x, e);
            }
        }
    }
}

/// Once the scanner finds no token, it finds none again where it stopped.
pub proof fn lemma_scan_none_sticky(x: Seq<u8>, c: int)
    requires
        0 <= c,
    ensures
        scan_token(x, c).0 is None ==> scan_token(x, scan_token(x, c).1).0 is None,
    decreases x.len() - c,
{
    if 0 <= c < x.len() && x[c] != LT {
        lemma_find_byte(x, c, LT);
        let e = match find_byte(x, c, LT) {
            Some(e) => e,
            None => x.len() as int,
        };
        if e > c {
            lemma_scan_none_sticky(x, e);
        }
    }
}

/// A document of `n` bytes yields at most `n` tokens: counting from offset
/// `c`, at most as many as bytes remain.
pub proof fn lemma_tokens_bounded(x: Seq<u8>, c: int)
    requires
        0 <= c <= x.len(),
    ensures
        tokens_left(x, c) <= x.len() - c,
    decreases x.len() - c,
{
    let (t, n) = scan_token(x, c);
    if t is Some && c < n <= x.len() {
        lemma_tokens_bounded(x, n);
    }
}

/// What holds of the token found at `c`: its shape, the progress it makes,
/// and that finding none is final.
spec fn next_token_facts(x: Seq<u8>, c: int) -> bool {
    &&& scan_token(x, c).0 matches Some((k, a, b)) ==> 0 <= a <= b <= x.len() && token_bytes_ok(
        k,
        x.subrange(a, b),
    )
    &&& scan_token(x, c).0 is Some ==> c < scan_token(x, c).1 <= x.len()
    &&& scan_token(x, c).0 is Some ==> tokens_left(x, scan_token(x, c).1) + 1 == tokens_left(x, c)
    &&& scan_token(x, c).0 is None ==> tokens_left(x, c) == 0
    &&& scan_token(x, c).0 is None ==> scan_token(x, scan_token(x, c).1).0 is None
}

/// A cursor over an XML document that hands out one token at a time.
pub struct XmlCursor<'a> {
    input: &'a str,
    cursor: usize,
}

impl<'a> XmlCursor<'a> {
    #[verifier::type_invariant]
    spec fn inv(self) -> bool {
        &&& self.cursor <= sb(self.input).len()
        &&& is_cut(sb(self.input), self.cursor as int)
    }

    /// The bytes of the document being scanned.
    pub closed spec fn source(self) -> Seq<u8> {
        sb(self.input)
    }

    /// The byte offset at which scanning resumes.
    pub closed spec fn position(self) -> int {
        self.cursor as int
    }

    pub fn new(input: &'a str) -> (r: Self)
        ensures
            r.source() == sb(input),
            r.position() == 0,
    {
        proof {
            lemma_str_valid(input);
        }
        Self { input, cursor: 0 }
    }

    /// Hands out the next token and moves past it; `None` at the end of the
    /// document or at a `<` that is never closed by a `>`.
    pub fn next_token(&mut self) -> (r: Option<Token<'a>>)
        ensures
            final(self).source() == old(self).source(),
            final(self).position() == scan_token(old(self).source(), old(self).position()).1,
            token_matches(r, scan_token(old(self).source(), old(self).position()).0, old(self).source()),
            r matches Some(t) ==> token_ok(t),
            r is Some ==> old(self).position() < final(self).position() <= final(self).source().len(),
            r is Some ==> tokens_left(final(self).source(), final(self).position()) + 1
                == tokens_left(old(self).source(), old(self).position()),
            r is None ==> tokens_left(old(self).source(), old(self).position()) == 0,
            r is None ==> scan_token(final(self).source(), final(self).position()).0 is None,
    {
        proof {
            use_type_invariant(&*self);
            lemma_str_valid(self.input);
            lemma_scan_token(sb(self.input), self.cursor as int);
            lemma_token_shape(sb(self.input), self.cursor as int);
            lemma_scan_none_sticky(sb(self.input), self.cursor as int);
        }
        let input: &'a str = self.input;
        let bytes: &[u8] = input.as_bytes();
        let len: usize = bytes.len();
        let ghost x = sb(input);
        let ghost c0 = self.cursor as int;
        while self.cursor < len
            invariant
                self.input == input,
                input == old(self).input,
                c0 == old(self).cursor,
                bytes@ == x,
                len == x.len(),
                x == sb(input),
                valid_utf8(x),
                self.cursor <= len,
                is_cut(x, self.cursor as int),
                scan_token(x, c0) == scan_token(x, self.cursor as int),
                next_token_facts(x, c0),
            decreases len - self.cursor,
        {
            let c: usize = self.cursor;
            if bytes[c] == LT {
                proof {
                    lemma_cut_after_char(x, c as int);
                    lemma_find_byte(x, c + 1, GT);
                }
                let e: usize = match find_byte_exec(bytes, c + 1, GT) {
                    Some(e) => e,
                    None => {
                        return None;
                    },
                };
                proof {
                    lemma_cut_after_char(x, e as int);
                    lemma_trim(x, c + 1, e as int);
                }
                self.cursor = e + 1;
                let a: usize = skip_ws_exec(bytes, c + 1, e);
                let b: usize = skip_ws_back_exec(bytes, a, e);
                if a < b && bytes[a] == SLASH {
                    proof {
                        lemma_cut_after_char(x, a as int);
                        lemma_trim(x, a + 1, b as int);
                    }
                    let a2: usize = skip_ws_exec(bytes, a + 1, b);
                    let b2: usize = skip_ws_back_exec(bytes, a2, b);
                    return Some(Token::End(sub_str(input, a2, b2)));
                }
                proof {
                    lemma_first_ws(x, a as int, b as int);
                }
                let w: usize = first_ws_exec(bytes, a, b);
                return Some(Token::Start(sub_str(input, a, w)));
            }
            proof {
                lemma_find_byte(x, c as int, LT);
            }
            let e: usize = match find_byte_exec(bytes, c, LT) {
                Some(e) => e,
                None => len,
            };
            proof {
                lemma_trim(x, c as int, e as int);
            }
            self.cursor = e;
            let a: usize = skip_ws_exec(bytes, c, e);
            let b: usize = skip_ws_back_exec(bytes, a, e);
            if a < b {
                return Some(Token::Text(sub_str(input, a, b)));
            }
        }
        None
    }
}

/// The first start tag at or after `c` whose name (first word) is `name`: the
/// trimmed tag's byte range and the offset just past its `>`.
pub open spec fn scan_start_tag(x: Seq<u8>, name: Seq<u8>, c: int) -> Option<(int, int, int)>
    decreases x.len() + 1 - c,
{
    if c < 0 || c > x.len() {
        None
    } else {
        match find_byte(x, c, LT) {
            None => None,
            Some(p) => match find_byte(x, p + 1, GT) {
                None => None,
                Some(e) => {
                    let a = trim_lo(x, p + 1, e);
                    let b = trim_hi(x, p + 1, e);
                    if x.subrange(a, first_ws(x, a, b)) == name {
                        Some((a, b, e + 1))
                    } else if e + 1 > c && e < x.len() {
                        scan_start_tag(x, name, e + 1)
                    } else {
                        None
                    }
                },
            },
        }
    }
}

pub proof fn lemma_scan_start_tag(x: Seq<u8>, name: Seq<u8>, c: int)
    requires
        valid_utf8(x),
        0 <= c <= x.len(),
        is_cut(x, c),
    ensures
        scan_start_tag(x, name, c) matches Some((a, b, n)) ==> c <= a <= b < n <= x.len() && is_cut(
            x,
            a,
        ) && is_cut(x, b) && is_cut(x, n) && x.subrange(a, first_ws(x, a, b)) == name,
    decreases x.len() + 1 - c,
{
    lemma_find_byte(x, c, LT);
    if let Some(p) = find_byte(x, c, LT) {
        lemma_cut_after_char(x, p);
        lemma_find_byte(x, p + 1, GT);
        if let Some(e) = find_byte(x, p + 1, GT) {
            lemma_cut_after_char(x, e);
            lemma_trim(x, p + 1, e);
            let a = trim_lo(x, p + 1, e);
            let b = trim_hi(x, p + 1, e);
            if x.subrange(a, first_ws(x, a, b)) != name {
                lemma_scan_start_tag(x, name, e + 1);
            }
        }
    }
}

/// Finds the next start tag named `name` at or after byte offset `from`; returns
/// the trimmed tag text and the offset just past it.
pub fn next_start_tag<'a>(xml: &'a str, name: &str, from: usize) -> (r: Option<(&'a str, usize)>)
    requires
        from <= sb(xml).len(),
        is_cut(sb(xml), from as int),
    ensures
        match scan_start_tag(sb(xml), sb(name), from as int) {
            None => r is None,
            Some((a, b, n)) => r matches Some((t, m)) && sb(t) == sb(xml).subrange(a, b) && m == n,
        },
{
    proof {
        lemma_str_valid(xml);
    }
    let bytes: &[u8] = xml.as_bytes();
    let name_bytes: &[u8] = name.as_bytes();
    let len: usize = bytes.len();
    let ghost x = sb(xml);
    let mut cursor: usize = from;
    loop
        invariant
            bytes@ == x,
            x == sb(xml),
            name_bytes@ == sb(name),
            len == x.len(),
            valid_utf8(x),
            cursor <= len,
            is_cut(x, cursor as int),
            scan_start_tag(x, sb(name), from as int) == scan_start_tag(x, sb(name), cursor as int),
        decreases len - cursor,
    {
        proof {
            lemma_find_byte(x, cursor as int, LT);
        }
        let p: usize = match find_byte_exec(bytes, cursor, LT) {
            Some(p) => p,
            None => {
                return None;
            },
        };
        proof {
            lemma_cut_after_char(x, p as int);
            lemma_find_byte(x, p + 1, GT);
        }
        let start: usize = p + 1;
        let e: usize = match find_byte_exec(bytes, start, GT) {
            Some(e) => e,
            None => {
                return None;
            },
        };
        proof {
            lemma_cut_after_char(x, e as int);
            lemma_trim(x, start as int, e as int);
        }
        let a: usize = skip_ws_exec(bytes, start, e);
        let b: usize = skip_ws_back_exec(bytes, a, e);
        proof {
            lemma_first_ws(x, a as int, b as int);
        }
        let w: usize = first_ws_exec(bytes, a, b);
        let word: &[u8] = vstd::slice::slice_subrange(bytes, a, w);
        if crate::strs::bytes_eq(word, name_bytes) {
            return Some((sub_str(xml, a, b), e + 1));
        }
        cursor = e + 1;
    }
}

/// The value of attribute `name` in the tag text `t`, searched from offset `r`,
/// as a byte range of `t`. An occurrence of `name` that is not followed by `=`
/// ends the search; one followed by `=` but no quote is skipped.
pub open spec fn scan_attr(t: Seq<u8>, name: Seq<u8>, r: int) -> Option<(int, int)>
    decreases t.len() + 1 - r,
{
    if name.len() == 0 || r < 0 || r > t.len() {
        None
    } else {
        match find_seq(t, r, name) {
            None => None,
            Some(p) => {
                let an = p + name.len();
                let k = skip_ws(t, an, t.len() as int);
                if k < t.len() && t[k] == EQ {
                    let k2 = skip_ws(t, k + 1, t.len() as int);
                    if k2 < t.len() {
                        let q = t[k2];
                        if q != SQUOTE && q != DQUOTE {
                            if an > r {
                                scan_attr(t, name, an)
                            } else {
                                None
                            }
                        } else {
                            match find_byte(t, k2 + 1, q) {
                                None => None,
                                Some(e) => Some((k2 + 1, e)),
                            }
                        }
                    } else {
                        None
                    }
                } else {
                    None
                }
            },
        }
    }
}

pub proof fn lemma_scan_attr(t: Seq<u8>, name: Seq<u8>, r: int)
    requires
        valid_utf8(t),
        0 <= r <= t.len(),
    ensures
        scan_attr(t, name, r) matches Some((a, b)) ==> 0 < a <= b < t.len() && is_cut(t, a)
            && is_cut(t, b),
    decreases t.len() + 1 - r,
{
    if name.len() > 0 {
        lemma_find_seq(t, r, name);
        if let Some(p) = find_seq(t, r, name) {
            let an = p + name.len();
            let k = skip_ws(t, an, t.len() as int);
            crate::strs::lemma_skip_ws_range(t, an, t.len() as int);
            if k < t.len() && t[k] == EQ {
                let k2 = skip_ws(t, k + 1, t.len() as int);
                crate::strs::lemma_skip_ws_range(t, k + 1, t.len() as int);
                if k2 < t.len() {
                    let q = t[k2];
                    if q != SQUOTE && q != DQUOTE {
                        if an > r {
                            lemma_scan_attr(t, name, an);
                        }
                    } else {
                        lemma_find_byte(t, k2 + 1, q);
                        crate::strs::lemma_ascii_cut(t, k2);
                        lemma_cut_after_char(t, k2);
                        if let Some(e) = find_byte(t, k2 + 1, q) {
                            crate::strs::lemma_ascii_cut(t, e);
                        }
                    }
                }
            }
        }
    }
}

/// The value of the attribute `name` in the tag text `tag`.
pub fn attr_value<'a>(tag: &'a str, name: &str) -> (r: Option<&'a str>)
    requires
        sb(name).len() > 0,
    ensures
        match scan_attr(sb(tag), sb(name), 0) {
            None => r is None,
            Some((a, b)) => r matches Some(v) && sb(v) == sb(tag).subrange(a, b),
        },
{
    proof {
        lemma_str_valid(tag);
    }
    let bytes: &[u8] = tag.as_bytes();
    let needle: &[u8] = name.as_bytes();
    let len: usize = bytes.len();
    let ghost t = sb(tag);
    let mut rest: usize = 0;
    loop
        invariant
            bytes@ == t,
            t == sb(tag),
            needle@ == sb(name),
            needle@.len() > 0,
            len == t.len(),
            valid_utf8(t),
            rest <= len,
            scan_attr(t, sb(name), 0) == scan_attr(t, sb(name), rest as int),
        decreases len - rest,
    {
        proof {
            lemma_find_seq(t, rest as int, needle@);
        }
        let p: usize = match find_seq_exec(bytes, rest, needle) {
            Some(p) => p,
            None => {
                return None;
            },
        };
        let after_name: usize = p + needle.len();
        let k: usize = skip_ws_exec(bytes, after_name, len);
        proof {
            crate::strs::lemma_skip_ws_range(t, after_name as int, len as int);
        }
        if k >= len || bytes[k] != EQ {
            return None;
        }
        let k2: usize = skip_ws_exec(bytes, k + 1, len);
        proof {
            crate::strs::lemma_skip_ws_range(t, k + 1, len as int);
        }
        if k2 >= len {
            return None;
        }
        let quote: u8 = bytes[k2];
        if quote != SQUOTE && quote != DQUOTE {
            rest = after_name;
        } else {
            proof {
                lemma_scan_attr(t, sb(name), rest as int);
                lemma_find_byte(t, k2 + 1, quote);
            }
            let e: usize = match find_byte_exec(bytes, k2 + 1, quote) {
                Some(e) => e,
                None => {
                    return None;
                },
            };
            return Some(sub_str(tag, k2 + 1, e));
        }
    }
}

/// The value of attribute `attr` in the first start tag named `tag_name` that
/// has one, searched from offset `c`, as a byte range of `x`.
pub open spec fn scan_attr_in_tags(x: Seq<u8>, tag_name: Seq<u8>, attr: Seq<u8>, c: int) -> Option<
    (int, int),
>
    decreases x.len() + 1 - c,
{
    match scan_start_tag(x, tag_name, c) {
        None => None,
        Some((a, b, n)) => match scan_attr(x.subrange(a, b), attr, 0) {
            Some((va, vb)) => Some((a + va, a + vb)),
            None => if c < n <= x.len() {
                scan_attr_in_tags(x, tag_name, attr, n)
            } else {
                None
            },
        },
    }
}

/// The value of attribute `attr` in the first tag named `tag_name` that has it.
pub fn find_attr_value<'a>(xml: &'a str, tag_name: &str, attr: &str) -> (r: Option<&'a str>)
    requires
        sb(attr).len() > 0,
    ensures
        match scan_attr_in_tags(sb(xml), sb(tag_name), sb(attr), 0) {
            None => r is None,
            Some((a, b)) => r matches Some(v) && sb(v) == sb(xml).subrange(a, b),
        },
{
    proof {
        lemma_str_valid(xml);
    }
    let ghost x = sb(xml);
    let mut cursor: usize = 0;
    loop
        invariant
            x == sb(xml),
            valid_utf8(x),
            sb(attr).len() > 0,
            cursor <= x.len(),
            is_cut(x, cursor as int),
            scan_attr_in_tags(x, sb(tag_name), sb(attr), 0) == scan_attr_in_tags(
                x,
                sb(tag_name),
                sb(attr),
                cursor as int,
            ),
        decreases x.len() - cursor,
    {
        proof {
            lemma_scan_start_tag(x, sb(tag_name), cursor as int);
        }
        let (tag, next) = match next_start_tag(xml, tag_name, cursor) {
            Some(found) => found,
            None => {
                return None;
            },
        };
        let value = attr_value(tag, attr);
        match value {
            Some(v) => {
                proof {
                    let (a, b, n) = scan_start_tag(x, sb(tag_name), cursor as int).unwrap();
                    let (va, vb) = scan_attr(sb(tag), sb(attr), 0).unwrap();
                    lemma_str_valid(tag);
                    lemma_scan_attr(sb(tag), sb(attr), 0);
                    assert(sb(v) =~= x.subrange(a + va, a + vb));
                }
                return Some(v);
            },
            None => {},
        }
        cursor = next;
    }
}

/// The closing tag that `element_text` looks for: `</tag>` in a 40-byte buffer,
/// so that a long tag name is left out and the `>` is kept only while it fits.
pub open spec fn close_tag_bytes(tag: Seq<u8>) -> Seq<u8> {
    let open = seq![LT, SLASH];
    let named = if 2 + tag.len() <= 40 {
        open + tag
    } else {
        open
    };
    if named.len() < 40 {
        named.push(GT)
    } else {
        named
    }
}

/// Builds the closing tag for `tag`.
pub fn close_tag(tag: &str) -> (r: heapless::String<40>)
    ensures
        close_buf_bytes(r) == close_tag_bytes(sb(tag)),
{
    let mut close = close_buf_new();
    proof {
        reveal_strlit("</");
        assert(vstd::string::is_ascii("</"));
        assert(sb("</") =~= seq![0x3cu8, 0x2fu8]);
    }
    let _ = close_buf_push_str(&mut close, "</");
    let _ = close_buf_push_str(&mut close, tag);
    let _ = close_buf_push(&mut close, '>');
    proof {
        assert(close_buf_bytes(close) =~= close_tag_bytes(sb(tag)));
    }
    close
}

/// The trimmed, non-empty text between the first start tag named `tag` and the
/// next closing tag for it, as a byte range of `x`.
pub open spec fn element_text_range(x: Seq<u8>, tag: Seq<u8>) -> Option<(int, int)> {
    match scan_start_tag(x, tag, 0) {
        None => None,
        Some((a, b, open)) => match find_seq(x, open, close_tag_bytes(tag)) {
            None => None,
            Some(close) => if trim_lo(x, open, close) < trim_hi(x, open, close) {
                Some((trim_lo(x, open, close), trim_hi(x, open, close)))
            } else {
                None
            },
        },
    }
}

/// The text content of the first element named `tag`, if it is not blank.
pub fn element_text<'a>(xml: &'a str, tag: &str) -> (r: Option<&'a str>)
    ensures
        match element_text_range(sb(xml), sb(tag)) {
            None => r is None,
            Some((a, b)) => r matches Some(v) && sb(v) == sb(xml).subrange(a, b),
        },
{
    proof {
        lemma_str_valid(xml);
        lemma_scan_start_tag(sb(xml), sb(tag), 0);
    }
    let ghost x = sb(xml);
    let open: usize = match next_start_tag(xml, tag, 0) {
        Some((_candidate, next)) => next,
        None => {
            return None;
        },
    };
    let close_tag = close_tag(tag);
    let close_str: &str = close_buf_as_str(&close_tag);
    let bytes: &[u8] = xml.as_bytes();
    proof {
        lemma_find_seq(x, open as int, close_tag_bytes(sb(tag)));
    }
    let close: usize = match find_seq_exec(bytes, open, close_str.as_bytes()) {
        Some(c) => c,
        None => {
            return None;
        },
    };
    proof {
        assert(x[close as int] == close_tag_bytes(sb(tag))[0]);
        crate::strs::lemma_ascii_cut(x, close as int);
        lemma_trim(x, open as int, close as int);
    }
    let a: usize = skip_ws_exec(bytes, open, close);
    let b: usize = skip_ws_back_exec(bytes, a, close);
    if a < b {
        Some(sub_str(xml, a, b))
    } else {
        None
    }
}

} // verus!
