//! Byte-level text scanning over UTF-8 string slices.
//!
//! Every scanner here works on the UTF-8 bytes of a `&str` (its `spec_bytes()`).
//! Positions handed back are byte offsets; a slice is only ever cut at an offset
//! that does not hold a UTF-8 continuation byte, which is exactly a character
//! boundary of well-formed UTF-8.
use vstd::prelude::*;
use vstd::string::*;
use vstd::utf8::*;

verus! {

broadcast use vstd::utf8::group_utf8_lib;

pub const LT: u8 = 0x3c;

pub const GT: u8 = 0x3e;

pub const SLASH: u8 = 0x2f;

pub const EQ: u8 = 0x3d;

pub const SQUOTE: u8 = 0x27;

pub const DQUOTE: u8 = 0x22;

/// The UTF-8 bytes of a string slice.
pub open spec fn sb(s: &str) -> Seq<u8> {
    s.spec_bytes()
}

/// An offset at which a well-formed UTF-8 byte sequence may be cut.
pub open spec fn is_cut(s: Seq<u8>, i: int) -> bool {
    i == s.len() || (0 <= i < s.len() && !is_continuation_byte(s[i]))
}

/// Number of bytes in the UTF-8 encoding whose leading byte is `b`.
pub open spec fn lead_width(b: u8) -> int {
    if b <= 0x7f {
        1
    } else if 0xc0 <= b <= 0xdf {
        2
    } else if 0xe0 <= b <= 0xef {
        3
    } else {
        4
    }
}

pub proof fn lemma_cut_is_boundary(s: Seq<u8>, i: int)
    requires
        valid_utf8(s),
        is_cut(s, i),
    ensures
        is_char_boundary(s, i),
{
    if i < s.len() {
        is_char_boundary_iff_not_is_continuation_byte(s, i);
    } else {
        is_char_boundary_start_end_of_seq(s);
    }
}

/// The offset just past a whole character that starts at a cut is again a cut.
pub proof fn lemma_cut_after_char(s: Seq<u8>, i: int)
    requires
        valid_utf8(s),
        is_cut(s, i),
        i < s.len(),
    ensures
        i + lead_width(s[i]) <= s.len(),
        is_cut(s, i + lead_width(s[i])),
{
    lemma_cut_is_boundary(s, i);
    valid_utf8_split(s, i);
    let sub = s.subrange(i, s.len() as int);
    assert(sub[0] == s[i]);
    assert(valid_first_scalar(sub));
    let w = length_of_first_scalar(sub);
    assert(w == lead_width(s[i]));
    let rest = pop_first_scalar(sub);
    assert(valid_utf8(rest));
    if rest.len() > 0 {
        assert(valid_first_scalar(rest));
        assert(rest[0] == s[i + w]);
    }
}

/// The bytes of a string slice are well-formed UTF-8.
pub proof fn lemma_str_valid(s: &str)
    ensures
        valid_utf8(sb(s)),
        is_cut(sb(s), 0),
        is_cut(sb(s), sb(s).len() as int),
{
    encode_utf8_valid_utf8(s@);
    if sb(s).len() > 0 {
        assert(valid_first_scalar(sb(s)));
    }
}

/// The part of `s` between the byte offsets `start` and `end`.
pub fn sub_str<'a>(s: &'a str, start: usize, end: usize) -> (r: &'a str)
    requires
        start <= end <= sb(s).len(),
        is_cut(sb(s), start as int),
        is_cut(sb(s), end as int),
    ensures
        sb(r) == sb(s).subrange(start as int, end as int),
{
    proof {
        lemma_str_valid(s);
        lemma_cut_is_boundary(sb(s), start as int);
    }
    let (_head, tail) = s.split_at(start);
    proof {
        lemma_str_valid(tail);
        let t = sb(tail);
        assert(t =~= sb(s).subrange(start as int, sb(s).len() as int));
        if end < sb(s).len() {
            assert(t[end - start] == sb(s)[end as int]);
        }
        assert(is_cut(t, end - start));
        lemma_cut_is_boundary(t, end - start);
    }
    let (mid, _rest) = tail.split_at(end - start);
    proof {
        assert(sb(mid) =~= sb(s).subrange(start as int, end as int));
    }
    mid
}

/// Whether two string slices hold the same bytes.
pub fn str_eq(a: &str, b: &str) -> (r: bool)
    ensures
        r == (sb(a) == sb(b)),
{
    bytes_eq(a.as_bytes(), b.as_bytes())
}

/// Whether two byte slices are equal.
pub fn bytes_eq(a: &[u8], b: &[u8]) -> (r: bool)
    ensures
        r == (a@ == b@),
{
    if a.len() != b.len() {
        return false;
    }
    let mut i: usize = 0;
    while i < a.len()
        invariant
            a@.len() == b@.len(),
            i <= a@.len(),
            forall|j: int| 0 <= j < i ==> a@[j] == b@[j],
        decreases a@.len() - i,
    {
        if a[i] != b[i] {
            return false;
        }
        i = i + 1;
    }
    assert(a@ =~= b@);
    true
}

/// First offset at or after `from` that holds the byte `t`.
pub open spec fn find_byte(s: Seq<u8>, from: int, t: u8) -> Option<int>
    decreases s.len() - from,
{
    if from < 0 || from >= s.len() {
        None
    } else if s[from] == t {
        Some(from)
    } else {
        find_byte(s, from + 1, t)
    }
}

pub proof fn lemma_find_byte(s: Seq<u8>, from: int, t: u8)
    requires
        0 <= from,
    ensures
        find_byte(s, from, t) matches Some(p) ==> from <= p < s.len() && s[p] == t && forall|
            j: int,
        |
            from <= j < p ==> s[j] != t,
        find_byte(s, from, t) is None ==> forall|j: int| from <= j < s.len() ==> s[j] != t,
    decreases s.len() - from,
{
    if from < s.len() && s[from] != t {
        lemma_find_byte(s, from + 1, t);
    }
}

pub fn find_byte_exec(s: &[u8], from: usize, t: u8) -> (r: Option<usize>)
    ensures
        r matches Some(p) ==> find_byte(s@, from as int, t) == Some(p as int),
        r is None ==> find_byte(s@, from as int, t) is None,
{
    let mut i: usize = from;
    while i < s.len()
        invariant
            from <= i,
            find_byte(s@, from as int, t) == find_byte(s@, i as int, t),
        decreases s@.len() - i,
    {
        if s[i] == t {
            return Some(i);
        }
        i = i + 1;
    }
    None
}

/// Whether `needle` occurs in `s` at offset `p`.
pub open spec fn occurs_at(s: Seq<u8>, p: int, needle: Seq<u8>) -> bool {
    0 <= p && p + needle.len() <= s.len() && s.subrange(p, p + needle.len()) == needle
}

/// First offset at or after `from` at which `needle` occurs in `s`.
pub open spec fn find_seq(s: Seq<u8>, from: int, needle: Seq<u8>) -> Option<int>
    decreases s.len() + 1 - from,
{
    if from < 0 || from + needle.len() > s.len() {
        None
    } else if occurs_at(s, from, needle) {
        Some(from)
    } else {
        find_seq(s, from + 1, needle)
    }
}

pub proof fn lemma_find_seq(s: Seq<u8>, from: int, needle: Seq<u8>)
    requires
        0 <= from,
    ensures
        find_seq(s, from, needle) matches Some(p) ==> from <= p && occurs_at(s, p, needle)
            && forall|j: int| from <= j < p ==> !occurs_at(s, j, needle),
        find_seq(s, from, needle) is None ==> forall|j: int|
            from <= j ==> !occurs_at(s, j, needle),
    decreases s.len() + 1 - from,
{
    if from + needle.len() <= s.len() && !occurs_at(s, from, needle) {
        lemma_find_seq(s, from + 1, needle);
    }
}

fn occurs_at_exec(s: &[u8], p: usize, needle: &[u8]) -> (r: bool)
    requires
        p + needle@.len() <= s@.len(),
    ensures
        r == occurs_at(s@, p as int, needle@),
{
    let slen: usize = s.len();
    let mut j: usize = 0;
    while j < needle.len()
        invariant
            slen == s@.len(),
            p + needle@.len() <= s@.len(),
            j <= needle@.len(),
            forall|k: int| 0 <= k < j ==> s@[p + k] == needle@[k],
        decreases needle@.len() - j,
    {
        if s[p + j] != needle[j] {
            assert(s@.subrange(p as int, p + needle@.len())[j as int] != needle@[j as int]);
            return false;
        }
        j = j + 1;
    }
    assert(s@.subrange(p as int, p + needle@.len()) =~= needle@);
    true
}

pub fn find_seq_exec(s: &[u8], from: usize, needle: &[u8]) -> (r: Option<usize>)
    ensures
        r matches Some(p) ==> find_seq(s@, from as int, needle@) == Some(p as int),
        r is None ==> find_seq(s@, from as int, needle@) is None,
{
    if needle.len() > s.len() {
        return None;
    }
    let last: usize = s.len() - needle.len();
    let mut i: usize = from;
    while i <= last
        invariant
            from <= i,
            last + needle@.len() == s@.len(),
            find_seq(s@, from as int, needle@) == find_seq(s@, i as int, needle@),
        decreases last + 1 - i,
    {
        if occurs_at_exec(s, i, needle) {
            return Some(i);
        }
        if i == last {
            return None;
        }
        i = i + 1;
    }
    None
}

/// Width of the whitespace character whose UTF-8 encoding starts at `i` and ends
/// by `hi`, or 0. Whitespace is the Unicode `White_Space` set that Rust's
/// `char::is_whitespace` uses.
pub open spec fn ws_width(s: Seq<u8>, i: int, hi: int) -> int {
    if 0 <= i < hi && hi <= s.len() {
        let b0 = s[i];
        if b0 == 0x20 || (0x09 <= b0 <= 0x0d) {
            1
        } else if b0 == 0xc2 && i + 2 <= hi && (s[i + 1] == 0x85 || s[i + 1] == 0xa0) {
            2
        } else if i + 3 <= hi && is_ws3(b0, s[i + 1], s[i + 2]) {
            3
        } else {
            0
        }
    } else {
        0
    }
}

/// The three-byte encodings of whitespace characters.
pub open spec fn is_ws3(b0: u8, b1: u8, b2: u8) -> bool {
    ||| (b0 == 0xe1 && b1 == 0x9a && b2 == 0x80)
    ||| (b0 == 0xe2 && b1 == 0x80 && (0x80 <= b2 <= 0x8a || b2 == 0xa8 || b2 == 0xa9 || b2
        == 0xaf))
    ||| (b0 == 0xe2 && b1 == 0x81 && b2 == 0x9f)
    ||| (b0 == 0xe3 && b1 == 0x80 && b2 == 0x80)
}

/// Width of the whitespace character whose UTF-8 encoding ends just before `j`
/// and starts no earlier than `lo`, or 0.
pub open spec fn ws_width_before(s: Seq<u8>, lo: int, j: int) -> int {
    if 0 <= lo < j && j <= s.len() {
        let b = s[j - 1];
        if b == 0x20 || (0x09 <= b <= 0x0d) {
            1
        } else if lo <= j - 2 && s[j - 2] == 0xc2 && (b == 0x85 || b == 0xa0) {
            2
        } else if lo <= j - 3 && is_ws3(s[j - 3], s[j - 2], b) {
            3
        } else {
            0
        }
    } else {
        0
    }
}

/// The characters for which Rust's `char::is_whitespace` holds, by code point
/// (the Unicode `White_Space` property).
pub open spec fn is_white_space_char(cp: int) -> bool {
    ||| 0x09 <= cp <= 0x0d
    ||| cp == 0x20
    ||| cp == 0x85
    ||| cp == 0xa0
    ||| cp == 0x1680
    ||| 0x2000 <= cp <= 0x200a
    ||| cp == 0x2028
    ||| cp == 0x2029
    ||| cp == 0x202f
    ||| cp == 0x205f
    ||| cp == 0x3000
}

proof fn lemma_ws2(b0: u8, b1: u8)
    requires
        0xc0 <= b0 <= 0xdf,
        0x80 <= b1 <= 0xbf,
    ensures
        ({
            let cp = (((b0 & 0x1f) as u32) << 6) | ((b1 & 0x3f) as u32);
            &&& (cp == 0x85) == (b0 == 0xc2 && b1 == 0x85)
            &&& (cp == 0xa0) == (b0 == 0xc2 && b1 == 0xa0)
            &&& cp <= 0x7ff
        }),
{
    assert({
        let cp = (((b0 & 0x1f) as u32) << 6) | ((b1 & 0x3f) as u32);
        &&& (cp == 0x85) == (b0 == 0xc2 && b1 == 0x85)
        &&& (cp == 0xa0) == (b0 == 0xc2 && b1 == 0xa0)
        &&& cp <= 0x7ff
    }) by (bit_vector)
        requires
            0xc0 <= b0 <= 0xdf,
            0x80 <= b1 <= 0xbf,
    ;
}

proof fn lemma_ws3(b0: u8, b1: u8, b2: u8)
    requires
        0xe0 <= b0 <= 0xef,
        0x80 <= b1 <= 0xbf,
        0x80 <= b2 <= 0xbf,
    ensures
        ({
            let cp = (((b0 & 0x0f) as u32) << 12) | (((b1 & 0x3f) as u32) << 6) | ((b2
                & 0x3f) as u32);
            &&& (cp == 0x1680) == (b0 == 0xe1 && b1 == 0x9a && b2 == 0x80)
            &&& (0x2000 <= cp <= 0x200a) == (b0 == 0xe2 && b1 == 0x80 && 0x80 <= b2 <= 0x8a)
            &&& (cp == 0x2028) == (b0 == 0xe2 && b1 == 0x80 && b2 == 0xa8)
            &&& (cp == 0x2029) == (b0 == 0xe2 && b1 == 0x80 && b2 == 0xa9)
            &&& (cp == 0x202f) == (b0 == 0xe2 && b1 == 0x80 && b2 == 0xaf)
            &&& (cp == 0x205f) == (b0 == 0xe2 && b1 == 0x81 && b2 == 0x9f)
            &&& (cp == 0x3000) == (b0 == 0xe3 && b1 == 0x80 && b2 == 0x80)
        }),
{
    assert({
        let cp = (((b0 & 0x0f) as u32) << 12) | (((b1 & 0x3f) as u32) << 6) | ((b2
            & 0x3f) as u32);
        &&& (cp == 0x1680) == (b0 == 0xe1 && b1 == 0x9a && b2 == 0x80)
        &&& (0x2000 <= cp <= 0x200a) == (b0 == 0xe2 && b1 == 0x80 && 0x80 <= b2 <= 0x8a)
        &&& (cp == 0x2028) == (b0 == 0xe2 && b1 == 0x80 && b2 == 0xa8)
        &&& (cp == 0x2029) == (b0 == 0xe2 && b1 == 0x80 && b2 == 0xa9)
        &&& (cp == 0x202f) == (b0 == 0xe2 && b1 == 0x80 && b2 == 0xaf)
        &&& (cp == 0x205f) == (b0 == 0xe2 && b1 == 0x81 && b2 == 0x9f)
        &&& (cp == 0x3000) == (b0 == 0xe3 && b1 == 0x80 && b2 == 0x80)
    }) by (bit_vector)
        requires
            0xe0 <= b0 <= 0xef,
            0x80 <= b1 <= 0xbf,
            0x80 <= b2 <= 0xbf,
    ;
}

/// White space is exactly Rust's: for the UTF-8 encoding `t` of one
/// character, a white-space character is recognised from its first byte and
/// from its last, over its whole encoding, exactly when `char::is_whitespace`
/// holds of it.
pub proof fn lemma_white_space_is_unicode(t: Seq<u8>)
    requires
        valid_first_scalar(t),
        t.len() == length_of_first_scalar(t),
    ensures
        ws_width(t, 0, t.len() as int) > 0 <==> is_white_space_char(decode_first_scalar(t) as int),
        ws_width(t, 0, t.len() as int) > 0 ==> ws_width(t, 0, t.len() as int) == t.len(),
        ws_width_before(t, 0, t.len() as int) == ws_width(t, 0, t.len() as int),
{
    let b0 = t[0];
    if is_leading_byte_width_1(b0) {
        assert((b0 & 0x7f) as u32 == b0 as u32) by (bit_vector)
            requires
                b0 <= 0x7f,
        ;
    } else if is_leading_byte_width_2(b0) {
        lemma_ws2(b0, t[1]);
    } else if is_leading_byte_width_3(b0) {
        lemma_ws3(b0, t[1], t[2]);
    } else {
        assert(decode_first_scalar(t) >= 0x10000);
    }
}

/// Offset of the first non-whitespace character at or after `i` (at most `hi`).
pub open spec fn skip_ws(s: Seq<u8>, i: int, hi: int) -> int
    decreases hi - i,
{
    if i < hi && ws_width(s, i, hi) > 0 {
        skip_ws(s, i + ws_width(s, i, hi), hi)
    } else {
        i
    }
}

/// Offset just past the last non-whitespace character before `j` (at least `lo`).
pub open spec fn skip_ws_back(s: Seq<u8>, lo: int, j: int) -> int
    decreases j - lo,
{
    if lo < j && ws_width_before(s, lo, j) > 0 {
        skip_ws_back(s, lo, j - ws_width_before(s, lo, j))
    } else {
        j
    }
}

/// Start of `s[lo..hi]` with whitespace trimmed from both ends.
pub open spec fn trim_lo(s: Seq<u8>, lo: int, hi: int) -> int {
    skip_ws(s, lo, hi)
}

/// End of `s[lo..hi]` with whitespace trimmed from both ends.
pub open spec fn trim_hi(s: Seq<u8>, lo: int, hi: int) -> int {
    skip_ws_back(s, skip_ws(s, lo, hi), hi)
}

/// Offset of the first whitespace character in `s[i..hi]`, or `hi`.
pub open spec fn first_ws(s: Seq<u8>, i: int, hi: int) -> int
    decreases hi - i,
{
    if i >= hi {
        hi
    } else if ws_width(s, i, hi) > 0 {
        i
    } else {
        first_ws(s, i + 1, hi)
    }
}

pub proof fn lemma_ws_lead(s: Seq<u8>, i: int, hi: int)
    requires
        ws_width(s, i, hi) > 0,
    ensures
        0 <= i < hi <= s.len(),
        lead_width(s[i]) == ws_width(s, i, hi),
        i + ws_width(s, i, hi) <= hi,
        !is_continuation_byte(s[i]),
{
}

pub proof fn lemma_skip_ws_range(s: Seq<u8>, i: int, hi: int)
    requires
        i <= hi,
    ensures
        i <= skip_ws(s, i, hi) <= hi,
    decreases hi - i,
{
    if i < hi && ws_width(s, i, hi) > 0 {
        lemma_skip_ws_range(s, i + ws_width(s, i, hi), hi);
    }
}

/// An ASCII byte is a place to cut.
pub proof fn lemma_ascii_cut(s: Seq<u8>, i: int)
    requires
        0 <= i < s.len(),
        s[i] <= 0x7f,
    ensures
        is_cut(s, i),
{
}

pub proof fn lemma_skip_ws(s: Seq<u8>, i: int, hi: int)
    requires
        valid_utf8(s),
        0 <= i <= hi <= s.len(),
        is_cut(s, i),
        is_cut(s, hi),
    ensures
        i <= skip_ws(s, i, hi) <= hi,
        is_cut(s, skip_ws(s, i, hi)),
    decreases hi - i,
{
    if i < hi && ws_width(s, i, hi) > 0 {
        lemma_ws_lead(s, i, hi);
        lemma_cut_after_char(s, i);
        lemma_skip_ws(s, i + ws_width(s, i, hi), hi);
    }
}

pub proof fn lemma_skip_ws_back(s: Seq<u8>, lo: int, j: int)
    requires
        valid_utf8(s),
        0 <= lo <= j <= s.len(),
        is_cut(s, j),
    ensures
        lo <= skip_ws_back(s, lo, j) <= j,
        is_cut(s, skip_ws_back(s, lo, j)),
    decreases j - lo,
{
    if lo < j && ws_width_before(s, lo, j) > 0 {
        let w = ws_width_before(s, lo, j);
        assert(!is_continuation_byte(s[j - w]));
        lemma_skip_ws_back(s, lo, j - w);
    }
}

/// The trimmed bounds of a range between two cuts are cuts.
pub proof fn lemma_trim(s: Seq<u8>, lo: int, hi: int)
    requires
        valid_utf8(s),
        0 <= lo <= hi <= s.len(),
        is_cut(s, lo),
        is_cut(s, hi),
    ensures
        lo <= trim_lo(s, lo, hi) <= trim_hi(s, lo, hi) <= hi,
        is_cut(s, trim_lo(s, lo, hi)),
        is_cut(s, trim_hi(s, lo, hi)),
{
    lemma_skip_ws(s, lo, hi);
    lemma_skip_ws_back(s, skip_ws(s, lo, hi), hi);
}

pub proof fn lemma_first_ws(s: Seq<u8>, i: int, hi: int)
    requires
        0 <= i <= hi <= s.len(),
        is_cut(s, hi),
    ensures
        i <= first_ws(s, i, hi) <= hi,
        is_cut(s, first_ws(s, i, hi)),
    decreases hi - i,
{
    if i < hi && ws_width(s, i, hi) == 0 {
        lemma_first_ws(s, i + 1, hi);
    } else if i < hi {
        lemma_ws_lead(s, i, hi);
    }
}

pub fn ws_width_exec(s: &[u8], i: usize, hi: usize) -> (r: usize)
    requires
        hi <= s@.len(),
    ensures
        r == ws_width(s@, i as int, hi as int),
{
    if i >= hi {
        return 0;
    }
    let b0: u8 = s[i];
    if b0 == 0x20 || (0x09 <= b0 && b0 <= 0x0d) {
        1
    } else if b0 == 0xc2 && hi - i >= 2 && (s[i + 1] == 0x85 || s[i + 1] == 0xa0) {
        2
    } else if hi - i >= 3 && is_ws3_exec(b0, s[i + 1], s[i + 2]) {
        3
    } else {
        0
    }
}

fn is_ws3_exec(b0: u8, b1: u8, b2: u8) -> (r: bool)
    ensures
        r == is_ws3(b0, b1, b2),
{
    (b0 == 0xe1 && b1 == 0x9a && b2 == 0x80) || (b0 == 0xe2 && b1 == 0x80 && ((0x80 <= b2 && b2
        <= 0x8a) || b2 == 0xa8 || b2 == 0xa9 || b2 == 0xaf)) || (b0 == 0xe2 && b1 == 0x81 && b2
        == 0x9f) || (b0 == 0xe3 && b1 == 0x80 && b2 == 0x80)
}

fn ws_width_before_exec(s: &[u8], lo: usize, j: usize) -> (r: usize)
    requires
        j <= s@.len(),
    ensures
        r == ws_width_before(s@, lo as int, j as int),
{
    if lo >= j {
        return 0;
    }
    let b: u8 = s[j - 1];
    if b == 0x20 || (0x09 <= b && b <= 0x0d) {
        1
    } else if j - lo >= 2 && s[j - 2] == 0xc2 && (b == 0x85 || b == 0xa0) {
        2
    } else if j - lo >= 3 && is_ws3_exec(s[j - 3], s[j - 2], b) {
        3
    } else {
        0
    }
}

pub fn skip_ws_exec(s: &[u8], i: usize, hi: usize) -> (r: usize)
    requires
        hi <= s@.len(),
    ensures
        r == skip_ws(s@, i as int, hi as int),
{
    let mut k: usize = i;
    loop
        invariant
            hi <= s@.len(),
            skip_ws(s@, i as int, hi as int) == skip_ws(s@, k as int, hi as int),
        decreases hi - k,
    {
        if k >= hi {
            return k;
        }
        let w: usize = ws_width_exec(s, k, hi);
        if w == 0 {
            return k;
        }
        k = k + w;
    }
}

pub fn skip_ws_back_exec(s: &[u8], lo: usize, j: usize) -> (r: usize)
    requires
        j <= s@.len(),
    ensures
        r == skip_ws_back(s@, lo as int, j as int),
{
    let mut k: usize = j;
    loop
        invariant
            k <= s@.len(),
            skip_ws_back(s@, lo as int, j as int) == skip_ws_back(s@, lo as int, k as int),
        decreases k,
    {
        if k <= lo {
            return k;
        }
        let w: usize = ws_width_before_exec(s, lo, k);
        if w == 0 {
            return k;
        }
        k = k - w;
    }
}

pub fn first_ws_exec(s: &[u8], i: usize, hi: usize) -> (r: usize)
    requires
        i <= hi <= s@.len(),
    ensures
        r == first_ws(s@, i as int, hi as int),
{
    let mut k: usize = i;
    while k < hi
        invariant
            i <= k <= hi <= s@.len(),
            first_ws(s@, i as int, hi as int) == first_ws(s@, k as int, hi as int),
        decreases hi - k,
    {
        if ws_width_exec(s, k, hi) > 0 {
            return k;
        }
        k = k + 1;
    }
    hi
}

} // verus!
