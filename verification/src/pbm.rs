//! Plain (ASCII) PBM images of the framebuffer, for looking at screens on a
//! desktop: a `P1` header, then one row per line, each pixel written as `1 `
//! for black or `0 ` for white.
use vstd::prelude::*;
use crate::fb::{pixel_of, Framebuffer, HEIGHT, WIDTH};

verus! {

/// Bytes of the header `P1\n800 480\n`.
pub const PBM_HEADER_BYTES: usize = 11;

/// Bytes of one image row: two per pixel and the line break.
pub const PBM_LINE_BYTES: usize = 1601;

/// The header: the format tag and the image size, one per line.
pub open spec fn pbm_header() -> Seq<u8> {
    seq![0x50u8, 0x31u8, 0x0au8, 0x38u8, 0x30u8, 0x30u8, 0x20u8, 0x34u8, 0x38u8, 0x30u8, 0x0au8]
}

/// Byte `i` of the image of the frame `d`.
pub open spec fn pbm_byte(d: Seq<u8>, i: int) -> u8 {
    if i < PBM_HEADER_BYTES {
        pbm_header()[i]
    } else {
        let y = (i - PBM_HEADER_BYTES) / (PBM_LINE_BYTES as int);
        let k = (i - PBM_HEADER_BYTES) % (PBM_LINE_BYTES as int);
        if k == 2 * WIDTH {
            0x0au8
        } else if k % 2 == 1 {
            0x20u8
        } else if pixel_of(d, k / 2, y) {
            0x30u8
        } else {
            0x31u8
        }
    }
}

/// The image of the frame `d`.
pub open spec fn pbm_bytes(d: Seq<u8>) -> Seq<u8> {
    Seq::new(
        (PBM_HEADER_BYTES + HEIGHT * PBM_LINE_BYTES) as nat,
        |i: int| pbm_byte(d, i),
    )
}

proof fn lemma_line_pos(y: int, k: int)
    requires
        0 <= y,
        0 <= k < PBM_LINE_BYTES,
    ensures
        (y * PBM_LINE_BYTES + k) / (PBM_LINE_BYTES as int) == y,
        (y * PBM_LINE_BYTES + k) % (PBM_LINE_BYTES as int) == k,
{
    vstd::arithmetic::div_mod::lemma_fundamental_div_mod_converse(
        y * PBM_LINE_BYTES + k,
        PBM_LINE_BYTES as int,
        y,
        k,
    );
}

/// The plain PBM image of a frame.
pub fn encode_pbm(fb: &Framebuffer) -> (r: Vec<u8>)
    ensures
        r@ == pbm_bytes(fb@),
{
    let header: [u8; 11] = [0x50, 0x31, 0x0a, 0x38, 0x30, 0x30, 0x20, 0x34, 0x38, 0x30, 0x0a];
    let mut out: Vec<u8> = Vec::with_capacity(PBM_HEADER_BYTES + HEIGHT * PBM_LINE_BYTES);
    let mut h: usize = 0;
    while h < PBM_HEADER_BYTES
        invariant
            h <= PBM_HEADER_BYTES,
            header@ == pbm_header(),
            out@.len() == h,
            forall|i: int| 0 <= i < h ==> out@[i] == pbm_byte(fb@, i),
        decreases PBM_HEADER_BYTES - h,
    {
        out.push(header[h]);
        h = h + 1;
    }
    let mut y: usize = 0;
    while y < HEIGHT
        invariant
            y <= HEIGHT,
            out@.len() == PBM_HEADER_BYTES + y * PBM_LINE_BYTES,
            forall|i: int| 0 <= i < out@.len() ==> out@[i] == pbm_byte(fb@, i),
        decreases HEIGHT - y,
    {
        let mut x: usize = 0;
        while x < WIDTH
            invariant
                y < HEIGHT,
                x <= WIDTH,
                out@.len() == PBM_HEADER_BYTES + y * PBM_LINE_BYTES + 2 * x,
                forall|i: int| 0 <= i < out@.len() ==> out@[i] == pbm_byte(fb@, i),
            decreases WIDTH - x,
        {
            let white = fb.pixel(x, y);
            let at: Ghost<int> = Ghost(out@.len() as int);
            proof {
                lemma_line_pos(y as int, 2 * x);
                lemma_line_pos(y as int, 2 * x + 1);
                assert((2 * x) / 2 == x);
                assert((2 * x) % 2 == 0);
                assert((2 * x + 1) % 2 == 1);
            }
            out.push(if white { 0x30u8 } else { 0x31u8 });
            assert(out@[at@] == pbm_byte(fb@, at@));
            out.push(0x20u8);
            assert(out@[at@ + 1] == pbm_byte(fb@, at@ + 1));
            x = x + 1;
        }
        proof {
            lemma_line_pos(y as int, 2 * WIDTH);
        }
        out.push(0x0au8);
        proof {
            assert((y + 1) * PBM_LINE_BYTES == y * PBM_LINE_BYTES + PBM_LINE_BYTES) by (nonlinear_arith);
        }
        y = y + 1;
    }
    assert(out@ =~= pbm_bytes(fb@));
    out
}

/// In the image of a frame, row `y` is line `y` after the header: pixel
/// `(x, y)` is written as `1` when black and `0` when white, followed by a
/// space, and the line ends in a line break.
pub proof fn lemma_pbm_pixel(d: Seq<u8>, x: int, y: int)
    requires
        0 <= x < WIDTH,
        0 <= y < HEIGHT,
    ensures
        ({
            let at = PBM_HEADER_BYTES + y * PBM_LINE_BYTES + 2 * x;
            let eol = PBM_HEADER_BYTES + y * PBM_LINE_BYTES + 2 * WIDTH;
            &&& eol < pbm_bytes(d).len()
            &&& pbm_bytes(d)[at] == (if pixel_of(d, x, y) {
                0x30u8
            } else {
                0x31u8
            })
            &&& pbm_bytes(d)[at + 1] == 0x20u8
            &&& pbm_bytes(d)[eol] == 0x0au8
        }),
{
    lemma_line_pos(y, 2 * x);
    lemma_line_pos(y, 2 * x + 1);
    lemma_line_pos(y, 2 * WIDTH);
    assert(y * PBM_LINE_BYTES <= (HEIGHT - 1) * PBM_LINE_BYTES) by (nonlinear_arith)
        requires
            0 <= y < HEIGHT,
    ;
    assert((2 * x) / 2 == x);
    assert((2 * x) % 2 == 0);
    assert((2 * x + 1) % 2 == 1);
}

} // verus!
