//! The panel's 1-bit framebuffer: 800 x 480 pixels, one bit each, rows of 100
//! bytes, the most significant bit leftmost. A set bit is white.
use vstd::prelude::*;

verus! {

pub const WIDTH: usize = 800;

pub const HEIGHT: usize = 480;

pub const ROW_BYTES: usize = 100;

pub const FB_BYTES: usize = 48000;

/// Index of the byte that holds pixel `(x, y)`.
pub open spec fn byte_index(x: int, y: int) -> int {
    y * ROW_BYTES + x / 8
}

/// The mask of pixel column `x` within its byte.
pub open spec fn bit_mask(x: int) -> u8 {
    (0x80u8 >> ((x % 8) as u8)) as u8
}

/// Whether pixel `(x, y)` is white in the bytes `d`; pixels off the panel read
/// as white.
pub open spec fn pixel_of(d: Seq<u8>, x: int, y: int) -> bool {
    if 0 <= x < WIDTH && 0 <= y < HEIGHT {
        d[byte_index(x, y)] & bit_mask(x) != 0
    } else {
        true
    }
}

pub struct Framebuffer {
    data: [u8; FB_BYTES],
}

impl View for Framebuffer {
    type V = Seq<u8>;

    closed spec fn view(&self) -> Seq<u8> {
        self.data@
    }
}

impl Framebuffer {
    /// A frame holds one bit per pixel.
    pub proof fn lemma_len(&self)
        ensures
            self@.len() == FB_BYTES,
    {
    }

    /// An all-white frame.
    pub fn new() -> (r: Self)
        ensures
            r@.len() == FB_BYTES,
            forall|i: int| 0 <= i < FB_BYTES ==> r@[i] == 0xff,
            forall|x: int, y: int|
                #![trigger pixel_of(r@, x, y)]
                pixel_of(r@, x, y),
    {
        let r = Self { data: [0xFFu8; FB_BYTES] };
        proof {
            lemma_cleared_pixels(r@, true);
        }
        r
    }

    pub fn bytes(&self) -> (r: &[u8; FB_BYTES])
        ensures
            r@ == self@,
    {
        &self.data
    }

    /// Paints every pixel white or black.
    pub fn clear(&mut self, white: bool)
        ensures
            final(self)@.len() == FB_BYTES,
            forall|i: int| 0 <= i < FB_BYTES ==> final(self)@[i] == (if white {
                0xffu8
            } else {
                0x00u8
            }),
            forall|x: int, y: int|
                #![trigger pixel_of(final(self)@, x, y)]
                0 <= x < WIDTH && 0 <= y < HEIGHT ==> pixel_of(final(self)@, x, y) == white,
    {
        let value: u8 = if white {
            0xFF
        } else {
            0x00
        };
        let mut i: usize = 0;
        while i < FB_BYTES
            invariant
                i <= FB_BYTES,
                self@.len() == FB_BYTES,
                forall|j: int| 0 <= j < i ==> self@[j] == value,
            decreases FB_BYTES - i,
        {
            self.data[i] = value;
            i = i + 1;
        }
        proof {
            lemma_cleared_pixels(self@, white);
        }
    }

    /// Makes this frame a copy of `other`.
    pub fn copy_from(&mut self, other: &Self)
        ensures
            final(self)@ == other@,
    {
        let mut i: usize = 0;
        while i < FB_BYTES
            invariant
                i <= FB_BYTES,
                self@.len() == FB_BYTES,
                other@.len() == FB_BYTES,
                forall|j: int| 0 <= j < i ==> self@[j] == other@[j],
            decreases FB_BYTES - i,
        {
            self.data[i] = other.data[i];
            i = i + 1;
        }
        assert(self@ =~= other@);
    }

    /// The bytes of `rows` rows starting at row `y`, cut at the bottom edge.
    pub fn band(&self, y: usize, rows: usize) -> (r: &[u8])
        requires
            y <= HEIGHT,
        ensures
            r@ == self@.subrange(
                y * ROW_BYTES,
                y * ROW_BYTES + (if rows < HEIGHT - y {
                    rows
                } else {
                    (HEIGHT - y) as usize
                }) * ROW_BYTES,
            ),
    {
        let start: usize = y * ROW_BYTES;
        let count: usize = if rows < HEIGHT - y {
            rows
        } else {
            HEIGHT - y
        };
        let end: usize = start + count * ROW_BYTES;
        vstd::slice::slice_subrange(self.data.as_slice(), start, end)
    }

    /// Paints pixel `(x, y)`; a pixel off the panel is ignored.
    pub fn set_pixel(&mut self, x: usize, y: usize, white: bool)
        ensures
            final(self)@.len() == FB_BYTES,
            forall|px: int, py: int|
                #![trigger pixel_of(final(self)@, px, py)]
                pixel_of(final(self)@, px, py) == if px == x && py == y && x < WIDTH && y < HEIGHT {
                    white
                } else {
                    pixel_of(old(self)@, px, py)
                },
    {
        if x >= WIDTH || y >= HEIGHT {
            return;
        }
        let index: usize = y * ROW_BYTES + x / 8;
        let shift: u8 = (x % 8) as u8;
        let mask: u8 = 0x80u8 >> shift;
        let ghost before = self@;
        let old_byte: u8 = self.data[index];
        let new_byte: u8 = if white {
            old_byte | mask
        } else {
            old_byte & !mask
        };
        self.data[index] = new_byte;
        proof {
            assert forall|px: int, py: int|
                #![trigger pixel_of(self@, px, py)]
                pixel_of(self@, px, py) == if px == x && py == y {
                    white
                } else {
                    pixel_of(before, px, py)
                } by {
                if 0 <= px < WIDTH && 0 <= py < HEIGHT {
                    lemma_byte_index_range(px, py);
                    let j = byte_index(px, py);
                    if j == index as int {
                        lemma_same_byte(x as int, y as int, px, py);
                        let s2: u8 = (px % 8) as u8;
                        assert(bit_mask(px) == 0x80u8 >> s2);
                        lemma_bit_update(old_byte, shift, s2, white);
                    }
                }
            }
        }
    }

    /// Whether pixel `(x, y)` is white; a pixel off the panel reads as white.
    pub fn pixel(&self, x: usize, y: usize) -> (r: bool)
        ensures
            r == pixel_of(self@, x as int, y as int),
    {
        if x >= WIDTH || y >= HEIGHT {
            return true;
        }
        let index: usize = y * ROW_BYTES + x / 8;
        let shift: u8 = (x % 8) as u8;
        let mask: u8 = 0x80u8 >> shift;
        self.data[index] & mask != 0
    }
}

impl Default for Framebuffer {
    fn default() -> (r: Self)
        ensures
            forall|i: int| 0 <= i < FB_BYTES ==> r@[i] == 0xff,
            forall|x: int, y: int|
                #![trigger pixel_of(r@, x, y)]
                pixel_of(r@, x, y),
    {
        Self::new()
    }
}

proof fn lemma_byte_index_range(x: int, y: int)
    requires
        0 <= x < WIDTH,
        0 <= y < HEIGHT,
    ensures
        0 <= byte_index(x, y) < FB_BYTES,
{
}

/// Two pixels share a byte only in the same row and the same run of eight columns.
proof fn lemma_same_byte(x1: int, y1: int, x2: int, y2: int)
    requires
        0 <= x1 < WIDTH,
        0 <= y1 < HEIGHT,
        0 <= x2 < WIDTH,
        0 <= y2 < HEIGHT,
        byte_index(x1, y1) == byte_index(x2, y2),
    ensures
        y1 == y2,
        x1 / 8 == x2 / 8,
        (x1 == x2) == (x1 % 8 == x2 % 8),
{
}

/// Setting or clearing one bit changes only that bit.
proof fn lemma_bit_update(b: u8, i: u8, j: u8, white: bool)
    requires
        i < 8,
        j < 8,
    ensures
        white ==> ((b | (0x80u8 >> i)) & (0x80u8 >> j) != 0) == (if i == j {
            true
        } else {
            b & (0x80u8 >> j) != 0
        }),
        !white ==> ((b & !(0x80u8 >> i)) & (0x80u8 >> j) != 0) == (if i == j {
            false
        } else {
            b & (0x80u8 >> j) != 0
        }),
{
    assert(i < 8 && j < 8 ==> ((b | (0x80u8 >> i)) & (0x80u8 >> j) != 0) == (if i == j {
        true
    } else {
        b & (0x80u8 >> j) != 0
    })) by (bit_vector);
    assert(i < 8 && j < 8 ==> ((b & !(0x80u8 >> i)) & (0x80u8 >> j) != 0) == (if i == j {
        false
    } else {
        b & (0x80u8 >> j) != 0
    })) by (bit_vector);
}

/// In a frame cleared to `white`, every pixel reads `white`.
pub proof fn lemma_cleared_pixels(d: Seq<u8>, white: bool)
    requires
        d.len() == FB_BYTES,
        forall|i: int| 0 <= i < FB_BYTES ==> d[i] == (if white {
            0xffu8
        } else {
            0x00u8
        }),
    ensures
        forall|x: int, y: int|
            #![trigger pixel_of(d, x, y)]
            0 <= x < WIDTH && 0 <= y < HEIGHT ==> pixel_of(d, x, y) == white,
{
    assert forall|x: int, y: int|
        #![trigger pixel_of(d, x, y)]
        0 <= x < WIDTH && 0 <= y < HEIGHT implies pixel_of(d, x, y) == white by {
        lemma_byte_index_range(x, y);
        let s: u8 = (x % 8) as u8;
        assert(bit_mask(x) == 0x80u8 >> s);
        assert(s < 8 ==> (0xffu8 & (0x80u8 >> s)) != 0 && (0x00u8 & (0x80u8 >> s)) == 0)
            by (bit_vector);
    }
}

} // verus!
