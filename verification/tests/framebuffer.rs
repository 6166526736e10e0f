use xteink_x4::fb::{Framebuffer, FB_BYTES, HEIGHT, ROW_BYTES, WIDTH};
use xteink_x4::pbm::encode_pbm;

#[test]
fn a_new_frame_is_white() {
    let fb = Framebuffer::new();
    assert!(fb.bytes().iter().all(|b| *b == 0xff));
    assert_eq!(fb.bytes().len(), FB_BYTES);
    assert!(fb.pixel(0, 0));
    assert!(fb.pixel(WIDTH - 1, HEIGHT - 1));
    let d = Framebuffer::default();
    assert_eq!(d.bytes(), fb.bytes());
}

#[test]
fn a_pixel_reads_back_what_was_written() {
    let mut fb = Framebuffer::new();
    fb.set_pixel(9, 2, false);
    assert!(!fb.pixel(9, 2));
    assert!(fb.pixel(8, 2));
    assert!(fb.pixel(10, 2));
    assert_eq!(fb.bytes()[2 * ROW_BYTES + 1], 0b1011_1111);
    fb.set_pixel(9, 2, true);
    assert!(fb.pixel(9, 2));
    assert_eq!(fb.bytes()[2 * ROW_BYTES + 1], 0xff);
}

#[test]
fn pixels_off_the_panel_are_white_and_ignored() {
    let mut fb = Framebuffer::new();
    fb.set_pixel(WIDTH, 0, false);
    fb.set_pixel(0, HEIGHT, false);
    assert!(fb.bytes().iter().all(|b| *b == 0xff));
    assert!(fb.pixel(WIDTH, 0));
    assert!(fb.pixel(5, HEIGHT + 7));
}

#[test]
fn clear_paints_every_pixel() {
    let mut fb = Framebuffer::new();
    fb.clear(false);
    assert!(fb.bytes().iter().all(|b| *b == 0));
    assert!(!fb.pixel(400, 240));
    fb.clear(true);
    assert!(fb.pixel(400, 240));
}

#[test]
fn copy_and_band() {
    let mut a = Framebuffer::new();
    a.set_pixel(0, 3, false);
    let mut b = Framebuffer::new();
    b.copy_from(&a);
    assert!(!b.pixel(0, 3));
    let band = b.band(3, 2);
    assert_eq!(band.len(), 2 * ROW_BYTES);
    assert_eq!(band[0], 0x7f);
    assert_eq!(b.band(HEIGHT - 1, 5).len(), ROW_BYTES);
    assert_eq!(b.band(HEIGHT, 1).len(), 0);
}

#[test]
fn pbm_image_marks_black_pixels_with_one() {
    let mut fb = Framebuffer::new();
    fb.set_pixel(1, 0, false);
    fb.set_pixel(WIDTH - 1, HEIGHT - 1, false);
    let image = encode_pbm(&fb);
    let header = b"P1\n800 480\n";
    assert_eq!(&image[..header.len()], header);
    assert_eq!(image.len(), header.len() + HEIGHT * (2 * WIDTH + 1));
    assert_eq!(&image[header.len()..header.len() + 6], b"0 1 0 ");
    let line = header.len() + 2 * WIDTH;
    assert_eq!(image[line], b'\n');
    let last = image.len() - 3;
    assert_eq!(&image[last..], b"1 \n");
    assert_eq!(image.iter().filter(|b| **b == b'1').count(), 2 + 1);
}
