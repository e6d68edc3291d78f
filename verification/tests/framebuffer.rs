use magic_paper::framebuffer::{FrameBuffer, Mask, Pixel, IMAGE_BYTES};
use magic_paper::geometry::{Point, Rectangle, Size};

fn is_black(frame: &FrameBuffer, x: usize, y: usize) -> bool {
    frame.as_bytes()[x * 100 + y / 8] & (0x80 >> (y % 8)) == 0
}

fn black_pixels(frame: &FrameBuffer) -> Vec<(usize, usize)> {
    let mut all = Vec::new();
    for x in 0..480 {
        for y in 0..800 {
            if is_black(frame, x, y) {
                all.push((x, y));
            }
        }
    }
    all
}

fn at(x: i32, y: i32, on: bool) -> Pixel {
    Pixel { point: Point::new(x, y), on }
}

#[test]
fn a_new_image_is_white() {
    let frame = FrameBuffer::new();
    assert_eq!(frame.as_bytes().len(), IMAGE_BYTES);
    assert!(frame.as_bytes().iter().all(|b| *b == 0xFF));
    assert_eq!(frame.size(), Size::new(480, 800));
    assert_eq!(FrameBuffer::default().as_bytes(), frame.as_bytes());
}

#[test]
fn pixels_land_transposed() {
    let mut frame = FrameBuffer::new();
    frame.set_pixel(0, 0, true);
    assert_eq!(frame.as_bytes()[0], 0x7F);
    frame.set_pixel(3, 9, true);
    assert_eq!(frame.as_bytes()[301], 0xBF);
    frame.set_pixel(479, 799, true);
    assert_eq!(frame.as_bytes()[47_999], 0xFE);
    frame.set_pixel(3, 9, false);
    assert_eq!(frame.as_bytes()[301], 0xFF);
}

#[test]
fn pixels_off_the_screen_are_left_out() {
    let mut frame = FrameBuffer::new();
    frame.set_pixel(480, 0, true);
    frame.set_pixel(0, 800, true);
    frame.set_pixel(u16::MAX, u16::MAX, true);
    frame.draw_iter(&[at(-1, 5, true), at(5, -1, true), at(70_000, 3, true), at(3, 70_000, true)]);
    assert!(frame.as_bytes().iter().all(|b| *b == 0xFF));
}

#[test]
fn the_last_pixel_drawn_counts() {
    let mut frame = FrameBuffer::new();
    frame.draw_iter(&[at(1, 1, true), at(2, 2, true), at(1, 1, false)]);
    assert_eq!(black_pixels(&frame), vec![(2, 2)]);
    frame.clear_white();
    assert!(black_pixels(&frame).is_empty());
}

#[test]
fn solid_fills_are_clipped() {
    let mut frame = FrameBuffer::new();
    frame.fill_solid(&Rectangle::new(Point::new(-2, 798), Size::new(4, 50)), true);
    assert_eq!(black_pixels(&frame), vec![(0, 798), (0, 799), (1, 798), (1, 799)]);
    frame.fill_solid(&Rectangle::new(Point::new(1, 799), Size::new(1, 1)), false);
    assert_eq!(black_pixels(&frame), vec![(0, 798), (0, 799), (1, 798)]);
    frame.fill_solid(&Rectangle::new(Point::new(10, 10), Size::new(0, 5)), true);
    assert_eq!(black_pixels(&frame).len(), 3);
    frame.fill_solid(&Rectangle::new(Point::new(i32::MIN, 0), Size::new(u32::MAX, 1)), true);
    assert_eq!(black_pixels(&frame).len(), 3);
}

#[test]
fn a_fill_can_cover_the_screen() {
    let mut frame = FrameBuffer::new();
    frame.fill_solid(&Rectangle::new(Point::new(-5, -5), Size::new(1000, 1000)), true);
    assert!(frame.as_bytes().iter().all(|b| *b == 0x00));
}

#[test]
fn masks_take_black_pixels_only() {
    let mut mask = Mask::new();
    assert!(mask.is_empty());
    assert_eq!(mask.size(), Size::new(480, 800));
    mask.draw_iter(&[at(3, 9, true), at(4, 9, false), at(480, 0, true), at(0, -1, true)]);
    assert!(!mask.is_empty());
    assert_eq!(mask.as_bytes()[301], 0x40);
    assert_eq!(mask.as_bytes().iter().filter(|b| **b != 0).count(), 1);
    // A white pixel does not take a mark away.
    mask.draw_iter(&[at(3, 9, false)]);
    assert_eq!(mask.as_bytes()[301], 0x40);
    mask.clear();
    assert!(mask.is_empty());
    assert!(Mask::default().is_empty());
}

#[test]
fn the_same_ink_is_the_same_image() {
    let mut filled = FrameBuffer::new();
    filled.fill_solid(&Rectangle::new(Point::new(10, 5), Size::new(3, 9)), true);
    let mut dotted = FrameBuffer::new();
    dotted.set_pixel(400, 700, true);
    for x in 10..13 {
        for y in 5..14 {
            dotted.set_pixel(x, y, true);
        }
    }
    assert_ne!(dotted.as_bytes(), filled.as_bytes());
    dotted.set_pixel(400, 700, false);
    assert_eq!(dotted.as_bytes(), filled.as_bytes());
    assert_eq!(filled.as_bytes()[1_000..1_002], [0xF8, 0x03]);
}
