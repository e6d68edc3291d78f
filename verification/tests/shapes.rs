use embedded_graphics::draw_target::DrawTarget;
use embedded_graphics::geometry::{Dimensions, OriginDimensions};
use embedded_graphics::mono_font::ascii::FONT_10X20;
use embedded_graphics::mono_font::MonoTextStyle;
use embedded_graphics::pixelcolor::BinaryColor;
use embedded_graphics::primitives::{Circle, Line, Primitive, PrimitiveStyle};
use embedded_graphics::text::{Alignment, LineHeight, Text, TextStyleBuilder};
use embedded_graphics::Drawable;
use magic_paper::ap::{draw_setup, draw_ui, join_code, SSID, WIFI_PW};
use magic_paper::framebuffer::{FrameBuffer, Mask, Pixel};
use magic_paper::geometry::{Point, Rectangle, Size};
use magic_paper::paper::{apply, draw_chrome, grow, is_reachable, Ink, Update};
use magic_paper::qr::{EncodeError, Fill, FitError, QrImage, SURE_BYTES};
use magic_paper::shapes::{
    draw_dot, draw_outline, draw_points, draw_stroke, draw_text, mark_points, stamp,
};

type EgPoint = embedded_graphics::geometry::Point;
type EgRectangle = embedded_graphics::primitives::Rectangle;
type EgSize = embedded_graphics::geometry::Size;

/// A canvas that `embedded-graphics` draws on directly.
struct Canvas(FrameBuffer);

impl OriginDimensions for Canvas {
    fn size(&self) -> EgSize {
        EgSize::new(480, 800)
    }
}

impl DrawTarget for Canvas {
    type Color = BinaryColor;
    type Error = core::convert::Infallible;

    fn draw_iter<I>(&mut self, pixels: I) -> Result<(), Self::Error>
    where
        I: IntoIterator<Item = embedded_graphics::Pixel<Self::Color>>,
    {
        for p in pixels {
            self.0.draw_iter(&[Pixel { point: Point::new(p.0.x, p.0.y), on: p.1.is_on() }]);
        }
        Ok(())
    }
}

fn inverted(frame: &FrameBuffer) -> Vec<u8> {
    frame.as_bytes().iter().map(|b| !b).collect()
}

fn stroke_style() -> PrimitiveStyle<BinaryColor> {
    PrimitiveStyle::with_stroke(BinaryColor::On, 6)
}

fn same_box(ours: Rectangle, theirs: EgRectangle) {
    assert_eq!(ours.top_left, Point::new(theirs.top_left.x, theirs.top_left.y));
    assert_eq!(ours.size, Size::new(theirs.size.width, theirs.size.height));
}

#[test]
fn strokes_are_those_of_the_graphics_crate() {
    for (a, b) in [
        ((100, 100), (180, 131)),
        ((180, 131), (100, 100)),
        ((240, 400), (240, 400)),
        ((3, 2), (-40, 60)),
        ((470, 790), (600, 1200)),
        ((0, 0), (479, 799)),
    ] {
        let mut frame = FrameBuffer::new();
        let mut mask = Mask::new();
        let area =
            draw_stroke(Point::new(a.0, a.1), Point::new(b.0, b.1), 6, &mut frame, &mut mask);
        let line = Line::new(EgPoint::new(a.0, a.1), EgPoint::new(b.0, b.1)).into_styled(stroke_style());
        let mut canvas = Canvas(FrameBuffer::new());
        line.draw(&mut canvas).unwrap();
        assert_eq!(frame.as_bytes(), canvas.0.as_bytes());
        assert_eq!(mask.as_bytes(), inverted(&frame));
        same_box(area, line.bounding_box());
    }
}

#[test]
fn dots_are_those_of_the_graphics_crate() {
    for c in [(100, 100), (0, 0), (479, 799), (-2, 5), (-3, 5), (-4, 5)] {
        let mut frame = FrameBuffer::new();
        let mut mask = Mask::new();
        let area = draw_dot(Point::new(c.0, c.1), 6, &mut frame, &mut mask);
        let dot = Circle::with_center(EgPoint::new(c.0, c.1), 6)
            .into_styled(PrimitiveStyle::with_fill(BinaryColor::On));
        let mut canvas = Canvas(FrameBuffer::new());
        dot.draw(&mut canvas).unwrap();
        assert_eq!(frame.as_bytes(), canvas.0.as_bytes());
        assert_eq!(mask.as_bytes(), inverted(&frame));
        same_box(area, dot.bounding_box());
    }
}

#[test]
fn a_dot_is_round() {
    let mut frame = FrameBuffer::new();
    let mut mask = Mask::new();
    let area = draw_dot(Point::new(10, 10), 6, &mut frame, &mut mask);
    assert_eq!(area, Rectangle::new(Point::new(8, 8), Size::new(6, 6)));
    // Rows 8 to 15 of a column are one byte, the topmost row in its top bit.
    let columns: Vec<u8> = (8..14).map(|x| mask.as_bytes()[x * 100 + 1]).collect();
    assert_eq!(columns, vec![0x78, 0xFC, 0xFC, 0xFC, 0xFC, 0x78]);
}

#[test]
fn the_outline_runs_along_the_edge() {
    let mut frame = FrameBuffer::new();
    let area = Rectangle::new(Point::new(10, 20), Size::new(30, 12));
    draw_outline(area, 2, &mut frame);
    let mut canvas = Canvas(FrameBuffer::new());
    EgRectangle::new(EgPoint::new(10, 20), EgSize::new(30, 12))
        .into_styled(PrimitiveStyle::with_stroke(BinaryColor::On, 2))
        .draw(&mut canvas)
        .unwrap();
    assert_eq!(frame.as_bytes(), canvas.0.as_bytes());
    // Columns 9 and 10 are black from row 19 to row 32.
    assert_eq!(inverted(&frame)[902..905], [0x1F, 0xFF, 0x80]);
    assert_eq!(inverted(&frame)[1102..1105], [0x18, 0x01, 0x80]);
}

#[test]
fn text_is_that_of_the_graphics_crate() {
    for (text, x, y, height) in
        [("clear", 419, 54, 20), ("Scan to Setup", 240, 100, 50), ("edge", 2, 798, 20), ("", 9, 9, 1)]
    {
        let mut frame = FrameBuffer::new();
        draw_text(text, Point::new(x, y), height, &mut frame);
        let mut canvas = Canvas(FrameBuffer::new());
        Text::with_text_style(
            text,
            EgPoint::new(x, y),
            MonoTextStyle::new(&FONT_10X20, BinaryColor::On),
            TextStyleBuilder::new()
                .line_height(LineHeight::Pixels(height))
                .alignment(Alignment::Center)
                .build(),
        )
        .draw(&mut canvas)
        .unwrap();
        assert_eq!(frame.as_bytes(), canvas.0.as_bytes());
        assert_eq!(frame.as_bytes().iter().all(|b| *b == 0xFF), text.is_empty());
    }
}

#[test]
fn strips_are_stamped_at_their_baseline() {
    let mut strip = vec![0u8; 3840];
    // Column 9 of the row of the baseline, column 479 of the last row.
    strip[32 * 60 + 1] = 0x40;
    strip[63 * 60 + 59] = 0x01;
    let mut frame = FrameBuffer::new();
    stamp(&strip, 700, &mut frame);
    let ink = inverted(&frame);
    assert_eq!(ink[900 + 87], 0x08);
    assert_eq!(ink[47_900 + 91], 0x10);
    assert_eq!(ink.iter().filter(|b| **b != 0).count(), 2);
    // What is off the screen is left out.
    let mut frame = FrameBuffer::new();
    stamp(&strip, 799, &mut frame);
    assert_eq!(inverted(&frame).iter().filter(|b| **b != 0).count(), 1);
}

#[test]
fn points_are_drawn_and_marked() {
    let mut frame = FrameBuffer::new();
    let mut mask = Mask::new();
    let points = [(1, 0), (1, 0), (-1, 4), (480, 0), (2, 7)];
    draw_points(&points, &mut frame);
    mark_points(&points, &mut mask);
    assert_eq!(mask.as_bytes()[100], 0x80);
    assert_eq!(mask.as_bytes()[200], 0x01);
    assert_eq!(mask.as_bytes(), inverted(&frame));
    assert_eq!(mask.as_bytes().iter().filter(|b| **b != 0).count(), 2);
}

#[test]
fn the_furniture_is_that_of_the_graphics_crate() {
    let mut frame = FrameBuffer::new();
    draw_chrome(&mut frame);
    let mut canvas = Canvas(FrameBuffer::new());
    let button = EgRectangle::new(EgPoint::new(380, 20), EgSize::new(80, 56));
    button
        .into_styled(PrimitiveStyle::with_stroke(BinaryColor::On, 2))
        .draw(&mut canvas)
        .unwrap();
    let centre = button.center();
    Text::with_alignment(
        "clear",
        EgPoint::new(centre.x, centre.y + 7),
        MonoTextStyle::new(&FONT_10X20, BinaryColor::On),
        Alignment::Center,
    )
    .draw(&mut canvas)
    .unwrap();
    assert_eq!(frame.as_bytes(), canvas.0.as_bytes());
}

#[test]
fn boxes_hold_their_strokes() {
    for dx in (-60i32..=60).step_by(3) {
        for dy in (-60i32..=60).step_by(3) {
            let line = Line::new(EgPoint::new(0, 0), EgPoint::new(dx, dy)).into_styled(stroke_style());
            let b = line.bounding_box();
            assert!(line.pixels().all(|p| b.contains(p.0)));
            let far = b.bottom_right().unwrap();
            assert!(b.top_left.x > dx.min(0) - 16 && b.top_left.y > dy.min(0) - 16);
            assert!(far.x < dx.max(0) + 16 && far.y < dy.max(0) + 16);
        }
    }
    for dx in (-479i32..480).step_by(29) {
        for dy in (-799i32..800).step_by(41) {
            let line = Line::new(EgPoint::new(0, 0), EgPoint::new(dx, dy)).into_styled(stroke_style());
            let b = line.bounding_box();
            assert!(line.pixels().all(|p| b.contains(p.0)));
        }
    }
    for (dx, dy) in [(3310, 0), (0, -3310), (2340, 2340), (-479, 799), (3000, -1399)] {
        let line = Line::new(EgPoint::new(7, 9), EgPoint::new(7 + dx, 9 + dy)).into_styled(stroke_style());
        let b = line.bounding_box();
        assert!(line.pixels().all(|p| b.contains(p.0)));
    }
}

#[test]
fn ink_is_applied_to_the_canvas() {
    let mut pen = None;
    let mut frame = FrameBuffer::new();
    let mut mask = Mask::new();
    let (update, touched) = apply(&mut pen, Ink::At(Point::new(50, 60)), &mut frame, &mut mask);
    assert_eq!(update, Update::Drawn);
    assert_eq!(touched, Some(Rectangle::new(Point::new(48, 58), Size::new(6, 6))));
    assert_eq!(pen, Some(Point::new(50, 60)));
    let (update, touched) = apply(&mut pen, Ink::At(Point::new(50, 90)), &mut frame, &mut mask);
    assert_eq!(update, Update::Drawn);
    assert_eq!(touched, Some(Rectangle::new(Point::new(48, 60), Size::new(6, 31))));
    assert_eq!(mask.as_bytes(), inverted(&frame));
    let before = frame.as_bytes().to_vec();
    assert_eq!(apply(&mut pen, Ink::Lifted, &mut frame, &mut mask), (Update::Lifted, None));
    assert_eq!(pen, None);
    assert_eq!(frame.as_bytes(), before);
    assert_eq!(apply(&mut pen, Ink::Clear, &mut frame, &mut mask), (Update::Cleared, None));
    let mut bare = FrameBuffer::new();
    draw_chrome(&mut bare);
    assert_eq!(frame.as_bytes(), bare.as_bytes());
    assert!(!mask.is_empty());
}

#[test]
fn areas_grow_to_cover_each_other() {
    let mut area = None;
    grow(&mut area, Rectangle::new(Point::new(5, 5), Size::new(0, 3)));
    assert_eq!(area, None);
    grow(&mut area, Rectangle::new(Point::new(5, 5), Size::new(2, 3)));
    assert_eq!(area, Some(Rectangle::new(Point::new(5, 5), Size::new(2, 3))));
    grow(&mut area, Rectangle::new(Point::new(-1, 7), Size::new(3, 4)));
    assert_eq!(area, Some(Rectangle::new(Point::new(-1, 5), Size::new(8, 6))));
    grow(&mut area, Rectangle::new(Point::new(0, 6), Size::new(1, 1)));
    assert_eq!(area, Some(Rectangle::new(Point::new(-1, 5), Size::new(8, 6))));
    let mut empty = Some(Rectangle::new(Point::new(9, 9), Size::new(0, 0)));
    grow(&mut empty, Rectangle::new(Point::new(1, 1), Size::new(1, 1)));
    assert_eq!(empty, Some(Rectangle::new(Point::new(1, 1), Size::new(1, 1))));
}

#[test]
fn far_points_are_out_of_reach() {
    let here = Some(Point::new(0, 0));
    assert!(is_reachable(None, Point::new(479, 799)));
    assert!(is_reachable(here, Point::new(3310, 0)));
    assert!(!is_reachable(here, Point::new(3310, 1)));
    assert!(!is_reachable(None, Point::new(i32::MAX, 0)));
    assert!(!is_reachable(Some(Point::new(i32::MIN, i32::MIN)), Point::new(0, 0)));
}

fn screen() -> Rectangle {
    Rectangle::new(Point::new(0, 0), Size::new(480, 800))
}

#[test]
fn codes_fill_their_area() {
    let code = QrImage::fit("hello", screen()).unwrap();
    // 21 modules and a quiet zone of four on each side: 29 of 16 pixels.
    assert_eq!(code.side(), 464);
    let mut frame = FrameBuffer::new();
    frame.fill_solid(&screen(), true);
    code.draw(&mut frame);
    let reference = qrcode::QrCode::with_error_correction_level("hello", qrcode::EcLevel::L).unwrap();
    let colors = reference.to_colors();
    for x in 0..480usize {
        for y in 0..800usize {
            let black = frame.as_bytes()[x * 100 + y / 8] & (0x80 >> (y % 8)) == 0;
            let inside = (8..472).contains(&x) && (168..632).contains(&y);
            let expected = if !inside {
                true
            } else {
                let (c, r) = ((x - 8) / 16, (y - 168) / 16);
                (4..25).contains(&c)
                    && (4..25).contains(&r)
                    && colors[(r - 4) * 21 + (c - 4)] == qrcode::Color::Dark
            };
            assert_eq!(black, expected);
        }
    }
}

#[test]
fn small_areas_get_one_pixel_per_module() {
    let code = QrImage::fit("hello", Rectangle::new(Point::new(50, 60), Size::new(10, 8))).unwrap();
    assert_eq!(code.side(), 29);
    let mut frame = FrameBuffer::new();
    frame.fill_solid(&screen(), true);
    code.draw(&mut frame);
    // It starts nine columns to the left and ten rows above, rounded towards
    // the area.
    let white = |x: usize, y: usize| frame.as_bytes()[x * 100 + y / 8] & (0x80 >> (y % 8)) != 0;
    assert!(white(41, 50));
    assert!(!white(40, 50));
    assert!(!white(41, 49));
    assert!(white(69, 78));
    assert!(!white(70, 78));
}

#[test]
fn codes_are_placed_from_their_modules() {
    let code = QrImage::place(vec![true], 1, Rectangle::new(Point::new(0, 0), Size::new(19, 28)));
    assert_eq!(code.side(), 18);
    let mut frame = FrameBuffer::new();
    code.draw(&mut frame);
    let ink = inverted(&frame);
    // Two pixels per module; the one module starts eight pixels into the code,
    // which is five pixels down.
    assert_eq!(ink[801], 0x06);
    assert_eq!(ink[901], 0x06);
    assert_eq!(ink.iter().filter(|b| **b != 0).count(), 2);
}

#[test]
fn too_much_data_has_no_code() {
    let data = "x".repeat(3000);
    match QrImage::fit(&data, screen()) {
        Err(e) => {
            assert_eq!(e, FitError { bytes: 3000, cause: EncodeError::DataTooLong });
            assert_eq!(e.message(), "encoding 3000 bytes as a QR code: data too long");
        }
        Ok(_) => panic!("no error"),
    }
}

#[test]
fn encode_errors_have_texts() {
    let texts: Vec<&str> = [
        EncodeError::DataTooLong,
        EncodeError::InvalidVersion,
        EncodeError::UnsupportedCharacterSet,
        EncodeError::InvalidEciDesignator,
        EncodeError::InvalidCharacter,
    ]
    .iter()
    .map(|e| e.text())
    .collect();
    assert_eq!(
        texts,
        vec![
            qrcode::types::QrError::DataTooLong.to_string(),
            qrcode::types::QrError::InvalidVersion.to_string(),
            qrcode::types::QrError::UnsupportedCharacterSet.to_string(),
            qrcode::types::QrError::InvalidEciDesignator.to_string(),
            qrcode::types::QrError::InvalidCharacter.to_string(),
        ]
    );
}

#[test]
fn codes_past_the_last_coordinate_are_not_made() {
    let far = Rectangle::new(Point::new(i32::MAX - 4, 0), Size::new(40, 40));
    assert!(QrImage::try_fit("hello", far).is_none());
    // Five pixels are left over on either side.
    let near = Rectangle::new(Point::new(i32::MAX - 5, 0), Size::new(40, 40));
    assert!(QrImage::can_place(21, near));
    assert_eq!(QrImage::fit("hello", near).unwrap().side(), 29);
    let huge = Rectangle::new(Point::new(0, 0), Size::new(3_000_000_000, 3_000_000_000));
    assert_eq!(QrImage::fit("hello", huge).unwrap().side(), 2_999_999_975);
    assert_eq!(QrImage::fit("", screen()).unwrap().side(), 29 * 16);
    assert!(QrImage::can_place(21, screen()));
    assert!(!QrImage::can_place(21, far));
    assert!(matches!(QrImage::try_fit("hello", screen()), Some(Ok(_))));
    assert!(matches!(QrImage::try_fit(&"x".repeat(3000), far), Some(Err(_))));
}

#[test]
fn the_setup_screen_shows_caption_and_code() {
    let mut frame = FrameBuffer::new();
    assert_eq!(draw_ui(&mut frame), Ok(()));
    let text = join_code(SSID, WIFI_PW);
    assert_eq!(text, "WIFI:T:WPA;S:magic-esp-wifi;P:magic-esp-wifi-pw;;");
    let code = QrImage::fit(&text, screen()).unwrap();
    let mut expected = FrameBuffer::new();
    draw_text("Scan to Setup", Point::new(240, 100), 50, &mut expected);
    code.draw(&mut expected);
    assert_eq!(frame.as_bytes(), expected.as_bytes());
    let mut again = FrameBuffer::new();
    draw_setup(&code, &mut again);
    assert_eq!(again.as_bytes(), expected.as_bytes());
    assert_eq!(code.side(), 444);
}

#[test]
fn every_stroke_stays_in_its_box() {
    let from = Point::new(100, 100);
    for width in 1..=6 {
        for dx in -9..=9 {
            for dy in -9..=9 {
                let to = Point::new(from.x + dx, from.y + dy);
                let line = Line::new(EgPoint::new(100, 100), EgPoint::new(to.x, to.y))
                    .into_styled(PrimitiveStyle::with_stroke(BinaryColor::On, width));
                let area = line.bounding_box();
                let (left, top) = (area.top_left.x, area.top_left.y);
                let right = left + area.size.width as i32;
                let bottom = top + area.size.height as i32;
                assert!(left < right && top < bottom);
                assert!(left > from.x.min(to.x) - 16 && top > from.y.min(to.y) - 16);
                assert!(right <= from.x.max(to.x) + 16 && bottom <= from.y.max(to.y) + 16);
                for p in line.pixels() {
                    assert!(left <= p.0.x && p.0.x < right && top <= p.0.y && p.0.y < bottom);
                }
            }
        }
    }
}

#[test]
fn codes_that_are_too_wide_are_not_drawn() {
    let fits = |text: &str| matches!(QrImage::try_fit(text, screen()), Some(Ok(_)));
    // What version 12 holds, and a byte more.
    assert!(fits(&"x".repeat(367)));
    assert!(QrImage::try_fit(&"x".repeat(368), screen()).is_none());
    assert!(fits(&"7".repeat(883)));
    assert!(QrImage::try_fit(&"7".repeat(884), screen()).is_none());
    // Short runs of digits cost more than they save.
    assert!(QrImage::try_fit(&"1234a".repeat(60), screen()).is_none());
    assert!(fits(&"1234a".repeat(21)));
    assert_eq!("1234a".repeat(21).len(), SURE_BYTES);
    assert!(QrImage::try_fit(&"x".repeat(2953), screen()).is_none());
    // Beyond every version there is an error to report.
    assert!(matches!(
        QrImage::try_fit(&"7".repeat(7_090), screen()),
        Some(Err(FitError { bytes: 7_090, cause: EncodeError::DataTooLong }))
    ));
    assert_eq!(QrImage::fit(&"x".repeat(367), screen()).unwrap().side(), 73 * 6);
}

#[test]
fn codes_come_as_rectangles_for_any_target() {
    let area = Rectangle::new(Point::new(3, 4), Size::new(60, 60));
    let code = QrImage::fit("hello", area).unwrap();
    assert!(code.can_draw());
    let fills = code.fills();
    let at = |x: i32, y: i32, side: u32| Rectangle::new(Point::new(x, y), Size::new(side, side));
    assert_eq!(fills[0], Fill { area: at(4, 5, 58), on: false });
    // The finder pattern's corner comes first, behind a quiet zone of eight pixels.
    assert_eq!(fills[1], Fill { area: at(12, 13, 2), on: true });
    assert_eq!(fills[2], Fill { area: at(14, 13, 2), on: true });
    let reference = qrcode::QrCode::with_error_correction_level("hello", qrcode::EcLevel::L).unwrap();
    let dark = reference.to_colors().iter().filter(|c| **c == qrcode::Color::Dark).count();
    assert_eq!(fills.len(), 1 + dark);
    // Filled on a target of the graphics crate, they give what drawing gives.
    let mut canvas = Canvas(FrameBuffer::new());
    let mut frame = FrameBuffer::new();
    frame.fill_solid(&screen(), true);
    canvas.0.fill_solid(&screen(), true);
    for fill in &fills {
        let corner = EgPoint::new(fill.area.top_left.x, fill.area.top_left.y);
        let size = EgSize::new(fill.area.size.width, fill.area.size.height);
        let color = if fill.on { BinaryColor::On } else { BinaryColor::Off };
        canvas.fill_solid(&EgRectangle::new(corner, size), color).unwrap();
    }
    code.draw(&mut frame);
    assert_eq!(canvas.0.as_bytes(), frame.as_bytes());
    let edge = Rectangle::new(Point::new(i32::MAX - 5, 0), Size::new(40, 40));
    assert!(!QrImage::fit("hello", edge).unwrap().can_draw());
}
