//! What strokes, dots, outlines and text look like on the pixel grid. The
//! shapes come from the `embedded-graphics` crate; this module puts them on an
//! image.

use embedded_graphics::framebuffer::Framebuffer;
use embedded_graphics::geometry::Dimensions;
use embedded_graphics::mono_font::ascii::FONT_10X20;
use embedded_graphics::mono_font::MonoTextStyle;
use embedded_graphics::pixelcolor::raw::{BigEndian, RawU1};
use embedded_graphics::pixelcolor::BinaryColor;
use embedded_graphics::primitives::{Circle, Line, Primitive, PrimitiveStyle};
use embedded_graphics::text::{Alignment, LineHeight, Text, TextStyleBuilder};
use embedded_graphics::Drawable;
use vstd::prelude::*;

use crate::framebuffer::{marked, on_screen, painted, screen_part, FrameBuffer, Mask, Pixel};
use crate::geometry::{Point, Rectangle, Size};

verus! {

/// How far from the origin points may lie.
pub const REACH: i32 = 0x2000_0000;

/// The longest stroke, in pixels between its ends.
pub const LONGEST: i32 = 3_310;

/// The widest stroke.
pub const WIDEST: u32 = 6;

/// How far a stroke may stick out around its two ends.
pub const MARGIN: i32 = 16;

/// Whether a point is near enough to draw at.
pub open spec fn in_reach(p: Point) -> bool {
    -REACH <= p.x <= REACH && -REACH <= p.y <= REACH
}

/// Whether a stroke can be drawn between two points.
pub open spec fn strokeable(from: Point, to: Point) -> bool {
    &&& in_reach(from)
    &&& in_reach(to)
    &&& (to.x - from.x) * (to.x - from.x) + (to.y - from.y) * (to.y - from.y) <= LONGEST * LONGEST
}

/// The points of a stroke from `(ax, ay)` to `(bx, by)`.
pub uninterp spec fn line_points(ax: i32, ay: i32, bx: i32, by: i32, width: u32) -> Seq<(i32, i32)>;

/// The top left pixel and the extent of the box around such a stroke.
pub uninterp spec fn line_box(ax: i32, ay: i32, bx: i32, by: i32, width: u32) -> (
    i32,
    i32,
    u32,
    u32,
);

/// The pixels of the screen among `points`.
pub open spec fn drawn(points: Seq<(i32, i32)>) -> Set<(int, int)> {
    Set::new(
        |p: (int, int)|
            on_screen(p.0, p.1) && exists|i: int|
                0 <= i < points.len() && (#[trigger] points[i]).0 == p.0 && points[i].1 == p.1,
    )
}

/// Calls `pixels` of a styled [`Line`]: the points that drawing it with a stroke
/// of `width` sets. Left out are lines so long that the squares it compares
/// leave 32 bits.
#[verifier::external_body]
fn points_of_line(from: Point, to: Point, width: u32) -> (points: Vec<(i32, i32)>)
    requires
        strokeable(from, to),
        1 <= width <= WIDEST,
    ensures
        points@ == line_points(from.x, from.y, to.x, to.y, width),
{
    let start = embedded_graphics::geometry::Point::new(from.x, from.y);
    let end = embedded_graphics::geometry::Point::new(to.x, to.y);
    let style = PrimitiveStyle::with_stroke(BinaryColor::On, width);
    Line::new(start, end).into_styled(style).pixels().map(|p| (p.0.x, p.0.y)).collect()
}

/// Calls `bounding_box` of a styled [`Line`]. Every pixel that is drawn lies
/// inside; the box is not empty, and it sticks out around the two ends by less
/// than [`MARGIN`].
#[verifier::external_body]
fn box_of_line(from: Point, to: Point, width: u32) -> (area: Rectangle)
    requires
        strokeable(from, to),
        1 <= width <= WIDEST,
    ensures
        (area.top_left.x, area.top_left.y, area.size.width, area.size.height) == line_box(
            from.x,
            from.y,
            to.x,
            to.y,
            width,
        ),
        !area.is_void(),
        from.x - MARGIN < area.top_left.x || to.x - MARGIN < area.top_left.x,
        from.y - MARGIN < area.top_left.y || to.y - MARGIN < area.top_left.y,
        area.top_left.x + area.size.width <= from.x + MARGIN || area.top_left.x + area.size.width
            <= to.x + MARGIN,
        area.top_left.y + area.size.height <= from.y + MARGIN || area.top_left.y
            + area.size.height <= to.y + MARGIN,
        forall|i: int|
            0 <= i < line_points(from.x, from.y, to.x, to.y, width).len() ==> {
                let p = #[trigger] line_points(from.x, from.y, to.x, to.y, width)[i];
                area.holds(p.0 as int, p.1 as int)
            },
{
    let start = embedded_graphics::geometry::Point::new(from.x, from.y);
    let end = embedded_graphics::geometry::Point::new(to.x, to.y);
    let style = PrimitiveStyle::with_stroke(BinaryColor::On, width);
    let area = Line::new(start, end).into_styled(style).bounding_box();
    Rectangle {
        top_left: Point { x: area.top_left.x, y: area.top_left.y },
        size: Size { width: area.size.width, height: area.size.height },
    }
}

/// Whether `(x, y)` lies in the disc of `diameter` pixels around `center`:
/// nearer to the middle of its box than half the diameter, with all lengths
/// doubled.
pub open spec fn in_disc(center: Point, diameter: u32, x: int, y: int) -> bool {
    let dx = 2 * (x - disc_box(center, diameter).top_left.x) - (diameter - 1);
    let dy = 2 * (y - disc_box(center, diameter).top_left.y) - (diameter - 1);
    dx * dx + dy * dy < diameter * diameter
}

/// The box of that disc.
pub open spec fn disc_box(center: Point, diameter: u32) -> Rectangle {
    Rectangle {
        top_left: Point {
            x: (center.x - (diameter - 1) / 2) as i32,
            y: (center.y - (diameter - 1) / 2) as i32,
        },
        size: Size { width: diameter, height: diameter },
    }
}

/// The pixels of the screen in a disc.
pub open spec fn disc(center: Point, diameter: u32) -> Set<(int, int)> {
    Set::new(|p: (int, int)| on_screen(p.0, p.1) && in_disc(center, diameter, p.0, p.1))
}

/// Calls `pixels` of a styled [`Circle`] made by `with_center` and filled: the
/// points inside it. Diameters up to 4, for which the edge is drawn in
/// differently, are left out.
#[verifier::external_body]
fn points_of_disc(center: Point, diameter: u32) -> (points: Vec<(i32, i32)>)
    requires
        in_reach(center),
        4 < diameter <= 64,
    ensures
        forall|x: int, y: int|
            #![trigger in_disc(center, diameter, x, y)]
            in_disc(center, diameter, x, y) <==> exists|i: int|
                0 <= i < points@.len() && (#[trigger] points@[i]).0 == x && points@[i].1 == y,
{
    let at = embedded_graphics::geometry::Point::new(center.x, center.y);
    let style = PrimitiveStyle::with_fill(BinaryColor::On);
    Circle::with_center(at, diameter).into_styled(style).pixels().map(|p| (p.0.x, p.0.y)).collect()
}

/// The pixels of the screen on an outline of `stroke` pixels that runs along the
/// edge of `area`, half of it outside.
pub open spec fn outline(area: Rectangle, stroke: u32) -> Set<(int, int)> {
    let out = stroke as int / 2;
    let within = (stroke + 1) / 2;
    Set::new(
        |p: (int, int)|
            {
                let (x, y) = (p.0 - area.top_left.x, p.1 - area.top_left.y);
                &&& on_screen(p.0, p.1)
                &&& -out <= x < area.size.width + out
                &&& -out <= y < area.size.height + out
                &&& !(within <= x < area.size.width - within && within <= y < area.size.height
                    - within)
            },
    )
}

/// Calls `pixels` of a styled rectangle with a stroke: the points on its
/// outline. Rectangles that the stroke fills are left out.
#[verifier::external_body]
fn points_of_outline(area: Rectangle, stroke: u32) -> (points: Vec<(i32, i32)>)
    requires
        in_reach(area.top_left),
        1 <= stroke <= 64,
        stroke + 1 < area.size.width <= 4096,
        stroke + 1 < area.size.height <= 4096,
    ensures
        outline(area, stroke) == drawn(points@),
{
    let at = embedded_graphics::geometry::Point::new(area.top_left.x, area.top_left.y);
    let size = embedded_graphics::geometry::Size::new(area.size.width, area.size.height);
    let style = PrimitiveStyle::with_stroke(BinaryColor::On, stroke);
    let rectangle = embedded_graphics::primitives::Rectangle::new(at, size);
    rectangle.into_styled(style).pixels().map(|p| (p.0.x, p.0.y)).collect()
}

/// The rows of the strip that text is drawn on.
pub const STRIP_ROWS: u16 = 64;

/// Bytes per row of the strip, which is as wide as the screen.
pub const STRIP_ROW_BYTES: usize = 60;

pub const STRIP_BYTES: usize = 3_840;

/// The row of the strip that the text's baseline is drawn at.
pub const STRIP_BASELINE: u16 = 32;

/// The strip with one line of text, its baseline centred at `(x, y)`: bits from
/// the left, row by row, set where the text is black.
pub uninterp spec fn text_strip(text: Seq<char>, x: i32, y: i32, line_height: u32) -> Seq<u8>;

/// Whether a text is one line and not longer than the screen is wide.
pub open spec fn one_line(text: Seq<char>) -> bool {
    text.len() <= 48 && !text.contains('\n')
}

/// Calls `draw` of a [`Text`] in the 10 by 20 pixel font on a blank
/// [`Framebuffer`] of the crate's own, and hands out that buffer's bytes.
#[verifier::external_body]
fn strip_of_text(text: &str, at: Point, line_height: u32) -> (strip: Vec<u8>)
    requires
        one_line(text@),
        in_reach(at),
        line_height <= REACH,
    ensures
        strip@ == text_strip(text@, at.x, at.y, line_height),
        strip@.len() == STRIP_BYTES,
{
    let mut strip = Framebuffer::<BinaryColor, RawU1, BigEndian, 480, 64, 3840>::new();
    let style = TextStyleBuilder::new()
        .line_height(LineHeight::Pixels(line_height))
        .alignment(Alignment::Center)
        .build();
    let at = embedded_graphics::geometry::Point::new(at.x, at.y);
    let font = MonoTextStyle::new(&FONT_10X20, BinaryColor::On);
    let _ = Text::with_text_style(text, at, font, style).draw(&mut strip);
    strip.data().to_vec()
}

/// Points as black pixels.
fn blacken(points: &[(i32, i32)]) -> (pixels: Vec<Pixel>)
    ensures
        pixels@.len() == points@.len(),
        forall|i: int|
            0 <= i < pixels@.len() ==> #[trigger] pixels@[i] == (Pixel {
                point: Point { x: points@[i].0, y: points@[i].1 },
                on: true,
            }),
{
    let mut pixels: Vec<Pixel> = Vec::with_capacity(points.len());
    let mut i: usize = 0;
    while i < points.len()
        invariant
            i <= points@.len(),
            pixels@.len() == i,
            forall|k: int|
                0 <= k < i ==> #[trigger] pixels@[k] == (Pixel {
                    point: Point { x: points@[k].0, y: points@[k].1 },
                    on: true,
                }),
        decreases points@.len() - i,
    {
        let (x, y) = points[i];
        pixels.push(Pixel { point: Point { x, y }, on: true });
        i += 1;
    }
    pixels
}

proof fn lemma_black(base: Set<(int, int)>, points: Seq<(i32, i32)>, pixels: Seq<Pixel>)
    requires
        pixels.len() == points.len(),
        forall|i: int|
            0 <= i < pixels.len() ==> #[trigger] pixels[i] == (Pixel {
                point: Point { x: points[i].0, y: points[i].1 },
                on: true,
            }),
    ensures
        painted(base, pixels) == base.union(drawn(points)),
        marked(base, pixels) == base.union(drawn(points)),
    decreases pixels.len(),
{
    if pixels.len() == 0 {
        assert(base.union(drawn(points)) =~= base);
    } else {
        let front = points.drop_last();
        lemma_black(base, front, pixels.drop_last());
        let last = points.last();
        let at = (last.0 as int, last.1 as int);
        assert(points[points.len() - 1] == last);
        assert(pixels.last() == pixels[pixels.len() - 1]);
        let more = if on_screen(at.0, at.1) {
            base.union(drawn(front)).insert(at)
        } else {
            base.union(drawn(front))
        };
        assert forall|p: (int, int)| more.contains(p) == base.union(drawn(points)).contains(p) by {
            if drawn(front).contains(p) {
                let i = choose|i: int|
                    0 <= i < front.len() && (#[trigger] front[i]).0 == p.0 && front[i].1 == p.1;
                assert(points[i] == front[i]);
            }
            if drawn(points).contains(p) {
                let i = choose|i: int|
                    0 <= i < points.len() && (#[trigger] points[i]).0 == p.0 && points[i].1 == p.1;
                if i < front.len() {
                    assert(front[i] == points[i]);
                }
            }
        }
        assert(more =~= base.union(drawn(points)));
    }
}

/// Draws points in black.
pub fn draw_points(points: &[(i32, i32)], frame: &mut FrameBuffer)
    ensures
        final(frame).ink() == old(frame).ink().union(drawn(points@)),
{
    let pixels: Vec<Pixel> = blacken(points);
    proof {
        lemma_black(frame.ink(), points@, pixels@);
    }
    frame.draw_iter(pixels.as_slice());
}

/// Marks points for driving.
pub fn mark_points(points: &[(i32, i32)], mask: &mut Mask)
    ensures
        final(mask).marks() == old(mask).marks().union(drawn(points@)),
{
    let pixels: Vec<Pixel> = blacken(points);
    proof {
        lemma_black(mask.marks(), points@, pixels@);
    }
    mask.draw_iter(pixels.as_slice());
}

/// Whether column `x` of row `row` of a strip is black.
pub open spec fn strip_bit(strip: Seq<u8>, x: int, row: int) -> bool {
    strip[row * STRIP_ROW_BYTES + x / 8] & (0x80u8 >> ((x % 8) as u8)) != 0
}

/// The pixels of the screen that a strip blackens whose baseline is at row `y`.
pub open spec fn stamped(strip: Seq<u8>, y: int) -> Set<(int, int)> {
    Set::new(
        |p: (int, int)|
            {
                let row = p.1 - y + STRIP_BASELINE;
                on_screen(p.0, p.1) && 0 <= row < STRIP_ROWS && strip_bit(strip, p.0, row)
            },
    )
}

/// What is stamped once rows `0..row` are done, and columns `0..x` of that row.
spec fn stamped_until(strip: Seq<u8>, y: int, row: int, x: int) -> Set<(int, int)> {
    Set::new(
        |p: (int, int)|
            {
                let r = p.1 - y + STRIP_BASELINE;
                stamped(strip, y).contains(p) && (r < row || (r == row && p.0 < x))
            },
    )
}

/// Draws a strip of text with its baseline at row `y`. What is white on the
/// strip is left alone.
pub fn stamp(strip: &[u8], y: i32, frame: &mut FrameBuffer)
    requires
        strip@.len() == STRIP_BYTES,
        -REACH <= y <= REACH,
    ensures
        final(frame).ink() == old(frame).ink().union(stamped(strip@, y as int)),
{
    let ghost base = frame.ink();
    let mut row: u16 = 0;
    assert(frame.ink() =~= base.union(stamped_until(strip@, y as int, 0, 0)));
    while row < STRIP_ROWS
        invariant
            row <= STRIP_ROWS,
            strip@.len() == STRIP_BYTES,
            -REACH <= y <= REACH,
            frame.ink() == base.union(stamped_until(strip@, y as int, row as int, 0)),
        decreases STRIP_ROWS - row,
    {
        let at: i32 = y - STRIP_BASELINE as i32 + row as i32;
        let mut x: u16 = 0;
        while x < 480
            invariant
                x <= 480,
                row < STRIP_ROWS,
                strip@.len() == STRIP_BYTES,
                at == y - STRIP_BASELINE + row,
                frame.ink() == base.union(
                    stamped_until(strip@, y as int, row as int, x as int),
                ),
            decreases 480 - x,
        {
            let byte: u8 = strip[row as usize * STRIP_ROW_BYTES + x as usize / 8];
            let mask: u8 = 0x80u8 >> ((x % 8) as u8);
            let ghost was = frame.ink();
            if byte & mask != 0 && 0 <= at && at < 800 {
                frame.set_pixel(x, at as u16, true);
            }
            proof {
                let before = stamped_until(strip@, y as int, row as int, x as int);
                let after = stamped_until(strip@, y as int, row as int, x + 1);
                let here = (x as int, at as int);
                assert(row * STRIP_ROW_BYTES + x as int / 8 == row as usize * STRIP_ROW_BYTES
                    + x as usize / 8);
                assert(strip_bit(strip@, x as int, row as int) == (byte & mask != 0));
                if byte & mask != 0 && 0 <= at < 800 {
                    assert(after =~= before.insert(here));
                    assert(frame.ink() =~= base.union(after));
                } else {
                    assert(after =~= before);
                }
            }
            x += 1;
        }
        proof {
            let before = stamped_until(strip@, y as int, row as int, 480);
            let after = stamped_until(strip@, y as int, row + 1, 0);
            assert(before =~= after);
        }
        row += 1;
    }
    assert(stamped_until(strip@, y as int, STRIP_ROWS as int, 0) =~= stamped(strip@, y as int));
}

/// What one line of text blackens, its baseline centred at `at`.
pub open spec fn text_ink(text: Seq<char>, at: Point, line_height: u32) -> Set<(int, int)> {
    stamped(text_strip(text, at.x, STRIP_BASELINE as i32, line_height), at.y as int)
}

/// Draws one line of text, its baseline centred at `at`.
pub fn draw_text(text: &str, at: Point, line_height: u32, frame: &mut FrameBuffer)
    requires
        one_line(text@),
        in_reach(at),
        line_height <= REACH,
    ensures
        final(frame).ink() == old(frame).ink().union(
            text_ink(text@, at, line_height),
        ),
{
    let strip: Vec<u8> = strip_of_text(
        text,
        Point { x: at.x, y: STRIP_BASELINE as i32 },
        line_height,
    );
    stamp(strip.as_slice(), at.y, frame);
}

/// Draws an outline of `stroke` pixels along the edge of `area`.
pub fn draw_outline(area: Rectangle, stroke: u32, frame: &mut FrameBuffer)
    requires
        in_reach(area.top_left),
        1 <= stroke <= 64,
        stroke + 1 < area.size.width <= 4096,
        stroke + 1 < area.size.height <= 4096,
    ensures
        final(frame).ink() == old(frame).ink().union(outline(area, stroke)),
{
    let points: Vec<(i32, i32)> = points_of_outline(area, stroke);
    draw_points(points.as_slice(), frame);
}

/// What a stroke of `width` pixels between two points blackens.
pub open spec fn stroke(from: Point, to: Point, width: u32) -> Set<(int, int)> {
    drawn(line_points(from.x, from.y, to.x, to.y, width))
}

/// The box around a stroke.
pub open spec fn stroke_box(from: Point, to: Point, width: u32) -> Rectangle {
    let b = line_box(from.x, from.y, to.x, to.y, width);
    Rectangle { top_left: Point { x: b.0, y: b.1 }, size: Size { width: b.2, height: b.3 } }
}

/// A rectangle that is not empty and lies within reach.
pub open spec fn tame(area: Rectangle) -> bool {
    &&& !area.is_void()
    &&& -REACH - MARGIN <= area.top_left.x
    &&& -REACH - MARGIN <= area.top_left.y
    &&& area.top_left.x + area.size.width <= REACH + MARGIN
    &&& area.top_left.y + area.size.height <= REACH + MARGIN
}

/// Draws a stroke on an image, marks it on a mask, and says what box it is in.
pub fn draw_stroke(
    from: Point,
    to: Point,
    width: u32,
    frame: &mut FrameBuffer,
    mask: &mut Mask,
) -> (area: Rectangle)
    requires
        strokeable(from, to),
        1 <= width <= WIDEST,
    ensures
        final(frame).ink() == old(frame).ink().union(stroke(from, to, width)),
        final(mask).marks() == old(mask).marks().union(stroke(from, to, width)),
        area == stroke_box(from, to, width),
        tame(area),
        stroke(from, to, width).subset_of(screen_part(area)),
{
    let points: Vec<(i32, i32)> = points_of_line(from, to, width);
    draw_points(points.as_slice(), frame);
    mark_points(points.as_slice(), mask);
    let area: Rectangle = box_of_line(from, to, width);
    proof {
        let all = line_points(from.x, from.y, to.x, to.y, width);
        assert forall|p: (int, int)| stroke(from, to, width).contains(p) implies screen_part(
            area,
        ).contains(p) by {
            let i = choose|i: int|
                0 <= i < all.len() && (#[trigger] all[i]).0 == p.0 && all[i].1 == p.1;
            assert(area.holds(all[i].0 as int, all[i].1 as int));
        }
    }
    area
}

/// Draws a dot on an image, marks it on a mask, and says what box it is in.
pub fn draw_dot(
    center: Point,
    diameter: u32,
    frame: &mut FrameBuffer,
    mask: &mut Mask,
) -> (area: Rectangle)
    requires
        in_reach(center),
        4 < diameter <= 16,
    ensures
        final(frame).ink() == old(frame).ink().union(disc(center, diameter)),
        final(mask).marks() == old(mask).marks().union(disc(center, diameter)),
        area == disc_box(center, diameter),
        tame(area),
        disc(center, diameter).subset_of(screen_part(area)),
{
    let points: Vec<(i32, i32)> = points_of_disc(center, diameter);
    proof {
        assert forall|p: (int, int)|
            drawn(points@).contains(p) == disc(center, diameter).contains(p) by {
            assert(in_disc(center, diameter, p.0, p.1) <==> exists|i: int|
                0 <= i < points@.len() && (#[trigger] points@[i]).0 == p.0 && points@[i].1 == p.1);
        }
        assert(drawn(points@) =~= disc(center, diameter));
    }
    draw_points(points.as_slice(), frame);
    mark_points(points.as_slice(), mask);
    let half: i32 = ((diameter - 1) / 2) as i32;
    let area = Rectangle {
        top_left: Point { x: center.x - half, y: center.y - half },
        size: Size { width: diameter, height: diameter },
    };
    proof {
        assert forall|p: (int, int)| disc(center, diameter).contains(p) implies screen_part(
            area,
        ).contains(p) by {
            let dx = 2 * (p.0 - area.top_left.x) - (diameter - 1);
            let dy = 2 * (p.1 - area.top_left.y) - (diameter - 1);
            assert(-diameter < dx < diameter && -diameter < dy < diameter) by (nonlinear_arith)
                requires
                    dx * dx + dy * dy < diameter * diameter,
            ;
        }
    }
    area
}

/// Drawing points blackens those of them that are pixels of the 480 by 800, and
/// nothing else.
pub proof fn law_drawn(points: Seq<(i32, i32)>, x: int, y: int)
    ensures
        drawn(points).contains((x, y)) <==> 0 <= x < 480 && 0 <= y < 800 && exists|i: int|
            0 <= i < points.len() && (#[trigger] points[i]).0 == x && points[i].1 == y,
{
}

/// A strip of 64 rows of 480 columns is stamped so that its row 32 comes to lie at
/// row `at` of the screen: a pixel is blackened exactly when it is on the screen
/// and its bit of the strip is set, counted from the most significant.
pub proof fn law_stamped(strip: Seq<u8>, at: int, x: int, y: int)
    ensures
        ({
            let row = y - at + 32;
            let byte = strip[60 * row + x / 8] as int;
            let bit = if x % 8 == 0 {
                byte / 128
            } else if x % 8 == 1 {
                byte / 64 % 2
            } else if x % 8 == 2 {
                byte / 32 % 2
            } else if x % 8 == 3 {
                byte / 16 % 2
            } else if x % 8 == 4 {
                byte / 8 % 2
            } else if x % 8 == 5 {
                byte / 4 % 2
            } else if x % 8 == 6 {
                byte / 2 % 2
            } else {
                byte % 2
            };
            &&& strip_bit(strip, x, row) <==> bit == 1
            &&& stamped(strip, at).contains((x, y)) <==> 0 <= x < 480 && 0 <= y < 800 && 0 <= row
                < 64 && bit == 1
        }),
{
    let b = strip[60 * (y - at + 32) + x / 8];
    assert({
        &&& (b & (0x80u8 >> 0u8) != 0) == (b / 128 == 1)
        &&& (b & (0x80u8 >> 1u8) != 0) == (b / 64 % 2 == 1)
        &&& (b & (0x80u8 >> 2u8) != 0) == (b / 32 % 2 == 1)
        &&& (b & (0x80u8 >> 3u8) != 0) == (b / 16 % 2 == 1)
        &&& (b & (0x80u8 >> 4u8) != 0) == (b / 8 % 2 == 1)
        &&& (b & (0x80u8 >> 5u8) != 0) == (b / 4 % 2 == 1)
        &&& (b & (0x80u8 >> 6u8) != 0) == (b / 2 % 2 == 1)
        &&& (b & (0x80u8 >> 7u8) != 0) == (b % 2 == 1)
    }) by (bit_vector);
}

/// Text looks the same at every height: moved down by `dy`, it blackens the same
/// pixels `dy` rows below, as far as both are on the screen.
pub proof fn law_text_moves(
    text: Seq<char>,
    at: Point,
    to: Point,
    line_height: u32,
    x: int,
    y: int,
)
    requires
        at.x == to.x,
        0 <= y < 800,
        0 <= y + to.y - at.y < 800,
    ensures
        text_ink(text, at, line_height).contains((x, y)) <==> text_ink(
            text,
            to,
            line_height,
        ).contains((x, y + to.y - at.y)),
        text_ink(text, at, line_height) == stamped(
            text_strip(text, at.x, 32, line_height),
            at.y as int,
        ),
{
}

/// An outline is a frame: the pixels of the screen inside the area grown by half
/// the stroke, but for those inside the area shrunk by the other half, which is
/// the larger where the stroke is odd.
pub proof fn law_outline(area: Rectangle, stroke: u32, x: int, y: int)
    ensures
        ({
            let out = stroke as int / 2;
            let within = stroke - out;
            let (left, top) = (area.top_left.x as int, area.top_left.y as int);
            let (right, bottom) = (left + area.size.width, top + area.size.height);
            outline(area, stroke).contains((x, y)) <==> {
                &&& 0 <= x < 480 && 0 <= y < 800
                &&& left - out <= x < right + out && top - out <= y < bottom + out
                &&& x < left + within || x >= right - within || y < top + within || y >= bottom
                    - within
            }
        }),
{
}

/// A stroke is drawn at the points of its line, and its box is the line's.
pub proof fn law_stroke(from: Point, to: Point, width: u32, x: int, y: int)
    ensures
        stroke(from, to, width).contains((x, y)) <==> 0 <= x < 480 && 0 <= y < 800 && exists|
            i: int,
        |
            0 <= i < line_points(from.x, from.y, to.x, to.y, width).len() && (
            #[trigger] line_points(from.x, from.y, to.x, to.y, width)[i]).0 == x && line_points(
                from.x,
                from.y,
                to.x,
                to.y,
                width,
            )[i].1 == y,
        stroke_box(from, to, width).top_left.x == line_box(from.x, from.y, to.x, to.y, width).0,
        stroke_box(from, to, width).top_left.y == line_box(from.x, from.y, to.x, to.y, width).1,
        stroke_box(from, to, width).size.width == line_box(from.x, from.y, to.x, to.y, width).2,
        stroke_box(from, to, width).size.height == line_box(from.x, from.y, to.x, to.y, width).3,
{
}

/// A dot is a disc in a square of its diameter, whose middle pixel, or the upper
/// left one of its four, is the point. It is as far across as it is wide.
pub proof fn law_disc(center: Point, diameter: u32, x: int, y: int)
    requires
        in_reach(center),
        0 < diameter <= 64,
    ensures
        ({
            let half = (diameter - 1) / 2;
            let (dx, dy) = (
                2 * (x - center.x) + 2 * half - (diameter - 1),
                2 * (y - center.y) + 2 * half - (diameter - 1),
            );
            &&& disc(center, diameter).contains((x, y)) <==> 0 <= x < 480 && 0 <= y < 800 && dx * dx
                + dy * dy < diameter * diameter
            &&& disc_box(center, diameter).top_left.x == center.x - half
            &&& disc_box(center, diameter).top_left.y == center.y - half
            &&& disc_box(center, diameter).size.width == diameter
            &&& disc_box(center, diameter).size.height == diameter
        }),
{
}

/// What can be drawn as one line: up to 48 characters without a line break.
pub proof fn law_one_line(text: Seq<char>)
    ensures
        one_line(text) <==> text.len() <= 48 && forall|i: int|
            0 <= i < text.len() ==> #[trigger] text[i] != '\n',
{
    if one_line(text) {
        assert forall|i: int| 0 <= i < text.len() implies #[trigger] text[i] != '\n' by {
            assert(text.contains(text[i]));
        }
    }
}

} // verus!
