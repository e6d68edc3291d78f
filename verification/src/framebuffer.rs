//! The panel's images as they lie in memory.
//!
//! One bit per pixel, in the order in which the controller takes them: its x
//! axis runs along a row of bytes, most significant bit first, and is the
//! screen's y axis. The screen's x axis counts the rows. Drawing therefore
//! transposes pixel by pixel, and sending an image is a straight linear copy.

use vstd::prelude::*;

use crate::geometry::{clipped_end, Point, Rectangle, Size};

verus! {

/// The panel as the controller addresses it: 800 source lines along x, 480 gate
/// lines along y.
pub const WIDTH: u16 = 800;

pub const HEIGHT: u16 = 480;

/// Bytes in one row of an image.
pub const ROW_BYTES: usize = 100;

/// Bytes in a whole image.
pub const IMAGE_BYTES: usize = 48_000;

/// The panel as its user sees it, held in portrait.
pub const SCREEN_WIDTH: u16 = 480;

pub const SCREEN_HEIGHT: u16 = 800;

/// Whether `(x, y)` is a pixel of the screen.
pub open spec fn on_screen(x: int, y: int) -> bool {
    0 <= x < SCREEN_WIDTH && 0 <= y < SCREEN_HEIGHT
}

/// Where the byte with the pixel `(x, y)` lies.
pub open spec fn byte_index(x: int, y: int) -> int {
    x * ROW_BYTES + y / 8
}

/// The bit of a byte that stands for row `y`.
pub open spec fn bit_mask(y: int) -> u8 {
    0x80u8 >> (y % 8) as u8
}

/// Whether the bit of the pixel `(x, y)` is set.
pub open spec fn bit_set(bytes: Seq<u8>, x: int, y: int) -> bool {
    bytes[byte_index(x, y)] & bit_mask(y) != 0
}

/// The black pixels of an image: a clear bit is ink.
pub open spec fn ink_of(bytes: Seq<u8>) -> Set<(int, int)> {
    Set::new(|p: (int, int)| on_screen(p.0, p.1) && !bit_set(bytes, p.0, p.1))
}

/// The marked pixels of a mask: a set bit is a mark.
pub open spec fn marks_of(bytes: Seq<u8>) -> Set<(int, int)> {
    Set::new(|p: (int, int)| on_screen(p.0, p.1) && bit_set(bytes, p.0, p.1))
}

/// A pixel to draw, black where `on`.
#[derive(Clone, Copy, Debug, PartialEq, Eq, Structural)]
pub struct Pixel {
    pub point: Point,
    pub on: bool,
}

/// The pixels of the screen inside `area`.
pub open spec fn screen_part(area: Rectangle) -> Set<(int, int)> {
    Set::new(|p: (int, int)| on_screen(p.0, p.1) && area.holds(p.0, p.1))
}

/// What is black after drawing `pixels` one after another over `ink`.
pub open spec fn painted(ink: Set<(int, int)>, pixels: Seq<Pixel>) -> Set<(int, int)>
    decreases pixels.len(),
{
    if pixels.len() == 0 {
        ink
    } else {
        let before = painted(ink, pixels.drop_last());
        let at = (pixels.last().point.x as int, pixels.last().point.y as int);
        if !on_screen(at.0, at.1) {
            before
        } else if pixels.last().on {
            before.insert(at)
        } else {
            before.remove(at)
        }
    }
}

/// What is marked after drawing `pixels` over `marks`: only black ones count.
pub open spec fn marked(marks: Set<(int, int)>, pixels: Seq<Pixel>) -> Set<(int, int)>
    decreases pixels.len(),
{
    if pixels.len() == 0 {
        marks
    } else {
        let before = marked(marks, pixels.drop_last());
        let at = (pixels.last().point.x as int, pixels.last().point.y as int);
        if on_screen(at.0, at.1) && pixels.last().on {
            before.insert(at)
        } else {
            before
        }
    }
}

/// Setting or clearing one bit leaves the other seven alone.
proof fn lemma_bits(byte: u8, k: u8, j: u8)
    requires
        k < 8,
        j < 8,
    ensures
        k != j ==> (byte & !(0x80u8 >> k)) & (0x80u8 >> j) == byte & (0x80u8 >> j),
        k != j ==> (byte | (0x80u8 >> k)) & (0x80u8 >> j) == byte & (0x80u8 >> j),
        (byte & !(0x80u8 >> k)) & (0x80u8 >> k) == 0,
        (byte | (0x80u8 >> k)) & (0x80u8 >> k) != 0,
{
    assert(k < 8 && j < 8 && k != j ==> (byte & !(0x80u8 >> k)) & (0x80u8 >> j) == byte & (0x80u8
        >> j)) by (bit_vector);
    assert(k < 8 && j < 8 && k != j ==> (byte | (0x80u8 >> k)) & (0x80u8 >> j) == byte & (0x80u8
        >> j)) by (bit_vector);
    assert((byte & !(0x80u8 >> k)) & (0x80u8 >> k) == 0) by (bit_vector);
    assert(k < 8 ==> (byte | (0x80u8 >> k)) & (0x80u8 >> k) != 0) by (bit_vector);
}

/// Distinct pixels of the screen have distinct bits, each inside the image.
pub proof fn law_layout(x: int, y: int, v: int, w: int)
    requires
        on_screen(x, y),
        on_screen(v, w),
    ensures
        0 <= byte_index(x, y) < IMAGE_BYTES,
        (x, y) != (v, w) ==> byte_index(x, y) != byte_index(v, w) || y % 8 != w % 8,
{
}

/// Images with the same black pixels agree in every bit.
proof fn lemma_same_bit(a: Seq<u8>, b: Seq<u8>, j: int, k: int)
    requires
        ink_of(a) == ink_of(b),
        0 <= j < IMAGE_BYTES,
        0 <= k < 8,
    ensures
        (a[j] & (0x80u8 >> k as u8) != 0) == (b[j] & (0x80u8 >> k as u8) != 0),
{
    let (x, y) = (j / 100, j % 100 * 8 + k);
    assert(y / 8 == j % 100 && y % 8 == k);
    assert(byte_index(x, y) == j);
    assert(on_screen(x, y));
    assert(ink_of(a).contains((x, y)) == !bit_set(a, x, y));
    assert(ink_of(b).contains((x, y)) == !bit_set(b, x, y));
}

/// An image is what is black on it: two images with the same black pixels are
/// the same, byte for byte.
pub proof fn law_ink_is_image(a: Seq<u8>, b: Seq<u8>)
    requires
        a.len() == IMAGE_BYTES,
        b.len() == IMAGE_BYTES,
        ink_of(a) == ink_of(b),
    ensures
        a == b,
{
    assert forall|j: int| 0 <= j < IMAGE_BYTES implies a[j] == b[j] by {
        lemma_same_bit(a, b, j, 0);
        lemma_same_bit(a, b, j, 1);
        lemma_same_bit(a, b, j, 2);
        lemma_same_bit(a, b, j, 3);
        lemma_same_bit(a, b, j, 4);
        lemma_same_bit(a, b, j, 5);
        lemma_same_bit(a, b, j, 6);
        lemma_same_bit(a, b, j, 7);
        let (p, q) = (a[j], b[j]);
        assert(p == q) by (bit_vector)
            requires
                (p & (0x80u8 >> 0u8) != 0) == (q & (0x80u8 >> 0u8) != 0),
                (p & (0x80u8 >> 1u8) != 0) == (q & (0x80u8 >> 1u8) != 0),
                (p & (0x80u8 >> 2u8) != 0) == (q & (0x80u8 >> 2u8) != 0),
                (p & (0x80u8 >> 3u8) != 0) == (q & (0x80u8 >> 3u8) != 0),
                (p & (0x80u8 >> 4u8) != 0) == (q & (0x80u8 >> 4u8) != 0),
                (p & (0x80u8 >> 5u8) != 0) == (q & (0x80u8 >> 5u8) != 0),
                (p & (0x80u8 >> 6u8) != 0) == (q & (0x80u8 >> 6u8) != 0),
                (p & (0x80u8 >> 7u8) != 0) == (q & (0x80u8 >> 7u8) != 0),
        ;
    }
    assert(a =~= b);
}

/// What changing one bit does to the bits of all pixels.
proof fn lemma_bit_written(before: Seq<u8>, after: Seq<u8>, x: int, y: int, set: bool)
    requires
        before.len() == IMAGE_BYTES,
        on_screen(x, y),
        after == before.update(
            byte_index(x, y),
            if set {
                before[byte_index(x, y)] | bit_mask(y)
            } else {
                before[byte_index(x, y)] & !bit_mask(y)
            },
        ),
    ensures
        forall|v: int, w: int| on_screen(v, w) ==> #[trigger] bit_set(after, v, w) == (if (v, w)
            == (x, y) {
            set
        } else {
            bit_set(before, v, w)
        }),
{
    assert forall|v: int, w: int| on_screen(v, w) implies #[trigger] bit_set(after, v, w) == (if (
    v, w) == (x, y) {
        set
    } else {
        bit_set(before, v, w)
    }) by {
        law_layout(x, y, v, w);
        lemma_bits(before[byte_index(x, y)], (y % 8) as u8, (w % 8) as u8);
    }
}

/// An image of the whole panel, white unless drawn on. Clear bits are black.
pub struct FrameBuffer {
    data: Vec<u8>,
}

impl FrameBuffer {
    #[verifier::type_invariant]
    spec fn whole(self) -> bool {
        self.data@.len() == IMAGE_BYTES
    }

    /// The image as it goes to the controller.
    pub closed spec fn bytes(self) -> Seq<u8> {
        self.data@
    }

    /// The black pixels.
    pub open spec fn ink(self) -> Set<(int, int)> {
        ink_of(self.bytes())
    }

    pub fn new() -> (f: FrameBuffer)
        ensures
            f.bytes() == Seq::new(IMAGE_BYTES as nat, |i: int| 0xFFu8),
            f.ink() == Set::<(int, int)>::empty(),
    {
        let f = FrameBuffer { data: vec![0xFFu8; IMAGE_BYTES] };
        proof {
            lemma_blank(f.data@, 0xFF);
        }
        f
    }

    /// Erases the whole image.
    pub fn clear_white(&mut self)
        ensures
            final(self).bytes() == Seq::new(IMAGE_BYTES as nat, |i: int| 0xFFu8),
            final(self).ink() == Set::<(int, int)>::empty(),
    {
        proof {
            use_type_invariant(&*self);
        }
        let mut i: usize = 0;
        while i < IMAGE_BYTES
            invariant
                i <= IMAGE_BYTES,
                self.data@.len() == IMAGE_BYTES,
                forall|k: int| 0 <= k < i ==> self.data@[k] == 0xFFu8,
            decreases IMAGE_BYTES - i,
        {
            self.data[i] = 0xFF;
            i += 1;
        }
        proof {
            lemma_blank(self.data@, 0xFF);
            assert(self.data@ =~= Seq::new(IMAGE_BYTES as nat, |i: int| 0xFFu8));
        }
    }

    pub fn as_bytes(&self) -> (b: &[u8])
        ensures
            b@ == self.bytes(),
            b@.len() == IMAGE_BYTES,
    {
        proof {
            use_type_invariant(self);
        }
        self.data.as_slice()
    }

    /// The extent that can be drawn on.
    pub fn size(&self) -> (s: Size)
        ensures
            s == (Size { width: SCREEN_WIDTH as u32, height: SCREEN_HEIGHT as u32 }),
    {
        Size { width: SCREEN_WIDTH as u32, height: SCREEN_HEIGHT as u32 }
    }

    /// Draws one pixel, unless it lies off the screen.
    pub fn set_pixel(&mut self, x: u16, y: u16, black: bool)
        ensures
            final(self).ink() == (if !on_screen(x as int, y as int) {
                old(self).ink()
            } else if black {
                old(self).ink().insert((x as int, y as int))
            } else {
                old(self).ink().remove((x as int, y as int))
            }),
    {
        if x >= SCREEN_WIDTH || y >= SCREEN_HEIGHT {
            return ;
        }
        proof {
            use_type_invariant(&*self);
            law_layout(x as int, y as int, x as int, y as int);
        }
        let index: usize = x as usize * ROW_BYTES + y as usize / 8;
        let mask: u8 = 0x80u8 >> ((y % 8) as u8);
        let byte: u8 = self.data[index];
        if black {
            self.data[index] = byte & !mask;
        } else {
            self.data[index] = byte | mask;
        }
        proof {
            lemma_bit_written(old(self).data@, self.data@, x as int, y as int, !black);
            let was = old(self).ink();
            let at = (x as int, y as int);
            assert(self.ink() =~= if black {
                was.insert(at)
            } else {
                was.remove(at)
            });
        }
    }

    /// Draws pixels in order; what lies off the screen is left out.
    pub fn draw_iter(&mut self, pixels: &[Pixel])
        ensures
            final(self).ink() == painted(old(self).ink(), pixels@),
    {
        let mut i: usize = 0;
        while i < pixels.len()
            invariant
                i <= pixels@.len(),
                self.ink() == painted(old(self).ink(), pixels@.take(i as int)),
            decreases pixels@.len() - i,
        {
            let p: Pixel = pixels[i];
            proof {
                assert(pixels@.take(i + 1).drop_last() =~= pixels@.take(i as int));
            }
            if 0 <= p.point.x && p.point.x <= u16::MAX as i32 && 0 <= p.point.y && p.point.y
                <= u16::MAX as i32 {
                self.set_pixel(p.point.x as u16, p.point.y as u16, p.on);
            }
            i += 1;
        }
        assert(pixels@.take(i as int) =~= pixels@);
    }

    /// Draws every pixel of `area` alike.
    pub fn fill_solid(&mut self, area: &Rectangle, on: bool)
        ensures
            final(self).ink() == (if on {
                old(self).ink().union(screen_part(*area))
            } else {
                old(self).ink().difference(screen_part(*area))
            }),
    {
        let x_end: i32 = clipped_end(area.top_left.x, area.size.width);
        let y_end: i32 = clipped_end(area.top_left.y, area.size.height);
        let left: u16 = if area.top_left.x < 0 {
            0
        } else if area.top_left.x < SCREEN_WIDTH as i32 {
            area.top_left.x as u16
        } else {
            SCREEN_WIDTH
        };
        let right: u16 = if x_end < 0 {
            0
        } else if x_end < SCREEN_WIDTH as i32 {
            x_end as u16
        } else {
            SCREEN_WIDTH
        };
        let top: u16 = if area.top_left.y < 0 {
            0
        } else if area.top_left.y < SCREEN_HEIGHT as i32 {
            area.top_left.y as u16
        } else {
            SCREEN_HEIGHT
        };
        let bottom: u16 = if y_end < 0 {
            0
        } else if y_end < SCREEN_HEIGHT as i32 {
            y_end as u16
        } else {
            SCREEN_HEIGHT
        };
        let ghost was = self.ink();
        let mut y: u16 = top;
        while y < bottom
            invariant
                top <= y,
                bottom <= SCREEN_HEIGHT,
                right <= SCREEN_WIDTH,
                y <= bottom || y == top,
                forall|p: (int, int)| #[trigger]
                    self.ink().contains(p) == (if left <= p.0 < right && top <= p.1 < y {
                        on
                    } else {
                        was.contains(p)
                    }),
            decreases bottom - y,
        {
            let mut x: u16 = left;
            while x < right
                invariant
                    left <= x,
                    x <= right || x == left,
                    right <= SCREEN_WIDTH,
                    top <= y < bottom,
                    bottom <= SCREEN_HEIGHT,
                    forall|p: (int, int)| #[trigger]
                        self.ink().contains(p) == (if (left <= p.0 < right && top <= p.1 < y) || (
                        left <= p.0 < x && p.1 == y) {
                            on
                        } else {
                            was.contains(p)
                        }),
                decreases right - x,
            {
                self.set_pixel(x, y, on);
                x += 1;
            }
            y += 1;
        }
        proof {
            let part = screen_part(*area);
            assert(self.ink() =~= if on {
                was.union(part)
            } else {
                was.difference(part)
            });
        }
    }
}

impl Default for FrameBuffer {
    fn default() -> (f: FrameBuffer)
        ensures
            f.ink() == Set::<(int, int)>::empty(),
    {
        FrameBuffer::new()
    }
}

/// A set of pixels to drive on a refresh, laid out as a [`FrameBuffer`]. Set
/// bits are marks.
pub struct Mask {
    data: Vec<u8>,
}

impl Mask {
    #[verifier::type_invariant]
    spec fn whole(self) -> bool {
        self.data@.len() == IMAGE_BYTES
    }

    /// The mask as it combines with an image.
    pub closed spec fn bytes(self) -> Seq<u8> {
        self.data@
    }

    /// The marked pixels.
    pub open spec fn marks(self) -> Set<(int, int)> {
        marks_of(self.bytes())
    }

    pub fn new() -> (m: Mask)
        ensures
            m.bytes() == Seq::new(IMAGE_BYTES as nat, |i: int| 0u8),
            m.marks() == Set::<(int, int)>::empty(),
    {
        let m = Mask { data: vec![0u8; IMAGE_BYTES] };
        proof {
            lemma_blank(m.data@, 0);
        }
        m
    }

    /// Forgets every mark.
    pub fn clear(&mut self)
        ensures
            final(self).bytes() == Seq::new(IMAGE_BYTES as nat, |i: int| 0u8),
            final(self).marks() == Set::<(int, int)>::empty(),
    {
        proof {
            use_type_invariant(&*self);
        }
        let mut i: usize = 0;
        while i < IMAGE_BYTES
            invariant
                i <= IMAGE_BYTES,
                self.data@.len() == IMAGE_BYTES,
                forall|k: int| 0 <= k < i ==> self.data@[k] == 0u8,
            decreases IMAGE_BYTES - i,
        {
            self.data[i] = 0;
            i += 1;
        }
        proof {
            lemma_blank(self.data@, 0);
            assert(self.data@ =~= Seq::new(IMAGE_BYTES as nat, |i: int| 0u8));
        }
    }

    pub fn as_bytes(&self) -> (b: &[u8])
        ensures
            b@ == self.bytes(),
            b@.len() == IMAGE_BYTES,
    {
        proof {
            use_type_invariant(self);
        }
        self.data.as_slice()
    }

    /// Whether nothing is marked.
    pub fn is_empty(&self) -> (r: bool)
        ensures
            r == (self.marks() == Set::<(int, int)>::empty()),
    {
        proof {
            use_type_invariant(self);
        }
        let mut i: usize = 0;
        while i < IMAGE_BYTES
            invariant
                i <= IMAGE_BYTES,
                self.data@.len() == IMAGE_BYTES,
                forall|k: int| 0 <= k < i ==> self.data@[k] == 0u8,
            decreases IMAGE_BYTES - i,
        {
            if self.data[i] != 0 {
                proof {
                    lemma_mark_in_byte(self.data@, i as int);
                }
                return false;
            }
            i += 1;
        }
        proof {
            lemma_blank(self.data@, 0);
        }
        true
    }

    /// The extent that can be marked.
    pub fn size(&self) -> (s: Size)
        ensures
            s == (Size { width: SCREEN_WIDTH as u32, height: SCREEN_HEIGHT as u32 }),
    {
        Size { width: SCREEN_WIDTH as u32, height: SCREEN_HEIGHT as u32 }
    }

    /// Marks the black ones among `pixels`; what lies off the screen is left out.
    pub fn draw_iter(&mut self, pixels: &[Pixel])
        ensures
            final(self).marks() == marked(old(self).marks(), pixels@),
    {
        let mut i: usize = 0;
        while i < pixels.len()
            invariant
                i <= pixels@.len(),
                self.marks() == marked(old(self).marks(), pixels@.take(i as int)),
            decreases pixels@.len() - i,
        {
            let p: Pixel = pixels[i];
            proof {
                assert(pixels@.take(i + 1).drop_last() =~= pixels@.take(i as int));
                use_type_invariant(&*self);
            }
            if p.on && 0 <= p.point.x && p.point.x < SCREEN_WIDTH as i32 && 0 <= p.point.y
                && p.point.y < SCREEN_HEIGHT as i32 {
                let ghost was = self.data@;
                let x: usize = p.point.x as usize;
                let y: usize = p.point.y as usize;
                proof {
                    law_layout(x as int, y as int, x as int, y as int);
                }
                let index: usize = x * ROW_BYTES + y / 8;
                let byte: u8 = self.data[index];
                self.data[index] = byte | (0x80u8 >> ((y % 8) as u8));
                proof {
                    lemma_bit_written(was, self.data@, x as int, y as int, true);
                    assert(self.marks() =~= marks_of(was).insert((x as int, y as int)));
                }
            }
            i += 1;
        }
        assert(pixels@.take(i as int) =~= pixels@);
    }
}

impl Default for Mask {
    fn default() -> (m: Mask)
        ensures
            m.marks() == Set::<(int, int)>::empty(),
    {
        Mask::new()
    }
}

/// A byte that is not zero marks some pixel.
proof fn lemma_mark_in_byte(bytes: Seq<u8>, k: int)
    requires
        bytes.len() == IMAGE_BYTES,
        0 <= k < IMAGE_BYTES,
        bytes[k] != 0,
    ensures
        marks_of(bytes) != Set::<(int, int)>::empty(),
{
    let b = bytes[k];
    let x = k / 100;
    let y = (k % 100) * 8;
    assert(b != 0 ==> b & 0x80u8 != 0 || b & 0x40u8 != 0 || b & 0x20u8 != 0 || b & 0x10u8 != 0 || b
        & 0x08u8 != 0 || b & 0x04u8 != 0 || b & 0x02u8 != 0 || b & 0x01u8 != 0) by (bit_vector);
    assert(0x80u8 >> 0u8 == 0x80u8 && 0x80u8 >> 1u8 == 0x40u8 && 0x80u8 >> 2u8 == 0x20u8 && 0x80u8
        >> 3u8 == 0x10u8 && 0x80u8 >> 4u8 == 0x08u8 && 0x80u8 >> 5u8 == 0x04u8 && 0x80u8 >> 6u8
        == 0x02u8 && 0x80u8 >> 7u8 == 0x01u8) by (bit_vector);
    let j: int = if b & 0x80u8 != 0 {
        0
    } else if b & 0x40u8 != 0 {
        1
    } else if b & 0x20u8 != 0 {
        2
    } else if b & 0x10u8 != 0 {
        3
    } else if b & 0x08u8 != 0 {
        4
    } else if b & 0x04u8 != 0 {
        5
    } else if b & 0x02u8 != 0 {
        6
    } else {
        7
    };
    assert(byte_index(x, y + j) == k);
    assert((y + j) % 8 == j);
    assert(bit_set(bytes, x, y + j));
    assert(marks_of(bytes).contains((x, y + j)));
}

/// A uniform image has no pixel of the other colour.
proof fn lemma_blank(bytes: Seq<u8>, value: u8)
    requires
        bytes.len() == IMAGE_BYTES,
        value == 0xFF || value == 0,
        forall|k: int| 0 <= k < IMAGE_BYTES ==> bytes[k] == value,
    ensures
        value == 0xFF ==> ink_of(bytes) == Set::<(int, int)>::empty(),
        value == 0 ==> marks_of(bytes) == Set::<(int, int)>::empty(),
{
    assert forall|x: int, y: int| on_screen(x, y) implies #[trigger] bit_set(bytes, x, y) == (value
        == 0xFF) by {
        law_layout(x, y, x, y);
        let k = (y % 8) as u8;
        assert(k < 8 ==> 0xFFu8 & (0x80u8 >> k) != 0) by (bit_vector);
        assert(0u8 & (0x80u8 >> k) == 0) by (bit_vector);
    }
    assert(value == 0xFF ==> ink_of(bytes) =~= Set::<(int, int)>::empty());
    assert(value == 0 ==> marks_of(bytes) =~= Set::<(int, int)>::empty());
}

/// Where a pixel lies in memory: column `x` is a run of 100 bytes, and row `y` of
/// it is bit `y % 8` of byte `y / 8`, counted from the most significant. On an
/// image that bit is 0 where the pixel is black, on a mask it is 1 where the
/// pixel is marked.
pub proof fn law_pixel_bits(bytes: Seq<u8>, x: int, y: int)
    ensures
        on_screen(x, y) <==> 0 <= x < 480 && 0 <= y < 800,
        ({
            let byte = bytes[100 * x + y / 8] as int;
            let bit = if y % 8 == 0 {
                byte / 128
            } else if y % 8 == 1 {
                byte / 64 % 2
            } else if y % 8 == 2 {
                byte / 32 % 2
            } else if y % 8 == 3 {
                byte / 16 % 2
            } else if y % 8 == 4 {
                byte / 8 % 2
            } else if y % 8 == 5 {
                byte / 4 % 2
            } else if y % 8 == 6 {
                byte / 2 % 2
            } else {
                byte % 2
            };
            &&& bit_set(bytes, x, y) <==> bit == 1
            &&& ink_of(bytes).contains((x, y)) <==> 0 <= x < 480 && 0 <= y < 800 && bit == 0
            &&& marks_of(bytes).contains((x, y)) <==> 0 <= x < 480 && 0 <= y < 800 && bit == 1
        }),
{
    let b = bytes[100 * x + y / 8];
    assert(byte_index(x, y) == 100 * x + y / 8);
    assert({
        &&& (b & (0x80u8 >> 0u8) != 0) == (b / 128 == 1)
        &&& (b & (0x80u8 >> 1u8) != 0) == (b / 64 % 2 == 1)
        &&& (b & (0x80u8 >> 2u8) != 0) == (b / 32 % 2 == 1)
        &&& (b & (0x80u8 >> 3u8) != 0) == (b / 16 % 2 == 1)
        &&& (b & (0x80u8 >> 4u8) != 0) == (b / 8 % 2 == 1)
        &&& (b & (0x80u8 >> 5u8) != 0) == (b / 4 % 2 == 1)
        &&& (b & (0x80u8 >> 6u8) != 0) == (b / 2 % 2 == 1)
        &&& (b & (0x80u8 >> 7u8) != 0) == (b % 2 == 1)
    }) by (bit_vector);
}

/// Drawing pixels one after another: the last one drawn at a place decides, and a
/// place where none was drawn stays as it was. Places off the screen never
/// change.
pub proof fn law_last_pixel_decides(
    ink: Set<(int, int)>,
    pixels: Seq<Pixel>,
    x: int,
    y: int,
    last: int,
)
    requires
        -1 <= last < pixels.len(),
        last >= 0 ==> pixels[last].point.x == x && pixels[last].point.y == y,
        forall|i: int|
            last < i < pixels.len() ==> (#[trigger] pixels[i]).point.x != x || pixels[i].point.y
                != y,
    ensures
        painted(ink, pixels).contains((x, y)) == (if last >= 0 && 0 <= x < 480 && 0 <= y < 800 {
            pixels[last].on
        } else {
            ink.contains((x, y))
        }),
    decreases pixels.len(),
{
    if pixels.len() > 0 {
        let front = pixels.drop_last();
        if last == pixels.len() - 1 {
            if !on_screen(x, y) {
                lemma_off_screen(ink, front, x, y);
            }
        } else {
            assert(pixels[pixels.len() - 1].point.x != x || pixels[pixels.len() - 1].point.y != y);
            law_last_pixel_decides(ink, front, x, y, last);
        }
    }
}

proof fn lemma_off_screen(ink: Set<(int, int)>, pixels: Seq<Pixel>, x: int, y: int)
    requires
        !on_screen(x, y),
    ensures
        painted(ink, pixels).contains((x, y)) == ink.contains((x, y)),
    decreases pixels.len(),
{
    if pixels.len() > 0 {
        lemma_off_screen(ink, pixels.drop_last(), x, y);
    }
}

/// A place is marked after drawing exactly when it was before, or it is on the
/// screen and some black pixel was drawn there.
pub proof fn law_marks_gather(marks: Set<(int, int)>, pixels: Seq<Pixel>, x: int, y: int)
    ensures
        marked(marks, pixels).contains((x, y)) <==> marks.contains((x, y)) || (0 <= x < 480 && 0
            <= y < 800 && exists|i: int|
            0 <= i < pixels.len() && (#[trigger] pixels[i]).on && pixels[i].point.x == x
                && pixels[i].point.y == y),
    decreases pixels.len(),
{
    if pixels.len() > 0 {
        let front = pixels.drop_last();
        law_marks_gather(marks, front, x, y);
        if exists|i: int|
            0 <= i < pixels.len() && (#[trigger] pixels[i]).on && pixels[i].point.x == x
                && pixels[i].point.y == y {
            let i = choose|i: int|
                0 <= i < pixels.len() && (#[trigger] pixels[i]).on && pixels[i].point.x == x
                    && pixels[i].point.y == y;
            if i < front.len() {
                assert(front[i] == pixels[i]);
            }
        }
        if exists|i: int|
            0 <= i < front.len() && (#[trigger] front[i]).on && front[i].point.x == x
                && front[i].point.y == y {
            let i = choose|i: int|
                0 <= i < front.len() && (#[trigger] front[i]).on && front[i].point.x == x
                    && front[i].point.y == y;
            assert(pixels[i] == front[i]);
        }
        assert(pixels.last() == pixels[pixels.len() - 1]);
    }
}

/// The part of an area that is on the screen is every pixel of the 480 by 800
/// inside it, edges on the left and above included.
pub proof fn law_screen_part(area: Rectangle, x: int, y: int)
    ensures
        screen_part(area).contains((x, y)) <==> 0 <= x < 480 && 0 <= y < 800 && area.holds(x, y),
        area.representable() ==> (screen_part(area).contains((x, y)) <==> 0 <= x < 480 && 0 <= y
            < 800 && area.top_left.x <= x < area.top_left.x + area.size.width && area.top_left.y
            <= y < area.top_left.y + area.size.height),
{
}

} // verus!
