//! A QR code as an image: encoded, scaled to whole pixels and centred.
//!
//! Drawing does not flush anything: the caller decides when the image is pushed
//! to its display.

use qrcode::bits::encode_auto;
use qrcode::types::QrError;
use qrcode::{EcLevel, QrCode};
use vstd::prelude::*;
use vstd::string::StringExecFns;
use vstd::utf8::encode_utf8;

use crate::framebuffer::{on_screen, screen_part, FrameBuffer};
use crate::geometry::{least, most, quotient, Point, Rectangle, Size};
use crate::text::{decimal, decimal_text};

verus! {

/// Blank modules that scanners need around a code to lock onto it.
pub const QUIET_ZONE: u32 = 4;

/// Why some data has no code.
#[derive(Clone, Copy, Debug, PartialEq, Eq, Structural)]
pub enum EncodeError {
    DataTooLong,
    InvalidVersion,
    UnsupportedCharacterSet,
    InvalidEciDesignator,
    InvalidCharacter,
}

impl EncodeError {
    pub fn text(self) -> (s: &'static str)
        ensures
            s@ == match self {
                EncodeError::DataTooLong => "data too long"@,
                EncodeError::InvalidVersion => "invalid version"@,
                EncodeError::UnsupportedCharacterSet => "unsupported character set"@,
                EncodeError::InvalidEciDesignator => "invalid ECI designator"@,
                EncodeError::InvalidCharacter => "invalid character"@,
            },
    {
        match self {
            EncodeError::DataTooLong => "data too long",
            EncodeError::InvalidVersion => "invalid version",
            EncodeError::UnsupportedCharacterSet => "unsupported character set",
            EncodeError::InvalidEciDesignator => "invalid ECI designator",
            EncodeError::InvalidCharacter => "invalid character",
        }
    }
}

/// The widest code that is drawn: 65 modules, which is version 12. In a wider one
/// the score of a mask's faults may not fit 16 bits.
pub const WIDEST_CODE: u32 = 65;

/// With so many bytes no code is wider than [`WIDEST_CODE`]: a byte takes 28 bits
/// at most, and such a code holds 2960.
pub const SURE_BYTES: usize = 105;

/// Whether the bits of some bytes can be counted.
pub open spec fn countable(len: int) -> bool {
    len <= usize::MAX / 32
}

/// How many modules wide the code of some data is.
pub uninterp spec fn width_of(data: Seq<u8>) -> Result<u32, EncodeError>;

/// Calls [`encode_auto`] with low error correction, which finds the smallest
/// version that holds the data but draws nothing, and hands out the width of that
/// version: 21 to 177 modules. So few bytes as [`SURE_BYTES`] fit version 12.
#[verifier::external_body]
fn code_width(data: &[u8]) -> (r: Result<u32, EncodeError>)
    requires
        countable(data@.len() as int),
    ensures
        r == width_of(data@),
        r matches Ok(width) ==> 21 <= width <= 177,
        r matches Ok(width) ==> data@.len() <= SURE_BYTES ==> width <= WIDEST_CODE,
{
    match encode_auto(data, EcLevel::L) {
        Ok(bits) => Ok(bits.version().width() as u32),
        Err(QrError::DataTooLong) => Err(EncodeError::DataTooLong),
        Err(QrError::InvalidVersion) => Err(EncodeError::InvalidVersion),
        Err(QrError::UnsupportedCharacterSet) => Err(EncodeError::UnsupportedCharacterSet),
        Err(QrError::InvalidEciDesignator) => Err(EncodeError::InvalidEciDesignator),
        Err(QrError::InvalidCharacter) => Err(EncodeError::InvalidCharacter),
    }
}

/// Whether some data is encoded here: its bits can be counted, and its code, if it
/// has one, is not too wide to draw.
pub open spec fn encodable(data: Seq<u8>) -> bool {
    countable(data.len() as int) && (width_of(data) matches Ok(width) ==> width <= WIDEST_CODE)
}

/// The code of some data: how many modules wide it is, and its modules row by
/// row, true where dark.
pub uninterp spec fn modules_of(data: Seq<u8>) -> Result<(u32, Seq<bool>), EncodeError>;

/// Calls [`QrCode::with_error_correction_level`] with low error correction. The
/// code is square, and as wide as the version that [`encode_auto`] finds; where that
/// finds none, its error is the one here. It is
/// drawn with the mask whose faults score least. Left out are codes wider than
/// [`WIDEST_CODE`], for which that score can leave 16 bits. Up to that width it
/// cannot: runs and blocks score at most five per module, finder patterns 40 each,
/// of which a line of 65 modules holds at most eight, and the balance 100.
#[verifier::external_body]
fn encode(data: &[u8]) -> (r: Result<(u32, Vec<bool>), EncodeError>)
    requires
        encodable(data@),
    ensures
        match r {
            Ok((width, modules)) => modules_of(data@) == Ok::<(u32, Seq<bool>), EncodeError>(
                (width, modules@),
            ),
            Err(e) => modules_of(data@) == Err::<(u32, Seq<bool>), EncodeError>(e),
        },
        width_of(data@) == match r {
            Ok((width, modules)) => Ok::<u32, EncodeError>(width),
            Err(e) => Err::<u32, EncodeError>(e),
        },
        r matches Ok((width, modules)) ==> 21 <= width <= WIDEST_CODE && modules@.len() == width
            * width,
{
    match QrCode::with_error_correction_level(data, EcLevel::L) {
        Ok(code) => {
            let width = code.width() as u32;
            Ok((width, code.into_colors().into_iter().map(|c| c.select(true, false)).collect()))
        },
        Err(QrError::DataTooLong) => Err(EncodeError::DataTooLong),
        Err(QrError::InvalidVersion) => Err(EncodeError::InvalidVersion),
        Err(QrError::UnsupportedCharacterSet) => Err(EncodeError::UnsupportedCharacterSet),
        Err(QrError::InvalidEciDesignator) => Err(EncodeError::InvalidEciDesignator),
        Err(QrError::InvalidCharacter) => Err(EncodeError::InvalidCharacter),
    }
}

/// A code that could not be made.
#[derive(Clone, Copy, Debug, PartialEq, Eq, Structural)]
pub struct FitError {
    /// How many bytes were to be encoded.
    pub bytes: usize,
    pub cause: EncodeError,
}

impl FitError {
    pub fn message(&self) -> (s: String)
        ensures
            s@ == "encoding "@ + decimal(self.bytes as nat) + " bytes as a QR code: "@ + match self.cause {
                EncodeError::DataTooLong => "data too long"@,
                EncodeError::InvalidVersion => "invalid version"@,
                EncodeError::UnsupportedCharacterSet => "unsupported character set"@,
                EncodeError::InvalidEciDesignator => "invalid ECI designator"@,
                EncodeError::InvalidCharacter => "invalid character"@,
            },
    {
        let number: String = decimal_text(self.bytes as u64);
        let mut s: String = String::from_str("encoding ");
        s.append(number.as_str());
        s.append(" bytes as a QR code: ");
        s.append(self.cause.text());
        s
    }
}

/// How many modules a code spans, its quiet zone included.
pub open spec fn span(width: u32) -> int {
    width + 2 * QUIET_ZONE
}

/// Pixels per module: as many as fit, but at least one.
pub open spec fn scale_for(width: u32, area: Rectangle) -> int {
    most(least(area.size.width as int, area.size.height as int) / span(width), 1)
}

/// The side of the code in an area, in pixels.
pub open spec fn side_for(width: u32, area: Rectangle) -> int {
    span(width) * scale_for(width, area)
}

/// What is left over of an extent, both as signed 32-bit numbers.
pub open spec fn spare(extent: u32, side: int) -> int {
    (extent as i32) - (side as i32)
}

/// Where the code starts on an axis that starts at `start`, so that it is
/// centred.
pub open spec fn start_for(start: i32, extent: u32, side: int) -> int {
    start + quotient(spare(extent, side), 2)
}

/// Whether a code of this width can be placed in an area: where it starts has to
/// be worked out in 32 bits.
pub open spec fn placeable(width: u32, area: Rectangle) -> bool {
    let side = side_for(width, area);
    &&& span(width) <= u32::MAX
    &&& i32::MIN <= spare(area.size.width, side) <= i32::MAX
    &&& i32::MIN <= spare(area.size.height, side) <= i32::MAX
    &&& i32::MIN <= start_for(area.top_left.x, area.size.width, side) <= i32::MAX
    &&& i32::MIN <= start_for(area.top_left.y, area.size.height, side) <= i32::MAX
}

/// The side of a code is a 32-bit number.
proof fn lemma_side(width: u32, area: Rectangle)
    requires
        span(width) <= u32::MAX,
    ensures
        0 < scale_for(width, area) <= u32::MAX,
        0 < side_for(width, area) <= u32::MAX,
{
    let n = least(area.size.width as int, area.size.height as int);
    let d = span(width);
    let k = n / d;
    assert(0 <= k <= n && d * k <= n) by (nonlinear_arith)
        requires
            k == n / d,
            d > 0,
            n >= 0,
    ;
    assert(k >= 1 ==> d * k > 0) by (nonlinear_arith)
        requires
            d > 0,
    ;
    assert(d * 1 == d);
}

/// A rectangle to fill, black where `on` and blank elsewhere.
#[derive(Clone, Copy, Debug, PartialEq, Eq, Structural)]
pub struct Fill {
    pub area: Rectangle,
    pub on: bool,
}

/// What is black on the screen after filling rectangles one after another over
/// `ink`.
pub open spec fn filled(ink: Set<(int, int)>, fills: Seq<Fill>) -> Set<(int, int)>
    decreases fills.len(),
{
    if fills.len() == 0 {
        ink
    } else {
        let before = filled(ink, fills.drop_last());
        if fills.last().on {
            before.union(screen_part(fills.last().area))
        } else {
            before.difference(screen_part(fills.last().area))
        }
    }
}

/// A code, placed.
pub struct QrImage {
    /// Row by row, `width` to a row; true is a dark module.
    modules: Vec<bool>,
    width: u32,
    /// Pixels per module.
    scale: u32,
    top_left: Point,
}

impl QrImage {
    pub closed spec fn code(self) -> Seq<bool> {
        self.modules@
    }

    pub closed spec fn modules_wide(self) -> u32 {
        self.width
    }

    pub closed spec fn pixels_per_module(self) -> u32 {
        self.scale
    }

    pub closed spec fn corner(self) -> Point {
        self.top_left
    }

    /// The side in pixels, quiet zone included.
    pub open spec fn pixels_wide(self) -> int {
        span(self.modules_wide()) * self.pixels_per_module()
    }

    /// A square code.
    pub open spec fn wf(self) -> bool {
        &&& self.modules_wide() > 0
        &&& self.pixels_per_module() > 0
        &&& self.code().len() == self.modules_wide() * self.modules_wide()
        &&& span(self.modules_wide()) <= u32::MAX
        &&& self.pixels_wide() <= u32::MAX
    }

    /// A code whose pixels all have 32-bit coordinates.
    pub open spec fn drawable(self) -> bool {
        &&& self.wf()
        &&& self.pixels_wide() <= i32::MAX
        &&& self.corner().x + self.pixels_wide() <= i32::MAX
        &&& self.corner().y + self.pixels_wide() <= i32::MAX
    }

    /// The code `modules` in `area`.
    pub open spec fn is_placed(self, modules: Seq<bool>, width: u32, area: Rectangle) -> bool {
        &&& self.wf()
        &&& self.code() == modules
        &&& self.modules_wide() == width
        &&& self.pixels_per_module() == scale_for(width, area)
        &&& self.corner().x == start_for(area.top_left.x, area.size.width, side_for(width, area))
        &&& self.corner().y == start_for(area.top_left.y, area.size.height, side_for(width, area))
    }

    /// Places a code at the largest whole-pixel module size that fits `area`,
    /// centred within it, quiet zone included.
    pub fn place(modules: Vec<bool>, width: u32, area: Rectangle) -> (r: QrImage)
        requires
            0 < width,
            modules@.len() == width * width,
            placeable(width, area),
        ensures
            r.is_placed(modules@, width, area),
    {
        proof {
            lemma_side(width, area);
        }
        let span: u32 = width + 2 * QUIET_ZONE;
        let short: u32 = if area.size.width < area.size.height {
            area.size.width
        } else {
            area.size.height
        };
        let fits: u32 = short / span;
        let scale: u32 = if fits > 1 {
            fits
        } else {
            1
        };
        assert(scale == scale_for(width, area));
        let side: i32 = (span * scale) as i32;
        let dx: i32 = (area.size.width as i32 - side) / 2;
        let dy: i32 = (area.size.height as i32 - side) / 2;
        let top_left = Point { x: area.top_left.x + dx, y: area.top_left.y + dy };
        QrImage { modules, width, scale, top_left }
    }

    /// Whether [`QrImage::place`] can place a code of this width.
    pub fn can_place(width: u32, area: Rectangle) -> (r: bool)
        requires
            0 < width <= u32::MAX - 2 * QUIET_ZONE,
        ensures
            r == placeable(width, area),
    {
        proof {
            lemma_side(width, area);
        }
        let span: u32 = width + 2 * QUIET_ZONE;
        let short: u32 = if area.size.width < area.size.height {
            area.size.width
        } else {
            area.size.height
        };
        let fits: u32 = short / span;
        let scale: u32 = if fits > 1 {
            fits
        } else {
            1
        };
        assert(scale == scale_for(width, area));
        let side: i64 = (span * scale) as i32 as i64;
        let dx: i64 = area.size.width as i32 as i64 - side;
        let dy: i64 = area.size.height as i32 as i64 - side;
        let x: i64 = area.top_left.x as i64 + dx / 2;
        let y: i64 = area.top_left.y as i64 + dy / 2;
        let low: i64 = i32::MIN as i64;
        let high: i64 = i32::MAX as i64;
        low <= dx && dx <= high && low <= dy && dy <= high && low <= x && x <= high && low <= y
            && y <= high
    }
}

impl QrImage {
    /// Encodes `data` at the largest whole-pixel module size that fits `area`,
    /// centred within it, quiet zone included.
    pub fn fit(data: &str, area: Rectangle) -> (r: Result<QrImage, FitError>)
        requires
            encodable(encode_utf8(data@)),
            modules_of(encode_utf8(data@)) matches Ok((width, modules)) ==> placeable(width, area),
        ensures
            match modules_of(encode_utf8(data@)) {
                Ok((width, modules)) => r matches Ok(image) && image.is_placed(
                    modules,
                    width,
                    area,
                ),
                Err(e) => r matches Err(error) && error.cause == e && error.bytes
                    == encode_utf8(data@).len(),
            },
    {
        let bytes: &[u8] = data.as_bytes();
        match encode(bytes) {
            Ok((width, modules)) => Ok(QrImage::place(modules, width, area)),
            Err(cause) => Err(FitError { bytes: bytes.len(), cause }),
        }
    }

    /// As [`QrImage::fit`], for any data and area: `None` where the code is too wide
    /// to draw, or its place out of 32-bit range. The code of a short text is never
    /// too wide.
    pub fn try_fit(data: &str, area: Rectangle) -> (r: Option<Result<QrImage, FitError>>)
        ensures
            if !encodable(encode_utf8(data@)) {
                r is None && encode_utf8(data@).len() > SURE_BYTES
            } else {
                match modules_of(encode_utf8(data@)) {
                    Ok((width, modules)) => 21 <= width <= WIDEST_CODE && if placeable(
                        width,
                        area,
                    ) {
                        r matches Some(Ok(image)) && image.is_placed(modules, width, area)
                    } else {
                        r is None
                    },
                    Err(e) => r matches Some(Err(error)) && error.cause == e && error.bytes
                        == encode_utf8(data@).len(),
                }
            },
    {
        let bytes: &[u8] = data.as_bytes();
        if bytes.len() > usize::MAX / 32 {
            return None;
        }
        if let Ok(width) = code_width(bytes) {
            if width > WIDEST_CODE {
                return None;
            }
        }
        let possible: bool = match encode(bytes) {
            Ok((width, modules)) => QrImage::can_place(width, area),
            Err(_) => true,
        };
        if possible {
            Some(QrImage::fit(data, area))
        } else {
            None
        }
    }

    /// Side length in pixels, quiet zone included.
    pub fn side(&self) -> (side: u32)
        requires
            self.wf(),
        ensures
            side == self.pixels_wide(),
    {
        (self.width + 2 * QUIET_ZONE) * self.scale
    }

    /// What the image covers.
    pub open spec fn footprint(self) -> Rectangle {
        Rectangle {
            top_left: self.corner(),
            size: Size { width: self.pixels_wide() as u32, height: self.pixels_wide() as u32 },
        }
    }

    /// Which module column the pixel column `x` is in, counted from the first
    /// behind the quiet zone.
    pub open spec fn column(self, x: int) -> int {
        (x - self.corner().x) / (self.pixels_per_module() as int) - QUIET_ZONE
    }

    /// Which module row the pixel row `y` is in.
    pub open spec fn row(self, y: int) -> int {
        (y - self.corner().y) / (self.pixels_per_module() as int) - QUIET_ZONE
    }

    /// Whether the pixel `(x, y)` is in a dark module.
    pub open spec fn is_dark(self, x: int, y: int) -> bool {
        &&& 0 <= self.column(x) < self.modules_wide()
        &&& 0 <= self.row(y) < self.modules_wide()
        &&& self.code()[self.row(y) * self.modules_wide() + self.column(x)]
    }

    /// The pixels of the screen in dark modules.
    pub open spec fn dark(self) -> Set<(int, int)> {
        Set::new(|p: (int, int)| on_screen(p.0, p.1) && self.is_dark(p.0, p.1))
    }

    /// Those in the first `n` modules.
    spec fn dark_until(self, n: int) -> Set<(int, int)> {
        Set::new(
            |p: (int, int)|
                self.dark().contains(p) && self.row(p.1) * self.modules_wide() + self.column(p.0)
                    < n,
        )
    }

    /// The cell of module `i`.
    pub open spec fn cell(self, i: int) -> Rectangle {
        let w = self.modules_wide() as int;
        let s = self.pixels_per_module() as int;
        Rectangle {
            top_left: Point {
                x: (self.corner().x + (QUIET_ZONE + i % w) * s) as i32,
                y: (self.corner().y + (QUIET_ZONE + i / w) * s) as i32,
            },
            size: Size { width: self.pixels_per_module(), height: self.pixels_per_module() },
        }
    }

    /// Where the cell of a module lies, and which pixels it holds.
    proof fn lemma_cell(self, i: int, x: int, y: int)
        requires
            self.drawable(),
            0 <= i < self.code().len(),
        ensures
            ({
                let w = self.modules_wide() as int;
                let s = self.pixels_per_module() as int;
                &&& 0 <= i % w < w
                &&& 0 <= i / w < w
                &&& 0 <= (QUIET_ZONE + i % w) * s
                &&& (QUIET_ZONE + i % w) * s + s <= self.pixels_wide()
                &&& 0 <= (QUIET_ZONE + i / w) * s
                &&& (QUIET_ZONE + i / w) * s + s <= self.pixels_wide()
                &&& self.cell(i).holds(x, y) == (self.column(x) == i % w && self.row(y) == i / w)
                &&& i == (i / w) * w + i % w
            }),
    {
        let w = self.modules_wide() as int;
        let s = self.pixels_per_module() as int;
        let q = QUIET_ZONE as int;
        let (c, r) = (i % w, i / w);
        assert(0 <= c < w && 0 <= r < w && i == r * w + c) by (nonlinear_arith)
            requires
                0 <= i < w * w,
                w > 0,
                c == i % w,
                r == i / w,
        ;
        assert(0 <= (q + c) * s && (q + c) * s + s <= (w + 2 * q) * s) by (nonlinear_arith)
            requires
                0 <= c < w,
                q == 4,
                s > 0,
        ;
        assert(0 <= (q + r) * s && (q + r) * s + s <= (w + 2 * q) * s) by (nonlinear_arith)
            requires
                0 <= r < w,
                q == 4,
                s > 0,
        ;
        lemma_within(x - self.corner().x, q + c, s);
        lemma_within(y - self.corner().y, q + r, s);
    }

    /// The cells of the dark ones among the first `n` modules, in order.
    pub open spec fn dark_cells(self, n: int) -> Seq<Fill>
        decreases n,
    {
        if n <= 0 {
            Seq::empty()
        } else if self.code()[n - 1] {
            self.dark_cells(n - 1).push(Fill { area: self.cell(n - 1), on: true })
        } else {
            self.dark_cells(n - 1)
        }
    }

    /// What the image consists of: its footprint, blank, and over that the cells of
    /// the dark modules.
    pub open spec fn fill_list(self) -> Seq<Fill> {
        seq![Fill { area: self.footprint(), on: false }] + self.dark_cells(self.code().len() as int)
    }

    /// Whether every pixel has 32-bit coordinates, so that the code can be drawn.
    pub fn can_draw(&self) -> (r: bool)
        requires
            self.wf(),
        ensures
            r == self.drawable(),
    {
        let side: i64 = self.side() as i64;
        let most: i64 = i32::MAX as i64;
        side <= most && self.top_left.x as i64 + side <= most && self.top_left.y as i64 + side
            <= most
    }

    /// The rectangles to fill on a target, one after the other. The whole footprint
    /// is cleared first: the quiet zone has to be blank whatever was underneath.
    pub fn fills(&self) -> (fills: Vec<Fill>)
        requires
            self.drawable(),
        ensures
            fills@ == self.fill_list(),
    {
        let side: u32 = self.side();
        let mut fills: Vec<Fill> = vec![
            Fill {
                area: Rectangle {
                    top_left: self.top_left,
                    size: Size { width: side, height: side },
                },
                on: false,
            },
        ];
        let ghost first = seq![Fill { area: self.footprint(), on: false }];
        let mut i: usize = 0;
        let mut column: u32 = 0;
        let mut row: u32 = 0;
        assert(fills@ =~= first + self.dark_cells(0));
        while i < self.modules.len()
            invariant
                self.drawable(),
                i <= self.modules@.len(),
                column < self.width,
                i == row * self.width + column,
                first == seq![Fill { area: self.footprint(), on: false }],
                fills@ == first + self.dark_cells(i as int),
            decreases self.modules@.len() - i,
        {
            let ghost w = self.width as int;
            proof {
                self.lemma_cell(i as int, 0, 0);
                assert(row == i as int / w && column == i as int % w) by (nonlinear_arith)
                    requires
                        i == row * w + column,
                        0 <= column < w,
                        row >= 0,
                ;
            }
            if self.modules[i] {
                assert((QUIET_ZONE + column) * self.scale <= self.pixels_wide());
                let at = Point {
                    x: self.top_left.x + ((QUIET_ZONE + column) * self.scale) as i32,
                    y: self.top_left.y + ((QUIET_ZONE + row) * self.scale) as i32,
                };
                let cell = Rectangle {
                    top_left: at,
                    size: Size { width: self.scale, height: self.scale },
                };
                assert(cell == self.cell(i as int));
                fills.push(Fill { area: cell, on: true });
            }
            assert(fills@ =~= first + self.dark_cells(i + 1));
            i += 1;
            column += 1;
            if column == self.width {
                column = 0;
                row += 1;
                assert((row - 1) * w + w == row * w) by (nonlinear_arith);
            }
        }
        fills
    }

    /// Draws the code.
    pub fn draw(&self, target: &mut FrameBuffer)
        requires
            self.drawable(),
        ensures
            final(target).ink() == old(target).ink().difference(
                screen_part(self.footprint()),
            ).union(self.dark()),
    {
        let ghost before = target.ink();
        let fills: Vec<Fill> = self.fills();
        let mut i: usize = 0;
        assert(fills@.take(0) =~= Seq::empty());
        while i < fills.len()
            invariant
                i <= fills@.len(),
                target.ink() == filled(before, fills@.take(i as int)),
            decreases fills@.len() - i,
        {
            target.fill_solid(&fills[i].area, fills[i].on);
            proof {
                let part = fills@.take(i + 1);
                assert(part.drop_last() =~= fills@.take(i as int));
                assert(part.last() == fills@[i as int]);
            }
            i += 1;
        }
        proof {
            assert(fills@.take(i as int) =~= fills@);
            law_fills_draw(*self, before);
        }
    }

    /// What the first `n` modules come to, over a cleared footprint.
    proof fn lemma_filled(self, before: Set<(int, int)>, n: int)
        requires
            self.drawable(),
            0 <= n <= self.code().len(),
        ensures
            filled(
                before,
                seq![Fill { area: self.footprint(), on: false }] + self.dark_cells(n),
            ) == before.difference(screen_part(self.footprint())).union(self.dark_until(n)),
        decreases n,
    {
        let first = seq![Fill { area: self.footprint(), on: false }];
        let blank = before.difference(screen_part(self.footprint()));
        if n == 0 {
            assert(first + self.dark_cells(0) =~= first);
            assert(first.drop_last() =~= Seq::empty());
            assert(filled(before, Seq::empty()) == before);
            assert(filled(before, first) == blank);
            assert forall|p: (int, int)| !self.dark_until(0).contains(p) by {
                if self.dark().contains(p) {
                    assert(self.row(p.1) * self.modules_wide() >= 0) by (nonlinear_arith)
                        requires
                            self.row(p.1) >= 0,
                            self.modules_wide() >= 0,
                    ;
                }
            }
            assert(blank.union(self.dark_until(0)) =~= blank);
        } else {
            self.lemma_filled(before, n - 1);
            self.lemma_dark_step(n - 1);
            let all = first + self.dark_cells(n);
            if self.code()[n - 1] {
                assert(all.drop_last() =~= first + self.dark_cells(n - 1));
                assert(all.last() == (Fill { area: self.cell(n - 1), on: true }));
                assert(filled(before, all) =~= blank.union(self.dark_until(n)));
            }
        }
    }

    /// What module `i` adds.
    proof fn lemma_dark_step(self, i: int)
        requires
            self.drawable(),
            0 <= i < self.code().len(),
        ensures
            self.dark_until(i + 1) == (if self.code()[i] {
                self.dark_until(i).union(screen_part(self.cell(i)))
            } else {
                self.dark_until(i)
            }),
    {
        let w = self.modules_wide() as int;
        let more = if self.code()[i] {
            self.dark_until(i).union(screen_part(self.cell(i)))
        } else {
            self.dark_until(i)
        };
        assert forall|p: (int, int)| self.dark_until(i + 1).contains(p) == more.contains(p) by {
            let (c, r) = (self.column(p.0), self.row(p.1));
            self.lemma_cell(i, p.0, p.1);
            if 0 <= c < w && 0 <= r < w && r * w + c == i {
                assert(c == i % w && r == i / w) by (nonlinear_arith)
                    requires
                        i == r * w + c,
                        0 <= c < w,
                        0 <= r,
                ;
            }
        }
        assert(self.dark_until(i + 1) =~= more);
    }
}

/// Which run of `s` pixels a distance falls in.
proof fn lemma_within(d: int, k: int, s: int)
    requires
        s > 0,
    ensures
        (k * s <= d < k * s + s) == (d / s == k),
{
    let q = d / s;
    assert(q * s <= d < q * s + s) by (nonlinear_arith)
        requires
            q == d / s,
            s > 0,
    ;
    if k * s <= d < k * s + s && q != k {
        if q > k {
            assert(q * s >= k * s + s) by (nonlinear_arith)
                requires
                    q >= k + 1,
                    s > 0,
            ;
        } else {
            assert(k * s >= q * s + s) by (nonlinear_arith)
                requires
                    k >= q + 1,
                    s > 0,
            ;
        }
    }
}

// Laws.

/// Filling the rectangles of a code one after the other draws it, on any target.
pub proof fn law_fills_draw(image: QrImage, before: Set<(int, int)>)
    requires
        image.drawable(),
    ensures
        filled(before, image.fill_list()) == before.difference(
            screen_part(image.footprint()),
        ).union(image.dark()),
{
    let n = image.code().len() as int;
    image.lemma_filled(before, n);
    assert forall|p: (int, int)| image.dark().contains(p) implies image.dark_until(n).contains(
        p,
    ) by {
        let (c, r, w) = (image.column(p.0), image.row(p.1), image.modules_wide() as int);
        assert(r * w + c < w * w) by (nonlinear_arith)
            requires
                0 <= c < w,
                0 <= r < w,
        ;
    }
    assert(image.dark_until(n) =~= image.dark());
}

/// A code is as large as its area lets it be: it fits if a code of one pixel per
/// module does, and with one more pixel per module it would not.
pub proof fn law_largest_scale(width: u32, area: Rectangle)
    requires
        0 < width,
    ensures
        span(width) <= least(area.size.width as int, area.size.height as int) ==> side_for(
            width,
            area,
        ) <= least(area.size.width as int, area.size.height as int),
        least(area.size.width as int, area.size.height as int) < span(width) * (scale_for(
            width,
            area,
        ) + 1),
{
    let n = least(area.size.width as int, area.size.height as int);
    let d = span(width);
    let k = n / d;
    assert(d * k <= n < d * (k + 1) && (d <= n ==> k >= 1)) by (nonlinear_arith)
        requires
            k == n / d,
            d > 0,
            n >= 0,
    ;
    assert(k <= 1 ==> d * (k + 1) <= d * 2) by (nonlinear_arith)
        requires
            d > 0,
    ;
    assert(d * 1 == d);
}

/// A code that fits is centred: what is left over on an axis is shared out
/// evenly, with an odd pixel on the far side.
pub proof fn law_centred(start: i32, extent: u32, side: int)
    requires
        0 <= side <= extent <= i32::MAX,
    ensures
        ({
            let near = start_for(start, extent, side) - start;
            let far = extent - side - near;
            0 <= near <= far <= near + 1
        }),
{
}

/// Drawing a code decides every pixel of its footprint, which is black where a
/// module is dark and blank elsewhere, so in all of the quiet zone; and it
/// leaves every other pixel alone.
pub proof fn law_quiet_zone(image: QrImage, before: Set<(int, int)>, x: int, y: int)
    requires
        image.drawable(),
        on_screen(x, y),
    ensures
        ({
            let after = before.difference(screen_part(image.footprint())).union(image.dark());
            if image.footprint().holds(x, y) {
                after.contains((x, y)) == image.is_dark(x, y)
            } else {
                after.contains((x, y)) == before.contains((x, y))
            }
        }),
        image.is_dark(x, y) ==> {
            let zone = QUIET_ZONE * image.pixels_per_module();
            &&& image.corner().x + zone <= x < image.corner().x + image.pixels_wide() - zone
            &&& image.corner().y + zone <= y < image.corner().y + image.pixels_wide() - zone
        },
{
    if image.is_dark(x, y) {
        let s = image.pixels_per_module() as int;
        let w = image.modules_wide() as int;
        let q = QUIET_ZONE as int;
        lemma_within(x - image.corner().x, q + image.column(x), s);
        lemma_within(y - image.corner().y, q + image.row(y), s);
        let (c, r) = (image.column(x), image.row(y));
        assert(q * s <= (q + c) * s && (q + c) * s + s <= (w + 2 * q) * s - q * s && q * s <= (q
            + r) * s && (q + r) * s + s <= (w + 2 * q) * s - q * s) by (nonlinear_arith)
            requires
                0 <= c < w,
                0 <= r < w,
                q == 4,
                s > 0,
        ;
    }
}

/// How large a code is drawn: with a border of four modules on every side it
/// spans eight more than it is wide; each module is as many pixels wide as the
/// shorter side of the area has room for, and one where it has room for none.
pub proof fn law_scale(width: u32, area: Rectangle, n: int)
    requires
        n <= area.size.width,
        n <= area.size.height,
        n == area.size.width || n == area.size.height,
    ensures
        span(width) == width + 8,
        side_for(width, area) == (width + 8) * scale_for(width, area),
        scale_for(width, area) >= 1,
        n < 2 * (width + 8) ==> scale_for(width, area) == 1,
        n >= width + 8 ==> (width + 8) * scale_for(width, area) <= n < (width + 8) * (scale_for(
            width,
            area,
        ) + 1),
{
    let d = width + 8;
    let k = n / d;
    assert(d * k <= n < d * (k + 1) && (d <= n ==> k >= 1) && (n < 2 * d ==> k <= 1))
        by (nonlinear_arith)
        requires
            k == n / d,
            d > 0,
            n >= 0,
    ;
}

/// A code that is larger than its area sticks out evenly on both sides, with an
/// odd pixel on the far side.
pub proof fn law_overhang(start: i32, extent: u32, side: int)
    requires
        extent <= side <= i32::MAX,
    ensures
        ({
            let near = start - start_for(start, extent, side);
            let far = side - extent - near;
            0 <= near <= far <= near + 1
        }),
{
}

/// Any code can be placed in any area whose coordinates and extent are not
/// enormous.
pub proof fn law_ordinary_is_placeable(width: u32, area: Rectangle)
    requires
        width <= 0x1000_0000,
        area.size.width <= 0x4000_0000,
        area.size.height <= 0x4000_0000,
        -0x3000_0000 <= area.top_left.x <= 0x3000_0000,
        -0x3000_0000 <= area.top_left.y <= 0x3000_0000,
    ensures
        placeable(width, area),
{
    let n = least(area.size.width as int, area.size.height as int);
    law_scale(width, area, n);
    let k = scale_for(width, area);
    let d = width + 8;
    assert(d * k <= 0x4000_0000) by {
        if n < d {
            assert(k == 1);
            assert(d * 1 == d);
        }
    }
    assert(d * k >= 0) by (nonlinear_arith)
        requires
            d >= 0,
            k >= 1,
    ;
}

/// What can be encoded: data whose bits can be counted and whose code, if it has
/// one, is at most 65 modules wide.
pub proof fn law_encodable(data: Seq<u8>)
    ensures
        encodable(data) <==> data.len() <= usize::MAX / 32 && (width_of(data) matches Ok(width)
            ==> width <= 65),
        countable(data.len() as int) <==> data.len() <= usize::MAX / 32,
{
}

/// Every pixel of the square of a module is dark exactly if the module is: module
/// `c` of row `r` lies four modules and `c` more to the right of the corner, and
/// as many and `r` below it.
pub proof fn law_module_square(image: QrImage, c: int, r: int, dx: int, dy: int)
    requires
        0 < image.pixels_per_module(),
        0 <= c < image.modules_wide(),
        0 <= r < image.modules_wide(),
        0 <= dx < image.pixels_per_module(),
        0 <= dy < image.pixels_per_module(),
    ensures
        ({
            let s = image.pixels_per_module() as int;
            let x = image.corner().x + (4 + c) * s + dx;
            let y = image.corner().y + (4 + r) * s + dy;
            &&& image.is_dark(x, y) <==> image.code()[r * image.modules_wide() + c]
            &&& 0 <= x < 480 && 0 <= y < 800 ==> (image.dark().contains((x, y)) <==> image.code()[r
                * image.modules_wide() + c])
        }),
{
    let s = image.pixels_per_module() as int;
    lemma_within((4 + c) * s + dx, 4 + c, s);
    lemma_within((4 + r) * s + dy, 4 + r, s);
}

/// A code covers a square of its modules and eight more, each as many pixels wide
/// as it says, from its corner on; it can be drawn exactly if that square has
/// 32-bit coordinates.
pub proof fn law_footprint(image: QrImage)
    requires
        image.wf(),
    ensures
        ({
            let side = (image.modules_wide() + 8) * image.pixels_per_module();
            &&& image.pixels_wide() == side
            &&& image.footprint().top_left == image.corner()
            &&& image.footprint().size.width == side
            &&& image.footprint().size.height == side
            &&& image.drawable() <==> {
                &&& side <= 0x7FFF_FFFF
                &&& image.corner().x + side <= 0x7FFF_FFFF
                &&& image.corner().y + side <= 0x7FFF_FFFF
            }
        }),
{
    let (w, s) = (image.modules_wide() + 8, image.pixels_per_module() as int);
    assert(w * s >= 0) by (nonlinear_arith)
        requires
            w >= 0,
            s >= 0,
    ;
}

/// The rectangles of a code are its blank square first, and then one black square
/// for each dark module and for no other, in the order of the modules.
pub proof fn law_fill_for_each_dark(image: QrImage, i: int)
    requires
        image.drawable(),
        0 <= i < image.code().len(),
    ensures
        ({
            let list = image.fill_list();
            let w = image.modules_wide() as int;
            let s = image.pixels_per_module() as int;
            let count = image.code().filter(|dark: bool| dark).len();
            let before = image.code().take(i).filter(|dark: bool| dark).len() as int;
            &&& list.len() == 1 + count
            &&& list[0] == (Fill { area: image.footprint(), on: false })
            &&& image.code()[i] ==> {
                let fill = list[1 + before];
                &&& 0 <= before < count
                &&& fill.on
                &&& fill.area.top_left.x == image.corner().x + (4 + i % w) * s
                &&& fill.area.top_left.y == image.corner().y + (4 + i / w) * s
                &&& fill.area.size.width == s
                &&& fill.area.size.height == s
            }
        }),
{
    let n = image.code().len() as int;
    image.lemma_cell(i, 0, 0);
    image.lemma_dark_count(n, i);
    assert(image.code().take(n) =~= image.code());
}

impl QrImage {
    proof fn lemma_dark_count(self, n: int, i: int)
        requires
            0 <= i,
            0 <= n <= self.code().len(),
        ensures
            self.dark_cells(n).len() == self.code().take(n).filter(|dark: bool| dark).len(),
            i < n && self.code()[i] ==> {
                let before = self.code().take(i).filter(|dark: bool| dark).len() as int;
                &&& before < self.dark_cells(n).len()
                &&& self.dark_cells(n)[before] == (Fill { area: self.cell(i), on: true })
            },
        decreases n,
    {
        reveal(Seq::filter);
        if n > 0 {
            self.lemma_dark_count(n - 1, i);
            assert(self.code().take(n).drop_last() =~= self.code().take(n - 1));
            assert(self.code().take(n).last() == self.code()[n - 1]);
        }
    }
}

/// A code that is placed in an area is that code, all of it, at the scale and the
/// place that the area gives.
pub proof fn law_placed(image: QrImage, modules: Seq<bool>, width: u32, area: Rectangle)
    requires
        image.is_placed(modules, width, area),
    ensures
        image.code() == modules,
        image.modules_wide() == width,
        image.pixels_per_module() == scale_for(width, area),
        image.pixels_wide() == side_for(width, area),
        image.corner().x == start_for(area.top_left.x, area.size.width, side_for(width, area)),
        image.corner().y == start_for(area.top_left.y, area.size.height, side_for(width, area)),
        modules.len() == width * width,
        image.wf(),
{
}

} // verus!
