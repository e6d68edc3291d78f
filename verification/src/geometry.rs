//! Points, sizes and axis-aligned rectangles on the pixel grid.

use vstd::prelude::*;

verus! {

/// A pixel position. `x` grows to the right, `y` downwards.
#[derive(Clone, Copy, Debug, PartialEq, Eq, Structural)]
pub struct Point {
    pub x: i32,
    pub y: i32,
}

impl Point {
    pub fn new(x: i32, y: i32) -> (p: Point)
        ensures
            p == (Point { x, y }),
    {
        Point { x, y }
    }
}

/// An extent in pixels.
#[derive(Clone, Copy, Debug, PartialEq, Eq, Structural)]
pub struct Size {
    pub width: u32,
    pub height: u32,
}

impl Size {
    pub fn new(width: u32, height: u32) -> (s: Size)
        ensures
            s == (Size { width, height }),
    {
        Size { width, height }
    }
}

/// A rectangle of pixels: its top left pixel and its extent.
#[derive(Clone, Copy, Debug, PartialEq, Eq, Structural)]
pub struct Rectangle {
    pub top_left: Point,
    pub size: Size,
}

/// The first coordinate past a run of `length` pixels that starts at `start`,
/// as far as `i32` coordinates go.
pub open spec fn run_end(start: i32, length: u32) -> int {
    let whole = start + if length <= i32::MAX {
        length as int
    } else {
        i32::MAX as int
    };
    if whole <= i32::MAX {
        whole
    } else {
        i32::MAX as int
    }
}

/// The smaller of two integers.
pub open spec fn least(a: int, b: int) -> int {
    if a <= b {
        a
    } else {
        b
    }
}

/// The larger of two integers.
pub open spec fn most(a: int, b: int) -> int {
    if a >= b {
        a
    } else {
        b
    }
}

/// `v`, moved to the nearest value of `low..=high`.
pub open spec fn clamped(v: int, low: int, high: int) -> int {
    if v < low {
        low
    } else if v > high {
        high
    } else {
        v
    }
}

/// `a / b`, rounded towards zero.
pub open spec fn quotient(a: int, b: int) -> int {
    if a >= 0 {
        a / b
    } else {
        -((-a) / b)
    }
}

impl Rectangle {
    /// Whether no pixel lies inside.
    pub open spec fn is_void(self) -> bool {
        self.size.width == 0 || self.size.height == 0
    }

    /// Whether both ends of both axes are `i32` coordinates.
    pub open spec fn representable(self) -> bool {
        &&& self.size.width <= i32::MAX
        &&& self.size.height <= i32::MAX
        &&& self.top_left.x + self.size.width <= i32::MAX
        &&& self.top_left.y + self.size.height <= i32::MAX
    }

    /// Whether the pixel `(x, y)` lies inside.
    pub open spec fn holds(self, x: int, y: int) -> bool {
        &&& self.top_left.x <= x < run_end(self.top_left.x, self.size.width)
        &&& self.top_left.y <= y < run_end(self.top_left.y, self.size.height)
    }

    /// Whether every pixel of `other` lies inside as well.
    pub open spec fn encloses(self, other: Rectangle) -> bool {
        forall|x: int, y: int| #[trigger] other.holds(x, y) ==> self.holds(x, y)
    }

    /// The smallest rectangle around two that are not void.
    pub open spec fn joined(self, other: Rectangle) -> Rectangle {
        let left = least(self.top_left.x as int, other.top_left.x as int);
        let top = least(self.top_left.y as int, other.top_left.y as int);
        let right = most(
            self.top_left.x + self.size.width,
            other.top_left.x + other.size.width,
        );
        let bottom = most(
            self.top_left.y + self.size.height,
            other.top_left.y + other.size.height,
        );
        Rectangle {
            top_left: Point { x: left as i32, y: top as i32 },
            size: Size { width: (right - left) as u32, height: (bottom - top) as u32 },
        }
    }

    pub fn new(top_left: Point, size: Size) -> (r: Rectangle)
        ensures
            r == (Rectangle { top_left, size }),
    {
        Rectangle { top_left, size }
    }

    /// The rectangle that has `a` and `b` as opposite corner pixels.
    pub fn with_corners(a: Point, b: Point) -> (r: Rectangle)
        requires
            i32::MIN < a.x - b.x <= i32::MAX,
            i32::MIN < a.y - b.y <= i32::MAX,
        ensures
            r.top_left.x == least(a.x as int, b.x as int),
            r.top_left.y == least(a.y as int, b.y as int),
            r.size.width == most(a.x as int, b.x as int) - least(a.x as int, b.x as int) + 1,
            r.size.height == most(a.y as int, b.y as int) - least(a.y as int, b.y as int) + 1,
    {
        let (left, right) = if a.x <= b.x {
            (a.x, b.x)
        } else {
            (b.x, a.x)
        };
        let (top, bottom) = if a.y <= b.y {
            (a.y, b.y)
        } else {
            (b.y, a.y)
        };
        Rectangle {
            top_left: Point { x: left, y: top },
            size: Size { width: (right - left) as u32 + 1, height: (bottom - top) as u32 + 1 },
        }
    }

    pub fn is_zero_sized(&self) -> (r: bool)
        ensures
            r == self.is_void(),
    {
        self.size.height == 0 || self.size.width == 0
    }

    /// The last pixel inside, or `None` where there is none.
    pub fn bottom_right(&self) -> (r: Option<Point>)
        requires
            self.is_void() || self.representable(),
        ensures
            self.is_void() ==> r == None::<Point>,
            !self.is_void() ==> r == Some(
                Point {
                    x: (self.top_left.x + self.size.width - 1) as i32,
                    y: (self.top_left.y + self.size.height - 1) as i32,
                },
            ),
    {
        if self.is_zero_sized() {
            None
        } else {
            Some(
                Point {
                    x: self.top_left.x + self.size.width as i32 - 1,
                    y: self.top_left.y + self.size.height as i32 - 1,
                },
            )
        }
    }

    /// Whether `point` lies inside.
    pub fn contains(&self, point: Point) -> (r: bool)
        requires
            self.is_void() || self.representable(),
        ensures
            r == self.holds(point.x as int, point.y as int),
    {
        match self.bottom_right() {
            Some(corner) => {
                point.x >= self.top_left.x && point.y >= self.top_left.y && point.x <= corner.x
                    && point.y <= corner.y
            },
            None => false,
        }
    }

    /// The middle pixel, rounded up and left where a side is even.
    pub fn center(&self) -> (p: Point)
        requires
            self.representable(),
        ensures
            p.x == self.top_left.x + (if self.size.width == 0 {
                0
            } else {
                (self.size.width - 1) / 2
            }),
            p.y == self.top_left.y + (if self.size.height == 0 {
                0
            } else {
                (self.size.height - 1) / 2
            }),
    {
        let dx: u32 = self.size.width.saturating_sub(1) / 2;
        let dy: u32 = self.size.height.saturating_sub(1) / 2;
        Point { x: self.top_left.x + dx as i32, y: self.top_left.y + dy as i32 }
    }
}

/// Where a run of pixels ends, clipped to the largest coordinate.
pub fn clipped_end(start: i32, length: u32) -> (end: i32)
    ensures
        end == run_end(start, length),
{
    let reach: i32 = if length <= i32::MAX as u32 {
        length as i32
    } else {
        i32::MAX
    };
    if start > 0 && reach > i32::MAX - start {
        i32::MAX
    } else {
        start + reach
    }
}

/// The nearest value of `low..=high` to `v`.
pub fn clamp(v: i32, low: i32, high: i32) -> (r: i32)
    requires
        low <= high,
    ensures
        r == clamped(v as int, low as int, high as int),
{
    if v < low {
        low
    } else if v > high {
        high
    } else {
        v
    }
}

/// The smaller and the larger of two integers are those two, in order.
pub proof fn law_least_and_most(a: int, b: int)
    ensures
        least(a, b) <= a,
        least(a, b) <= b,
        most(a, b) >= a,
        most(a, b) >= b,
        least(a, b) + most(a, b) == a + b,
        least(a, b) == a || least(a, b) == b,
{
}

/// Clamping gives the value of the range that is nearest: the value itself where
/// it lies inside.
pub proof fn law_clamped(v: int, low: int, high: int, other: int)
    requires
        low <= other <= high,
    ensures
        low <= clamped(v, low, high) <= high,
        v <= clamped(v, low, high) ==> clamped(v, low, high) - v <= most(other - v, v - other),
        v >= clamped(v, low, high) ==> v - clamped(v, low, high) <= most(other - v, v - other),
        low <= v <= high ==> clamped(v, low, high) == v,
{
}

/// A quotient is what whole divisors fit into the dividend, with its sign.
pub proof fn law_quotient(a: int, b: int)
    requires
        b > 0,
    ensures
        a >= 0 ==> b * quotient(a, b) <= a < b * quotient(a, b) + b,
        quotient(-a, b) == -quotient(a, b),
{
    if a >= 0 {
        vstd::arithmetic::div_mod::lemma_fundamental_div_mod(a, b);
        vstd::arithmetic::div_mod::lemma_mod_bound(a, b);
    }
    if a == 0 {
        assert(0int / b == 0) by (nonlinear_arith)
            requires
                b > 0,
        ;
    }
}

/// A run of pixels ends as many pixels after its start as it is long, or at the
/// largest coordinate if that is nearer.
pub proof fn law_run_end(start: i32, length: u32)
    ensures
        length <= 0x7FFF_FFFF && start + length <= 0x7FFF_FFFF ==> run_end(start, length) == start
            + length,
        length <= 0x7FFF_FFFF && start + length > 0x7FFF_FFFF ==> run_end(start, length)
            == 0x7FFF_FFFF,
        length > 0x7FFF_FFFF && start >= 0 ==> run_end(start, length) == 0x7FFF_FFFF,
        length > 0x7FFF_FFFF && start < 0 ==> run_end(start, length) == start + 0x7FFF_FFFF,
{
}

/// A pixel lies inside a rectangle exactly when it is at most as far right and
/// below the corner as the extent allows; where that leaves 32 bits, the run of
/// pixels ends as [`law_run_end`] says.
pub proof fn law_holds(r: Rectangle, x: int, y: int)
    ensures
        r.representable() <==> {
            &&& r.size.width <= 0x7FFF_FFFF
            &&& r.size.height <= 0x7FFF_FFFF
            &&& r.top_left.x + r.size.width <= 0x7FFF_FFFF
            &&& r.top_left.y + r.size.height <= 0x7FFF_FFFF
        },
        r.representable() ==> (r.holds(x, y) <==> 0 <= x - r.top_left.x < r.size.width && 0 <= y
            - r.top_left.y < r.size.height),
        r.holds(x, y) <==> r.top_left.x <= x < run_end(r.top_left.x, r.size.width) && r.top_left.y
            <= y < run_end(r.top_left.y, r.size.height),
        r.is_void() <==> r.size.width == 0 || r.size.height == 0,
        r.is_void() ==> !r.holds(x, y),
{
}

/// One rectangle encloses another that is not void exactly when it reaches at
/// least as far on all four sides.
pub proof fn law_encloses(a: Rectangle, b: Rectangle)
    requires
        a.representable(),
        b.representable(),
        !b.is_void(),
    ensures
        a.encloses(b) <==> {
            &&& a.top_left.x <= b.top_left.x
            &&& a.top_left.y <= b.top_left.y
            &&& b.top_left.x + b.size.width <= a.top_left.x + a.size.width
            &&& b.top_left.y + b.size.height <= a.top_left.y + a.size.height
        },
{
    let (x, y) = (b.top_left.x as int, b.top_left.y as int);
    let (v, w) = (x + b.size.width - 1, y + b.size.height - 1);
    assert(b.holds(x, y));
    assert(b.holds(v, w));
    if a.encloses(b) {
        assert(a.holds(x, y));
        assert(a.holds(v, w));
    }
}

/// The smallest rectangle around two encloses both, and every rectangle that
/// encloses both encloses it.
pub proof fn law_joined_is_smallest(a: Rectangle, b: Rectangle, other: Rectangle)
    requires
        a.representable(),
        b.representable(),
        other.representable(),
        !a.is_void(),
        !b.is_void(),
        a.top_left.x + a.size.width - b.top_left.x <= i32::MAX,
        a.top_left.y + a.size.height - b.top_left.y <= i32::MAX,
        b.top_left.x + b.size.width - a.top_left.x <= i32::MAX,
        b.top_left.y + b.size.height - a.top_left.y <= i32::MAX,
    ensures
        a.joined(b).encloses(a),
        a.joined(b).encloses(b),
        other.encloses(a) && other.encloses(b) ==> other.encloses(a.joined(b)),
        a.joined(b).representable(),
        !a.joined(b).is_void(),
{
    let whole = a.joined(b);
    law_encloses(whole, a);
    law_encloses(whole, b);
    law_encloses(other, a);
    law_encloses(other, b);
    law_encloses(other, whole);
}

/// The rectangle of two corners holds both, whichever comes first, and has them on
/// its edges.
pub proof fn law_corners(a: Point, b: Point, r: Rectangle)
    requires
        call_ensures(Rectangle::with_corners, (a, b), r),
        a.x < i32::MAX && b.x < i32::MAX && a.y < i32::MAX && b.y < i32::MAX,
    ensures
        r.top_left.x <= a.x && r.top_left.x <= b.x,
        r.top_left.x == a.x || r.top_left.x == b.x,
        r.top_left.y <= a.y && r.top_left.y <= b.y,
        r.top_left.y == a.y || r.top_left.y == b.y,
        r.top_left.x + r.size.width == a.x + b.x - r.top_left.x + 1,
        r.top_left.y + r.size.height == a.y + b.y - r.top_left.y + 1,
{
}

/// The middle of a rectangle has as many pixels on either side, or one more on the
/// right and below.
pub proof fn law_center(r: Rectangle, p: Point)
    requires
        call_ensures(Rectangle::center, (&r,), p),
        r.representable(),
        !r.is_void(),
    ensures
        ({
            let (left, above) = (p.x - r.top_left.x, p.y - r.top_left.y);
            let (right, below) = (r.size.width - 1 - left, r.size.height - 1 - above);
            &&& 0 <= left <= right <= left + 1
            &&& 0 <= above <= below <= above + 1
        }),
        r.holds(p.x as int, p.y as int),
{
}

/// The last pixel of a rectangle lies inside, and nothing to the right of it or
/// below it does.
pub proof fn law_bottom_right(r: Rectangle, corner: Option<Point>, x: int, y: int)
    requires
        call_ensures(Rectangle::bottom_right, (&r,), corner),
        r.representable(),
    ensures
        corner is None <==> r.size.width == 0 || r.size.height == 0,
        corner matches Some(p) ==> r.holds(p.x as int, p.y as int),
        corner matches Some(p) ==> x > p.x || y > p.y ==> !r.holds(x, y),
{
}

} // verus!
