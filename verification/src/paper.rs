//! Freehand drawing on the panel with its touch overlay.
//!
//! Points keep accumulating while the panel is busy and land together on the
//! next update, so that the drawing lags the finger but loses none of it. A
//! [`Session`] decides what the panel does and when; the caller carries out each
//! [`Next`] and reports the [`Event`] that came of it.

use vstd::prelude::*;

use crate::controller::{
    law_fill_lands, law_flush_lands, law_images_left_alone, law_refresh_copies, law_span_lands,
    Controller,
};
use crate::framebuffer::{
    bit_mask, bit_set, byte_index, ink_of, on_screen, screen_part, FrameBuffer, Mask, HEIGHT,
    IMAGE_BYTES, WIDTH,
};
use crate::gdeq0426t82::{
    any_marked, draw_acts, driven_current, fill_acts, graded_current, graded_previous, init_acts,
    law_graded_slots, law_span_covers, law_span_on_panel, load_acts, masks_reach, power_off_acts,
    refresh_acts, slot, span_of, Bank, Epd, Refresh,
};
use crate::geometry::{law_joined_is_smallest, Point, Rectangle, Size};
use crate::script::{contents, Act, Phase, Readiness, Script};
use crate::shapes::{
    disc, disc_box, draw_dot, draw_outline, draw_stroke, draw_text, drawn, in_reach, line_box,
    line_points, outline, strip_bit, stroke, stroke_box, strokeable, tame, text_ink, text_strip,
    LONGEST, REACH,
};
use crate::waveform;

verus! {

/// How often the touch controller is asked.
pub const POLL_INTERVAL_MS: u32 = 5;

pub const STROKE_WIDTH: u32 = 6;

/// Partial refreshes leave residue behind, so a full one has to happen
/// eventually. It waits for the pen to lift.
pub const PARTIALS_BEFORE_FULL: u32 = 120;

/// How long to leave the panel's supplies up after the last stroke.
pub const IDLE_POWER_OFF_MS: u64 = 3_000;

/// How many events a batch waits for before it takes what else is there.
pub const BATCH_WAITS: u8 = 2;

/// Frames a pixel is driven for in the pass it is drawn.
pub const HYBRID_FRAMES: u8 = 1;

/// Frames an already drawn pixel is topped up by on each later pass.
pub const HYBRID_HEAL_FRAMES: u8 = 1;

/// How many refreshes in a row a freshly drawn pixel keeps being driven for.
/// One drive mask is kept per pass.
pub const HEAL_PASSES: usize = 3;

/// Frames the flat stroke waveform drives for.
pub const FAST_LUT_FRAMES: u8 = 5;

/// Which waveform strokes are drawn with.
#[derive(Clone, Copy, Debug, PartialEq, Eq, Structural)]
pub enum Strokes {
    /// The waveform from OTP: slowest, but balanced.
    Otp,
    /// One flat phase that drives every pixel at its target.
    Flat,
    /// Fresh strokes driven hard, older ones topped up, paper left alone.
    Hybrid,
}

/// The waveform that strokes are drawn with.
pub const STROKES: Strokes = Strokes::Hybrid;

/// What the touch thread reports.
#[derive(Clone, Copy, Debug, PartialEq, Eq, Structural)]
pub enum Ink {
    /// The finger is here; join it to wherever it was last seen.
    At(Point),
    /// The finger left the glass, so the next point starts a new stroke.
    Lifted,
    /// The clear button was pressed.
    Clear,
}

/// What a batch of events asks of the panel.
#[derive(Clone, Copy, Debug, PartialEq, Eq, Structural)]
pub enum Update {
    Drawn,
    Lifted,
    Cleared,
}

impl Update {
    /// How demanding an update is.
    pub open spec fn rank(self) -> int {
        match self {
            Update::Drawn => 0,
            Update::Lifted => 1,
            Update::Cleared => 2,
        }
    }

    /// The more demanding of two updates.
    pub open spec fn or_more(self, other: Update) -> Update {
        if other.rank() >= self.rank() {
            other
        } else {
            self
        }
    }

    pub fn max(self, other: Update) -> (r: Update)
        ensures
            r == self.or_more(other),
    {
        match (self, other) {
            (Update::Cleared, _) => Update::Cleared,
            (_, Update::Cleared) => Update::Cleared,
            (Update::Lifted, _) => Update::Lifted,
            (_, Update::Lifted) => Update::Lifted,
            _ => Update::Drawn,
        }
    }
}

/// The clear button.
pub open spec fn clear_area() -> Rectangle {
    Rectangle {
        top_left: Point { x: 380, y: 20 },
        size: Size { width: 80, height: 56 },
    }
}

/// Where the clear button is.
pub fn clear_button() -> (r: Rectangle)
    ensures
        r == clear_area(),
{
    Rectangle { top_left: Point { x: 380, y: 20 }, size: Size { width: 80, height: 56 } }
}

/// The one piece of fixed furniture on the canvas: the clear button's outline
/// and its label.
pub open spec fn chrome() -> Set<(int, int)> {
    outline(clear_area(), 2).union(text_ink("clear"@, Point { x: 419, y: 54 }, 20))
}

pub fn draw_chrome(frame: &mut FrameBuffer)
    ensures
        final(frame).ink() == old(frame).ink().union(chrome()),
{
    let ghost base = frame.ink();
    let button: Rectangle = clear_button();
    draw_outline(button, 2, frame);
    let centre: Point = button.center();
    proof {
        reveal_strlit("clear");
    }
    draw_text("clear", Point { x: centre.x, y: centre.y + 7 }, 20, frame);
    assert(frame.ink() =~= base.union(chrome()));
}

/// Whether `area`, grown to also cover `by`, stays a rectangle.
pub open spec fn growable(area: Option<Rectangle>, by: Rectangle) -> bool {
    by.is_void() || {
        &&& by.representable()
        &&& match area {
            Some(a) => a.is_void() || {
                &&& a.representable()
                &&& a.top_left.x + a.size.width - by.top_left.x <= i32::MAX
                &&& a.top_left.y + a.size.height - by.top_left.y <= i32::MAX
                &&& by.top_left.x + by.size.width - a.top_left.x <= i32::MAX
                &&& by.top_left.y + by.size.height - a.top_left.y <= i32::MAX
            },
            None => true,
        }
    }
}

/// `area`, grown to also cover `by`.
pub open spec fn grown(area: Option<Rectangle>, by: Rectangle) -> Option<Rectangle> {
    if by.is_void() {
        area
    } else {
        match area {
            Some(a) => if a.is_void() {
                Some(by)
            } else {
                Some(a.joined(by))
            },
            None => Some(by),
        }
    }
}

/// Grows `area` to also cover `by`.
pub fn grow(area: &mut Option<Rectangle>, by: Rectangle)
    requires
        growable(*old(area), by),
    ensures
        *final(area) == grown(*old(area), by),
{
    let corner: Point = match by.bottom_right() {
        Some(corner) => corner,
        None => {
            return ;
        },
    };
    let whole: Rectangle = match *area {
        Some(a) => match a.bottom_right() {
            Some(far) => {
                let left: i32 = if a.top_left.x < by.top_left.x {
                    a.top_left.x
                } else {
                    by.top_left.x
                };
                let top: i32 = if a.top_left.y < by.top_left.y {
                    a.top_left.y
                } else {
                    by.top_left.y
                };
                let right: i32 = if far.x > corner.x {
                    far.x
                } else {
                    corner.x
                };
                let bottom: i32 = if far.y > corner.y {
                    far.y
                } else {
                    corner.y
                };
                Rectangle::with_corners(Point::new(left, top), Point::new(right, bottom))
            },
            None => by,
        },
        None => by,
    };
    *area = Some(whole);
}

/// Whether the pen can go on to `p`.
pub open spec fn reachable(pen: Option<Point>, p: Point) -> bool {
    match pen {
        Some(from) => strokeable(from, p),
        None => in_reach(p),
    }
}

/// What the pen draws on its way to `p`: a stroke, or a dot where it lands.
pub open spec fn trace(pen: Option<Point>, p: Point) -> Set<(int, int)> {
    match pen {
        Some(from) => stroke(from, p, STROKE_WIDTH),
        None => disc(p, STROKE_WIDTH),
    }
}

/// The box around that.
pub open spec fn trace_box(pen: Option<Point>, p: Point) -> Rectangle {
    match pen {
        Some(from) => stroke_box(from, p, STROKE_WIDTH),
        None => disc_box(p, STROKE_WIDTH),
    }
}

/// What an event asks of the panel.
pub open spec fn update_for(ink: Ink) -> Update {
    match ink {
        Ink::At(p) => Update::Drawn,
        Ink::Lifted => Update::Lifted,
        Ink::Clear => Update::Cleared,
    }
}

/// Applies an event to the canvas. Returns what the panel now needs, and the
/// region the canvas changed in.
pub fn apply(pen: &mut Option<Point>, ink: Ink, frame: &mut FrameBuffer, mask: &mut Mask) -> (r: (
    Update,
    Option<Rectangle>,
))
    requires
        ink matches Ink::At(p) ==> reachable(*old(pen), p),
    ensures
        r.0 == update_for(ink),
        match ink {
            Ink::At(p) => {
                &&& *final(pen) == Some(p)
                &&& r.1 == Some(trace_box(*old(pen), p))
                &&& tame(trace_box(*old(pen), p))
                &&& trace(*old(pen), p).subset_of(screen_part(trace_box(*old(pen), p)))
                &&& final(frame).ink() == old(frame).ink().union(trace(*old(pen), p))
                &&& final(mask).marks() == old(mask).marks().union(trace(*old(pen), p))
                &&& *old(pen) matches Some(from) ==> {
                    let line = drawn(line_points(from.x, from.y, p.x, p.y, STROKE_WIDTH));
                    let b = line_box(from.x, from.y, p.x, p.y, STROKE_WIDTH);
                    &&& final(frame).ink() == old(frame).ink().union(line)
                    &&& final(mask).marks() == old(mask).marks().union(line)
                    &&& r.1 == Some(
                        Rectangle {
                            top_left: Point { x: b.0, y: b.1 },
                            size: Size { width: b.2, height: b.3 },
                        },
                    )
                }
            },
            Ink::Lifted => {
                &&& *final(pen) == None::<Point>
                &&& r.1 == None::<Rectangle>
                &&& final(frame).ink() == old(frame).ink()
                &&& final(mask).marks() == old(mask).marks()
            },
            Ink::Clear => {
                &&& *final(pen) == None::<Point>
                &&& r.1 == None::<Rectangle>
                &&& final(frame).ink() == chrome()
                &&& final(mask).marks() == old(mask).marks()
            },
        },
{
    match ink {
        Ink::At(point) => {
            let touched: Rectangle = match *pen {
                Some(from) => draw_stroke(from, point, STROKE_WIDTH, frame, mask),
                None => draw_dot(point, STROKE_WIDTH, frame, mask),
            };
            *pen = Some(point);
            (Update::Drawn, Some(touched))
        },
        Ink::Lifted => {
            *pen = None;
            (Update::Lifted, None)
        },
        Ink::Clear => {
            *pen = None;
            frame.clear_white();
            draw_chrome(frame);
            assert(frame.ink() =~= chrome());
            (Update::Cleared, None)
        },
    }
}

/// Whether the pen can go on to `p`, for callers that have to know.
pub fn is_reachable(pen: Option<Point>, p: Point) -> (r: bool)
    ensures
        r == reachable(pen, p),
{
    let near = -REACH <= p.x && p.x <= REACH && -REACH <= p.y && p.y <= REACH;
    match pen {
        None => near,
        Some(from) => {
            if !near || from.x < -REACH || from.x > REACH || from.y < -REACH || from.y > REACH {
                return false;
            }
            let dx: i64 = p.x as i64 - from.x as i64;
            let dy: i64 = p.y as i64 - from.y as i64;
            assert(0 <= dx * dx <= 0x1000_0000_0000_0000 && 0 <= dy * dy
                <= 0x1000_0000_0000_0000) by (nonlinear_arith)
                requires
                    -0x4000_0000 <= dx <= 0x4000_0000,
                    -0x4000_0000 <= dy <= 0x4000_0000,
            ;
            assert(LONGEST as i64 * LONGEST as i64 == LONGEST * LONGEST);
            dx * dx + dy * dy <= LONGEST as i64 * LONGEST as i64
        },
    }
}

// The session.

/// A call of the panel's driver.
#[derive(Clone, Copy, Debug, PartialEq, Eq, Structural)]
pub enum Call {
    Init,
    /// Fills both banks with a byte.
    Fill(u8),
    /// Writes the whole canvas.
    Flush(Bank),
    /// Writes an area of both banks, fresh and healing strokes apart.
    FlushGraded(Rectangle),
    Refresh(Refresh),
    /// Writes the waveform of strokes, which a full refresh replaces.
    LoadStrokeLut,
    PowerOff,
}

/// What the caller has to do next.
#[derive(Clone, Copy, Debug, PartialEq, Eq, Structural)]
pub enum Next {
    /// Carry out this call, then report [`Event::Done`].
    Panel(Call),
    /// Wait for ink, at most this many milliseconds.
    WaitFor(u64),
    /// Wait for ink however long it takes.
    Wait,
    /// Take ink if there is some.
    Take,
    /// The touch thread is gone: the session is over.
    Stop,
}

/// What came of the last [`Next`].
#[derive(Clone, Copy, Debug, PartialEq, Eq, Structural)]
pub enum Event {
    /// The call was carried out.
    Done,
    /// This ink was there.
    Heard(Ink),
    /// There was none in time.
    TimedOut,
    /// There is none now.
    Nothing,
    /// There will be none any more.
    Gone,
}

/// Where a session stands.
#[derive(Clone, Copy, Debug, PartialEq, Eq, Structural)]
pub enum Stage {
    /// Carrying out this call of the setup.
    Setup(u8),
    /// Waiting for this many more events of a batch.
    Collect(u8),
    /// As [`Stage::Collect`], but dropping the panel's supplies first.
    PoweringOff(u8),
    /// As [`Stage::Collect`], with the supplies down.
    Asleep(u8),
    /// Taking what else is there.
    Drain,
    /// Carrying out this call of a full update.
    Full(u8),
    /// Carrying out this call of a partial update of an area.
    Partial(u8, Rectangle),
    Stopped,
}

/// The calls of the setup.
pub open spec fn setup_calls() -> Seq<Call> {
    seq![
        Call::Init,
        Call::Fill(0xFF),
        Call::Refresh(Refresh::Full),
        Call::Flush(Bank::Both),
        Call::Refresh(Refresh::Full),
        Call::LoadStrokeLut,
    ]
}

/// The calls of a full update.
pub open spec fn full_calls() -> Seq<Call> {
    seq![Call::Flush(Bank::Both), Call::Refresh(Refresh::Full), Call::LoadStrokeLut]
}

/// How strokes are refreshed.
pub open spec fn stroke_refresh(strokes: Strokes) -> Refresh {
    match strokes {
        Strokes::Otp => Refresh::Partial,
        Strokes::Flat => Refresh::PartialFast,
        Strokes::Hybrid => Refresh::PartialHybrid,
    }
}

/// The calls of a partial update.
pub open spec fn partial_calls(strokes: Strokes, area: Rectangle) -> Seq<Call> {
    seq![
        if strokes == Strokes::Hybrid {
            Call::FlushGraded(area)
        } else {
            Call::Flush(Bank::Current)
        },
        Call::Refresh(stroke_refresh(strokes)),
    ]
}

/// The region around all of `covered`.
pub open spec fn region_of(covered: Seq<Option<Rectangle>>) -> Option<Rectangle>
    decreases covered.len(),
{
    if covered.len() == 0 {
        None
    } else {
        match covered.last() {
            Some(area) => grown(region_of(covered.drop_last()), area),
            None => region_of(covered.drop_last()),
        }
    }
}

/// A session, for contracts.
#[verifier::ext_equal]
pub struct Model {
    /// What is black on the canvas.
    pub ink: Set<(int, int)>,
    /// What each drive mask marks.
    pub marks: Seq<Set<(int, int)>>,
    /// The area each drive mask is confined to.
    pub covered: Seq<Option<Rectangle>>,
    /// The mask of the pass that is being drawn.
    pub newest: int,
    /// Where the finger was last seen.
    pub pen: Option<Point>,
    /// Partial refreshes since the last full one.
    pub partials: int,
    /// What the batch asks for so far.
    pub wants: Update,
    pub strokes: Strokes,
    pub stage: Stage,
}

/// A session that starts: the canvas is bare but for its furniture.
pub open spec fn opening(strokes: Strokes) -> Model {
    Model {
        ink: chrome(),
        marks: Seq::new(HEAL_PASSES as nat, |i: int| Set::empty()),
        covered: Seq::new(HEAL_PASSES as nat, |i: int| None),
        newest: 0,
        pen: None,
        partials: 0,
        wants: Update::Drawn,
        strokes,
        stage: Stage::Setup(0),
    }
}

impl Model {
    /// Whether an event can come of what was asked for.
    pub open spec fn expects(self, event: Event) -> bool {
        &&& match self.stage {
            Stage::Setup(k) => event == Event::Done,
            Stage::PoweringOff(left) => event == Event::Done,
            Stage::Full(k) => event == Event::Done,
            Stage::Partial(k, area) => event == Event::Done,
            Stage::Collect(left) => event is Heard || event is TimedOut || event is Gone,
            Stage::Asleep(left) => event is Heard || event is Gone,
            Stage::Drain => event is Heard || event is Nothing || event is Gone,
            Stage::Stopped => false,
        }
        &&& event matches Event::Heard(Ink::At(p)) ==> reachable(self.pen, p)
    }

    /// Takes in one event.
    pub open spec fn after_ink(self, ink: Ink) -> Model {
        let kept = Model { pen: None, wants: self.wants.or_more(update_for(ink)), ..self };
        match ink {
            Ink::At(p) => Model {
                ink: self.ink.union(trace(self.pen, p)),
                marks: self.marks.update(
                    self.newest,
                    self.marks[self.newest].union(trace(self.pen, p)),
                ),
                covered: self.covered.update(
                    self.newest,
                    grown(self.covered[self.newest], trace_box(self.pen, p)),
                ),
                pen: Some(p),
                ..kept
            },
            Ink::Lifted => kept,
            Ink::Clear => Model { ink: chrome(), ..kept },
        }
    }

    /// Starts a batch.
    pub open spec fn next_batch(self) -> (Model, Next) {
        (
            Model { wants: Update::Drawn, stage: Stage::Collect(BATCH_WAITS), ..self },
            Next::WaitFor(IDLE_POWER_OFF_MS),
        )
    }

    /// Takes in one of the events that a batch waits for.
    pub open spec fn after_wait(self, left: u8, ink: Ink) -> (Model, Next) {
        if left > 1 {
            (
                Model { stage: Stage::Collect((left - 1) as u8), ..self.after_ink(ink) },
                Next::WaitFor(IDLE_POWER_OFF_MS),
            )
        } else {
            (Model { stage: Stage::Drain, ..self.after_ink(ink) }, Next::Take)
        }
    }

    /// Whether a batch ends in a full update: the canvas was cleared, or enough
    /// partial ones were made and the pen is up.
    pub open spec fn needs_full(self) -> bool {
        self.wants == Update::Cleared || (self.wants == Update::Lifted && self.partials
            >= PARTIALS_BEFORE_FULL)
    }

    /// Ends a batch.
    pub open spec fn after_batch(self) -> (Model, Next) {
        if self.needs_full() {
            (Model { stage: Stage::Full(0), ..self }, Next::Panel(full_calls()[0]))
        } else {
            match region_of(self.covered) {
                Some(area) => (
                    Model { stage: Stage::Partial(0, area), ..self },
                    Next::Panel(partial_calls(self.strokes, area)[0]),
                ),
                // Nothing on the canvas moved.
                None => self.next_batch(),
            }
        }
    }

    /// Forgets what was being driven, once a full update shows the canvas.
    pub open spec fn settled(self) -> Model {
        Model {
            marks: Seq::new(HEAL_PASSES as nat, |i: int| Set::empty()),
            covered: Seq::new(HEAL_PASSES as nat, |i: int| None),
            partials: 0,
            ..self
        }
    }

    /// Retires the oldest mask, whose pixels have been driven in every pass they
    /// are due.
    pub open spec fn retired(self) -> Model {
        let oldest = (self.newest + 1) % (HEAL_PASSES as int);
        Model {
            partials: self.partials + 1,
            newest: oldest,
            marks: self.marks.update(oldest, Set::empty()),
            covered: self.covered.update(oldest, None),
            ..self
        }
    }

    /// How a session goes on.
    pub open spec fn after(self, event: Event) -> (Model, Next) {
        match self.stage {
            Stage::Setup(k) => if k + 1 < setup_calls().len() {
                (
                    Model { stage: Stage::Setup((k + 1) as u8), ..self },
                    Next::Panel(setup_calls()[k + 1]),
                )
            } else {
                self.next_batch()
            },
            Stage::Collect(left) => match event {
                Event::Heard(ink) => self.after_wait(left, ink),
                // Drawing has actually stopped, not just paused mid-stroke.
                Event::TimedOut => (
                    Model { stage: Stage::PoweringOff(left), ..self },
                    Next::Panel(Call::PowerOff),
                ),
                _ => (Model { stage: Stage::Stopped, ..self }, Next::Stop),
            },
            Stage::PoweringOff(left) => (Model { stage: Stage::Asleep(left), ..self }, Next::Wait),
            Stage::Asleep(left) => match event {
                Event::Heard(ink) => self.after_wait(left, ink),
                _ => (Model { stage: Stage::Stopped, ..self }, Next::Stop),
            },
            Stage::Drain => match event {
                Event::Heard(ink) => (self.after_ink(ink), Next::Take),
                _ => self.after_batch(),
            },
            Stage::Full(k) => if k + 1 < full_calls().len() {
                (
                    Model { stage: Stage::Full((k + 1) as u8), ..self },
                    Next::Panel(full_calls()[k + 1]),
                )
            } else {
                self.settled().next_batch()
            },
            Stage::Partial(k, area) => if k + 1 < partial_calls(self.strokes, area).len() {
                (
                    Model { stage: Stage::Partial((k + 1) as u8, area), ..self },
                    Next::Panel(partial_calls(self.strokes, area)[k + 1]),
                )
            } else {
                self.retired().next_batch()
            },
            Stage::Stopped => (self, Next::Stop),
        }
    }

    /// The pixels of the screen that a mask may mark.
    pub open spec fn confines(self, i: int) -> Set<(int, int)> {
        match self.covered[i] {
            Some(area) => screen_part(area),
            None => Set::empty(),
        }
    }

    /// What holds of a session at every step.
    pub open spec fn wf(self) -> bool {
        &&& self.marks.len() == HEAL_PASSES
        &&& self.covered.len() == HEAL_PASSES
        &&& 0 <= self.newest < HEAL_PASSES
        &&& forall|i: int|
            0 <= i < HEAL_PASSES ==> {
                &&& (#[trigger] self.covered[i] matches Some(area) ==> tame(area))
                &&& self.marks[i].subset_of(self.confines(i))
            }
        // Unless the canvas has just been cleared, only ink is driven.
        &&& self.wants != Update::Cleared ==> forall|i: int|
            0 <= i < HEAL_PASSES ==> (#[trigger] self.marks[i]).subset_of(self.ink)
        &&& match self.stage {
            Stage::Setup(k) => k < setup_calls().len() && self.wants == Update::Drawn,
            Stage::Full(k) => k < full_calls().len() && self.needs_full(),
            Stage::Partial(k, area) => {
                &&& k < partial_calls(self.strokes, area).len()
                &&& !self.needs_full()
                &&& region_of(self.covered) == Some(area)
            },
            _ => true,
        }
    }
}

/// Every area of `covered` lies within the region around them.
pub proof fn law_region_encloses(covered: Seq<Option<Rectangle>>)
    requires
        forall|i: int|
            0 <= i < covered.len() ==> (#[trigger] covered[i] matches Some(area) ==> tame(area)),
    ensures
        match region_of(covered) {
            Some(region) => tame(region) && forall|i: int|
                0 <= i < covered.len() ==> (#[trigger] covered[i] matches Some(area)
                    ==> region.encloses(area)),
            None => forall|i: int| 0 <= i < covered.len() ==> #[trigger] covered[i] is None,
        },
    decreases covered.len(),
{
    if covered.len() > 0 {
        let front = covered.drop_last();
        assert forall|i: int| 0 <= i < front.len() implies (#[trigger] front[i] matches Some(area)
            ==> tame(area)) by {
            assert(front[i] == covered[i]);
        }
        law_region_encloses(front);
        assert(covered.last() == covered[covered.len() - 1]);
        assert forall|i: int| 0 <= i < covered.len() implies (#[trigger] covered[i] matches Some(
            area,
        ) ==> region_of(covered) matches Some(region) && region.encloses(area)) by {
            if let Some(area) = covered[i] {
                if i < front.len() {
                    assert(front[i] == covered[i]);
                }
                if let Some(last) = covered.last() {
                    law_grow_encloses(region_of(front), last);
                }
            }
        }
        if let Some(last) = covered.last() {
            law_grow_encloses(region_of(front), last);
        } else {
            assert forall|i: int| 0 <= i < covered.len() && region_of(covered) is None implies (
            #[trigger] covered[i] is None) by {
                if i < front.len() {
                    assert(front[i] == covered[i]);
                }
            }
        }
    }
}

/// Growing covers both what was covered and what is added.
pub proof fn law_grow_encloses(area: Option<Rectangle>, by: Rectangle)
    requires
        tame(by),
        area matches Some(a) ==> tame(a),
    ensures
        growable(area, by),
        grown(area, by) matches Some(g) && tame(g) && g.encloses(by) && (area matches Some(a)
            ==> g.encloses(a)),
{
}

/// A drawing session: the canvas, what is being driven, and where the session
/// stands.
pub struct Session {
    frame: FrameBuffer,
    masks: Vec<Mask>,
    covered: Vec<Option<Rectangle>>,
    newest: usize,
    pen: Option<Point>,
    partials: u32,
    wants: Update,
    strokes: Strokes,
    stage: Stage,
}

/// What each of some masks marks.
pub open spec fn marks_in(masks: Seq<Mask>) -> Seq<Set<(int, int)>> {
    Seq::new(masks.len(), |i: int| masks[i].marks())
}

impl Session {
    /// The canvas.
    pub closed spec fn canvas(self) -> FrameBuffer {
        self.frame
    }

    /// The drive masks.
    pub closed spec fn drives(self) -> Seq<Mask> {
        self.masks@
    }

    pub closed spec fn model(self) -> Model {
        Model {
            ink: self.frame.ink(),
            marks: marks_in(self.masks@),
            covered: self.covered@,
            newest: self.newest as int,
            pen: self.pen,
            partials: self.partials as int,
            wants: self.wants,
            strokes: self.strokes,
            stage: self.stage,
        }
    }

    /// The model is that of the canvas and the masks.
    pub proof fn lemma_model(self)
        ensures
            self.model().ink == self.canvas().ink(),
            self.model().marks == marks_in(self.drives()),
    {
    }

    /// A session, and the first thing to do.
    pub fn new(strokes: Strokes) -> (r: (Session, Next))
        ensures
            r.0.model() == opening(strokes),
            r.0.model().wf(),
            r.1 == Next::Panel(setup_calls()[0]),
    {
        let mut frame = FrameBuffer::new();
        draw_chrome(&mut frame);
        let mut masks: Vec<Mask> = Vec::new();
        let mut covered: Vec<Option<Rectangle>> = Vec::new();
        let mut i: usize = 0;
        while i < HEAL_PASSES
            invariant
                i <= HEAL_PASSES,
                masks@.len() == i,
                covered@.len() == i,
                forall|k: int|
                    0 <= k < i ==> (#[trigger] masks@[k]).marks() == Set::<(int, int)>::empty(),
                forall|k: int| 0 <= k < i ==> #[trigger] covered@[k] == None::<Rectangle>,
            decreases HEAL_PASSES - i,
        {
            masks.push(Mask::new());
            covered.push(None);
            i += 1;
        }
        let session = Session {
            frame,
            masks,
            covered,
            newest: 0,
            pen: None,
            partials: 0,
            wants: Update::Drawn,
            strokes,
            stage: Stage::Setup(0),
        };
        assert(session.model().ink =~= chrome());
        assert(session.model() =~= opening(strokes));
        (session, Next::Panel(Call::Init))
    }

    /// Whether ink at `p` can be taken in, for callers that have to know.
    pub fn can_reach(&self, p: Point) -> (r: bool)
        ensures
            r == reachable(self.model().pen, p),
    {
        is_reachable(self.pen, p)
    }

    /// Partial refreshes since the last full one.
    pub fn partials(&self) -> (n: u32)
        ensures
            n == self.model().partials,
    {
        self.partials
    }

    fn take_in(&mut self, ink: Ink)
        requires
            old(self).model().wf(),
            ink matches Ink::At(p) ==> reachable(old(self).model().pen, p),
        ensures
            final(self).model() == old(self).model().after_ink(ink),
            final(self).model().marks.len() == HEAL_PASSES,
            forall|i: int|
                0 <= i < HEAL_PASSES ==> {
                    &&& (#[trigger] final(self).model().covered[i] matches Some(area) ==> tame(
                        area,
                    ))
                    &&& final(self).model().marks[i].subset_of(final(self).model().confines(i))
                },
            final(self).model().wants != Update::Cleared ==> forall|i: int|
                0 <= i < HEAL_PASSES ==> (#[trigger] final(self).model().marks[i]).subset_of(
                    final(self).model().ink,
                ),
    {
        let ghost was = self.model();
        let newest: usize = self.newest;
        let (update, touched) = apply(
            &mut self.pen,
            ink,
            &mut self.frame,
            &mut self.masks[newest],
        );
        self.wants = self.wants.max(update);
        proof {
            assert(self.model().marks =~= was.after_ink(ink).marks);
        }
        if let Some(touched) = touched {
            let mut area: Option<Rectangle> = self.covered[newest];
            proof {
                assert(was.covered[newest as int] matches Some(a) ==> tame(a));
                law_grow_encloses(area, touched);
            }
            grow(&mut area, touched);
            self.covered.set(newest, area);
        }
        proof {
            let now = self.model();
            assert(now =~= was.after_ink(ink));
            assert forall|i: int| 0 <= i < HEAL_PASSES implies ({
                &&& (#[trigger] now.covered[i] matches Some(area) ==> tame(area))
                &&& now.marks[i].subset_of(now.confines(i))
            }) by {
                assert(was.covered[i] matches Some(area) ==> tame(area));
                assert(was.marks[i].subset_of(was.confines(i)));
                if i == newest {
                    if let Ink::At(p) = ink {
                        let by = trace_box(was.pen, p);
                        law_grow_encloses(was.covered[i], by);
                        let g = grown(was.covered[i], by)->0;
                        assert forall|q: (int, int)| now.marks[i].contains(q) implies screen_part(
                            g,
                        ).contains(q) by {
                            if was.marks[i].contains(q) {
                                let a = was.covered[i]->0;
                                assert(screen_part(a).contains(q));
                                assert(a.holds(q.0, q.1));
                            } else {
                                assert(trace(was.pen, p).contains(q));
                                assert(screen_part(by).contains(q));
                                assert(by.holds(q.0, q.1));
                            }
                        }
                    }
                }
            }
            if now.wants != Update::Cleared {
                assert(was.wants != Update::Cleared);
                assert(!(ink is Clear));
                assert forall|i: int| 0 <= i < HEAL_PASSES implies (
                #[trigger] now.marks[i]).subset_of(now.ink) by {
                    assert(was.marks[i].subset_of(was.ink));
                }
            }
        }
    }
}

impl Session {
    fn begin_batch(&mut self) -> (n: Next)
        ensures
            (final(self).model(), n) == old(self).model().next_batch(),
    {
        self.wants = Update::Drawn;
        self.stage = Stage::Collect(BATCH_WAITS);
        Next::WaitFor(IDLE_POWER_OFF_MS)
    }

    fn take_waited(&mut self, left: u8, ink: Ink) -> (n: Next)
        requires
            old(self).model().wf(),
            ink matches Ink::At(p) ==> reachable(old(self).model().pen, p),
        ensures
            (final(self).model(), n) == old(self).model().after_wait(left, ink),
            final(self).model().wf(),
    {
        self.take_in(ink);
        if left > 1 {
            self.stage = Stage::Collect(left - 1);
            Next::WaitFor(IDLE_POWER_OFF_MS)
        } else {
            self.stage = Stage::Drain;
            Next::Take
        }
    }

    fn region(&self) -> (r: Option<Rectangle>)
        requires
            self.model().wf(),
        ensures
            r == region_of(self.model().covered),
    {
        let mut region: Option<Rectangle> = None;
        let mut i: usize = 0;
        assert(self.covered@.take(0) =~= Seq::empty());
        while i < self.covered.len()
            invariant
                self.model().wf(),
                i <= self.covered@.len(),
                region == region_of(self.covered@.take(i as int)),
            decreases self.covered@.len() - i,
        {
            proof {
                let part = self.covered@.take(i as int);
                assert forall|k: int| 0 <= k < part.len() implies (#[trigger] part[k] matches Some(
                    area,
                ) ==> tame(area)) by {
                    assert(part[k] == self.model().covered[k]);
                }
                law_region_encloses(part);
                assert(self.covered@.take(i + 1).drop_last() =~= part);
                assert(self.covered@.take(i + 1).last() == self.model().covered[i as int]);
            }
            if let Some(area) = self.covered[i] {
                proof {
                    law_grow_encloses(region, area);
                }
                grow(&mut region, area);
            }
            i += 1;
        }
        assert(self.covered@.take(i as int) =~= self.covered@);
        region
    }

    fn end_batch(&mut self) -> (n: Next)
        requires
            old(self).model().wf(),
            old(self).stage is Drain,
        ensures
            (final(self).model(), n) == old(self).model().after_batch(),
            final(self).model().wf(),
    {
        let full: bool = match self.wants {
            Update::Cleared => true,
            Update::Lifted => self.partials >= PARTIALS_BEFORE_FULL,
            Update::Drawn => false,
        };
        if full {
            self.stage = Stage::Full(0);
            return Next::Panel(Call::Flush(Bank::Both));
        }
        match self.region() {
            Some(area) => {
                self.stage = Stage::Partial(0, area);
                if self.strokes == Strokes::Hybrid {
                    Next::Panel(Call::FlushGraded(area))
                } else {
                    Next::Panel(Call::Flush(Bank::Current))
                }
            },
            None => self.begin_batch(),
        }
    }

    fn settle(&mut self)
        requires
            old(self).model().wf(),
        ensures
            final(self).model() == old(self).model().settled(),
    {
        let ghost was = self.model();
        let mut i: usize = 0;
        while i < self.masks.len()
            invariant
                self.masks@.len() == HEAL_PASSES,
                self.covered@.len() == HEAL_PASSES,
                i <= HEAL_PASSES,
                self.frame.ink() == was.ink,
                self.newest == was.newest,
                self.pen == was.pen,
                self.partials == was.partials,
                self.wants == was.wants,
                self.strokes == was.strokes,
                self.stage == was.stage,
                forall|k: int|
                    0 <= k < i ==> (#[trigger] self.masks@[k]).marks() == Set::<
                        (int, int),
                    >::empty(),
                forall|k: int| 0 <= k < i ==> #[trigger] self.covered@[k] == None::<Rectangle>,
            decreases HEAL_PASSES - i,
        {
            self.masks[i].clear();
            self.covered.set(i, None);
            i += 1;
        }
        self.partials = 0;
        assert(self.model() =~= was.settled());
    }

    fn retire(&mut self)
        requires
            old(self).model().wf(),
            old(self).model().partials < u32::MAX,
        ensures
            final(self).model() == old(self).model().retired(),
    {
        let ghost was = self.model();
        self.partials += 1;
        self.newest = (self.newest + 1) % HEAL_PASSES;
        let newest: usize = self.newest;
        self.masks[newest].clear();
        self.covered.set(newest, None);
        assert(self.model().marks =~= was.retired().marks);
        assert(self.model() =~= was.retired());
    }

    /// Reports what came of the last [`Next`], and says what to do now.
    ///
    /// At every step only ink is driven, unless the canvas was just cleared, and
    /// every mask lies within its area.
    pub fn step(&mut self, event: Event) -> (n: Next)
        requires
            old(self).model().wf(),
            old(self).model().expects(event),
            old(self).model().stage is Partial ==> old(self).model().partials < u32::MAX,
        ensures
            (final(self).model(), n) == old(self).model().after(event),
            final(self).model().wf(),
    {
        let ghost was = self.model();
        match self.stage {
            Stage::Setup(k) => match k {
                0 => {
                    self.stage = Stage::Setup(1);
                    Next::Panel(Call::Fill(0xFF))
                },
                1 => {
                    self.stage = Stage::Setup(2);
                    Next::Panel(Call::Refresh(Refresh::Full))
                },
                2 => {
                    self.stage = Stage::Setup(3);
                    Next::Panel(Call::Flush(Bank::Both))
                },
                3 => {
                    self.stage = Stage::Setup(4);
                    Next::Panel(Call::Refresh(Refresh::Full))
                },
                4 => {
                    self.stage = Stage::Setup(5);
                    Next::Panel(Call::LoadStrokeLut)
                },
                _ => self.begin_batch(),
            },
            Stage::Collect(left) => match event {
                Event::Heard(ink) => self.take_waited(left, ink),
                Event::TimedOut => {
                    self.stage = Stage::PoweringOff(left);
                    Next::Panel(Call::PowerOff)
                },
                _ => {
                    self.stage = Stage::Stopped;
                    Next::Stop
                },
            },
            Stage::PoweringOff(left) => {
                self.stage = Stage::Asleep(left);
                Next::Wait
            },
            Stage::Asleep(left) => match event {
                Event::Heard(ink) => self.take_waited(left, ink),
                _ => {
                    self.stage = Stage::Stopped;
                    Next::Stop
                },
            },
            Stage::Drain => match event {
                Event::Heard(ink) => {
                    self.take_in(ink);
                    Next::Take
                },
                _ => self.end_batch(),
            },
            Stage::Full(k) => match k {
                0 => {
                    self.stage = Stage::Full(1);
                    Next::Panel(Call::Refresh(Refresh::Full))
                },
                1 => {
                    self.stage = Stage::Full(2);
                    Next::Panel(Call::LoadStrokeLut)
                },
                _ => {
                    self.settle();
                    self.begin_batch()
                },
            },
            Stage::Partial(k, area) => match k {
                0 => {
                    self.stage = Stage::Partial(1, area);
                    Next::Panel(
                        Call::Refresh(
                            match self.strokes {
                                Strokes::Otp => Refresh::Partial,
                                Strokes::Flat => Refresh::PartialFast,
                                Strokes::Hybrid => Refresh::PartialHybrid,
                            },
                        ),
                    )
                },
                _ => {
                    self.retire();
                    proof {
                        let now = self.model();
                        assert forall|i: int| 0 <= i < HEAL_PASSES implies ({
                            &&& (#[trigger] now.covered[i] matches Some(area) ==> tame(area))
                            &&& now.marks[i].subset_of(now.confines(i))
                            &&& now.marks[i].subset_of(now.ink)
                        }) by {
                            assert(was.covered[i] matches Some(area) ==> tame(area));
                            assert(was.marks[i].subset_of(was.confines(i)));
                            assert(was.marks[i].subset_of(was.ink));
                        }
                    }
                    self.begin_batch()
                },
            },
            Stage::Stopped => Next::Stop,
        }
    }
}

/// Loads the waveform that strokes are drawn with.
pub open spec fn stroke_lut_acts(strokes: Strokes) -> Seq<Act> {
    match strokes {
        Strokes::Otp => Seq::empty(),
        Strokes::Flat => load_acts(waveform::fast_table(FAST_LUT_FRAMES), Phase::LoadLut),
        Strokes::Hybrid => load_acts(
            waveform::graded_table(HYBRID_HEAL_FRAMES, HYBRID_FRAMES),
            Phase::LoadLut,
        ),
    }
}

/// A full refresh reloads the waveform from OTP, so that whichever custom one is
/// in use has to be written again afterwards.
pub fn load_stroke_lut(epd: &Epd, strokes: Strokes) -> (s: Script<'static>)
    ensures
        s.holds(stroke_lut_acts(strokes)),
{
    match strokes {
        Strokes::Otp => Script::new(),
        Strokes::Flat => epd.load_fast_lut(FAST_LUT_FRAMES),
        Strokes::Hybrid => epd.load_graded_lut(HYBRID_HEAL_FRAMES, HYBRID_FRAMES),
    }
}

/// The bytes of each of some masks.
pub open spec fn bytes_in(masks: Seq<Mask>) -> Seq<Seq<u8>> {
    Seq::new(masks.len(), |i: int| masks[i].bytes())
}

/// The current bank of a graded pass of a canvas and its drive masks.
pub open spec fn graded_now(canvas: FrameBuffer, drives: Seq<Mask>, newest: int) -> spec_fn(
    int,
) -> u8 {
    graded_current(canvas.bytes(), drives[newest].bytes(), bytes_in(drives.remove(newest)))
}

/// The previous bank of that pass.
pub open spec fn graded_before(canvas: FrameBuffer, drives: Seq<Mask>, newest: int) -> spec_fn(
    int,
) -> u8 {
    graded_previous(canvas.bytes(), drives[newest].bytes())
}

impl Session {
    /// What a call of the panel's driver does on the bus.
    pub open spec fn call_acts(self, call: Call, ready: Readiness) -> Seq<Act> {
        match call {
            Call::Init => init_acts(),
            Call::Fill(pattern) => fill_acts(pattern),
            Call::Flush(bank) => draw_acts(
                self.canvas().bytes(),
                0,
                0,
                WIDTH as int,
                HEIGHT as int,
                bank,
            ),
            Call::FlushGraded(area) => span_of(area).acts(
                graded_now(self.canvas(), self.drives(), self.model().newest),
                graded_before(self.canvas(), self.drives(), self.model().newest),
            ),
            Call::Refresh(mode) => refresh_acts(ready, mode),
            Call::LoadStrokeLut => stroke_lut_acts(self.model().strokes),
            Call::PowerOff => power_off_acts(),
        }
    }

    /// The bus operations of a call.
    pub fn script(&self, epd: &mut Epd, call: Call) -> (s: Script<'_>)
        requires
            self.model().wf(),
            call matches Call::FlushGraded(area) ==> area.is_void() || area.representable(),
        ensures
            s.holds(self.call_acts(call, old(epd).readiness())),
            final(epd).readiness() == (if call == Call::Init {
                Readiness { primed: false, differential: false }
            } else {
                old(epd).readiness()
            }),
    {
        match call {
            Call::Init => epd.init(),
            Call::Fill(pattern) => epd.fill(pattern),
            Call::Flush(bank) => self.frame.flush(epd, bank),
            Call::FlushGraded(area) => {
                proof {
                    law_span_on_panel(area);
                }
                let older: Vec<&[u8]> = self.older();
                let fresh: &[u8] = self.masks[self.newest].as_bytes();
                epd.flush_graded_area(self.frame.as_bytes(), fresh, older, area)
            },
            Call::Refresh(mode) => epd.refresh(mode),
            Call::LoadStrokeLut => load_stroke_lut(epd, self.strokes),
            Call::PowerOff => epd.power_off(),
        }
    }

    /// The masks that are still healing.
    fn older(&self) -> (older: Vec<&[u8]>)
        requires
            self.model().wf(),
        ensures
            contents(older@) == bytes_in(self.drives().remove(self.model().newest)),
            masks_reach(older@, IMAGE_BYTES as int),
    {
        let mut older: Vec<&[u8]> = Vec::new();
        let mut i: usize = 0;
        let ghost rest = self.masks@.remove(self.newest as int);
        while i < self.masks.len()
            invariant
                self.masks@.len() == HEAL_PASSES,
                self.newest < HEAL_PASSES,
                rest == self.masks@.remove(self.newest as int),
                i <= HEAL_PASSES,
                older@.len() == (if i <= self.newest {
                    i as int
                } else {
                    i - 1
                }),
                forall|k: int| 0 <= k < older@.len() ==> (#[trigger] older@[k])@ == rest[k].bytes(),
                masks_reach(older@, IMAGE_BYTES as int),
            decreases HEAL_PASSES - i,
        {
            if i != self.newest {
                older.push(self.masks[i].as_bytes());
            }
            i += 1;
        }
        assert(contents(older@) =~= bytes_in(rest));
        older
    }

    /// The canvas, for showing it elsewhere.
    pub fn frame(&self) -> (f: &FrameBuffer)
        ensures
            *f == self.canvas(),
    {
        &self.frame
    }
}

// Laws.

/// In a partial update of hybrid strokes, all in one pass: what was drawn since
/// the last one is driven hard, what is still healing is topped up, and
/// everything else is held. Every driven pixel is in the part that is written.
pub proof fn law_one_pass(session: Session, k: u8, area: Rectangle, x: int, y: int)
    requires
        session.model().wf(),
        session.model().stage == Stage::Partial(k, area),
        on_screen(x, y),
    ensures
        ({
            let m = session.model();
            let fresh = m.marks[m.newest].contains((x, y));
            let healing = exists|i: int|
                0 <= i < HEAL_PASSES && i != m.newest && (#[trigger] m.marks[i]).contains((x, y));
            let s = slot(
                graded_before(session.canvas(), session.drives(), m.newest)(byte_index(x, y)),
                graded_now(session.canvas(), session.drives(), m.newest)(byte_index(x, y)),
                bit_mask(y),
            );
            &&& s == (if fresh {
                2int
            } else if healing {
                1int
            } else if m.ink.contains((x, y)) {
                0int
            } else {
                3int
            })
            &&& fresh || healing ==> {
                &&& span_of(area).x0 <= x < span_of(area).x1
                &&& span_of(area).y0 <= y < span_of(area).y1
            }
        }),
{
    let m = session.model();
    let p = (x, y);
    let drives = session.drives();
    let rest = drives.remove(m.newest);
    let older = bytes_in(rest);
    let j = byte_index(x, y);
    session.lemma_model();
    law_graded_slots(session.canvas().bytes(), drives[m.newest].bytes(), older, x, y);
    law_region_encloses(m.covered);
    assert(m.marks[m.newest].contains(p) == bit_set(drives[m.newest].bytes(), x, y));
    let healing = exists|i: int|
        0 <= i < HEAL_PASSES && i != m.newest && (#[trigger] m.marks[i]).contains(p);
    if any_marked(older, j, bit_mask(y)) {
        let i = choose|i: int|
            0 <= i < older.len() && (#[trigger] older[i])[j] & bit_mask(y) != 0;
        let at = if i < m.newest {
            i
        } else {
            i + 1
        };
        assert(rest[i] == drives[at]);
        assert(m.marks[at].contains(p));
    }
    if healing {
        let i = choose|i: int|
            0 <= i < HEAL_PASSES && i != m.newest && (#[trigger] m.marks[i]).contains(p);
        let at = if i < m.newest {
            i
        } else {
            i - 1
        };
        assert(rest[at] == drives[i]);
        assert(older[at][j] & bit_mask(y) != 0);
        assert(m.marks[i].subset_of(m.confines(i)));
        assert(m.covered[i] is Some);
        assert(area.encloses(m.covered[i]->0));
        assert((m.covered[i]->0).holds(x, y));
        law_span_covers(area, x, y, driven_current(Seq::empty()));
    }
    if m.marks[m.newest].contains(p) {
        let i = m.newest;
        assert(m.marks[i].subset_of(m.confines(i)));
        assert(m.covered[i] is Some);
        assert(area.encloses(m.covered[i]->0));
        assert((m.covered[i]->0).holds(x, y));
        law_span_covers(area, x, y, driven_current(Seq::empty()));
    }
}

/// The same on the panel, anywhere on the screen: once such an update is written,
/// the controller's two images present what was drawn since the last one as fresh,
/// what is still healing as healing, and every other pixel as unchanged, so that it
/// is held. What lies outside the written part is as it was.
pub proof fn law_pass_lands(
    session: Session,
    m: Controller,
    area: Rectangle,
    ready: Readiness,
    x: int,
    y: int,
)
    requires
        session.model().wf(),
        session.model().stage == Stage::Partial(0, area),
        session.model().agrees(m),
        on_screen(x, y),
    ensures
        ({
            let s = session.model();
            let after = m.saw_all(session.call_acts(Call::FlushGraded(area), ready));
            let j = byte_index(x, y);
            let fresh = s.marks[s.newest].contains((x, y));
            let healing = exists|i: int|
                0 <= i < HEAL_PASSES && i != s.newest && (#[trigger] s.marks[i]).contains((x, y));
            let written = span_of(area).x0 <= x < span_of(area).x1 && span_of(area).y0 <= y
                < span_of(area).y1;
            let lut = slot(after.previous[j], after.current[j], bit_mask(y));
            &&& fresh ==> lut == 2
            &&& healing && !fresh ==> lut == 1
            &&& !fresh && !healing ==> lut == 0 || lut == 3
            &&& !fresh && !healing && written ==> lut == (if s.ink.contains((x, y)) {
                0int
            } else {
                3int
            })
            &&& fresh || healing ==> written
            &&& !written ==> after.previous[j] == m.previous[j] && after.current[j] == m.current[j]
        }),
{
    law_one_pass(session, 0, area, x, y);
    law_span_lands(
        m,
        area,
        graded_now(session.canvas(), session.drives(), session.model().newest),
        graded_before(session.canvas(), session.drives(), session.model().newest),
        x,
        y,
    );
}

impl Model {
    /// The call of the panel's driver that is being carried out.
    pub open spec fn pending(self) -> Option<Call> {
        match self.stage {
            Stage::Setup(k) => Some(setup_calls()[k as int]),
            Stage::PoweringOff(left) => Some(Call::PowerOff),
            Stage::Full(k) => Some(full_calls()[k as int]),
            Stage::Partial(k, area) => Some(partial_calls(self.strokes, area)[k as int]),
            _ => None,
        }
    }

    /// What holds of the controller's images: they agree, except before the setup
    /// has filled them, and between writing and refreshing a partial update.
    pub open spec fn agrees(self, m: Controller) -> bool {
        m.whole() && match self.stage {
            Stage::Setup(k) => k >= 2 ==> m.in_step(),
            Stage::Partial(k, area) => k == 0 ==> m.in_step(),
            _ => m.in_step(),
        }
    }
}

/// A session asks for exactly the call that it then takes to be carried out.
pub proof fn law_pending(m: Model, event: Event)
    requires
        m.wf(),
        m.expects(event),
    ensures
        m.after(event).0.pending() == match m.after(event).1 {
            Next::Panel(call) => Some(call),
            _ => None,
        },
{
}

/// The controller's two images agree whenever a batch begins, and so whenever a
/// partial update is about to be written: with the waveforms that key on both
/// images, every step of a session keeps them so. A refresh in the differential
/// display mode copies the current image into the previous one, which ends the
/// drive of every pixel that is not written again.
pub proof fn law_images_agree(session: Session, m: Controller, ready: Readiness, event: Event)
    requires
        session.model().wf(),
        session.model().strokes != Strokes::Flat,
        session.canvas().bytes().len() == IMAGE_BYTES,
        session.model().agrees(m),
        session.model().expects(event),
    ensures
        session.model().after(event).0.agrees(
            match session.model().pending() {
                Some(call) => m.saw_all(session.call_acts(call, ready)),
                None => m,
            },
        ),
{
    let s = session.model();
    if let Some(call) = s.pending() {
        let after = m.saw_all(session.call_acts(call, ready));
        match call {
            Call::Init => law_images_left_alone(m, Seq::empty(), Phase::LoadLut),
            Call::Fill(pattern) => {
                law_fill_lands(m, pattern);
                assert(after.previous =~= after.current);
            },
            Call::Flush(bank) => law_flush_lands(m, session.canvas().bytes(), bank),
            Call::FlushGraded(area) => law_span_lands(
                m,
                area,
                graded_now(session.canvas(), session.drives(), s.newest),
                graded_before(session.canvas(), session.drives(), s.newest),
                0,
                0,
            ),
            Call::Refresh(mode) => law_refresh_copies(m, ready, mode),
            Call::LoadStrokeLut => law_images_left_alone(
                m,
                waveform::graded_table(HYBRID_HEAL_FRAMES, HYBRID_FRAMES),
                Phase::LoadLut,
            ),
            Call::PowerOff => law_images_left_alone(m, Seq::empty(), Phase::LoadLut),
        }
    }
}

/// The setup and every full update write the canvas into both of the controller's
/// images, so that the partial updates after it start from what is shown.
pub proof fn law_full_lands(session: Session, m: Controller, ready: Readiness)
    requires
        session.canvas().bytes().len() == IMAGE_BYTES,
        m.whole(),
    ensures
        ({
            let after = m.saw_all(session.call_acts(Call::Flush(Bank::Both), ready));
            &&& setup_calls().contains(Call::Flush(Bank::Both))
            &&& full_calls()[0] == Call::Flush(Bank::Both)
            &&& after.current == session.canvas().bytes()
            &&& after.previous == session.canvas().bytes()
            &&& ink_of(after.current) == session.model().ink
        }),
{
    session.lemma_model();
    law_flush_lands(m, session.canvas().bytes(), Bank::Both);
    assert(setup_calls()[3] == Call::Flush(Bank::Both));
    assert(ink_of(session.canvas().bytes()) =~= session.canvas().ink());
}

/// Nothing drawn is lost: as long as the canvas is not cleared, what is black
/// stays black.
pub proof fn law_ink_stays(m: Model, event: Event)
    requires
        m.expects(event),
        event != Event::Heard(Ink::Clear),
    ensures
        m.ink.subset_of(m.after(event).0.ink),
{
}

/// Where a finger is reported, the canvas is blackened and driven on the next
/// pass.
pub proof fn law_point_is_drawn(m: Model, p: Point)
    requires
        m.wf(),
        m.expects(Event::Heard(Ink::At(p))),
    ensures
        trace(m.pen, p).subset_of(m.after(Event::Heard(Ink::At(p))).0.ink),
        trace(m.pen, p).subset_of(m.after(Event::Heard(Ink::At(p))).0.marks[m.newest]),
{
}

/// The most demanding event of a batch wins, in whatever order they come: until
/// the batch is over, what it asks for never becomes less.
pub proof fn law_most_demanding_wins(m: Model, event: Event)
    requires
        m.expects(event),
        event is Heard,
    ensures
        m.after(event).0.wants.rank() >= m.wants.rank(),
        m.after(event).0.wants.rank() >= update_for(event->Heard_0).rank(),
        m.after(event).0.wants == m.wants || m.after(event).0.wants == update_for(
            event->Heard_0,
        ),
{
}

/// The panel's supplies are dropped when no ink came for as long as a batch waits,
/// and at no other time; after that, ink is waited for however long it takes.
pub proof fn law_idle_powers_off(m: Model, event: Event)
    requires
        m.wf(),
        m.expects(event),
    ensures
        (m.after(event).1 == Next::Panel(Call::PowerOff)) == (m.stage is Collect && event
            == Event::TimedOut),
        m.stage is Collect && event == Event::TimedOut ==> m.after(event).0.after(Event::Done).1
            == Next::Wait,
        m.after(event).1 matches Next::WaitFor(ms) ==> ms == IDLE_POWER_OFF_MS,
{
}

/// A batch that was asked to clear, or in which the pen lifted after enough
/// partial updates, ends in a full one; no other does.
pub proof fn law_when_full(m: Model)
    requires
        m.wf(),
        m.stage == Stage::Drain,
    ensures
        (m.after(Event::Nothing).0.stage == Stage::Full(0)) == (m.wants == Update::Cleared || (
        m.wants == Update::Lifted && m.partials >= PARTIALS_BEFORE_FULL)),
        m.after(Event::Gone) == m.after(Event::Nothing),
{
}

/// A full update ends with nothing left to drive.
pub proof fn law_full_settles(m: Model)
    requires
        m.wf(),
        m.stage == Stage::Full(2),
    ensures
        m.after(Event::Done).0.partials == 0,
        m.after(Event::Done).0.ink == m.ink,
        forall|i: int|
            0 <= i < HEAL_PASSES ==> #[trigger] m.after(Event::Done).0.marks[i] == Set::<
                (int, int),
            >::empty(),
        region_of(m.after(Event::Done).0.covered) is None,
{
    let covered = m.after(Event::Done).0.covered;
    assert forall|i: int| 0 <= i < covered.len() implies (#[trigger] covered[i] matches Some(area)
        ==> tame(area)) by {}
    law_region_encloses(covered);
    if region_of(covered) is Some {
        lemma_no_region(covered);
    }
}

proof fn lemma_no_region(covered: Seq<Option<Rectangle>>)
    requires
        forall|i: int| 0 <= i < covered.len() ==> #[trigger] covered[i] is None,
    ensures
        region_of(covered) is None,
    decreases covered.len(),
{
    if covered.len() > 0 {
        assert(covered.last() == covered[covered.len() - 1]);
        lemma_no_region(covered.drop_last());
    }
}

/// The waveform of hybrid strokes drives a pixel towards black for as many frames
/// over all its passes as a fresh one gets in each, and towards white never; what
/// is not driven is held.
pub proof fn law_stroke_drive(slot: int)
    requires
        0 <= slot < 4,
    ensures
        ({
            let ws = waveform::graded_table(HYBRID_HEAL_FRAMES, HYBRID_FRAMES);
            &&& waveform::frames_at(ws, 2, waveform::VSH1) + (HEAL_PASSES - 1)
                * waveform::frames_at(ws, 1, waveform::VSH1) == HYBRID_FRAMES * HEAL_PASSES
            &&& waveform::frames_at(ws, slot, waveform::VSL) == 0
            &&& slot == 0 || slot == 3 ==> waveform::frames_at(ws, slot, waveform::VSH1) == 0
        }),
{
    waveform::law_graded_waveform(HYBRID_HEAL_FRAMES, HYBRID_FRAMES);
}

/// A pixel is driven in the pass it is drawn and in the passes after it until
/// [`HEAL_PASSES`] are made, and then no more: retiring a mask empties it and
/// leaves the others, and after as many retirements as there are masks, what a
/// mask marked is gone from all of them.
pub proof fn law_heal_passes(m: Model)
    requires
        m.wf(),
    ensures
        ({
            let (a, b, c) = (m.retired(), m.retired().retired(), m.retired().retired().retired());
            &&& a.marks[a.newest] == Set::<(int, int)>::empty()
            &&& a.newest != m.newest && b.newest != m.newest && c.newest == m.newest
            &&& a.marks[m.newest] == m.marks[m.newest]
            &&& b.marks[m.newest] == m.marks[m.newest]
            &&& forall|i: int|
                0 <= i < HEAL_PASSES ==> #[trigger] c.marks[i] == Set::<(int, int)>::empty()
        }),
{
}

/// The pen can go anywhere within reach; from a place within reach, as far as the
/// longest stroke.
pub proof fn law_reach(from: Point, p: Point)
    ensures
        reachable(None, p) <==> -0x2000_0000 <= p.x <= 0x2000_0000 && -0x2000_0000 <= p.y
            <= 0x2000_0000,
        reachable(Some(from), p) <==> {
            let (dx, dy) = (p.x - from.x, p.y - from.y);
            &&& reachable(None, from)
            &&& reachable(None, p)
            &&& dx * dx + dy * dy <= 3_310 * 3_310
        },
{
}

/// From where it was last seen, the pen draws the line of six pixels' width that
/// joins that point to the next: every pixel of it that is on the screen, and no
/// other. The region it touches is the box of that line.
pub proof fn law_pen_draws_line(from: Point, p: Point, x: int, y: int)
    ensures
        trace(Some(from), p).contains((x, y)) <==> 0 <= x < 480 && 0 <= y < 800 && exists|i: int|
            0 <= i < line_points(from.x, from.y, p.x, p.y, 6).len() && (#[trigger] line_points(
                from.x,
                from.y,
                p.x,
                p.y,
                6,
            )[i]).0 == x && line_points(from.x, from.y, p.x, p.y, 6)[i].1 == y,
        ({
            let b = line_box(from.x, from.y, p.x, p.y, 6);
            let area = trace_box(Some(from), p);
            &&& area.top_left.x == b.0
            &&& area.top_left.y == b.1
            &&& area.size.width == b.2
            &&& area.size.height == b.3
        }),
{
}

/// Where it lands, the pen draws a dot of six pixels across: the pixels on the
/// screen whose middles are less than three pixels from the point's lower right
/// corner. The region it touches is the square around it.
pub proof fn law_pen_draws_dot(p: Point, x: int, y: int)
    requires
        reachable(None, p),
    ensures
        ({
            let (dx, dy) = (2 * (x - p.x) - 1, 2 * (y - p.y) - 1);
            trace(None, p).contains((x, y)) <==> 0 <= x < 480 && 0 <= y < 800 && dx * dx + dy * dy
                < 36
        }),
        trace_box(None, p).top_left.x == p.x - 2,
        trace_box(None, p).top_left.y == p.y - 2,
        trace_box(None, p).size.width == 6,
        trace_box(None, p).size.height == 6,
{
}

impl Model {
    /// Whether a session is waiting for ink.
    pub open spec fn listens(self) -> bool {
        self.stage is Collect || self.stage is Asleep || self.stage is Drain
    }
}

/// A session that hears of a finger blackens the canvas, and marks the newest
/// mask, in exactly the pixels of what the pen draws on its way there: the joining
/// line where the pen was down, the dot where it was not. Nothing else of the
/// canvas changes, and no other mask. The pen is then at that point.
pub proof fn law_finger_draws(m: Model, p: Point, x: int, y: int, i: int)
    requires
        m.wf(),
        m.listens(),
        0 <= i < HEAL_PASSES,
    ensures
        ({
            let after = m.after(Event::Heard(Ink::At(p))).0;
            let on = 0 <= x < 480 && 0 <= y < 800 && match m.pen {
                Some(from) => exists|j: int|
                    0 <= j < line_points(from.x, from.y, p.x, p.y, 6).len() && (
                    #[trigger] line_points(from.x, from.y, p.x, p.y, 6)[j]).0 == x && line_points(
                        from.x,
                        from.y,
                        p.x,
                        p.y,
                        6,
                    )[j].1 == y,
                None => trace(None, p).contains((x, y)),
            };
            let by = match m.pen {
                Some(from) => {
                    let b = line_box(from.x, from.y, p.x, p.y, 6);
                    Rectangle {
                        top_left: Point { x: b.0, y: b.1 },
                        size: Size { width: b.2, height: b.3 },
                    }
                },
                None => trace_box(None, p),
            };
            &&& after.ink.contains((x, y)) <==> m.ink.contains((x, y)) || on
            &&& after.marks[m.newest].contains((x, y)) <==> m.marks[m.newest].contains((x, y)) || on
            &&& after.covered[m.newest] == grown(m.covered[m.newest], by)
            &&& i != m.newest ==> after.marks[i] == m.marks[i] && after.covered[i] == m.covered[i]
            &&& after.pen == Some(p)
            &&& after.wants == m.wants
            &&& after.newest == m.newest
            &&& after.partials == m.partials
            &&& after.strokes == m.strokes
        }),
{
}

/// Successive points of one stroke are joined: whatever a session heard before,
/// after a finger at `p` and then at `q` every pixel of the line between the two
/// is black.
pub proof fn law_successive_points_joined(m: Model, p: Point, q: Point, j: int)
    requires
        m.wf(),
        m.listens(),
        0 <= j < line_points(p.x, p.y, q.x, q.y, 6).len(),
    ensures
        ({
            let after = m.after(Event::Heard(Ink::At(p))).0.after(Event::Heard(Ink::At(q))).0;
            let at = line_points(p.x, p.y, q.x, q.y, 6)[j];
            0 <= at.0 < 480 && 0 <= at.1 < 800 ==> after.ink.contains((at.0 as int, at.1 as int))
                && after.marks[m.newest].contains((at.0 as int, at.1 as int))
        }),
{
    let at = line_points(p.x, p.y, q.x, q.y, 6)[j];
    law_pen_draws_line(p, q, at.0 as int, at.1 as int);
}

/// Lifting ends the stroke, so that the next point starts a new one, and leaves
/// the canvas alone.
pub proof fn law_lift_leaves_canvas(m: Model)
    requires
        m.listens(),
    ensures
        ({
            let after = m.after(Event::Heard(Ink::Lifted)).0;
            &&& after.pen is None
            &&& after.ink == m.ink
            &&& after.marks == m.marks
            &&& after.covered == m.covered
            &&& after.newest == m.newest
            &&& after.partials == m.partials
            &&& after.wants == (if m.wants == Update::Cleared {
                Update::Cleared
            } else {
                Update::Lifted
            })
        }),
{
}

/// Clearing ends the stroke too, and leaves nothing on the canvas but the outline
/// and the label of the button. It asks for a full update, whatever else the
/// batch holds.
pub proof fn law_clear_wipes_canvas(m: Model)
    requires
        m.listens(),
    ensures
        ({
            let after = m.after(Event::Heard(Ink::Clear)).0;
            &&& after.pen is None
            &&& after.ink == chrome()
            &&& after.marks == m.marks
            &&& after.covered == m.covered
            &&& after.newest == m.newest
            &&& after.partials == m.partials
            &&& after.wants == Update::Cleared
        }),
{
}

/// What the button looks like: a frame of two pixels along the edge of 80 by 56
/// pixels at (380, 20), one of the two outside, and its label, whose baseline is
/// centred at (419, 54).
pub proof fn law_button(x: int, y: int)
    ensures
        clear_area().holds(x, y) <==> 380 <= x < 460 && 20 <= y < 76,
        ({
            let frame = 379 <= x < 461 && 19 <= y < 77 && !(381 <= x < 459 && 21 <= y < 75);
            let strip = text_strip("clear"@, 419, 32, 20);
            let label = 22 <= y < 86 && strip_bit(strip, x, y - 22);
            chrome().contains((x, y)) <==> 0 <= x < 480 && 0 <= y < 800 && (frame || label)
        }),
{
}

/// A session is told of what it asked for and of nothing else: of a call that was
/// carried out while one is, of ink while it listens, and of time running out
/// only while it waits with the supplies up.
pub proof fn law_expected_events(m: Model, p: Point)
    ensures
        m.expects(Event::Done) <==> m.pending() is Some,
        m.expects(Event::Heard(Ink::Lifted)) <==> m.listens(),
        m.expects(Event::Heard(Ink::Clear)) <==> m.listens(),
        m.expects(Event::Heard(Ink::At(p))) <==> m.listens() && reachable(m.pen, p),
        m.expects(Event::TimedOut) <==> m.stage is Collect,
        m.expects(Event::Nothing) <==> m.stage is Drain,
        m.expects(Event::Gone) <==> m.listens(),
        m.pending() is Some <==> m.stage is Setup || m.stage is PoweringOff || m.stage is Full
            || m.stage is Partial,
{
}

/// How a batch goes: it waits for two events, at most three seconds for each
/// while the supplies are up, and then takes what else is there, however much,
/// until there is nothing.
pub proof fn law_batch_goes_on(m: Model, left: u8, ink: Ink)
    ensures
        m.stage == Stage::Collect(left) || m.stage == Stage::Asleep(left) ==> left >= 2 ==> {
            &&& m.after(Event::Heard(ink)).0.stage == Stage::Collect((left - 1) as u8)
            &&& m.after(Event::Heard(ink)).1 == Next::WaitFor(3_000)
        },
        m.stage == Stage::Collect(left) || m.stage == Stage::Asleep(left) ==> left <= 1 ==> {
            &&& m.after(Event::Heard(ink)).0.stage == Stage::Drain
            &&& m.after(Event::Heard(ink)).1 == Next::Take
        },
        m.stage == Stage::Drain ==> {
            &&& m.after(Event::Heard(ink)).0.stage == Stage::Drain
            &&& m.after(Event::Heard(ink)).1 == Next::Take
        },
        m.next_batch().0 == (Model { stage: Stage::Collect(2), wants: Update::Drawn, ..m }),
        m.stage == Stage::Collect(left) ==> {
            let (off, call) = m.after(Event::TimedOut);
            &&& call == Next::Panel(Call::PowerOff)
            &&& off.after(Event::Done).0.stage == Stage::Asleep(left)
            &&& off.after(Event::Done).1 == Next::Wait
            &&& off.after(Event::Done).0 == (Model { stage: Stage::Asleep(left), ..m })
        },
        m.stage is Collect || m.stage is Asleep ==> {
            &&& m.after(Event::Gone).1 == Next::Stop
            &&& m.after(Event::Gone).0 == (Model { stage: Stage::Stopped, ..m })
        },
{
}

/// How a batch ends: in a full update where one is due, else in a partial one of
/// the smallest region around all that the masks cover, or, where they cover
/// nothing, in the next batch. Neither the canvas nor a mask changes by that.
pub proof fn law_batch_ends(m: Model, i: int, other: Rectangle)
    requires
        m.wf(),
        m.stage == Stage::Drain,
        0 <= i < HEAL_PASSES,
        other.representable(),
    ensures
        ({
            let (after, next) = m.after(Event::Nothing);
            let full = m.wants == Update::Cleared || (m.wants == Update::Lifted && m.partials
                >= 120);
            &&& after.ink == m.ink
            &&& after.marks == m.marks
            &&& after.covered == m.covered
            &&& after.pen == m.pen
            &&& after.newest == m.newest
            &&& after.partials == m.partials
            &&& after.strokes == m.strokes
            &&& full ==> after.stage == Stage::Full(0) && after.wants == m.wants && next
                == Next::Panel(Call::Flush(Bank::Both))
            &&& !full ==> match after.stage {
                Stage::Partial(k, area) => {
                    &&& k == 0
                    &&& after.wants == m.wants
                    &&& next == Next::Panel(
                        if m.strokes == Strokes::Hybrid {
                            Call::FlushGraded(area)
                        } else {
                            Call::Flush(Bank::Current)
                        },
                    )
                    &&& m.covered[i] matches Some(a) ==> area.encloses(a)
                    &&& (forall|j: int|
                        0 <= j < HEAL_PASSES ==> (#[trigger] m.covered[j] matches Some(a)
                            ==> other.encloses(a))) ==> other.encloses(area)
                },
                _ => {
                    &&& after.stage == Stage::Collect(2)
                    &&& after.wants == Update::Drawn
                    &&& next == Next::WaitFor(3_000)
                    &&& m.covered[i] is None
                },
            }
        }),
{
    law_region_encloses(m.covered);
    law_region_is_smallest(m.covered, other);
}

/// The region around some areas is the smallest: whatever encloses all of them
/// encloses it.
pub proof fn law_region_is_smallest(covered: Seq<Option<Rectangle>>, other: Rectangle)
    requires
        other.representable(),
        forall|i: int|
            0 <= i < covered.len() ==> (#[trigger] covered[i] matches Some(area) ==> tame(area)),
    ensures
        (forall|i: int|
            0 <= i < covered.len() ==> (#[trigger] covered[i] matches Some(a) ==> other.encloses(
                a,
            ))) ==> (region_of(covered) matches Some(region) ==> other.encloses(region)),
    decreases covered.len(),
{
    if covered.len() > 0 && forall|i: int|
        0 <= i < covered.len() ==> (#[trigger] covered[i] matches Some(a) ==> other.encloses(a)) {
        let front = covered.drop_last();
        assert forall|i: int| 0 <= i < front.len() implies (#[trigger] front[i] matches Some(area)
            ==> tame(area) && other.encloses(area)) by {
            assert(front[i] == covered[i]);
        }
        law_region_encloses(front);
        law_region_is_smallest(front, other);
        assert(covered.last() == covered[covered.len() - 1]);
        if let Some(last) = covered.last() {
            law_grow_is_smallest(region_of(front), last, other);
        }
    }
}

/// Growing gives the smallest area around what was covered and what is added, and
/// adding nothing changes nothing.
pub proof fn law_grow_is_smallest(area: Option<Rectangle>, by: Rectangle, other: Rectangle)
    requires
        other.representable(),
        growable(area, by),
    ensures
        by.is_void() ==> grown(area, by) == area,
        !by.is_void() ==> {
            &&& grown(area, by) is Some
            &&& grown(area, by)->0.encloses(by)
            &&& (area matches Some(a) ==> !a.is_void() ==> grown(area, by)->0.encloses(a))
            &&& other.encloses(by) && (area matches Some(a) ==> !a.is_void() ==> other.encloses(a))
                ==> other.encloses(grown(area, by)->0)
        },
{
    if !by.is_void() {
        if let Some(a) = area {
            if !a.is_void() {
                law_joined_is_smallest(a, by, other);
            }
        }
    }
}

/// The calls of an update come one after the other: a full one writes the canvas
/// into both banks, refreshes, and writes the waveform of strokes again; a
/// partial one writes and then refreshes with the waveform of the strokes. Until
/// the last is carried out, nothing but the stage changes.
pub proof fn law_update_goes_on(m: Model, area: Rectangle)
    ensures
        m.stage == Stage::Full(0) ==> m.after(Event::Done) == (
            Model { stage: Stage::Full(1), ..m },
            Next::Panel(Call::Refresh(Refresh::Full)),
        ),
        m.stage == Stage::Full(1) ==> m.after(Event::Done) == (
            Model { stage: Stage::Full(2), ..m },
            Next::Panel(Call::LoadStrokeLut),
        ),
        m.stage == Stage::Partial(0, area) ==> m.after(Event::Done) == (
            Model { stage: Stage::Partial(1, area), ..m },
            Next::Panel(
                Call::Refresh(
                    match m.strokes {
                        Strokes::Otp => Refresh::Partial,
                        Strokes::Flat => Refresh::PartialFast,
                        Strokes::Hybrid => Refresh::PartialHybrid,
                    },
                ),
            ),
        ),
{
}

/// After either update the next batch begins: the canvas, the pen and the kind of
/// strokes are as they were. A full update has emptied all masks and starts the
/// count of partial ones anew; a partial one adds to it, and has emptied the mask
/// after the newest, which is the newest from then on, and no other.
pub proof fn law_update_ends(m: Model, area: Rectangle, i: int)
    requires
        m.wf(),
        0 <= i < 3,
        m.stage == Stage::Full(2) || m.stage == Stage::Partial(1, area),
    ensures
        ({
            let (after, next) = m.after(Event::Done);
            &&& next == Next::WaitFor(3_000)
            &&& after.stage == Stage::Collect(2)
            &&& after.wants == Update::Drawn
            &&& after.ink == m.ink
            &&& after.pen == m.pen
            &&& after.strokes == m.strokes
            &&& after.marks.len() == 3
            &&& after.covered.len() == 3
            &&& m.stage is Full ==> {
                &&& after.partials == 0
                &&& after.newest == m.newest
                &&& after.marks[i] == Set::<(int, int)>::empty()
                &&& after.covered[i] is None
            }
            &&& m.stage is Partial ==> {
                &&& after.partials == m.partials + 1
                &&& after.newest == (if m.newest == 2 {
                    0
                } else {
                    m.newest + 1
                })
                &&& i == after.newest ==> after.marks[i] == Set::<(int, int)>::empty()
                    && after.covered[i] is None
                &&& i != after.newest ==> after.marks[i] == m.marks[i] && after.covered[i]
                    == m.covered[i]
            }
        }),
{
}

/// A session begins with the button alone on its canvas, nothing to drive and the
/// pen up. Its six calls of setup come in order and then the first batch, with
/// nothing else changed.
pub proof fn law_session_opens(strokes: Strokes, m: Model)
    ensures
        ({
            let start = opening(strokes);
            &&& start.ink == chrome()
            &&& start.pen is None
            &&& start.newest == 0
            &&& start.wants == Update::Drawn
            &&& start.partials == 0
            &&& start.strokes == strokes
            &&& start.stage == Stage::Setup(0)
            &&& region_of(start.covered) is None
            &&& forall|i: int|
                0 <= i < 3 ==> #[trigger] start.marks[i] == Set::<(int, int)>::empty()
        }),
        setup_calls()[0] == Call::Init,
        m.stage == Stage::Setup(0) ==> m.after(Event::Done) == (
            Model { stage: Stage::Setup(1), ..m },
            Next::Panel(Call::Fill(0xFF)),
        ),
        m.stage == Stage::Setup(1) ==> m.after(Event::Done) == (
            Model { stage: Stage::Setup(2), ..m },
            Next::Panel(Call::Refresh(Refresh::Full)),
        ),
        m.stage == Stage::Setup(2) ==> m.after(Event::Done) == (
            Model { stage: Stage::Setup(3), ..m },
            Next::Panel(Call::Flush(Bank::Both)),
        ),
        m.stage == Stage::Setup(3) ==> m.after(Event::Done) == (
            Model { stage: Stage::Setup(4), ..m },
            Next::Panel(Call::Refresh(Refresh::Full)),
        ),
        m.stage == Stage::Setup(4) ==> m.after(Event::Done) == (
            Model { stage: Stage::Setup(5), ..m },
            Next::Panel(Call::LoadStrokeLut),
        ),
        m.stage == Stage::Setup(5) ==> m.after(Event::Done) == (
            Model { stage: Stage::Collect(2), wants: Update::Drawn, ..m },
            Next::WaitFor(3_000),
        ),
{
    lemma_no_region(opening(strokes).covered);
}

/// The more demanding of two updates: a cleared canvas beats all, and a lifted pen
/// beats a drawn stroke. What an event asks for is what it is.
pub proof fn law_update_order(a: Update, b: Update, p: Point)
    ensures
        a.or_more(b) == Update::Cleared <==> a == Update::Cleared || b == Update::Cleared,
        a.or_more(b) == Update::Drawn <==> a == Update::Drawn && b == Update::Drawn,
        a.or_more(b) == b.or_more(a),
        update_for(Ink::At(p)) == Update::Drawn,
        update_for(Ink::Lifted) == Update::Lifted,
        update_for(Ink::Clear) == Update::Cleared,
{
}

/// Each call of a session is the driver's function of that name, on the canvas
/// where it writes the canvas.
pub proof fn law_call_is_driver(
    session: Session,
    ready: Readiness,
    pattern: u8,
    bank: Bank,
    mode: Refresh,
)
    ensures
        session.call_acts(Call::Init, ready) == init_acts(),
        session.call_acts(Call::Fill(pattern), ready) == fill_acts(pattern),
        session.call_acts(Call::Flush(bank), ready) == draw_acts(
            session.canvas().bytes(),
            0,
            0,
            800,
            480,
            bank,
        ),
        session.call_acts(Call::Refresh(mode), ready) == refresh_acts(ready, mode),
        session.call_acts(Call::PowerOff, ready) == power_off_acts(),
        session.model().strokes == Strokes::Otp ==> session.call_acts(
            Call::LoadStrokeLut,
            ready,
        ).len() == 0,
        session.model().strokes == Strokes::Flat ==> session.call_acts(Call::LoadStrokeLut, ready)
            == load_acts(waveform::fast_table(5), Phase::LoadLut),
        session.model().strokes == Strokes::Hybrid ==> session.call_acts(
            Call::LoadStrokeLut,
            ready,
        ) == load_acts(waveform::graded_table(1, 1), Phase::LoadLut),
{
}

/// Only ink is driven, unless the canvas was just cleared, and each mask marks only
/// pixels of the screen in the area that it covers.
pub proof fn law_only_ink_driven(m: Model, i: int, x: int, y: int)
    requires
        m.wf(),
        0 <= i < 3,
        m.marks[i].contains((x, y)),
    ensures
        m.wants != Update::Cleared ==> m.ink.contains((x, y)),
        m.covered[i] is Some,
        m.covered[i]->0.holds(x, y),
        0 <= x < 480,
        0 <= y < 800,
{
    assert(m.covered[i] matches Some(area) ==> tame(area));
    assert(m.marks[i].subset_of(m.confines(i)));
}

/// An area can be grown by nothing, and nothing by any area with 32-bit
/// coordinates; two areas can be joined if what lies between their far edges is
/// not too much for 32 bits.
pub proof fn law_growable(a: Rectangle, by: Rectangle)
    ensures
        by.is_void() ==> growable(None, by) && growable(Some(a), by),
        by.representable() ==> growable(None, by),
        by.representable() && a.is_void() ==> growable(Some(a), by),
        by.representable() && a.representable() && {
            &&& a.top_left.x + a.size.width - by.top_left.x <= 0x7FFF_FFFF
            &&& a.top_left.y + a.size.height - by.top_left.y <= 0x7FFF_FFFF
            &&& by.top_left.x + by.size.width - a.top_left.x <= 0x7FFF_FFFF
            &&& by.top_left.y + by.size.height - a.top_left.y <= 0x7FFF_FFFF
        } ==> growable(Some(a), by),
{
}

} // verus!
