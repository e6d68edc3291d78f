//! From touch reports to ink.

use vstd::prelude::*;

use crate::ft6336::Touch;
use crate::geometry::Point;
use crate::paper::{clear_area, clear_button, Ink};

verus! {

/// The touch controller already reports portrait screen coordinates, so this is
/// just a change of type.
pub fn screen_point(touch: &Touch) -> (p: Point)
    ensures
        p == (Point { x: touch.x as i32, y: touch.y as i32 }),
{
    Point { x: touch.x as i32, y: touch.y as i32 }
}

/// Where the first finger of a report is. A report that failed counts as none.
pub open spec fn finger(report: Result<Seq<Touch>, i32>) -> Option<Point> {
    match report {
        Ok(touches) => if touches.len() > 0 {
            Some(Point { x: touches[0].x as i32, y: touches[0].y as i32 })
        } else {
            None
        },
        Err(e) => None,
    }
}

/// What is remembered between two reports.
#[derive(Clone, Copy, Debug, PartialEq, Eq, Structural)]
pub struct TouchTracker {
    /// Whether a finger was down.
    pub was_down: bool,
    /// Whether the stroke under way began on the clear button, so that dragging
    /// off it does not leave a trail behind.
    pub swallow: bool,
}

impl TouchTracker {
    /// What follows from seeing a finger, or none.
    pub open spec fn seeing(self, finger: Option<Point>) -> (TouchTracker, Option<Ink>) {
        match finger {
            Some(p) => if !self.was_down && clear_area().holds(p.x as int, p.y as int) {
                (TouchTracker { was_down: true, swallow: true }, Some(Ink::Clear))
            } else if !self.swallow {
                (TouchTracker { was_down: true, swallow: false }, Some(Ink::At(p)))
            } else {
                (TouchTracker { was_down: true, swallow: true }, None)
            },
            None => if self.was_down {
                (TouchTracker { was_down: false, swallow: false }, Some(Ink::Lifted))
            } else {
                (TouchTracker { was_down: false, swallow: self.swallow }, None)
            },
        }
    }

    pub fn new() -> (t: TouchTracker)
        ensures
            t == (TouchTracker { was_down: false, swallow: false }),
    {
        TouchTracker { was_down: false, swallow: false }
    }

    /// Takes in one report, and says what to pass on. The clear button acts on
    /// the moment a finger lands, not on every report while it rests there.
    pub fn poll(&mut self, report: &Result<Vec<Touch>, i32>) -> (event: Option<Ink>)
        ensures
            (*final(self), event) == old(self).seeing(
                finger(
                    match *report {
                        Ok(touches) => Ok(touches@),
                        Err(e) => Err(e),
                    },
                ),
            ),
            final(self).was_down <==> report is Ok && report->Ok_0@.len() >= 1,
            event matches Some(Ink::At(p)) ==> report is Ok && report->Ok_0@.len() >= 1 && p.x
                == report->Ok_0@[0].x && p.y == report->Ok_0@[0].y,
            !old(self).swallow && old(self).was_down && report is Ok && report->Ok_0@.len() >= 1
                ==> event is Some && event->0 is At,
    {
        let point: Option<Point> = match report {
            Ok(touches) => if touches.len() > 0 {
                Some(screen_point(&touches[0]))
            } else {
                None
            },
            Err(_) => None,
        };
        let is_down: bool = point.is_some();
        let pressed: bool = is_down && !self.was_down;
        let released: bool = !is_down && self.was_down;
        self.was_down = is_down;
        match point {
            Some(point) => {
                if pressed && clear_button().contains(point) {
                    self.swallow = true;
                    Some(Ink::Clear)
                } else if !self.swallow {
                    Some(Ink::At(point))
                } else {
                    None
                }
            },
            None => {
                if released {
                    self.swallow = false;
                    Some(Ink::Lifted)
                } else {
                    None
                }
            },
        }
    }
}

/// What is passed on for a run of fingers seen, one after the other.
pub open spec fn passed_on(t: TouchTracker, fingers: Seq<Option<Point>>) -> Seq<Option<Ink>>
    decreases fingers.len(),
{
    if fingers.len() == 0 {
        Seq::empty()
    } else {
        let (next, event) = t.seeing(fingers[0]);
        seq![event] + passed_on(next, fingers.skip(1))
    }
}

/// Dragging off the clear button leaves no trail: until the finger is lifted,
/// nothing more is passed on.
pub proof fn law_no_trail(fingers: Seq<Option<Point>>, i: int)
    requires
        forall|k: int| 0 <= k < fingers.len() ==> #[trigger] fingers[k] is Some,
        0 <= i < fingers.len(),
    ensures
        passed_on(TouchTracker { was_down: true, swallow: true }, fingers).len() == fingers.len(),
        passed_on(TouchTracker { was_down: true, swallow: true }, fingers)[i] == None::<Ink>,
    decreases fingers.len(),
{
    let held = TouchTracker { was_down: true, swallow: true };
    let rest = fingers.skip(1);
    assert(fingers[0] is Some);
    assert(held.seeing(fingers[0]) == (held, None::<Ink>));
    assert forall|k: int| 0 <= k < rest.len() implies #[trigger] rest[k] is Some by {
        assert(rest[k] == fingers[k + 1]);
    }
    if rest.len() > 0 {
        law_no_trail(
            rest,
            if i > 0 {
                i - 1
            } else {
                0
            },
        );
    } else {
        assert(passed_on(held, rest) =~= Seq::empty());
    }
}

/// A finger that lands on the clear button clears once and is then held back; one
/// that lands elsewhere draws. Lifting is passed on exactly when a finger was
/// down, and after it a new stroke can begin.
pub proof fn law_press_and_lift(t: TouchTracker, p: Point)
    requires
        !t.was_down,
        !t.swallow,
    ensures
        clear_area().holds(p.x as int, p.y as int) ==> t.seeing(Some(p)) == (
            TouchTracker { was_down: true, swallow: true },
            Some(Ink::Clear),
        ),
        !clear_area().holds(p.x as int, p.y as int) ==> t.seeing(Some(p)) == (
            TouchTracker { was_down: true, swallow: false },
            Some(Ink::At(p)),
        ),
        t.seeing(Some(p)).0.seeing(None) == (t, Some(Ink::Lifted)),
        t.seeing(None) == (t, None::<Ink>),
{
}

/// While a finger stays down that did not land on the clear button, every report
/// of it is passed on, wherever it goes.
pub proof fn law_strokes_pass(t: TouchTracker, p: Point)
    requires
        t.was_down,
        !t.swallow,
    ensures
        t.seeing(Some(p)) == (t, Some(Ink::At(p))),
{
}

/// A report with touches in it, however many, shows the finger where the first of
/// them is. No finger is seen exactly when the report failed or is empty.
pub proof fn law_first_touch(report: Result<Seq<Touch>, i32>)
    ensures
        report matches Ok(touches) ==> touches.len() >= 1 ==> {
            &&& finger(report) is Some
            &&& finger(report)->0.x == touches[0].x
            &&& finger(report)->0.y == touches[0].y
        },
        report matches Ok(touches) ==> touches.len() == 0 ==> finger(report) is None,
        report is Err ==> finger(report) is None,
{
}

/// What a tracker makes of a report with touches in it, from where the first one
/// is: a finger that lands on the button of 80 by 56 pixels at (380, 20) clears,
/// one that is held back after landing there passes nothing on, and any other
/// draws at that very point.
pub proof fn law_report_with_touches(t: TouchTracker, touches: Seq<Touch>)
    requires
        touches.len() >= 1,
    ensures
        ({
            let (next, event) = t.seeing(finger(Ok(touches)));
            let on_button = 380 <= touches[0].x < 460 && 20 <= touches[0].y < 76;
            let landed = !t.was_down;
            let p = Point { x: touches[0].x as i32, y: touches[0].y as i32 };
            &&& next.was_down
            &&& next.swallow == (t.swallow || (landed && on_button))
            &&& event == Some(Ink::Clear) <==> landed && on_button
            &&& event == Some(Ink::At(p)) <==> !next.swallow
            &&& event is None <==> t.swallow && !(landed && on_button)
        }),
{
}

/// A failed or empty report means that no finger is down: the lift is passed on
/// exactly once, and a finger that was down is no longer held back after it.
pub proof fn law_report_without_touches(t: TouchTracker, report: Result<Seq<Touch>, i32>)
    requires
        report matches Ok(touches) ==> touches.len() == 0,
    ensures
        ({
            let (next, event) = t.seeing(finger(report));
            &&& !next.was_down
            &&& next.swallow <==> t.swallow && !t.was_down
            &&& event == Some(Ink::Lifted) <==> t.was_down
            &&& event is None <==> !t.was_down
            &&& next.seeing(finger(report)) == (next, None::<Ink>)
        }),
{
}

/// Only the first touch of a report counts: what others there are, or whether
/// there are any, changes nothing.
pub proof fn law_other_fingers_ignored(t: TouchTracker, a: Seq<Touch>, b: Seq<Touch>)
    requires
        a.len() >= 1,
        b.len() >= 1,
        a[0].x == b[0].x,
        a[0].y == b[0].y,
    ensures
        t.seeing(finger(Ok(a))) == t.seeing(finger(Ok(b))),
{
}

} // verus!
