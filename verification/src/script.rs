//! Bus scripts: what a driver wants done on its pins and its SPI bus, in order.
//!
//! A driver returns a [`Script`]. The caller asks it for one [`Action`] at a
//! time, performs it, and reports the outcome when it asks for the next. A
//! script ends at the first failure, but never leaves the chip selected: a
//! transfer that failed is still followed by raising chip select.

use vstd::prelude::*;
use vstd::slice::slice_to_vec;

verus! {

/// The pins a driver sets by hand.
#[derive(Clone, Copy, Debug, PartialEq, Eq, Structural)]
pub enum Pin {
    /// Chip select, low while the bus is in use.
    Cs,
    /// Low for a command byte, high for data.
    Dc,
    /// Hardware reset, active low.
    Rst,
}

/// What the panel is busy with while it is being waited for.
#[derive(Clone, Copy, Debug, PartialEq, Eq, Structural)]
pub enum Phase {
    Reset,
    SoftwareReset,
    Refresh,
    LoadLut,
    LoadProbeLut,
    Probe,
    PowerOff,
}

impl Phase {
    /// A name for log messages.
    pub fn label(self) -> (s: &'static str)
        ensures
            s@ == match self {
                Phase::Reset => "reset"@,
                Phase::SoftwareReset => "software reset"@,
                Phase::Refresh => "refresh"@,
                Phase::LoadLut => "load lut"@,
                Phase::LoadProbeLut => "load probe lut"@,
                Phase::Probe => "probe"@,
                Phase::PowerOff => "power off"@,
            },
    {
        match self {
            Phase::Reset => "reset",
            Phase::SoftwareReset => "software reset",
            Phase::Refresh => "refresh",
            Phase::LoadLut => "load lut",
            Phase::LoadProbeLut => "load probe lut",
            Phase::Probe => "probe",
            Phase::PowerOff => "power off",
        }
    }
}

/// One step of a script, as contracts speak of it.
pub enum Act {
    /// Sets a pin to a level.
    Level(Pin, bool),
    /// Sends bytes in one transfer.
    Send(Seq<u8>),
    /// Waits without yielding.
    DelayUs(u32),
    /// Waits for the busy line to fall, at most this many milliseconds.
    WaitIdle(Phase, u32),
    /// Records whether the panel is powered up.
    Prime(bool),
    /// Records whether the panel holds the differential waveform from OTP.
    Hold(bool),
    /// Starts the clock of a refresh.
    StartTimer,
    /// Stops it.
    StopTimer,
}

impl Act {
    /// Whether the step only records something, and needs nothing of the caller.
    pub open spec fn is_note(self) -> bool {
        self is Prime || self is Hold
    }
}

/// How ready the panel is for a partial refresh.
#[derive(Clone, Copy, Debug, PartialEq, Eq, Structural)]
pub struct Readiness {
    /// Its supplies are up.
    pub primed: bool,
    /// The waveform in force is the differential one from OTP.
    pub differential: bool,
}

impl Readiness {
    /// After a step.
    pub open spec fn noting(self, act: Act) -> Readiness {
        match act {
            Act::Prime(b) => Readiness { primed: b, ..self },
            Act::Hold(b) => Readiness { differential: b, ..self },
            _ => self,
        }
    }
}

/// One step of a script, as the caller performs it.
#[derive(Debug, PartialEq, Eq)]
pub enum Action {
    Level(Pin, bool),
    Send(Vec<u8>),
    DelayUs(u32),
    WaitIdle(Phase, u32),
    StartTimer,
    StopTimer,
}

impl Action {
    /// The step that performing this action takes.
    pub open spec fn act(self) -> Act {
        match self {
            Action::Level(pin, level) => Act::Level(pin, level),
            Action::Send(bytes) => Act::Send(bytes@),
            Action::DelayUs(us) => Act::DelayUs(us),
            Action::WaitIdle(phase, ms) => Act::WaitIdle(phase, ms),
            Action::StartTimer => Act::StartTimer,
            Action::StopTimer => Act::StopTimer,
        }
    }
}

/// What a script asks for next.
#[derive(Debug, PartialEq, Eq)]
pub enum Step {
    /// Perform this and report the outcome.
    Do(Action),
    /// Everything was performed.
    Done,
    /// An action failed with this error, and the script is over.
    Failed(i32),
}

/// As [`Step`], for contracts.
pub enum Turn {
    Do(Act),
    Done,
    Failed(i32),
}

impl Step {
    pub open spec fn turn(self) -> Turn {
        match self {
            Step::Do(action) => Turn::Do(action.act()),
            Step::Done => Turn::Done,
            Step::Failed(e) => Turn::Failed(e),
        }
    }
}

/// A script under way.
pub struct Run {
    /// The steps not taken yet.
    pub todo: Seq<Act>,
    /// Whether the step taken last was a transfer.
    pub sending: bool,
    /// The error that ended the script.
    pub failure: Option<i32>,
    /// How ready the panel is.
    pub ready: Readiness,
}

/// Takes the leading steps that need nothing of the caller.
pub open spec fn settled(todo: Seq<Act>, ready: Readiness) -> (Seq<Act>, Readiness)
    decreases todo.len(),
{
    if todo.len() > 0 && todo[0].is_note() {
        settled(todo.skip(1), ready.noting(todo[0]))
    } else {
        (todo, ready)
    }
}

/// How a run goes on once the outcome of its last step is known.
pub open spec fn resumed(run: Run, last: Result<(), i32>) -> (Run, Turn) {
    match last {
        Err(e) => {
            let over = Run {
                todo: Seq::empty(),
                sending: false,
                failure: Some(e),
                ready: run.ready,
            };
            if run.sending {
                (over, Turn::Do(Act::Level(Pin::Cs, true)))
            } else {
                (over, Turn::Failed(e))
            }
        },
        Ok(()) => match run.failure {
            Some(e) => (Run { sending: false, ..run }, Turn::Failed(e)),
            None => {
                let (rest, ready) = settled(run.todo, run.ready);
                if rest.len() == 0 {
                    (Run { todo: rest, sending: false, failure: None, ready }, Turn::Done)
                } else {
                    (
                        Run {
                            todo: rest.skip(1),
                            sending: rest[0] is Send,
                            failure: None,
                            ready,
                        },
                        Turn::Do(rest[0]),
                    )
                }
            },
        },
    }
}

/// The contents of each of `masks`.
pub open spec fn contents(masks: Seq<&[u8]>) -> Seq<Seq<u8>> {
    Seq::new(masks.len(), |i: int| masks[i]@)
}

/// Byte `j` of all `masks` together.
pub open spec fn any_of(masks: Seq<Seq<u8>>, j: int) -> u8
    decreases masks.len(),
{
    if masks.len() == 0 {
        0u8
    } else {
        any_of(masks.drop_last(), j) | masks.last()[j]
    }
}

/// Where the bytes of an image transfer come from.
pub enum Source<'a> {
    /// The same byte everywhere.
    Fill(u8),
    /// An image.
    Image(&'a [u8]),
    /// An image, with the pixels of any of the masks flipped.
    Driven(&'a [u8], Vec<&'a [u8]>),
    /// An image, with the pixels flipped that are in any of the masks but not
    /// in the fresh one, which comes second.
    Healing(&'a [u8], &'a [u8], Vec<&'a [u8]>),
}

impl<'a> Source<'a> {
    /// Byte `j`.
    pub open spec fn byte(self, j: int) -> u8 {
        match self {
            Source::Fill(b) => b,
            Source::Image(image) => image@[j],
            Source::Driven(image, masks) => image@[j] ^ any_of(contents(masks@), j),
            Source::Healing(image, fresh, masks) => image@[j] ^ (any_of(contents(masks@), j)
                & !fresh@[j]),
        }
    }

    /// Whether bytes `0..n` exist.
    pub open spec fn reaches(self, n: int) -> bool {
        match self {
            Source::Fill(b) => true,
            Source::Image(image) => n <= image@.len(),
            Source::Driven(image, masks) => {
                &&& n <= image@.len()
                &&& forall|i: int| 0 <= i < masks@.len() ==> n <= #[trigger] masks@[i]@.len()
            },
            Source::Healing(image, fresh, masks) => {
                &&& n <= image@.len()
                &&& n <= fresh@.len()
                &&& forall|i: int| 0 <= i < masks@.len() ==> n <= #[trigger] masks@[i]@.len()
            },
        }
    }
}

fn any_byte(masks: &Vec<&[u8]>, j: usize) -> (b: u8)
    requires
        forall|i: int| 0 <= i < masks@.len() ==> j < #[trigger] masks@[i]@.len(),
    ensures
        b == any_of(contents(masks@), j as int),
{
    let mut acc: u8 = 0;
    let mut i: usize = 0;
    let ghost all = contents(masks@);
    while i < masks.len()
        invariant
            i <= masks@.len(),
            all == contents(masks@),
            forall|i: int| 0 <= i < masks@.len() ==> j < #[trigger] masks@[i]@.len(),
            acc == any_of(all.take(i as int), j as int),
        decreases masks@.len() - i,
    {
        let mask: &[u8] = masks[i];
        acc = acc | mask[j];
        proof {
            assert(all.take(i + 1).drop_last() =~= all.take(i as int));
        }
        i += 1;
    }
    assert(all.take(i as int) =~= all);
    acc
}

/// Transfers of one row each: row `k` is the `len` bytes of the source from
/// `start + k * stride`.
pub struct Rows<'a> {
    pub source: Source<'a>,
    pub start: usize,
    pub stride: usize,
    pub len: usize,
    pub count: usize,
}

impl<'a> Rows<'a> {
    pub open spec fn row(self, k: int) -> Seq<u8> {
        Seq::new(
            self.len as nat,
            |i: int| self.source.byte(self.start + k * self.stride + i),
        )
    }

    /// Whether every row lies inside the source.
    pub open spec fn wf(self) -> bool {
        self.count > 0 ==> {
            &&& self.start + (self.count - 1) * self.stride + self.len <= usize::MAX
            &&& self.source.reaches(self.start + (self.count - 1) * self.stride + self.len)
        }
    }

    /// All rows, in order.
    pub open spec fn all(self) -> Seq<Seq<u8>> {
        Seq::new(self.count as nat, |k: int| self.row(k))
    }

    fn fetch(&self, k: usize) -> (bytes: Vec<u8>)
        requires
            self.wf(),
            k < self.count,
        ensures
            bytes@ == self.row(k as int),
    {
        assert(0 <= k * self.stride <= (self.count - 1) * self.stride) by (nonlinear_arith)
            requires
                k < self.count,
        ;
        let at: usize = self.start + k * self.stride;
        let mut bytes: Vec<u8> = Vec::with_capacity(self.len);
        let mut i: usize = 0;
        while i < self.len
            invariant
                i <= self.len,
                bytes@.len() == i,
                at == self.start + k * self.stride,
                at + self.len <= usize::MAX,
                self.source.reaches(at + self.len),
                forall|j: int| 0 <= j < i ==> bytes@[j] == self.source.byte(at + j),
            decreases self.len - i,
        {
            let j: usize = at + i;
            let b: u8 = match &self.source {
                Source::Fill(b) => *b,
                Source::Image(image) => image[j],
                Source::Driven(image, masks) => image[j] ^ any_byte(masks, j),
                Source::Healing(image, fresh, masks) => image[j] ^ (any_byte(masks, j)
                    & !fresh[j]),
            };
            bytes.push(b);
            i += 1;
        }
        assert(bytes@ =~= self.row(k as int));
        bytes
    }
}

/// What a script is made of. Rows are worked out only as they are sent.
enum Op<'a> {
    Level(Pin, bool),
    Send(Vec<u8>),
    Rows(Rows<'a>),
    DelayUs(u32),
    WaitIdle(Phase, u32),
    Prime(bool),
    Hold(bool),
    StartTimer,
    StopTimer,
}

impl<'a> Op<'a> {
    spec fn acts(self) -> Seq<Act> {
        match self {
            Op::Level(pin, level) => seq![Act::Level(pin, level)],
            Op::Send(bytes) => seq![Act::Send(bytes@)],
            Op::Rows(rows) => sends(rows.all()),
            Op::DelayUs(us) => seq![Act::DelayUs(us)],
            Op::WaitIdle(phase, ms) => seq![Act::WaitIdle(phase, ms)],
            Op::Prime(b) => seq![Act::Prime(b)],
            Op::Hold(b) => seq![Act::Hold(b)],
            Op::StartTimer => seq![Act::StartTimer],
            Op::StopTimer => seq![Act::StopTimer],
        }
    }

    spec fn wf(self) -> bool {
        match self {
            Op::Rows(rows) => rows.wf() && rows.count > 0,
            _ => true,
        }
    }
}

/// The transfers of a list of rows.
pub open spec fn sends(rows: Seq<Seq<u8>>) -> Seq<Act> {
    Seq::new(rows.len(), |k: int| Act::Send(rows[k]))
}

/// The steps of operations `at..`.
spec fn steps_from(ops: Seq<Op<'_>>, at: int) -> Seq<Act>
    decreases ops.len() - at,
{
    if at < 0 || at >= ops.len() {
        Seq::empty()
    } else {
        ops[at].acts() + steps_from(ops, at + 1)
    }
}

proof fn lemma_steps_push(ops: Seq<Op<'_>>, op: Op<'_>, at: int)
    requires
        0 <= at <= ops.len(),
    ensures
        steps_from(ops.push(op), at) == steps_from(ops, at) + op.acts(),
    decreases ops.len() - at,
{
    if at == ops.len() {
        assert(steps_from(ops.push(op), at + 1) =~= Seq::empty());
        assert(steps_from(ops.push(op), at) =~= steps_from(ops, at) + op.acts());
    } else {
        lemma_steps_push(ops, op, at + 1);
        assert(steps_from(ops.push(op), at) =~= steps_from(ops, at) + op.acts());
    }
}

/// The steps of one driver call.
pub struct Script<'a> {
    ops: Vec<Op<'a>>,
    at: usize,
    row: usize,
    sending: bool,
    failure: Option<i32>,
}

impl<'a> Script<'a> {
    pub closed spec fn wf(self) -> bool {
        &&& self.at <= self.ops@.len()
        &&& forall|i: int| 0 <= i < self.ops@.len() ==> (#[trigger] self.ops@[i]).wf()
        &&& self.row > 0 ==> {
            &&& self.at < self.ops@.len()
            &&& self.row < self.ops@[self.at as int].acts().len()
        }
    }

    /// The steps not taken yet.
    pub closed spec fn todo(self) -> Seq<Act> {
        if self.failure is Some {
            Seq::empty()
        } else {
            steps_from(self.ops@, self.at as int).skip(self.row as int)
        }
    }

    /// Whether no step was taken yet.
    pub closed spec fn fresh(self) -> bool {
        self.at == 0 && self.row == 0 && !self.sending && self.failure is None
    }

    /// Whether the step taken last was a transfer.
    pub closed spec fn is_sending(self) -> bool {
        self.sending
    }

    /// The error that ended the script.
    pub closed spec fn error(self) -> Option<i32> {
        self.failure
    }

    /// Where the script stands, for a panel that is so ready.
    pub open spec fn run(self, ready: Readiness) -> Run {
        Run { todo: self.todo(), sending: self.is_sending(), failure: self.error(), ready }
    }

    /// A script that has not started and holds exactly `acts`.
    pub open spec fn holds(self, acts: Seq<Act>) -> bool {
        &&& self.wf()
        &&& self.fresh()
        &&& !self.is_sending()
        &&& self.error() is None
        &&& self.todo() == acts
    }

    pub(crate) fn new() -> (s: Script<'a>)
        ensures
            s.holds(Seq::empty()),
    {
        let s = Script { ops: Vec::new(), at: 0, row: 0, sending: false, failure: None };
        assert(s.todo() =~= Seq::empty());
        s
    }

    fn push(&mut self, op: Op<'a>)
        requires
            old(self).holds(old(self).todo()),
            op.wf(),
        ensures
            final(self).holds(old(self).todo() + op.acts()),
    {
        proof {
            lemma_steps_push(self.ops@, op, 0);
            assert(steps_from(self.ops@, 0).skip(0) =~= steps_from(self.ops@, 0));
        }
        self.ops.push(op);
        assert(steps_from(self.ops@, 0).skip(0) =~= steps_from(self.ops@, 0));
    }

    pub(crate) fn set(&mut self, pin: Pin, level: bool)
        requires
            old(self).holds(old(self).todo()),
        ensures
            final(self).holds(old(self).todo() + seq![Act::Level(pin, level)]),
    {
        self.push(Op::Level(pin, level));
    }

    pub(crate) fn send(&mut self, bytes: &[u8])
        requires
            old(self).holds(old(self).todo()),
        ensures
            final(self).holds(old(self).todo() + seq![Act::Send(bytes@)]),
    {
        self.push(Op::Send(slice_to_vec(bytes)));
    }

    pub(crate) fn send_rows(&mut self, rows: Rows<'a>)
        requires
            old(self).holds(old(self).todo()),
            rows.wf(),
        ensures
            final(self).holds(old(self).todo() + sends(rows.all())),
    {
        if rows.count > 0 {
            self.push(Op::Rows(rows));
        } else {
            assert(self.todo() + sends(rows.all()) =~= self.todo());
        }
    }

    pub(crate) fn delay_us(&mut self, us: u32)
        requires
            old(self).holds(old(self).todo()),
        ensures
            final(self).holds(old(self).todo() + seq![Act::DelayUs(us)]),
    {
        self.push(Op::DelayUs(us));
    }

    pub(crate) fn wait_idle(&mut self, phase: Phase, timeout_ms: u32)
        requires
            old(self).holds(old(self).todo()),
        ensures
            final(self).holds(old(self).todo() + seq![Act::WaitIdle(phase, timeout_ms)]),
    {
        self.push(Op::WaitIdle(phase, timeout_ms));
    }

    pub(crate) fn prime(&mut self, primed: bool)
        requires
            old(self).holds(old(self).todo()),
        ensures
            final(self).holds(old(self).todo() + seq![Act::Prime(primed)]),
    {
        self.push(Op::Prime(primed));
    }

    pub(crate) fn hold(&mut self, differential: bool)
        requires
            old(self).holds(old(self).todo()),
        ensures
            final(self).holds(old(self).todo() + seq![Act::Hold(differential)]),
    {
        self.push(Op::Hold(differential));
    }

    pub(crate) fn start_timer(&mut self)
        requires
            old(self).holds(old(self).todo()),
        ensures
            final(self).holds(old(self).todo() + seq![Act::StartTimer]),
    {
        self.push(Op::StartTimer);
    }

    pub(crate) fn stop_timer(&mut self)
        requires
            old(self).holds(old(self).todo()),
        ensures
            final(self).holds(old(self).todo() + seq![Act::StopTimer]),
    {
        self.push(Op::StopTimer);
    }

    /// The first step left, and what is left after it.
    proof fn lemma_head(self)
        requires
            self.wf(),
            self.failure is None,
            self.at < self.ops@.len(),
        ensures
            self.todo().len() > 0,
            self.todo()[0] == self.ops@[self.at as int].acts()[self.row as int],
            self.todo().skip(1) == (if self.row + 1 < self.ops@[self.at as int].acts().len() {
                steps_from(self.ops@, self.at as int).skip(self.row + 1)
            } else {
                steps_from(self.ops@, self.at + 1).skip(0)
            }),
    {
        let acts = self.ops@[self.at as int].acts();
        assert(self.ops@[self.at as int].wf());
        assert(acts.len() > 0);
        assert(steps_from(self.ops@, self.at as int) == acts + steps_from(
            self.ops@,
            self.at + 1,
        ));
        if self.row + 1 < acts.len() {
            assert(self.todo().skip(1) =~= steps_from(self.ops@, self.at as int).skip(
                self.row + 1,
            ));
        } else {
            assert(self.todo().skip(1) =~= steps_from(self.ops@, self.at + 1).skip(0));
        }
    }

    /// Reports how the last action went and says what comes next. The first
    /// call reports `Ok`.
    pub(crate) fn step(&mut self, ready: &mut Readiness, last: Result<(), i32>) -> (s: Step)
        requires
            old(self).wf(),
        ensures
            final(self).wf(),
            (final(self).run(*final(ready)), s.turn()) == resumed(
                old(self).run(*old(ready)),
                last,
            ),
    {
        if let Err(e) = last {
            let sending: bool = self.sending;
            self.sending = false;
            self.failure = Some(e);
            return if sending {
                Step::Do(Action::Level(Pin::Cs, true))
            } else {
                Step::Failed(e)
            };
        }
        self.sending = false;
        if let Some(e) = self.failure {
            return Step::Failed(e);
        }
        while self.at < self.ops.len()
            invariant
                self.wf(),
                self.failure is None,
                !self.sending,
                settled(self.todo(), *ready) == settled(old(self).todo(), *old(ready)),
                old(self).failure is None,
                last is Ok,
            decreases self.ops@.len() - self.at,
        {
            proof {
                self.lemma_head();
            }
            let action: Action = match &self.ops[self.at] {
                Op::Prime(b) => {
                    ready.primed = *b;
                    self.at += 1;
                    self.row = 0;
                    continue ;
                },
                Op::Hold(b) => {
                    ready.differential = *b;
                    self.at += 1;
                    self.row = 0;
                    continue ;
                },
                Op::Rows(rows) => {
                    let bytes: Vec<u8> = rows.fetch(self.row);
                    let more: bool = self.row + 1 < rows.count;
                    self.sending = true;
                    if more {
                        self.row += 1;
                    } else {
                        self.row = 0;
                        self.at += 1;
                    }
                    return Step::Do(Action::Send(bytes));
                },
                Op::Send(bytes) => {
                    let bytes: Vec<u8> = slice_to_vec(bytes.as_slice());
                    self.sending = true;
                    Action::Send(bytes)
                },
                Op::Level(pin, level) => Action::Level(*pin, *level),
                Op::DelayUs(us) => Action::DelayUs(*us),
                Op::WaitIdle(phase, ms) => Action::WaitIdle(*phase, *ms),
                Op::StartTimer => Action::StartTimer,
                Op::StopTimer => Action::StopTimer,
            };
            self.at += 1;
            self.row = 0;
            return Step::Do(action);
        }
        assert(self.todo() =~= Seq::empty());
        Step::Done
    }
}

// Laws of a run.

/// The steps the caller has to perform.
pub open spec fn deeds(todo: Seq<Act>) -> Seq<Act>
    decreases todo.len(),
{
    if todo.len() == 0 {
        Seq::empty()
    } else if todo[0].is_note() {
        deeds(todo.skip(1))
    } else {
        seq![todo[0]] + deeds(todo.skip(1))
    }
}

/// How ready the panel is once all steps are taken.
pub open spec fn left_ready(todo: Seq<Act>, ready: Readiness) -> Readiness
    decreases todo.len(),
{
    if todo.len() == 0 {
        ready
    } else {
        left_ready(todo.skip(1), ready.noting(todo[0]))
    }
}

/// Whether the chip is selected after the steps, or `None` where a transfer
/// would go out while it is not.
pub open spec fn selected_after(acts: Seq<Act>, selected: bool) -> Option<bool>
    decreases acts.len(),
{
    if acts.len() == 0 {
        Some(selected)
    } else {
        match acts[0] {
            Act::Level(Pin::Cs, level) => selected_after(acts.skip(1), !level),
            Act::Send(bytes) => if selected {
                selected_after(acts.skip(1), selected)
            } else {
                None
            },
            _ => selected_after(acts.skip(1), selected),
        }
    }
}

/// Whether the steps, taken from a released chip, transfer only while it is
/// selected and release it again.
pub open spec fn released(acts: Seq<Act>) -> bool {
    selected_after(acts, false) == Some(false)
}

proof fn lemma_settled(todo: Seq<Act>, ready: Readiness)
    ensures
        deeds(settled(todo, ready).0) == deeds(todo),
        left_ready(settled(todo, ready).0, settled(todo, ready).1) == left_ready(todo, ready),
        settled(todo, ready).0.len() > 0 ==> !settled(todo, ready).0[0].is_note(),
    decreases todo.len(),
{
    if todo.len() > 0 && todo[0].is_note() {
        lemma_settled(todo.skip(1), ready.noting(todo[0]));
    }
}

/// While nothing fails, a script hands out its steps in order, none left out
/// and none twice; once it is done the panel is as ready as its steps say.
pub proof fn law_steps_in_order(run: Run)
    requires
        run.failure is None,
    ensures
        ({
            let (next, turn) = resumed(run, Ok(()));
            &&& next.failure is None
            &&& if deeds(run.todo).len() == 0 {
                &&& turn == Turn::Done
                &&& next.ready == left_ready(run.todo, run.ready)
            } else {
                &&& turn == Turn::Do(deeds(run.todo)[0])
                &&& deeds(next.todo) == deeds(run.todo).skip(1)
                &&& left_ready(next.todo, next.ready) == left_ready(run.todo, run.ready)
                &&& next.sending == (deeds(run.todo)[0] is Send)
            }
        }),
{
    let (rest, ready) = settled(run.todo, run.ready);
    lemma_settled(run.todo, run.ready);
    if rest.len() > 0 {
        assert(deeds(rest) == seq![rest[0]] + deeds(rest.skip(1)));
        assert(deeds(rest).skip(1) =~= deeds(rest.skip(1)));
    }
}

/// A failure ends a script with its error. If it was a transfer that failed,
/// chip select is raised first; if that fails too, the later error is the one
/// reported.
pub proof fn law_failure_ends(run: Run, e: i32, later: Result<(), i32>)
    ensures
        ({
            let (next, turn) = resumed(run, Err(e));
            &&& deeds(next.todo).len() == 0
            &&& next.ready == run.ready
            &&& !run.sending ==> turn == Turn::Failed(e)
            &&& run.sending ==> {
                &&& turn == Turn::Do(Act::Level(Pin::Cs, true))
                &&& resumed(next, later).1 == Turn::Failed(
                    match later {
                        Ok(()) => e,
                        Err(f) => f,
                    },
                )
            }
        }),
{
}

/// Scripts in a row are carried out one after the other.
pub proof fn lemma_acts_join(a: Seq<Act>, b: Seq<Act>, selected: bool, ready: Readiness)
    ensures
        deeds(a + b) == deeds(a) + deeds(b),
        left_ready(a + b, ready) == left_ready(b, left_ready(a, ready)),
        selected_after(a + b, selected) == (match selected_after(a, selected) {
            Some(s) => selected_after(b, s),
            None => None,
        }),
    decreases a.len(),
{
    if a.len() == 0 {
        assert(a + b =~= b);
        assert(deeds(a) + deeds(b) =~= deeds(b));
    } else {
        assert((a + b).skip(1) =~= a.skip(1) + b);
        let s = match a[0] {
            Act::Level(Pin::Cs, level) => !level,
            _ => selected,
        };
        lemma_acts_join(a.skip(1), b, s, ready.noting(a[0]));
        assert(deeds(a + b) =~= deeds(a) + deeds(b));
    }
}

/// Only the two records of readiness are kept from the caller, and each sets its
/// own field; every other step leaves the readiness alone.
pub proof fn law_notes(act: Act, b: bool, r: Readiness)
    ensures
        act.is_note() <==> act is Prime || act is Hold,
        r.noting(Act::Prime(b)).primed == b,
        r.noting(Act::Prime(b)).differential == r.differential,
        r.noting(Act::Hold(b)).primed == r.primed,
        r.noting(Act::Hold(b)).differential == b,
        !(act is Prime) && !(act is Hold) ==> r.noting(act) == r,
{
}

/// What the caller performs is what the script says: the same pin and level, the
/// same bytes, the same times.
pub proof fn law_action_is_act(action: Action, pin: Pin, level: bool, phase: Phase, n: u32)
    ensures
        action == Action::Level(pin, level) <==> action.act() == Act::Level(pin, level),
        action matches Action::Send(bytes) ==> action.act() == Act::Send(bytes@),
        action.act() is Send ==> action is Send,
        action == Action::DelayUs(n) <==> action.act() == Act::DelayUs(n),
        action == Action::WaitIdle(phase, n) <==> action.act() == Act::WaitIdle(phase, n),
        action == Action::StartTimer <==> action.act() == Act::StartTimer,
        action == Action::StopTimer <==> action.act() == Act::StopTimer,
        !action.act().is_note(),
        Step::Do(action).turn() == Turn::Do(action.act()),
{
}

/// A run that has failed stays failed: whatever is reported then, it asks for
/// nothing more and takes no step.
pub proof fn law_failed_stays_failed(run: Run, e: i32)
    requires
        run.failure == Some(e),
    ensures
        resumed(run, Ok(())).1 == Turn::Failed(e),
        resumed(run, Ok(())).0.failure == Some(e),
        resumed(run, Ok(())).0.ready == run.ready,
        !resumed(run, Ok(())).0.sending,
        resumed(run, Err(e)).0.failure == Some(e),
        resumed(run, Err(e)).0.todo.len() == 0,
        !resumed(run, Err(e)).0.sending,
{
}

/// A run that nothing is left of is done, however often it is asked.
pub proof fn law_done_stays_done(run: Run)
    requires
        run.failure is None,
        run.todo.len() == 0,
    ensures
        resumed(run, Ok(())).1 == Turn::Done,
        resumed(run, Ok(())).0 == (Run { sending: false, ..run }),
{
}

/// What goes over the bus, as the controller hears it: each command byte with the
/// data behind it. A byte is a command while the data line is low.
pub open spec fn told(acts: Seq<Act>, data: bool, so_far: Seq<(u8, Seq<u8>)>) -> (
    bool,
    Seq<(u8, Seq<u8>)>,
)
    decreases acts.len(),
{
    if acts.len() == 0 {
        (data, so_far)
    } else {
        match acts[0] {
            Act::Level(Pin::Dc, level) => told(acts.skip(1), level, so_far),
            Act::Send(bytes) => if data {
                let last = so_far.last();
                told(acts.skip(1), data, so_far.drop_last().push((last.0, last.1 + bytes)))
            } else {
                told(acts.skip(1), data, so_far.push((bytes[0], Seq::empty())))
            },
            _ => told(acts.skip(1), data, so_far),
        }
    }
}

/// What is heard of scripts in a row is what is heard of one and then the other.
pub proof fn lemma_told_join(a: Seq<Act>, b: Seq<Act>, data: bool, so_far: Seq<(u8, Seq<u8>)>)
    ensures
        told(a + b, data, so_far) == told(b, told(a, data, so_far).0, told(a, data, so_far).1),
    decreases a.len(),
{
    if a.len() == 0 {
        assert(a + b =~= b);
    } else {
        assert((a + b).skip(1) =~= a.skip(1) + b);
        match a[0] {
            Act::Level(Pin::Dc, level) => lemma_told_join(a.skip(1), b, level, so_far),
            Act::Send(bytes) => if data {
                let last = so_far.last();
                lemma_told_join(
                    a.skip(1),
                    b,
                    data,
                    so_far.drop_last().push((last.0, last.1 + bytes)),
                );
            } else {
                lemma_told_join(a.skip(1), b, data, so_far.push((bytes[0], Seq::empty())));
            },
            _ => lemma_told_join(a.skip(1), b, data, so_far),
        }
    }
}

/// Some masks and their contents are the same masks.
pub proof fn law_contents(masks: Seq<&[u8]>, i: int)
    requires
        0 <= i < masks.len(),
    ensures
        contents(masks).len() == masks.len(),
        contents(masks)[i] == masks[i]@,
{
}

} // verus!
