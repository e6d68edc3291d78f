//! Driver for the Good Display GDEQ0426T82 4.26" monochrome e-paper panel
//! (SSD1677 controller, 4-wire SPI).
//!
//! Every call returns the [`Script`] of bus operations that carries it out.
//! [`Epd::advance`] walks through a script and keeps track of how ready the panel
//! is for a partial refresh.

use vstd::prelude::*;

use crate::framebuffer::{
    bit_mask, bit_set, byte_index, on_screen, FrameBuffer, HEIGHT, IMAGE_BYTES, ROW_BYTES,
    SCREEN_HEIGHT, SCREEN_WIDTH, WIDTH,
};
use crate::geometry::{clamp, least, most, quotient, run_end, Point, Rectangle};
use crate::script::{
    any_of, contents, left_ready, lemma_acts_join, lemma_told_join, released, resumed,
    selected_after, sends, told, Act, Phase, Pin, Readiness, Rows, Script, Source, Step,
};
use crate::waveform;

verus! {

/// The controller is specified up to 20MHz; 10MHz leaves margin for the ribbon.
pub const SPI_HZ: u32 = 10_000_000;

/// How long to wait on the busy line before giving up.
pub const RESET_TIMEOUT_MS: u32 = 1_000;

pub const FULL_REFRESH_TIMEOUT_MS: u32 = 5_000;

pub const PARTIAL_REFRESH_TIMEOUT_MS: u32 = 2_000;

/// Steps the controller runs on activation.
pub const ENABLE_CLOCK: u8 = 0x80;

pub const ENABLE_ANALOG: u8 = 0x40;

pub const LOAD_TEMPERATURE: u8 = 0x20;

pub const LOAD_LUT: u8 = 0x10;

/// Switches the load and display steps to the differential display mode.
pub const MODE_2: u8 = 0x08;

pub const DISPLAY: u8 = 0x04;

pub const DISABLE_ANALOG: u8 = 0x02;

pub const DISABLE_CLOCK: u8 = 0x01;

/// The controller's commands.
#[derive(Clone, Copy, Debug, PartialEq, Eq, Structural)]
pub enum Cmd {
    DriverOutputControl,
    GateDrivingVoltage,
    SourceDrivingVoltage,
    BoosterSoftStart,
    DeepSleep,
    DataEntryMode,
    SwReset,
    TemperatureSensor,
    MasterActivation,
    UpdateControl1,
    UpdateControl2,
    WriteRamCurrent,
    WriteRamPrevious,
    WriteLut,
    WriteVcom,
    BorderWaveform,
    RamXRange,
    RamYRange,
    RamXCounter,
    RamYCounter,
}

impl Cmd {
    /// The byte that stands for the command on the bus.
    pub open spec fn byte(self) -> u8 {
        match self {
            Cmd::DriverOutputControl => 0x01u8,
            Cmd::GateDrivingVoltage => 0x03u8,
            Cmd::SourceDrivingVoltage => 0x04u8,
            Cmd::BoosterSoftStart => 0x0Cu8,
            Cmd::DeepSleep => 0x10u8,
            Cmd::DataEntryMode => 0x11u8,
            Cmd::SwReset => 0x12u8,
            Cmd::TemperatureSensor => 0x18u8,
            Cmd::MasterActivation => 0x20u8,
            Cmd::UpdateControl1 => 0x21u8,
            Cmd::UpdateControl2 => 0x22u8,
            Cmd::WriteRamCurrent => 0x24u8,
            Cmd::WriteRamPrevious => 0x26u8,
            Cmd::WriteLut => 0x32u8,
            Cmd::WriteVcom => 0x2Cu8,
            Cmd::BorderWaveform => 0x3Cu8,
            Cmd::RamXRange => 0x44u8,
            Cmd::RamYRange => 0x45u8,
            Cmd::RamXCounter => 0x4Eu8,
            Cmd::RamYCounter => 0x4Fu8,
        }
    }

    pub fn code(self) -> (b: u8)
        ensures
            b == self.byte(),
    {
        match self {
            Cmd::DriverOutputControl => 0x01,
            Cmd::GateDrivingVoltage => 0x03,
            Cmd::SourceDrivingVoltage => 0x04,
            Cmd::BoosterSoftStart => 0x0C,
            Cmd::DeepSleep => 0x10,
            Cmd::DataEntryMode => 0x11,
            Cmd::SwReset => 0x12,
            Cmd::TemperatureSensor => 0x18,
            Cmd::MasterActivation => 0x20,
            Cmd::UpdateControl1 => 0x21,
            Cmd::UpdateControl2 => 0x22,
            Cmd::WriteRamCurrent => 0x24,
            Cmd::WriteRamPrevious => 0x26,
            Cmd::WriteLut => 0x32,
            Cmd::WriteVcom => 0x2C,
            Cmd::BorderWaveform => 0x3C,
            Cmd::RamXRange => 0x44,
            Cmd::RamYRange => 0x45,
            Cmd::RamXCounter => 0x4E,
            Cmd::RamYCounter => 0x4F,
        }
    }
}

/// Which of the controller's two images a write lands in.
///
/// A partial refresh draws the difference between them, so anything put on
/// screen by a full refresh has to go into both.
#[derive(Clone, Copy, Debug, PartialEq, Eq, Structural)]
pub enum Bank {
    Current,
    Previous,
    Both,
}

/// How to drive the panel.
#[derive(Clone, Copy, Debug, PartialEq, Eq, Structural)]
pub enum Refresh {
    /// Flashes the whole panel, which is what clears ghosting.
    Full,
    /// Redraws what differs from the previous image, with the waveform from
    /// OTP.
    Partial,
    /// Never reloads the waveform, so the one written last is used.
    PartialFast,
    /// As [`Refresh::PartialFast`], but with the previous image live, so that
    /// each LUT applies to its own class of pixel.
    PartialHybrid,
}

// What goes over the bus.

/// A command byte on its own.
pub open spec fn command_acts(cmd: Cmd) -> Seq<Act> {
    seq![
        Act::Level(Pin::Dc, false),
        Act::Level(Pin::Cs, false),
        Act::Send(seq![cmd.byte()]),
        Act::Level(Pin::Cs, true),
    ]
}

/// A command with its data, in transfers of their own.
pub open spec fn stream_acts(cmd: Cmd, rows: Seq<Seq<u8>>) -> Seq<Act> {
    command_acts(cmd) + seq![Act::Level(Pin::Dc, true), Act::Level(Pin::Cs, false)] + sends(rows)
        + seq![Act::Level(Pin::Cs, true)]
}

/// A command with its data in one transfer.
pub open spec fn write_acts(cmd: Cmd, data: Seq<u8>) -> Seq<Act> {
    stream_acts(cmd, seq![data])
}

/// A coordinate as the controller takes it, low byte first.
pub open spec fn word(v: int) -> Seq<u8> {
    seq![(v % 256) as u8, (v / 256) as u8]
}

/// Selects the rectangle the next image transfer lands in, with the address
/// counter at its top left corner and both axes counting up.
pub open spec fn window_acts(x: int, y: int, w: int, h: int) -> Seq<Act> {
    write_acts(Cmd::DataEntryMode, seq![0x03u8]) + write_acts(
        Cmd::RamXRange,
        word(x) + word(x + w - 1),
    ) + write_acts(Cmd::RamYRange, word(y) + word(y + h - 1)) + write_acts(
        Cmd::RamXCounter,
        word(x),
    ) + write_acts(Cmd::RamYCounter, word(y))
}

/// An image transfer into a window.
pub open spec fn image_acts(cmd: Cmd, x: int, y: int, w: int, h: int, rows: Seq<Seq<u8>>) -> Seq<
    Act,
> {
    window_acts(x, y, w, h) + stream_acts(cmd, rows)
}

impl<'a> Script<'a> {
    fn command(&mut self, cmd: Cmd)
        requires
            old(self).holds(old(self).todo()),
        ensures
            final(self).holds(old(self).todo() + command_acts(cmd)),
    {
        let ghost start = self.todo();
        self.set(Pin::Dc, false);
        self.set(Pin::Cs, false);
        let byte: [u8; 1] = [cmd.code()];
        assert(byte@ =~= seq![cmd.byte()]);
        self.send(&byte);
        self.set(Pin::Cs, true);
        assert(self.todo() =~= start + command_acts(cmd));
    }

    fn write(&mut self, cmd: Cmd, data: &[u8])
        requires
            old(self).holds(old(self).todo()),
        ensures
            final(self).holds(old(self).todo() + write_acts(cmd, data@)),
    {
        let ghost start = self.todo();
        self.command(cmd);
        self.set(Pin::Dc, true);
        self.set(Pin::Cs, false);
        self.send(data);
        self.set(Pin::Cs, true);
        assert(self.todo() =~= start + write_acts(cmd, data@));
    }

    fn stream(&mut self, cmd: Cmd, rows: Rows<'a>)
        requires
            old(self).holds(old(self).todo()),
            rows.wf(),
        ensures
            final(self).holds(old(self).todo() + stream_acts(cmd, rows.all())),
    {
        let ghost start = self.todo();
        self.command(cmd);
        self.set(Pin::Dc, true);
        self.set(Pin::Cs, false);
        self.send_rows(rows);
        self.set(Pin::Cs, true);
        assert(self.todo() =~= start + stream_acts(cmd, rows.all()));
    }

    fn set_window(&mut self, x: u16, y: u16, w: u16, h: u16)
        requires
            old(self).holds(old(self).todo()),
            x + w - 1 <= u16::MAX,
            y + h - 1 <= u16::MAX,
            1 <= w,
            1 <= h,
        ensures
            final(self).holds(
                old(self).todo() + window_acts(x as int, y as int, w as int, h as int),
            ),
    {
        let ghost start = self.todo();
        let x_end: u16 = x + (w - 1);
        let y_end: u16 = y + (h - 1);
        let entry: [u8; 1] = [0x03];
        assert(entry@ =~= seq![0x03u8]);
        self.write(Cmd::DataEntryMode, &entry);
        let xs: [u8; 4] = [
            (x % 256) as u8,
            (x / 256) as u8,
            (x_end % 256) as u8,
            (x_end / 256) as u8,
        ];
        assert(xs@ =~= word(x as int) + word(x + w - 1));
        self.write(Cmd::RamXRange, &xs);
        let ys: [u8; 4] = [
            (y % 256) as u8,
            (y / 256) as u8,
            (y_end % 256) as u8,
            (y_end / 256) as u8,
        ];
        assert(ys@ =~= word(y as int) + word(y + h - 1));
        self.write(Cmd::RamYRange, &ys);
        let xc: [u8; 2] = [(x % 256) as u8, (x / 256) as u8];
        assert(xc@ =~= word(x as int));
        self.write(Cmd::RamXCounter, &xc);
        let yc: [u8; 2] = [(y % 256) as u8, (y / 256) as u8];
        assert(yc@ =~= word(y as int));
        self.write(Cmd::RamYCounter, &yc);
        assert(self.todo() =~= start + window_acts(x as int, y as int, w as int, h as int));
    }

    fn image(&mut self, cmd: Cmd, x: u16, y: u16, w: u16, h: u16, rows: Rows<'a>)
        requires
            old(self).holds(old(self).todo()),
            x + w - 1 <= u16::MAX,
            y + h - 1 <= u16::MAX,
            1 <= w,
            1 <= h,
            rows.wf(),
        ensures
            final(self).holds(
                old(self).todo() + image_acts(
                    cmd,
                    x as int,
                    y as int,
                    w as int,
                    h as int,
                    rows.all(),
                ),
            ),
    {
        let ghost start = self.todo();
        let ghost all = rows.all();
        self.set_window(x, y, w, h);
        self.stream(cmd, rows);
        assert(self.todo() =~= start + image_acts(
            cmd,
            x as int,
            y as int,
            w as int,
            h as int,
            all,
        ));
    }
}

/// The rows of a bitmap that is sent from its first byte on, `len` bytes out of
/// every `stride`.
pub open spec fn bitmap_rows(bitmap: Seq<u8>, stride: int, len: int, count: int) -> Seq<Seq<u8>> {
    Seq::new(
        count as nat,
        |k: int| Seq::new(len as nat, |i: int| bitmap[k * stride + i]),
    )
}

/// Whether any of a bitmap at this place reaches the panel.
pub open spec fn visible(x: int, y: int, w: int, h: int) -> bool {
    x - x % 8 < WIDTH && y < HEIGHT && w - w % 8 > 0 && h > 0
}

/// Writes a bitmap into one bank. Columns are addressed in whole bytes, so `x`
/// and `w` are rounded down; what sticks out of the panel is left out.
pub open spec fn ram_acts(cmd: Cmd, bitmap: Seq<u8>, x: int, y: int, w: int, h: int) -> Seq<Act> {
    if visible(x, y, w, h) {
        let left = x - x % 8;
        let width = least(w - w % 8, WIDTH - left);
        let height = least(h, HEIGHT - y);
        image_acts(
            cmd,
            left,
            y,
            width,
            height,
            bitmap_rows(bitmap, (w - w % 8) / 8, width / 8, height),
        )
    } else {
        Seq::empty()
    }
}

/// How many bytes of a bitmap are read when it is written.
pub open spec fn bitmap_bytes(x: int, y: int, w: int, h: int) -> int {
    if visible(x, y, w, h) {
        (least(h, HEIGHT - y) - 1) * ((w - w % 8) / 8) + least(w - w % 8, WIDTH - (x - x % 8)) / 8
    } else {
        0
    }
}

/// A bitmap of the whole panel is read to its end.
proof fn lemma_whole_panel()
    ensures
        bitmap_bytes(0, 0, WIDTH as int, HEIGHT as int) == IMAGE_BYTES,
        ROW_BYTES * HEIGHT == IMAGE_BYTES,
{
    let stride = (WIDTH as int - WIDTH as int % 8) / 8;
    assert(visible(0, 0, WIDTH as int, HEIGHT as int));
    assert((HEIGHT - 1) * stride == 47_900) by (nonlinear_arith)
        requires
            HEIGHT == 480,
            stride == 100,
    ;
}

/// Writes a bitmap into the banks asked for.
pub open spec fn draw_acts(bitmap: Seq<u8>, x: int, y: int, w: int, h: int, bank: Bank) -> Seq<
    Act,
> {
    (if bank != Bank::Previous {
        ram_acts(Cmd::WriteRamCurrent, bitmap, x, y, w, h)
    } else {
        Seq::empty()
    }) + (if bank != Bank::Current {
        ram_acts(Cmd::WriteRamPrevious, bitmap, x, y, w, h)
    } else {
        Seq::empty()
    })
}

/// A whole image of one byte.
pub open spec fn uniform_rows(pattern: u8) -> Seq<Seq<u8>> {
    Seq::new(HEIGHT as nat, |k: int| Seq::new(ROW_BYTES as nat, |i: int| pattern))
}

/// Fills both banks with one byte.
pub open spec fn fill_acts(pattern: u8) -> Seq<Act> {
    image_acts(
        Cmd::WriteRamCurrent,
        0,
        0,
        WIDTH as int,
        HEIGHT as int,
        uniform_rows(pattern),
    ) + image_acts(
        Cmd::WriteRamPrevious,
        0,
        0,
        WIDTH as int,
        HEIGHT as int,
        uniform_rows(pattern),
    )
}

/// The panel's drive voltages, which a waveform from OTP would bring along.
pub open spec fn voltage_acts() -> Seq<Act> {
    write_acts(Cmd::GateDrivingVoltage, seq![0x17u8]) + write_acts(
        Cmd::SourceDrivingVoltage,
        seq![0x41u8, 0xA8u8, 0x32u8],
    )
}

/// Resets the panel, configures it and selects all of it.
pub open spec fn init_acts() -> Seq<Act> {
    seq![
        Act::Level(Pin::Rst, false),
        Act::DelayUs(10_000),
        Act::Level(Pin::Rst, true),
        Act::DelayUs(10_000),
        Act::WaitIdle(Phase::Reset, RESET_TIMEOUT_MS),
    ] + command_acts(Cmd::SwReset) + seq![Act::WaitIdle(Phase::SoftwareReset, RESET_TIMEOUT_MS)]
        + write_acts(Cmd::TemperatureSensor, seq![0x80u8]) + write_acts(
        Cmd::BoosterSoftStart,
        seq![0xAEu8, 0xC7u8, 0xC3u8, 0xC0u8, 0x80u8],
    ) + write_acts(Cmd::DriverOutputControl, word(HEIGHT - 1) + seq![0x02u8]) + voltage_acts()
        + write_acts(Cmd::BorderWaveform, seq![0x50u8]) + window_acts(
        0,
        0,
        WIDTH as int,
        HEIGHT as int,
    )
}

/// What update control 1 is set to: a full or fast refresh bypasses the
/// previous image.
pub open spec fn update_control(mode: Refresh) -> Seq<u8> {
    match mode {
        Refresh::Full => seq![0x40u8, 0x00u8],
        Refresh::PartialFast => seq![0x40u8, 0x00u8],
        Refresh::Partial => seq![0x00u8, 0x00u8],
        Refresh::PartialHybrid => seq![0x00u8, 0x00u8],
    }
}

/// Which steps the controller runs. A primed panel goes straight to displaying,
/// except that a refresh with the waveform from OTP loads it where another one is
/// in force.
pub open spec fn update_sequence(ready: Readiness, mode: Refresh) -> u8 {
    match mode {
        Refresh::Full => ENABLE_CLOCK | ENABLE_ANALOG | LOAD_TEMPERATURE | LOAD_LUT | DISPLAY
            | DISABLE_ANALOG | DISABLE_CLOCK,
        Refresh::PartialHybrid => if ready.primed {
            MODE_2 | DISPLAY
        } else {
            ENABLE_CLOCK | ENABLE_ANALOG | MODE_2 | DISPLAY
        },
        Refresh::PartialFast => if ready.primed {
            DISPLAY
        } else {
            ENABLE_CLOCK | ENABLE_ANALOG | DISPLAY
        },
        Refresh::Partial => if ready.primed && ready.differential {
            MODE_2 | DISPLAY
        } else {
            ENABLE_CLOCK | ENABLE_ANALOG | LOAD_TEMPERATURE | LOAD_LUT | MODE_2 | DISPLAY
        },
    }
}

/// How long a refresh may take.
pub open spec fn refresh_timeout(mode: Refresh) -> u32 {
    match mode {
        Refresh::Full => FULL_REFRESH_TIMEOUT_MS,
        _ => PARTIAL_REFRESH_TIMEOUT_MS,
    }
}

/// What a refresh does to the waveform in force: a full one leaves its own
/// behind, a partial one with the waveform from OTP leaves that, and the others
/// load none.
pub open spec fn waveform_acts(mode: Refresh) -> Seq<Act> {
    match mode {
        Refresh::Full => seq![Act::Hold(false)],
        Refresh::Partial => seq![Act::Hold(true)],
        _ => Seq::empty(),
    }
}

/// A refresh. A full one powers down on its way out, so only a partial one
/// leaves the panel primed.
pub open spec fn refresh_acts(ready: Readiness, mode: Refresh) -> Seq<Act> {
    write_acts(Cmd::UpdateControl1, update_control(mode)) + write_acts(
        Cmd::WriteVcom,
        seq![0x48u8],
    ) + write_acts(Cmd::UpdateControl2, seq![update_sequence(ready, mode)]) + seq![Act::StartTimer]
        + command_acts(Cmd::MasterActivation) + seq![
        Act::WaitIdle(Phase::Refresh, refresh_timeout(mode)),
        Act::Prime(mode != Refresh::Full),
    ] + waveform_acts(mode) + seq![Act::StopTimer]
}

/// Writes a waveform table with the voltages that go with it. From its first byte
/// on, the waveform from OTP is no longer whole.
pub open spec fn load_acts(table: Seq<u8>, phase: Phase) -> Seq<Act> {
    seq![Act::Hold(false)] + write_acts(Cmd::WriteLut, table) + seq![
        Act::WaitIdle(phase, RESET_TIMEOUT_MS),
    ] + voltage_acts() + write_acts(Cmd::WriteVcom, seq![0x48u8])
}

/// Loads the probe's waveform and displays with it, previous image live.
pub open spec fn probe_acts() -> Seq<Act> {
    load_acts(waveform::probe_table(), Phase::LoadProbeLut) + write_acts(
        Cmd::UpdateControl1,
        seq![0x00u8, 0x00u8],
    ) + write_acts(
        Cmd::UpdateControl2,
        seq![
            ENABLE_CLOCK | ENABLE_ANALOG | MODE_2 | DISPLAY | DISABLE_ANALOG | DISABLE_CLOCK,
        ],
    ) + seq![Act::StartTimer] + command_acts(Cmd::MasterActivation) + seq![
        Act::WaitIdle(Phase::Probe, FULL_REFRESH_TIMEOUT_MS),
        Act::Prime(false),
        Act::StopTimer,
    ]
}

/// Drops the driving voltages.
pub open spec fn power_off_acts() -> Seq<Act> {
    write_acts(Cmd::UpdateControl2, seq![ENABLE_CLOCK | DISABLE_ANALOG | DISABLE_CLOCK])
        + command_acts(Cmd::MasterActivation) + seq![
        Act::Prime(false),
        Act::WaitIdle(Phase::PowerOff, PARTIAL_REFRESH_TIMEOUT_MS),
    ]
}

/// Cuts the internal supplies.
pub open spec fn sleep_acts() -> Seq<Act> {
    write_acts(Cmd::DeepSleep, seq![0x01u8]) + seq![Act::DelayUs(10_000)]
}

/// What part of the panel an area of the screen is written as: columns
/// `x0..x1`, rows `y0..y1` rounded outward to whole bytes.
pub struct Span {
    pub x0: int,
    pub x1: int,
    pub y0: int,
    pub y1: int,
}

impl Span {
    pub open spec fn is_empty(self) -> bool {
        self.x1 <= self.x0 || self.y1 <= self.y0
    }

    /// Where the bytes of a span end in an image.
    pub open spec fn end(self) -> int {
        if self.is_empty() {
            0
        } else {
            (self.x1 - 1) * ROW_BYTES + self.y1 / 8
        }
    }

    /// The bytes of a span, row by row, where `f` gives byte `j` of an image.
    pub open spec fn rows(self, f: spec_fn(int) -> u8) -> Seq<Seq<u8>> {
        Seq::new(
            (self.x1 - self.x0) as nat,
            |k: int|
                Seq::new(
                    ((self.y1 - self.y0) / 8) as nat,
                    |i: int| f((self.x0 + k) * ROW_BYTES + self.y0 / 8 + i),
                ),
        )
    }

    /// Transfers both banks of a span. The controller's x axis is the screen's
    /// y axis.
    pub open spec fn acts(
        self,
        current: spec_fn(int) -> u8,
        previous: spec_fn(int) -> u8,
    ) -> Seq<Act> {
        if self.is_empty() {
            Seq::empty()
        } else {
            image_acts(
                Cmd::WriteRamCurrent,
                self.y0,
                self.x0,
                self.y1 - self.y0,
                self.x1 - self.x0,
                self.rows(current),
            ) + image_acts(
                Cmd::WriteRamPrevious,
                self.y0,
                self.x0,
                self.y1 - self.y0,
                self.x1 - self.x0,
                self.rows(previous),
            )
        }
    }
}

/// The span of an area: its part on the screen, with rows rounded outward to
/// whole bytes. An area without pixels on the screen has an empty span.
pub open spec fn span_of(area: Rectangle) -> Span {
    let left = most(area.top_left.x as int, 0);
    let right = least(run_end(area.top_left.x, area.size.width), SCREEN_WIDTH as int);
    let top = most(area.top_left.y as int, 0);
    let bottom = least(run_end(area.top_left.y, area.size.height), SCREEN_HEIGHT as int);
    if left < right && top < bottom {
        Span { x0: left, x1: right, y0: top - top % 8, y1: (bottom + 7) - (bottom + 7) % 8 }
    } else {
        Span { x0: 0, x1: 0, y0: 0, y1: 0 }
    }
}

/// The current bank of a graded pass: the target with the pixels flipped that
/// are healing and not drawn afresh.
pub open spec fn graded_current(target: Seq<u8>, fresh: Seq<u8>, older: Seq<Seq<u8>>) -> spec_fn(
    int,
) -> u8 {
    |j: int| target[j] ^ (any_of(older, j) & !fresh[j])
}

/// The previous bank of a graded pass: the target with the fresh pixels
/// flipped.
pub open spec fn graded_previous(target: Seq<u8>, fresh: Seq<u8>) -> spec_fn(int) -> u8 {
    |j: int| target[j] ^ fresh[j]
}

/// The current bank of a driven pass: the target itself.
pub open spec fn driven_current(target: Seq<u8>) -> spec_fn(int) -> u8 {
    |j: int| target[j]
}

/// The previous bank of a driven pass: the target with the pixels flipped that
/// any mask drives.
pub open spec fn driven_previous(target: Seq<u8>, drive: Seq<Seq<u8>>) -> spec_fn(int) -> u8 {
    |j: int| target[j] ^ any_of(drive, j)
}

/// Whether every mask has at least `n` bytes.
pub open spec fn masks_reach(masks: Seq<&[u8]>, n: int) -> bool {
    forall|i: int| 0 <= i < masks.len() ==> n <= #[trigger] masks[i]@.len()
}

/// Writes both banks of a driven pass.
pub open spec fn drive_acts(target: Seq<u8>, drive: Seq<Seq<u8>>) -> Seq<Act> {
    ram_acts(Cmd::WriteRamCurrent, target, 0, 0, WIDTH as int, HEIGHT as int) + image_acts(
        Cmd::WriteRamPrevious,
        0,
        0,
        WIDTH as int,
        HEIGHT as int,
        Seq::new(
            HEIGHT as nat,
            |k: int|
                Seq::new(
                    ROW_BYTES as nat,
                    |i: int| driven_previous(target, drive)(k * ROW_BYTES + i),
                ),
        ),
    )
}

/// The panel's driver. It only remembers whether the panel is powered up and
/// which waveform it holds, so that the next partial refresh can skip what is
/// done already.
#[derive(Debug)]
pub struct Epd {
    ready: Readiness,
}

impl Epd {
    /// How ready the panel is for a partial refresh.
    pub closed spec fn readiness(self) -> Readiness {
        self.ready
    }

    /// A driver, and the levels its pins start from.
    pub fn new() -> (r: (Epd, Script<'static>))
        ensures
            r.0.readiness() == (Readiness { primed: false, differential: false }),
            r.1.holds(seq![Act::Level(Pin::Cs, true), Act::Level(Pin::Rst, true)]),
    {
        let mut s = Script::new();
        s.set(Pin::Cs, true);
        s.set(Pin::Rst, true);
        assert(s.todo() =~= seq![Act::Level(Pin::Cs, true), Act::Level(Pin::Rst, true)]);
        (Epd { ready: Readiness { primed: false, differential: false } }, s)
    }

    /// Reports how the last action of a script went and says what comes next.
    /// The first call for a script reports `Ok`.
    pub fn advance(&mut self, script: &mut Script<'_>, last: Result<(), i32>) -> (s: Step)
        requires
            old(script).wf(),
        ensures
            final(script).wf(),
            (final(script).run(final(self).readiness()), s.turn()) == resumed(
                old(script).run(old(self).readiness()),
                last,
            ),
    {
        script.step(&mut self.ready, last)
    }

    /// Resets the panel and runs the power-up sequence. Required before the
    /// first refresh, and after [`Epd::sleep`].
    pub fn init(&mut self) -> (s: Script<'static>)
        ensures
            final(self).readiness() == (Readiness { primed: false, differential: false }),
            s.holds(init_acts()),
    {
        self.ready = Readiness { primed: false, differential: false };
        let mut s = Script::new();
        s.set(Pin::Rst, false);
        s.delay_us(10_000);
        s.set(Pin::Rst, true);
        s.delay_us(10_000);
        s.wait_idle(Phase::Reset, RESET_TIMEOUT_MS);
        s.command(Cmd::SwReset);
        s.wait_idle(Phase::SoftwareReset, RESET_TIMEOUT_MS);
        let sensor: [u8; 1] = [0x80];
        assert(sensor@ =~= seq![0x80u8]);
        s.write(Cmd::TemperatureSensor, &sensor);
        let booster: [u8; 5] = [0xAE, 0xC7, 0xC3, 0xC0, 0x80];
        assert(booster@ =~= seq![0xAEu8, 0xC7u8, 0xC3u8, 0xC0u8, 0x80u8]);
        s.write(Cmd::BoosterSoftStart, &booster);
        let gates: u16 = HEIGHT - 1;
        let output: [u8; 3] = [(gates % 256) as u8, (gates / 256) as u8, 0x02];
        assert(output@ =~= word(HEIGHT - 1) + seq![0x02u8]);
        s.write(Cmd::DriverOutputControl, &output);
        s.voltages();
        let border: [u8; 1] = [0x50];
        assert(border@ =~= seq![0x50u8]);
        s.write(Cmd::BorderWaveform, &border);
        s.set_window(0, 0, WIDTH, HEIGHT);
        assert(s.todo() =~= init_acts());
        s
    }

    /// Writes a bitmap without refreshing: `w / 8` bytes per row, `h` rows, most
    /// significant bit leftmost, set bits white.
    pub fn draw<'a>(
        &self,
        bitmap: &'a [u8],
        x: u16,
        y: u16,
        w: u16,
        h: u16,
        bank: Bank,
    ) -> (s: Script<'a>)
        requires
            bitmap_bytes(x as int, y as int, w as int, h as int) <= bitmap@.len(),
        ensures
            s.holds(draw_acts(bitmap@, x as int, y as int, w as int, h as int, bank)),
    {
        let mut s = Script::new();
        if bank != Bank::Previous {
            s.write_ram(Cmd::WriteRamCurrent, bitmap, x, y, w, h);
        }
        if bank != Bank::Current {
            s.write_ram(Cmd::WriteRamPrevious, bitmap, x, y, w, h);
        }
        assert(s.todo() =~= draw_acts(bitmap@, x as int, y as int, w as int, h as int, bank));
        s
    }

    /// Fills both images with a byte (0xFF white, 0x00 black).
    pub fn fill(&self, pattern: u8) -> (s: Script<'static>)
        ensures
            s.holds(fill_acts(pattern)),
    {
        let mut s = Script::new();
        let current = Rows {
            source: Source::Fill(pattern),
            start: 0,
            stride: ROW_BYTES,
            len: ROW_BYTES,
            count: HEIGHT as usize,
        };
        assert(current.all() =~~= uniform_rows(pattern));
        s.image(Cmd::WriteRamCurrent, 0, 0, WIDTH, HEIGHT, current);
        let previous = Rows {
            source: Source::Fill(pattern),
            start: 0,
            stride: ROW_BYTES,
            len: ROW_BYTES,
            count: HEIGHT as usize,
        };
        assert(previous.all() =~~= uniform_rows(pattern));
        s.image(Cmd::WriteRamPrevious, 0, 0, WIDTH, HEIGHT, previous);
        assert(s.todo() =~= fill_acts(pattern));
        s
    }

    /// Drives the panel from controller memory and waits until it is idle. The
    /// timer runs from the activation to that moment.
    pub fn refresh(&self, mode: Refresh) -> (s: Script<'static>)
        ensures
            s.holds(refresh_acts(self.readiness(), mode)),
    {
        let (control, sequence, timeout_ms): ([u8; 2], u8, u32) = match mode {
            Refresh::Full => (
                [0x40, 0x00],
                ENABLE_CLOCK | ENABLE_ANALOG | LOAD_TEMPERATURE | LOAD_LUT | DISPLAY
                    | DISABLE_ANALOG | DISABLE_CLOCK,
                FULL_REFRESH_TIMEOUT_MS,
            ),
            Refresh::PartialHybrid => (
                [0x00, 0x00],
                if self.ready.primed {
                    MODE_2 | DISPLAY
                } else {
                    ENABLE_CLOCK | ENABLE_ANALOG | MODE_2 | DISPLAY
                },
                PARTIAL_REFRESH_TIMEOUT_MS,
            ),
            Refresh::PartialFast => (
                [0x40, 0x00],
                if self.ready.primed {
                    DISPLAY
                } else {
                    ENABLE_CLOCK | ENABLE_ANALOG | DISPLAY
                },
                PARTIAL_REFRESH_TIMEOUT_MS,
            ),
            Refresh::Partial => (
                [0x00, 0x00],
                if self.ready.primed && self.ready.differential {
                    MODE_2 | DISPLAY
                } else {
                    ENABLE_CLOCK | ENABLE_ANALOG | LOAD_TEMPERATURE | LOAD_LUT | MODE_2 | DISPLAY
                },
                PARTIAL_REFRESH_TIMEOUT_MS,
            ),
        };
        let mut s = Script::new();
        assert(control@ =~= update_control(mode));
        s.write(Cmd::UpdateControl1, &control);
        let vcom: [u8; 1] = [0x48];
        assert(vcom@ =~= seq![0x48u8]);
        s.write(Cmd::WriteVcom, &vcom);
        let steps: [u8; 1] = [sequence];
        assert(steps@ =~= seq![update_sequence(self.readiness(), mode)]);
        s.write(Cmd::UpdateControl2, &steps);
        s.start_timer();
        s.command(Cmd::MasterActivation);
        s.wait_idle(Phase::Refresh, timeout_ms);
        s.prime(mode != Refresh::Full);
        match mode {
            Refresh::Full => s.hold(false),
            Refresh::Partial => s.hold(true),
            _ => {},
        }
        s.stop_timer();
        assert(s.todo() =~= refresh_acts(self.readiness(), mode));
        s
    }

    /// Displays with a waveform that drives each LUT differently, which shows
    /// what the hardware keys the choice of LUT on.
    pub fn display_lut_probe(&self) -> (s: Script<'static>)
        ensures
            s.holds(probe_acts()),
    {
        let mut s = Script::new();
        let table: Vec<u8> = waveform::probe();
        s.load(table.as_slice(), Phase::LoadProbeLut);
        let control: [u8; 2] = [0x00, 0x00];
        assert(control@ =~= seq![0x00u8, 0x00u8]);
        s.write(Cmd::UpdateControl1, &control);
        let steps: [u8; 1] = [
            ENABLE_CLOCK | ENABLE_ANALOG | MODE_2 | DISPLAY | DISABLE_ANALOG | DISABLE_CLOCK,
        ];
        assert(steps@ =~= seq![
            ENABLE_CLOCK | ENABLE_ANALOG | MODE_2 | DISPLAY | DISABLE_ANALOG | DISABLE_CLOCK,
        ]);
        s.write(Cmd::UpdateControl2, &steps);
        s.start_timer();
        s.command(Cmd::MasterActivation);
        s.wait_idle(Phase::Probe, FULL_REFRESH_TIMEOUT_MS);
        s.prime(false);
        s.stop_timer();
        assert(s.todo() =~= probe_acts());
        s
    }

    /// Loads a waveform that drives only the pixels presented as transitions
    /// and holds everything else.
    pub fn load_hybrid_lut(&self, frames: u8) -> (s: Script<'static>)
        ensures
            s.holds(load_acts(waveform::hybrid_table(frames), Phase::LoadLut)),
    {
        let mut s = Script::new();
        let table: Vec<u8> = waveform::hybrid(frames);
        s.load(table.as_slice(), Phase::LoadLut);
        assert(s.todo() =~= load_acts(waveform::hybrid_table(frames), Phase::LoadLut));
        s
    }

    /// Loads a waveform with two strengths of drive towards black, so that a
    /// stroke is taken most of the way in the pass it is drawn and topped up
    /// after.
    pub fn load_graded_lut(&self, heal_frames: u8, fresh_frames: u8) -> (s: Script<'static>)
        ensures
            s.holds(load_acts(waveform::graded_table(heal_frames, fresh_frames), Phase::LoadLut)),
    {
        let mut s = Script::new();
        let table: Vec<u8> = waveform::graded(heal_frames, fresh_frames);
        s.load(table.as_slice(), Phase::LoadLut);
        assert(s.todo() =~= load_acts(
            waveform::graded_table(heal_frames, fresh_frames),
            Phase::LoadLut,
        ));
        s
    }

    /// Loads a waveform that drives every pixel at its target.
    pub fn load_fast_lut(&self, frames: u8) -> (s: Script<'static>)
        ensures
            s.holds(load_acts(waveform::fast_table(frames), Phase::LoadLut)),
    {
        let mut s = Script::new();
        let table: Vec<u8> = waveform::fast(frames);
        s.load(table.as_slice(), Phase::LoadLut);
        assert(s.todo() =~= load_acts(waveform::fast_table(frames), Phase::LoadLut));
        s
    }

    /// Sets the border waveform. Takes effect on the next refresh.
    pub fn set_border(&self, value: u8) -> (s: Script<'static>)
        ensures
            s.holds(write_acts(Cmd::BorderWaveform, seq![value])),
    {
        let mut s = Script::new();
        let border: [u8; 1] = [value];
        assert(border@ =~= seq![value]);
        s.write(Cmd::BorderWaveform, &border);
        assert(s.todo() =~= write_acts(Cmd::BorderWaveform, seq![value]));
        s
    }

    /// Drops the panel's driving voltages, which partial refreshes leave up.
    pub fn power_off(&self) -> (s: Script<'static>)
        ensures
            s.holds(power_off_acts()),
    {
        let mut s = Script::new();
        let steps: [u8; 1] = [ENABLE_CLOCK | DISABLE_ANALOG | DISABLE_CLOCK];
        assert(steps@ =~= seq![ENABLE_CLOCK | DISABLE_ANALOG | DISABLE_CLOCK]);
        s.write(Cmd::UpdateControl2, &steps);
        s.command(Cmd::MasterActivation);
        s.prime(false);
        s.wait_idle(Phase::PowerOff, PARTIAL_REFRESH_TIMEOUT_MS);
        assert(s.todo() =~= power_off_acts());
        s
    }

    /// Cuts the panel's internal supplies. Only [`Epd::init`] brings it back.
    pub fn sleep(&self) -> (s: Script<'static>)
        ensures
            s.holds(sleep_acts()),
    {
        let mut s = Script::new();
        let mode: [u8; 1] = [0x01];
        assert(mode@ =~= seq![0x01u8]);
        s.write(Cmd::DeepSleep, &mode);
        s.delay_us(10_000);
        assert(s.todo() =~= sleep_acts());
        s
    }

    /// Writes both banks so that the pixels of any mask in `drive` are
    /// presented as transitions towards `target`, and all others as unchanged.
    pub fn flush_with_drive<'a>(&self, target: &'a [u8], drive: Vec<&'a [u8]>) -> (s: Script<'a>)
        requires
            ROW_BYTES * HEIGHT <= target@.len(),
            masks_reach(drive@, ROW_BYTES * HEIGHT),
        ensures
            s.holds(drive_acts(target@, contents(drive@))),
    {
        let mut s = Script::new();
        proof {
            lemma_whole_panel();
        }
        s.write_ram(Cmd::WriteRamCurrent, target, 0, 0, WIDTH, HEIGHT);
        let ghost masks = contents(drive@);
        let rows = Rows {
            source: Source::Driven(target, drive),
            start: 0,
            stride: ROW_BYTES,
            len: ROW_BYTES,
            count: HEIGHT as usize,
        };
        assert(rows.all() =~~= Seq::new(
            HEIGHT as nat,
            |k: int|
                Seq::new(
                    ROW_BYTES as nat,
                    |i: int| driven_previous(target@, masks)(k * ROW_BYTES + i),
                ),
        ));
        assert((rows.count - 1) * rows.stride + rows.len == ROW_BYTES * HEIGHT) by (nonlinear_arith)
            requires
                rows.count == HEIGHT,
                rows.stride == ROW_BYTES,
                rows.len == ROW_BYTES,
        ;
        assert(rows.source.reaches(ROW_BYTES * HEIGHT));
        s.image(Cmd::WriteRamPrevious, 0, 0, WIDTH, HEIGHT, rows);
        assert(s.todo() =~= drive_acts(target@, masks));
        s
    }

    /// As [`Epd::flush_with_drive`], for the bytes of an area of the screen.
    #[verifier::spinoff_prover]
    pub fn flush_with_drive_area<'a>(
        &self,
        target: &'a [u8],
        drive: Vec<&'a [u8]>,
        area: Rectangle,
    ) -> (s: Script<'a>)
        requires
            area.is_void() || area.representable(),
            span_of(area).end() <= target@.len(),
            masks_reach(drive@, span_of(area).end()),
        ensures
            s.holds(
                span_of(area).acts(
                    driven_current(target@),
                    driven_previous(target@, contents(drive@)),
                ),
            ),
    {
        let ghost masks = contents(drive@);
        let mut s = Script::new();
        let (x0, x1, y0, y1) = match area_span(area) {
            Some(span) => span,
            None => {
                return s;
            },
        };
        let start: usize = x0 as usize * ROW_BYTES + (y0 / 8) as usize;
        let len: usize = ((y1 - y0) / 8) as usize;
        let count: usize = (x1 - x0) as usize;
        assert(start + (count - 1) * ROW_BYTES + len == span_of(area).end());
        let current = Rows {
            source: Source::Image(target),
            start,
            stride: ROW_BYTES,
            len,
            count,
        };
        assert(current.all() =~~= span_of(area).rows(driven_current(target@)));
        assert(current.source.reaches(span_of(area).end()));
        s.image(Cmd::WriteRamCurrent, y0, x0, y1 - y0, x1 - x0, current);
        let previous = Rows {
            source: Source::Driven(target, drive),
            start,
            stride: ROW_BYTES,
            len,
            count,
        };
        assert(previous.all() =~~= span_of(area).rows(driven_previous(target@, masks)));
        assert(previous.source.reaches(span_of(area).end()));
        s.image(Cmd::WriteRamPrevious, y0, x0, y1 - y0, x1 - x0, previous);
        assert(s.todo() =~= span_of(area).acts(
            driven_current(target@),
            driven_previous(target@, masks),
        ));
        s
    }

    /// Writes both banks of an area so that `fresh` pixels land in LUT 2,
    /// `older` ones in LUT 1, and everything else is held. A pixel drawn again
    /// while it is healing counts as fresh only.
    #[verifier::spinoff_prover]
    pub fn flush_graded_area<'a>(
        &self,
        target: &'a [u8],
        fresh: &'a [u8],
        older: Vec<&'a [u8]>,
        area: Rectangle,
    ) -> (s: Script<'a>)
        requires
            area.is_void() || area.representable(),
            span_of(area).end() <= target@.len(),
            span_of(area).end() <= fresh@.len(),
            masks_reach(older@, span_of(area).end()),
        ensures
            s.holds(
                span_of(area).acts(
                    graded_current(target@, fresh@, contents(older@)),
                    graded_previous(target@, fresh@),
                ),
            ),
    {
        let ghost masks = contents(older@);
        let mut s = Script::new();
        let (x0, x1, y0, y1) = match area_span(area) {
            Some(span) => span,
            None => {
                return s;
            },
        };
        let start: usize = x0 as usize * ROW_BYTES + (y0 / 8) as usize;
        let len: usize = ((y1 - y0) / 8) as usize;
        let count: usize = (x1 - x0) as usize;
        assert(start + (count - 1) * ROW_BYTES + len == span_of(area).end());
        let current = Rows {
            source: Source::Healing(target, fresh, older),
            start,
            stride: ROW_BYTES,
            len,
            count,
        };
        assert(current.all() =~~= span_of(area).rows(graded_current(target@, fresh@, masks)));
        assert(current.source.reaches(span_of(area).end()));
        s.image(Cmd::WriteRamCurrent, y0, x0, y1 - y0, x1 - x0, current);
        let flipped: Vec<&'a [u8]> = vec![fresh];
        proof {
            assert(contents(flipped@) =~= seq![fresh@]);
            assert forall|j: int| #[trigger] any_of(contents(flipped@), j) == fresh@[j] by {
                assert(seq![fresh@].drop_last() =~= Seq::empty());
                assert(any_of(seq![fresh@].drop_last(), j) == 0u8);
                let b = fresh@[j];
                assert(0u8 | b == b) by (bit_vector);
            }
        }
        let previous = Rows {
            source: Source::Driven(target, flipped),
            start,
            stride: ROW_BYTES,
            len,
            count,
        };
        assert(previous.all() =~~= span_of(area).rows(graded_previous(target@, fresh@)));
        assert(previous.source.reaches(span_of(area).end()));
        s.image(Cmd::WriteRamPrevious, y0, x0, y1 - y0, x1 - x0, previous);
        assert(s.todo() =~= span_of(area).acts(
            graded_current(target@, fresh@, masks),
            graded_previous(target@, fresh@),
        ));
        s
    }
}

/// The span of an area, or `None` where there is nothing to write.
fn area_span(area: Rectangle) -> (r: Option<(u16, u16, u16, u16)>)
    requires
        area.is_void() || area.representable(),
    ensures
        r is None <==> span_of(area).is_empty(),
        match r {
            Some((x0, x1, y0, y1)) => {
                &&& span_of(area) == (Span {
                    x0: x0 as int,
                    x1: x1 as int,
                    y0: y0 as int,
                    y1: y1 as int,
                })
                &&& x0 < x1 <= SCREEN_WIDTH
                &&& y0 < y1 <= SCREEN_HEIGHT
                &&& y0 % 8 == 0
                &&& y1 % 8 == 0
            },
            None => true,
        },
{
    let corner: Point = match area.bottom_right() {
        Some(corner) => corner,
        None => {
            return None;
        },
    };
    if area.top_left.x >= SCREEN_WIDTH as i32 || area.top_left.y >= SCREEN_HEIGHT as i32 {
        return None;
    }
    let x0: u16 = clamp(area.top_left.x, 0, SCREEN_WIDTH as i32 - 1) as u16;
    let x1: u16 = clamp(corner.x + 1, 0, SCREEN_WIDTH as i32) as u16;
    let top: u16 = clamp(area.top_left.y, 0, SCREEN_HEIGHT as i32 - 1) as u16;
    let bottom: u16 = clamp(corner.y + 1, 0, SCREEN_HEIGHT as i32) as u16 + 7;
    let y0: u16 = top - top % 8;
    let y1: u16 = bottom - bottom % 8;
    if x1 <= x0 || y1 <= y0 {
        None
    } else {
        Some((x0, x1, y0, y1))
    }
}

impl<'a> Script<'a> {
    fn voltages(&mut self)
        requires
            old(self).holds(old(self).todo()),
        ensures
            final(self).holds(old(self).todo() + voltage_acts()),
    {
        let ghost start = self.todo();
        let gate: [u8; 1] = [0x17];
        assert(gate@ =~= seq![0x17u8]);
        self.write(Cmd::GateDrivingVoltage, &gate);
        let source: [u8; 3] = [0x41, 0xA8, 0x32];
        assert(source@ =~= seq![0x41u8, 0xA8u8, 0x32u8]);
        self.write(Cmd::SourceDrivingVoltage, &source);
        assert(self.todo() =~= start + voltage_acts());
    }

    fn load(&mut self, table: &[u8], phase: Phase)
        requires
            old(self).holds(old(self).todo()),
        ensures
            final(self).holds(old(self).todo() + load_acts(table@, phase)),
    {
        let ghost start = self.todo();
        self.hold(false);
        self.write(Cmd::WriteLut, table);
        self.wait_idle(phase, RESET_TIMEOUT_MS);
        self.voltages();
        let vcom: [u8; 1] = [0x48];
        assert(vcom@ =~= seq![0x48u8]);
        self.write(Cmd::WriteVcom, &vcom);
        assert(self.todo() =~= start + load_acts(table@, phase));
    }

    fn write_ram(&mut self, cmd: Cmd, bitmap: &'a [u8], x: u16, y: u16, w: u16, h: u16)
        requires
            old(self).holds(old(self).todo()),
            bitmap_bytes(x as int, y as int, w as int, h as int) <= bitmap@.len(),
        ensures
            final(self).holds(
                old(self).todo() + ram_acts(
                    cmd,
                    bitmap@,
                    x as int,
                    y as int,
                    w as int,
                    h as int,
                ),
            ),
    {
        let ghost start = self.todo();
        let left: u16 = x - x % 8;
        let whole: u16 = w - w % 8;
        if left >= WIDTH || y >= HEIGHT || whole == 0 || h == 0 {
            assert(start + ram_acts(cmd, bitmap@, x as int, y as int, w as int, h as int)
                =~= start);
            return ;
        }
        let stride: usize = whole as usize / 8;
        let width: u16 = if whole < WIDTH - left {
            whole
        } else {
            WIDTH - left
        };
        let height: u16 = if h < HEIGHT - y {
            h
        } else {
            HEIGHT - y
        };
        let rows = Rows {
            source: Source::Image(bitmap),
            start: 0,
            stride,
            len: width as usize / 8,
            count: height as usize,
        };
        assert(rows.all() =~~= bitmap_rows(
            bitmap@,
            stride as int,
            width as int / 8,
            height as int,
        ));
        assert(bitmap@.len() == bitmap.len());
        self.image(cmd, left, y, width, height, rows);
    }
}

impl FrameBuffer {
    /// Writes the whole image into controller memory. Follow with
    /// [`Epd::refresh`].
    pub fn flush<'a>(&'a self, epd: &Epd, bank: Bank) -> (s: Script<'a>)
        ensures
            s.holds(
                draw_acts(self.bytes(), 0, 0, WIDTH as int, HEIGHT as int, bank),
            ),
    {
        proof {
            lemma_whole_panel();
        }
        epd.draw(self.as_bytes(), 0, 0, WIDTH, HEIGHT, bank)
    }
}

// Waiting and timing.

/// What to do next about the busy line.
#[derive(Clone, Copy, Debug, PartialEq, Eq, Structural)]
pub enum Busy {
    /// The panel is idle.
    Idle,
    /// It is still busy and the time is up: warn, and go on regardless.
    TimedOut,
    /// Look again in a millisecond.
    Poll,
}

/// Decides whether to keep waiting for the panel. Times are in microseconds.
pub fn busy_step(busy: bool, started: i64, now: i64, timeout_ms: u32) -> (r: Busy)
    requires
        i64::MIN <= now - started <= i64::MAX,
    ensures
        r == (if !busy {
            Busy::Idle
        } else if now - started > timeout_ms * 1000 {
            Busy::TimedOut
        } else {
            Busy::Poll
        }),
{
    if !busy {
        Busy::Idle
    } else if now - started > timeout_ms as i64 * 1000 {
        Busy::TimedOut
    } else {
        Busy::Poll
    }
}

/// How many whole milliseconds a refresh took, between two readings of a clock
/// in microseconds: the low 32 bits of that number.
pub fn elapsed_ms(started: i64, now: i64) -> (ms: u32)
    requires
        i64::MIN <= now - started <= i64::MAX,
    ensures
        ms == quotient(now - started, 1000) as u32,
{
    ((now - started) / 1000) as u32
}

// Laws.

/// The LUT the panel picks for a pixel, from its bits in the two banks.
pub open spec fn slot(previous: u8, current: u8, mask: u8) -> int {
    (if previous & mask != 0 {
        2int
    } else {
        0int
    }) + (if current & mask != 0 {
        1int
    } else {
        0int
    })
}

/// Whether any of `masks` holds the bit `mask` of byte `j`.
pub open spec fn any_marked(masks: Seq<Seq<u8>>, j: int, mask: u8) -> bool {
    exists|i: int| 0 <= i < masks.len() && (#[trigger] masks[i])[j] & mask != 0
}

proof fn lemma_any_marked(masks: Seq<Seq<u8>>, j: int, mask: u8)
    ensures
        (any_of(masks, j) & mask != 0) == any_marked(masks, j, mask),
    decreases masks.len(),
{
    if masks.len() == 0 {
        assert(0u8 & mask == 0) by (bit_vector);
    } else {
        let front = masks.drop_last();
        lemma_any_marked(front, j, mask);
        let a = any_of(front, j);
        let b = masks.last()[j];
        assert(((a | b) & mask != 0) == (a & mask != 0 || b & mask != 0)) by (bit_vector);
        if any_marked(front, j, mask) {
            let i = choose|i: int| 0 <= i < front.len() && (#[trigger] front[i])[j] & mask != 0;
            assert(masks[i][j] & mask != 0);
        }
        if any_marked(masks, j, mask) {
            let i = choose|i: int| 0 <= i < masks.len() && (#[trigger] masks[i])[j] & mask != 0;
            if i < masks.len() - 1 {
                assert(front[i][j] & mask != 0);
            }
        }
    }
}

proof fn lemma_flipped(t: u8, f: u8, y: int)
    ensures
        ((t ^ f) & bit_mask(y) != 0) == ((t & bit_mask(y) != 0) != (f & bit_mask(y) != 0)),
        ((t & !f) & bit_mask(y) != 0) == ((t & bit_mask(y) != 0) && f & bit_mask(y) == 0),
{
    let k = (y % 8) as u8;
    assert(((t ^ f) & (0x80u8 >> k) != 0) == ((t & (0x80u8 >> k) != 0) != (f & (0x80u8 >> k)
        != 0))) by (bit_vector)
        requires
            k < 8,
    ;
    assert(((t & !f) & (0x80u8 >> k) != 0) == ((t & (0x80u8 >> k) != 0) && f & (0x80u8 >> k)
        == 0)) by (bit_vector)
        requires
            k < 8,
    ;
}

/// A graded pass puts each pixel of the picture in its LUT: an inked pixel in
/// LUT 2 if it was drawn in this pass, else in LUT 1 if it is healing, else in
/// LUT 0, which holds it; paper that is in no mask in LUT 3, which holds it
/// too.
pub proof fn law_graded_slots(
    target: Seq<u8>,
    fresh: Seq<u8>,
    older: Seq<Seq<u8>>,
    x: int,
    y: int,
)
    ensures
        ({
            let j = byte_index(x, y);
            let m = bit_mask(y);
            let s = slot(
                graded_previous(target, fresh)(j),
                graded_current(target, fresh, older)(j),
                m,
            );
            let healing = any_marked(older, j, m);
            if !bit_set(target, x, y) {
                s == (if bit_set(fresh, x, y) {
                    2int
                } else if healing {
                    1int
                } else {
                    0int
                })
            } else {
                !bit_set(fresh, x, y) && !healing ==> s == 3
            }
        }),
{
    let j = byte_index(x, y);
    lemma_any_marked(older, j, bit_mask(y));
    lemma_flipped(target[j], fresh[j], y);
    lemma_flipped(any_of(older, j), fresh[j], y);
    lemma_flipped(target[j], any_of(older, j) & !fresh[j], y);
}

/// A driven pass presents the pixels of any mask as transitions to the target
/// and holds all others.
pub proof fn law_driven_slots(target: Seq<u8>, drive: Seq<Seq<u8>>, x: int, y: int)
    ensures
        ({
            let j = byte_index(x, y);
            let m = bit_mask(y);
            let s = slot(driven_previous(target, drive)(j), driven_current(target)(j), m);
            if any_marked(drive, j, m) {
                s == (if bit_set(target, x, y) {
                    1int
                } else {
                    2int
                })
            } else {
                s == (if bit_set(target, x, y) {
                    3int
                } else {
                    0int
                })
            }
        }),
{
    let j = byte_index(x, y);
    lemma_any_marked(drive, j, bit_mask(y));
    lemma_flipped(target[j], any_of(drive, j), y);
}

/// Every pixel of an area that is on the screen lies in the area's span, and
/// the span's rows hold its byte.
pub proof fn law_span_covers(area: Rectangle, x: int, y: int, f: spec_fn(int) -> u8)
    requires
        area.representable(),
        area.holds(x, y),
        on_screen(x, y),
    ensures
        span_of(area).x0 <= x < span_of(area).x1,
        span_of(area).y0 <= y < span_of(area).y1,
        span_of(area).rows(f)[x - span_of(area).x0][(y - span_of(area).y0) / 8] == f(
            byte_index(x, y),
        ),
{
    let s = span_of(area);
    assert(s.y0 % 8 == 0);
    assert(s.y0 / 8 + (y - s.y0) / 8 == y / 8);
}

/// A span is empty exactly where an area has no pixel on the screen.
pub proof fn law_span_empty(area: Rectangle)
    ensures
        span_of(area).is_empty() <==> forall|x: int, y: int|
            on_screen(x, y) ==> !(#[trigger] area.holds(x, y)),
{
    let left = most(area.top_left.x as int, 0);
    let right = least(run_end(area.top_left.x, area.size.width), SCREEN_WIDTH as int);
    let top = most(area.top_left.y as int, 0);
    let bottom = least(run_end(area.top_left.y, area.size.height), SCREEN_HEIGHT as int);
    if left < right && top < bottom {
        assert(area.holds(left, top));
    }
}

/// What is written of an area is the area itself: every column of its span holds
/// a pixel of it, and every row is in a byte with such a pixel.
pub proof fn law_span_is_tight(area: Rectangle, x: int, y: int)
    requires
        span_of(area).x0 <= x < span_of(area).x1,
        span_of(area).y0 <= y < span_of(area).y1,
    ensures
        on_screen(x, y),
        exists|w: int| w / 8 == y / 8 && on_screen(x, w) && #[trigger] area.holds(x, w),
{
    let top = most(area.top_left.y as int, 0);
    let bottom = least(run_end(area.top_left.y, area.size.height), SCREEN_HEIGHT as int);
    let w = if y < top {
        top
    } else if y >= bottom {
        bottom - 1
    } else {
        y
    };
    assert(area.holds(x, w));
}

/// Every byte of a span is on the panel.
pub proof fn law_span_on_panel(area: Rectangle)
    ensures
        !span_of(area).is_empty() ==> {
            &&& 0 <= span_of(area).x0 < span_of(area).x1 <= SCREEN_WIDTH
            &&& 0 <= span_of(area).y0 < span_of(area).y1 <= SCREEN_HEIGHT
            &&& span_of(area).y0 % 8 == 0
            &&& span_of(area).y1 % 8 == 0
        },
        0 <= span_of(area).end() <= IMAGE_BYTES,
{
}

/// Flushing is a straight linear write: byte `i` of row `k` is byte
/// `100 k + i` of the image, and the pixel `(x, y)` of the screen is in row `x`.
pub proof fn law_flush_linear(bytes: Seq<u8>, x: int, y: int)
    requires
        on_screen(x, y),
    ensures
        draw_acts(bytes, 0, 0, WIDTH as int, HEIGHT as int, Bank::Current) == image_acts(
            Cmd::WriteRamCurrent,
            0,
            0,
            WIDTH as int,
            HEIGHT as int,
            bitmap_rows(bytes, ROW_BYTES as int, ROW_BYTES as int, HEIGHT as int),
        ),
        bitmap_rows(bytes, ROW_BYTES as int, ROW_BYTES as int, HEIGHT as int)[x][y / 8]
            == bytes[byte_index(x, y)],
{
    assert(draw_acts(bytes, 0, 0, WIDTH as int, HEIGHT as int, Bank::Current) =~= image_acts(
        Cmd::WriteRamCurrent,
        0,
        0,
        WIDTH as int,
        HEIGHT as int,
        bitmap_rows(bytes, ROW_BYTES as int, ROW_BYTES as int, HEIGHT as int),
    ));
}

/// Whether some steps release the chip and record nothing.
spec fn calm(acts: Seq<Act>) -> bool {
    &&& released(acts)
    &&& forall|r: Readiness| #[trigger] left_ready(acts, r) == r
}

proof fn lemma_calm_join(a: Seq<Act>, b: Seq<Act>)
    requires
        calm(a),
        calm(b),
    ensures
        calm(a + b),
{
    assert forall|r: Readiness|
        released(a + b) && #[trigger] left_ready(a + b, r) == r by {
        lemma_acts_join(a, b, false, r);
        assert(left_ready(a, r) == r);
        assert(left_ready(b, r) == r);
    }
    let r = Readiness { primed: false, differential: false };
    assert(left_ready(a + b, r) == r);
}

proof fn lemma_calm_sends(rows: Seq<Seq<u8>>, r: Readiness)
    ensures
        selected_after(sends(rows), true) == Some(true),
        left_ready(sends(rows), r) == r,
    decreases rows.len(),
{
    if rows.len() > 0 {
        lemma_calm_sends(rows.skip(1), r);
        assert(sends(rows).skip(1) =~= sends(rows.skip(1)));
    }
}

proof fn lemma_calm_stream(cmd: Cmd, rows: Seq<Seq<u8>>)
    ensures
        calm(command_acts(cmd)),
        calm(stream_acts(cmd, rows)),
{
    reveal_with_fuel(selected_after, 5);
    reveal_with_fuel(left_ready, 5);
    let a = command_acts(cmd);
    assert(a.skip(1) =~= seq![
        Act::Level(Pin::Cs, false),
        Act::Send(seq![cmd.byte()]),
        Act::Level(Pin::Cs, true),
    ]);
    assert(a.skip(1).skip(1) =~= seq![Act::Send(seq![cmd.byte()]), Act::Level(Pin::Cs, true)]);
    assert(a.skip(1).skip(1).skip(1) =~= seq![Act::Level(Pin::Cs, true)]);
    assert(a.skip(1).skip(1).skip(1).skip(1) =~= Seq::empty());
    let b = seq![Act::Level(Pin::Dc, true), Act::Level(Pin::Cs, false)];
    assert(b.skip(1) =~= seq![Act::Level(Pin::Cs, false)]);
    assert(b.skip(1).skip(1) =~= Seq::empty());
    let d = seq![Act::Level(Pin::Cs, true)];
    assert(d.skip(1) =~= Seq::empty());
    assert forall|r: Readiness|
        selected_after(stream_acts(cmd, rows), false) == Some(false) && #[trigger] left_ready(
            stream_acts(cmd, rows),
            r,
        ) == r by {
        lemma_calm_sends(rows, r);
        lemma_acts_join(a, b, false, r);
        lemma_acts_join(a + b, sends(rows), false, r);
        lemma_acts_join(a + b + sends(rows), d, false, r);
    }
    let r = Readiness { primed: false, differential: false };
    assert(left_ready(stream_acts(cmd, rows), r) == r);
}

proof fn lemma_calm_quiet(act: Act)
    requires
        !(act is Send),
        !act.is_note(),
        !(act is Level) || act == Act::Level(Pin::Rst, act->Level_1),
    ensures
        calm(seq![act]),
{
    reveal_with_fuel(selected_after, 2);
    reveal_with_fuel(left_ready, 2);
    assert(seq![act].skip(1) =~= Seq::empty());
}

proof fn lemma_calm_image(cmd: Cmd, x: int, y: int, w: int, h: int, rows: Seq<Seq<u8>>)
    ensures
        calm(window_acts(x, y, w, h)),
        calm(image_acts(cmd, x, y, w, h, rows)),
{
    let a = write_acts(Cmd::DataEntryMode, seq![0x03u8]);
    let b = write_acts(Cmd::RamXRange, word(x) + word(x + w - 1));
    let c = write_acts(Cmd::RamYRange, word(y) + word(y + h - 1));
    let d = write_acts(Cmd::RamXCounter, word(x));
    let e = write_acts(Cmd::RamYCounter, word(y));
    lemma_calm_stream(Cmd::DataEntryMode, seq![seq![0x03u8]]);
    lemma_calm_stream(Cmd::RamXRange, seq![word(x) + word(x + w - 1)]);
    lemma_calm_stream(Cmd::RamYRange, seq![word(y) + word(y + h - 1)]);
    lemma_calm_stream(Cmd::RamXCounter, seq![word(x)]);
    lemma_calm_stream(Cmd::RamYCounter, seq![word(y)]);
    lemma_calm_join(a, b);
    lemma_calm_join(a + b, c);
    lemma_calm_join(a + b + c, d);
    lemma_calm_join(a + b + c + d, e);
    lemma_calm_stream(cmd, rows);
    lemma_calm_join(window_acts(x, y, w, h), stream_acts(cmd, rows));
}

proof fn lemma_calm_nothing()
    ensures
        calm(Seq::empty()),
{
}

proof fn lemma_calm_voltages()
    ensures
        calm(voltage_acts()),
{
    lemma_calm_stream(Cmd::GateDrivingVoltage, seq![seq![0x17u8]]);
    lemma_calm_stream(Cmd::SourceDrivingVoltage, seq![seq![0x41u8, 0xA8u8, 0x32u8]]);
    lemma_calm_join(
        write_acts(Cmd::GateDrivingVoltage, seq![0x17u8]),
        write_acts(Cmd::SourceDrivingVoltage, seq![0x41u8, 0xA8u8, 0x32u8]),
    );
}

proof fn lemma_calm_init()
    ensures
        calm(init_acts()),
{
    let r0 = seq![Act::Level(Pin::Rst, false)];
    let r1 = seq![Act::DelayUs(10_000)];
    let r2 = seq![Act::Level(Pin::Rst, true)];
    let r4 = seq![Act::WaitIdle(Phase::Reset, RESET_TIMEOUT_MS)];
    lemma_calm_quiet(Act::Level(Pin::Rst, false));
    lemma_calm_quiet(Act::DelayUs(10_000));
    lemma_calm_quiet(Act::Level(Pin::Rst, true));
    lemma_calm_quiet(Act::WaitIdle(Phase::Reset, RESET_TIMEOUT_MS));
    lemma_calm_join(r0, r1);
    lemma_calm_join(r0 + r1, r2);
    lemma_calm_join(r0 + r1 + r2, r1);
    lemma_calm_join(r0 + r1 + r2 + r1, r4);
    let a = seq![
        Act::Level(Pin::Rst, false),
        Act::DelayUs(10_000),
        Act::Level(Pin::Rst, true),
        Act::DelayUs(10_000),
        Act::WaitIdle(Phase::Reset, RESET_TIMEOUT_MS),
    ];
    assert(a =~= r0 + r1 + r2 + r1 + r4);
    let b = command_acts(Cmd::SwReset);
    lemma_calm_stream(Cmd::SwReset, Seq::empty());
    let c = seq![Act::WaitIdle(Phase::SoftwareReset, RESET_TIMEOUT_MS)];
    lemma_calm_quiet(Act::WaitIdle(Phase::SoftwareReset, RESET_TIMEOUT_MS));
    let d = write_acts(Cmd::TemperatureSensor, seq![0x80u8]);
    lemma_calm_stream(Cmd::TemperatureSensor, seq![seq![0x80u8]]);
    let booster = seq![0xAEu8, 0xC7u8, 0xC3u8, 0xC0u8, 0x80u8];
    let e = write_acts(Cmd::BoosterSoftStart, booster);
    lemma_calm_stream(Cmd::BoosterSoftStart, seq![booster]);
    let output = word(HEIGHT - 1) + seq![0x02u8];
    let f = write_acts(Cmd::DriverOutputControl, output);
    lemma_calm_stream(Cmd::DriverOutputControl, seq![output]);
    let g = voltage_acts();
    lemma_calm_voltages();
    let h = write_acts(Cmd::BorderWaveform, seq![0x50u8]);
    lemma_calm_stream(Cmd::BorderWaveform, seq![seq![0x50u8]]);
    let i = window_acts(0, 0, WIDTH as int, HEIGHT as int);
    lemma_calm_image(
        Cmd::WriteRamCurrent,
        0,
        0,
        WIDTH as int,
        HEIGHT as int,
        Seq::empty(),
    );
    lemma_calm_join(a, b);
    lemma_calm_join(a + b, c);
    lemma_calm_join(a + b + c, d);
    lemma_calm_join(a + b + c + d, e);
    lemma_calm_join(a + b + c + d + e, f);
    lemma_calm_join(a + b + c + d + e + f, g);
    lemma_calm_join(a + b + c + d + e + f + g, h);
    lemma_calm_join(a + b + c + d + e + f + g + h, i);
}

/// One note between calm steps.
proof fn lemma_noted(a: Seq<Act>, note: Act, b: Seq<Act>, r: Readiness)
    requires
        calm(a),
        note.is_note(),
        released(b),
    ensures
        released(a + seq![note] + b),
        left_ready(a + seq![note] + b, r) == left_ready(b, r.noting(note)),
{
    let p = seq![note];
    reveal_with_fuel(selected_after, 2);
    reveal_with_fuel(left_ready, 2);
    assert(p.skip(1) =~= Seq::empty());
    assert(left_ready(a, r) == r);
    lemma_acts_join(a, p, false, r);
    lemma_acts_join(a + p, b, false, r);
}

/// Loading a waveform replaces the one in force and records nothing else. It
/// transfers only while the chip is selected, and releases it.
pub proof fn law_load(table: Seq<u8>, phase: Phase, r: Readiness)
    ensures
        released(load_acts(table, phase)),
        left_ready(load_acts(table, phase), r) == (Readiness { differential: false, ..r }),
{
    let a = write_acts(Cmd::WriteLut, table);
    lemma_calm_stream(Cmd::WriteLut, seq![table]);
    let b = seq![Act::WaitIdle(phase, RESET_TIMEOUT_MS)];
    lemma_calm_quiet(Act::WaitIdle(phase, RESET_TIMEOUT_MS));
    lemma_calm_voltages();
    let d = write_acts(Cmd::WriteVcom, seq![0x48u8]);
    lemma_calm_stream(Cmd::WriteVcom, seq![seq![0x48u8]]);
    lemma_calm_join(a, b);
    lemma_calm_join(a + b, voltage_acts());
    lemma_calm_join(a + b + voltage_acts(), d);
    let rest = a + b + voltage_acts() + d;
    lemma_calm_nothing();
    lemma_noted(Seq::empty(), Act::Hold(false), rest, r);
    assert(load_acts(table, phase) =~= Seq::empty() + seq![Act::Hold(false)] + rest);
    assert(left_ready(rest, r.noting(Act::Hold(false))) == r.noting(Act::Hold(false)));
}

/// Initialising, filling, setting the border and sleeping record nothing, transfer
/// only while the chip is selected, and release it.
pub proof fn law_quiet_calls(pattern: u8, value: u8, r: Readiness)
    ensures
        released(init_acts()) && left_ready(init_acts(), r) == r,
        released(fill_acts(pattern)) && left_ready(fill_acts(pattern), r) == r,
        released(write_acts(Cmd::BorderWaveform, seq![value])) && left_ready(
            write_acts(Cmd::BorderWaveform, seq![value]),
            r,
        ) == r,
        released(sleep_acts()) && left_ready(sleep_acts(), r) == r,
{
    lemma_calm_init();
    let (w, h) = (WIDTH as int, HEIGHT as int);
    lemma_calm_image(Cmd::WriteRamCurrent, 0, 0, w, h, uniform_rows(pattern));
    lemma_calm_image(Cmd::WriteRamPrevious, 0, 0, w, h, uniform_rows(pattern));
    lemma_calm_join(
        image_acts(Cmd::WriteRamCurrent, 0, 0, w, h, uniform_rows(pattern)),
        image_acts(Cmd::WriteRamPrevious, 0, 0, w, h, uniform_rows(pattern)),
    );
    lemma_calm_stream(Cmd::BorderWaveform, seq![seq![value]]);
    lemma_calm_stream(Cmd::DeepSleep, seq![seq![0x01u8]]);
    lemma_calm_quiet(Act::DelayUs(10_000));
    lemma_calm_join(write_acts(Cmd::DeepSleep, seq![0x01u8]), seq![Act::DelayUs(10_000)]);
}

proof fn lemma_calm_ram(cmd: Cmd, bitmap: Seq<u8>, x: int, y: int, w: int, h: int)
    ensures
        calm(ram_acts(cmd, bitmap, x, y, w, h)),
{
    lemma_calm_nothing();
    if visible(x, y, w, h) {
        let left = x - x % 8;
        let width = least(w - w % 8, WIDTH - left);
        let height = least(h, HEIGHT - y);
        lemma_calm_image(
            cmd,
            left,
            y,
            width,
            height,
            bitmap_rows(bitmap, (w - w % 8) / 8, width / 8, height),
        );
    }
}

/// Writing an image records nothing, transfers only while the chip is selected,
/// and releases it.
pub proof fn law_quiet_images(
    bitmap: Seq<u8>,
    x: int,
    y: int,
    w: int,
    h: int,
    bank: Bank,
    drive: Seq<Seq<u8>>,
    area: Rectangle,
    current: spec_fn(int) -> u8,
    previous: spec_fn(int) -> u8,
    r: Readiness,
)
    ensures
        released(draw_acts(bitmap, x, y, w, h, bank)) && left_ready(
            draw_acts(bitmap, x, y, w, h, bank),
            r,
        ) == r,
        released(drive_acts(bitmap, drive)) && left_ready(drive_acts(bitmap, drive), r) == r,
        released(span_of(area).acts(current, previous)) && left_ready(
            span_of(area).acts(current, previous),
            r,
        ) == r,
{
    lemma_calm_nothing();
    lemma_calm_ram(Cmd::WriteRamCurrent, bitmap, x, y, w, h);
    lemma_calm_ram(Cmd::WriteRamPrevious, bitmap, x, y, w, h);
    let a = if bank != Bank::Previous {
        ram_acts(Cmd::WriteRamCurrent, bitmap, x, y, w, h)
    } else {
        Seq::empty()
    };
    let b = if bank != Bank::Current {
        ram_acts(Cmd::WriteRamPrevious, bitmap, x, y, w, h)
    } else {
        Seq::empty()
    };
    lemma_calm_join(a, b);
    let (w, h) = (WIDTH as int, HEIGHT as int);
    let rows = Seq::new(
        HEIGHT as nat,
        |k: int|
            Seq::new(
                ROW_BYTES as nat,
                |i: int| driven_previous(bitmap, drive)(k * ROW_BYTES + i),
            ),
    );
    lemma_calm_ram(Cmd::WriteRamCurrent, bitmap, 0, 0, w, h);
    lemma_calm_image(Cmd::WriteRamPrevious, 0, 0, w, h, rows);
    lemma_calm_join(
        ram_acts(Cmd::WriteRamCurrent, bitmap, 0, 0, w, h),
        image_acts(Cmd::WriteRamPrevious, 0, 0, w, h, rows),
    );
    let s = span_of(area);
    if !s.is_empty() {
        let (dx, dy) = (s.y1 - s.y0, s.x1 - s.x0);
        lemma_calm_image(Cmd::WriteRamCurrent, s.y0, s.x0, dx, dy, s.rows(current));
        lemma_calm_image(Cmd::WriteRamPrevious, s.y0, s.x0, dx, dy, s.rows(previous));
        lemma_calm_join(
            image_acts(Cmd::WriteRamCurrent, s.y0, s.x0, dx, dy, s.rows(current)),
            image_acts(Cmd::WriteRamPrevious, s.y0, s.x0, dx, dy, s.rows(previous)),
        );
    }
}

/// Only a partial refresh leaves the panel primed; a full one, the probe and
/// powering off do not. The waveform from OTP is in force after a partial refresh
/// with it, and no longer after a full one or the probe; the other refreshes and
/// powering off leave the waveform alone. All of them transfer only while the chip
/// is selected, and release it.
pub proof fn law_priming(mode: Refresh, ready: Readiness, r: Readiness)
    ensures
        released(refresh_acts(ready, mode)),
        left_ready(refresh_acts(ready, mode), r) == (Readiness {
            primed: mode != Refresh::Full,
            differential: mode == Refresh::Partial || (mode != Refresh::Full && r.differential),
        }),
        released(probe_acts()),
        left_ready(probe_acts(), r) == (Readiness { primed: false, differential: false }),
        released(power_off_acts()),
        left_ready(power_off_acts(), r) == (Readiness { primed: false, ..r }),
{
    lemma_priming_refresh(mode, ready, r);

    let go = command_acts(Cmd::MasterActivation);
    lemma_calm_stream(Cmd::MasterActivation, Seq::empty());
    let t = seq![Act::StartTimer];
    lemma_calm_quiet(Act::StartTimer);
    let load = load_acts(waveform::probe_table(), Phase::LoadProbeLut);
    law_load(waveform::probe_table(), Phase::LoadProbeLut, r);
    let d = write_acts(Cmd::UpdateControl1, seq![0x00u8, 0x00u8]);
    lemma_calm_stream(Cmd::UpdateControl1, seq![seq![0x00u8, 0x00u8]]);
    let steps = seq![
        ENABLE_CLOCK | ENABLE_ANALOG | MODE_2 | DISPLAY | DISABLE_ANALOG | DISABLE_CLOCK,
    ];
    let e = write_acts(Cmd::UpdateControl2, steps);
    lemma_calm_stream(Cmd::UpdateControl2, seq![steps]);
    let w = seq![Act::WaitIdle(Phase::Probe, FULL_REFRESH_TIMEOUT_MS)];
    lemma_calm_quiet(Act::WaitIdle(Phase::Probe, FULL_REFRESH_TIMEOUT_MS));
    let stop = seq![Act::StopTimer];
    lemma_calm_quiet(Act::StopTimer);
    lemma_calm_join(d, e);
    lemma_calm_join(d + e, t);
    lemma_calm_join(d + e + t, go);
    lemma_calm_join(d + e + t + go, w);
    let held = Readiness { differential: false, ..r };
    lemma_noted(d + e + t + go + w, Act::Prime(false), stop, held);
    assert(left_ready(stop, held.noting(Act::Prime(false))) == held.noting(Act::Prime(false)));
    let tail = d + e + t + go + w + seq![Act::Prime(false)] + stop;
    lemma_acts_join(load, tail, false, r);
    assert(probe_acts() =~= load + tail);

    let down = seq![ENABLE_CLOCK | DISABLE_ANALOG | DISABLE_CLOCK];
    let f = write_acts(Cmd::UpdateControl2, down);
    lemma_calm_stream(Cmd::UpdateControl2, seq![down]);
    lemma_calm_join(f, go);
    let off = seq![Act::WaitIdle(Phase::PowerOff, PARTIAL_REFRESH_TIMEOUT_MS)];
    lemma_calm_quiet(Act::WaitIdle(Phase::PowerOff, PARTIAL_REFRESH_TIMEOUT_MS));
    lemma_noted(f + go, Act::Prime(false), off, r);
    assert(left_ready(off, r.noting(Act::Prime(false))) == r.noting(Act::Prime(false)));
    assert(power_off_acts() =~= f + go + seq![Act::Prime(false)] + off);
}

proof fn lemma_priming_refresh(mode: Refresh, ready: Readiness, r: Readiness)
    ensures
        released(refresh_acts(ready, mode)),
        left_ready(refresh_acts(ready, mode), r) == (Readiness {
            primed: mode != Refresh::Full,
            differential: mode == Refresh::Partial || (mode != Refresh::Full && r.differential),
        }),
{
    let a = write_acts(Cmd::UpdateControl1, update_control(mode));
    lemma_calm_stream(Cmd::UpdateControl1, seq![update_control(mode)]);
    let b = write_acts(Cmd::WriteVcom, seq![0x48u8]);
    lemma_calm_stream(Cmd::WriteVcom, seq![seq![0x48u8]]);
    let c = write_acts(Cmd::UpdateControl2, seq![update_sequence(ready, mode)]);
    lemma_calm_stream(Cmd::UpdateControl2, seq![seq![update_sequence(ready, mode)]]);
    let t = seq![Act::StartTimer];
    lemma_calm_quiet(Act::StartTimer);
    let go = command_acts(Cmd::MasterActivation);
    lemma_calm_stream(Cmd::MasterActivation, Seq::empty());
    let w = seq![Act::WaitIdle(Phase::Refresh, refresh_timeout(mode))];
    lemma_calm_quiet(Act::WaitIdle(Phase::Refresh, refresh_timeout(mode)));
    lemma_calm_join(a, b);
    lemma_calm_join(a + b, c);
    lemma_calm_join(a + b + c, t);
    lemma_calm_join(a + b + c + t, go);
    lemma_calm_join(a + b + c + t + go, w);
    let start = a + b + c + t + go + w;
    let on = Act::Prime(mode != Refresh::Full);
    let primed = r.noting(on);
    let stop = seq![Act::StopTimer];
    lemma_calm_quiet(Act::StopTimer);
    lemma_calm_nothing();
    let tail = waveform_acts(mode) + stop;
    assert(released(tail) && left_ready(tail, primed) == (Readiness {
        primed: mode != Refresh::Full,
        differential: mode == Refresh::Partial || (mode != Refresh::Full && r.differential),
    })) by {
        match mode {
            Refresh::Full => {
                lemma_noted(Seq::empty(), Act::Hold(false), stop, primed);
                assert(tail =~= Seq::empty() + seq![Act::Hold(false)] + stop);
                assert(left_ready(stop, primed.noting(Act::Hold(false))) == primed.noting(
                    Act::Hold(false),
                ));
            },
            Refresh::Partial => {
                lemma_noted(Seq::empty(), Act::Hold(true), stop, primed);
                assert(tail =~= Seq::empty() + seq![Act::Hold(true)] + stop);
                assert(left_ready(stop, primed.noting(Act::Hold(true))) == primed.noting(
                    Act::Hold(true),
                ));
            },
            _ => {
                assert(tail =~= stop);
                assert(left_ready(stop, primed) == primed);
            },
        }
    }
    lemma_noted(start, on, tail, r);
    assert(refresh_acts(ready, mode) =~= start + seq![on] + tail);
}

/// The bytes that stand for the sequences of steps.
proof fn lemma_sequence_bytes()
    ensures
        forall|r: Readiness| #[trigger]
            update_sequence(r, Refresh::Partial) == (if r.primed && r.differential {
                0x0Cu8
            } else {
                0xFCu8
            }),
        forall|r: Readiness| #[trigger]
            update_sequence(r, Refresh::PartialHybrid) == (if r.primed {
                0x0Cu8
            } else {
                0xCCu8
            }),
        forall|r: Readiness| #[trigger]
            update_sequence(r, Refresh::PartialFast) == (if r.primed {
                0x04u8
            } else {
                0xC4u8
            }),
        forall|r: Readiness| #[trigger] update_sequence(r, Refresh::Full) == 0xF7u8,
        ENABLE_CLOCK | DISABLE_ANALOG | DISABLE_CLOCK == 0x83u8,
{
    assert(0x80u8 | 0x40u8 | 0x20u8 | 0x10u8 | 0x04u8 | 0x02u8 | 0x01u8 == 0xF7u8) by (bit_vector);
    assert(0x08u8 | 0x04u8 == 0x0Cu8) by (bit_vector);
    assert(0x80u8 | 0x40u8 | 0x08u8 | 0x04u8 == 0xCCu8) by (bit_vector);
    assert(0x80u8 | 0x40u8 | 0x04u8 == 0xC4u8) by (bit_vector);
    assert(0x80u8 | 0x40u8 | 0x20u8 | 0x10u8 | 0x08u8 | 0x04u8 == 0xFCu8) by (bit_vector);
    assert(0x80u8 | 0x02u8 | 0x01u8 == 0x83u8) by (bit_vector);
}

/// What a refresh asks of the controller: every one displays; only a full one
/// powers down afterwards; a partial one on a primed panel does not power up,
/// unless it has to load its waveform; the refreshes with the waveform from OTP
/// load it, a partial one only where it is not in force already on a primed panel;
/// and the modes with a waveform of their own never load the one from OTP.
pub proof fn law_refresh_sequence(mode: Refresh, ready: Readiness)
    ensures
        update_sequence(ready, mode) & DISPLAY != 0,
        (update_sequence(ready, mode) & (DISABLE_ANALOG | DISABLE_CLOCK) != 0) == (mode
            == Refresh::Full),
        (update_sequence(ready, mode) & (ENABLE_CLOCK | ENABLE_ANALOG) == 0) == (ready.primed
            && mode != Refresh::Full && (mode == Refresh::Partial ==> ready.differential)),
        (update_sequence(ready, mode) & LOAD_LUT != 0) == (mode == Refresh::Full || (mode
            == Refresh::Partial && !(ready.primed && ready.differential))),
        (update_sequence(ready, mode) & MODE_2 != 0) == (mode == Refresh::Partial || mode
            == Refresh::PartialHybrid),
{
    let s = update_sequence(ready, mode);
    lemma_sequence_bytes();
    assert(s == 0xF7 || s == 0x0C || s == 0xCC || s == 0x04 || s == 0xC4 || s == 0xFC);
    assert({
        &&& s & 0x04 != 0
        &&& (s & (0x02u8 | 0x01u8) != 0) == (s == 0xF7)
        &&& (s & (0x80u8 | 0x40u8) == 0) == (s == 0x0C || s == 0x04)
        &&& (s & 0x10 != 0) == (s == 0xF7 || s == 0xFC)
        &&& (s & 0x08 != 0) == (s == 0x0C || s == 0xCC || s == 0xFC)
    }) by (bit_vector)
        requires
            s == 0xF7 || s == 0x0C || s == 0xCC || s == 0x04 || s == 0xC4 || s == 0xFC,
    ;
}

// Laws over several calls.

/// A call of the driver that was carried out.
pub enum Job {
    Init,
    Draw(Seq<u8>, int, int, int, int, Bank),
    Fill(u8),
    Drive(Seq<u8>, Seq<Seq<u8>>),
    Area(Rectangle, spec_fn(int) -> u8, spec_fn(int) -> u8),
    Refresh(Refresh),
    Load(Seq<u8>, Phase),
    Probe,
    Border(u8),
    PowerOff,
    Sleep,
}

impl Job {
    /// Its steps, on a panel that is so ready when it is asked for.
    pub open spec fn acts(self, ready: Readiness) -> Seq<Act> {
        match self {
            Job::Init => init_acts(),
            Job::Draw(bitmap, x, y, w, h, bank) => draw_acts(bitmap, x, y, w, h, bank),
            Job::Fill(pattern) => fill_acts(pattern),
            Job::Drive(target, drive) => drive_acts(target, drive),
            Job::Area(area, current, previous) => span_of(area).acts(current, previous),
            Job::Refresh(mode) => refresh_acts(ready, mode),
            Job::Load(table, phase) => load_acts(table, phase),
            Job::Probe => probe_acts(),
            Job::Border(value) => write_acts(Cmd::BorderWaveform, seq![value]),
            Job::PowerOff => power_off_acts(),
            Job::Sleep => sleep_acts(),
        }
    }

    /// How ready the panel is after it. [`Epd::init`] takes nothing for granted.
    pub open spec fn leaves(self, ready: Readiness) -> Readiness {
        left_ready(
            self.acts(ready),
            if self is Init {
                Readiness { primed: false, differential: false }
            } else {
                ready
            },
        )
    }

    /// Whether it raises the panel's supplies and leaves them up.
    pub open spec fn primes(self) -> bool {
        self matches Job::Refresh(mode) && mode != Refresh::Full
    }

    /// Whether the supplies are down after it.
    pub open spec fn powers_down(self) -> bool {
        self is Init || self == Job::Refresh(Refresh::Full) || self is Probe || self is PowerOff
    }

    /// Whether another waveform than the differential one from OTP is in force
    /// after it.
    pub open spec fn replaces_waveform(self) -> bool {
        self is Init || self == Job::Refresh(Refresh::Full) || self is Probe || self is Load
    }
}

/// How ready the panel is after some calls, one after the other.
pub open spec fn ready_after(start: Readiness, jobs: Seq<Job>) -> Readiness
    decreases jobs.len(),
{
    if jobs.len() == 0 {
        start
    } else {
        jobs.last().leaves(ready_after(start, jobs.drop_last()))
    }
}

/// Whether call `i` raised the supplies, and they have been up since.
pub open spec fn primed_since(jobs: Seq<Job>, i: int) -> bool {
    &&& 0 <= i < jobs.len()
    &&& jobs[i].primes()
    &&& forall|j: int| i < j < jobs.len() ==> !(#[trigger] jobs[j]).powers_down()
}

/// Whether call `i` was a partial refresh with the waveform from OTP, and that has
/// been in force since.
pub open spec fn differential_since(jobs: Seq<Job>, i: int) -> bool {
    &&& 0 <= i < jobs.len()
    &&& jobs[i] == Job::Refresh(Refresh::Partial)
    &&& forall|j: int| i < j < jobs.len() ==> !(#[trigger] jobs[j]).replaces_waveform()
}

/// What one call does to the panel's readiness.
proof fn lemma_job(job: Job, r: Readiness)
    ensures
        job.leaves(r) == (Readiness {
            primed: job.primes() || (!job.powers_down() && r.primed),
            differential: job == Job::Refresh(Refresh::Partial) || (!job.replaces_waveform()
                && r.differential),
        }),
{
    let blank = Readiness { primed: false, differential: false };
    match job {
        Job::Init => law_quiet_calls(0, 0, blank),
        Job::Draw(bitmap, x, y, w, h, bank) => {
            let none = driven_current(bitmap);
            law_quiet_images(bitmap, x, y, w, h, bank, Seq::empty(), arbitrary(), none, none, r);
        },
        Job::Fill(pattern) => law_quiet_calls(pattern, 0, r),
        Job::Drive(target, drive) => {
            let none = driven_current(target);
            law_quiet_images(
                target,
                0,
                0,
                0,
                0,
                Bank::Both,
                drive,
                arbitrary(),
                none,
                none,
                r,
            );
        },
        Job::Area(area, current, previous) => {
            law_quiet_images(
                Seq::empty(),
                0,
                0,
                0,
                0,
                Bank::Both,
                Seq::empty(),
                area,
                current,
                previous,
                r,
            );
        },
        Job::Refresh(mode) => law_priming(mode, r, r),
        Job::Load(table, phase) => law_load(table, phase, r),
        Job::Probe => law_priming(Refresh::Full, r, r),
        Job::Border(value) => law_quiet_calls(0, value, r),
        Job::PowerOff => law_priming(Refresh::Full, r, r),
        Job::Sleep => law_quiet_calls(0, 0, r),
    }
}

/// What the last of some calls does to what an earlier one began.
proof fn lemma_since(jobs: Seq<Job>, i: int)
    requires
        jobs.len() > 0,
    ensures
        0 <= i < jobs.len() - 1 ==> {
            &&& primed_since(jobs, i) == (primed_since(jobs.drop_last(), i)
                && !jobs.last().powers_down())
            &&& differential_since(jobs, i) == (differential_since(jobs.drop_last(), i)
                && !jobs.last().replaces_waveform())
        },
{
    let front = jobs.drop_last();
    if 0 <= i < front.len() {
        assert(jobs[jobs.len() - 1] == jobs.last());
        assert(forall|j: int| 0 <= j < front.len() ==> #[trigger] front[j] == jobs[j]);
        assert(forall|j: int| 0 <= j < front.len() ==> #[trigger] jobs[j] == front[j]);
    }
}

/// After any calls that start by initialising, the driver knows the panel: it
/// counts as primed exactly if its supplies have been up since some partial
/// refresh, and as holding the differential waveform from OTP exactly if that has
/// been in force since some partial refresh with it.
pub proof fn law_readiness(start: Readiness, jobs: Seq<Job>)
    requires
        jobs.len() > 0,
        jobs[0] is Init,
    ensures
        ready_after(start, jobs).primed == exists|i: int| primed_since(jobs, i),
        ready_after(start, jobs).differential == exists|i: int| differential_since(jobs, i),
    decreases jobs.len(),
{
    let n = jobs.len() - 1;
    let front = jobs.drop_last();
    let last = jobs.last();
    assert(jobs[n] == last);
    lemma_job(last, ready_after(start, front));
    if front.len() == 0 {
        assert(ready_after(start, front) == start);
        assert forall|i: int| !primed_since(jobs, i) && !differential_since(jobs, i) by {}
    } else {
        law_readiness(start, front);
        assert(primed_since(jobs, n) == last.primes());
        assert(differential_since(jobs, n) == (last == Job::Refresh(Refresh::Partial)));
        if exists|i: int| primed_since(jobs, i) {
            let i = choose|i: int| primed_since(jobs, i);
            lemma_since(jobs, i);
        }
        if exists|i: int| differential_since(jobs, i) {
            let i = choose|i: int| differential_since(jobs, i);
            lemma_since(jobs, i);
        }
        if exists|i: int| primed_since(front, i) {
            let i = choose|i: int| primed_since(front, i);
            lemma_since(jobs, i);
        }
        if exists|i: int| differential_since(front, i) {
            let i = choose|i: int| differential_since(front, i);
            lemma_since(jobs, i);
        }
    }
}

/// A partial refresh uses the waveform from OTP: after any calls that start by
/// initialising, it loads that waveform, unless the supplies are up and the
/// waveform has been in force since an earlier partial refresh. In that case it
/// only displays.
pub proof fn law_partial_uses_otp(start: Readiness, jobs: Seq<Job>)
    requires
        jobs.len() > 0,
        jobs[0] is Init,
    ensures
        ({
            let ready = ready_after(start, jobs);
            let displays_only = (exists|i: int| primed_since(jobs, i)) && (exists|i: int|
                differential_since(jobs, i));
            &&& update_control(Refresh::Partial) == seq![0x00u8, 0x00u8]
            &&& update_sequence(ready, Refresh::Partial) == (if displays_only {
                0x0Cu8
            } else {
                0xFCu8
            })
            &&& (update_sequence(ready, Refresh::Partial) & LOAD_LUT != 0) == !displays_only
        }),
{
    law_readiness(start, jobs);
    law_refresh_sequence(Refresh::Partial, ready_after(start, jobs));
    lemma_sequence_bytes();
}

/// The first partial refresh after initialising powers up, loads its waveform and
/// displays. The second only displays if nothing stood between that powers down or
/// replaces the waveform, and else does all of it again.
pub proof fn law_two_partials(start: Readiness, between: Option<Job>)
    ensures
        ({
            let first = ready_after(start, seq![Job::Init]);
            let jobs = seq![Job::Init, Job::Refresh(Refresh::Partial)];
            let second = ready_after(
                start,
                match between {
                    Some(job) => jobs.push(job),
                    None => jobs,
                },
            );
            let undone = between matches Some(job) && job != Job::Refresh(Refresh::Partial) && (
            job.powers_down() || job.replaces_waveform());
            &&& update_sequence(first, Refresh::Partial) == 0xFC
            &&& update_sequence(second, Refresh::Partial) == (if undone {
                0xFCu8
            } else {
                0x0Cu8
            })
        }),
{
    let jobs = seq![Job::Init, Job::Refresh(Refresh::Partial)];
    let one = seq![Job::Init];
    assert(one.drop_last() =~= Seq::empty());
    assert(one.last() is Init);
    assert(jobs.drop_last() =~= one);
    assert(jobs.last() == Job::Refresh(Refresh::Partial));
    assert(ready_after(start, Seq::<Job>::empty()) == start);
    lemma_job(Job::Init, start);
    lemma_job(Job::Refresh(Refresh::Partial), ready_after(start, one));
    if let Some(job) = between {
        assert(jobs.push(job).drop_last() =~= jobs);
        lemma_job(job, ready_after(start, jobs));
    }
    lemma_sequence_bytes();
}

// Laws on what goes over the bus.

/// Every pixel of a driven pass: in the current bank it is the target's, in the
/// previous one it is flipped exactly where some mask marks it.
pub proof fn law_driven_bits(target: Seq<u8>, drive: Seq<Seq<u8>>, x: int, y: int)
    ensures
        ({
            let (j, m) = (byte_index(x, y), bit_mask(y));
            let wanted = bit_set(target, x, y);
            &&& (driven_current(target)(j) & m != 0) == wanted
            &&& (driven_previous(target, drive)(j) & m != 0) == (wanted != any_marked(drive, j, m))
        }),
{
    let j = byte_index(x, y);
    lemma_any_marked(drive, j, bit_mask(y));
    lemma_flipped(target[j], any_of(drive, j), y);
}

/// Every pixel of a graded pass, ink and paper alike: in the previous bank it is
/// flipped exactly where it is fresh, in the current one exactly where it is
/// healing and not fresh.
pub proof fn law_graded_bits(
    target: Seq<u8>,
    fresh: Seq<u8>,
    older: Seq<Seq<u8>>,
    x: int,
    y: int,
)
    ensures
        ({
            let (j, m) = (byte_index(x, y), bit_mask(y));
            let wanted = bit_set(target, x, y);
            let new = bit_set(fresh, x, y);
            let healing = any_marked(older, j, m);
            &&& (graded_previous(target, fresh)(j) & m != 0) == (wanted != new)
            &&& (graded_current(target, fresh, older)(j) & m != 0) == (wanted != (healing && !new))
        }),
{
    let j = byte_index(x, y);
    lemma_any_marked(older, j, bit_mask(y));
    lemma_flipped(target[j], fresh[j], y);
    lemma_flipped(any_of(older, j), fresh[j], y);
    lemma_flipped(target[j], any_of(older, j) & !fresh[j], y);
}

/// A command goes out alone while the data line is low, its data after it while it
/// is high, each with the chip selected around it.
pub proof fn law_write_on_bus(cmd: Cmd, data: Seq<u8>)
    ensures
        command_acts(cmd).len() == 4,
        command_acts(cmd)[0] == Act::Level(Pin::Dc, false),
        command_acts(cmd)[1] == Act::Level(Pin::Cs, false),
        command_acts(cmd)[2] == Act::Send(seq![cmd.byte()]),
        command_acts(cmd)[3] == Act::Level(Pin::Cs, true),
        write_acts(cmd, data).len() == 8,
        write_acts(cmd, data).take(4) == command_acts(cmd),
        write_acts(cmd, data)[4] == Act::Level(Pin::Dc, true),
        write_acts(cmd, data)[5] == Act::Level(Pin::Cs, false),
        write_acts(cmd, data)[6] == Act::Send(data),
        write_acts(cmd, data)[7] == Act::Level(Pin::Cs, true),
{
    assert(write_acts(cmd, data).take(4) =~= command_acts(cmd));
}

proof fn lemma_told_command(cmd: Cmd, data: bool, so_far: Seq<(u8, Seq<u8>)>)
    ensures
        told(command_acts(cmd), data, so_far) == (
            false,
            so_far.push((cmd.byte(), Seq::<u8>::empty())),
        ),
{
    reveal_with_fuel(told, 5);
    let a = command_acts(cmd);
    assert(a.skip(1).skip(1).skip(1).skip(1) =~= Seq::empty());
}

proof fn lemma_told_write(cmd: Cmd, bytes: Seq<u8>, data: bool, so_far: Seq<(u8, Seq<u8>)>)
    ensures
        told(write_acts(cmd, bytes), data, so_far) == (true, so_far.push((cmd.byte(), bytes))),
{
    let a = command_acts(cmd);
    let b = seq![
        Act::Level(Pin::Dc, true),
        Act::Level(Pin::Cs, false),
        Act::Send(bytes),
        Act::Level(Pin::Cs, true),
    ];
    assert(write_acts(cmd, bytes) =~= a + b);
    lemma_told_join(a, b, data, so_far);
    lemma_told_command(cmd, data, so_far);
    reveal_with_fuel(told, 5);
    assert(b.skip(1).skip(1).skip(1).skip(1) =~= Seq::empty());
    let said = so_far.push((cmd.byte(), Seq::<u8>::empty()));
    assert(said.drop_last() =~= so_far);
    assert(Seq::<u8>::empty() + bytes =~= bytes);
}

/// Steps that move no byte are not heard.
proof fn lemma_told_nothing(acts: Seq<Act>, data: bool, so_far: Seq<(u8, Seq<u8>)>)
    requires
        forall|i: int|
            0 <= i < acts.len() ==> !(#[trigger] acts[i] is Send) && (acts[i] matches Act::Level(
                pin,
                level,
            ) ==> pin != Pin::Dc),
    ensures
        told(acts, data, so_far) == (data, so_far),
    decreases acts.len(),
{
    if acts.len() > 0 {
        let rest = acts.skip(1);
        assert forall|i: int| 0 <= i < rest.len() implies !(#[trigger] rest[i] is Send) && (
        rest[i] matches Act::Level(pin, level) ==> pin != Pin::Dc) by {
            assert(rest[i] == acts[i + 1]);
        }
        assert(!(acts[0] is Send));
        lemma_told_nothing(rest, data, so_far);
    }
}

/// What selecting a window tells the controller: to count up on both axes, where
/// the window starts and ends on each, and to begin at its corner, all numbers
/// with the low byte first.
pub proof fn law_window_told(x: int, y: int, w: int, h: int, data: bool)
    requires
        0 <= x,
        0 <= y,
        1 <= w,
        1 <= h,
        x + w <= 0x1_0000,
        y + h <= 0x1_0000,
    ensures
        ({
            let (x1, y1) = (x + w - 1, y + h - 1);
            told(window_acts(x, y, w, h), data, Seq::empty()).1 == seq![
                (0x11u8, seq![0x03u8]),
                (
                    0x44u8,
                    seq![
                        (x % 256) as u8,
                        (x / 256) as u8,
                        (x1 % 256) as u8,
                        (x1 / 256) as u8,
                    ],
                ),
                (
                    0x45u8,
                    seq![
                        (y % 256) as u8,
                        (y / 256) as u8,
                        (y1 % 256) as u8,
                        (y1 / 256) as u8,
                    ],
                ),
                (0x4Eu8, seq![(x % 256) as u8, (x / 256) as u8]),
                (0x4Fu8, seq![(y % 256) as u8, (y / 256) as u8]),
            ]
        }),
{
    lemma_window_told(x, y, w, h, data, Seq::empty());
    let (x1, y1) = (x + w - 1, y + h - 1);
    assert(word(x) + word(x1) =~= seq![
        (x % 256) as u8,
        (x / 256) as u8,
        (x1 % 256) as u8,
        (x1 / 256) as u8,
    ]);
    assert(word(y) + word(y1) =~= seq![
        (y % 256) as u8,
        (y / 256) as u8,
        (y1 % 256) as u8,
        (y1 / 256) as u8,
    ]);
}

proof fn lemma_window_told(
    x: int,
    y: int,
    w: int,
    h: int,
    data: bool,
    so_far: Seq<(u8, Seq<u8>)>,
)
    ensures
        told(window_acts(x, y, w, h), data, so_far) == (
            true,
            so_far + seq![
                (0x11u8, seq![0x03u8]),
                (0x44u8, word(x) + word(x + w - 1)),
                (0x45u8, word(y) + word(y + h - 1)),
                (0x4Eu8, word(x)),
                (0x4Fu8, word(y)),
            ],
        ),
{
    let a = write_acts(Cmd::DataEntryMode, seq![0x03u8]);
    let b = write_acts(Cmd::RamXRange, word(x) + word(x + w - 1));
    let c = write_acts(Cmd::RamYRange, word(y) + word(y + h - 1));
    let d = write_acts(Cmd::RamXCounter, word(x));
    let e = write_acts(Cmd::RamYCounter, word(y));
    let s1 = so_far.push((0x11u8, seq![0x03u8]));
    let s2 = s1.push((0x44u8, word(x) + word(x + w - 1)));
    let s3 = s2.push((0x45u8, word(y) + word(y + h - 1)));
    let s4 = s3.push((0x4Eu8, word(x)));
    lemma_told_join(a + b + c + d, e, data, so_far);
    lemma_told_join(a + b + c, d, data, so_far);
    lemma_told_join(a + b, c, data, so_far);
    lemma_told_join(a, b, data, so_far);
    lemma_told_write(Cmd::DataEntryMode, seq![0x03u8], data, so_far);
    lemma_told_write(Cmd::RamXRange, word(x) + word(x + w - 1), true, s1);
    lemma_told_write(Cmd::RamYRange, word(y) + word(y + h - 1), true, s2);
    lemma_told_write(Cmd::RamXCounter, word(x), true, s3);
    lemma_told_write(Cmd::RamYCounter, word(y), true, s4);
    assert(s4.push((0x4Fu8, word(y))) =~= so_far + seq![
        (0x11u8, seq![0x03u8]),
        (0x44u8, word(x) + word(x + w - 1)),
        (0x45u8, word(y) + word(y + h - 1)),
        (0x4Eu8, word(x)),
        (0x4Fu8, word(y)),
    ]);
}

/// What a refresh tells the controller: whether the previous image counts, the
/// common voltage, which steps to run, and to run them.
pub proof fn law_refresh_told(ready: Readiness, mode: Refresh, data: bool)
    ensures
        ({
            let bypass = if mode == Refresh::Full || mode == Refresh::PartialFast {
                0x40u8
            } else {
                0x00u8
            };
            let steps = if mode == Refresh::Full {
                0xF7u8
            } else if mode == Refresh::PartialFast {
                if ready.primed {
                    0x04u8
                } else {
                    0xC4u8
                }
            } else if mode == Refresh::PartialHybrid {
                if ready.primed {
                    0x0Cu8
                } else {
                    0xCCu8
                }
            } else if ready.primed && ready.differential {
                0x0Cu8
            } else {
                0xFCu8
            };
            told(refresh_acts(ready, mode), data, Seq::empty()).1 == seq![
                (0x21u8, seq![bypass, 0x00u8]),
                (0x2Cu8, seq![0x48u8]),
                (0x22u8, seq![steps]),
                (0x20u8, Seq::<u8>::empty()),
            ]
        }),
{
    let steps = update_sequence(ready, mode);
    lemma_sequence_bytes();
    let none = Seq::<(u8, Seq<u8>)>::empty();
    let a = write_acts(Cmd::UpdateControl1, update_control(mode));
    let b = write_acts(Cmd::WriteVcom, seq![0x48u8]);
    let c = write_acts(Cmd::UpdateControl2, seq![steps]);
    let t = seq![Act::StartTimer];
    let go = command_acts(Cmd::MasterActivation);
    let w = seq![
        Act::WaitIdle(Phase::Refresh, refresh_timeout(mode)),
        Act::Prime(mode != Refresh::Full),
    ];
    let f = waveform_acts(mode);
    let e = seq![Act::StopTimer];
    let s1 = none.push((0x21u8, update_control(mode)));
    let s2 = s1.push((0x2Cu8, seq![0x48u8]));
    let s3 = s2.push((0x22u8, seq![steps]));
    let s4 = s3.push((0x20u8, Seq::<u8>::empty()));
    lemma_told_join(a + b + c + t + go + w + f, e, data, none);
    lemma_told_join(a + b + c + t + go + w, f, data, none);
    lemma_told_join(a + b + c + t + go, w, data, none);
    lemma_told_join(a + b + c + t, go, data, none);
    lemma_told_join(a + b + c, t, data, none);
    lemma_told_join(a + b, c, data, none);
    lemma_told_join(a, b, data, none);
    lemma_told_write(Cmd::UpdateControl1, update_control(mode), data, none);
    lemma_told_write(Cmd::WriteVcom, seq![0x48u8], true, s1);
    lemma_told_write(Cmd::UpdateControl2, seq![steps], true, s2);
    lemma_told_nothing(t, true, s3);
    lemma_told_command(Cmd::MasterActivation, true, s3);
    lemma_told_nothing(w, false, s4);
    lemma_told_nothing(f, false, s4);
    lemma_told_nothing(e, false, s4);
}

/// What loading a waveform tells the controller: the whole table as it is, the
/// voltages that go with it, and the common voltage.
pub proof fn law_load_told(table: Seq<u8>, phase: Phase, data: bool)
    ensures
        told(load_acts(table, phase), data, Seq::empty()).1 == seq![
            (0x32u8, table),
            (0x03u8, seq![0x17u8]),
            (0x04u8, seq![0x41u8, 0xA8u8, 0x32u8]),
            (0x2Cu8, seq![0x48u8]),
        ],
{
    let none = Seq::<(u8, Seq<u8>)>::empty();
    let a = seq![Act::Hold(false)];
    let b = write_acts(Cmd::WriteLut, table);
    let c = seq![Act::WaitIdle(phase, RESET_TIMEOUT_MS)];
    let g = write_acts(Cmd::GateDrivingVoltage, seq![0x17u8]);
    let s = write_acts(Cmd::SourceDrivingVoltage, seq![0x41u8, 0xA8u8, 0x32u8]);
    let e = write_acts(Cmd::WriteVcom, seq![0x48u8]);
    let s1 = none.push((0x32u8, table));
    let s2 = s1.push((0x03u8, seq![0x17u8]));
    let s3 = s2.push((0x04u8, seq![0x41u8, 0xA8u8, 0x32u8]));
    assert(load_acts(table, phase) =~= a + b + c + g + s + e);
    lemma_told_join(a + b + c + g + s, e, data, none);
    lemma_told_join(a + b + c + g, s, data, none);
    lemma_told_join(a + b + c, g, data, none);
    lemma_told_join(a + b, c, data, none);
    lemma_told_join(a, b, data, none);
    lemma_told_nothing(a, data, none);
    lemma_told_write(Cmd::WriteLut, table, data, none);
    lemma_told_nothing(c, true, s1);
    lemma_told_write(Cmd::GateDrivingVoltage, seq![0x17u8], true, s1);
    lemma_told_write(Cmd::SourceDrivingVoltage, seq![0x41u8, 0xA8u8, 0x32u8], true, s2);
    lemma_told_write(Cmd::WriteVcom, seq![0x48u8], true, s3);
}

/// How many bytes of a bitmap have to be there: up to the last one that is sent,
/// which is in the last row on the panel, as far as that row is on the panel; none
/// where nothing is.
pub proof fn law_bitmap_bytes(x: int, y: int, w: int, h: int)
    requires
        0 <= x,
        0 <= y,
        0 <= w,
        0 <= h,
    ensures
        x >= 800 || y >= 480 || w < 8 || h == 0 ==> bitmap_bytes(x, y, w, h) == 0,
        x < 800 && y < 480 && w >= 8 && h > 0 ==> {
            let rows = if y + h <= 480 {
                h
            } else {
                480 - y
            };
            let len = if x / 8 + w / 8 <= 100 {
                w / 8
            } else {
                100 - x / 8
            };
            bitmap_bytes(x, y, w, h) == (rows - 1) * (w / 8) + len
        },
{
}

/// How many bytes of an image have to be there for a span of it: up to the byte of
/// its last pixel, or none.
pub proof fn law_span_end(s: Span)
    requires
        0 <= s.x0,
        0 <= s.y0,
        s.y1 % 8 == 0,
    ensures
        s.x0 >= s.x1 || s.y0 >= s.y1 ==> s.end() == 0,
        s.x0 < s.x1 && s.y0 < s.y1 ==> s.end() == 100 * (s.x1 - 1) + (s.y1 - 1) / 8 + 1,
{
}

/// Masks reach as far as the shortest of them.
pub proof fn law_masks_reach(masks: Seq<&[u8]>, n: int)
    ensures
        masks_reach(masks, n) <==> forall|i: int|
            0 <= i < masks.len() ==> n <= #[trigger] masks[i]@.len(),
{
}

/// What stands for each command, as the controller's maker gives it.
pub proof fn law_command_bytes(cmd: Cmd, other: Cmd)
    ensures
        cmd.byte() == other.byte() ==> cmd == other,
        Cmd::DriverOutputControl.byte() == 0x01,
        Cmd::GateDrivingVoltage.byte() == 0x03,
        Cmd::SourceDrivingVoltage.byte() == 0x04,
        Cmd::BoosterSoftStart.byte() == 0x0C,
        Cmd::DeepSleep.byte() == 0x10,
        Cmd::DataEntryMode.byte() == 0x11,
        Cmd::SwReset.byte() == 0x12,
        Cmd::TemperatureSensor.byte() == 0x18,
        Cmd::MasterActivation.byte() == 0x20,
        Cmd::UpdateControl1.byte() == 0x21,
        Cmd::UpdateControl2.byte() == 0x22,
        Cmd::WriteRamCurrent.byte() == 0x24,
        Cmd::WriteRamPrevious.byte() == 0x26,
        Cmd::WriteLut.byte() == 0x32,
        Cmd::WriteVcom.byte() == 0x2C,
        Cmd::BorderWaveform.byte() == 0x3C,
        Cmd::RamXRange.byte() == 0x44,
        Cmd::RamYRange.byte() == 0x45,
        Cmd::RamXCounter.byte() == 0x4E,
        Cmd::RamYCounter.byte() == 0x4F,
{
}

/// Waiting ends when the panel is idle, and at the latest when the time is up:
/// whatever the clock says, an idle panel is waited for no longer, and a busy one
/// exactly until more microseconds have gone by than the milliseconds allow.
pub proof fn law_waiting_ends(busy: bool, started: i64, now: i64, timeout_ms: u32, r: Busy)
    requires
        call_ensures(busy_step, (busy, started, now, timeout_ms), r),
    ensures
        r == Busy::Idle <==> !busy,
        r == Busy::TimedOut <==> busy && now > started + 1000 * timeout_ms,
        r == Busy::Poll <==> busy && now <= started + 1000 * timeout_ms,
{
}

/// A refresh took as many milliseconds as whole ones went by.
pub proof fn law_elapsed(started: i64, now: i64, ms: u32)
    requires
        call_ensures(elapsed_ms, (started, now), ms),
        0 <= now - started <= 4_000_000_000_000,
    ensures
        1000 * ms <= now - started < 1000 * (ms + 1),
{
}

/// When the panel is waited for: after the activation of a refresh, timed from
/// just before that to the end, for five seconds at most if it is a full one and
/// two otherwise; after a table was written, for one; and after powering off, for
/// two.
pub proof fn law_waits(ready: Readiness, mode: Refresh, table: Seq<u8>, phase: Phase)
    ensures
        ({
            let a = refresh_acts(ready, mode);
            &&& a[24] == Act::StartTimer
            &&& a.subrange(25, 29) == command_acts(Cmd::MasterActivation)
            &&& a[29] == Act::WaitIdle(
                Phase::Refresh,
                if mode == Refresh::Full {
                    5_000
                } else {
                    2_000
                },
            )
            &&& a[30] == Act::Prime(mode != Refresh::Full)
            &&& a.last() == Act::StopTimer
        }),
        load_acts(table, phase)[0] == Act::Hold(false),
        load_acts(table, phase)[9] == Act::WaitIdle(phase, 1_000),
        power_off_acts().subrange(8, 12) == command_acts(Cmd::MasterActivation),
        power_off_acts()[12] == Act::Prime(false),
        power_off_acts().last() == Act::WaitIdle(Phase::PowerOff, 2_000),
{
    let go = command_acts(Cmd::MasterActivation);
    assert(refresh_acts(ready, mode).subrange(25, 29) =~= go);
    assert(power_off_acts().subrange(8, 12) =~= go);
}

} // verus!
