//! Driver for the FT6336U capacitive touch controller bonded to the panel.
//!
//! Coordinates are reported for the panel held in portrait: `x` across the short
//! edge, `y` along the long one. Every call returns the I2C transfers that it
//! takes; [`Ft6336::read`] then makes touches of what came back.

use vstd::prelude::*;

verus! {

/// The controller's address on the bus.
pub const ADDR: u8 = 0x38;

pub const I2C_TIMEOUT_MS: u64 = 20;

pub const I2C_KHZ: u32 = 400;

/// The controller tracks at most two fingers.
pub const MAX_TOUCHES: usize = 2;

/// Bytes per touch point: x high and low, y high and low, weight, area.
pub const POINT_BYTES: usize = 6;

/// One burst covers the status byte and every point block behind it.
pub const BURST_BYTES: usize = 13;

/// What [`Reg::ChipId`] reads on this controller.
pub const CHIP_ID_FT6336U: u8 = 0x64;

/// How hard a press has to be before it counts.
pub const TOUCH_THRESHOLD: u8 = 12;

/// The weight of the old sample in the filter on the reported coordinate.
pub const COORD_THRESHOLD: u8 = 64;

/// 0 keeps the controller scanning when idle.
pub const STAY_ACTIVE: u8 = 0;

/// How long without a touch before dropping into monitor mode.
pub const TIME_ENTER_MONITOR: u8 = 30;

/// Scan period in active mode.
pub const SCAN_PERIOD_MS: u8 = 10;

/// Scan period in monitor mode.
pub const MONITOR_PERIOD_MS: u8 = 40;

/// The controller's registers.
#[derive(Clone, Copy, Debug, PartialEq, Eq, Structural)]
pub enum Reg {
    /// 0 for normal reporting.
    DeviceMode,
    /// Low nibble: how many points are down.
    NumTouches,
    /// First of the point blocks.
    Touch1,
    Threshold,
    CoordThreshold,
    Ctrl,
    TimeEnterMonitor,
    ScanPeriod,
    MonitorPeriod,
    ChipId,
    /// 0: the interrupt line stays low while a finger is down.
    InterruptMode,
    FirmwareVersion,
}

impl Reg {
    /// The register's address.
    pub open spec fn address(self) -> u8 {
        match self {
            Reg::DeviceMode => 0x00u8,
            Reg::NumTouches => 0x02u8,
            Reg::Touch1 => 0x03u8,
            Reg::Threshold => 0x80u8,
            Reg::CoordThreshold => 0x85u8,
            Reg::Ctrl => 0x86u8,
            Reg::TimeEnterMonitor => 0x87u8,
            Reg::ScanPeriod => 0x88u8,
            Reg::MonitorPeriod => 0x89u8,
            Reg::ChipId => 0xA3u8,
            Reg::InterruptMode => 0xA4u8,
            Reg::FirmwareVersion => 0xA6u8,
        }
    }

    pub fn code(self) -> (b: u8)
        ensures
            b == self.address(),
    {
        match self {
            Reg::DeviceMode => 0x00,
            Reg::NumTouches => 0x02,
            Reg::Touch1 => 0x03,
            Reg::Threshold => 0x80,
            Reg::CoordThreshold => 0x85,
            Reg::Ctrl => 0x86,
            Reg::TimeEnterMonitor => 0x87,
            Reg::ScanPeriod => 0x88,
            Reg::MonitorPeriod => 0x89,
            Reg::ChipId => 0xA3,
            Reg::InterruptMode => 0xA4,
            Reg::FirmwareVersion => 0xA6,
        }
    }
}

/// One exchange with the controller.
#[derive(Clone, Copy, Debug, PartialEq, Eq, Structural)]
pub enum Transfer {
    /// Sets a register.
    Write(Reg, u8),
    /// Reads this many bytes from a register on.
    Read(Reg, usize),
}

impl Transfer {
    /// The bytes that are sent.
    pub open spec fn sent(self) -> Seq<u8> {
        match self {
            Transfer::Write(reg, value) => seq![reg.address(), value],
            Transfer::Read(reg, len) => seq![reg.address()],
        }
    }

    /// How many bytes are read back.
    pub open spec fn received(self) -> usize {
        match self {
            Transfer::Write(reg, value) => 0usize,
            Transfer::Read(reg, len) => len,
        }
    }

    /// The bytes to send, and how many to read back after them.
    pub fn exchange(&self) -> (r: (Vec<u8>, usize))
        ensures
            r.0@ == self.sent(),
            r.1 == self.received(),
    {
        match self {
            Transfer::Write(reg, value) => {
                let bytes: Vec<u8> = vec![reg.code(), *value];
                assert(bytes@ =~= self.sent());
                (bytes, 0)
            },
            Transfer::Read(reg, len) => {
                let bytes: Vec<u8> = vec![reg.code()];
                assert(bytes@ =~= self.sent());
                (bytes, *len)
            },
        }
    }
}

/// The transition a point reports.
#[derive(Clone, Copy, Debug, PartialEq, Eq, Structural)]
pub enum Event {
    PressDown,
    LiftUp,
    Contact,
    Absent,
}

/// The event in the top two bits of a point's first byte.
pub open spec fn event_of(byte: u8) -> Event {
    if byte < 0x40 {
        Event::PressDown
    } else if byte < 0x80 {
        Event::LiftUp
    } else if byte < 0xC0 {
        Event::Contact
    } else {
        Event::Absent
    }
}

impl Event {
    /// Whether a finger is there. A point that is lifting or absent carries
    /// stale coordinates.
    pub open spec fn down(self) -> bool {
        self == Event::PressDown || self == Event::Contact
    }

    pub fn from_x_high(byte: u8) -> (e: Event)
        ensures
            e == event_of(byte),
    {
        match byte / 64 {
            0 => Event::PressDown,
            1 => Event::LiftUp,
            2 => Event::Contact,
            _ => Event::Absent,
        }
    }

    pub fn is_down(self) -> (r: bool)
        ensures
            r == self.down(),
    {
        match self {
            Event::PressDown => true,
            Event::Contact => true,
            _ => false,
        }
    }
}

/// A finger on the glass.
#[derive(Clone, Copy, Debug, PartialEq, Eq, Structural)]
pub struct Touch {
    /// Across the short edge of the panel.
    pub x: u16,
    /// Along the long edge.
    pub y: u16,
    /// Finger id, stable while that finger stays down.
    pub id: u8,
}

/// The touch that a point block reports. The high bytes carry the event and the
/// finger id in their top bits; the low nibbles belong to the coordinates.
pub open spec fn touch_of(point: Seq<u8>) -> Option<Touch> {
    if event_of(point[0]).down() {
        Some(
            Touch {
                x: (point[0] % 16 * 256 + point[1]) as u16,
                y: (point[2] % 16 * 256 + point[3]) as u16,
                id: (point[2] / 16) as u8,
            },
        )
    } else {
        None
    }
}

/// Point block `k` of a burst.
pub open spec fn point_block(burst: Seq<u8>, k: int) -> Seq<u8> {
    burst.subrange(1 + k * POINT_BYTES, 1 + (k + 1) * POINT_BYTES)
}

/// How many points a burst reports, as far as there are blocks for them.
pub open spec fn reported(burst: Seq<u8>) -> int {
    if burst[0] % 16 < MAX_TOUCHES {
        burst[0] as int % 16
    } else {
        MAX_TOUCHES as int
    }
}

/// The touches in the first `n` blocks of a burst.
pub open spec fn touches_in(burst: Seq<u8>, n: int) -> Seq<Touch>
    decreases n,
{
    if n <= 0 {
        Seq::empty()
    } else {
        match touch_of(point_block(burst, n - 1)) {
            Some(touch) => touches_in(burst, n - 1).push(touch),
            None => touches_in(burst, n - 1),
        }
    }
}

/// The transfers that set the controller up: its chip id, the tuning, and then
/// everything read back for the log.
pub open spec fn setup_transfers() -> Seq<Transfer> {
    seq![
        Transfer::Read(Reg::ChipId, 1),
        Transfer::Write(Reg::DeviceMode, 0),
        Transfer::Write(Reg::Threshold, TOUCH_THRESHOLD),
        Transfer::Write(Reg::CoordThreshold, COORD_THRESHOLD),
        Transfer::Write(Reg::TimeEnterMonitor, TIME_ENTER_MONITOR),
        Transfer::Write(Reg::ScanPeriod, SCAN_PERIOD_MS),
        Transfer::Write(Reg::MonitorPeriod, MONITOR_PERIOD_MS),
        Transfer::Write(Reg::InterruptMode, 0),
        Transfer::Write(Reg::Ctrl, STAY_ACTIVE),
        Transfer::Read(Reg::FirmwareVersion, 1),
        Transfer::Read(Reg::DeviceMode, 1),
        Transfer::Read(Reg::InterruptMode, 1),
        Transfer::Read(Reg::NumTouches, 1),
        Transfer::Read(Reg::Threshold, 1),
        Transfer::Read(Reg::CoordThreshold, 1),
        Transfer::Read(Reg::Ctrl, 1),
        Transfer::Read(Reg::ScanPeriod, 1),
        Transfer::Read(Reg::TimeEnterMonitor, 1),
        Transfer::Read(Reg::MonitorPeriod, 1),
    ]
}

/// The touch controller's driver.
#[derive(Debug)]
pub struct Ft6336 {}

impl Ft6336 {
    /// A driver, and the transfers that set the controller up, in order. The
    /// first that fails ends the setup.
    pub fn new() -> (r: (Ft6336, Vec<Transfer>))
        ensures
            r.1@ == setup_transfers(),
    {
        let transfers: Vec<Transfer> = vec![
            Transfer::Read(Reg::ChipId, 1),
            Transfer::Write(Reg::DeviceMode, 0),
            Transfer::Write(Reg::Threshold, TOUCH_THRESHOLD),
            Transfer::Write(Reg::CoordThreshold, COORD_THRESHOLD),
            Transfer::Write(Reg::TimeEnterMonitor, TIME_ENTER_MONITOR),
            Transfer::Write(Reg::ScanPeriod, SCAN_PERIOD_MS),
            Transfer::Write(Reg::MonitorPeriod, MONITOR_PERIOD_MS),
            Transfer::Write(Reg::InterruptMode, 0),
            Transfer::Write(Reg::Ctrl, STAY_ACTIVE),
            Transfer::Read(Reg::FirmwareVersion, 1),
            Transfer::Read(Reg::DeviceMode, 1),
            Transfer::Read(Reg::InterruptMode, 1),
            Transfer::Read(Reg::NumTouches, 1),
            Transfer::Read(Reg::Threshold, 1),
            Transfer::Read(Reg::CoordThreshold, 1),
            Transfer::Read(Reg::Ctrl, 1),
            Transfer::Read(Reg::ScanPeriod, 1),
            Transfer::Read(Reg::TimeEnterMonitor, 1),
            Transfer::Read(Reg::MonitorPeriod, 1),
        ];
        assert(transfers@ =~= setup_transfers());
        (Ft6336 {  }, transfers)
    }

    /// Whether the chip id read during setup is worth a warning. The setup goes
    /// on regardless.
    pub fn is_unexpected_chip(&self, chip_id: u8) -> (r: bool)
        ensures
            r == (chip_id != CHIP_ID_FT6336U),
    {
        chip_id != CHIP_ID_FT6336U
    }

    /// Retunes the active scan period.
    pub fn set_scan_period(&self, ms: u8) -> (t: Transfer)
        ensures
            t == Transfer::Write(Reg::ScanPeriod, ms),
    {
        Transfer::Write(Reg::ScanPeriod, ms)
    }

    /// Retunes the coordinate filter.
    pub fn set_coord_threshold(&self, value: u8) -> (t: Transfer)
        ensures
            t == Transfer::Write(Reg::CoordThreshold, value),
    {
        Transfer::Write(Reg::CoordThreshold, value)
    }

    /// Whether there is something to read, from the level of the interrupt line.
    pub fn is_touched(&self, line_is_low: bool) -> (r: bool)
        ensures
            r == line_is_low,
    {
        line_is_low
    }

    /// The transfer whose outcome goes into [`Ft6336::read`].
    pub fn burst(&self) -> (t: Transfer)
        ensures
            t == Transfer::Read(Reg::NumTouches, BURST_BYTES),
    {
        Transfer::Read(Reg::NumTouches, BURST_BYTES)
    }

    /// The points that are currently down, skipping any that are lifting off.
    /// Empty once the last finger is gone.
    pub fn read(&self, burst: Result<[u8; 13], i32>) -> (r: Result<Vec<Touch>, i32>)
        ensures
            match burst {
                Ok(bytes) => r matches Ok(touches) && touches@ == touches_in(
                    bytes@,
                    reported(bytes@),
                ),
                Err(e) => r == Err::<Vec<Touch>, i32>(e),
            },
    {
        let buf: [u8; 13] = match burst {
            Ok(buf) => buf,
            Err(e) => {
                return Err(e);
            },
        };
        let count: usize = (buf[0] % 16) as usize;
        let reported: usize = if count < MAX_TOUCHES {
            count
        } else {
            MAX_TOUCHES
        };
        let mut touches: Vec<Touch> = Vec::with_capacity(reported);
        let mut k: usize = 0;
        while k < reported
            invariant
                k <= reported <= MAX_TOUCHES,
                touches@ == touches_in(buf@, k as int),
            decreases reported - k,
        {
            let at: usize = 1 + k * POINT_BYTES;
            let p0: u8 = buf[at];
            let p1: u8 = buf[at + 1];
            let p2: u8 = buf[at + 2];
            let p3: u8 = buf[at + 3];
            let ghost block = point_block(buf@, k as int);
            assert(block[0] == p0 && block[1] == p1 && block[2] == p2 && block[3] == p3);
            if Event::from_x_high(p0).is_down() {
                touches.push(
                    Touch {
                        x: (p0 % 16) as u16 * 256 + p1 as u16,
                        y: (p2 % 16) as u16 * 256 + p3 as u16,
                        id: p2 / 16,
                    },
                );
            }
            k += 1;
        }
        Ok(touches)
    }
}

// Laws.

/// The point blocks sit directly behind the status byte, so that one burst
/// reads them all.
pub proof fn law_burst_layout()
    ensures
        Reg::Touch1.address() == Reg::NumTouches.address() + 1,
        BURST_BYTES == 1 + MAX_TOUCHES * POINT_BYTES,
{
}

/// A block that holds a touch reads back as it.
pub proof fn law_touch_read_back(point: Seq<u8>, touch: Touch, contact: bool)
    requires
        touch.x < 0x1000,
        touch.y < 0x1000,
        touch.id < 16,
        point.len() == POINT_BYTES,
        point[0] == (if contact {
            0x80int
        } else {
            0int
        }) + touch.x / 256,
        point[1] == touch.x % 256,
        point[2] == touch.id * 16 + touch.y / 256,
        point[3] == touch.y % 256,
    ensures
        touch_of(point) == Some(touch),
{
}

/// A burst yields no more touches than it reports, and none when it reports
/// none; every coordinate has twelve bits and every finger id four.
pub proof fn law_touches_bounded(burst: Seq<u8>, n: int)
    requires
        0 <= n,
    ensures
        touches_in(burst, n).len() <= n,
        0 <= reported(burst) <= MAX_TOUCHES,
        forall|i: int|
            0 <= i < touches_in(burst, n).len() ==> {
                let t = #[trigger] touches_in(burst, n)[i];
                t.x < 0x1000 && t.y < 0x1000 && t.id < 16
            },
    decreases n,
{
    if n > 0 {
        law_touches_bounded(burst, n - 1);
    }
}

/// Each of the blocks that a burst reports, at most two, gives exactly one touch
/// if its top two bits say that a finger is down (`00` pressed, `10` still
/// there), and none otherwise. The touches come in the order of the blocks, and
/// each is where its own bytes say.
pub proof fn law_down_blocks(burst: Seq<u8>)
    requires
        burst.len() == BURST_BYTES,
    ensures
        ({
            let count = burst[0] as int % 16;
            let first = count >= 1 && (burst[1] as int / 64 == 0 || burst[1] as int / 64 == 2);
            let second = count >= 2 && (burst[7] as int / 64 == 0 || burst[7] as int / 64 == 2);
            let touches = touches_in(burst, reported(burst));
            &&& first && second ==> touches.len() == 2
            &&& first != second ==> touches.len() == 1
            &&& touches.len() == 0 <==> !first && !second
            &&& first ==> {
                &&& touches[0].x == 256 * (burst[1] as int % 16) + burst[2]
                &&& touches[0].y == 256 * (burst[3] as int % 16) + burst[4]
                &&& touches[0].id == burst[3] as int / 16
            }
            &&& second ==> {
                &&& touches.last().x == 256 * (burst[7] as int % 16) + burst[8]
                &&& touches.last().y == 256 * (burst[9] as int % 16) + burst[10]
                &&& touches.last().id == burst[9] as int / 16
            }
        }),
{
    reveal_with_fuel(touches_in, 3);
    let a = point_block(burst, 0);
    let b = point_block(burst, 1);
    assert(a[0] == burst[1] && a[1] == burst[2] && a[2] == burst[3] && a[3] == burst[4]);
    assert(b[0] == burst[7] && b[1] == burst[8] && b[2] == burst[9] && b[3] == burst[10]);
    assert(touches_in(burst, 0) == Seq::<Touch>::empty());
}

/// Bursts that agree in the count's low four bits and in every reported block
/// give the same touches: the gesture bits and the bytes of blocks that are not
/// reported play no part.
pub proof fn law_unreported_ignored(a: Seq<u8>, b: Seq<u8>)
    requires
        a.len() == BURST_BYTES,
        b.len() == BURST_BYTES,
        a[0] as int % 16 == b[0] as int % 16,
        a[0] as int % 16 >= 1 ==> forall|i: int| 1 <= i < 5 ==> #[trigger] a[i] == b[i],
        a[0] as int % 16 >= 2 ==> forall|i: int| 7 <= i < 11 ==> #[trigger] a[i] == b[i],
    ensures
        touches_in(a, reported(a)) == touches_in(b, reported(b)),
{
    law_down_blocks(a);
    law_down_blocks(b);
    assert(touches_in(a, reported(a)) =~= touches_in(b, reported(b)));
}

/// A write sends the register's address and then the value, and reads nothing
/// back; a read sends the address alone and reads back as many bytes as asked.
pub proof fn law_exchange(reg: Reg, value: u8, len: usize)
    ensures
        Transfer::Write(reg, value).sent().len() == 2,
        Transfer::Write(reg, value).sent()[0] == reg.address(),
        Transfer::Write(reg, value).sent()[1] == value,
        Transfer::Write(reg, value).received() == 0,
        Transfer::Read(reg, len).sent().len() == 1,
        Transfer::Read(reg, len).sent()[0] == reg.address(),
        Transfer::Read(reg, len).received() == len,
{
}

/// Where the registers lie, as the chip's maker gives it.
pub proof fn law_registers(reg: Reg, other: Reg)
    ensures
        reg.address() == other.address() ==> reg == other,
        Reg::DeviceMode.address() == 0x00,
        Reg::NumTouches.address() == 0x02,
        Reg::Touch1.address() == 0x03,
        Reg::Threshold.address() == 0x80,
        Reg::CoordThreshold.address() == 0x85,
        Reg::Ctrl.address() == 0x86,
        Reg::TimeEnterMonitor.address() == 0x87,
        Reg::ScanPeriod.address() == 0x88,
        Reg::MonitorPeriod.address() == 0x89,
        Reg::ChipId.address() == 0xA3,
        Reg::InterruptMode.address() == 0xA4,
        Reg::FirmwareVersion.address() == 0xA6,
{
}

/// Whatever the setup writes, it reads back later, and it writes no register
/// twice.
pub proof fn law_setup_reads_back(i: int, j: int)
    requires
        0 <= i < setup_transfers().len(),
        0 <= j < setup_transfers().len(),
        setup_transfers()[i] is Write,
    ensures
        exists|k: int|
            i < k < setup_transfers().len() && #[trigger] setup_transfers()[k] == Transfer::Read(
                setup_transfers()[i]->Write_0,
                1,
            ),
        i != j && setup_transfers()[j] is Write ==> setup_transfers()[i]->Write_0
            != setup_transfers()[j]->Write_0,
{
    let s = setup_transfers();
    assert(s[10] == Transfer::Read(Reg::DeviceMode, 1));
    assert(s[11] == Transfer::Read(Reg::InterruptMode, 1));
    assert(s[13] == Transfer::Read(Reg::Threshold, 1));
    assert(s[14] == Transfer::Read(Reg::CoordThreshold, 1));
    assert(s[15] == Transfer::Read(Reg::Ctrl, 1));
    assert(s[16] == Transfer::Read(Reg::ScanPeriod, 1));
    assert(s[17] == Transfer::Read(Reg::TimeEnterMonitor, 1));
    assert(s[18] == Transfer::Read(Reg::MonitorPeriod, 1));
}

/// Reading hands on a failure as it is; of a burst it gives one touch for each
/// reported block with a finger down, in order, at the place and with the id that
/// the bytes of the block say.
pub proof fn law_read(driver: &Ft6336, burst: Result<[u8; 13], i32>, r: Result<Vec<Touch>, i32>)
    requires
        call_ensures(Ft6336::read, (driver, burst), r),
    ensures
        burst matches Err(e) ==> r == Err::<Vec<Touch>, i32>(e),
        burst matches Ok(b) ==> {
            let count = b@[0] as int % 16;
            let first = count >= 1 && (b@[1] as int / 64 == 0 || b@[1] as int / 64 == 2);
            let second = count >= 2 && (b@[7] as int / 64 == 0 || b@[7] as int / 64 == 2);
            let one = Touch {
                x: (256 * (b@[1] as int % 16) + b@[2]) as u16,
                y: (256 * (b@[3] as int % 16) + b@[4]) as u16,
                id: (b@[3] as int / 16) as u8,
            };
            let two = Touch {
                x: (256 * (b@[7] as int % 16) + b@[8]) as u16,
                y: (256 * (b@[9] as int % 16) + b@[10]) as u16,
                id: (b@[9] as int / 16) as u8,
            };
            &&& r is Ok
            &&& r->Ok_0@ == (if first {
                seq![one]
            } else {
                Seq::empty()
            }) + (if second {
                seq![two]
            } else {
                Seq::empty()
            })
        },
{
    if let Ok(b) = burst {
        law_down_blocks(b@);
    }
}

/// Retuning writes the one register with the very value, and touches are read from
/// the count on, all thirteen bytes in one go.
pub proof fn law_tuning(
    driver: &Ft6336,
    value: u8,
    scan: Transfer,
    filter: Transfer,
    burst: Transfer,
    odd: bool,
)
    requires
        call_ensures(Ft6336::set_scan_period, (driver, value), scan),
        call_ensures(Ft6336::set_coord_threshold, (driver, value), filter),
        call_ensures(Ft6336::burst, (driver,), burst),
        call_ensures(Ft6336::is_unexpected_chip, (driver, value), odd),
    ensures
        scan.sent() == seq![0x88u8, value],
        filter.sent() == seq![0x85u8, value],
        burst.sent() == seq![0x02u8],
        burst.received() == 13,
        odd <==> value != 0x64,
{
}

} // verus!
