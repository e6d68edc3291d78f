//! What the panel's controller makes of what is sent to it, as far as its two
//! images are concerned: a model to state where images end up.
//!
//! A data byte of an image goes to where the address counter stands. The counter
//! then moves on along x, at the end of the window to the start of its next row,
//! and at the end of the last row back to the first. A refresh in the differential
//! display mode copies the current image into the previous one when it finishes.

use vstd::prelude::*;

use crate::framebuffer::{
    bit_mask, bit_set, byte_index, on_screen, HEIGHT, IMAGE_BYTES, ROW_BYTES, WIDTH,
};
use crate::gdeq0426t82::{
    any_marked, bitmap_rows, command_acts, draw_acts, drive_acts, driven_previous, fill_acts,
    image_acts, init_acts, law_driven_bits, law_refresh_sequence, law_span_on_panel, load_acts,
    power_off_acts, ram_acts, refresh_acts, refresh_timeout, span_of, stream_acts, uniform_rows,
    update_control, update_sequence, visible, voltage_acts, waveform_acts, window_acts, word,
    write_acts, Bank, Cmd, Refresh, DISABLE_ANALOG, DISABLE_CLOCK, DISPLAY, ENABLE_CLOCK, MODE_2,
    PARTIAL_REFRESH_TIMEOUT_MS, RESET_TIMEOUT_MS,
};
use crate::geometry::{least, Rectangle};
use crate::script::{sends, Act, Phase, Pin, Readiness};

verus! {

/// The controller's memory and what it is being told.
#[verifier::ext_equal]
pub struct Controller {
    /// The two images, row by row along the controller's y axis.
    pub current: Seq<u8>,
    pub previous: Seq<u8>,
    /// The window, x in bytes, both ends included.
    pub x_start: int,
    pub x_end: int,
    pub y_start: int,
    pub y_end: int,
    /// The address counter.
    pub x: int,
    pub y: int,
    /// The command that is being given, and its data so far.
    pub command: u8,
    pub args: Seq<u8>,
    /// Whether what comes is data.
    pub data: bool,
    /// The steps that an activation runs.
    pub steps: u8,
}

/// The number in two bytes, low byte first.
pub open spec fn low_first(bytes: Seq<u8>, at: int) -> int {
    bytes[at] + 256 * bytes[at + 1]
}

impl Controller {
    /// Whether both images are whole.
    pub open spec fn whole(self) -> bool {
        self.current.len() == IMAGE_BYTES && self.previous.len() == IMAGE_BYTES
    }

    /// The image that a command writes.
    pub open spec fn bank(self, command: u8) -> Seq<u8> {
        if command == Cmd::WriteRamCurrent.byte() {
            self.current
        } else {
            self.previous
        }
    }

    /// Puts a byte of an image where the address counter stands.
    pub open spec fn placed(self, b: u8) -> Controller {
        let at = self.y * ROW_BYTES + self.x;
        let put = if self.command == Cmd::WriteRamCurrent.byte() {
            Controller { current: self.current.update(at, b), ..self }
        } else {
            Controller { previous: self.previous.update(at, b), ..self }
        };
        if self.x < self.x_end {
            Controller { x: self.x + 1, ..put }
        } else if self.y < self.y_end {
            Controller { x: self.x_start, y: self.y + 1, ..put }
        } else {
            Controller { x: self.x_start, y: self.y_start, ..put }
        }
    }

    /// Runs the steps that were asked for.
    pub open spec fn activated(self) -> Controller {
        if self.steps & DISPLAY != 0 && self.steps & MODE_2 != 0 {
            Controller { previous: self.current, ..self }
        } else {
            self
        }
    }

    /// Takes in one byte.
    pub open spec fn took(self, b: u8) -> Controller {
        if !self.data {
            let told = Controller { command: b, args: Seq::empty(), ..self };
            if b == Cmd::MasterActivation.byte() {
                told.activated()
            } else {
                told
            }
        } else {
            let args = self.args.push(b);
            let told = Controller { args, ..self };
            if self.command == Cmd::WriteRamCurrent.byte() || self.command
                == Cmd::WriteRamPrevious.byte() {
                told.placed(b)
            } else if self.command == Cmd::RamXRange.byte() && args.len() == 4 {
                Controller {
                    x_start: low_first(args, 0) / 8,
                    x_end: low_first(args, 2) / 8,
                    ..told
                }
            } else if self.command == Cmd::RamYRange.byte() && args.len() == 4 {
                Controller { y_start: low_first(args, 0), y_end: low_first(args, 2), ..told }
            } else if self.command == Cmd::RamXCounter.byte() && args.len() == 2 {
                Controller { x: low_first(args, 0) / 8, ..told }
            } else if self.command == Cmd::RamYCounter.byte() && args.len() == 2 {
                Controller { y: low_first(args, 0), ..told }
            } else if self.command == Cmd::UpdateControl2.byte() && args.len() == 1 {
                Controller { steps: b, ..told }
            } else {
                told
            }
        }
    }

    /// Takes in a transfer.
    pub open spec fn took_all(self, bytes: Seq<u8>) -> Controller
        decreases bytes.len(),
    {
        if bytes.len() == 0 {
            self
        } else {
            self.took_all(bytes.drop_last()).took(bytes.last())
        }
    }

    /// Sees one step on the bus.
    pub open spec fn saw(self, act: Act) -> Controller {
        match act {
            Act::Level(Pin::Dc, level) => Controller { data: level, ..self },
            Act::Send(bytes) => self.took_all(bytes),
            _ => self,
        }
    }

    /// Sees a run of steps.
    pub open spec fn saw_all(self, acts: Seq<Act>) -> Controller
        decreases acts.len(),
    {
        if acts.len() == 0 {
            self
        } else {
            self.saw_all(acts.drop_last()).saw(acts.last())
        }
    }

    /// Whether only the words differ that are being said.
    spec fn alike(self, other: Controller) -> bool {
        &&& self.current == other.current
        &&& self.previous == other.previous
        &&& self.x_start == other.x_start
        &&& self.x_end == other.x_end
        &&& self.y_start == other.y_start
        &&& self.y_end == other.y_end
        &&& self.x == other.x
        &&& self.y == other.y
    }

    /// A command that waits for its data.
    spec fn told(self, cmd: Cmd) -> Controller {
        Controller { command: cmd.byte(), args: Seq::empty(), data: true, ..self }
    }

    proof fn lemma_saw_join(self, a: Seq<Act>, b: Seq<Act>)
        ensures
            self.saw_all(a + b) == self.saw_all(a).saw_all(b),
        decreases b.len(),
    {
        if b.len() == 0 {
            assert(a + b =~= a);
        } else {
            assert((a + b).drop_last() =~= a + b.drop_last());
            self.lemma_saw_join(a, b.drop_last());
        }
    }

    proof fn lemma_command(self, cmd: Cmd)
        requires
            cmd != Cmd::MasterActivation,
        ensures
            self.saw_all(command_acts(cmd) + seq![Act::Level(Pin::Dc, true), Act::Level(
                Pin::Cs,
                false,
            )]) == self.told(cmd),
    {
        let a = command_acts(cmd);
        let b = seq![Act::Level(Pin::Dc, true), Act::Level(Pin::Cs, false)];
        reveal_with_fuel(Controller::saw_all, 5);
        reveal_with_fuel(Controller::took_all, 2);
        let byte = seq![cmd.byte()];
        assert(byte.drop_last() =~= Seq::empty());
        assert(a.drop_last() =~= seq![
            Act::Level(Pin::Dc, false),
            Act::Level(Pin::Cs, false),
            Act::Send(byte),
        ]);
        assert(a.drop_last().drop_last() =~= seq![
            Act::Level(Pin::Dc, false),
            Act::Level(Pin::Cs, false),
        ]);
        assert(a.drop_last().drop_last().drop_last() =~= seq![Act::Level(Pin::Dc, false)]);
        assert(a.drop_last().drop_last().drop_last().drop_last() =~= Seq::empty());
        assert(b.drop_last() =~= seq![Act::Level(Pin::Dc, true)]);
        assert(b.drop_last().drop_last() =~= Seq::empty());
        self.lemma_saw_join(a, b);
        assert(self.saw_all(a) =~= Controller {
            command: cmd.byte(),
            args: Seq::empty(),
            data: false,
            ..self
        });
        assert(self.saw_all(a + b) =~= self.told(cmd));
    }

    proof fn lemma_stream(self, cmd: Cmd, rows: Seq<Seq<u8>>)
        requires
            cmd != Cmd::MasterActivation,
        ensures
            self.saw_all(stream_acts(cmd, rows)) == self.told(cmd).saw_all(sends(rows)),
    {
        let start = command_acts(cmd) + seq![Act::Level(Pin::Dc, true), Act::Level(Pin::Cs, false)];
        let end = seq![Act::Level(Pin::Cs, true)];
        self.lemma_command(cmd);
        self.lemma_saw_join(start, sends(rows));
        self.lemma_saw_join(start + sends(rows), end);
        reveal_with_fuel(Controller::saw_all, 2);
        assert(end.drop_last() =~= Seq::empty());
    }

    proof fn lemma_write(self, cmd: Cmd, data: Seq<u8>)
        requires
            cmd != Cmd::MasterActivation,
        ensures
            self.saw_all(write_acts(cmd, data)) == self.told(cmd).took_all(data),
    {
        self.lemma_stream(cmd, seq![data]);
        let one = sends(seq![data]);
        reveal_with_fuel(Controller::saw_all, 2);
        assert(one.drop_last() =~= Seq::empty());
        assert(one.last() == Act::Send(data));
    }

    proof fn lemma_range(self, cmd: Cmd, from: int, to: int)
        requires
            cmd == Cmd::RamXRange || cmd == Cmd::RamYRange,
            0 <= from < 0x1_0000,
            0 <= to < 0x1_0000,
        ensures
            self.saw_all(write_acts(cmd, word(from) + word(to))).alike(
                if cmd == Cmd::RamXRange {
                    Controller { x_start: from / 8, x_end: to / 8, ..self }
                } else {
                    Controller { y_start: from, y_end: to, ..self }
                },
            ),
    {
        let s = word(from) + word(to);
        self.lemma_write(cmd, s);
        let t = self.told(cmd);
        let s3 = seq![s[0], s[1], s[2]];
        let s2 = seq![s[0], s[1]];
        let s1 = seq![s[0]];
        assert(s.drop_last() =~= s3);
        assert(s3.drop_last() =~= s2);
        assert(s2.drop_last() =~= s1);
        assert(s1.drop_last() =~= Seq::empty());
        assert(t.took_all(Seq::empty()) == t);
        assert(t.took_all(s1) == t.took(s[0]));
        assert(t.took_all(s2) == t.took_all(s1).took(s[1]));
        assert(t.took_all(s3) == t.took_all(s2).took(s[2]));
        assert(t.took_all(s) == t.took_all(s3).took(s[3]));
        assert(t.took_all(s3).args =~= s3);
        assert(s3.push(s[3]) =~= s);
    }

    proof fn lemma_counter(self, cmd: Cmd, to: int)
        requires
            cmd == Cmd::RamXCounter || cmd == Cmd::RamYCounter,
            0 <= to < 0x1_0000,
        ensures
            self.saw_all(write_acts(cmd, word(to))).alike(
                if cmd == Cmd::RamXCounter {
                    Controller { x: to / 8, ..self }
                } else {
                    Controller { y: to, ..self }
                },
            ),
    {
        let s = word(to);
        self.lemma_write(cmd, s);
        let t = self.told(cmd);
        let s1 = seq![s[0]];
        assert(s.drop_last() =~= s1);
        assert(s1.drop_last() =~= Seq::empty());
        assert(t.took_all(Seq::empty()) == t);
        assert(t.took_all(s1) == t.took(s[0]));
        assert(t.took_all(s) == t.took_all(s1).took(s[1]));
        assert(s1.push(s[1]) =~= s);
        assert(t.took_all(s1).args =~= s1);
    }

    proof fn lemma_entry_mode(self)
        ensures
            self.saw_all(write_acts(Cmd::DataEntryMode, seq![0x03u8])).alike(self),
    {
        let s = seq![0x03u8];
        self.lemma_write(Cmd::DataEntryMode, s);
        let t = self.told(Cmd::DataEntryMode);
        assert(s.drop_last() =~= Seq::empty());
        assert(t.took_all(Seq::empty()) == t);
        assert(t.took_all(s) == t.took(s[0]));
    }

    /// A window is set, and the counter stands at its corner.
    proof fn lemma_window(self, x: int, y: int, w: int, h: int)
        requires
            0 <= x,
            0 <= y,
            1 <= w,
            1 <= h,
            x + w <= 0x1_0000,
            y + h <= 0x1_0000,
        ensures
            self.saw_all(window_acts(x, y, w, h)).alike(
                Controller {
                    x_start: x / 8,
                    x_end: (x + w - 1) / 8,
                    y_start: y,
                    y_end: y + h - 1,
                    x: x / 8,
                    y,
                    ..self
                },
            ),
    {
        let a = write_acts(Cmd::DataEntryMode, seq![0x03u8]);
        let b = write_acts(Cmd::RamXRange, word(x) + word(x + w - 1));
        let c = write_acts(Cmd::RamYRange, word(y) + word(y + h - 1));
        let d = write_acts(Cmd::RamXCounter, word(x));
        let e = write_acts(Cmd::RamYCounter, word(y));
        self.lemma_saw_join(a, b);
        self.lemma_saw_join(a + b, c);
        self.lemma_saw_join(a + b + c, d);
        self.lemma_saw_join(a + b + c + d, e);
        let m1 = self.saw_all(a);
        let m2 = m1.saw_all(b);
        let m3 = m2.saw_all(c);
        let m4 = m3.saw_all(d);
        self.lemma_entry_mode();
        m1.lemma_range(Cmd::RamXRange, x, x + w - 1);
        m2.lemma_range(Cmd::RamYRange, y, y + h - 1);
        m3.lemma_counter(Cmd::RamXCounter, x);
        m4.lemma_counter(Cmd::RamYCounter, y);
    }
}

/// An image with rows of bytes laid over it, the first byte at column `x` of row
/// `y`.
pub open spec fn laid(image: Seq<u8>, x: int, y: int, len: int, rows: Seq<Seq<u8>>) -> Seq<u8> {
    Seq::new(
        image.len(),
        |j: int|
            {
                let (k, i) = (j / (ROW_BYTES as int) - y, j % (ROW_BYTES as int) - x);
                if 0 <= k < rows.len() && 0 <= i < len {
                    rows[k][i]
                } else {
                    image[j]
                }
            },
    )
}

impl Controller {
    /// Whether the controller is taking in an image and stands at the start of a
    /// row of its window.
    spec fn at_row(self) -> bool {
        &&& self.whole()
        &&& self.data
        &&& self.command == Cmd::WriteRamCurrent.byte() || self.command
            == Cmd::WriteRamPrevious.byte()
        &&& 0 <= self.x_start <= self.x_end < ROW_BYTES
        &&& 0 <= self.y_start <= self.y <= self.y_end < HEIGHT
        &&& self.x == self.x_start
    }

    /// With another image in the bank that is being written.
    spec fn with_bank(self, image: Seq<u8>) -> Controller {
        if self.command == Cmd::WriteRamCurrent.byte() {
            Controller { current: image, ..self }
        } else {
            Controller { previous: image, ..self }
        }
    }

    proof fn lemma_row_part(self, row: Seq<u8>, i: int)
        requires
            self.at_row(),
            row.len() == self.x_end - self.x_start + 1,
            0 <= i < row.len(),
        ensures
            ({
                let after = self.took_all(row.take(i));
                &&& after.alike(
                    Controller {
                        x: self.x_start + i,
                        ..self.with_bank(
                            laid(self.bank(self.command), self.x_start, self.y, i, seq![row]),
                        )
                    },
                )
                &&& after.command == self.command
                &&& after.data
            }),
        decreases i,
    {
        let bank = self.bank(self.command);
        if i == 0 {
            assert(row.take(0) =~= Seq::empty());
            assert(laid(bank, self.x_start, self.y, 0, seq![row]) =~= bank);
        } else {
            self.lemma_row_part(row, i - 1);
            assert(row.take(i).drop_last() =~= row.take(i - 1));
            assert(row.take(i).last() == row[i - 1]);
            let at = self.y * ROW_BYTES + self.x_start + i - 1;
            assert(laid(bank, self.x_start, self.y, i - 1, seq![row]).update(at, row[i - 1])
                =~= laid(bank, self.x_start, self.y, i, seq![row]));
        }
    }

    proof fn lemma_row(self, row: Seq<u8>)
        requires
            self.at_row(),
            row.len() == self.x_end - self.x_start + 1,
        ensures
            ({
                let after = self.took_all(row);
                &&& after.alike(
                    Controller {
                        y: if self.y < self.y_end {
                            self.y + 1
                        } else {
                            self.y_start
                        },
                        ..self.with_bank(
                            laid(
                                self.bank(self.command),
                                self.x_start,
                                self.y,
                                row.len() as int,
                                seq![row],
                            ),
                        )
                    },
                )
                &&& after.command == self.command
                &&& after.data
            }),
    {
        let n = row.len() as int;
        let bank = self.bank(self.command);
        self.lemma_row_part(row, n - 1);
        assert(row.drop_last() =~= row.take(n - 1));
        let at = self.y * ROW_BYTES + self.x_end;
        assert(laid(bank, self.x_start, self.y, n - 1, seq![row]).update(at, row[n - 1]) =~= laid(
            bank,
            self.x_start,
            self.y,
            n,
            seq![row],
        ));
    }

    proof fn lemma_rows(self, rows: Seq<Seq<u8>>, k: int)
        requires
            self.at_row(),
            self.y == self.y_start,
            rows.len() == self.y_end - self.y_start + 1,
            forall|i: int|
                0 <= i < rows.len() ==> (#[trigger] rows[i]).len() == self.x_end - self.x_start + 1,
            0 <= k <= rows.len(),
        ensures
            ({
                let after = self.saw_all(sends(rows).take(k));
                let len = self.x_end - self.x_start + 1;
                &&& after.alike(
                    Controller {
                        y: if k < rows.len() {
                            self.y_start + k
                        } else {
                            self.y_start
                        },
                        ..self.with_bank(
                            laid(
                                self.bank(self.command),
                                self.x_start,
                                self.y_start,
                                len,
                                rows.take(k),
                            ),
                        )
                    },
                )
                &&& after.command == self.command
                &&& after.data
            }),
        decreases k,
    {
        let bank = self.bank(self.command);
        let len = self.x_end - self.x_start + 1;
        let acts = sends(rows);
        if k == 0 {
            assert(acts.take(0) =~= Seq::empty());
            assert(laid(bank, self.x_start, self.y_start, len, rows.take(0)) =~= bank);
        } else {
            self.lemma_rows(rows, k - 1);
            let before = self.saw_all(acts.take(k - 1));
            assert(acts.take(k).drop_last() =~= acts.take(k - 1));
            assert(acts.take(k).last() == Act::Send(rows[k - 1]));
            before.lemma_row(rows[k - 1]);
            let part = laid(bank, self.x_start, self.y_start, len, rows.take(k - 1));
            assert(laid(part, self.x_start, self.y_start + k - 1, len, seq![rows[k - 1]]) =~= laid(
                bank,
                self.x_start,
                self.y_start,
                len,
                rows.take(k),
            ));
        }
    }
}

/// An image transfer lands in its window, row by row, and nowhere else.
pub proof fn law_image_lands(
    m: Controller,
    cmd: Cmd,
    x: int,
    y: int,
    w: int,
    h: int,
    rows: Seq<Seq<u8>>,
)
    requires
        m.whole(),
        cmd == Cmd::WriteRamCurrent || cmd == Cmd::WriteRamPrevious,
        0 <= x,
        0 <= y,
        1 <= w,
        1 <= h,
        x % 8 == 0,
        w % 8 == 0,
        x + w <= WIDTH,
        y + h <= HEIGHT,
        rows.len() == h,
        forall|k: int| 0 <= k < rows.len() ==> (#[trigger] rows[k]).len() == w / 8,
    ensures
        ({
            let after = m.saw_all(image_acts(cmd, x, y, w, h, rows));
            &&& after.whole()
            &&& after.current == if cmd == Cmd::WriteRamCurrent {
                laid(m.current, x / 8, y, w / 8, rows)
            } else {
                m.current
            }
            &&& after.previous == if cmd == Cmd::WriteRamPrevious {
                laid(m.previous, x / 8, y, w / 8, rows)
            } else {
                m.previous
            }
        }),
{
    let set = m.saw_all(window_acts(x, y, w, h));
    m.lemma_saw_join(window_acts(x, y, w, h), stream_acts(cmd, rows));
    m.lemma_window(x, y, w, h);
    set.lemma_stream(cmd, rows);
    let open = set.told(cmd);
    assert(sends(rows).take(h) =~= sends(rows));
    assert(rows.take(h) =~= rows);
    open.lemma_rows(rows, h);
}

/// Writing the whole canvas leaves it in the images that were asked for, and the
/// other one as it was.
pub proof fn law_flush_lands(m: Controller, bytes: Seq<u8>, bank: Bank)
    requires
        m.whole(),
        bytes.len() == IMAGE_BYTES,
    ensures
        ({
            let after = m.saw_all(draw_acts(bytes, 0, 0, WIDTH as int, HEIGHT as int, bank));
            &&& after.whole()
            &&& after.current == if bank != Bank::Previous {
                bytes
            } else {
                m.current
            }
            &&& after.previous == if bank != Bank::Current {
                bytes
            } else {
                m.previous
            }
        }),
{
    let (w, h) = (WIDTH as int, HEIGHT as int);
    let rows = bitmap_rows(bytes, ROW_BYTES as int, ROW_BYTES as int, h);
    let none = Seq::<Act>::empty();
    let a = if bank != Bank::Previous {
        ram_acts(Cmd::WriteRamCurrent, bytes, 0, 0, w, h)
    } else {
        none
    };
    let b = if bank != Bank::Current {
        ram_acts(Cmd::WriteRamPrevious, bytes, 0, 0, w, h)
    } else {
        none
    };
    m.lemma_saw_join(a, b);
    assert(visible(0, 0, w, h));
    lemma_whole_image(m.current, bytes);
    lemma_whole_image(m.previous, bytes);
    let mid = m.saw_all(a);
    if bank != Bank::Previous {
        law_image_lands(m, Cmd::WriteRamCurrent, 0, 0, w, h, rows);
    }
    if bank != Bank::Current {
        law_image_lands(mid, Cmd::WriteRamPrevious, 0, 0, w, h, rows);
    }
}

proof fn lemma_whole_image(image: Seq<u8>, bytes: Seq<u8>)
    requires
        image.len() == IMAGE_BYTES,
        bytes.len() == IMAGE_BYTES,
    ensures
        laid(
            image,
            0,
            0,
            ROW_BYTES as int,
            bitmap_rows(bytes, ROW_BYTES as int, ROW_BYTES as int, HEIGHT as int),
        ) == bytes,
{
    let rows = bitmap_rows(bytes, ROW_BYTES as int, ROW_BYTES as int, HEIGHT as int);
    assert(laid(image, 0, 0, ROW_BYTES as int, rows) =~= bytes);
}

/// Filling leaves one byte everywhere in both images.
pub proof fn law_fill_lands(m: Controller, pattern: u8)
    requires
        m.whole(),
    ensures
        ({
            let after = m.saw_all(fill_acts(pattern));
            &&& after.whole()
            &&& forall|j: int|
                0 <= j < IMAGE_BYTES ==> #[trigger] after.current[j] == pattern
                    && after.previous[j] == pattern
        }),
{
    let (w, h) = (WIDTH as int, HEIGHT as int);
    let rows = uniform_rows(pattern);
    let a = image_acts(Cmd::WriteRamCurrent, 0, 0, w, h, rows);
    m.lemma_saw_join(a, image_acts(Cmd::WriteRamPrevious, 0, 0, w, h, rows));
    law_image_lands(m, Cmd::WriteRamCurrent, 0, 0, w, h, rows);
    law_image_lands(m.saw_all(a), Cmd::WriteRamPrevious, 0, 0, w, h, rows);
}

/// Writing an area of both banks puts the two given images where the area is, and
/// leaves everything outside its span as it was.
pub proof fn law_span_lands(
    m: Controller,
    area: Rectangle,
    current: spec_fn(int) -> u8,
    previous: spec_fn(int) -> u8,
    x: int,
    y: int,
)
    requires
        m.whole(),
        on_screen(x, y),
    ensures
        ({
            let after = m.saw_all(span_of(area).acts(current, previous));
            let s = span_of(area);
            let j = byte_index(x, y);
            &&& after.whole()
            &&& if s.x0 <= x < s.x1 && s.y0 <= y < s.y1 {
                after.current[j] == current(j) && after.previous[j] == previous(j)
            } else {
                after.current[j] == m.current[j] && after.previous[j] == m.previous[j]
            }
        }),
{
    let s = span_of(area);
    law_span_on_panel(area);
    if !s.is_empty() {
        let (w, h) = (s.y1 - s.y0, s.x1 - s.x0);
        let a = image_acts(Cmd::WriteRamCurrent, s.y0, s.x0, w, h, s.rows(current));
        let b = image_acts(Cmd::WriteRamPrevious, s.y0, s.x0, w, h, s.rows(previous));
        m.lemma_saw_join(a, b);
        law_image_lands(m, Cmd::WriteRamCurrent, s.y0, s.x0, w, h, s.rows(current));
        law_image_lands(
            m.saw_all(a),
            Cmd::WriteRamPrevious,
            s.y0,
            s.x0,
            w,
            h,
            s.rows(previous),
        );
        let j = byte_index(x, y);
        assert(j / (ROW_BYTES as int) == x && j % (ROW_BYTES as int) == y / 8);
    } else {
        assert(s.acts(current, previous) =~= Seq::empty());
    }
}

// Which calls leave the images alone.

impl Controller {
    /// Whether the two images agree, so that no pixel is presented as changing.
    pub open spec fn in_step(self) -> bool {
        self.whole() && self.previous == self.current
    }

    /// Whether the images are those of `other`.
    pub open spec fn same_images(self, other: Controller) -> bool {
        self.current == other.current && self.previous == other.previous
    }

    /// Only the two image commands write images.
    proof fn lemma_told(self, cmd: Cmd, data: Seq<u8>)
        requires
            cmd != Cmd::WriteRamCurrent,
            cmd != Cmd::WriteRamPrevious,
        ensures
            self.told(cmd).took_all(data).same_images(self),
            self.told(cmd).took_all(data).data,
            self.told(cmd).took_all(data).command == cmd.byte(),
        decreases data.len(),
    {
        if data.len() > 0 {
            self.lemma_told(cmd, data.drop_last());
        }
    }

    proof fn lemma_quiet_write(self, cmd: Cmd, data: Seq<u8>)
        requires
            cmd != Cmd::WriteRamCurrent,
            cmd != Cmd::WriteRamPrevious,
            cmd != Cmd::MasterActivation,
        ensures
            self.saw_all(write_acts(cmd, data)).same_images(self),
    {
        self.lemma_write(cmd, data);
        self.lemma_told(cmd, data);
    }

    /// What a command on its own comes to.
    proof fn lemma_lone_command(self, cmd: Cmd)
        ensures
            self.saw_all(command_acts(cmd)) == ({
                let told = Controller {
                    command: cmd.byte(),
                    args: Seq::empty(),
                    data: false,
                    ..self
                };
                if cmd == Cmd::MasterActivation {
                    told.activated()
                } else {
                    told
                }
            }),
    {
        let a = command_acts(cmd);
        let byte = seq![cmd.byte()];
        reveal_with_fuel(Controller::saw_all, 5);
        reveal_with_fuel(Controller::took_all, 2);
        assert(byte.drop_last() =~= Seq::empty());
        assert(a.drop_last() =~= seq![
            Act::Level(Pin::Dc, false),
            Act::Level(Pin::Cs, false),
            Act::Send(byte),
        ]);
        assert(a.drop_last().drop_last() =~= seq![
            Act::Level(Pin::Dc, false),
            Act::Level(Pin::Cs, false),
        ]);
        assert(a.drop_last().drop_last().drop_last() =~= seq![Act::Level(Pin::Dc, false)]);
        assert(a.drop_last().drop_last().drop_last().drop_last() =~= Seq::empty());
    }

    /// Steps that the controller does not see.
    proof fn lemma_unseen(self, acts: Seq<Act>)
        requires
            forall|i: int|
                0 <= i < acts.len() ==> !(#[trigger] acts[i] is Send) && (acts[i] matches Act::Level(
                    pin,
                    level,
                ) ==> pin != Pin::Dc),
        ensures
            self.saw_all(acts) == self,
        decreases acts.len(),
    {
        if acts.len() > 0 {
            let front = acts.drop_last();
            assert forall|i: int| 0 <= i < front.len() implies !(#[trigger] front[i] is Send) && (
            front[i] matches Act::Level(pin, level) ==> pin != Pin::Dc) by {
                assert(front[i] == acts[i]);
            }
            self.lemma_unseen(front);
            assert(acts.last() == acts[acts.len() - 1]);
        }
    }

    proof fn lemma_quiet_voltages(self)
        ensures
            self.saw_all(voltage_acts()).same_images(self),
    {
        let a = write_acts(Cmd::GateDrivingVoltage, seq![0x17u8]);
        let b = write_acts(Cmd::SourceDrivingVoltage, seq![0x41u8, 0xA8u8, 0x32u8]);
        self.lemma_saw_join(a, b);
        self.lemma_quiet_write(Cmd::GateDrivingVoltage, seq![0x17u8]);
        self.saw_all(a).lemma_quiet_write(
            Cmd::SourceDrivingVoltage,
            seq![0x41u8, 0xA8u8, 0x32u8],
        );
    }

    /// Asking for steps and running them.
    proof fn lemma_run_steps(self, steps: u8)
        ensures
            ({
                let after = self.saw_all(write_acts(Cmd::UpdateControl2, seq![steps])).saw_all(
                    command_acts(Cmd::MasterActivation),
                );
                &&& after.current == self.current
                &&& after.previous == if steps & DISPLAY != 0 && steps & MODE_2 != 0 {
                    self.current
                } else {
                    self.previous
                }
            }),
    {
        let data = seq![steps];
        self.lemma_quiet_write(Cmd::UpdateControl2, data);
        self.lemma_write(Cmd::UpdateControl2, data);
        let t = self.told(Cmd::UpdateControl2);
        assert(data.drop_last() =~= Seq::empty());
        assert(t.took_all(Seq::empty()) == t);
        assert(t.took_all(data) == t.took(steps));
        self.saw_all(write_acts(Cmd::UpdateControl2, data)).lemma_lone_command(
            Cmd::MasterActivation,
        );
    }
}

/// A refresh in the differential display mode leaves the two images in step: it
/// copies the current one into the previous one. Any other leaves both as they
/// were.
pub proof fn law_refresh_copies(m: Controller, ready: Readiness, mode: Refresh)
    ensures
        ({
            let after = m.saw_all(refresh_acts(ready, mode));
            &&& after.current == m.current
            &&& after.previous == if mode == Refresh::Partial || mode == Refresh::PartialHybrid {
                m.current
            } else {
                m.previous
            }
        }),
{
    let steps = update_sequence(ready, mode);
    let a = write_acts(Cmd::UpdateControl1, update_control(mode));
    let b = write_acts(Cmd::WriteVcom, seq![0x48u8]);
    let c = write_acts(Cmd::UpdateControl2, seq![steps]);
    let t = seq![Act::StartTimer];
    let go = command_acts(Cmd::MasterActivation);
    let w = seq![
        Act::WaitIdle(Phase::Refresh, refresh_timeout(mode)),
        Act::Prime(mode != Refresh::Full),
    ];
    let f = waveform_acts(mode);
    let e = seq![Act::StopTimer];
    m.lemma_saw_join(a, b);
    m.lemma_saw_join(a + b, c);
    m.lemma_saw_join(a + b + c, t);
    m.lemma_saw_join(a + b + c + t, go);
    m.lemma_saw_join(a + b + c + t + go, w);
    m.lemma_saw_join(a + b + c + t + go + w, f);
    m.lemma_saw_join(a + b + c + t + go + w + f, e);
    m.lemma_quiet_write(Cmd::UpdateControl1, update_control(mode));
    let m1 = m.saw_all(a);
    m1.lemma_quiet_write(Cmd::WriteVcom, seq![0x48u8]);
    let m2 = m1.saw_all(b);
    m2.lemma_run_steps(steps);
    let m3 = m2.saw_all(c);
    m3.lemma_unseen(t);
    let m4 = m3.saw_all(go);
    m4.lemma_unseen(w);
    m4.lemma_unseen(f);
    m4.lemma_unseen(e);
    law_refresh_sequence(mode, ready);
}

/// Initialising, loading a waveform and powering off leave both images alone.
pub proof fn law_images_left_alone(m: Controller, table: Seq<u8>, phase: Phase)
    ensures
        m.saw_all(init_acts()).same_images(m),
        m.saw_all(load_acts(table, phase)).same_images(m),
        m.saw_all(power_off_acts()).same_images(m),
{
    lemma_init_images(m);

    let a = seq![Act::Hold(false)];
    let b = write_acts(Cmd::WriteLut, table);
    let c = seq![Act::WaitIdle(phase, RESET_TIMEOUT_MS)];
    let d = voltage_acts();
    let e = write_acts(Cmd::WriteVcom, seq![0x48u8]);
    m.lemma_saw_join(a, b);
    m.lemma_saw_join(a + b, c);
    m.lemma_saw_join(a + b + c, d);
    m.lemma_saw_join(a + b + c + d, e);
    m.lemma_unseen(a);
    m.lemma_quiet_write(Cmd::WriteLut, table);
    let m1 = m.saw_all(b);
    m1.lemma_unseen(c);
    m1.lemma_quiet_voltages();
    m1.saw_all(d).lemma_quiet_write(Cmd::WriteVcom, seq![0x48u8]);

    let down = ENABLE_CLOCK | DISABLE_ANALOG | DISABLE_CLOCK;
    let f = write_acts(Cmd::UpdateControl2, seq![down]);
    let go = command_acts(Cmd::MasterActivation);
    let w = seq![
        Act::Prime(false),
        Act::WaitIdle(Phase::PowerOff, PARTIAL_REFRESH_TIMEOUT_MS),
    ];
    m.lemma_saw_join(f, go);
    m.lemma_saw_join(f + go, w);
    m.lemma_run_steps(down);
    m.saw_all(f).saw_all(go).lemma_unseen(w);
    assert((0x80u8 | 0x02u8 | 0x01u8) & 0x04u8 == 0) by (bit_vector);
}

proof fn lemma_init_images(m: Controller)
    ensures
        m.saw_all(init_acts()).same_images(m),
{
    let a = seq![
        Act::Level(Pin::Rst, false),
        Act::DelayUs(10_000),
        Act::Level(Pin::Rst, true),
        Act::DelayUs(10_000),
        Act::WaitIdle(Phase::Reset, RESET_TIMEOUT_MS),
    ];
    let b = command_acts(Cmd::SwReset);
    let c = seq![Act::WaitIdle(Phase::SoftwareReset, RESET_TIMEOUT_MS)];
    let d = write_acts(Cmd::TemperatureSensor, seq![0x80u8]);
    let booster = seq![0xAEu8, 0xC7u8, 0xC3u8, 0xC0u8, 0x80u8];
    let e = write_acts(Cmd::BoosterSoftStart, booster);
    let output = word(HEIGHT - 1) + seq![0x02u8];
    let f = write_acts(Cmd::DriverOutputControl, output);
    let g = voltage_acts();
    let h = write_acts(Cmd::BorderWaveform, seq![0x50u8]);
    let i = window_acts(0, 0, WIDTH as int, HEIGHT as int);
    m.lemma_saw_join(a, b);
    m.lemma_saw_join(a + b, c);
    m.lemma_saw_join(a + b + c, d);
    m.lemma_saw_join(a + b + c + d, e);
    m.lemma_saw_join(a + b + c + d + e, f);
    m.lemma_saw_join(a + b + c + d + e + f, g);
    m.lemma_saw_join(a + b + c + d + e + f + g, h);
    m.lemma_saw_join(a + b + c + d + e + f + g + h, i);
    m.lemma_unseen(a);
    m.lemma_lone_command(Cmd::SwReset);
    let m1 = m.saw_all(b);
    m1.lemma_unseen(c);
    m1.lemma_quiet_write(Cmd::TemperatureSensor, seq![0x80u8]);
    let m2 = m1.saw_all(d);
    m2.lemma_quiet_write(Cmd::BoosterSoftStart, booster);
    let m3 = m2.saw_all(e);
    m3.lemma_quiet_write(Cmd::DriverOutputControl, output);
    let m4 = m3.saw_all(f);
    m4.lemma_quiet_voltages();
    let m5 = m4.saw_all(g);
    m5.lemma_quiet_write(Cmd::BorderWaveform, seq![0x50u8]);
    m5.saw_all(h).lemma_window(0, 0, WIDTH as int, HEIGHT as int);
}

/// A bitmap of whole bytes, `w / 8` to a row and `h` rows, lands with its first
/// byte at byte `x / 8` of row `y` in the images that were asked for: what of it
/// is on the panel, and nothing else changes.
pub proof fn law_draw_lands(
    m: Controller,
    bitmap: Seq<u8>,
    x: int,
    y: int,
    w: int,
    h: int,
    bank: Bank,
    column: int,
    row: int,
)
    requires
        m.whole(),
        0 <= x,
        0 <= y,
        0 <= w,
        0 <= h,
        0 <= column < 100,
        0 <= row < 480,
    ensures
        ({
            let after = m.saw_all(draw_acts(bitmap, x, y, w, h, bank));
            let j = 100 * row + column;
            let inside = x / 8 <= column < x / 8 + w / 8 && y <= row < y + h;
            let byte = bitmap[(row - y) * (w / 8) + (column - x / 8)];
            &&& after.whole()
            &&& after.current[j] == (if inside && bank != Bank::Previous {
                byte
            } else {
                m.current[j]
            })
            &&& after.previous[j] == (if inside && bank != Bank::Current {
                byte
            } else {
                m.previous[j]
            })
        }),
{
    let none = Seq::<Act>::empty();
    let a = if bank != Bank::Previous {
        ram_acts(Cmd::WriteRamCurrent, bitmap, x, y, w, h)
    } else {
        none
    };
    let b = if bank != Bank::Current {
        ram_acts(Cmd::WriteRamPrevious, bitmap, x, y, w, h)
    } else {
        none
    };
    m.lemma_saw_join(a, b);
    let mid = m.saw_all(a);
    let j = 100 * row + column;
    assert(j / 100 == row && j % 100 == column);
    if visible(x, y, w, h) {
        let left = x - x % 8;
        let width = least(w - w % 8, WIDTH - left);
        let height = least(h, HEIGHT - y);
        let rows = bitmap_rows(bitmap, (w - w % 8) / 8, width / 8, height);
        if bank != Bank::Previous {
            law_image_lands(m, Cmd::WriteRamCurrent, left, y, width, height, rows);
        }
        if bank != Bank::Current {
            law_image_lands(mid, Cmd::WriteRamPrevious, left, y, width, height, rows);
        }
    }
}

/// A driven pass of the whole panel leaves the target in the current image, and in
/// the previous one the target with every pixel flipped that some mask marks.
pub proof fn law_drive_lands(
    m: Controller,
    target: Seq<u8>,
    drive: Seq<Seq<u8>>,
    x: int,
    y: int,
)
    requires
        m.whole(),
        target.len() >= IMAGE_BYTES,
        on_screen(x, y),
    ensures
        ({
            let after = m.saw_all(drive_acts(target, drive));
            let marked = any_marked(drive, byte_index(x, y), bit_mask(y));
            &&& after.whole()
            &&& bit_set(after.current, x, y) == bit_set(target, x, y)
            &&& bit_set(after.previous, x, y) == (bit_set(target, x, y) != marked)
        }),
{
    let (w, h) = (WIDTH as int, HEIGHT as int);
    let a = ram_acts(Cmd::WriteRamCurrent, target, 0, 0, w, h);
    let rows = Seq::new(
        HEIGHT as nat,
        |k: int|
            Seq::new(
                ROW_BYTES as nat,
                |i: int| driven_previous(target, drive)(k * ROW_BYTES + i),
            ),
    );
    let b = image_acts(Cmd::WriteRamPrevious, 0, 0, w, h, rows);
    m.lemma_saw_join(a, b);
    assert(visible(0, 0, w, h));
    let mid = m.saw_all(a);
    let sent = bitmap_rows(target, ROW_BYTES as int, ROW_BYTES as int, h);
    law_image_lands(m, Cmd::WriteRamCurrent, 0, 0, w, h, sent);
    law_image_lands(mid, Cmd::WriteRamPrevious, 0, 0, w, h, rows);
    let j = byte_index(x, y);
    assert(j / 100 == x && j % 100 == y / 8);
    law_driven_bits(target, drive, x, y);
}

} // verus!
