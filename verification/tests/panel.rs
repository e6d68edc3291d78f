use magic_paper::framebuffer::{FrameBuffer, Mask, Pixel};
use magic_paper::gdeq0426t82::{busy_step, elapsed_ms, Bank, Busy, Cmd, Epd, Refresh};
use magic_paper::geometry::{Point, Rectangle, Size};
use magic_paper::script::{Action, Phase, Pin, Script, Step};
use magic_paper::waveform::{fast, graded, hybrid, probe};

/// A transfer, as the controller sees it: a command with its data.
type Write = (u8, Vec<u8>);

/// Performs a script without failures and returns everything that was asked for.
fn perform(epd: &mut Epd, script: &mut Script<'_>) -> Vec<Action> {
    let mut done = Vec::new();
    loop {
        match epd.advance(script, Ok(())) {
            Step::Do(action) => done.push(action),
            Step::Done => return done,
            Step::Failed(e) => panic!("failed with {e}"),
        }
    }
}

/// Reads transfers back from the pins, and checks that the chip is selected for
/// each of them and released at the end.
fn writes(actions: &[Action]) -> Vec<Write> {
    let mut all: Vec<Write> = Vec::new();
    let mut data = false;
    let mut selected = false;
    for action in actions {
        match action {
            Action::Level(Pin::Dc, level) => data = *level,
            Action::Level(Pin::Cs, level) => selected = !*level,
            Action::Send(bytes) => {
                assert!(selected);
                if data {
                    all.last_mut().unwrap().1.extend_from_slice(bytes);
                } else {
                    assert_eq!(bytes.len(), 1);
                    all.push((bytes[0], Vec::new()));
                }
            }
            _ => {}
        }
    }
    assert!(!selected);
    all
}

fn waits(actions: &[Action]) -> Vec<(Phase, u32)> {
    actions
        .iter()
        .filter_map(|a| match a {
            Action::WaitIdle(phase, ms) => Some((*phase, *ms)),
            _ => None,
        })
        .collect()
}

fn window(x: u16, y: u16, x_end: u16, y_end: u16) -> Vec<Write> {
    let lo = |v: u16| (v % 256) as u8;
    let hi = |v: u16| (v / 256) as u8;
    vec![
        (0x11, vec![0x03]),
        (0x44, vec![lo(x), hi(x), lo(x_end), hi(x_end)]),
        (0x45, vec![lo(y), hi(y), lo(y_end), hi(y_end)]),
        (0x4E, vec![lo(x), hi(x)]),
        (0x4F, vec![lo(y), hi(y)]),
    ]
}

/// The controller's two images, as far as a list of transfers fills them.
struct Ram {
    current: Vec<u8>,
    previous: Vec<u8>,
}

fn load(writes: &[Write], ram: &mut Ram) {
    let word = |b: &[u8]| b[0] as usize + 256 * b[1] as usize;
    let (mut x0, mut x1, mut xc, mut yc) = (0, 0, 0, 0);
    for (cmd, data) in writes {
        match cmd {
            0x44 => {
                x0 = word(&data[0..2]) / 8;
                x1 = word(&data[2..4]) / 8;
            }
            0x4E => xc = word(data) / 8,
            0x4F => yc = word(data),
            0x24 | 0x26 => {
                for byte in data {
                    let bank = if *cmd == 0x24 { &mut ram.current } else { &mut ram.previous };
                    bank[yc * 100 + xc] = *byte;
                    if xc == x1 {
                        xc = x0;
                        yc += 1;
                    } else {
                        xc += 1;
                    }
                }
            }
            _ => {}
        }
    }
}

fn blank_ram() -> Ram {
    Ram { current: vec![0xAA; 48_000], previous: vec![0x55; 48_000] }
}

fn primed(mode: Refresh) -> (Epd, Vec<Action>) {
    let (mut epd, _) = Epd::new();
    let mut script = epd.refresh(mode);
    let actions = perform(&mut epd, &mut script);
    (epd, actions)
}

#[test]
fn pins_start_high() {
    let (mut epd, mut script) = Epd::new();
    assert_eq!(
        perform(&mut epd, &mut script),
        vec![Action::Level(Pin::Cs, true), Action::Level(Pin::Rst, true)]
    );
}

#[test]
fn init_resets_and_configures() {
    let (mut epd, _) = Epd::new();
    let mut script = epd.init();
    let actions = perform(&mut epd, &mut script);
    assert_eq!(
        actions[..5],
        [
            Action::Level(Pin::Rst, false),
            Action::DelayUs(10_000),
            Action::Level(Pin::Rst, true),
            Action::DelayUs(10_000),
            Action::WaitIdle(Phase::Reset, 1_000),
        ]
    );
    assert_eq!(
        waits(&actions),
        vec![(Phase::Reset, 1_000), (Phase::SoftwareReset, 1_000)]
    );
    let mut expected: Vec<Write> = vec![
        (0x12, vec![]),
        (0x18, vec![0x80]),
        (0x0C, vec![0xAE, 0xC7, 0xC3, 0xC0, 0x80]),
        (0x01, vec![0xDF, 0x01, 0x02]),
        (0x03, vec![0x17]),
        (0x04, vec![0x41, 0xA8, 0x32]),
        (0x3C, vec![0x50]),
    ];
    expected.extend(window(0, 0, 799, 479));
    assert_eq!(writes(&actions), expected);
}

#[test]
fn a_command_is_framed_by_its_pins() {
    let (mut epd, _) = Epd::new();
    let mut script = epd.set_border(0x01);
    assert_eq!(
        perform(&mut epd, &mut script),
        vec![
            Action::Level(Pin::Dc, false),
            Action::Level(Pin::Cs, false),
            Action::Send(vec![0x3C]),
            Action::Level(Pin::Cs, true),
            Action::Level(Pin::Dc, true),
            Action::Level(Pin::Cs, false),
            Action::Send(vec![0x01]),
            Action::Level(Pin::Cs, true),
        ]
    );
}

#[test]
fn a_failed_transfer_still_releases_the_chip() {
    let (mut epd, _) = Epd::new();
    let mut script = epd.set_border(0x01);
    assert_eq!(epd.advance(&mut script, Ok(())), Step::Do(Action::Level(Pin::Dc, false)));
    assert_eq!(epd.advance(&mut script, Ok(())), Step::Do(Action::Level(Pin::Cs, false)));
    assert_eq!(epd.advance(&mut script, Ok(())), Step::Do(Action::Send(vec![0x3C])));
    assert_eq!(epd.advance(&mut script, Err(7)), Step::Do(Action::Level(Pin::Cs, true)));
    assert_eq!(epd.advance(&mut script, Ok(())), Step::Failed(7));
}

#[test]
fn a_later_failure_is_the_one_reported() {
    let (mut epd, _) = Epd::new();
    let mut script = epd.set_border(0x01);
    for _ in 0..3 {
        let _ = epd.advance(&mut script, Ok(()));
    }
    assert_eq!(epd.advance(&mut script, Err(7)), Step::Do(Action::Level(Pin::Cs, true)));
    assert_eq!(epd.advance(&mut script, Err(8)), Step::Failed(8));
}

#[test]
fn a_failed_pin_ends_a_script_at_once() {
    let (mut epd, _) = Epd::new();
    let mut script = epd.set_border(0x01);
    let _ = epd.advance(&mut script, Ok(()));
    assert_eq!(epd.advance(&mut script, Err(3)), Step::Failed(3));
    assert_eq!(epd.advance(&mut script, Ok(())), Step::Failed(3));
}

#[test]
fn drawing_rounds_down_to_bytes_and_clips() {
    let (mut epd, _) = Epd::new();
    // 24 columns from 785 on: bytes 98 and 99 of each row, three bytes per row
    // of the bitmap; five rows from 478 on, of which two are on the panel.
    let bitmap: Vec<u8> = (0..15).collect();
    let mut script = epd.draw(&bitmap, 785, 478, 31, 5, Bank::Current);
    let actions = perform(&mut epd, &mut script);
    let mut expected = window(784, 478, 799, 479);
    expected.push((0x24, vec![0, 1, 3, 4]));
    assert_eq!(writes(&actions), expected);
}

#[test]
fn drawing_nothing_sends_nothing() {
    let (mut epd, _) = Epd::new();
    for (x, y, w, h) in [(800, 0, 8, 1), (0, 480, 8, 1), (0, 0, 7, 1), (0, 0, 8, 0)] {
        let mut script = epd.draw(&[], x, y, w, h, Bank::Both);
        assert!(perform(&mut epd, &mut script).is_empty());
    }
}

#[test]
fn banks_are_told_apart() {
    let (mut epd, _) = Epd::new();
    let cmds = |bank: Bank, epd: &mut Epd| -> Vec<u8> {
        let mut script = epd.draw(&[0x0F], 0, 0, 8, 1, bank);
        let actions = perform(epd, &mut script);
        writes(&actions).iter().map(|w| w.0).filter(|c| *c == 0x24 || *c == 0x26).collect()
    };
    assert_eq!(cmds(Bank::Current, &mut epd), vec![0x24]);
    assert_eq!(cmds(Bank::Previous, &mut epd), vec![0x26]);
    assert_eq!(cmds(Bank::Both, &mut epd), vec![0x24, 0x26]);
}

#[test]
fn a_fill_covers_both_images() {
    let (mut epd, _) = Epd::new();
    let mut script = epd.fill(0x3C);
    let actions = perform(&mut epd, &mut script);
    assert_eq!(actions.iter().filter(|a| matches!(a, Action::Send(b) if b.len() == 100)).count(), 960);
    let mut ram = blank_ram();
    load(&writes(&actions), &mut ram);
    assert!(ram.current.iter().all(|b| *b == 0x3C));
    assert!(ram.previous.iter().all(|b| *b == 0x3C));
}

#[test]
fn a_flush_is_a_linear_write() {
    let (mut epd, _) = Epd::new();
    let mut frame = FrameBuffer::new();
    frame.fill_solid(&Rectangle::new(Point::new(17, 33), Size::new(100, 300)), true);
    let mut script = frame.flush(&epd, Bank::Both);
    let actions = perform(&mut epd, &mut script);
    let mut ram = blank_ram();
    load(&writes(&actions), &mut ram);
    assert_eq!(ram.current, frame.as_bytes());
    assert_eq!(ram.previous, frame.as_bytes());
}

#[test]
fn refresh_sequences() {
    let steps = |actions: &[Action]| -> (Vec<u8>, Vec<u8>, u32) {
        let w = writes(actions);
        assert_eq!(w[1], (0x2C, vec![0x48]));
        assert_eq!(w[3], (0x20, vec![]));
        assert_eq!((w[0].0, w[2].0), (0x21, 0x22));
        (w[0].1.clone(), w[2].1.clone(), waits(actions)[0].1)
    };
    for (mode, first, again) in [
        (Refresh::Partial, (0x00, 0xFC), (0x00, 0x0C)),
        (Refresh::PartialFast, (0x40, 0xC4), (0x40, 0x04)),
        (Refresh::PartialHybrid, (0x00, 0xCC), (0x00, 0x0C)),
    ] {
        let (mut epd, actions) = primed(mode);
        assert_eq!(steps(&actions), (vec![first.0, 0], vec![first.1], 2_000));
        let mut script = epd.refresh(mode);
        let actions = perform(&mut epd, &mut script);
        assert_eq!(steps(&actions), (vec![again.0, 0], vec![again.1], 2_000));
    }
    let (mut epd, actions) = primed(Refresh::Full);
    assert_eq!(steps(&actions), (vec![0x40, 0], vec![0xF7], 5_000));
    // A full refresh powers down, so the next partial one starts over.
    let mut script = epd.refresh(Refresh::Partial);
    let actions = perform(&mut epd, &mut script);
    assert_eq!(steps(&actions).1, vec![0xFC]);
}

#[test]
fn a_refresh_is_timed_from_its_activation() {
    let (_, actions) = primed(Refresh::Partial);
    let start = actions.iter().position(|a| *a == Action::StartTimer).unwrap();
    assert_eq!(actions[start + 1..].len(), 6);
    assert_eq!(actions[start + 3], Action::Send(vec![0x20]));
    assert_eq!(actions[start + 5], Action::WaitIdle(Phase::Refresh, 2_000));
    assert_eq!(actions.last(), Some(&Action::StopTimer));
}

#[test]
fn priming_is_lost_by_powering_off_and_by_init() {
    let next_sequence = |epd: &mut Epd| -> u8 {
        let mut script = epd.refresh(Refresh::PartialHybrid);
        let actions = perform(epd, &mut script);
        writes(&actions)[2].1[0]
    };
    let (mut epd, _) = primed(Refresh::PartialHybrid);
    assert_eq!(next_sequence(&mut epd), 0x0C);
    let mut script = epd.power_off();
    let actions = perform(&mut epd, &mut script);
    assert_eq!(writes(&actions), vec![(0x22, vec![0x83]), (0x20, vec![])]);
    assert_eq!(waits(&actions), vec![(Phase::PowerOff, 2_000)]);
    assert_eq!(next_sequence(&mut epd), 0xCC);
    assert_eq!(next_sequence(&mut epd), 0x0C);
    let _ = epd.init();
    assert_eq!(next_sequence(&mut epd), 0xCC);
    let mut script = epd.display_lut_probe();
    let _ = perform(&mut epd, &mut script);
    assert_eq!(next_sequence(&mut epd), 0xCC);
}

#[test]
fn a_failed_refresh_does_not_prime() {
    let (mut epd, _) = Epd::new();
    let mut script = epd.refresh(Refresh::Partial);
    loop {
        match epd.advance(&mut script, Ok(())) {
            Step::Do(Action::WaitIdle(..)) => break,
            Step::Do(_) => {}
            _ => panic!("no wait"),
        }
    }
    assert_eq!(epd.advance(&mut script, Err(5)), Step::Failed(5));
    let mut script = epd.refresh(Refresh::Partial);
    let actions = perform(&mut epd, &mut script);
    assert_eq!(writes(&actions)[2].1, vec![0xFC]);
}

#[test]
fn waveforms_come_with_their_voltages() {
    let (mut epd, _) = Epd::new();
    let mut loads: Vec<(Vec<Action>, Vec<u8>)> = Vec::new();
    let mut script = epd.load_hybrid_lut(3);
    loads.push((perform(&mut epd, &mut script), hybrid(3)));
    let mut script = epd.load_graded_lut(2, 5);
    loads.push((perform(&mut epd, &mut script), graded(2, 5)));
    let mut script = epd.load_fast_lut(4);
    loads.push((perform(&mut epd, &mut script), fast(4)));
    for (actions, table) in loads {
        assert_eq!(waits(&actions), vec![(Phase::LoadLut, 1_000)]);
        assert_eq!(
            writes(&actions),
            vec![
                (0x32, table),
                (0x03, vec![0x17]),
                (0x04, vec![0x41, 0xA8, 0x32]),
                (0x2C, vec![0x48]),
            ]
        );
    }
}

#[test]
fn the_probe_displays_its_own_waveform() {
    let (mut epd, _) = Epd::new();
    let mut script = epd.display_lut_probe();
    let actions = perform(&mut epd, &mut script);
    assert_eq!(
        writes(&actions),
        vec![
            (0x32, probe()),
            (0x03, vec![0x17]),
            (0x04, vec![0x41, 0xA8, 0x32]),
            (0x2C, vec![0x48]),
            (0x21, vec![0, 0]),
            (0x22, vec![0xCF]),
            (0x20, vec![]),
        ]
    );
    assert_eq!(
        waits(&actions),
        vec![(Phase::LoadProbeLut, 1_000), (Phase::Probe, 5_000)]
    );
}

#[test]
fn sleeping_waits_for_the_supplies() {
    let (mut epd, _) = Epd::new();
    let mut script = epd.sleep();
    let actions = perform(&mut epd, &mut script);
    assert_eq!(writes(&actions), vec![(0x10, vec![0x01])]);
    assert_eq!(actions.last(), Some(&Action::DelayUs(10_000)));
}

fn marked(points: &[(i32, i32)]) -> Mask {
    let mut mask = Mask::new();
    for (x, y) in points {
        mask.draw_iter(&[Pixel { point: Point::new(*x, *y), on: true }]);
    }
    mask
}

fn slot(ram: &Ram, x: usize, y: usize) -> u8 {
    let bit = |bank: &[u8]| u8::from(bank[x * 100 + y / 8] & (0x80 >> (y % 8)) != 0);
    2 * bit(&ram.previous) + bit(&ram.current)
}

#[test]
fn driven_pixels_are_presented_as_transitions() {
    let (mut epd, _) = Epd::new();
    let mut frame = FrameBuffer::new();
    frame.set_pixel(10, 10, true);
    frame.set_pixel(11, 10, true);
    let first = marked(&[(10, 10)]);
    let second = marked(&[(12, 10)]);
    let masks = vec![first.as_bytes(), second.as_bytes()];
    let mut script = epd.flush_with_drive(frame.as_bytes(), masks.clone());
    let actions = perform(&mut epd, &mut script);
    let mut ram = blank_ram();
    load(&writes(&actions), &mut ram);
    assert_eq!(ram.current, frame.as_bytes());
    assert_eq!(slot(&ram, 10, 10), 2);
    assert_eq!(slot(&ram, 12, 10), 1);
    assert_eq!(slot(&ram, 11, 10), 0);
    assert_eq!(slot(&ram, 200, 200), 3);

    let area = Rectangle::new(Point::new(10, 10), Size::new(3, 1));
    let mut script = epd.flush_with_drive_area(frame.as_bytes(), masks, area);
    let actions = perform(&mut epd, &mut script);
    let w = writes(&actions);
    assert_eq!(w[..5], window(8, 10, 15, 12)[..]);
    assert_eq!(w[5], (0x24, vec![0xDF, 0xDF, 0xFF]));
    assert_eq!(w[11], (0x26, vec![0xFF, 0xDF, 0xDF]));
}

#[test]
fn graded_passes_sort_pixels_into_luts() {
    let (mut epd, _) = Epd::new();
    let mut frame = FrameBuffer::new();
    for x in 100..104 {
        frame.set_pixel(x, 50, true);
    }
    let fresh = marked(&[(100, 50), (101, 50)]);
    let older = marked(&[(101, 50), (102, 50)]);
    let oldest = marked(&[]);
    let area = Rectangle::new(Point::new(90, 45), Size::new(30, 10));
    let mut script = epd.flush_graded_area(
        frame.as_bytes(),
        fresh.as_bytes(),
        vec![older.as_bytes(), oldest.as_bytes()],
        area,
    );
    let actions = perform(&mut epd, &mut script);
    let mut ram = Ram { current: vec![0; 48_000], previous: vec![0; 48_000] };
    load(&writes(&actions), &mut ram);
    assert_eq!(slot(&ram, 100, 50), 2);
    // Drawn again while healing: it counts as fresh only.
    assert_eq!(slot(&ram, 101, 50), 2);
    assert_eq!(slot(&ram, 102, 50), 1);
    assert_eq!(slot(&ram, 103, 50), 0);
    assert_eq!(slot(&ram, 90, 45), 3);
    assert_eq!(slot(&ram, 119, 54), 3);
    // What lies outside was not written.
    assert_eq!(slot(&ram, 120, 50), 0);
    assert_eq!(slot(&ram, 100, 56), 0);
}

#[test]
fn areas_are_clipped_to_the_screen() {
    let (mut epd, _) = Epd::new();
    let frame = FrameBuffer::new();
    let mask = Mask::new();
    let mut windows = |area: Rectangle| -> Vec<Write> {
        let mut script =
            epd.flush_graded_area(frame.as_bytes(), mask.as_bytes(), vec![], area);
        let actions = perform(&mut epd, &mut script);
        writes(&actions)
    };
    let all = windows(Rectangle::new(Point::new(-50, -50), Size::new(2000, 2000)));
    assert_eq!(all[..5], window(0, 0, 799, 479)[..]);
    assert_eq!(all[5].1.len(), 48_000);
    assert!(windows(Rectangle::new(Point::new(10, 10), Size::new(0, 4))).is_empty());
    assert!(windows(Rectangle::new(Point::new(-20, 10), Size::new(20, 4))).is_empty());
    assert!(windows(Rectangle::new(Point::new(10, -20), Size::new(4, 20))).is_empty());
    // Nothing is written of an area past a far edge.
    assert!(windows(Rectangle::new(Point::new(900, 100), Size::new(5, 8))).is_empty());
    assert!(windows(Rectangle::new(Point::new(480, 100), Size::new(5, 8))).is_empty());
    assert!(windows(Rectangle::new(Point::new(100, 800), Size::new(5, 8))).is_empty());
    // What reaches across it is cut off there.
    let last = windows(Rectangle::new(Point::new(479, 797), Size::new(5, 8)));
    assert_eq!(last[..5], window(792, 479, 799, 479)[..]);
}

#[test]
fn driven_areas_off_the_screen_write_nothing() {
    let (mut epd, _) = Epd::new();
    let target = vec![0xFF; 48_000];
    for (x, y) in [(500, 0), (0, 900), (480, 800), (-10, 0), (0, -8)] {
        let area = Rectangle::new(Point::new(x, y), Size::new(10, 8));
        let mut script = epd.flush_with_drive_area(&target, vec![], area);
        assert!(perform(&mut epd, &mut script).is_empty());
    }
}

/// The byte that a refresh sends with the command for its steps.
fn steps_of(epd: &mut Epd, mode: Refresh) -> u8 {
    let mut script = epd.refresh(mode);
    let actions = perform(epd, &mut script);
    writes(&actions)[2].1[0]
}

#[test]
fn a_partial_refresh_brings_back_the_waveform_from_otp() {
    let (mut epd, _) = Epd::new();
    let mut script = epd.init();
    let _ = perform(&mut epd, &mut script);
    let mut script = epd.load_fast_lut(5);
    let _ = perform(&mut epd, &mut script);
    assert_eq!(steps_of(&mut epd, Refresh::PartialFast), 0xC4);
    assert_eq!(steps_of(&mut epd, Refresh::Partial), 0xFC);
    assert_eq!(steps_of(&mut epd, Refresh::Partial), 0x0C);
    // A refresh that loads nothing leaves the waveform in force.
    assert_eq!(steps_of(&mut epd, Refresh::PartialFast), 0x04);
    assert_eq!(steps_of(&mut epd, Refresh::Partial), 0x0C);
    let mut script = epd.load_graded_lut(1, 1);
    let _ = perform(&mut epd, &mut script);
    assert_eq!(steps_of(&mut epd, Refresh::PartialHybrid), 0x0C);
    assert_eq!(steps_of(&mut epd, Refresh::Partial), 0xFC);
    let mut script = epd.load_hybrid_lut(1);
    let _ = perform(&mut epd, &mut script);
    assert_eq!(steps_of(&mut epd, Refresh::Partial), 0xFC);
}

#[test]
fn a_waveform_that_failed_to_load_still_replaces_the_one_from_otp() {
    let (mut epd, _) = primed(Refresh::Partial);
    let mut script = epd.load_fast_lut(5);
    loop {
        match epd.advance(&mut script, Ok(())) {
            Step::Do(Action::Send(bytes)) if bytes.len() == 105 => break,
            Step::Do(_) => {}
            _ => panic!("no table"),
        }
    }
    assert_eq!(epd.advance(&mut script, Err(9)), Step::Do(Action::Level(Pin::Cs, true)));
    assert_eq!(epd.advance(&mut script, Ok(())), Step::Failed(9));
    assert_eq!(steps_of(&mut epd, Refresh::Partial), 0xFC);
}

#[test]
fn the_second_partial_refresh_only_displays() {
    let (mut epd, _) = Epd::new();
    let mut script = epd.init();
    let _ = perform(&mut epd, &mut script);
    assert_eq!(steps_of(&mut epd, Refresh::Partial), 0xFC);
    assert_eq!(steps_of(&mut epd, Refresh::Partial), 0x0C);
    assert_eq!(steps_of(&mut epd, Refresh::Full), 0xF7);
    assert_eq!(steps_of(&mut epd, Refresh::Partial), 0xFC);
    let mut script = epd.power_off();
    let _ = perform(&mut epd, &mut script);
    assert_eq!(steps_of(&mut epd, Refresh::Partial), 0xFC);
    let mut script = epd.init();
    let _ = perform(&mut epd, &mut script);
    assert_eq!(steps_of(&mut epd, Refresh::Partial), 0xFC);
    let mut script = epd.display_lut_probe();
    let _ = perform(&mut epd, &mut script);
    assert_eq!(steps_of(&mut epd, Refresh::Partial), 0xFC);
}

#[test]
fn waiting_is_bounded() {
    assert_eq!(busy_step(false, 0, 10_000_000, 1), Busy::Idle);
    assert_eq!(busy_step(true, 0, 2_000_000, 2_000), Busy::Poll);
    assert_eq!(busy_step(true, 0, 2_000_001, 2_000), Busy::TimedOut);
    assert_eq!(busy_step(true, 500, 400, 0), Busy::Poll);
}

#[test]
fn elapsed_time_is_in_whole_milliseconds() {
    assert_eq!(elapsed_ms(1_000, 615_999), 614);
    assert_eq!(elapsed_ms(5, 5), 0);
    assert_eq!(elapsed_ms(2_000, 0), u32::MAX - 1);
    assert_eq!(elapsed_ms(0, 4_294_967_296_000), 0);
}

#[test]
fn phases_have_names() {
    let names: Vec<&str> = [
        Phase::Reset,
        Phase::SoftwareReset,
        Phase::Refresh,
        Phase::LoadLut,
        Phase::LoadProbeLut,
        Phase::Probe,
        Phase::PowerOff,
    ]
    .iter()
    .map(|p| p.label())
    .collect();
    assert_eq!(
        names,
        vec!["reset", "software reset", "refresh", "load lut", "load probe lut", "probe", "power off"]
    );
    assert_eq!(Cmd::MasterActivation.code(), 0x20);
}
