use magic_paper::framebuffer::FrameBuffer;
use magic_paper::gdeq0426t82::{Bank, Epd, Refresh};
use magic_paper::geometry::{Point, Rectangle, Size};
use magic_paper::paper::{
    draw_chrome, load_stroke_lut, Call, Event, Ink, Next, Session, Strokes, Update, STROKES,
};
use magic_paper::script::{Action, Pin, Step};

const IDLE: Next = Next::WaitFor(3_000);

fn calls(session: &mut Session, first: Next) -> (Vec<Call>, Next) {
    let mut made = Vec::new();
    let mut next = first;
    while let Next::Panel(call) = next {
        made.push(call);
        next = session.step(Event::Done);
    }
    (made, next)
}

fn ready(strokes: Strokes) -> Session {
    let (mut session, first) = Session::new(strokes);
    let (_, next) = calls(&mut session, first);
    assert_eq!(next, IDLE);
    session
}

fn ink(session: &mut Session, ink: Ink) -> Next {
    session.step(Event::Heard(ink))
}

fn at(x: i32, y: i32) -> Ink {
    Ink::At(Point::new(x, y))
}

#[test]
fn setup_shows_the_bare_canvas() {
    let (mut session, first) = Session::new(Strokes::Hybrid);
    let (made, next) = calls(&mut session, first);
    assert_eq!(
        made,
        vec![
            Call::Init,
            Call::Fill(0xFF),
            Call::Refresh(Refresh::Full),
            Call::Flush(Bank::Both),
            Call::Refresh(Refresh::Full),
            Call::LoadStrokeLut,
        ]
    );
    assert_eq!(next, IDLE);
    let mut bare = FrameBuffer::new();
    draw_chrome(&mut bare);
    assert_eq!(session.frame().as_bytes(), bare.as_bytes());
}

#[test]
fn a_batch_waits_twice_and_then_takes_the_rest() {
    let mut session = ready(Strokes::Hybrid);
    assert_eq!(ink(&mut session, at(100, 100)), IDLE);
    assert_eq!(ink(&mut session, at(100, 110)), Next::Take);
    assert_eq!(ink(&mut session, at(100, 120)), Next::Take);
    let next = session.step(Event::Nothing);
    let area = Rectangle::new(Point::new(98, 98), Size::new(6, 23));
    assert_eq!(next, Next::Panel(Call::FlushGraded(area)));
    let (made, next) = calls(&mut session, next);
    assert_eq!(
        made,
        vec![Call::FlushGraded(area), Call::Refresh(Refresh::PartialHybrid)]
    );
    assert_eq!(next, IDLE);
}

#[test]
fn healing_strokes_are_written_again_until_they_are_done() {
    let mut session = ready(Strokes::Hybrid);
    let _ = ink(&mut session, at(100, 100));
    let _ = ink(&mut session, Ink::Lifted);
    let first = Rectangle::new(Point::new(98, 98), Size::new(6, 6));
    let next = session.step(Event::Nothing);
    assert_eq!(next, Next::Panel(Call::FlushGraded(first)));
    let _ = calls(&mut session, next);
    // Another dot: both are in the region.
    let _ = ink(&mut session, at(200, 300));
    let _ = ink(&mut session, Ink::Lifted);
    let next = session.step(Event::Nothing);
    let both = Rectangle::new(Point::new(98, 98), Size::new(106, 206));
    assert_eq!(next, Next::Panel(Call::FlushGraded(both)));
    let _ = calls(&mut session, next);
    let _ = ink(&mut session, Ink::Lifted);
    let _ = ink(&mut session, Ink::Lifted);
    let next = session.step(Event::Nothing);
    assert_eq!(next, Next::Panel(Call::FlushGraded(both)));
    let _ = calls(&mut session, next);
    // The first dot has had its three passes.
    let _ = ink(&mut session, Ink::Lifted);
    let _ = ink(&mut session, Ink::Lifted);
    let second = Rectangle::new(Point::new(198, 298), Size::new(6, 6));
    let next = session.step(Event::Nothing);
    assert_eq!(next, Next::Panel(Call::FlushGraded(second)));
    let _ = calls(&mut session, next);
    // So has the second; nothing is left to do.
    let _ = ink(&mut session, Ink::Lifted);
    let _ = ink(&mut session, Ink::Lifted);
    assert_eq!(session.step(Event::Nothing), IDLE);
}

#[test]
fn clearing_wins_over_lifting() {
    let mut session = ready(Strokes::Hybrid);
    let _ = ink(&mut session, at(10, 10));
    let _ = ink(&mut session, Ink::Clear);
    let _ = ink(&mut session, Ink::Lifted);
    let next = session.step(Event::Nothing);
    let (made, next) = calls(&mut session, next);
    assert_eq!(
        made,
        vec![Call::Flush(Bank::Both), Call::Refresh(Refresh::Full), Call::LoadStrokeLut]
    );
    assert_eq!(next, IDLE);
    let mut bare = FrameBuffer::new();
    draw_chrome(&mut bare);
    assert_eq!(session.frame().as_bytes(), bare.as_bytes());
    // Nothing is left to drive.
    let _ = ink(&mut session, Ink::Lifted);
    let _ = ink(&mut session, Ink::Lifted);
    assert_eq!(session.step(Event::Nothing), IDLE);
}

#[test]
fn updates_are_ordered() {
    assert_eq!(Update::Drawn.max(Update::Lifted), Update::Lifted);
    assert_eq!(Update::Cleared.max(Update::Lifted), Update::Cleared);
    assert_eq!(Update::Lifted.max(Update::Cleared), Update::Cleared);
    assert_eq!(Update::Drawn.max(Update::Drawn), Update::Drawn);
}

#[test]
fn many_partial_updates_end_in_a_full_one_once_the_pen_is_up() {
    let mut session = ready(Strokes::Hybrid);
    for i in 0..120 {
        let _ = ink(&mut session, at(100, 100 + i));
        let _ = ink(&mut session, at(100, 101 + i));
        let next = session.step(Event::Nothing);
        assert!(matches!(next, Next::Panel(Call::FlushGraded(_))));
        let _ = calls(&mut session, next);
    }
    // Still drawing: no flash.
    let _ = ink(&mut session, at(100, 300));
    let _ = ink(&mut session, at(100, 301));
    let next = session.step(Event::Nothing);
    assert!(matches!(next, Next::Panel(Call::FlushGraded(_))));
    let _ = calls(&mut session, next);
    let _ = ink(&mut session, at(100, 302));
    let _ = ink(&mut session, Ink::Lifted);
    let next = session.step(Event::Nothing);
    assert_eq!(next, Next::Panel(Call::Flush(Bank::Both)));
    let (made, _) = calls(&mut session, next);
    assert_eq!(made[1], Call::Refresh(Refresh::Full));
    // The count starts over.
    let _ = ink(&mut session, at(5, 5));
    let _ = ink(&mut session, Ink::Lifted);
    assert!(matches!(session.step(Event::Nothing), Next::Panel(Call::FlushGraded(_))));
}

#[test]
fn idling_drops_the_supplies() {
    let mut session = ready(Strokes::Hybrid);
    assert_eq!(session.step(Event::TimedOut), Next::Panel(Call::PowerOff));
    assert_eq!(session.step(Event::Done), Next::Wait);
    assert_eq!(ink(&mut session, at(1, 1)), IDLE);
    assert_eq!(session.step(Event::TimedOut), Next::Panel(Call::PowerOff));
    assert_eq!(session.step(Event::Done), Next::Wait);
    assert_eq!(ink(&mut session, Ink::Lifted), Next::Take);
}

#[test]
fn the_session_ends_with_the_touch_thread() {
    let mut session = ready(Strokes::Hybrid);
    assert_eq!(session.step(Event::Gone), Next::Stop);
    let mut session = ready(Strokes::Hybrid);
    let _ = session.step(Event::TimedOut);
    let _ = session.step(Event::Done);
    assert_eq!(session.step(Event::Gone), Next::Stop);
    // What was drawn is still shown first.
    let mut session = ready(Strokes::Hybrid);
    let _ = ink(&mut session, at(9, 9));
    let _ = ink(&mut session, at(9, 10));
    let next = session.step(Event::Gone);
    assert!(matches!(next, Next::Panel(Call::FlushGraded(_))));
    let (_, next) = calls(&mut session, next);
    assert_eq!(next, IDLE);
    assert_eq!(session.step(Event::Gone), Next::Stop);
}

#[test]
fn other_waveforms_flush_the_whole_canvas() {
    for (strokes, mode) in
        [(Strokes::Otp, Refresh::Partial), (Strokes::Flat, Refresh::PartialFast)]
    {
        let mut session = ready(strokes);
        let _ = ink(&mut session, at(50, 50));
        let _ = ink(&mut session, Ink::Lifted);
        let next = session.step(Event::Nothing);
        let (made, _) = calls(&mut session, next);
        assert_eq!(made, vec![Call::Flush(Bank::Current), Call::Refresh(mode)]);
    }
}

#[test]
fn far_jumps_are_told_apart() {
    let mut session = ready(Strokes::Hybrid);
    assert!(session.can_reach(Point::new(4000, 4000)));
    let _ = ink(&mut session, at(0, 0));
    assert!(session.can_reach(Point::new(479, 799)));
    assert!(!session.can_reach(Point::new(4000, 4000)));
}

fn sent(epd: &mut Epd, session: &Session, call: Call) -> Vec<Vec<u8>> {
    let mut script = session.script(epd, call);
    let mut all = Vec::new();
    loop {
        match epd.advance(&mut script, Ok(())) {
            Step::Do(Action::Send(bytes)) => all.push(bytes),
            Step::Do(_) => {}
            Step::Done => return all,
            Step::Failed(e) => panic!("failed with {e}"),
        }
    }
}

#[test]
fn calls_become_bus_operations() {
    let (mut epd, _) = Epd::new();
    let session = ready(Strokes::Hybrid);
    assert_eq!(sent(&mut epd, &session, Call::Init)[0], vec![0x12]);
    assert_eq!(sent(&mut epd, &session, Call::Fill(0xFF))[11], vec![0xFF; 100]);
    let flush = sent(&mut epd, &session, Call::Flush(Bank::Both));
    let image: Vec<u8> = flush[11..491].concat();
    assert_eq!(image, session.frame().as_bytes());
    let previous: Vec<u8> = flush[502..982].concat();
    assert_eq!(previous, session.frame().as_bytes());
    assert_eq!(sent(&mut epd, &session, Call::Refresh(Refresh::PartialHybrid))[5], vec![0xCC]);
    assert_eq!(sent(&mut epd, &session, Call::Refresh(Refresh::PartialHybrid))[5], vec![0x0C]);
    assert_eq!(sent(&mut epd, &session, Call::PowerOff)[1], vec![0x83]);
    assert_eq!(sent(&mut epd, &session, Call::LoadStrokeLut)[0], vec![0x32]);
    let _ = sent(&mut epd, &session, Call::Init);
    assert_eq!(sent(&mut epd, &session, Call::Refresh(Refresh::PartialHybrid))[5], vec![0xCC]);
}

#[test]
fn the_stroke_waveform_follows_the_strokes() {
    let (mut epd, _) = Epd::new();
    let mut table = |strokes: Strokes| -> Option<Vec<u8>> {
        let mut script = load_stroke_lut(&epd, strokes);
        let mut tables = Vec::new();
        loop {
            match epd.advance(&mut script, Ok(())) {
                Step::Do(Action::Send(bytes)) if bytes.len() == 105 => tables.push(bytes),
                Step::Do(_) => {}
                _ => return tables.pop(),
            }
        }
    };
    assert_eq!(STROKES, Strokes::Hybrid);
    assert_eq!(table(Strokes::Otp), None);
    assert_eq!(table(Strokes::Flat), Some(magic_paper::waveform::fast(5)));
    assert_eq!(table(Strokes::Hybrid), Some(magic_paper::waveform::graded(1, 1)));
}

#[test]
fn one_pass_drives_fresh_hard_and_tops_up_the_rest() {
    let (mut epd, _) = Epd::new();
    let mut session = ready(Strokes::Hybrid);
    // Two passes: a dot that is healing, then a fresh one beside it.
    let _ = ink(&mut session, at(100, 104));
    let _ = ink(&mut session, Ink::Lifted);
    let next = session.step(Event::Nothing);
    let _ = calls(&mut session, next);
    let _ = ink(&mut session, at(100, 120));
    let _ = ink(&mut session, Ink::Lifted);
    let call = match session.step(Event::Nothing) {
        Next::Panel(call) => call,
        other => panic!("{other:?}"),
    };
    assert_eq!(call, Call::FlushGraded(Rectangle::new(Point::new(98, 102), Size::new(6, 22))));
    let all = sent(&mut epd, &session, call);
    // Six rows of bytes 12 to 15 in each bank, behind eleven transfers of the
    // window and the command.
    let current = &all[11..17];
    let previous = &all[28..34];
    let slot = |x: usize, y: usize| {
        let (byte, mask) = (y / 8 - 12, 0x80u8 >> (y % 8));
        2 * u8::from(previous[x - 98][byte] & mask != 0) + u8::from(current[x - 98][byte] & mask != 0)
    };
    assert_eq!(slot(100, 120), 2);
    assert_eq!(slot(100, 104), 1);
    assert_eq!(slot(100, 112), 3);
}

/// The controller's two images, with what it was told last.
struct Ram {
    current: Vec<u8>,
    previous: Vec<u8>,
    window: [usize; 2],
    counter: [usize; 2],
    command: u8,
    steps: u8,
}

impl Ram {
    fn data(&mut self, bytes: &[u8]) {
        let word = |at: usize| bytes[at] as usize + 256 * bytes[at + 1] as usize;
        match self.command {
            0x44 => self.window = [word(0) / 8, word(2) / 8],
            0x4E => self.counter[0] = word(0) / 8,
            0x4F => self.counter[1] = word(0),
            0x22 => self.steps = bytes[0],
            0x24 | 0x26 => {
                for byte in bytes {
                    let at = self.counter[1] * 100 + self.counter[0];
                    let bank =
                        if self.command == 0x24 { &mut self.current } else { &mut self.previous };
                    bank[at] = *byte;
                    if self.counter[0] == self.window[1] {
                        self.counter = [self.window[0], self.counter[1] + 1];
                    } else {
                        self.counter[0] += 1;
                    }
                }
            }
            _ => {}
        }
    }

    fn perform(&mut self, epd: &mut Epd, session: &Session, call: Call) {
        let mut script = session.script(epd, call);
        let mut is_data = false;
        loop {
            match epd.advance(&mut script, Ok(())) {
                Step::Do(Action::Level(Pin::Dc, level)) => is_data = level,
                Step::Do(Action::Send(bytes)) if is_data => self.data(&bytes),
                Step::Do(Action::Send(bytes)) => {
                    self.command = bytes[0];
                    // A differential refresh copies the image when it finishes.
                    if self.command == 0x20 && self.steps & 0x0C == 0x0C {
                        self.previous = self.current.clone();
                    }
                }
                Step::Do(_) => {}
                Step::Done => return,
                Step::Failed(e) => panic!("failed with {e}"),
            }
        }
    }

    fn slot(&self, x: usize, y: usize) -> u8 {
        let bit = |bank: &[u8]| u8::from(bank[x * 100 + y / 8] & (0x80 >> (y % 8)) != 0);
        2 * bit(&self.previous) + bit(&self.current)
    }
}

#[test]
fn pixels_in_no_mask_are_held_everywhere() {
    let (mut epd, _) = Epd::new();
    let mut ram = Ram {
        current: vec![0xAA; 48_000],
        previous: vec![0x55; 48_000],
        window: [0, 0],
        counter: [0, 0],
        command: 0,
        steps: 0,
    };
    let (mut session, mut next) = Session::new(Strokes::Hybrid);
    while let Next::Panel(call) = next {
        ram.perform(&mut epd, &session, call);
        next = session.step(Event::Done);
    }
    assert_eq!(ram.current, session.frame().as_bytes());
    assert_eq!(ram.current, ram.previous);
    // A dot in each pass, every one in another place.
    let mut slots = Vec::new();
    for pass in 0..5 {
        let _ = ink(&mut session, at(50 + 40 * pass, 400));
        let _ = ink(&mut session, Ink::Lifted);
        let mut next = session.step(Event::Nothing);
        while let Next::Panel(call) = next {
            ram.perform(&mut epd, &session, call);
            if matches!(call, Call::FlushGraded(_)) {
                slots.push(ram.slot(50, 400));
                assert_eq!(ram.slot(50 + 40 * pass as usize, 400), 2);
                assert_eq!(ram.slot(300, 600), 3);
            }
            next = session.step(Event::Done);
        }
        assert_eq!(ram.current, ram.previous);
    }
    // Driven when it was drawn, topped up twice, and held from then on.
    assert_eq!(slots[..3], [2, 1, 1]);
    assert!(slots[3..].iter().all(|s| *s == 0 || *s == 3));
}
