use magic_paper::ft6336::{Event, Ft6336, Reg, Touch, Transfer};
use magic_paper::geometry::Point;
use magic_paper::paper::Ink;
use magic_paper::touch::{screen_point, TouchTracker};

fn burst(count: u8, points: [[u8; 6]; 2]) -> [u8; 13] {
    let mut bytes = [0u8; 13];
    bytes[0] = count;
    bytes[1..7].copy_from_slice(&points[0]);
    bytes[7..13].copy_from_slice(&points[1]);
    bytes
}

#[test]
fn setup_tunes_the_controller_in_order() {
    let (_, transfers) = Ft6336::new();
    let bytes: Vec<(Vec<u8>, usize)> = transfers.iter().map(|t| t.exchange()).collect();
    assert_eq!(bytes[0], (vec![0xA3], 1));
    let writes: Vec<Vec<u8>> = bytes[1..9].iter().map(|b| b.0.clone()).collect();
    assert_eq!(
        writes,
        vec![
            vec![0x00, 0],
            vec![0x80, 12],
            vec![0x85, 64],
            vec![0x87, 30],
            vec![0x88, 10],
            vec![0x89, 40],
            vec![0xA4, 0],
            vec![0x86, 0],
        ]
    );
    let readbacks: Vec<u8> = bytes[9..].iter().map(|b| b.0[0]).collect();
    assert_eq!(readbacks, vec![0xA6, 0x00, 0xA4, 0x02, 0x80, 0x85, 0x86, 0x88, 0x87, 0x89]);
    assert!(bytes[9..].iter().all(|b| b.1 == 1));
}

#[test]
fn registers_can_be_retuned() {
    let (touch, _) = Ft6336::new();
    assert_eq!(touch.set_scan_period(7).exchange(), (vec![0x88, 7], 0));
    assert_eq!(touch.set_coord_threshold(128).exchange(), (vec![0x85, 128], 0));
    assert_eq!(touch.burst(), Transfer::Read(Reg::NumTouches, 13));
    assert!(!touch.is_unexpected_chip(0x64));
    assert!(touch.is_unexpected_chip(0x11));
    assert!(touch.is_touched(true));
    assert!(!touch.is_touched(false));
}

#[test]
fn the_top_bits_hold_the_event() {
    assert_eq!(Event::from_x_high(0x3F), Event::PressDown);
    assert_eq!(Event::from_x_high(0x40), Event::LiftUp);
    assert_eq!(Event::from_x_high(0x81), Event::Contact);
    assert_eq!(Event::from_x_high(0xC0), Event::Absent);
    assert!(Event::PressDown.is_down() && Event::Contact.is_down());
    assert!(!Event::LiftUp.is_down() && !Event::Absent.is_down());
}

#[test]
fn points_are_decoded() {
    let (touch, _) = Ft6336::new();
    let bytes = burst(2, [[0x81, 0xDF, 0x13, 0x1F, 9, 9], [0x00, 0x05, 0x20, 0x06, 9, 9]]);
    assert_eq!(
        touch.read(Ok(bytes)),
        Ok(vec![Touch { x: 479, y: 799, id: 1 }, Touch { x: 5, y: 6, id: 2 }])
    );
}

#[test]
fn lifting_points_are_skipped() {
    let (touch, _) = Ft6336::new();
    let bytes = burst(2, [[0x41, 0xDF, 0x13, 0x1F, 0, 0], [0x80, 0x05, 0x20, 0x06, 0, 0]]);
    assert_eq!(touch.read(Ok(bytes)), Ok(vec![Touch { x: 5, y: 6, id: 2 }]));
}

#[test]
fn only_reported_points_count() {
    let (touch, _) = Ft6336::new();
    let points = [[0x80, 1, 0, 2, 0, 0], [0x80, 3, 0, 4, 0, 0]];
    assert_eq!(touch.read(Ok(burst(0, points))), Ok(vec![]));
    // The high nibble is not part of the count.
    assert_eq!(touch.read(Ok(burst(0xF1, points))), Ok(vec![Touch { x: 1, y: 2, id: 0 }]));
    // More than two cannot be there.
    assert_eq!(touch.read(Ok(burst(15, points))).unwrap().len(), 2);
    assert_eq!(touch.read(Err(-3)), Err(-3));
}

fn at(x: u16, y: u16) -> Result<Vec<Touch>, i32> {
    Ok(vec![Touch { x, y, id: 0 }, Touch { x: 1, y: 1, id: 1 }])
}

#[test]
fn strokes_are_passed_on() {
    let mut t = TouchTracker::new();
    assert_eq!(t.poll(&Ok(vec![])), None);
    assert_eq!(t.poll(&at(10, 20)), Some(Ink::At(Point::new(10, 20))));
    assert_eq!(t.poll(&at(10, 20)), Some(Ink::At(Point::new(10, 20))));
    // Over the clear button, but not landing there.
    assert_eq!(t.poll(&at(400, 40)), Some(Ink::At(Point::new(400, 40))));
    assert_eq!(t.poll(&Ok(vec![])), Some(Ink::Lifted));
    assert_eq!(t.poll(&Ok(vec![])), None);
    assert_eq!(screen_point(&Touch { x: 7, y: 8, id: 3 }), Point::new(7, 8));
}

#[test]
fn the_clear_button_acts_once_and_leaves_no_trail() {
    let mut t = TouchTracker::new();
    assert_eq!(t.poll(&at(380, 20)), Some(Ink::Clear));
    assert_eq!(t.poll(&at(380, 20)), None);
    assert_eq!(t.poll(&at(100, 100)), None);
    assert_eq!(t.poll(&Ok(vec![])), Some(Ink::Lifted));
    assert_eq!(t.poll(&at(100, 100)), Some(Ink::At(Point::new(100, 100))));
    // Just outside.
    assert_eq!(t.poll(&Ok(vec![])), Some(Ink::Lifted));
    assert_eq!(t.poll(&at(460, 20)), Some(Ink::At(Point::new(460, 20))));
}

#[test]
fn a_failed_report_counts_as_lifting() {
    let mut t = TouchTracker::new();
    let _ = t.poll(&at(1, 1));
    assert_eq!(t.poll(&Err(9)), Some(Ink::Lifted));
    assert_eq!(t.poll(&Err(9)), None);
}
