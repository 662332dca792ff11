use one_dimension_up::export::{Next, Schedule, SETTLE_WAIT, STARTUP_WAIT};
use one_dimension_up::film::total_frames;

fn updates_until_capture(s: &mut Schedule) -> u32 {
    let mut n = 0;
    while !s.update() {
        n += 1;
        assert!(n < 1000);
    }
    n
}

#[test]
fn a_still_captures_once_after_startup() {
    let mut s = Schedule::new(true, 714, 30);
    assert_eq!(s.count(), 1);
    assert_eq!(s.first(), 714);
    assert_eq!(updates_until_capture(&mut s), STARTUP_WAIT as u32);
    assert!(!s.update());
    assert!(s.awaiting_frame());
    assert_eq!(s.stored(), Next::Finish);
    assert!(!s.awaiting_frame());
    for _ in 0..300 {
        assert!(!s.update());
    }
}

#[test]
fn a_video_stores_every_frame_in_order() {
    let mut s = Schedule::new(false, 0, 12);
    let count = total_frames(12);
    assert_eq!(s.count(), count);
    assert_eq!(updates_until_capture(&mut s), STARTUP_WAIT as u32);
    for n in 1..count {
        assert_eq!(s.stored(), Next::Seek(n));
        assert_eq!(s.written(), n);
        assert_eq!(updates_until_capture(&mut s), SETTLE_WAIT as u32);
    }
    assert_eq!(s.stored(), Next::Finish);
    assert_eq!(s.written(), count);
    assert!(!s.update());
}

#[test]
fn a_failure_stops_capturing() {
    let mut s = Schedule::new(false, 0, 30);
    s.fail();
    for _ in 0..500 {
        assert!(!s.update());
    }
    assert!(s.awaiting_frame());
}
