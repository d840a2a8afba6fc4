use timer_kit::sleep;
use timer_kit::sleep_until;
use timer_kit::timeout;
use timer_kit::timeout_at;
use timer_kit::Elapsed;
use timer_kit::Sleep;
use timer_kit::Timeout;

#[test]
fn sleep_elapses_at_deadline() {
    let s = sleep(100, 50);
    assert_eq!(s.deadline(), 150);
    assert!(!s.poll(149));
    assert!(s.poll(150));
    assert!(s.poll(151));
}

#[test]
fn sleep_until_uses_absolute_deadline() {
    let s = sleep_until(70);
    assert_eq!(s.deadline(), 70);
    assert!(!s.poll(69));
    assert!(s.poll(70));
}

#[test]
fn zero_duration_sleep_is_immediately_elapsed() {
    let s = Sleep::new(40, 0);
    assert!(s.poll(40));
}

#[test]
fn sleep_reset_rearms_even_after_elapsing() {
    let mut s = Sleep::new_until(10);
    assert!(s.poll(20));
    s.reset(30);
    assert_eq!(s.deadline(), 30);
    assert!(!s.poll(20));
    assert!(s.poll(30));
    // resetting before the deadline has elapsed works the same way
    s.reset(25);
    assert!(s.poll(26));
}

#[test]
fn timeout_pending_then_elapsed() {
    let t: Timeout = timeout(0, 100);
    // the wrapped operation never completes: pending until the deadline
    assert_eq!(t.poll::<u32>(0, None), None);
    assert_eq!(t.poll::<u32>(99, None), None);
    assert_eq!(t.poll::<u32>(100, None), Some(Err(Elapsed::new())));
    assert_eq!(t.poll::<u32>(5000, None), Some(Err(Elapsed::new())));
}

#[test]
fn timeout_completion_wins() {
    let t: Timeout = timeout(0, 100);
    assert_eq!(t.poll(99, Some(7u32)), Some(Ok(7)));
}

#[test]
fn timeout_completion_wins_ties_and_beats_late_deadline() {
    let t = Timeout::new(0, 100);
    // completing exactly at the deadline still wins: the deadline is not
    // consulted when a completion is reported
    assert_eq!(t.poll(100, Some(7u32)), Some(Ok(7)));
    assert_eq!(t.poll(200, Some(8u32)), Some(Ok(8)));
}

#[test]
fn timeout_at_uses_absolute_deadline() {
    let t = timeout_at(250);
    assert_eq!(t.poll::<u32>(249, None), None);
    assert_eq!(t.poll::<u32>(250, None), Some(Err(Elapsed::new())));
    let t2 = Timeout::new_at(300);
    assert_eq!(t2.poll::<u32>(299, None), None);
}

#[test]
fn elapsed_error_describes_itself() {
    let e = Elapsed::new();
    assert_eq!(e.message(), "timer elapsed");
    assert_eq!(e, Elapsed::new());
}
