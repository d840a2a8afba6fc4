use timer_kit::wheel::Wheel;
use timer_kit::wheel::WheelStep;

#[test]
fn wheel_yields_in_fire_order_across_levels() {
    // fire ticks chosen to land on different levels: 3 (level 0), 70
    // (level 1), 5000 (level 2): cascading must re-bucket the coarse ones
    // before they are judged due
    let mut w = Wheel::new();
    w.insert(0, 5000);
    w.insert(1, 3);
    w.insert(2, 70);
    assert_eq!(w.poll(10_000), WheelStep::Due(1, 3));
    assert_eq!(w.poll(10_000), WheelStep::Due(2, 70));
    assert_eq!(w.poll(10_000), WheelStep::Due(0, 5000));
    assert_eq!(w.poll(10_000), WheelStep::Empty);
}

#[test]
fn wheel_waits_on_the_next_slot_boundary() {
    let mut w = Wheel::new();
    w.insert(4, 9);
    match w.poll(5) {
        WheelStep::Wait(t) => {
            assert!(t > 5);
            assert!(t <= 9);
        }
        other => panic!("expected a wait, got {:?}", other),
    }
    assert_eq!(w.poll(9), WheelStep::Due(4, 9));
}

#[test]
fn wheel_remove_unlinks_an_entry() {
    let mut w = Wheel::new();
    w.insert(0, 100);
    w.insert(1, 200);
    w.remove(0, 100);
    assert_eq!(w.poll(1000), WheelStep::Due(1, 200));
    assert_eq!(w.poll(1000), WheelStep::Empty);
}

#[test]
fn wheel_next_wake_is_the_minimum_fire_tick() {
    let mut w = Wheel::new();
    assert_eq!(w.next_wake(), None);
    w.insert(0, 640);
    w.insert(1, 77);
    assert_eq!(w.next_wake(), Some(77));
    w.remove(1, 77);
    assert_eq!(w.next_wake(), Some(640));
}

#[test]
fn wheel_entry_at_position_is_due_immediately() {
    let mut w = Wheel::new();
    assert_eq!(w.position(), 0);
    w.insert(3, 0);
    assert_eq!(w.poll(0), WheelStep::Due(3, 0));
}
