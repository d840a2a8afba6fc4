use timer_kit::interval;
use timer_kit::interval_at;
use timer_kit::Interval;
use timer_kit::MissedTickBehavior;

#[test]
fn first_tick_one_period_after_now() {
    let mut i = interval(0, 100);
    assert_eq!(i.period(), 100);
    assert!(!i.poll_tick(99));
    assert!(i.poll_tick(100));
    assert!(!i.poll_tick(100));
    assert!(i.poll_tick(200));
}

#[test]
fn interval_at_starts_at_given_tick() {
    let mut i = interval_at(500, 100);
    assert!(!i.poll_tick(499));
    assert!(i.poll_tick(500));
    assert_eq!(i.deadline(), 600);
}

#[test]
fn default_behavior_is_burst() {
    let i = interval(0, 100);
    assert_eq!(i.missed_tick_behavior(), MissedTickBehavior::Burst);
    assert_eq!(MissedTickBehavior::default(), MissedTickBehavior::Burst);
}

#[test]
fn set_missed_tick_behavior_round_trips() {
    let mut i = interval(0, 100);
    i.set_missed_tick_behavior(MissedTickBehavior::Skip);
    assert_eq!(i.missed_tick_behavior(), MissedTickBehavior::Skip);
    i.set_missed_tick_behavior(MissedTickBehavior::Delay);
    assert_eq!(i.missed_tick_behavior(), MissedTickBehavior::Delay);
}

#[test]
fn burst_catches_up_back_to_back() {
    // start offset 100, period 300; the caller misses two cycles and polls
    // only at 800: the overdue tick and both missed ones fire back to back,
    // and the next poll is pending until the next boundary
    let mut i = interval_at(100, 300);
    assert!(i.poll_tick(800));
    assert_eq!(i.deadline(), 400);
    assert!(i.poll_tick(800));
    assert_eq!(i.deadline(), 700);
    assert!(i.poll_tick(800));
    assert_eq!(i.deadline(), 1000);
    assert!(!i.poll_tick(800));
    assert!(!i.poll_tick(999));
    assert!(i.poll_tick(1000));
}

#[test]
fn skip_realigns_to_next_boundary() {
    // same lateness as the burst case: exactly one tick fires, and the next
    // deadline is aligned to the original phase at 1000
    let mut i = interval_at(100, 300);
    i.set_missed_tick_behavior(MissedTickBehavior::Skip);
    assert!(i.poll_tick(800));
    assert_eq!(i.deadline(), 1000);
    assert!(!i.poll_tick(800));
    assert!(!i.poll_tick(999));
    assert!(i.poll_tick(1000));
}

#[test]
fn delay_rebases_on_observation_time() {
    let mut i = interval_at(100, 300);
    i.set_missed_tick_behavior(MissedTickBehavior::Delay);
    assert!(i.poll_tick(800));
    assert_eq!(i.deadline(), 1100);
    assert!(!i.poll_tick(1099));
    assert!(i.poll_tick(1100));
}

#[test]
fn lateness_within_slack_is_not_a_missed_tick() {
    // 5 ticks of slack by default: observing at deadline + 5 still advances
    // by exactly one period from the old deadline, under every policy
    let mut i = interval_at(100, 300);
    i.set_missed_tick_behavior(MissedTickBehavior::Delay);
    assert!(i.poll_tick(105));
    assert_eq!(i.deadline(), 400);
}

#[test]
fn slack_is_tunable() {
    let mut i = interval_at(100, 300);
    i.set_missed_tick_behavior(MissedTickBehavior::Delay);
    i.set_missed_tick_slack(50);
    assert_eq!(i.missed_tick_slack(), 50);
    // 40 ticks late is within the widened tolerance
    assert!(i.poll_tick(140));
    assert_eq!(i.deadline(), 400);
    // 51 ticks late is not
    assert!(i.poll_tick(451));
    assert_eq!(i.deadline(), 751);
}

#[test]
fn next_timeout_formulas() {
    // due at 100, observed at 800, period 300
    assert_eq!(MissedTickBehavior::Burst.next_timeout(100, 800, 300), 400);
    assert_eq!(MissedTickBehavior::Delay.next_timeout(100, 800, 300), 1100);
    // skip: 800 + 300 - ((800 - 100) % 300) = 1100 - 100 = 1000
    assert_eq!(MissedTickBehavior::Skip.next_timeout(100, 800, 300), 1000);
    // exactly on a boundary the skip policy waits one whole period
    assert_eq!(MissedTickBehavior::Skip.next_timeout(100, 700, 300), 1000);
}

#[test]
fn reset_ignores_policy() {
    let mut i: Interval = interval_at(100, 300);
    i.set_missed_tick_behavior(MissedTickBehavior::Skip);
    i.reset(777);
    assert_eq!(i.deadline(), 1077);
    assert!(!i.poll_tick(1076));
    assert!(i.poll_tick(1077));
}
