use timer_kit::DelayQueue;
use timer_kit::QueuePoll;

fn expect_expired(r: QueuePoll<&'static str>) -> timer_kit::Expired<&'static str> {
    match r {
        QueuePoll::Expired(x) => x,
        QueuePoll::Pending => panic!("expected an expired entry, got pending"),
        QueuePoll::Empty => panic!("expected an expired entry, got empty"),
    }
}

fn expect_pending(r: QueuePoll<&'static str>) {
    match r {
        QueuePoll::Expired(_) => panic!("expected pending, got an expired entry"),
        QueuePoll::Pending => {}
        QueuePoll::Empty => panic!("expected pending, got empty"),
    }
}

fn expect_empty(r: QueuePoll<&'static str>) {
    match r {
        QueuePoll::Expired(_) => panic!("expected empty, got an expired entry"),
        QueuePoll::Pending => panic!("expected empty, got pending"),
        QueuePoll::Empty => {}
    }
}

#[test]
fn empty_queue_reports_empty() {
    let mut q: DelayQueue<&'static str> = DelayQueue::new();
    assert_eq!(q.len(), 0);
    assert!(q.is_empty());
    assert_eq!(q.capacity(), 0);
    expect_empty(q.poll_expired(0));
    expect_empty(q.poll_expired(1000));
}

#[test]
fn past_deadline_fires_on_next_pull_before_later_entries() {
    let mut q: DelayQueue<&'static str> = DelayQueue::new();
    let _later = q.insert_at("later", 500);
    let _past = q.insert_at("past", 0);
    let x = expect_expired(q.poll_expired(100));
    assert_eq!(x.into_inner(), "past");
    // nothing else is due: the later entry stays pending
    expect_pending(q.poll_expired(100));
    let x2 = expect_expired(q.poll_expired(500));
    assert_eq!(x2.into_inner(), "later");
    expect_empty(q.poll_expired(500));
}

#[test]
fn three_entries_at_same_instant_all_drain() {
    let mut q: DelayQueue<&'static str> = DelayQueue::new();
    q.insert_at("a", 50);
    q.insert_at("b", 50);
    q.insert_at("c", 50);
    let mut got = vec![
        expect_expired(q.poll_expired(50)).into_inner(),
        expect_expired(q.poll_expired(50)).into_inner(),
        expect_expired(q.poll_expired(50)).into_inner(),
    ];
    got.sort();
    assert_eq!(got, vec!["a", "b", "c"]);
    expect_empty(q.poll_expired(50));
}

#[test]
fn reset_at_delays_and_then_fires() {
    let mut q: DelayQueue<&'static str> = DelayQueue::new();
    let k = q.insert_at("x", 100);
    q.reset_at(k, 300);
    // just before the new deadline: nothing due
    expect_pending(q.poll_expired(299));
    // just after: the entry comes out
    let x = expect_expired(q.poll_expired(301));
    assert_eq!(x.key(), k);
    assert_eq!(x.deadline(), 300);
    assert_eq!(x.into_inner(), "x");
}

#[test]
fn reset_earlier_is_observed_first() {
    let mut q: DelayQueue<&'static str> = DelayQueue::new();
    let _k1 = q.insert_at("first", 200);
    let k2 = q.insert_at("second", 400);
    // the later-inserted entry is moved ahead of the already-pending one
    q.reset_at(k2, 100);
    let x = expect_expired(q.poll_expired(400));
    assert_eq!(x.key(), k2);
    assert_eq!(x.into_inner(), "second");
    let y = expect_expired(q.poll_expired(400));
    assert_eq!(y.into_inner(), "first");
}

#[test]
fn repeated_resets_last_one_wins() {
    let mut q: DelayQueue<&'static str> = DelayQueue::new();
    let k = q.insert_at("x", 100);
    q.reset_at(k, 1000);
    q.reset_at(k, 50_000);
    q.reset_at(k, 70);
    let x = expect_expired(q.poll_expired(70));
    assert_eq!(x.deadline(), 70);
    expect_empty(q.poll_expired(70));
}

#[test]
fn removed_entry_never_expires() {
    let mut q: DelayQueue<&'static str> = DelayQueue::new();
    let k = q.insert_at("gone", 100);
    q.insert_at("kept", 200);
    let removed = q.remove(k);
    assert_eq!(removed.key(), k);
    assert_eq!(removed.deadline(), 100);
    assert_eq!(*removed.get_ref(), "gone");
    assert_eq!(removed.into_inner(), "gone");
    // pulling past the removed entry's original deadline never yields it
    let x = expect_expired(q.poll_expired(1000));
    assert_eq!(x.into_inner(), "kept");
    expect_empty(q.poll_expired(1000));
}

#[test]
fn remove_returns_value_whatever_the_deadline() {
    let mut q: DelayQueue<&'static str> = DelayQueue::new();
    let k = q.insert_at("early", 1_000_000);
    let x = q.remove(k);
    assert_eq!(x.into_inner(), "early");
    assert_eq!(q.len(), 0);
}

#[test]
fn keys_are_distinct_and_generations_guard_reuse() {
    let mut q: DelayQueue<&'static str> = DelayQueue::new();
    let k1 = q.insert_at("a", 10);
    let k2 = q.insert_at("b", 20);
    assert_ne!(k1, k2);
    q.remove(k1);
    // the freed slot is reused, but under a fresh generation
    let k3 = q.insert_at("c", 30);
    assert_ne!(k1, k3);
}

#[test]
fn compact_preserves_live_keys_and_empties_to_zero() {
    let mut q: DelayQueue<&'static str> = DelayQueue::new();
    let keep = q.insert_at("keep", 10);
    let k2 = q.insert_at("b", 20);
    let k3 = q.insert_at("c", 30);
    q.remove(k3);
    q.remove(k2);
    assert_eq!(q.capacity(), 3);
    q.compact();
    assert!(q.capacity() <= 3);
    // the surviving key still resolves to its original value
    let x = q.remove(keep);
    assert_eq!(x.into_inner(), "keep");
    q.compact();
    assert_eq!(q.capacity(), 0);
    assert_eq!(q.len(), 0);
    expect_empty(q.poll_expired(1000));
}

#[test]
fn len_and_capacity_track_entries() {
    let mut q: DelayQueue<&'static str> = DelayQueue::new();
    let k1 = q.insert_at("a", 10);
    q.insert_at("b", 20);
    assert_eq!(q.len(), 2);
    assert_eq!(q.capacity(), 2);
    q.remove(k1);
    assert_eq!(q.len(), 1);
    assert_eq!(q.capacity(), 2);
    q.insert_at("c", 30);
    assert_eq!(q.len(), 2);
    assert_eq!(q.capacity(), 2);
}

#[test]
fn relative_insert_uses_now_plus_delay() {
    let mut q: DelayQueue<&'static str> = DelayQueue::new();
    let _k = q.insert("x", 250, 100);
    expect_pending(q.poll_expired(349));
    let x = expect_expired(q.poll_expired(350));
    assert_eq!(x.deadline(), 350);
}

#[test]
fn relative_reset_uses_now_plus_delay() {
    let mut q: DelayQueue<&'static str> = DelayQueue::new();
    let k = q.insert_at("x", 10);
    q.reset(k, 100, 400);
    expect_pending(q.poll_expired(499));
    let x = expect_expired(q.poll_expired(500));
    assert_eq!(x.deadline(), 500);
}

#[test]
fn next_deadline_tracks_minimum() {
    let mut q: DelayQueue<&'static str> = DelayQueue::new();
    assert_eq!(q.next_deadline(), None);
    q.insert_at("a", 500);
    let k = q.insert_at("b", 900);
    assert_eq!(q.next_deadline(), Some(500));
    // re-arming after a mutation that lowers the minimum
    q.reset_at(k, 100);
    assert_eq!(q.next_deadline(), Some(100));
}

#[test]
fn drain_order_is_by_deadline() {
    let mut q: DelayQueue<&'static str> = DelayQueue::new();
    q.insert_at("late", 3000);
    q.insert_at("early", 10);
    q.insert_at("middle", 700);
    assert_eq!(expect_expired(q.poll_expired(5000)).into_inner(), "early");
    assert_eq!(expect_expired(q.poll_expired(5000)).into_inner(), "middle");
    assert_eq!(expect_expired(q.poll_expired(5000)).into_inner(), "late");
    expect_empty(q.poll_expired(5000));
}

#[test]
fn round_trip_drains_inserted_minus_removed() {
    let mut q: DelayQueue<&'static str> = DelayQueue::new();
    let _ka = q.insert_at("a", 10);
    let kb = q.insert_at("b", 20);
    let kc = q.insert_at("c", 30);
    let _kd = q.insert_at("d", 40);
    q.reset_at(kc, 5);
    let removed = q.remove(kb).into_inner();
    assert_eq!(removed, "b");
    let mut drained: Vec<&'static str> = Vec::new();
    loop {
        match q.poll_expired(u64::MAX) {
            QueuePoll::Expired(x) => drained.push(x.into_inner()),
            QueuePoll::Pending => panic!("everything is due"),
            QueuePoll::Empty => break,
        }
    }
    drained.sort();
    // drained + removed = inserted
    assert_eq!(drained, vec!["a", "c", "d"]);
}

#[test]
fn stale_keys_do_not_resolve() {
    let mut q: DelayQueue<&'static str> = DelayQueue::new();
    let k = q.insert_at("a", 10);
    assert!(q.contains(k));
    q.remove(k);
    // removing a key consumes it: using it again is a caller bug, and the
    // queue can tell
    assert!(!q.contains(k));
    let k2 = q.insert_at("b", 10);
    assert!(!q.contains(k));
    let drained = expect_expired(q.poll_expired(10));
    assert_eq!(drained.key(), k2);
    // a key drained via expiration is just as dead as a removed one
    assert!(!q.contains(k2));
}

#[test]
fn compact_with_interior_live_entry_keeps_it() {
    let mut q: DelayQueue<&'static str> = DelayQueue::new();
    let k1 = q.insert_at("a", 10);
    let k2 = q.insert_at("b", 20);
    let k3 = q.insert_at("c", 30);
    q.remove(k1);
    q.remove(k3);
    q.compact();
    // the interior entry pins its slot; its key still resolves
    assert!(q.contains(k2));
    assert_eq!(q.remove(k2).into_inner(), "b");
}

#[test]
fn reset_of_an_already_due_entry_takes_effect() {
    let mut q: DelayQueue<&'static str> = DelayQueue::new();
    let k = q.insert_at("x", 100);
    // the entry is already due at 200, but has not been drained yet; the
    // reset must still take effect
    q.reset_at(k, 900);
    expect_pending(q.poll_expired(200));
    expect_pending(q.poll_expired(899));
    let x = expect_expired(q.poll_expired(900));
    assert_eq!(x.deadline(), 900);
}
