//! Laws relating the operations of [`DelayQueue`], stated over the map view
//! that its contracts use.
//!
//! [`DelayQueue`]: crate::DelayQueue

use vstd::prelude::*;

use vstd::multiset::Multiset;

use crate::delay_queue::Key;
use crate::delay_queue::QueueEntry;

verus! {

broadcast use vstd::multiset::group_multiset_axioms;

/// What `poll_expired`'s contract pins down about the entry it yields out of
/// a queue whose view is `m` when polled at tick `now`: the entry is held,
/// it is due, and it fires no later than any other held entry.
pub open spec fn yielded_by_poll<T>(m: Map<Key, QueueEntry<T>>, now: u64, k: Key) -> bool {
    &&& m.contains_key(k)
    &&& m[k].fire_at <= now
    &&& forall|k2: Key| #[trigger] m.contains_key(k2) ==> m[k].fire_at <= m[k2].fire_at
}

/// A due entry is always yielded ahead of an entry that is not yet due: a
/// pull never returns a later-deadline entry while an already-due one is
/// still held. In particular an entry inserted with a past-or-now deadline
/// (whose fire tick is clamped to the insertion-time position, hence already
/// reached) comes out before every entry whose deadline still lies ahead.
pub proof fn lemma_due_yields_before_later<T>(
    m: Map<Key, QueueEntry<T>>,
    now: u64,
    yielded: Key,
    later: Key,
)
    requires
        yielded_by_poll(m, now, yielded),
        m.contains_key(later),
        m[later].fire_at > now,
    ensures
        yielded != later,
{
}

/// An entry reset to fire at `d` is not yielded by a pull before `d`, and a
/// pull at or after `d` yields exactly that entry when nothing else is due.
pub proof fn lemma_reset_takes_effect<T>(
    m: Map<Key, QueueEntry<T>>,
    k: Key,
    d: u64,
    now: u64,
    yielded: Key,
)
    requires
        m.contains_key(k),
        m[k].fire_at == d,
        yielded_by_poll(m, now, yielded),
    ensures
        now < d ==> yielded != k,
        now >= d && (forall|k2: Key|
            #[trigger] m.contains_key(k2) && k2 != k ==> m[k2].fire_at > now) ==> yielded == k,
{
}

/// Resetting an entry to fire earlier than another held entry makes the reset
/// entry come out first, regardless of insertion order: the other entry
/// cannot be the one yielded while the earlier-firing entry is held.
pub proof fn lemma_earlier_reset_observed_first<T>(
    m: Map<Key, QueueEntry<T>>,
    k1: Key,
    k2: Key,
    now: u64,
    yielded: Key,
)
    requires
        m.contains_key(k1),
        m.contains_key(k2),
        m[k1].fire_at < m[k2].fire_at,
        yielded_by_poll(m, now, yielded),
    ensures
        yielded != k2,
{
}

/// A removed key is never yielded afterwards: a pull on the queue left by
/// `remove(k)` cannot return `k`, at any tick.
pub proof fn lemma_removed_never_yielded<T>(m: Map<Key, QueueEntry<T>>, k: Key, now: u64, yielded: Key)
    requires
        yielded_by_poll(m.remove(k), now, yielded),
    ensures
        yielded != k,
{
}

/// Successive pulls drain entries in non-decreasing fire-tick order: an entry
/// yielded after another, with no intervening mutation, fires no earlier than
/// the first one did.
pub proof fn lemma_drain_order_non_decreasing<T>(
    m: Map<Key, QueueEntry<T>>,
    now1: u64,
    k1: Key,
    now2: u64,
    k2: Key,
)
    requires
        yielded_by_poll(m, now1, k1),
        yielded_by_poll(m.remove(k1), now2, k2),
    ensures
        m[k1].fire_at <= m.remove(k1)[k2].fire_at,
{
    assert(m.contains_key(k2));
}

/// One caller-visible event in the life of a queue, as the operations'
/// contracts describe it.
pub enum QueueEvent<T> {
    /// An insertion returned the fresh key, holding the given entry.
    Insert(Key, QueueEntry<T>),
    /// A reset moved the entry under the key, keeping its value.
    Reset(Key, QueueEntry<T>),
    /// `remove` took the entry under the key out, returning its value.
    Remove(Key, T),
    /// A pull drained the entry under the key, returning its value.
    Drain(Key, T),
}

/// Whether an event is possible on a queue whose view is `m`: exactly the
/// preconditions and result facts that the operations' contracts state.
pub open spec fn event_ok<T>(m: Map<Key, QueueEntry<T>>, ev: QueueEvent<T>) -> bool {
    match ev {
        QueueEvent::Insert(k, _e) => !m.contains_key(k),
        QueueEvent::Reset(k, e) => m.contains_key(k) && e.value == m[k].value,
        QueueEvent::Remove(k, v) => m.contains_key(k) && v == m[k].value,
        QueueEvent::Drain(k, v) => m.contains_key(k) && v == m[k].value,
    }
}

/// The view left behind by an event, as the operations' contracts state it.
pub open spec fn apply_event<T>(m: Map<Key, QueueEntry<T>>, ev: QueueEvent<T>) -> Map<
    Key,
    QueueEntry<T>,
> {
    match ev {
        QueueEvent::Insert(k, e) => m.insert(k, e),
        QueueEvent::Reset(k, e) => m.insert(k, e),
        QueueEvent::Remove(k, _v) => m.remove(k),
        QueueEvent::Drain(k, _v) => m.remove(k),
    }
}

/// Whether a whole sequence of events is possible starting from view `m`.
pub open spec fn trace_ok<T>(m: Map<Key, QueueEntry<T>>, evs: Seq<QueueEvent<T>>) -> bool
    decreases evs.len(),
{
    evs.len() == 0 || (event_ok(m, evs[0]) && trace_ok(apply_event(m, evs[0]), evs.drop_first()))
}

/// The view left behind by a whole sequence of events.
pub open spec fn apply_trace<T>(m: Map<Key, QueueEntry<T>>, evs: Seq<QueueEvent<T>>) -> Map<
    Key,
    QueueEntry<T>,
>
    decreases evs.len(),
{
    if evs.len() == 0 {
        m
    } else {
        apply_trace(apply_event(m, evs[0]), evs.drop_first())
    }
}

/// The multiset of values inserted over a sequence of events.
pub open spec fn inserted_values<T>(evs: Seq<QueueEvent<T>>) -> Multiset<T>
    decreases evs.len(),
{
    if evs.len() == 0 {
        Multiset::empty()
    } else {
        match evs[0] {
            QueueEvent::Insert(_k, e) => inserted_values(evs.drop_first()).insert(e.value),
            _ => inserted_values(evs.drop_first()),
        }
    }
}

/// The multiset of values explicitly removed over a sequence of events.
pub open spec fn removed_values<T>(evs: Seq<QueueEvent<T>>) -> Multiset<T>
    decreases evs.len(),
{
    if evs.len() == 0 {
        Multiset::empty()
    } else {
        match evs[0] {
            QueueEvent::Remove(_k, v) => removed_values(evs.drop_first()).insert(v),
            _ => removed_values(evs.drop_first()),
        }
    }
}

/// The multiset of values drained by pulls over a sequence of events.
pub open spec fn drained_values<T>(evs: Seq<QueueEvent<T>>) -> Multiset<T>
    decreases evs.len(),
{
    if evs.len() == 0 {
        Multiset::empty()
    } else {
        match evs[0] {
            QueueEvent::Drain(_k, v) => drained_values(evs.drop_first()).insert(v),
            _ => drained_values(evs.drop_first()),
        }
    }
}

/// The multiset of values held by a queue whose view is `m`.
pub open spec fn held_values<T>(m: Map<Key, QueueEntry<T>>) -> Multiset<T>
    decreases m.dom().len(),
    when m.dom().finite()
{
    if m.dom().finite() && m.dom().len() > 0 {
        let k = m.dom().choose();
        held_values(m.remove(k)).insert(m[k].value)
    } else {
        Multiset::empty()
    }
}

/// Taking any held key out of the held multiset: the multiset of a map is the
/// multiset of the map without one key, plus that key's value.
pub proof fn lemma_held_values_remove<T>(m: Map<Key, QueueEntry<T>>, k: Key)
    requires
        m.dom().finite(),
        m.contains_key(k),
    ensures
        held_values(m) == held_values(m.remove(k)).insert(m[k].value),
    decreases m.dom().len(),
{
    assert(m.dom().remove(k).len() == m.dom().len() - 1);
    let k0 = m.dom().choose();
    assert(m.contains_key(k0));
    if k0 == k {
    } else {
        assert(m.dom().remove(k0).len() == m.dom().len() - 1);
        lemma_held_values_remove(m.remove(k0), k);
        lemma_held_values_remove(m.remove(k), k0);
        assert(m.remove(k0).remove(k) =~= m.remove(k).remove(k0));
        assert(held_values(m.remove(k0).remove(k)).insert(m[k].value).insert(m[k0].value)
            =~= held_values(m.remove(k).remove(k0)).insert(m[k0].value).insert(m[k].value));
    }
}

/// Adding a fresh key adds exactly its value to the held multiset.
pub proof fn lemma_held_values_insert<T>(m: Map<Key, QueueEntry<T>>, k: Key, e: QueueEntry<T>)
    requires
        m.dom().finite(),
        !m.contains_key(k),
    ensures
        held_values(m.insert(k, e)) == held_values(m).insert(e.value),
{
    lemma_held_values_remove(m.insert(k, e), k);
    assert(m.insert(k, e).remove(k) =~= m);
}

/// Replacing the entry under a held key without changing its value leaves the
/// held multiset unchanged.
pub proof fn lemma_held_values_reset<T>(m: Map<Key, QueueEntry<T>>, k: Key, e: QueueEntry<T>)
    requires
        m.dom().finite(),
        m.contains_key(k),
        e.value == m[k].value,
    ensures
        held_values(m.insert(k, e)) == held_values(m),
{
    lemma_held_values_remove(m.insert(k, e), k);
    assert(m.insert(k, e).remove(k) =~= m.remove(k));
    lemma_held_values_remove(m, k);
}

/// The running balance behind the conservation law: across any possible
/// sequence of events, what was inserted plus what was already held equals
/// what was removed, plus what was drained, plus what is still held.
pub proof fn lemma_conservation_balance<T>(m: Map<Key, QueueEntry<T>>, evs: Seq<QueueEvent<T>>)
    requires
        m.dom().finite(),
        trace_ok(m, evs),
    ensures
        apply_trace(m, evs).dom().finite(),
        inserted_values(evs).add(held_values(m)) == removed_values(evs).add(
            drained_values(evs),
        ).add(held_values(apply_trace(m, evs))),
    decreases evs.len(),
{
    if evs.len() == 0 {
        assert(inserted_values(evs).add(held_values(m)) =~= removed_values(evs).add(
            drained_values(evs),
        ).add(held_values(m)));
    } else {
        let ev = evs[0];
        let m1 = apply_event(m, ev);
        let rest = evs.drop_first();
        assert(apply_trace(m, evs) == apply_trace(m1, rest));
        match ev {
            QueueEvent::Insert(k, e) => {
                lemma_held_values_insert(m, k, e);
                lemma_conservation_balance(m1, rest);
                assert(inserted_values(evs) == inserted_values(rest).insert(e.value));
                assert(removed_values(evs) == removed_values(rest));
                assert(drained_values(evs) == drained_values(rest));
                assert(held_values(m1) == held_values(m).insert(e.value));
                assert(inserted_values(evs).add(held_values(m)) =~= inserted_values(rest).add(
                    held_values(m1),
                ));
            },
            QueueEvent::Reset(k, e) => {
                lemma_held_values_reset(m, k, e);
                lemma_conservation_balance(m1, rest);
                assert(inserted_values(evs) == inserted_values(rest));
                assert(removed_values(evs) == removed_values(rest));
                assert(drained_values(evs) == drained_values(rest));
                assert(held_values(m1) == held_values(m));
            },
            QueueEvent::Remove(k, v) => {
                lemma_held_values_remove(m, k);
                assert(m.remove(k).dom() =~= m.dom().remove(k));
                lemma_conservation_balance(m1, rest);
                assert(inserted_values(evs) == inserted_values(rest));
                assert(removed_values(evs) == removed_values(rest).insert(v));
                assert(drained_values(evs) == drained_values(rest));
                assert(held_values(m) == held_values(m1).insert(v));
                assert(removed_values(evs).add(drained_values(evs)).add(
                    held_values(apply_trace(m, evs)),
                ) =~= removed_values(rest).add(drained_values(rest)).add(
                    held_values(apply_trace(m1, rest)),
                ).insert(v));
                assert(inserted_values(evs).add(held_values(m)) =~= inserted_values(rest).add(
                    held_values(m1),
                ).insert(v));
            },
            QueueEvent::Drain(k, v) => {
                lemma_held_values_remove(m, k);
                assert(m.remove(k).dom() =~= m.dom().remove(k));
                lemma_conservation_balance(m1, rest);
                assert(inserted_values(evs) == inserted_values(rest));
                assert(removed_values(evs) == removed_values(rest));
                assert(drained_values(evs) == drained_values(rest).insert(v));
                assert(held_values(m) == held_values(m1).insert(v));
                assert(removed_values(evs).add(drained_values(evs)).add(
                    held_values(apply_trace(m, evs)),
                ) =~= removed_values(rest).add(drained_values(rest)).add(
                    held_values(apply_trace(m1, rest)),
                ).insert(v));
                assert(inserted_values(evs).add(held_values(m)) =~= inserted_values(rest).add(
                    held_values(m1),
                ).insert(v));
            },
        }
        assert(inserted_values(evs).add(held_values(m)) =~= removed_values(evs).add(
            drained_values(evs),
        ).add(held_values(apply_trace(m, evs))));
    }
}

/// The round-trip conservation law: over any possible sequence of inserts,
/// resets, removals and pulls that starts from an empty queue and ends with
/// the queue drained empty, the multiset of drained values together with the
/// multiset of explicitly removed values equals the multiset of inserted
/// values — every inserted value leaves exactly once, and nothing else ever
/// comes out.
pub proof fn lemma_value_conservation<T>(evs: Seq<QueueEvent<T>>)
    requires
        trace_ok(Map::<Key, QueueEntry<T>>::empty(), evs),
        apply_trace(Map::<Key, QueueEntry<T>>::empty(), evs) == Map::<Key, QueueEntry<T>>::empty(),
    ensures
        drained_values(evs).add(removed_values(evs)) == inserted_values(evs),
{
    let empty = Map::<Key, QueueEntry<T>>::empty();
    lemma_conservation_balance(empty, evs);
    assert(held_values(empty) == Multiset::<T>::empty());
    assert(inserted_values(evs).add(Multiset::<T>::empty()) =~= inserted_values(evs));
    assert(removed_values(evs).add(drained_values(evs)).add(Multiset::<T>::empty())
        =~= drained_values(evs).add(removed_values(evs)));
}

} // verus!
