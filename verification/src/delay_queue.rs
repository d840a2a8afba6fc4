//! A many-timer scheduler: values inserted with deadlines, yielded on expiry
//! in fire-tick order, with stable keys that survive removal, reset and
//! storage compaction.

use vstd::prelude::*;

use crate::wheel::Wheel;
use crate::wheel::WheelStep;

verus! {

/// A stable handle for an entry in a [`DelayQueue`].
///
/// A key is valid from the insertion that issued it until the entry leaves the
/// queue, through expiration or removal. The generation counter distinguishes
/// a reused storage slot from the entry that previously occupied it, so a
/// stale key never resolves to a live entry.
#[derive(Debug, Clone, Copy, PartialEq, Eq, Hash, Structural)]
pub struct Key {
    index: usize,
    generation: u64,
}

/// The caller-visible state of one queue entry, used in contracts: the stored
/// value, the deadline the caller asked for, and the tick at which the entry
/// actually fires (the deadline, clamped to the queue's position at the time
/// it was set, so that past deadlines fire on the next poll).
pub struct QueueEntry<T> {
    /// The stored value.
    pub value: T,
    /// The deadline the caller asked for.
    pub deadline: u64,
    /// The tick at which the entry fires: its deadline, or the queue position
    /// at the time the deadline was set if that deadline already lay in the
    /// past.
    pub fire_at: u64,
}

/// An entry returned out of a [`DelayQueue`], by expiration or removal: the
/// value together with its original deadline and its key.
#[derive(Debug)]
pub struct Expired<T> {
    value: T,
    deadline: u64,
    key: Key,
}

impl<T> Expired<T> {
    /// The stored value, for use in contracts.
    pub closed spec fn spec_value(&self) -> T {
        self.value
    }

    /// The original deadline, for use in contracts.
    pub closed spec fn spec_deadline(&self) -> u64 {
        self.deadline
    }

    /// The key, for use in contracts.
    pub closed spec fn spec_key(&self) -> Key {
        self.key
    }

    /// Consumes the envelope and returns the value.
    pub fn into_inner(self) -> (v: T)
        ensures
            v == self.spec_value(),
    {
        self.value
    }

    /// Returns a reference to the value.
    pub fn get_ref(&self) -> (v: &T)
        ensures
            v == self.spec_value(),
    {
        &self.value
    }

    /// The deadline the entry was originally inserted or last reset with.
    pub fn deadline(&self) -> (d: u64)
        ensures
            d == self.spec_deadline(),
    {
        self.deadline
    }

    /// The key under which the entry was held.
    pub fn key(&self) -> (k: Key)
        ensures
            k == self.spec_key(),
    {
        self.key
    }
}

/// The outcome of one pull on a [`DelayQueue`].
#[derive(Debug)]
pub enum QueuePoll<T> {
    /// An entry whose fire tick has been reached, removed from the queue.
    Expired(Expired<T>),
    /// The queue holds entries, but none fires yet.
    Pending,
    /// The queue holds no entries at all.
    Empty,
}

enum SlabSlot<T> {
    Vacant { generation: u64 },
    Occupied { generation: u64, value: T, deadline: u64, fire_at: u64 },
}

impl<T> SlabSlot<T> {
    spec fn gen_of(&self) -> u64 {
        match self {
            SlabSlot::Vacant { generation } => *generation,
            SlabSlot::Occupied { generation, .. } => *generation,
        }
    }

    spec fn is_occupied(&self) -> bool {
        self matches SlabSlot::Occupied { .. }
    }

    spec fn entry_of(&self) -> QueueEntry<T>
        recommends
            self.is_occupied(),
    {
        match self {
            SlabSlot::Occupied { value, deadline, fire_at, .. } => QueueEntry {
                value: *value,
                deadline: *deadline,
                fire_at: *fire_at,
            },
            SlabSlot::Vacant { .. } => QueueEntry {
                value: arbitrary(),
                deadline: arbitrary(),
                fire_at: arbitrary(),
            },
        }
    }
}

/// A queue of values, each with a deadline, yielding each value once its
/// deadline has been reached. Expired values come out in fire-tick order, one
/// per pull. Backed by a hierarchical timing wheel over a slab of entries.
pub struct DelayQueue<T> {
    wheel: Wheel,
    slab: Vec<SlabSlot<T>>,
    free: Vec<usize>,
    live: usize,
}

impl<T> DelayQueue<T> {
    /// The held entries, as a map from key to entry state: the abstraction
    /// that all contracts speak of.
    pub closed spec fn entries(self) -> Map<Key, QueueEntry<T>> {
        Map::new(
            |k: Key|
                0 <= k.index < self.slab@.len() && self.slab@[k.index as int].is_occupied()
                    && self.slab@[k.index as int].gen_of() == k.generation,
            |k: Key| self.slab@[k.index as int].entry_of(),
        )
    }

    /// The queue's current position: the wheel never moves backwards, and no
    /// held entry fires before this tick.
    pub closed spec fn pos(self) -> u64 {
        self.wheel.pos()
    }

    spec fn slab_wheel_linked(self) -> bool {
        &&& forall|i: int|
            0 <= i < self.slab@.len() ==> ((#[trigger] self.slab@[i]).is_occupied()
                <==> self.wheel.contents().contains_key(i as usize))
        &&& forall|i: usize|
            #[trigger] self.wheel.contents().contains_key(i) ==> (i as int) < self.slab@.len()
        &&& forall|i: int|
            0 <= i < self.slab@.len() && (#[trigger] self.slab@[i]).is_occupied() ==> {
                &&& self.wheel.contents()[i as usize] == self.slab@[i].entry_of().fire_at
                &&& self.slab@[i].entry_of().fire_at >= self.slab@[i].entry_of().deadline
            }
    }

    spec fn free_list_exact(self) -> bool {
        &&& forall|p: int|
            0 <= p < self.free@.len() ==> (#[trigger] self.free@[p] as int) < self.slab@.len()
                && !self.slab@[self.free@[p] as int].is_occupied()
        &&& forall|p: int, q: int|
            0 <= p < self.free@.len() && 0 <= q < self.free@.len() && (#[trigger] self.free@[p])
                == (#[trigger] self.free@[q]) ==> p == q
        &&& forall|i: int|
            0 <= i < self.slab@.len() && !(#[trigger] self.slab@[i]).is_occupied() ==> exists|
                p: int,
            | 0 <= p < self.free@.len() && (#[trigger] self.free@[p]) as int == i
    }

    /// The queue's invariant.
    pub closed spec fn wf(self) -> bool {
        &&& self.wheel.wf()
        &&& self.slab_wheel_linked()
        &&& self.free_list_exact()
        &&& self.live + self.free@.len() == self.slab@.len()
        &&& self.live == self.entries().dom().len()
        &&& self.entries().dom().finite()
    }

    /// Creates an empty queue.
    pub fn new() -> (q: DelayQueue<T>)
        ensures
            q.wf(),
            q.entries() == Map::<Key, QueueEntry<T>>::empty(),
            q.pos() == 0,
    {
        let q = DelayQueue {
            wheel: Wheel::new(),
            slab: Vec::new(),
            free: Vec::new(),
            live: 0,
        };
        proof {
            assert(q.entries() =~= Map::<Key, QueueEntry<T>>::empty());
        }
        q
    }

    /// The number of entries currently held.
    pub fn len(&self) -> (n: usize)
        requires
            self.wf(),
        ensures
            n == self.entries().dom().len(),
    {
        self.live
    }

    /// Whether the queue holds no entries.
    pub fn is_empty(&self) -> (b: bool)
        requires
            self.wf(),
        ensures
            b == (self.entries().dom().len() == 0),
    {
        self.live == 0
    }

    /// The number of entry slots currently allocated, free or live; shrunk by
    /// [`DelayQueue::compact`].
    pub fn capacity(&self) -> (n: usize)
        requires
            self.wf(),
        ensures
            n == self.spec_capacity(),
    {
        self.slab.len()
    }

    /// The allocated slot count, for use in contracts.
    pub closed spec fn spec_capacity(self) -> int {
        self.slab@.len() as int
    }

    /// How keys in the caller-visible map correspond to indices in the wheel.
    proof fn lemma_views(self)
        requires
            self.wf(),
        ensures
            forall|k: Key|
                #[trigger] self.entries().contains_key(k) ==> self.wheel.contents().contains_key(
                    k.index,
                ) && self.wheel.contents()[k.index] == self.entries()[k].fire_at,
            forall|i: usize|
                #[trigger] self.wheel.contents().contains_key(i) ==> exists|k: Key|
                    (#[trigger] self.entries().contains_key(k)) && k.index == i
                        && self.entries()[k].fire_at == self.wheel.contents()[i],
            forall|k: Key|
                #[trigger] self.entries().contains_key(k) ==> self.entries()[k].fire_at
                    >= self.pos() && self.entries()[k].fire_at >= self.entries()[k].deadline,
    {
        self.wheel.lemma_wf_facts();
        assert forall|i: usize| #[trigger] self.wheel.contents().contains_key(i) implies exists|
            k: Key,
        |
            (#[trigger] self.entries().contains_key(k)) && k.index == i && self.entries()[k].fire_at
                == self.wheel.contents()[i] by {
            let k = Key { index: i, generation: self.slab@[i as int].gen_of() };
            assert(self.entries().contains_key(k));
        }
    }

    /// Inserts `value` to fire at the absolute tick `deadline`, returning the
    /// key under which it is held.
    ///
    /// A deadline at or before the queue's current position is not rejected:
    /// the entry fires on the next pull.
    pub fn insert_at(&mut self, value: T, deadline: u64) -> (k: Key)
        requires
            old(self).wf(),
        ensures
            final(self).wf(),
            !old(self).entries().contains_key(k),
            final(self).entries() == old(self).entries().insert(
                k,
                (QueueEntry {
                    value,
                    deadline,
                    fire_at: if deadline < old(self).pos() {
                        old(self).pos()
                    } else {
                        deadline
                    },
                }),
            ),
            final(self).pos() == old(self).pos(),
            final(self).entries().dom().len() == old(self).entries().dom().len() + 1,
    {
        proof {
            self.lemma_views();
        }
        let pos = self.wheel.position();
        let fire = if deadline < pos {
            pos
        } else {
            deadline
        };
        let ghost prior = *self;
        let idx_opt = self.free.pop();
        let k = match idx_opt {
            Some(i) => {
                let generation = match &self.slab[i] {
                    SlabSlot::Vacant { generation } => *generation,
                    SlabSlot::Occupied { generation, .. } => *generation,
                };
                let mut slot = SlabSlot::Occupied { generation, value, deadline, fire_at: fire };
                core::mem::swap(&mut slot, &mut self.slab[i]);
                proof {
                    assert(!prior.wheel.contents().contains_key(i));
                }
                self.wheel.insert(i, fire);
                let cap = self.slab.len();
                proof {
                    assert(self.live < cap);
                }
                self.live += 1;
                Key { index: i, generation }
            },
            None => {
                let i = self.slab.len();
                proof {
                    if prior.wheel.contents().contains_key(i) {
                        assert((i as int) < prior.slab@.len());
                    }
                }
                self.slab.push(
                    SlabSlot::Occupied { generation: 0, value, deadline, fire_at: fire },
                );
                self.wheel.insert(i, fire);
                self.live = self.slab.len();
                Key { index: i, generation: 0 }
            },
        };
        proof {
            let ki = k.index as int;
            let entry = QueueEntry { value, deadline, fire_at: fire };
            assert(!prior.entries().contains_key(k));
            assert(self.entries() =~= prior.entries().insert(k, entry)) by {
                assert forall|k2: Key| true implies #[trigger] self.entries().contains_key(k2)
                    == prior.entries().insert(k, entry).contains_key(k2) by {
                    if k2.index as int != ki {
                        assert(self.slab@[k2.index as int] == prior.slab@[k2.index as int]
                        || k2.index as int >= prior.slab@.len());
                    }
                }
                assert forall|k2: Key| #[trigger] self.entries().contains_key(k2) implies
                self.entries()[k2] == prior.entries().insert(k, entry)[k2] by {
                    if k2.index as int != ki {
                        assert(self.slab@[k2.index as int] == prior.slab@[k2.index as int]);
                    }
                }
            }
            assert(self.wf()) by {
                self.wheel.lemma_wf_facts();
                assert forall|i2: int|
                    0 <= i2 < self.slab@.len() && !(#[trigger] self.slab@[i2]).is_occupied()
                        implies exists|p: int|
                    0 <= p < self.free@.len() && (#[trigger] self.free@[p]) as int == i2 by {
                    let q = choose|p: int|
                        0 <= p < prior.free@.len() && (#[trigger] prior.free@[p]) as int == i2;
                    assert(self.free@[q] as int == i2);
                }
                assert(self.entries().dom().len() == prior.entries().dom().len() + 1);
            }
        }
        k
    }

    /// Inserts `value` to fire `delay` ticks after `now`, returning the key
    /// under which it is held.
    pub fn insert(&mut self, value: T, delay: u64, now: u64) -> (k: Key)
        requires
            old(self).wf(),
            now + delay <= u64::MAX,
        ensures
            final(self).wf(),
            !old(self).entries().contains_key(k),
            final(self).entries() == old(self).entries().insert(
                k,
                (QueueEntry {
                    value,
                    deadline: (now + delay) as u64,
                    fire_at: if now + delay < old(self).pos() {
                        old(self).pos()
                    } else {
                        (now + delay) as u64
                    },
                }),
            ),
            final(self).pos() == old(self).pos(),
            final(self).entries().dom().len() == old(self).entries().dom().len() + 1,
    {
        self.insert_at(value, now + delay)
    }

    /// Moves the entry held under `key` to fire at the absolute tick
    /// `deadline`, keeping its key valid. Repeated resets each take effect:
    /// the last one wins. Using a stale key is a caller bug and is excluded
    /// by precondition.
    pub fn reset_at(&mut self, key: Key, deadline: u64)
        requires
            old(self).wf(),
            old(self).entries().contains_key(key),
        ensures
            final(self).wf(),
            final(self).entries() == old(self).entries().insert(
                key,
                (QueueEntry {
                    value: old(self).entries()[key].value,
                    deadline,
                    fire_at: if deadline < old(self).pos() {
                        old(self).pos()
                    } else {
                        deadline
                    },
                }),
            ),
            final(self).pos() == old(self).pos(),
            final(self).entries().dom().len() == old(self).entries().dom().len(),
    {
        proof {
            self.lemma_views();
        }
        let ghost prior = *self;
        let pos = self.wheel.position();
        let fire = if deadline < pos {
            pos
        } else {
            deadline
        };
        let i = key.index;
        let old_fire = match &self.slab[i] {
            SlabSlot::Occupied { fire_at, .. } => *fire_at,
            SlabSlot::Vacant { .. } => {
                proof {
                    assert(false);
                }
                0
            },
        };
        self.wheel.remove(i, old_fire);
        self.wheel.insert(i, fire);
        let mut slot = SlabSlot::Vacant { generation: 0 };
        core::mem::swap(&mut slot, &mut self.slab[i]);
        match slot {
            SlabSlot::Occupied { generation, value, .. } => {
                let mut renewed = SlabSlot::Occupied { generation, value, deadline, fire_at: fire };
                core::mem::swap(&mut renewed, &mut self.slab[i]);
            },
            SlabSlot::Vacant { .. } => {
                proof {
                    assert(false);
                }
            },
        }
        proof {
            let ki = key.index as int;
            let entry = QueueEntry {
                value: prior.entries()[key].value,
                deadline,
                fire_at: fire,
            };
            vstd::std_specs::vec::axiom_spec_len(&self.slab);
            vstd::std_specs::vec::axiom_spec_len(&prior.slab);
            assert(self.entries() =~= prior.entries().insert(key, entry)) by {
                assert forall|k2: Key| true implies #[trigger] self.entries().contains_key(k2)
                    == prior.entries().insert(key, entry).contains_key(k2) by {
                    if k2.index as int != ki {
                        assert(self.slab@[k2.index as int] == prior.slab@[k2.index as int]
                            || k2.index as int >= prior.slab@.len());
                    }
                }
                assert forall|k2: Key| #[trigger] self.entries().contains_key(k2) implies
                self.entries()[k2] == prior.entries().insert(key, entry)[k2] by {
                    if k2.index as int != ki {
                        assert(self.slab@[k2.index as int] == prior.slab@[k2.index as int]);
                    }
                }
            }
            assert(prior.entries().dom().insert(key) =~= prior.entries().dom());
            assert(self.wf()) by {
                self.wheel.lemma_wf_facts();
                assert forall|i2: int|
                    0 <= i2 < self.slab@.len() && !(#[trigger] self.slab@[i2]).is_occupied()
                        implies exists|p: int|
                    0 <= p < self.free@.len() && (#[trigger] self.free@[p]) as int == i2 by {
                    let q = choose|p: int|
                        0 <= p < prior.free@.len() && (#[trigger] prior.free@[p]) as int == i2;
                    assert(self.free@[q] as int == i2);
                }
            }
        }
    }

    /// Moves the entry held under `key` to fire `delay` ticks after `now`.
    /// Using a stale key is a caller bug and is excluded by precondition.
    pub fn reset(&mut self, key: Key, delay: u64, now: u64)
        requires
            old(self).wf(),
            old(self).entries().contains_key(key),
            now + delay <= u64::MAX,
        ensures
            final(self).wf(),
            final(self).entries() == old(self).entries().insert(
                key,
                (QueueEntry {
                    value: old(self).entries()[key].value,
                    deadline: (now + delay) as u64,
                    fire_at: if now + delay < old(self).pos() {
                        old(self).pos()
                    } else {
                        (now + delay) as u64
                    },
                }),
            ),
            final(self).pos() == old(self).pos(),
            final(self).entries().dom().len() == old(self).entries().dom().len(),
    {
        self.reset_at(key, now + delay)
    }

    /// Whether `key` currently resolves to a live entry: true from the
    /// insertion that issued the key until the entry is removed or drained,
    /// and false ever after, even once the underlying storage is reused.
    pub fn contains(&self, key: Key) -> (b: bool)
        requires
            self.wf(),
        ensures
            b == self.entries().contains_key(key),
    {
        if key.index >= self.slab.len() {
            return false;
        }
        match &self.slab[key.index] {
            SlabSlot::Occupied { generation, .. } => *generation == key.generation,
            SlabSlot::Vacant { .. } => false,
        }
    }

    /// Removes the entry held under `key` and returns it, whatever its
    /// deadline. Using a stale key — one whose entry was already removed or
    /// already drained by expiration — is a caller bug and is excluded by
    /// precondition.
    pub fn remove(&mut self, key: Key) -> (r: Expired<T>)
        requires
            old(self).wf(),
            old(self).entries().contains_key(key),
        ensures
            final(self).wf(),
            r.spec_key() == key,
            r.spec_value() == old(self).entries()[key].value,
            r.spec_deadline() == old(self).entries()[key].deadline,
            final(self).entries() == old(self).entries().remove(key),
            final(self).pos() == old(self).pos(),
            final(self).entries().dom().len() == old(self).entries().dom().len() - 1,
    {
        proof {
            self.lemma_views();
        }
        let ghost prior = *self;
        let i = key.index;
        let mut slot = SlabSlot::Vacant { generation: 0 };
        core::mem::swap(&mut slot, &mut self.slab[i]);
        match slot {
            SlabSlot::Occupied { generation, value, deadline, fire_at } => {
                let mut vacant = SlabSlot::Vacant { generation: generation.wrapping_add(1) };
                core::mem::swap(&mut vacant, &mut self.slab[i]);
                self.wheel.remove(i, fire_at);
                self.free.push(i);
                proof {
                    assert(prior.entries().dom().contains(key));
                    assert(prior.entries().dom().remove(key).len() == prior.entries().dom().len()
                        - 1);
                }
                self.live -= 1;
                proof {
                    let newgen = generation.wrapping_add(1) as u64;
                    assert(self.slab@ =~= prior.slab@.update(
                        key.index as int,
                        (SlabSlot::Vacant { generation: newgen }),
                    ));
                    self.lemma_after_drop(prior, key, newgen);
                }
                Expired { value, deadline, key }
            },
            SlabSlot::Vacant { .. } => {
                proof {
                    assert(false);
                }
                vstd::pervasive::unreached()
            },
        }
    }

    /// Pulls the next expired entry at tick `now`.
    ///
    /// Yields the entry with the earliest fire tick whenever one has become
    /// due; never yields an entry before its fire tick, so an entry whose
    /// deadline was just reset past `now` is not reported. Reports `Pending`
    /// while entries are held but none is due, and `Empty` when the queue
    /// holds nothing.
    pub fn poll_expired(&mut self, now: u64) -> (r: QueuePoll<T>)
        requires
            old(self).wf(),
        ensures
            final(self).wf(),
            final(self).pos() >= old(self).pos(),
            match r {
                QueuePoll::Empty => {
                    &&& final(self).entries() == old(self).entries()
                    &&& old(self).entries() == Map::<Key, QueueEntry<T>>::empty()
                    &&& final(self).pos() == old(self).pos()
                },
                QueuePoll::Pending => {
                    &&& final(self).entries() == old(self).entries()
                    &&& exists|k: Key| #[trigger] old(self).entries().contains_key(k)
                    &&& forall|k: Key|
                        #[trigger] old(self).entries().contains_key(k) ==> old(
                            self,
                        ).entries()[k].fire_at > now
                },
                QueuePoll::Expired(x) => {
                    &&& crate::laws::yielded_by_poll(old(self).entries(), now, x.spec_key())
                    &&& x.spec_value() == old(self).entries()[x.spec_key()].value
                    &&& x.spec_deadline() == old(self).entries()[x.spec_key()].deadline
                    &&& final(self).entries() == old(self).entries().remove(x.spec_key())
                    &&& final(self).entries().dom().len() == old(self).entries().dom().len() - 1
                },
            },
    {
        proof {
            self.lemma_views();
        }
        let ghost prior = *self;
        let step = self.wheel.poll(now);
        match step {
            WheelStep::Empty => {
                proof {
                    assert(prior.entries() =~= Map::<Key, QueueEntry<T>>::empty()) by {
                        assert forall|k: Key| !(#[trigger] prior.entries().contains_key(k)) by {
                            if prior.entries().contains_key(k) {
                                assert(prior.wheel.contents().contains_key(k.index));
                            }
                        }
                    }
                }
                QueuePoll::Empty
            },
            WheelStep::Wait(_t) => {
                proof {
                    assert forall|k: Key| #[trigger] prior.entries().contains_key(k) implies
                    prior.entries()[k].fire_at > now by {
                        assert(self.wheel.contents().contains_key(k.index));
                    }
                    let iw = choose|i: usize| #[trigger] self.wheel.contents().contains_key(i);
                    let kw = Key { index: iw, generation: prior.slab@[iw as int].gen_of() };
                    assert(prior.entries().contains_key(kw));
                }
                QueuePoll::Pending
            },
            WheelStep::Due(i, _w) => {
                let mut slot = SlabSlot::Vacant { generation: 0 };
                proof {
                    assert((i as int) < self.slab@.len());
                }
                core::mem::swap(&mut slot, &mut self.slab[i]);
                match slot {
                    SlabSlot::Occupied { generation, value, deadline, fire_at } => {
                        let mut vacant = SlabSlot::Vacant {
                            generation: generation.wrapping_add(1),
                        };
                        core::mem::swap(&mut vacant, &mut self.slab[i]);
                        self.free.push(i);
                        let key = Key { index: i, generation };
                        proof {
                            assert(prior.entries().contains_key(key));
                            assert(prior.entries().dom().remove(key).len()
                                == prior.entries().dom().len() - 1);
                        }
                        self.live -= 1;
                        proof {
                            let newgen = generation.wrapping_add(1) as u64;
                            assert(self.slab@ =~= prior.slab@.update(
                                key.index as int,
                                (SlabSlot::Vacant { generation: newgen }),
                            ));
                            self.lemma_after_drop(prior, key, newgen);
                            assert forall|k2: Key|
                                #[trigger] prior.entries().contains_key(k2) implies
                            prior.entries()[key].fire_at <= prior.entries()[k2].fire_at by {
                                assert(prior.wheel.contents().contains_key(k2.index));
                            }
                        }
                        QueuePoll::Expired(Expired { value, deadline, key })
                    },
                    SlabSlot::Vacant { .. } => {
                        proof {
                            assert(false);
                        }
                        QueuePoll::Empty
                    },
                }
            },
        }
    }

    /// The tick at which the next expiry wake-up should be armed: no held
    /// entry fires before it, so an adapter arming a single timer to it will
    /// not oversleep any entry. Recomputed on demand, so the arming tick is
    /// current again immediately after every insert, reset or removal.
    /// Returns nothing when the queue is empty.
    pub fn next_deadline(&self) -> (r: Option<u64>)
        requires
            self.wf(),
        ensures
            match r {
                None => self.entries() == Map::<Key, QueueEntry<T>>::empty(),
                Some(t) => {
                    &&& exists|k: Key|
                        (#[trigger] self.entries().contains_key(k)) && self.entries()[k].fire_at
                            == t
                    &&& forall|k: Key|
                        #[trigger] self.entries().contains_key(k) ==> t
                            <= self.entries()[k].fire_at
                    &&& t >= self.pos()
                },
            },
    {
        proof {
            self.lemma_views();
        }
        match self.wheel.next_wake() {
            None => {
                proof {
                    assert(self.entries() =~= Map::<Key, QueueEntry<T>>::empty()) by {
                        assert forall|k: Key| !(#[trigger] self.entries().contains_key(k)) by {
                            if self.entries().contains_key(k) {
                                assert(self.wheel.contents().contains_key(k.index));
                            }
                        }
                    }
                }
                None
            },
            Some(t) => {
                proof {
                    assert forall|k: Key| #[trigger] self.entries().contains_key(k) implies t
                        <= self.entries()[k].fire_at by {
                        assert(self.wheel.contents().contains_key(k.index));
                    }
                    let iw = choose|i: usize|
                        (#[trigger] self.wheel.contents().contains_key(i))
                            && self.wheel.contents()[i] == t;
                    let kw = Key { index: iw, generation: self.slab@[iw as int].gen_of() };
                    assert(self.entries().contains_key(kw));
                    assert(self.entries()[kw].fire_at == t);
                }
                Some(t)
            },
        }
    }

    /// Reclaims slab storage by releasing the free slots at the end of the
    /// slab. Purely an internal storage optimization: every live key keeps
    /// resolving to its entry, and the caller-visible map is untouched. When
    /// no entries remain at all, the capacity returns to zero.
    pub fn compact(&mut self)
        requires
            old(self).wf(),
        ensures
            final(self).wf(),
            final(self).entries() == old(self).entries(),
            final(self).pos() == old(self).pos(),
            final(self).spec_capacity() <= old(self).spec_capacity(),
            old(self).entries().dom().len() == 0 ==> final(self).spec_capacity() == 0,
    {
        loop
            invariant
                self.wf(),
                self.entries() == old(self).entries(),
                self.pos() == old(self).pos(),
                self.spec_capacity() <= old(self).spec_capacity(),
            ensures
                self.wf(),
                self.entries() == old(self).entries(),
                self.pos() == old(self).pos(),
                self.spec_capacity() <= old(self).spec_capacity(),
                self.slab@.len() == 0 || self.slab@[self.slab@.len() - 1].is_occupied(),
            decreases self.slab@.len(),
        {
            let n = self.slab.len();
            if n == 0 {
                break ;
            }
            let tail_vacant = match &self.slab[n - 1] {
                SlabSlot::Vacant { .. } => true,
                SlabSlot::Occupied { .. } => false,
            };
            if !tail_vacant {
                break ;
            }
            let ghost prior = *self;
            // the vacant tail slot is somewhere in the free list
            let ghost q0 = choose|p: int|
                0 <= p < self.free@.len() && (#[trigger] self.free@[p]) as int == n - 1;
            let free_len: usize = self.free.len();
            let mut q: usize = 0;
            while self.free[q] != n - 1
                invariant
                    *self == prior,
                    0 <= q <= q0,
                    q0 < free_len,
                    free_len == self.free@.len(),
                    n == self.slab@.len(),
                    n >= 1,
                    self.free@[q0] as int == n - 1,
                decreases q0 - q,
            {
                proof {
                    assert(q != q0);
                }
                q += 1;
            }
            let _ = self.free.swap_remove(q);
            let _ = self.slab.pop();
            proof {
                let ni = n - 1 as int;
                let flen = prior.free@.len() as int;
                assert(self.free@ == prior.free@.update(q as int, prior.free@[flen - 1]).drop_last());
                assert(self.slab@ == prior.slab@.subrange(0, ni));
                vstd::std_specs::vec::axiom_spec_len(&prior.slab);
                assert(self.entries() =~= prior.entries()) by {
                    assert forall|k2: Key| true implies #[trigger] self.entries().contains_key(k2)
                        == prior.entries().contains_key(k2) by {
                        if (k2.index as int) < ni {
                            assert(self.slab@[k2.index as int] == prior.slab@[k2.index as int]);
                        } else if k2.index as int == ni {
                            assert(!prior.slab@[ni].is_occupied());
                        }
                    }
                    assert forall|k2: Key| #[trigger] self.entries().contains_key(k2) implies
                    self.entries()[k2] == prior.entries()[k2] by {
                        assert(self.slab@[k2.index as int] == prior.slab@[k2.index as int]);
                    }
                }
                assert(self.wf()) by {
                    assert forall|p: int|
                        0 <= p < self.free@.len() implies (#[trigger] self.free@[p] as int) < ni
                            && !self.slab@[self.free@[p] as int].is_occupied() by {
                        let porig = if p == q as int {
                            flen - 1
                        } else {
                            p
                        };
                        assert(self.free@[p] == prior.free@[porig]);
                        if prior.free@[porig] as int == ni {
                            assert(porig == q0);
                            assert(q0 == q as int || q0 == flen - 1);
                        }
                    }
                    assert forall|p: int, p2: int|
                        0 <= p < self.free@.len() && 0 <= p2 < self.free@.len() && (
                        #[trigger] self.free@[p]) == (#[trigger] self.free@[p2]) implies p
                        == p2 by {
                        let porig = if p == q as int {
                            flen - 1
                        } else {
                            p
                        };
                        let porig2 = if p2 == q as int {
                            flen - 1
                        } else {
                            p2
                        };
                        assert(self.free@[p] == prior.free@[porig]);
                        assert(self.free@[p2] == prior.free@[porig2]);
                    }
                    assert forall|i2: int|
                        0 <= i2 < self.slab@.len() && !(#[trigger] self.slab@[i2]).is_occupied()
                            implies exists|p: int|
                        0 <= p < self.free@.len() && (#[trigger] self.free@[p]) as int == i2 by {
                        let porig = choose|p: int|
                            0 <= p < prior.free@.len() && (#[trigger] prior.free@[p]) as int == i2;
                        assert(porig != q0);
                        if porig == flen - 1 {
                            assert(q as int != flen - 1 ==> self.free@[q as int] as int == i2);
                            assert(q as int == flen - 1 ==> false);
                        } else if porig == q as int {
                            assert(q0 == flen - 1);
                            assert(false);
                        } else {
                            assert(self.free@[porig] as int == i2);
                        }
                    }
                }
            }
        }
        proof {
            if old(self).entries().dom().len() == 0 && self.slab@.len() > 0 {
                let ni = self.slab@.len() - 1;
                let kw = Key { index: ni as usize, generation: self.slab@[ni].gen_of() };
                vstd::std_specs::vec::axiom_spec_len(&self.slab);
                assert(self.entries().contains_key(kw));
                assert(self.entries().dom().remove(kw).len() == self.entries().dom().len() - 1);
                assert(false);
            }
        }
    }

    /// After an entry's slot has been vacated with a bumped generation, its
    /// index freed and the wheel entry removed, the map has lost exactly that
    /// key.
    proof fn lemma_after_drop(self, prior: DelayQueue<T>, key: Key, newgen: u64)
        requires
            prior.wf(),
            prior.entries().contains_key(key),
            self.slab@ == prior.slab@.update(
                key.index as int,
                (SlabSlot::Vacant { generation: newgen }),
            ),
            self.free@ == prior.free@.push(key.index),
            self.wheel.wf(),
            self.wheel.contents() == prior.wheel.contents().remove(key.index),
            self.live + 1 == prior.live,
        ensures
            self.wf(),
            self.entries() == prior.entries().remove(key),
            self.entries().dom().len() == prior.entries().dom().len() - 1,
    {
        let ki = key.index as int;
        vstd::std_specs::vec::axiom_spec_len(&self.slab);
        vstd::std_specs::vec::axiom_spec_len(&prior.slab);
        assert(self.entries() =~= prior.entries().remove(key)) by {
            assert forall|k2: Key| true implies #[trigger] self.entries().contains_key(k2)
                == prior.entries().remove(key).contains_key(k2) by {
                if k2.index as int != ki {
                    assert(self.slab@[k2.index as int] == prior.slab@[k2.index as int]
                        || k2.index as int >= prior.slab@.len());
                }
            }
            assert forall|k2: Key| #[trigger] self.entries().contains_key(k2) implies
            self.entries()[k2] == prior.entries().remove(key)[k2] by {
                assert(self.slab@[k2.index as int] == prior.slab@[k2.index as int]);
            }
        }
        assert(prior.entries().remove(key).dom() =~= prior.entries().dom().remove(key));
        assert(self.entries().dom().len() == prior.entries().dom().len() - 1);
        self.wheel.lemma_wf_facts();
        assert(self.wf()) by {
            assert(self.slab_wheel_linked()) by {
                assert forall|i2: int| 0 <= i2 < self.slab@.len() implies ((
                #[trigger] self.slab@[i2]).is_occupied() <==> self.wheel.contents().contains_key(
                    i2 as usize,
                )) by {
                    if i2 != ki {
                        assert(self.slab@[i2] == prior.slab@[i2]);
                        assert(i2 as usize != key.index);
                        assert(self.wheel.contents().contains_key(i2 as usize)
                            == prior.wheel.contents().contains_key(i2 as usize));
                    } else {
                        assert(self.slab@[i2] == (SlabSlot::Vacant::<T> { generation: newgen }));
                        assert(i2 as usize == key.index);
                        assert(!self.wheel.contents().contains_key(i2 as usize));
                    }
                }
                assert forall|i2: int|
                    0 <= i2 < self.slab@.len() && (#[trigger] self.slab@[i2]).is_occupied()
                        implies {
                    &&& self.wheel.contents()[i2 as usize] == self.slab@[i2].entry_of().fire_at
                    &&& self.slab@[i2].entry_of().fire_at >= self.slab@[i2].entry_of().deadline
                } by {
                    assert(i2 != ki);
                    assert(self.slab@[i2] == prior.slab@[i2]);
                }
            }
            assert forall|i2: int|
                0 <= i2 < self.slab@.len() && !(#[trigger] self.slab@[i2]).is_occupied() implies
            exists|p: int| 0 <= p < self.free@.len() && (#[trigger] self.free@[p]) as int == i2 by {
                if i2 == ki {
                    assert(self.free@[self.free@.len() - 1] as int == i2);
                } else {
                    let q = choose|p: int|
                        0 <= p < prior.free@.len() && (#[trigger] prior.free@[p]) as int == i2;
                    assert(self.free@[q] as int == i2);
                }
            }
            assert forall|p: int, q: int|
                0 <= p < self.free@.len() && 0 <= q < self.free@.len() && (
                #[trigger] self.free@[p]) == (#[trigger] self.free@[q]) implies p == q by {
                if p != q {
                    let last = self.free@.len() - 1;
                    if p == last || q == last {
                        assert(prior.slab@[ki].is_occupied());
                    }
                }
            }
        }
    }
}

} // verus!
