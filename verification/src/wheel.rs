//! A hierarchical timing wheel: the deadline store behind [`DelayQueue`].
//!
//! The wheel buckets pending fire ticks into `WHEEL_LEVELS` levels of
//! `WHEEL_SLOTS_PER_LEVEL` slots each. Level `l` has a granularity of `64^l`
//! ticks, so the levels together span the whole `u64` tick range. An entry
//! always lives in the lowest level whose granularity still distinguishes its
//! fire tick from the wheel's current position; as the position advances,
//! entries cascade from coarse slots down into finer ones, and reach level 0
//! (whose slots hold a single tick each) before they are yielded.
//!
//! [`DelayQueue`]: crate::DelayQueue

use vstd::prelude::*;

use vstd::arithmetic::div_mod::*;
use vstd::arithmetic::mul::*;
use vstd::arithmetic::power::*;

verus! {

/// Number of levels in the wheel. `64^11 > 2^64`, so every pair of ticks is
/// distinguished by some level.
pub const WHEEL_LEVELS: usize = 11;

/// Number of slots per level.
pub const WHEEL_SLOTS_PER_LEVEL: usize = 64;

/// Total number of slots over all levels.
pub const WHEEL_SLOT_COUNT: usize = 704;

/// `64^l`: the granularity of level `l` in ticks.
pub open spec fn p64(l: nat) -> int {
    pow(64, l)
}

/// `x` with its `l` least-significant base-64 digits dropped.
pub open spec fn hi(x: int, l: nat) -> int {
    x / p64(l)
}

/// The base-64 digit of `x` at position `l`.
pub open spec fn digit(x: int, l: nat) -> int {
    hi(x, l) % 64
}

/// The lowest digit position at which `e` and `w` can still be told apart:
/// the level of the wheel that an entry firing at `w` belongs to while the
/// wheel stands at `e`.
pub open spec fn level_of(e: nat, w: nat) -> nat
    decreases e + w,
{
    if e / 64 == w / 64 {
        0
    } else {
        1 + level_of(e / 64, w / 64)
    }
}

/// The slot array index (level-major) where a fire tick `w` lives while the
/// wheel stands at `e`.
pub open spec fn spec_slot_index(e: u64, w: u64) -> int {
    64 * (level_of(e as nat, w as nat) as int) + digit(w as int, level_of(e as nat, w as nat))
}

/// The first tick covered by slot `s` of level `l`, while the wheel stands at
/// `e`.
pub open spec fn slot_start(e: int, l: nat, s: int) -> int {
    hi(e, (l + 1) as nat) * p64((l + 1) as nat) + s * p64(l)
}

/// Every level granularity is positive.
pub proof fn lemma_p64_pos(l: nat)
    ensures
        p64(l) >= 1,
{
    lemma_pow_positive(64, l);
}

/// One level up means 64 times coarser.
pub proof fn lemma_p64_step(l: nat)
    ensures
        p64((l + 1) as nat) == 64 * p64(l),
{
    lemma_pow_adds(64, l, 1);
    lemma_pow1(64);
}

/// The granularities of the individual levels, and the first granularity past
/// the top level, which exceeds every `u64`.
pub proof fn lemma_p64_values()
    ensures
        p64(0) == 1,
        p64(1) == 64,
        p64(2) == 0x1000,
        p64(3) == 0x40000,
        p64(4) == 0x1000000,
        p64(5) == 0x40000000,
        p64(6) == 0x1000000000,
        p64(7) == 0x40000000000,
        p64(8) == 0x1000000000000,
        p64(9) == 0x40000000000000,
        p64(10) == 0x1000000000000000,
        p64(11) == 0x40000000000000000,
{
    reveal_with_fuel(pow, 13);
}

/// Dropping one more digit is dividing the high part by 64 once more.
pub proof fn lemma_hi_step(x: int, l: nat)
    requires
        0 <= x,
    ensures
        hi(x, (l + 1) as nat) == hi(x, l) / 64,
{
    lemma_p64_pos(l);
    lemma_p64_step(l);
    lemma_div_denominator(x, p64(l), 64);
}

/// If the high parts of `e` and `w` agree at position `k`, they agree at every
/// coarser position.
pub proof fn lemma_agree_up(e: int, w: int, k: nat, j: nat)
    requires
        0 <= e,
        0 <= w,
        k <= j,
        hi(e, k) == hi(w, k),
    ensures
        hi(e, j) == hi(w, j),
    decreases j - k,
{
    if k < j {
        lemma_hi_step(e, k);
        lemma_hi_step(w, k);
        lemma_agree_up(e, w, (k + 1) as nat, j);
    }
}

/// The defining properties of `level_of`: the high parts agree just above the
/// level, and disagree at the level itself and at every finer position.
pub proof fn lemma_level_of_props(e: nat, w: nat)
    ensures
        hi(e as int, (level_of(e, w) + 1) as nat) == hi(w as int, (level_of(e, w) + 1) as nat),
        forall|k: nat| #![trigger hi(e as int, (k + 1) as nat)]
            k < level_of(e, w) ==> hi(e as int, (k + 1) as nat) != hi(w as int, (k + 1) as nat),
    decreases e + w,
{
    lemma_p64_values();
    if e / 64 == w / 64 {
        assert(hi(e as int, 1) == e / 64 == w / 64 == hi(w as int, 1));
    } else {
        let eh = e / 64;
        let wh = w / 64;
        lemma_level_of_props(eh, wh);
        let lh = level_of(eh, wh);
        assert(level_of(e, w) == lh + 1);
        // hi of e at position k + 1 equals hi of e / 64 at position k
        assert forall|k: nat| #![trigger hi(e as int, (k + 1) as nat)]
            hi(e as int, (k + 1) as nat) == hi(eh as int, k) && hi(w as int, (k + 1) as nat) == hi(
            wh as int,
            k,
        ) by {
            lemma_p64_pos(k);
            lemma_p64_step(k);
            lemma_div_denominator(e as int, 64, p64(k));
            lemma_div_denominator(w as int, 64, p64(k));
        }
        assert(hi(e as int, (level_of(e, w) + 1) as nat) == hi(eh as int, (lh + 1) as nat));
        assert forall|k: nat| #![trigger hi(e as int, (k + 1) as nat)]
            k < level_of(e, w) implies hi(e as int, (k + 1) as nat) != hi(
            w as int,
            (k + 1) as nat,
        ) by {
            if k == 0 {
                assert(hi(e as int, 1) == e / 64);
                assert(hi(w as int, 1) == w / 64);
            } else {
                assert(((k - 1) as nat) < lh);
                assert(hi(eh as int, ((k - 1) + 1) as nat) != hi(wh as int, ((k - 1) + 1) as nat));
            }
        }
    }
}

/// If the high parts agree just above `k`, the level is at most `k`.
pub proof fn lemma_level_of_le(e: nat, w: nat, k: nat)
    requires
        hi(e as int, (k + 1) as nat) == hi(w as int, (k + 1) as nat),
    ensures
        level_of(e, w) <= k,
{
    lemma_level_of_props(e, w);
}

/// If the high parts agree just above `k` and (for `k > 0`) disagree at `k`,
/// the level is exactly `k`.
pub proof fn lemma_level_of_is(e: nat, w: nat, k: nat)
    requires
        hi(e as int, (k + 1) as nat) == hi(w as int, (k + 1) as nat),
        k > 0 ==> hi(e as int, k) != hi(w as int, k),
    ensures
        level_of(e, w) == k,
{
    lemma_level_of_props(e, w);
    let l = level_of(e, w);
    if l < k {
        // the props say positions up to the level agree from the level up
        lemma_agree_up(e as int, w as int, (l + 1) as nat, k);
    }
}

/// Between two `u64` ticks the level never exceeds 10.
pub proof fn lemma_level_of_bound(e: u64, w: u64)
    ensures
        level_of(e as nat, w as nat) <= 10,
{
    lemma_p64_values();
    lemma_basic_div_specific_divisor(0x40000000000000000);
    assert(hi(e as int, 11) == 0);
    assert(hi(w as int, 11) == 0);
    lemma_level_of_le(e as nat, w as nat, 10);
}

/// A tick equals itself at every level, so its level against itself is 0.
pub proof fn lemma_level_of_self(x: nat)
    ensures
        level_of(x, x) == 0,
{
}

/// Base-64 place-value decomposition of `x` around position `l`.
pub proof fn lemma_decomp(x: int, l: nat)
    requires
        0 <= x,
    ensures
        x == hi(x, (l + 1) as nat) * p64((l + 1) as nat) + digit(x, l) * p64(l) + x % p64(l),
        hi(x, l) == 64 * hi(x, (l + 1) as nat) + digit(x, l),
        0 <= x % p64(l) < p64(l),
        0 <= digit(x, l) < 64,
        0 <= hi(x, (l + 1) as nat),
{
    lemma_p64_pos(l);
    lemma_p64_step(l);
    lemma_fundamental_div_mod(x, p64(l));
    lemma_mod_bound(x, p64(l));
    lemma_hi_step(x, l);
    lemma_fundamental_div_mod(hi(x, l), 64);
    lemma_mod_bound(hi(x, l), 64);
    lemma_div_pos_is_pos(x, p64(l));
    lemma_div_pos_is_pos(hi(x, l), 64);
    let h1 = hi(x, (l + 1) as nat);
    let d = digit(x, l);
    let pl = p64(l);
    assert(hi(x, l) == 64 * h1 + d);
    assert(x == pl * (64 * h1 + d) + x % pl);
    assert(pl * (64 * h1 + d) == h1 * (64 * pl) + d * pl) by (nonlinear_arith);
}

/// Multiplying a quotient back by its divisor never exceeds the dividend.
pub proof fn lemma_div_mul_le(x: int, d: int)
    requires
        0 <= x,
        0 < d,
    ensures
        (x / d) * d <= x,
        0 <= x / d,
{
    lemma_fundamental_div_mod(x, d);
    lemma_mod_bound(x, d);
    lemma_div_pos_is_pos(x, d);
    lemma_mul_is_commutative(d, x / d);
}

/// Where a pending fire tick `w` sits relative to the wheel position `e`: it
/// lies within the range of its slot, which starts no earlier than `e`; on
/// level 0 it coincides with the slot start; on higher levels its digit lies
/// strictly past the position's digit.
pub proof fn lemma_item_placement(e: u64, w: u64)
    requires
        e <= w,
    ensures
        ({
            let l = level_of(e as nat, w as nat);
            let s = digit(w as int, l);
            &&& slot_start(e as int, l, s) <= w
            &&& w < slot_start(e as int, l, s) + p64(l)
            &&& e <= slot_start(e as int, l, s)
            &&& l == 0 ==> w == slot_start(e as int, l, s)
            &&& l >= 1 ==> digit(w as int, l) > digit(e as int, l)
        }),
{
    let l = level_of(e as nat, w as nat);
    let s = digit(w as int, l);
    lemma_level_of_props(e as nat, w as nat);
    lemma_decomp(w as int, l);
    lemma_decomp(e as int, l);
    lemma_p64_pos(l);
    assert(slot_start(e as int, l, s) == hi(w as int, (l + 1) as nat) * p64((l + 1) as nat) + s
        * p64(l));
    if l == 0 {
        lemma_p64_values();
        assert(w as int % p64(0) == 0);
        assert(e as int % p64(0) == 0);
        assert(digit(e as int, 0) <= digit(w as int, 0));
    } else {
        // the digits at the level itself differ, and since `e <= w` with the
        // coarser digits all equal, `w`'s digit is the larger one
        assert(hi(e as int, (((l - 1) as nat) + 1) as nat) != hi(
            w as int,
            (((l - 1) as nat) + 1) as nat,
        ));
        assert(hi(e as int, l) != hi(w as int, l));
        lemma_div_is_ordered(e as int, w as int, p64(l));
        assert(digit(e as int, l) < digit(w as int, l));
        // e < hi * p1 + (digit(e, l) + 1) * pl <= slot start
        lemma_mul_inequality(digit(e as int, l) + 1, s, p64(l));
        assert((digit(e as int, l) + 1) * p64(l) == digit(e as int, l) * p64(l) + p64(l))
            by (nonlinear_arith);
    }
}

/// Consecutive block bounds nest: the end of the block of `e` at a finer
/// position never exceeds the end of its block at a coarser one.
pub proof fn lemma_block_chain(e: int, a: nat, b: nat)
    requires
        0 <= e,
        a <= b,
    ensures
        (hi(e, a) + 1) * p64(a) <= (hi(e, b) + 1) * p64(b),
    decreases b - a,
{
    if a < b {
        let a1 = (a + 1) as nat;
        lemma_decomp(e, a);
        lemma_p64_pos(a);
        lemma_p64_step(a);
        assert(hi(e, a) + 1 <= 64 * (hi(e, a1) + 1));
        lemma_mul_inequality(hi(e, a) + 1, 64 * (hi(e, a1) + 1), p64(a));
        assert((64 * (hi(e, a1) + 1)) * p64(a) == (hi(e, a1) + 1) * (64 * p64(a)))
            by (nonlinear_arith);
        lemma_block_chain(e, a1, b);
    }
}

/// Every pending entry outside a given slot, lying at that slot's level or
/// coarser, fires no earlier than one whole slot width past the slot's start.
pub proof fn lemma_other_item_far(e: u64, l: nat, s: int, w2: u64)
    requires
        e <= w2,
        l <= 10,
        0 <= s < 64,
        level_of(e as nat, w2 as nat) > l || (level_of(e as nat, w2 as nat) == l && digit(
            w2 as int,
            l,
        ) > s),
    ensures
        w2 >= slot_start(e as int, l, s) + p64(l),
{
    let l2 = level_of(e as nat, w2 as nat);
    let s2 = digit(w2 as int, l2);
    lemma_item_placement(e, w2);
    lemma_level_of_props(e as nat, w2 as nat);
    lemma_p64_pos(l);
    lemma_p64_pos(l2);
    lemma_p64_step(l);
    assert((s + 1) * p64(l) == s * p64(l) + p64(l)) by (nonlinear_arith);
    if l2 == l {
        lemma_decomp(w2 as int, l);
        lemma_mul_inequality(s + 1, s2, p64(l));
        assert(s2 * p64(l) >= s * p64(l) + p64(l));
    } else {
        // w2 lies past the end of e's block at level l2, which contains the
        // end of e's block at level l + 1, which contains the whole slot
        lemma_decomp(w2 as int, l2);
        lemma_decomp(e as int, l2);
        assert(hi(w2 as int, l2) >= hi(e as int, l2) + 1);
        lemma_fundamental_div_mod(w2 as int, p64(l2));
        lemma_mod_bound(w2 as int, p64(l2));
        lemma_mul_inequality(hi(e as int, l2) + 1, hi(w2 as int, l2), p64(l2));
        lemma_mul_is_commutative(p64(l2), hi(w2 as int, l2));
        assert(w2 >= (hi(e as int, l2) + 1) * p64(l2));
        lemma_block_chain(e as int, (l + 1) as nat, l2);
        // slot start + slot width fits inside the end of e's block at l + 1
        lemma_decomp(e as int, l);
        lemma_mul_inequality(s + 1, 64, p64(l));
        assert((hi(e as int, (l + 1) as nat) + 1) * p64((l + 1) as nat) == hi(
            e as int,
            (l + 1) as nat,
        ) * p64((l + 1) as nat) + 64 * p64(l)) by (nonlinear_arith)
            requires
                p64((l + 1) as nat) == 64 * p64(l),
        ;
    }
}

/// Advancing the position to the start of a slot keeps every entry outside
/// that slot, at the slot's level or coarser, placed exactly as before.
pub proof fn lemma_advance_keeps_placement(e: u64, l: nat, s: int, w2: u64)
    requires
        e <= w2,
        l <= 10,
        0 <= s < 64,
        level_of(e as nat, w2 as nat) > l || (level_of(e as nat, w2 as nat) == l && digit(
            w2 as int,
            l,
        ) > s),
    ensures
        ({
            let e2 = slot_start(e as int, l, s);
            &&& 0 <= e2 <= w2
            &&& level_of(e2 as nat, w2 as nat) == level_of(e as nat, w2 as nat)
        }),
{
    let l2 = level_of(e as nat, w2 as nat);
    let e2 = slot_start(e as int, l, s);
    let l1 = (l + 1) as nat;
    lemma_level_of_props(e as nat, w2 as nat);
    lemma_other_item_far(e, l, s, w2);
    lemma_p64_pos(l);
    lemma_p64_pos(l1);
    lemma_p64_step(l);
    lemma_decomp(e as int, l);
    lemma_mul_nonnegative(hi(e as int, l1), p64(l1));
    lemma_mul_nonnegative(s, p64(l));
    // the quotient of e2 by each coarser granularity matches e's
    lemma_mul_inequality(s, 63, p64(l));
    assert(e2 == hi(e as int, l1) * p64(l1) + s * p64(l));
    lemma_fundamental_div_mod_converse(e2, p64(l1), hi(e as int, l1), s * p64(l));
    assert(hi(e2, l1) == hi(e as int, l1));
    // digit of e2 at l is s
    assert(e2 == (64 * hi(e as int, l1) + s) * p64(l) + 0) by (nonlinear_arith)
        requires
            e2 == hi(e as int, l1) * p64(l1) + s * p64(l),
            p64(l1) == 64 * p64(l),
    ;
    lemma_fundamental_div_mod_converse(e2, p64(l), 64 * hi(e as int, l1) + s, 0);
    assert(hi(e2, l) == 64 * hi(e as int, l1) + s);
    if l2 == l {
        lemma_decomp(w2 as int, l);
        assert(hi(w2 as int, l) == 64 * hi(w2 as int, l1) + digit(w2 as int, l));
        assert(hi(e2, l1) == hi(w2 as int, l1));
        if l > 0 {
            assert(hi(e2, l) != hi(w2 as int, l));
        }
        lemma_level_of_is(e2 as nat, w2 as nat, l);
    } else {
        lemma_agree_up(e2, e as int, l1, (l2 + 1) as nat);
        lemma_agree_up(e2, e as int, l1, l2);
        assert(hi(e as int, (((l2 - 1) as nat) + 1) as nat) != hi(
            w2 as int,
            (((l2 - 1) as nat) + 1) as nat,
        ));
        lemma_level_of_is(e2 as nat, w2 as nat, l2);
    }
}

/// An entry cascading out of a slot at level 1 or above lands strictly below
/// that level once the position has advanced to the slot's start.
pub proof fn lemma_cascade_item(e: u64, w1: u64)
    requires
        e <= w1,
        level_of(e as nat, w1 as nat) >= 1,
    ensures
        ({
            let l = level_of(e as nat, w1 as nat);
            let s = digit(w1 as int, l);
            let e2 = slot_start(e as int, l, s);
            &&& 0 <= e2 <= w1
            &&& level_of(e2 as nat, w1 as nat) < l
        }),
{
    let l = level_of(e as nat, w1 as nat);
    let s = digit(w1 as int, l);
    let e2 = slot_start(e as int, l, s);
    let l1 = (l + 1) as nat;
    lemma_item_placement(e, w1);
    lemma_level_of_props(e as nat, w1 as nat);
    lemma_p64_pos(l);
    lemma_p64_pos(l1);
    lemma_p64_step(l);
    lemma_decomp(w1 as int, l);
    assert(e2 == hi(w1 as int, l1) * p64(l1) + s * p64(l));
    assert(e2 == (64 * hi(w1 as int, l1) + s) * p64(l) + 0) by (nonlinear_arith)
        requires
            e2 == hi(w1 as int, l1) * p64(l1) + s * p64(l),
            p64(l1) == 64 * p64(l),
    ;
    lemma_fundamental_div_mod_converse(e2, p64(l), 64 * hi(w1 as int, l1) + s, 0);
    assert(hi(e2, l) == hi(w1 as int, l));
    lemma_level_of_le(e2 as nat, w1 as nat, (l - 1) as nat);
}

/// One stored entry: an owner-assigned index and the tick at which it fires.
#[derive(Debug, Clone, Copy, PartialEq, Eq, Structural)]
pub struct WheelItem {
    /// The owner's handle for the entry (a slab index in [`DelayQueue`]).
    ///
    /// [`DelayQueue`]: crate::DelayQueue
    pub index: usize,
    /// The tick at which the entry fires.
    pub fire_at: u64,
}

/// The outcome of driving the wheel one step at a given tick.
#[derive(Debug, Clone, Copy, PartialEq, Eq, Structural)]
pub enum WheelStep {
    /// An entry whose fire tick has been reached; it carries the entry's
    /// index and fire tick and has been removed from the wheel.
    Due(usize, u64),
    /// Nothing fires yet; no entry fires before the carried tick, so a
    /// wake-up may be armed for it.
    Wait(u64),
    /// The wheel holds no entries at all.
    Empty,
}

/// The timing wheel: entries indexed by an owner-assigned `usize`, bucketed
/// by fire tick.
pub struct Wheel {
    slots: Vec<Vec<WheelItem>>,
    elapsed: u64,
    // the held entries as a map; `wf` ties it to the stored items in both
    // directions, so it cannot drift from the physical slots
    contents_g: Ghost<Map<usize, u64>>,
}

impl Wheel {
    /// The entries currently held, as a map from owner index to fire tick.
    pub closed spec fn contents(self) -> Map<usize, u64> {
        self.contents_g@
    }

    /// The wheel's current position: no held entry fires before this tick.
    pub closed spec fn pos(self) -> u64 {
        self.elapsed
    }

    /// Every stored item is a held entry sitting in the slot that its fire
    /// tick selects at the current position.
    spec fn linked(self) -> bool {
        forall|j: int, p: int|
            0 <= j < 704 && 0 <= p < self.slots@[j]@.len() ==> {
                let it = #[trigger] self.slots@[j]@[p];
                &&& self.contents().contains_key(it.index)
                &&& self.contents()[it.index] == it.fire_at
                &&& j == spec_slot_index(self.elapsed, it.fire_at)
            }
    }

    /// Every held entry is stored in its slot, and never fires before the
    /// current position.
    spec fn covered(self) -> bool {
        forall|i: usize|
            #[trigger] self.contents().contains_key(i) ==> {
                let j = spec_slot_index(self.elapsed, self.contents()[i]);
                &&& 0 <= j < 704
                &&& exists|p: int|
                    0 <= p < self.slots@[j]@.len() && (#[trigger] self.slots@[j]@[p]).index == i
                &&& self.contents()[i] >= self.elapsed
            }
    }

    /// No index is stored twice, in the same slot or across slots.
    spec fn distinct(self) -> bool {
        forall|j: int, p: int, j2: int, q: int|
            0 <= j < 704 && 0 <= p < self.slots@[j]@.len() && 0 <= j2 < 704 && 0 <= q
                < self.slots@[j2]@.len() && (#[trigger] self.slots@[j]@[p]).index == (
            #[trigger] self.slots@[j2]@[q]).index ==> j == j2 && p == q
    }

    /// The wheel's invariant.
    pub closed spec fn wf(self) -> bool {
        &&& self.slots@.len() == 704
        &&& self.linked()
        &&& self.covered()
        &&& self.distinct()
        &&& self.contents().dom().finite()
    }

    /// Facts about a well-formed wheel that callers may rely on.
    pub proof fn lemma_wf_facts(self)
        requires
            self.wf(),
        ensures
            self.contents().dom().finite(),
            forall|i: usize|
                #[trigger] self.contents().contains_key(i) ==> self.contents()[i] >= self.pos(),
    {
    }

    /// Creates an empty wheel positioned at tick 0.
    pub fn new() -> (w: Wheel)
        ensures
            w.wf(),
            w.contents() == Map::<usize, u64>::empty(),
            w.pos() == 0,
    {
        let mut slots: Vec<Vec<WheelItem>> = Vec::new();
        let mut j: usize = 0;
        while j < WHEEL_SLOT_COUNT
            invariant
                slots@.len() == j,
                j <= 704,
                forall|j2: int| 0 <= j2 < j ==> (#[trigger] slots@[j2])@.len() == 0,
            decreases 704 - j,
        {
            slots.push(Vec::new());
            j += 1;
        }
        let w = Wheel { slots, elapsed: 0, contents_g: Ghost(Map::empty()) };
        proof {
            assert(w.contents() =~= Map::<usize, u64>::empty());
        }
        w
    }

    /// Returns the wheel's current position.
    pub fn position(&self) -> (t: u64)
        ensures
            t == self.pos(),
    {
        self.elapsed
    }

    /// `64^l` as a machine word, for levels within the wheel.
    fn pow64(l: usize) -> (r: u64)
        requires
            l <= 10,
        ensures
            r as int == p64(l as nat),
    {
        proof {
            lemma_p64_values();
        }
        if l == 0 {
            1
        } else if l == 1 {
            64
        } else if l == 2 {
            0x1000
        } else if l == 3 {
            0x40000
        } else if l == 4 {
            0x1000000
        } else if l == 5 {
            0x40000000
        } else if l == 6 {
            0x1000000000
        } else if l == 7 {
            0x40000000000
        } else if l == 8 {
            0x1000000000000
        } else if l == 9 {
            0x40000000000000
        } else {
            0x1000000000000000
        }
    }

    /// Computes the level and slot digit under which a fire tick `w` is
    /// stored while the wheel stands at `e`.
    fn level_and_slot(e: u64, w: u64) -> (r: (usize, usize))
        ensures
            r.0 as nat == level_of(e as nat, w as nat),
            r.1 as int == digit(w as int, r.0 as nat),
            r.0 <= 10,
            r.1 < 64,
    {
        proof {
            lemma_level_of_bound(e, w);
            lemma_p64_values();
        }
        let ghost lvl = level_of(e as nat, w as nat);
        let mut l: usize = 0;
        let mut eh: u64 = e / 64;
        let mut wh: u64 = w / 64;
        while eh != wh
            invariant
                l as nat <= lvl,
                lvl == level_of(e as nat, w as nat),
                lvl <= 10,
                eh as int == hi(e as int, (l + 1) as nat),
                wh as int == hi(w as int, (l + 1) as nat),
            decreases 10 - l,
        {
            proof {
                lemma_level_of_props(e as nat, w as nat);
                if lvl <= l as nat {
                    lemma_agree_up(e as int, w as int, (lvl + 1) as nat, (l + 1) as nat);
                    assert(false);
                }
                lemma_hi_step(e as int, (l + 1) as nat);
                lemma_hi_step(w as int, (l + 1) as nat);
            }
            l += 1;
            eh /= 64;
            wh /= 64;
        }
        proof {
            lemma_level_of_le(e as nat, w as nat, l as nat);
            lemma_p64_pos(l as nat);
        }
        let pl = Self::pow64(l);
        let s = (w / pl) % 64;
        (l, s as usize)
    }

    /// What a successful scan for the next occupied slot guarantees: the
    /// returned slot is occupied, every entry in it fires within one slot
    /// width of the returned start tick, and every entry outside it fires at
    /// least one slot width later.
    spec fn candidate_post(self, r: Option<(usize, u64)>) -> bool {
        match r {
            None => forall|i: usize| !(#[trigger] self.contents().contains_key(i)),
            Some((j, start)) => {
                let l = (j / 64) as nat;
                let sl = self.slots@[j as int]@;
                &&& j < 704
                &&& sl.len() > 0
                &&& start as int == slot_start(self.pos() as int, l, j as int % 64)
                &&& start >= self.pos()
                &&& forall|p: int| 0 <= p < sl.len() ==> start <= (#[trigger] sl[p]).fire_at
                &&& forall|p: int| 0 <= p < sl.len() ==> (#[trigger] sl[p]).fire_at < start + p64(l)
                &&& forall|i: usize|
                    #[trigger] self.contents().contains_key(i) && spec_slot_index(
                        self.pos(),
                        self.contents()[i],
                    ) != j ==> self.contents()[i] >= start + p64(l)
                &&& forall|i: usize|
                    #[trigger] self.contents().contains_key(i) && spec_slot_index(
                        self.pos(),
                        self.contents()[i],
                    ) != j ==> level_of(self.pos() as nat, self.contents()[i] as nat) > l
                        || (level_of(self.pos() as nat, self.contents()[i] as nat) == l && digit(
                        self.contents()[i] as int,
                        l,
                    ) > j as int % 64)
                &&& forall|i: usize|
                    #[trigger] self.contents().contains_key(i) ==> level_of(
                        self.pos() as nat,
                        self.contents()[i] as nat,
                    ) >= l
            },
        }
    }

    /// Scans for the lex-first occupied slot: the lowest occupied level, and
    /// within it the slot nearest past the current position. Its entries are
    /// exactly the next ones to fire.
    fn find_slot(&self) -> (r: Option<(usize, u64)>)
        requires
            self.wf(),
        ensures
            self.candidate_post(r),
    {
        let mut j: usize = 0;
        while j < WHEEL_SLOT_COUNT
            invariant
                self.wf(),
                j <= 704,
                forall|j2: int| 0 <= j2 < j ==> (#[trigger] self.slots@[j2])@.len() == 0,
            decreases 704 - j,
        {
            if self.slots[j].len() > 0 {
                let l = j / WHEEL_SLOTS_PER_LEVEL;
                let s = j % WHEEL_SLOTS_PER_LEVEL;
                proof {
                    let e = self.elapsed;
                    let it0 = self.slots@[j as int]@[0];
                    // the witness entry tells us which level and digit this
                    // slot index decodes to
                    assert(self.contents().contains_key(it0.index));
                    assert(64 * (level_of(e as nat, it0.fire_at as nat) as int) + digit(
                        it0.fire_at as int,
                        level_of(e as nat, it0.fire_at as nat),
                    ) == j);
                    lemma_level_of_bound(e, it0.fire_at);
                    lemma_decomp(it0.fire_at as int, level_of(e as nat, it0.fire_at as nat));
                    assert(level_of(e as nat, it0.fire_at as nat) == l as nat && digit(
                        it0.fire_at as int,
                        level_of(e as nat, it0.fire_at as nat),
                    ) == s as int);
                    lemma_item_placement(e, it0.fire_at);
                    // every entry in this slot lies within the slot's range
                    assert forall|p: int| 0 <= p < self.slots@[j as int]@.len() implies {
                        let w = (#[trigger] self.slots@[j as int]@[p]).fire_at;
                        &&& slot_start(e as int, l as nat, s as int) <= w
                        &&& w < slot_start(e as int, l as nat, s as int) + p64(l as nat)
                    } by {
                        let it = self.slots@[j as int]@[p];
                        assert(self.contents().contains_key(it.index));
                        assert(64 * (level_of(e as nat, it.fire_at as nat) as int) + digit(
                            it.fire_at as int,
                            level_of(e as nat, it.fire_at as nat),
                        ) == j);
                        lemma_level_of_bound(e, it.fire_at);
                        lemma_decomp(it.fire_at as int, level_of(e as nat, it.fire_at as nat));
                        lemma_item_placement(e, it.fire_at);
                    }
                    // every entry elsewhere fires at least a slot width later
                    assert forall|i: usize|
                        #[trigger] self.contents().contains_key(i) && spec_slot_index(
                            e,
                            self.contents()[i],
                        ) != j implies self.contents()[i] >= slot_start(e as int, l as nat, s as int)
                        + p64(l as nat) && (level_of(e as nat, self.contents()[i] as nat)
                        > l as nat || (level_of(e as nat, self.contents()[i] as nat) == l as nat
                        && digit(self.contents()[i] as int, l as nat) > s as int)) by {
                        let w = self.contents()[i];
                        let j2 = spec_slot_index(e, w);
                        lemma_level_of_bound(e, w);
                        lemma_decomp(w as int, level_of(e as nat, w as nat));
                        // that entry's slot is occupied, so the scan has not
                        // passed it: it lies at or past this slot index
                        assert(self.slots@[j2]@.len() > 0);
                        assert(j2 > j);
                        lemma_other_item_far(e, l as nat, s as int, w);
                    }
                    assert forall|i: usize| #[trigger] self.contents().contains_key(i) implies
                    level_of(e as nat, self.contents()[i] as nat) >= l as nat by {
                        let w = self.contents()[i];
                        let j2 = spec_slot_index(e, w);
                        lemma_level_of_bound(e, w);
                        lemma_decomp(w as int, level_of(e as nat, w as nat));
                        assert(self.slots@[j2]@.len() > 0);
                        assert(j2 >= j);
                    }
                }
                let start = Self::slot_start_exec(
                    self.elapsed,
                    l,
                    s,
                    Ghost(self.slots@[j as int]@[0].fire_at),
                );
                return Some((j, start));
            }
            j += 1;
        }
        proof {
            assert forall|i: usize| !(#[trigger] self.contents().contains_key(i)) by {
                if self.contents().contains_key(i) {
                    let j2 = spec_slot_index(self.elapsed, self.contents()[i]);
                    assert(self.slots@[j2]@.len() > 0);
                }
            }
        }
        None
    }

    /// A found slot start is a lower bound on every held fire tick, and the
    /// wheel is non-empty.
    proof fn lemma_candidate_min(self, j: usize, start: u64)
        requires
            self.wf(),
            self.candidate_post(Some((j, start))),
        ensures
            forall|i: usize|
                #[trigger] self.contents().contains_key(i) ==> start <= self.contents()[i],
            exists|i: usize| #[trigger] self.contents().contains_key(i),
    {
        let e = self.elapsed;
        let l = (j / 64) as nat;
        assert forall|i: usize| #[trigger] self.contents().contains_key(i) implies start
            <= self.contents()[i] by {
            let j3 = spec_slot_index(e, self.contents()[i]);
            if j3 == j {
                let p = choose|p: int|
                    0 <= p < self.slots@[j as int]@.len() && (#[trigger] self.slots@[j as int]@[p]).index == i;
                assert(self.slots@[j as int]@[p].fire_at == self.contents()[i]);
            } else {
                lemma_p64_pos(l);
            }
        }
        let it0 = self.slots@[j as int]@[0];
        assert(self.contents().contains_key(it0.index));
    }

    /// The invariant that holds while the entries of slot `j` (at level
    /// `lvl`) are being re-bucketed after an advance: everything outside the
    /// slot is placed correctly, and what remains inside belongs strictly
    /// below `lvl` under the new position.
    spec fn cascading(self, j: int, lvl: nat) -> bool {
        &&& self.slots@.len() == 704
        &&& 0 <= j < 704
        &&& forall|j2: int, p: int|
            0 <= j2 < 704 && j2 != j && 0 <= p < self.slots@[j2]@.len() ==> {
                let it = #[trigger] self.slots@[j2]@[p];
                &&& self.contents().contains_key(it.index)
                &&& self.contents()[it.index] == it.fire_at
                &&& j2 == spec_slot_index(self.elapsed, it.fire_at)
            }
        &&& forall|p: int|
            0 <= p < self.slots@[j]@.len() ==> {
                let it = #[trigger] self.slots@[j]@[p];
                &&& self.contents().contains_key(it.index)
                &&& self.contents()[it.index] == it.fire_at
                &&& level_of(self.elapsed as nat, it.fire_at as nat) < lvl
            }
        &&& forall|i: usize|
            #[trigger] self.contents().contains_key(i) ==> {
                let j3 = spec_slot_index(self.elapsed, self.contents()[i]);
                &&& self.contents()[i] >= self.elapsed
                &&& 0 <= j3 < 704
                &&& (exists|p: int|
                    0 <= p < self.slots@[j3]@.len() && (#[trigger] self.slots@[j3]@[p]).index
                        == i) || (exists|p: int|
                    0 <= p < self.slots@[j]@.len() && (#[trigger] self.slots@[j]@[p]).index == i)
            }
        &&& self.distinct()
        &&& self.contents().dom().finite()
    }

    /// Drives the wheel at tick `now`: advances the position slot by slot,
    /// cascading coarse slots into finer ones, until it can yield one due
    /// entry, report a tick to wait for, or report emptiness.
    ///
    /// A yielded entry fires no later than any other held entry, so repeated
    /// polling drains due entries in fire-tick order.
    pub fn poll(&mut self, now: u64) -> (r: WheelStep)
        requires
            old(self).wf(),
        ensures
            final(self).wf(),
            final(self).pos() >= old(self).pos(),
            match r {
                WheelStep::Empty => {
                    &&& final(self).contents() == old(self).contents()
                    &&& forall|i: usize| !(#[trigger] old(self).contents().contains_key(i))
                    &&& final(self).pos() == old(self).pos()
                },
                WheelStep::Wait(t) => {
                    &&& final(self).contents() == old(self).contents()
                    &&& t > now
                    &&& exists|i: usize| #[trigger] final(self).contents().contains_key(i)
                    &&& forall|i: usize|
                        #[trigger] final(self).contents().contains_key(i)
                            ==> t <= final(self).contents()[i]
                },
                WheelStep::Due(i, w) => {
                    &&& old(self).contents().contains_key(i)
                    &&& w == old(self).contents()[i]
                    &&& w <= now
                    &&& forall|i2: usize|
                        #[trigger] old(self).contents().contains_key(i2)
                            ==> w <= old(self).contents()[i2]
                    &&& final(self).contents() == old(self).contents().remove(i)
                },
            },
    {
        let mut cand = self.find_slot();
        let ghost mut bound: int = WHEEL_LEVELS as int;
        loop
            invariant
                self.wf(),
                self.contents() == old(self).contents(),
                self.pos() >= old(self).pos(),
                self.candidate_post(cand),
                cand matches Some(c) ==> c.0 as int / 64 < bound,
                cand matches None ==> self.pos() == old(self).pos(),
                0 <= bound <= 11,
            decreases bound,
        {
            match cand {
                None => {
                    return WheelStep::Empty;
                },
                Some((j, start)) => {
                    if start > now {
                        proof {
                            self.lemma_candidate_min(j, start);
                        }
                        return WheelStep::Wait(start);
                    }
                    let l = j / 64;
                    let ghost e_old = self.elapsed;
                    let ghost pre = *self;
                    proof {
                        lemma_p64_values();
                        // entries outside this slot keep their placement when
                        // the position advances to the slot's start
                        assert forall|i: usize|
                            #[trigger] pre.contents().contains_key(i) && spec_slot_index(
                                e_old,
                                pre.contents()[i],
                            ) != j implies level_of(start as nat, pre.contents()[i] as nat)
                            == level_of(e_old as nat, pre.contents()[i] as nat)
                            && pre.contents()[i] >= start by {
                            lemma_advance_keeps_placement(
                                e_old,
                                l as nat,
                                j as int % 64,
                                pre.contents()[i],
                            );
                        }
                    }
                    if l == 0 {
                        proof {
                            // on level 0 every entry in the slot fires
                            // exactly at the slot start
                            assert forall|p: int|
                                0 <= p < self.slots@[j as int]@.len() implies (
                            #[trigger] self.slots@[j as int]@[p]).fire_at == start by {
                                assert(self.slots@[j as int]@[p].fire_at < start + 1);
                            }
                            lemma_level_of_self(start as nat);
                        }
                        self.elapsed = start;
                        proof {
                            assert forall|j2: int, p: int|
                                0 <= j2 < 704 && 0 <= p < self.slots@[j2]@.len() implies {
                                let it = #[trigger] self.slots@[j2]@[p];
                                &&& self.contents().contains_key(it.index)
                                &&& self.contents()[it.index] == it.fire_at
                                &&& j2 == spec_slot_index(self.elapsed, it.fire_at)
                            } by {
                                let it = self.slots@[j2]@[p];
                                if spec_slot_index(e_old, it.fire_at) == j {
                                    assert(it.fire_at == start);
                                } else {
                                    assert(level_of(start as nat, it.fire_at as nat) == level_of(
                                        e_old as nat,
                                        it.fire_at as nat,
                                    ));
                                }
                            }
                            assert(self.wf());
                        }
                        let ghost adv = *self;
                        let it_opt = self.slots[j].pop();
                        match it_opt {
                            Some(it) => {
                                self.contents_g = Ghost(self.contents_g@.remove(it.index));
                                proof {
                                    let js = j as int;
                                    let advlen = adv.slots@[js]@.len() as int;
                                    assert(it == adv.slots@[js]@[advlen - 1]);
                                    assert(self.slots@[js]@ == adv.slots@[js]@.subrange(
                                        0,
                                        advlen - 1,
                                    ));
                                    assert forall|j2: int, p: int|
                                        0 <= j2 < 704 && 0 <= p < self.slots@[j2]@.len() implies {
                                        let it2 = #[trigger] self.slots@[j2]@[p];
                                        &&& self.contents().contains_key(it2.index)
                                        &&& self.contents()[it2.index] == it2.fire_at
                                        &&& j2 == spec_slot_index(self.elapsed, it2.fire_at)
                                    } by {
                                        assert(self.slots@[j2]@[p] == adv.slots@[j2]@[p]);
                                        assert(adv.contents().contains_key(
                                            self.slots@[j2]@[p].index,
                                        ));
                                    }
                                    assert forall|i: usize|
                                        #[trigger] self.contents().contains_key(i) implies {
                                        let j3 = spec_slot_index(self.elapsed, self.contents()[i]);
                                        &&& 0 <= j3 < 704
                                        &&& exists|p: int|
                                            0 <= p < self.slots@[j3]@.len() && (
                                            #[trigger] self.slots@[j3]@[p]).index == i
                                        &&& self.contents()[i] >= self.elapsed
                                    } by {
                                        let j3 = spec_slot_index(self.elapsed, self.contents()[i]);
                                        let pold = choose|p: int|
                                            0 <= p < adv.slots@[j3]@.len() && (
                                            #[trigger] adv.slots@[j3]@[p]).index == i;
                                        assert(pold != advlen - 1 || j3 != js);
                                        assert(self.slots@[j3]@[pold].index == i);
                                    }
                                    assert(self.wf());
                                    pre.lemma_candidate_min(j, start);
                                }
                                return WheelStep::Due(it.index, it.fire_at);
                            },
                            None => {
                                proof {
                                    assert(false);
                                }
                                return WheelStep::Empty;
                            },
                        }
                    } else {
                        let ghost fi = self.slots@[j as int]@[0].index;
                        proof {
                            // decode the slot index for the entries inside,
                            // and see where they land after the advance
                            assert forall|p: int|
                                0 <= p < self.slots@[j as int]@.len() implies {
                                let w = (#[trigger] self.slots@[j as int]@[p]).fire_at;
                                &&& level_of(start as nat, w as nat) < l as nat
                                &&& w >= start
                            } by {
                                let w = self.slots@[j as int]@[p].fire_at;
                                assert(self.contents().contains_key(self.slots@[j as int]@[p].index));
                                lemma_level_of_bound(e_old, w);
                                lemma_decomp(w as int, level_of(e_old as nat, w as nat));
                                assert(level_of(e_old as nat, w as nat) == l as nat);
                                assert(digit(w as int, l as nat) == j as int % 64);
                                lemma_cascade_item(e_old, w);
                                lemma_item_placement(e_old, w);
                            }
                        }
                        self.elapsed = start;
                        proof {
                            assert(self.cascading(j as int, l as nat)) by {
                                assert forall|j2: int, p: int|
                                    0 <= j2 < 704 && j2 != j as int && 0 <= p
                                        < self.slots@[j2]@.len() implies {
                                    let it = #[trigger] self.slots@[j2]@[p];
                                    &&& self.contents().contains_key(it.index)
                                    &&& self.contents()[it.index] == it.fire_at
                                    &&& j2 == spec_slot_index(self.elapsed, it.fire_at)
                                } by {
                                    let it = self.slots@[j2]@[p];
                                    assert(pre.contents().contains_key(it.index));
                                    assert(spec_slot_index(e_old, it.fire_at) == j2);
                                    assert(level_of(start as nat, it.fire_at as nat) == level_of(
                                        e_old as nat,
                                        it.fire_at as nat,
                                    ));
                                }
                                assert forall|i: usize|
                                    #[trigger] self.contents().contains_key(i) implies {
                                    let j3 = spec_slot_index(self.elapsed, self.contents()[i]);
                                    &&& self.contents()[i] >= self.elapsed
                                    &&& 0 <= j3 < 704
                                    &&& (exists|p: int|
                                        0 <= p < self.slots@[j3]@.len() && (
                                        #[trigger] self.slots@[j3]@[p]).index == i) || (exists|
                                        p: int,
                                    |
                                        0 <= p < self.slots@[j as int]@.len() && (
                                        #[trigger] self.slots@[j as int]@[p]).index == i)
                                } by {
                                    let j3 = spec_slot_index(self.elapsed, self.contents()[i]);
                                    let j3o = spec_slot_index(e_old, self.contents()[i]);
                                    let pold = choose|p: int|
                                        0 <= p < self.slots@[j3o]@.len() && (
                                        #[trigger] self.slots@[j3o]@[p]).index == i;
                                    if j3o == j as int {
                                        assert(self.slots@[j as int]@[pold].index == i);
                                    } else {
                                        assert(j3 == j3o);
                                        assert(self.slots@[j3]@[pold].index == i);
                                        lemma_level_of_bound(start, self.contents()[i]);
                                        lemma_decomp(
                                            self.contents()[i] as int,
                                            level_of(start as nat, self.contents()[i] as nat),
                                        );
                                    }
                                }
                            }
                            assert(self.contents().contains_key(fi));
                            assert(level_of(start as nat, self.contents()[fi] as nat) < l as nat);
                        }
                        while self.slots[j].len() > 0
                            invariant
                                self.cascading(j as int, l as nat),
                                self.contents() == old(self).contents(),
                                self.elapsed == start,
                                self.pos() >= old(self).pos(),
                                self.contents().contains_key(fi),
                                level_of(start as nat, self.contents()[fi] as nat) < l as nat,
                                j < 704,
                                l == j / 64,
                                1 <= l <= 10,
                            decreases self.slots@[j as int]@.len(),
                        {
                            let ghost top = *self;
                            let it_opt = self.slots[j].pop();
                            match it_opt {
                                Some(it) => {
                                    proof {
                                        let js = j as int;
                                        let toplen = top.slots@[js]@.len() as int;
                                        assert(it == top.slots@[js]@[toplen - 1]);
                                        assert(level_of(start as nat, it.fire_at as nat)
                                            < l as nat);
                                    }
                                    let (l2, s2) = Self::level_and_slot(self.elapsed, it.fire_at);
                                    let j2 = l2 * WHEEL_SLOTS_PER_LEVEL + s2;
                                    proof {
                                        assert((l2 as nat) < l as nat);
                                        assert(j2 < 704);
                                        assert(j2 != j);
                                    }
                                    self.slots[j2].push(it);
                                    proof {
                                        let js = j as int;
                                        let j2s = j2 as int;
                                        let toplen = top.slots@[js]@.len() as int;
                                        let newp: int = top.slots@[j2s]@.len() as int;
                                        assert(self.slots@[j2s]@ == top.slots@[j2s]@.push(it));
                                        assert(self.slots@[js]@ == top.slots@[js]@.subrange(
                                            0,
                                            toplen - 1,
                                        ));
                                        assert(forall|j4: int|
                                            0 <= j4 < 704 && j4 != js && j4 != j2s
                                                ==> self.slots@[j4] == #[trigger] top.slots@[j4]);
                                        assert(self.cascading(js, l as nat)) by {
                                            assert forall|j4: int, p: int|
                                                0 <= j4 < 704 && j4 != js && 0 <= p
                                                    < self.slots@[j4]@.len() implies {
                                                let it2 = #[trigger] self.slots@[j4]@[p];
                                                &&& self.contents().contains_key(it2.index)
                                                &&& self.contents()[it2.index] == it2.fire_at
                                                &&& j4 == spec_slot_index(
                                                    self.elapsed,
                                                    it2.fire_at,
                                                )
                                            } by {
                                                if !(j4 == j2s && p == newp) {
                                                    assert(self.slots@[j4]@[p] == top.slots@[j4]@[p]);
                                                }
                                            }
                                            assert forall|i: usize|
                                                #[trigger] self.contents().contains_key(
                                                    i,
                                                ) implies {
                                                let j3 = spec_slot_index(
                                                    self.elapsed,
                                                    self.contents()[i],
                                                );
                                                &&& self.contents()[i] >= self.elapsed
                                                &&& 0 <= j3 < 704
                                                &&& (exists|p: int|
                                                    0 <= p < self.slots@[j3]@.len() && (
                                                    #[trigger] self.slots@[j3]@[p]).index == i)
                                                    || (exists|p: int|
                                                    0 <= p < self.slots@[js]@.len() && (
                                                    #[trigger] self.slots@[js]@[p]).index == i)
                                            } by {
                                                let j3 = spec_slot_index(
                                                    self.elapsed,
                                                    self.contents()[i],
                                                );
                                                if i == it.index {
                                                    assert(self.slots@[j2s]@[newp].index == i);
                                                    assert(j3 == j2s);
                                                } else {
                                                    if exists|p: int|
                                                        0 <= p < top.slots@[j3]@.len() && (
                                                        #[trigger] top.slots@[j3]@[p]).index
                                                            == i {
                                                        let pold = choose|p: int|
                                                            0 <= p < top.slots@[j3]@.len() && (
                                                            #[trigger] top.slots@[j3]@[p]).index
                                                                == i;
                                                        if j3 == js {
                                                            assert(pold != toplen - 1);
                                                            assert(self.slots@[js]@[pold].index
                                                                == i);
                                                        } else {
                                                            assert(self.slots@[j3]@[pold].index
                                                                == i);
                                                        }
                                                    } else {
                                                        let pold = choose|p: int|
                                                            0 <= p < top.slots@[js]@.len() && (
                                                            #[trigger] top.slots@[js]@[p]).index
                                                                == i;
                                                        assert(pold != toplen - 1);
                                                        assert(self.slots@[js]@[pold].index == i);
                                                    }
                                                }
                                            }
                                            assert forall|j4: int, p: int, j5: int, q: int|
                                                0 <= j4 < 704 && 0 <= p < self.slots@[j4]@.len()
                                                    && 0 <= j5 < 704 && 0 <= q
                                                    < self.slots@[j5]@.len() && (
                                                #[trigger] self.slots@[j4]@[p]).index == (
                                                #[trigger] self.slots@[j5]@[q]).index implies j4
                                                == j5 && p == q by {
                                                if j4 == j2s && p == newp {
                                                    if !(j5 == j2s && q == newp) {
                                                        assert(self.slots@[j5]@[q] == top.slots@[j5]@[q]);
                                                        assert(top.slots@[js]@[toplen - 1].index
                                                            == it.index);
                                                    }
                                                } else if j5 == j2s && q == newp {
                                                    assert(self.slots@[j4]@[p] == top.slots@[j4]@[p]);
                                                    assert(top.slots@[js]@[toplen - 1].index
                                                        == it.index);
                                                } else {
                                                    assert(self.slots@[j4]@[p] == top.slots@[j4]@[p]);
                                                    assert(self.slots@[j5]@[q] == top.slots@[j5]@[q]);
                                                }
                                            }
                                        }
                                    }
                                },
                                None => {
                                    proof {
                                        assert(false);
                                    }
                                },
                            }
                        }
                        proof {
                            assert(self.wf());
                        }
                        cand = self.find_slot();
                        proof {
                            assert(cand is Some) by {
                                assert(self.contents().contains_key(fi));
                            }
                            bound = l as int;
                        }
                    }
                },
            }
        }
    }

    /// The earliest pending fire tick: the tick to arm the next wake-up for.
    /// Returns nothing when the wheel is empty.
    pub fn next_wake(&self) -> (r: Option<u64>)
        requires
            self.wf(),
        ensures
            match r {
                None => forall|i: usize| !(#[trigger] self.contents().contains_key(i)),
                Some(t) => {
                    &&& exists|i: usize|
                        (#[trigger] self.contents().contains_key(i)) && self.contents()[i] == t
                    &&& forall|i: usize|
                        #[trigger] self.contents().contains_key(i) ==> t <= self.contents()[i]
                    &&& t >= self.pos()
                },
            },
    {
        match self.find_slot() {
            None => None,
            Some((j, start)) => {
                proof {
                    self.lemma_candidate_min(j, start);
                }
                // the found slot holds the earliest entries; its own minimum
                // is the global one
                let slot_len: usize = self.slots[j].len();
                let mut best: u64 = self.slots[j][0].fire_at;
                let mut p: usize = 1;
                while p < slot_len
                    invariant
                        self.wf(),
                        self.candidate_post(Some((j, start))),
                        j < 704,
                        slot_len == self.slots@[j as int]@.len(),
                        1 <= p <= slot_len,
                        exists|q: int|
                            0 <= q < p && (#[trigger] self.slots@[j as int]@[q]).fire_at == best,
                        forall|q: int|
                            0 <= q < p ==> best <= (#[trigger] self.slots@[j as int]@[q]).fire_at,
                    decreases slot_len - p,
                {
                    let f = self.slots[j][p].fire_at;
                    if f < best {
                        best = f;
                    }
                    p += 1;
                }
                proof {
                    let js = j as int;
                    let ghost qb = choose|q: int|
                        0 <= q < self.slots@[js]@.len() && (#[trigger] self.slots@[js]@[q]).fire_at
                            == best;
                    assert(self.contents().contains_key(self.slots@[js]@[qb].index));
                    assert(self.contents()[self.slots@[js]@[qb].index] == best);
                    lemma_p64_pos((j / 64) as nat);
                    assert forall|i: usize| #[trigger] self.contents().contains_key(i) implies best
                        <= self.contents()[i] by {
                        let j3 = spec_slot_index(self.elapsed, self.contents()[i]);
                        if j3 == js {
                            let pw = choose|p2: int|
                                0 <= p2 < self.slots@[js]@.len() && (#[trigger] self.slots@[js]@[p2]).index == i;
                            assert(self.slots@[js]@[pw].fire_at == self.contents()[i]);
                        }
                    }
                }
                Some(best)
            },
        }
    }

    /// Inserts an entry under a fresh index, to fire at `fire_at`. A fire
    /// tick at or before the current position goes into the slot that the
    /// position itself occupies, so it is yielded by the next poll.
    pub fn insert(&mut self, index: usize, fire_at: u64)
        requires
            old(self).wf(),
            fire_at >= old(self).pos(),
            !old(self).contents().contains_key(index),
        ensures
            final(self).wf(),
            final(self).contents() == old(self).contents().insert(index, fire_at),
            final(self).pos() == old(self).pos(),
    {
        let (l, s) = Self::level_and_slot(self.elapsed, fire_at);
        let j = l * WHEEL_SLOTS_PER_LEVEL + s;
        let ghost prior = *self;
        self.slots[j].push(WheelItem { index, fire_at });
        self.contents_g = Ghost(self.contents_g@.insert(index, fire_at));
        proof {
            let js = j as int;
            let pnew: int = prior.slots@[js]@.len() as int;
            assert(self.slots@[js]@ == prior.slots@[js]@.push(WheelItem { index, fire_at }));
            assert(forall|j2: int|
                0 <= j2 < 704 && j2 != js ==> self.slots@[j2] == #[trigger] prior.slots@[j2]);
            assert forall|j2: int, p: int|
                0 <= j2 < 704 && 0 <= p < self.slots@[j2]@.len() implies {
                let it = #[trigger] self.slots@[j2]@[p];
                &&& self.contents().contains_key(it.index)
                &&& self.contents()[it.index] == it.fire_at
                &&& j2 == spec_slot_index(self.elapsed, it.fire_at)
            } by {
                if j2 == js && p == pnew {
                    assert(self.slots@[j2]@[p] == WheelItem { index, fire_at });
                } else {
                    assert(self.slots@[j2]@[p] == prior.slots@[j2]@[p]);
                }
            }
            assert forall|i: usize| #[trigger] self.contents().contains_key(i) implies {
                let j3 = spec_slot_index(self.elapsed, self.contents()[i]);
                &&& 0 <= j3 < 704
                &&& exists|p: int|
                    0 <= p < self.slots@[j3]@.len() && (#[trigger] self.slots@[j3]@[p]).index == i
                &&& self.contents()[i] >= self.elapsed
            } by {
                let j3 = spec_slot_index(self.elapsed, self.contents()[i]);
                if i == index {
                    assert(self.slots@[js]@[pnew].index == index);
                } else {
                    let pold = choose|p: int|
                        0 <= p < prior.slots@[j3]@.len() && (#[trigger] prior.slots@[j3]@[p]).index
                            == i;
                    assert(self.slots@[j3]@[pold].index == i);
                }
            }
            assert(self.distinct()) by {
                assert forall|j2: int, p: int, j3: int, q: int|
                    0 <= j2 < 704 && 0 <= p < self.slots@[j2]@.len() && 0 <= j3 < 704 && 0 <= q
                        < self.slots@[j3]@.len() && (#[trigger] self.slots@[j2]@[p]).index == (
                    #[trigger] self.slots@[j3]@[q]).index implies j2 == j3 && p == q by {
                    let newp: int = prior.slots@[js]@.len() as int;
                    if j2 == js && p == newp {
                        if !(j3 == js && q == newp) {
                            assert(prior.slots@[j3]@[q] == self.slots@[j3]@[q]);
                            assert(prior.contents().contains_key(prior.slots@[j3]@[q].index));
                        }
                    } else if j3 == js && q == newp {
                        assert(prior.slots@[j2]@[p] == self.slots@[j2]@[p]);
                        assert(prior.contents().contains_key(prior.slots@[j2]@[p].index));
                    } else {
                        assert(prior.slots@[j2]@[p] == self.slots@[j2]@[p]);
                        assert(prior.slots@[j3]@[q] == self.slots@[j3]@[q]);
                    }
                }
            }
        }
    }

    /// Removes the entry stored under `index`, which must be held and fire
    /// at `fire_at`.
    pub fn remove(&mut self, index: usize, fire_at: u64)
        requires
            old(self).wf(),
            old(self).contents().contains_key(index),
            old(self).contents()[index] == fire_at,
        ensures
            final(self).wf(),
            final(self).contents() == old(self).contents().remove(index),
            final(self).pos() == old(self).pos(),
    {
        let (l, s) = Self::level_and_slot(self.elapsed, fire_at);
        let j = l * WHEEL_SLOTS_PER_LEVEL + s;
        proof {
            assert(spec_slot_index(self.elapsed, fire_at) == j);
        }
        let ghost q0 = choose|p: int|
            0 <= p < self.slots@[j as int]@.len() && (#[trigger] self.slots@[j as int]@[p]).index
                == index;
        let slot_len: usize = self.slots[j].len();
        let mut p: usize = 0;
        while self.slots[j][p].index != index
            invariant
                *self == *old(self),
                old(self).wf(),
                0 <= j < 704,
                0 <= p <= q0,
                q0 < slot_len,
                slot_len == self.slots@[j as int]@.len(),
                self.slots@[j as int]@[q0].index == index,
            decreases q0 - p,
        {
            proof {
                assert(p != q0);
            }
            p += 1;
        }
        let ghost prior = *self;
        let _ = self.slots[j].swap_remove(p);
        self.contents_g = Ghost(self.contents_g@.remove(index));
        proof {
            let js = j as int;
            let oldlen = prior.slots@[js]@.len();
            assert(self.slots@[js]@ == prior.slots@[js]@.update(p as int, prior.slots@[js]@[oldlen
                - 1]).drop_last());
            assert forall|j2: int, p2: int|
                0 <= j2 < 704 && 0 <= p2 < self.slots@[j2]@.len() implies {
                let it = #[trigger] self.slots@[j2]@[p2];
                &&& self.contents().contains_key(it.index)
                &&& self.contents()[it.index] == it.fire_at
                &&& j2 == spec_slot_index(self.elapsed, it.fire_at)
            } by {
                if j2 == js {
                    if p2 == p as int {
                        assert(self.slots@[j2]@[p2] == prior.slots@[js]@[oldlen - 1]);
                    } else {
                        assert(self.slots@[j2]@[p2] == prior.slots@[js]@[p2]);
                    }
                } else {
                    assert(self.slots@[j2]@[p2] == prior.slots@[j2]@[p2]);
                }
                assert(prior.contents().contains_key(self.slots@[j2]@[p2].index));
                assert(self.slots@[j2]@[p2].index != index);
            }
            assert forall|i: usize| #[trigger] self.contents().contains_key(i) implies {
                let j3 = spec_slot_index(self.elapsed, self.contents()[i]);
                &&& 0 <= j3 < 704
                &&& exists|p2: int|
                    0 <= p2 < self.slots@[j3]@.len() && (#[trigger] self.slots@[j3]@[p2]).index
                        == i
                &&& self.contents()[i] >= self.elapsed
            } by {
                let j3 = spec_slot_index(self.elapsed, self.contents()[i]);
                let pold = choose|p2: int|
                    0 <= p2 < prior.slots@[j3]@.len() && (#[trigger] prior.slots@[j3]@[p2]).index
                        == i;
                if j3 == js {
                    // within the shuffled slot: not the removed position, so
                    // either unchanged or moved from the back to position p
                    assert(pold != p as int || prior.slots@[js]@[pold].index == index);
                    if pold == oldlen - 1 {
                        if pold == p as int {
                            assert(i == index);
                        } else {
                            assert(self.slots@[j3]@[p as int].index == i);
                        }
                    } else {
                        assert(self.slots@[j3]@[pold].index == i);
                    }
                } else {
                    assert(self.slots@[j3]@[pold].index == i);
                }
            }
            assert forall|j2: int, p2: int, j3: int, q2: int|
                0 <= j2 < 704 && 0 <= p2 < self.slots@[j2]@.len() && 0 <= j3 < 704 && 0 <= q2
                    < self.slots@[j3]@.len() && (#[trigger] self.slots@[j2]@[p2]).index == (
                #[trigger] self.slots@[j3]@[q2]).index implies j2 == j3 && p2 == q2 by {
                let a = if j2 == js && p2 == p as int {
                    oldlen - 1
                } else {
                    p2
                };
                let b = if j3 == js && q2 == p as int {
                    oldlen - 1
                } else {
                    q2
                };
                assert(self.slots@[j2]@[p2] == prior.slots@[j2]@[a]);
                assert(self.slots@[j3]@[q2] == prior.slots@[j3]@[b]);
            }
        }
    }

    /// Computes the first tick covered by slot `s` of level `l`, given that
    /// some stored tick `w` witnesses that the slot is within range.
    fn slot_start_exec(e: u64, l: usize, s: usize, Ghost(w): Ghost<u64>) -> (r: u64)
        requires
            l <= 10,
            s < 64,
            slot_start(e as int, l as nat, s as int) <= w as int,
            0 <= slot_start(e as int, l as nat, s as int),
        ensures
            r as int == slot_start(e as int, l as nat, s as int),
    {
        proof {
            lemma_p64_values();
            lemma_basic_div_specific_divisor(0x40000000000000000);
        }
        if l == 10 {
            proof {
                assert(hi(e as int, 11) == 0);
            }
            (s as u64) * 0x1000000000000000
        } else {
            let p1 = Self::pow64(l + 1);
            let pl = Self::pow64(l);
            proof {
                lemma_p64_pos((l + 1) as nat);
                lemma_p64_pos(l as nat);
                lemma_div_mul_le(e as int, p64((l + 1) as nat));
                lemma_mul_nonnegative(s as int, p64(l as nat));
                assert((e as int / p1 as int) * p1 as int + (s as int) * pl as int == slot_start(
                    e as int,
                    l as nat,
                    s as int,
                ));
            }
            let h = e / p1;
            h * p1 + (s as u64) * pl
        }
    }
}

} // verus!
