//! Per-icon observation masks.
//!
//! Each observed icon carries an 8-bit mask with one bit per property
//! (see [`IconType::bit`]).  A change signal for a property spawns a
//! refresh only when its bit is clear, and sets it; the refresh's
//! completion clears it.  This coalesces bursts of signals: while a
//! refresh is pending, further signals for the same property are
//! dropped.

use vstd::prelude::*;

use crate::wire::IconType;

verus! {

pub open spec fn mask_has(mask: u8, t: IconType) -> bool {
    mask & t.spec_bit() != 0
}

pub open spec fn mask_set(mask: u8, t: IconType) -> u8 {
    mask | t.spec_bit()
}

pub open spec fn mask_clear(mask: u8, t: IconType) -> u8 {
    mask & !t.spec_bit()
}

proof fn lemma_mask_bits(m: u8, b: u8)
    by (bit_vector)
    requires
        b != 0,
    ensures
        (m | b) & b != 0,
        (m & !b) & b == 0,
{
}

/// Setting a property's bit makes it pending; clearing makes it idle.
pub proof fn lemma_mask_set_clear(mask: u8, t: IconType)
    ensures
        mask_has(mask_set(mask, t), t),
        !mask_has(mask_clear(mask, t), t),
{
    lemma_mask_bits(mask, t.spec_bit());
}

/// Handles one change signal for property `t`: sets the bit, and reports
/// whether a refresh must be spawned, which is the case exactly when no
/// refresh was pending.
pub fn signal_step(mask: u8, t: IconType) -> (r: (u8, bool))
    ensures
        r.0 == mask_set(mask, t),
        r.1 == !mask_has(mask, t),
        mask_has(r.0, t),
{
    proof {
        lemma_mask_set_clear(mask, t);
    }
    let b = t.bit();
    (mask | b, mask & b == 0)
}

/// Handles the completion of a refresh for property `t`: clears the bit,
/// so the next signal spawns again.
pub fn complete_step(mask: u8, t: IconType) -> (r: u8)
    ensures
        r == mask_clear(mask, t),
        !mask_has(r, t),
{
    proof {
        lemma_mask_set_clear(mask, t);
    }
    mask & !t.bit()
}

/// History of what happens to one (icon, property) pair: change signals
/// arrive, refreshes complete.
pub enum RefreshStep {
    Signal,
    Complete,
}

/// Number of refreshes spawned when the given steps hit a mask, per the
/// coalescing discipline.
pub open spec fn spec_spawn_count(mask: u8, t: IconType, evs: Seq<RefreshStep>) -> nat
    decreases evs.len(),
{
    if evs.len() == 0 {
        0
    } else {
        match evs[0] {
            RefreshStep::Signal => (if mask_has(mask, t) {
                0nat
            } else {
                1nat
            }) + spec_spawn_count(mask_set(mask, t), t, evs.drop_first()),
            RefreshStep::Complete => spec_spawn_count(mask_clear(mask, t), t, evs.drop_first()),
        }
    }
}

pub open spec fn spec_complete_count(evs: Seq<RefreshStep>) -> nat
    decreases evs.len(),
{
    if evs.len() == 0 {
        0
    } else {
        (if evs[0] is Complete {
            1nat
        } else {
            0nat
        }) + spec_complete_count(evs.drop_first())
    }
}

/// Coalescing bound: over any history, the number of refreshes spawned
/// never exceeds the number of completions plus one.  In particular at
/// most one refresh is in flight per (icon, property) pair, and a burst
/// of signals with no completion in between spawns at most one refresh.
pub proof fn lemma_coalescing_bound(mask: u8, t: IconType, evs: Seq<RefreshStep>)
    ensures
        spec_spawn_count(mask, t, evs) <= spec_complete_count(evs) + (if mask_has(mask, t) {
            0nat
        } else {
            1nat
        }),
    decreases evs.len(),
{
    if evs.len() > 0 {
        lemma_mask_set_clear(mask, t);
        match evs[0] {
            RefreshStep::Signal => {
                lemma_coalescing_bound(mask_set(mask, t), t, evs.drop_first());
            },
            RefreshStep::Complete => {
                lemma_coalescing_bound(mask_clear(mask, t), t, evs.drop_first());
            },
        }
    }
}

/// A burst: signals only, no completion.  At most one refresh is
/// spawned, however many signals arrive.
pub proof fn lemma_burst_spawns_at_most_one(mask: u8, t: IconType, evs: Seq<RefreshStep>)
    requires
        forall|i: int| 0 <= i < evs.len() ==> #[trigger] evs[i] is Signal,
    ensures
        spec_spawn_count(mask, t, evs) <= 1,
{
    lemma_no_completes(evs);
    lemma_coalescing_bound(mask, t, evs);
}

proof fn lemma_no_completes(evs: Seq<RefreshStep>)
    requires
        forall|i: int| 0 <= i < evs.len() ==> #[trigger] evs[i] is Signal,
    ensures
        spec_complete_count(evs) == 0,
    decreases evs.len(),
{
    if evs.len() > 0 {
        assert(evs[0] is Signal);
        assert(forall|i: int|
            0 <= i < evs.drop_first().len() ==> #[trigger] evs.drop_first()[i] is Signal);
        lemma_no_completes(evs.drop_first());
    }
}

} // verus!
