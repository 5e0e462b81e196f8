//! The arithmetic of the sequence-lock protocol, on plain integers.
//!
//! Every decision that the buffer takes after it has loaded a word from
//! shared memory is a function of this module, so that each one is proved
//! for every value that the load can have produced.

use vstd::prelude::*;

verus! {

/// A sequence word is stable when it is even: no write is in progress and
/// the slot's payload belongs to the generation that the word names.
pub open spec fn stable(seq: nat) -> bool {
    seq % 2 == 0
}

/// The generation named by a sequence word: the word without its parity bit.
pub open spec fn generation(seq: nat) -> nat {
    (seq - seq % 2) as nat
}

/// What a reader whose high-water mark is `high_water` may claim at slot
/// `cursor` after it has loaded the sequence word `seq` there: the slot's
/// generation, or nothing where the slot is being written or holds nothing
/// that the reader has not consumed yet.
pub open spec fn claimable(seq: nat, high_water: nat, cursor: nat) -> Option<nat> {
    if !stable(seq) {
        None
    } else if (cursor == 0 && generation(seq) == high_water) || generation(seq) < high_water {
        None
    } else {
        Some(generation(seq))
    }
}

/// The slot that follows slot `i` in a ring of `n` slots.
pub open spec fn successor(i: nat, n: nat) -> nat {
    if i + 1 < n {
        i + 1
    } else {
        0
    }
}

/// The high-water mark that a writer publishes before it overwrites a slot
/// whose sequence word was `seq`: the generation that the slot will have
/// once the write is committed, unless the mark is already beyond it.
pub open spec fn published(high_water: nat, seq: nat) -> nat {
    if high_water >= generation(seq) + 2 {
        high_water
    } else {
        generation(seq) + 2
    }
}

/// Decides whether a reader may claim the slot under its cursor.
pub fn check_version(seq: usize, ver: usize, i: usize) -> (claim: Option<usize>)
    ensures
        claim is Some <==> claimable(seq as nat, ver as nat, i as nat) is Some,
        claim is Some ==> claimable(seq as nat, ver as nat, i as nat) == Some(claim->0 as nat),
{
    if seq % 2 != 0 {
        return None;
    }
    let generation: usize = seq - seq % 2;
    if (i == 0 && generation == ver) || generation < ver {
        return None;
    }
    Some(generation)
}

/// Computes the high-water mark to publish before a slot whose sequence
/// word was `seq` is overwritten. A mark that no machine word can hold is
/// published as the largest word.
pub fn published_version(ver: usize, seq: usize) -> (mark: usize)
    ensures
        mark == if published(ver as nat, seq as nat) <= usize::MAX {
            published(ver as nat, seq as nat)
        } else {
            usize::MAX as nat
        },
{
    let generation: usize = seq - seq % 2;
    if generation > usize::MAX - 2 {
        usize::MAX
    } else if ver >= generation + 2 {
        ver
    } else {
        generation + 2
    }
}

/// The slot that a write goes to when the write index was loaded as
/// `loaded`: the index itself, and the first slot for a word that is no
/// index of the ring.
pub open spec fn target_slot(loaded: nat, n: nat) -> nat {
    if loaded < n {
        loaded
    } else {
        0
    }
}

/// Picks the slot for the next write from the loaded write index.
pub fn write_slot(loaded: usize, n: usize) -> (slot: usize)
    requires
        n >= 1,
    ensures
        slot == target_slot(loaded as nat, n as nat),
        slot < n,
{
    if loaded < n {
        loaded
    } else {
        0
    }
}

/// Computes the slot after `i`, wrapping at the end of the ring.
pub fn next_index(i: usize, n: usize) -> (next: usize)
    requires
        i < n,
    ensures
        next == successor(i as nat, n as nat),
        next < n,
{
    if i + 1 < n {
        i + 1
    } else {
        0
    }
}

} // verus!
