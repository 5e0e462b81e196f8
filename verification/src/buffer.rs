//! The buffer and its two handles.
//!
//! Every word that threads share is an atomic of the standard library or an
//! atomic cell, so a load may return whatever another thread stored last.
//! The verifier therefore knows nothing of what a load returns: the code
//! here is proved safe for every value, each decision on a loaded value is
//! taken by a function of [`crate::protocol`] or [`crate::call`] with an
//! exact contract, and what the accesses add up to is stated and proved
//! over the models:
//! [`crate::model`] and [`crate::history`] for whole calls,
//! [`crate::interleaving`] for single accesses in any order.

use crate::call::advance;
use crate::call::follow;
use crate::call::handed;
use crate::call::handed_back;
use crate::call::lemma_follow_on;
use crate::call::Brought;
use crate::call::Stage;
use crate::interleaving::Seen;
use crate::padded::Padded;
use crate::protocol::next_index;
use crate::protocol::published_version;
use crate::protocol::write_slot;
use std::sync::atomic::AtomicBool;
use std::sync::atomic::AtomicUsize;
use std::sync::atomic::Ordering;
use vstd::prelude::*;

verus! {

/// `crossbeam_utils::atomic::AtomicCell`: a memory cell that any thread may
/// load from and store to through a shared reference. Its contents are
/// hidden from the verifier.
#[verifier::external_type_specification]
#[verifier::external_body]
#[verifier::reject_recursive_types(T)]
pub struct ExAtomicCell<T>(crossbeam_utils::atomic::AtomicCell<T>);

/// `AtomicCell::new` makes a cell; nothing is claimed of it.
pub assume_specification<T>[ crossbeam_utils::atomic::AtomicCell::<T>::new ](
    val: T,
) -> crossbeam_utils::atomic::AtomicCell<T>;

/// `AtomicCell::store` returns; nothing is claimed of what later loads see.
pub assume_specification<T>[ crossbeam_utils::atomic::AtomicCell::<T>::store ](
    cell: &crossbeam_utils::atomic::AtomicCell<T>,
    val: T,
);

/// `AtomicCell::load` returns some value of the cell's type: another thread
/// may have stored since, so nothing is claimed of which.
pub assume_specification<T: Copy>[ crossbeam_utils::atomic::AtomicCell::<T>::load ](
    cell: &crossbeam_utils::atomic::AtomicCell<T>,
) -> T;

/// `AtomicBool::store` with `Release` ordering, the one store that a guard
/// makes while it is dropped. The contract claims only what the standard
/// library documents: with this ordering the call returns without a panic.
#[verifier::external_body]
fn store_release(flag: &AtomicBool, val: bool)
    opens_invariants none
    no_unwind
{
    flag.store(val, Ordering::Release);
}

/// One storage cell: a sequence word and the payload it guards.
#[verifier::reject_recursive_types(T)]
#[derive(Debug)]
struct Block<T: Copy> {
    seq: AtomicUsize,
    message: crossbeam_utils::atomic::AtomicCell<Option<T>>,
}

/// A fixed-size ring of `N` slots that one writer fills and any number of
/// readers follow. The writer never waits for a reader to catch up: a
/// reader that falls a whole lap behind loses what was overwritten. The
/// writer can wait for the length of one copy, where a payload cell is
/// guarded by a lock and a reader holds it.
#[verifier::reject_recursive_types(T)]
#[derive(Debug)]
pub struct RingBuffer<T: Copy, const N: usize> {
    locked: Padded<AtomicBool>,
    version: Padded<AtomicUsize>,
    index: Padded<AtomicUsize>,
    data: Vec<Block<T>>,
}

/// A read cursor over a [`RingBuffer`]. Threads that share one reader by
/// reference split the stream among them; a clone, or a second reader of
/// the same buffer, follows the stream on its own.
#[verifier::reject_recursive_types(T)]
#[derive(Debug)]
pub struct SharedReader<'read, T: Copy, const N: usize> {
    buffer: Padded<&'read RingBuffer<T, N>>,
    index: Padded<AtomicUsize>,
    version: Padded<AtomicUsize>,
}

/// Exclusive write access to a [`RingBuffer`]; dropping it lets the next
/// writer in.
#[verifier::reject_recursive_types(T)]
#[derive(Debug)]
pub struct WriteGuard<'write, T: Copy, const N: usize> {
    buffer: &'write RingBuffer<T, N>,
}

impl<T: Copy, const N: usize> RingBuffer<T, N> {
    #[verifier::type_invariant]
    spec fn well_formed(self) -> bool {
        &&& N >= 1
        &&& self.data@.len() == N
    }

    /// How many slots the buffer has.
    pub closed spec fn capacity(self) -> nat {
        self.data@.len()
    }

    /// Makes an empty buffer of `N` slots: no writer, every slot at
    /// generation zero.
    pub fn new() -> (buffer: Self)
        requires
            N >= 1,
        ensures
            buffer.capacity() == N,
    {
        let mut data: Vec<Block<T>> = Vec::new();
        let mut filled: usize = 0;
        while filled < N
            invariant
                filled <= N,
                data@.len() == filled,
            decreases N - filled,
        {
            data.push(
                Block {
                    seq: AtomicUsize::new(0),
                    message: crossbeam_utils::atomic::AtomicCell::new(None),
                },
            );
            filled = filled + 1;
        }
        RingBuffer {
            locked: Padded::new(AtomicBool::new(false)),
            version: Padded::new(AtomicUsize::new(0)),
            index: Padded::new(AtomicUsize::new(0)),
            data,
        }
    }

    /// Tries to become the writer. Never waits: where a writer is live the
    /// call fails at once.
    pub fn try_lock(&self) -> (guard: Result<WriteGuard<'_, T, N>, ()>)
        ensures
            guard matches Ok(live) ==> live.target() == *self,
    {
        self.admitted(self.locked.0.swap(true, Ordering::Acquire))
    }

    /// What `try_lock` hands back once it has set the lock flag and found
    /// that the flag was `was_locked` before: a guard for this buffer if the
    /// flag was clear, and the failure if a writer held it.
    ///
    /// The function does not touch the flag. A caller that passes `false`
    /// while a guard is live makes a second writer, and with two writers
    /// nothing that this crate proves of the buffer holds.
    pub fn admitted(&self, was_locked: bool) -> (guard: Result<WriteGuard<'_, T, N>, ()>)
        ensures
            guard is Err <==> was_locked,
            guard matches Ok(live) ==> live.target() == *self,
    {
        if !was_locked {
            Ok(WriteGuard { buffer: self })
        } else {
            Err(())
        }
    }
}

impl<T: Copy, const N: usize> RingBuffer<T, N> {
    /// Makes a reader that starts at the first slot and counts as consumed
    /// everything published so far.
    pub fn reader(&self) -> (reader: SharedReader<'_, T, N>)
        ensures
            reader.source() == *self,
    {
        SharedReader {
            buffer: Padded::new(self),
            index: Padded::new(AtomicUsize::new(0)),
            version: Padded::new(AtomicUsize::new(self.version.0.load(Ordering::Relaxed))),
        }
    }

    /// Marks the slot under the write index as being written and publishes
    /// the generation that it is about to reach. Only the writer stores to
    /// the write index, and only values in range; a word out of range
    /// counts as the first slot.
    fn start_write(&self) -> (index: usize)
        ensures
            index < N,
    {
        proof {
            use_type_invariant(self);
        }
        let index: usize = write_slot(self.index.0.load(Ordering::Relaxed), N);
        let seq: usize = self.data[index].seq.fetch_add(1, Ordering::Relaxed);
        let ver: usize = self.version.0.load(Ordering::Relaxed);
        self.version.0.store(published_version(ver, seq), Ordering::Relaxed);
        index
    }

    /// Marks slot `index` as stable again and moves the write index on.
    fn end_write(&self, index: usize)
        requires
            index < N,
    {
        proof {
            use_type_invariant(self);
        }
        self.data[index].seq.fetch_add(1, Ordering::Release);
        self.index.0.store(next_index(index, N), Ordering::Relaxed);
    }
}

impl<'write, T: Copy, const N: usize> WriteGuard<'write, T, N> {
    /// The buffer that this guard writes to.
    pub closed spec fn target(self) -> RingBuffer<T, N> {
        *self.buffer
    }

    /// Appends `val`, overwriting the oldest slot. Never fails, and never
    /// waits for a reader to take the slot's old message; the store of the
    /// payload can wait for a lock of the payload cell, which a reader in
    /// the middle of a copy may hold.
    ///
    /// The slot's sequence word is made odd, the buffer's mark is raised to
    /// cover the slot's coming generation, the payload is stored, the
    /// sequence word is made even again, and the write index moves on. A
    /// reader that had not taken the slot's old message has lost it.
    pub fn push_back(&mut self, val: T)
        ensures
            final(self).target() == old(self).target(),
    {
        let i: usize = self.buffer.start_write();
        proof {
            use_type_invariant(self.buffer);
        }
        self.buffer.data[i].message.store(Some(val));
        self.buffer.end_write(i);
    }
}

impl<'read, T: Copy, const N: usize> Clone for SharedReader<'read, T, N> {
    /// Makes a reader that starts where this one stands and moves on its
    /// own from there.
    fn clone(&self) -> (copy: Self)
        ensures
            copy.source() == self.source(),
    {
        SharedReader {
            buffer: Padded::new(self.buffer.0),
            index: Padded::new(AtomicUsize::new(self.index.0.load(Ordering::Relaxed))),
            version: Padded::new(AtomicUsize::new(self.version.0.load(Ordering::Relaxed))),
        }
    }
}

/// How often one call of `pop_front` starts over after another thread
/// moved the cursor, or the writer the slot, under it.
pub const POP_ATTEMPTS: usize = 64;

/// How many accesses to shared memory one call of `pop_front` makes at
/// most: seven for each attempt.
pub const POP_ACCESSES: usize = 7 * POP_ATTEMPTS;

impl<'read, T: Copy, const N: usize> SharedReader<'read, T, N> {
    /// The buffer that this reader follows.
    pub closed spec fn source(self) -> RingBuffer<T, N> {
        *self.buffer.0
    }

    /// Takes the next message that this reader has not consumed, or
    /// nothing where it has caught up with the writer or the slot under
    /// the cursor is being written.
    ///
    /// The call claims the slot under the cursor by raising the reader's
    /// mark to the slot's generation and moving the cursor on, then copies
    /// the payload and looks at the sequence word once more. If the word
    /// has changed, the copy is dropped and the call starts over, as it
    /// does when another thread has moved the cursor first.
    ///
    /// Each turn of the loop makes the one access that the call's stage
    /// asks for and hands what came back to [`advance`], which decides the
    /// next stage; [`handed_back`] says what the last stage gives the
    /// caller. The call gives up, with nothing, after [`POP_ACCESSES`]
    /// accesses, so it never spins without bound.
    ///
    /// What the accesses bring back is other threads' doing, so the
    /// contract cannot say which message comes back. It says that the
    /// result is what the stages of a call make of some row of at most
    /// `POP_ACCESSES` accesses, and that the call has run to its end unless
    /// it has used them all up.
    pub fn pop_front(&self) -> (popped: Option<T>)
        ensures
            exists|seen: Seq<Seen<T>>|
                seen.len() <= POP_ACCESSES && (follow(N, seen) is Done || seen.len()
                    == POP_ACCESSES) && popped == handed(#[trigger] follow(N, seen)),
    {
        let buffer: &RingBuffer<T, N> = self.buffer.0;
        proof {
            use_type_invariant(buffer);
        }
        let mut stage: Stage<T> = Stage::Entered;
        let mut accesses: usize = 0;
        let mut seen: Ghost<Seq<Seen<T>>> = Ghost(Seq::empty());
        while accesses < POP_ACCESSES
            invariant
                N >= 1,
                buffer.data@.len() == N,
                stage.fits(N),
                accesses <= POP_ACCESSES,
                seen@.len() == accesses,
                stage.model() == follow(N, seen@),
            decreases POP_ACCESSES - accesses,
        {
            let brought: Brought<T> = match stage {
                Stage::Entered => Brought::Word(self.index.0.load(Ordering::Acquire)),
                Stage::AtCursor { .. } => Brought::Word(self.version.0.load(Ordering::Relaxed)),
                Stage::AtMark { i, .. } => Brought::Word(
                    buffer.data[i].seq.load(Ordering::Acquire),
                ),
                Stage::Checked { ver, generation, .. } => Brought::Swapped(
                    self.version.0.compare_exchange(
                        ver,
                        generation,
                        Ordering::Relaxed,
                        Ordering::Relaxed,
                    ),
                ),
                Stage::Raised { i, .. } => Brought::Swapped(
                    self.index.0.compare_exchange(
                        i,
                        next_index(i, N),
                        Ordering::Release,
                        Ordering::Acquire,
                    ),
                ),
                Stage::Claimed { i, .. } => Brought::Message(buffer.data[i].message.load()),
                Stage::Copied { i, .. } => Brought::Word(
                    buffer.data[i].seq.load(Ordering::Acquire),
                ),
                Stage::Done { .. } => {
                    let popped = handed_back(stage);
                    assert(popped == handed(follow(N, seen@)));
                    return popped;
                },
            };
            proof {
                lemma_follow_on(N, seen@, brought.seen());
                seen@ = seen@.push(brought.seen());
            }
            stage = advance(stage, N, brought);
            accesses = accesses + 1;
        }
        let popped = handed_back(stage);
        assert(popped == handed(follow(N, seen@)));
        popped
    }
}

impl<'write, T: Copy, const N: usize> Drop for WriteGuard<'write, T, N> {
    fn drop(&mut self)
        opens_invariants none
        no_unwind
    {
        store_release(&self.buffer.locked.0, false);
    }
}

} // verus!
