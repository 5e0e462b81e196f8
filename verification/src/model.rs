//! What each call computes when no other thread interferes.
//!
//! The buffer itself lives in shared memory that the verifier cannot look
//! into. This module states the same protocol over plain mathematical
//! values: a ring of slots, a reader's cursor, and one function per
//! operation, built from the arithmetic in [`crate::protocol`].

use crate::protocol::claimable;
use crate::protocol::published;
use crate::protocol::stable;
use crate::protocol::successor;
use vstd::prelude::*;

verus! {

/// One slot between two operations: its sequence word, and the payload of
/// its last committed write, if there was one.
pub struct Slot<T> {
    pub seq: nat,
    pub payload: Option<T>,
}

/// The buffer between two operations.
pub struct Ring<T> {
    /// Whether a write guard is live.
    pub locked: bool,
    /// The slot that the next write goes to.
    pub next: nat,
    /// The largest generation that a write has published.
    pub mark: nat,
    pub slots: Seq<Slot<T>>,
}

/// A reader between two operations.
pub struct Cursor {
    /// The slot that the next `pop` looks at.
    pub index: nat,
    /// The generation of the last message taken, or the buffer's mark when
    /// the reader was made.
    pub mark: nat,
}

impl<T> Ring<T> {
    /// A new buffer of `n` slots: unlocked, every slot at generation zero.
    pub open spec fn empty(n: nat) -> Ring<T> {
        Ring {
            locked: false,
            next: 0,
            mark: 0,
            slots: Seq::new(n, |j: int| Slot { seq: 0, payload: None }),
        }
    }

    pub open spec fn capacity(self) -> nat {
        self.slots.len()
    }

    /// Between two operations the write index is in range and no slot is
    /// being written.
    pub open spec fn well_formed(self) -> bool {
        &&& self.capacity() >= 1
        &&& self.next < self.capacity()
        &&& forall|j: int| 0 <= j < self.slots.len() ==> stable(#[trigger] self.slots[j].seq)
    }

    /// `try_lock`: the buffer afterwards, and whether a guard was handed out.
    pub open spec fn try_lock(self) -> (Ring<T>, bool) {
        if self.locked {
            (self, false)
        } else {
            (Ring { locked: true, ..self }, true)
        }
    }

    /// The buffer after a guard was dropped.
    pub open spec fn unlock(self) -> Ring<T> {
        Ring { locked: false, ..self }
    }

    /// The buffer after `push_back(value)`: the slot under the write index
    /// has gone through one write cycle and holds `value`, the mark covers
    /// the slot's new generation, and the write index has moved on.
    pub open spec fn push(self, value: T) -> Ring<T> {
        let before = self.slots[self.next as int].seq;
        Ring {
            locked: self.locked,
            next: successor(self.next, self.capacity()),
            mark: published(self.mark, before),
            slots: self.slots.update(
                self.next as int,
                Slot { seq: before + 2, payload: Some(value) },
            ),
        }
    }

    /// A new reader: at the first slot, with the buffer's mark as its own.
    pub open spec fn reader(self) -> Cursor {
        Cursor { index: 0, mark: self.mark }
    }

    /// `pop_front` through a reader in state `cursor`: the reader
    /// afterwards and the message taken. Where nothing is claimable the
    /// reader does not move.
    pub open spec fn pop(self, cursor: Cursor) -> (Cursor, Option<T>) {
        let slot = self.slots[cursor.index as int];
        match claimable(slot.seq, cursor.mark, cursor.index) {
            Some(generation) => (
                Cursor { index: successor(cursor.index, self.capacity()), mark: generation },
                slot.payload,
            ),
            None => (cursor, None),
        }
    }

    /// The reader after `count` calls of `pop_front` in a row, with no
    /// write in between.
    pub open spec fn drain(self, cursor: Cursor, count: nat) -> Cursor
        decreases count,
    {
        if count == 0 {
            cursor
        } else {
            self.drain(self.pop(cursor).0, (count - 1) as nat)
        }
    }

    /// The largest sequence word in the buffer.
    pub open spec fn top(self) -> nat {
        highest(self.slots)
    }
}

/// The largest sequence word among `slots`.
pub open spec fn highest<T>(slots: Seq<Slot<T>>) -> nat
    decreases slots.len(),
{
    if slots.len() == 0 {
        0
    } else {
        let rest = highest(slots.drop_last());
        if slots.last().seq > rest {
            slots.last().seq
        } else {
            rest
        }
    }
}

proof fn lemma_highest_bounds<T>(slots: Seq<Slot<T>>, j: int)
    requires
        0 <= j < slots.len(),
    ensures
        slots[j].seq <= highest(slots),
    decreases slots.len(),
{
    if j < slots.len() - 1 {
        lemma_highest_bounds(slots.drop_last(), j);
    }
}

/// A record that grows keeps what it held, and holds what was added.
pub proof fn lemma_record_grows<T>(pushed: Seq<T>, value: T)
    ensures
        pushed.push(value).contains(value),
        forall|other: T| pushed.contains(other) ==> #[trigger] pushed.push(value).contains(other),
{
    assert(pushed.push(value)[pushed.len() as int] == value);
    assert forall|other: T| pushed.contains(other) implies #[trigger] pushed.push(value).contains(
        other,
    ) by {
        let at = choose|at: int| 0 <= at < pushed.len() && pushed[at] == other;
        assert(pushed.push(value)[at] == other);
    }
}

/// Pushing never lowers the buffer's mark, and leaves the lock alone.
pub proof fn lemma_push_keeps_mark<T>(ring: Ring<T>, value: T)
    ensures
        ring.push(value).mark >= ring.mark,
        ring.push(value).locked == ring.locked,
{
}

/// Popping never lowers the reader's mark.
pub proof fn lemma_pop_keeps_mark<T>(ring: Ring<T>, cursor: Cursor)
    ensures
        ring.pop(cursor).0.mark >= cursor.mark,
{
}

/// Pushing keeps a well-formed buffer well-formed, with the same capacity.
pub proof fn lemma_push_well_formed<T>(ring: Ring<T>, value: T)
    requires
        ring.well_formed(),
    ensures
        ring.push(value).well_formed(),
        ring.push(value).capacity() == ring.capacity(),
{
    let after = ring.push(value);
    assert forall|j: int| 0 <= j < after.slots.len() implies stable(
        #[trigger] after.slots[j].seq,
    ) by {
        if j != ring.next {
            assert(stable(ring.slots[j].seq));
        } else {
            assert(stable(ring.slots[ring.next as int].seq));
        }
    }
}

/// How many slots a reader at `index` has before it next stands at the
/// first slot.
pub open spec fn rank(index: nat, n: nat) -> nat {
    if index == 0 {
        0
    } else {
        (n - index) as nat
    }
}

/// A bound on the messages that a reader can still take from a buffer that
/// is no longer written to.
pub open spec fn slack<T>(ring: Ring<T>, cursor: Cursor) -> nat {
    if cursor.mark <= ring.top() {
        ((ring.top() - cursor.mark) * ring.capacity() + rank(cursor.index, ring.capacity())) as nat
    } else {
        0
    }
}

/// Draining one call more is popping once more at the end.
pub proof fn lemma_drain_once_more<T>(ring: Ring<T>, cursor: Cursor, count: nat)
    ensures
        ring.drain(cursor, count + 1) == ring.pop(ring.drain(cursor, count)).0,
    decreases count,
{
    if count > 0 {
        lemma_drain_once_more(ring, ring.pop(cursor).0, (count - 1) as nat);
    } else {
        assert(ring.drain(cursor, 1) == ring.drain(ring.pop(cursor).0, 0));
    }
}

proof fn lemma_idle_reader_stays<T>(ring: Ring<T>, cursor: Cursor, count: nat)
    requires
        ring.pop(cursor).0 == cursor,
    ensures
        ring.drain(cursor, count) == cursor,
    decreases count,
{
    if count > 0 {
        lemma_idle_reader_stays(ring, cursor, (count - 1) as nat);
    }
}

proof fn lemma_pop_spends_slack<T>(ring: Ring<T>, cursor: Cursor)
    requires
        ring.capacity() >= 1,
        cursor.index < ring.capacity(),
        claimable(ring.slots[cursor.index as int].seq, cursor.mark, cursor.index) is Some,
    ensures
        slack(ring, ring.pop(cursor).0) < slack(ring, cursor),
        ring.pop(cursor).0.index < ring.capacity(),
{
    let n = ring.capacity();
    let top = ring.top();
    let seq = ring.slots[cursor.index as int].seq;
    let after = ring.pop(cursor).0;
    lemma_highest_bounds(ring.slots, cursor.index as int);
    assert(after.mark == seq);
    assert(cursor.mark <= after.mark <= top);
    let old_gap = (top - cursor.mark) as nat;
    let new_gap = (top - after.mark) as nat;
    if cursor.index == 0 {
        assert(new_gap + 1 <= old_gap);
        assert(new_gap * n + n <= old_gap * n) by (nonlinear_arith)
            requires
                new_gap + 1 <= old_gap,
        ;
    } else {
        assert(new_gap * n <= old_gap * n) by (nonlinear_arith)
            requires
                new_gap <= old_gap,
        ;
    }
}

/// A reader of a buffer that is no longer written to runs dry: after at
/// most `slack` messages every further `pop` takes nothing and leaves the
/// reader where it is.
pub proof fn lemma_reader_runs_dry<T>(ring: Ring<T>, cursor: Cursor) -> (count: nat)
    requires
        ring.capacity() >= 1,
        cursor.index < ring.capacity(),
    ensures
        count <= slack(ring, cursor),
        forall|later: nat|
            later >= count ==> (#[trigger] ring.drain(cursor, later)) == ring.drain(cursor, count),
        ring.pop(ring.drain(cursor, count)) == (ring.drain(cursor, count), None::<T>),
    decreases slack(ring, cursor),
{
    if claimable(ring.slots[cursor.index as int].seq, cursor.mark, cursor.index) is Some {
        lemma_pop_spends_slack(ring, cursor);
        let after = ring.pop(cursor).0;
        let rest = lemma_reader_runs_dry(ring, after);
        assert forall|later: nat| later >= rest + 1 implies (#[trigger] ring.drain(cursor, later))
            == ring.drain(cursor, rest + 1) by {
            assert(ring.drain(cursor, later) == ring.drain(after, (later - 1) as nat));
            assert(ring.drain(cursor, rest + 1) == ring.drain(after, rest));
        }
        assert(ring.drain(cursor, rest + 1) == ring.drain(after, rest));
        rest + 1
    } else {
        assert forall|later: nat| later >= 0 implies (#[trigger] ring.drain(cursor, later))
            == ring.drain(cursor, 0) by {
            lemma_idle_reader_stays(ring, cursor, later);
        }
        0
    }
}

} // verus!
