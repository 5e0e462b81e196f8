//! Every history of whole calls, and what holds of all of them.
//!
//! A history is a sequence of calls on one buffer, by whichever thread, in
//! the order in which they took effect. The world that a history leads to
//! holds the buffer, the live guards and readers, and a record of what was
//! pushed and of what each reader was handed.

use crate::model::Cursor;
use crate::model::Ring;
use crate::protocol::claimable;
use crate::protocol::stable;
use vstd::prelude::*;

verus! {

/// One call on the buffer or on one of its handles.
pub enum Call<T> {
    /// `try_lock` on the buffer.
    TryLock,
    /// The drop of the live guard.
    Unlock,
    /// `push_back` through the live guard.
    Push(T),
    /// `reader` on the buffer.
    NewReader,
    /// `clone` of the reader with this number.
    CloneReader(nat),
    /// `pop_front` through the reader with this number.
    Pop(nat),
}

/// One message as a reader was handed it: the slot it came from, the
/// generation of the write that put it there, and its value.
pub struct Delivery<T> {
    pub slot: nat,
    pub generation: nat,
    pub value: T,
}

/// A reader together with everything it has been handed so far.
pub struct Follower<T> {
    pub cursor: Cursor,
    pub log: Seq<Delivery<T>>,
}

/// The buffer, its handles, and the record of what has happened.
pub struct World<T> {
    pub ring: Ring<T>,
    /// How many write guards are live.
    pub guards: nat,
    /// The readers, numbered in the order in which they were made.
    pub readers: Seq<Follower<T>>,
    /// Every value pushed so far, oldest first.
    pub pushed: Seq<T>,
}

impl<T> World<T> {
    /// A new buffer of `n` slots with no handle.
    pub open spec fn start(n: nat) -> World<T> {
        World { ring: Ring::empty(n), guards: 0, readers: Seq::empty(), pushed: Seq::empty() }
    }

    /// Whether `call` is a `try_lock` that hands out a guard.
    pub open spec fn grants(self, call: Call<T>) -> bool {
        call is TryLock && self.ring.try_lock().1
    }

    /// What `call` hands back if it is a `pop_front` through a live reader.
    pub open spec fn answer(self, call: Call<T>) -> Option<T> {
        match call {
            Call::Pop(r) => if r < self.readers.len() {
                self.ring.pop(self.readers[r as int].cursor).1
            } else {
                None
            },
            _ => None,
        }
    }

    /// The world after `call`. A call through a handle that does not exist
    /// changes nothing.
    pub open spec fn step(self, call: Call<T>) -> World<T> {
        match call {
            Call::TryLock => {
                let (ring, granted) = self.ring.try_lock();
                World {
                    ring,
                    guards: if granted {
                        self.guards + 1
                    } else {
                        self.guards
                    },
                    ..self
                }
            },
            Call::Unlock => if self.guards > 0 {
                World { ring: self.ring.unlock(), guards: (self.guards - 1) as nat, ..self }
            } else {
                self
            },
            Call::Push(value) => if self.guards > 0 {
                World { ring: self.ring.push(value), pushed: self.pushed.push(value), ..self }
            } else {
                self
            },
            Call::NewReader => World {
                readers: self.readers.push(
                    Follower { cursor: self.ring.reader(), log: Seq::empty() },
                ),
                ..self
            },
            Call::CloneReader(r) => if r < self.readers.len() {
                World {
                    readers: self.readers.push(
                        Follower { cursor: self.readers[r as int].cursor, log: Seq::empty() },
                    ),
                    ..self
                }
            } else {
                self
            },
            Call::Pop(r) => if r < self.readers.len() {
                let before = self.readers[r as int];
                let (cursor, taken) = self.ring.pop(before.cursor);
                let log = match taken {
                    Some(value) => before.log.push(
                        Delivery { slot: before.cursor.index, generation: cursor.mark, value },
                    ),
                    None => before.log,
                };
                World { readers: self.readers.update(r as int, Follower { cursor, log }), ..self }
            } else {
                self
            },
        }
    }
}

/// The world that the history `calls` leads to from a new buffer of `n`
/// slots.
pub open spec fn run<T>(n: nat, calls: Seq<Call<T>>) -> World<T>
    decreases calls.len(),
{
    if calls.len() == 0 {
        World::start(n)
    } else {
        run(n, calls.drop_last()).step(calls.last())
    }
}

/// Whether two deliveries are of one and the same write.
pub open spec fn same_write<T>(first: Delivery<T>, second: Delivery<T>) -> bool {
    first.slot == second.slot && first.generation == second.generation
}

/// Whether a reader in state `cursor` is past `delivery`: nothing that it
/// takes from now on can be of the same write.
pub open spec fn behind<T>(delivery: Delivery<T>, cursor: Cursor) -> bool {
    delivery.generation < cursor.mark || (delivery.generation == cursor.mark && (cursor.index == 0
        || delivery.slot < cursor.index))
}

impl<T> Follower<T> {
    /// The reader's cursor is in range, it is past everything in its log,
    /// the log holds pushed values only, and no write is in it twice.
    pub open spec fn sound(self, n: nat, pushed: Seq<T>) -> bool {
        &&& self.cursor.index < n
        &&& forall|k: int|
            0 <= k < self.log.len() ==> behind(#[trigger] self.log[k], self.cursor)
                && pushed.contains(self.log[k].value)
        &&& forall|a: int, b: int|
            0 <= a < b < self.log.len() ==> !same_write(#[trigger] self.log[a], #[trigger] self.log[b])
    }
}

impl<T> World<T> {
    /// What holds of every world that a history leads to.
    pub open spec fn sound(self) -> bool {
        &&& self.ring.well_formed()
        &&& self.guards <= 1
        &&& (self.guards == 1 <==> self.ring.locked)
        &&& forall|j: int|
            0 <= j < self.ring.slots.len() ==> ((#[trigger] self.ring.slots[j]).payload matches Some(
                value,
            ) ==> self.pushed.contains(value))
        &&& forall|r: int|
            0 <= r < self.readers.len() ==> (#[trigger] self.readers[r]).sound(
                self.ring.capacity(),
                self.pushed,
            )
    }
}

proof fn lemma_pop_keeps_follower<T>(ring: Ring<T>, pushed: Seq<T>, before: Follower<T>)
    requires
        ring.well_formed(),
        before.sound(ring.capacity(), pushed),
        forall|j: int|
            0 <= j < ring.slots.len() ==> ((#[trigger] ring.slots[j]).payload matches Some(value)
                ==> pushed.contains(value)),
    ensures
        ({
            let (cursor, taken) = ring.pop(before.cursor);
            let log = match taken {
                Some(value) => before.log.push(
                    Delivery { slot: before.cursor.index, generation: cursor.mark, value },
                ),
                None => before.log,
            };
            (Follower { cursor, log }).sound(ring.capacity(), pushed)
        }),
{
    let (cursor, taken) = ring.pop(before.cursor);
    let log = match taken {
        Some(value) => before.log.push(
            Delivery { slot: before.cursor.index, generation: cursor.mark, value },
        ),
        None => before.log,
    };
    let after = Follower { cursor, log };
    let slot = ring.slots[before.cursor.index as int];
    if claimable(slot.seq, before.cursor.mark, before.cursor.index) is Some {
        assert forall|k: int| 0 <= k < after.log.len() implies behind(
            #[trigger] after.log[k],
            after.cursor,
        ) && pushed.contains(after.log[k].value) by {
            if k < before.log.len() {
                assert(behind(before.log[k], before.cursor));
            }
        }
        assert forall|a: int, b: int| 0 <= a < b < after.log.len() implies !same_write(
            #[trigger] after.log[a],
            #[trigger] after.log[b],
        ) by {
            assert(behind(before.log[a], before.cursor));
            if b < before.log.len() {
                assert(!same_write(before.log[a], before.log[b]));
            }
        }
    }
}

/// A call leads from a sound world to a sound world.
pub proof fn lemma_step_keeps_sound<T>(world: World<T>, call: Call<T>)
    requires
        world.sound(),
    ensures
        world.step(call).sound(),
        world.step(call).ring.capacity() == world.ring.capacity(),
{
    let after = world.step(call);
    let n = world.ring.capacity();
    match call {
        Call::Push(value) => {
            if world.guards > 0 {
                crate::model::lemma_push_well_formed(world.ring, value);
                crate::model::lemma_record_grows(world.pushed, value);
                assert(after.pushed[world.pushed.len() as int] == value);
                assert forall|j: int| 0 <= j < after.ring.slots.len() implies ((
                #[trigger] after.ring.slots[j]).payload matches Some(v) ==> after.pushed.contains(
                    v,
                )) by {
                    if j != world.ring.next {
                        assert(world.ring.slots[j] == after.ring.slots[j]);
                    }
                }
                assert forall|r: int| 0 <= r < after.readers.len() implies (
                #[trigger] after.readers[r]).sound(n, after.pushed) by {
                    let f = world.readers[r];
                    assert(f.sound(n, world.pushed));
                    assert forall|k: int| 0 <= k < f.log.len() implies after.pushed.contains(
                        (#[trigger] f.log[k]).value,
                    ) by {
                        assert(world.pushed.contains(f.log[k].value));
                    }
                }
            }
        },
        Call::Pop(r) => {
            if r < world.readers.len() {
                lemma_pop_keeps_follower(world.ring, world.pushed, world.readers[r as int]);
                assert forall|other: int| 0 <= other < after.readers.len() implies (
                #[trigger] after.readers[other]).sound(n, after.pushed) by {
                    if other != r {
                        assert(world.readers[other].sound(n, world.pushed));
                    }
                }
            }
        },
        Call::NewReader => {
            assert forall|r: int| 0 <= r < after.readers.len() implies (
            #[trigger] after.readers[r]).sound(n, after.pushed) by {
                if r < world.readers.len() {
                    assert(world.readers[r].sound(n, world.pushed));
                }
            }
        },
        Call::CloneReader(source) => {
            if source < world.readers.len() {
                assert(world.readers[source as int].sound(n, world.pushed));
                assert forall|r: int| 0 <= r < after.readers.len() implies (
                #[trigger] after.readers[r]).sound(n, after.pushed) by {
                    if r < world.readers.len() {
                        assert(world.readers[r].sound(n, world.pushed));
                    }
                }
            }
        },
        Call::TryLock => {
            assert forall|r: int| 0 <= r < after.readers.len() implies (
            #[trigger] after.readers[r]).sound(n, after.pushed) by {
                assert(world.readers[r].sound(n, world.pushed));
            }
        },
        Call::Unlock => {
            assert forall|r: int| 0 <= r < after.readers.len() implies (
            #[trigger] after.readers[r]).sound(n, after.pushed) by {
                assert(world.readers[r].sound(n, world.pushed));
            }
        },
    }
}

/// Every history on a buffer of at least one slot leads to a sound world
/// whose buffer still has all its slots.
pub proof fn lemma_histories_are_sound<T>(n: nat, calls: Seq<Call<T>>)
    requires
        n >= 1,
    ensures
        run(n, calls).sound(),
        run(n, calls).ring.capacity() == n,
    decreases calls.len(),
{
    if calls.len() == 0 {
        assert(stable(0));
    } else {
        lemma_histories_are_sound(n, calls.drop_last());
        lemma_step_keeps_sound(run(n, calls.drop_last()), calls.last());
    }
}

/// One writer at a time: after any history at most one guard is live, and
/// while one is live no `try_lock` hands out another.
pub proof fn lemma_one_writer<T>(n: nat, calls: Seq<Call<T>>, call: Call<T>)
    requires
        n >= 1,
    ensures
        run(n, calls).guards <= 1,
        run(n, calls).guards == 1 ==> !run(n, calls).grants(call),
        run(n, calls).guards == 0 && call is TryLock ==> run(n, calls).grants(call),
{
    lemma_histories_are_sound(n, calls);
}

/// Every value in the record of pushes was the argument of a `push_back`
/// of the history.
pub proof fn lemma_pushed_was_called<T>(n: nat, calls: Seq<Call<T>>, at: int)
    requires
        0 <= at < run(n, calls).pushed.len(),
    ensures
        exists|k: int| 0 <= k < calls.len() && calls[k] == Call::Push(run(n, calls).pushed[at]),
    decreases calls.len(),
{
    if calls.len() > 0 {
        let before = run(n, calls.drop_last());
        let last = calls.len() - 1;
        if at < before.pushed.len() {
            lemma_pushed_was_called(n, calls.drop_last(), at);
            let k = choose|k: int|
                0 <= k < calls.drop_last().len() && calls.drop_last()[k] == Call::Push(
                    before.pushed[at],
                );
            assert(calls[k] == Call::Push(run(n, calls).pushed[at]));
        } else {
            assert(calls[last] == Call::Push(run(n, calls).pushed[at]));
        }
    }
}

/// No message out of thin air: whatever a `pop_front` hands back after any
/// history is the argument of an earlier `push_back`, whole and unchanged.
pub proof fn lemma_popped_was_pushed<T>(n: nat, calls: Seq<Call<T>>, call: Call<T>)
    requires
        n >= 1,
        run(n, calls).answer(call) is Some,
    ensures
        exists|k: int|
            0 <= k < calls.len() && calls[k] == Call::Push(run(n, calls).answer(call)->0),
{
    lemma_histories_are_sound(n, calls);
    let world = run(n, calls);
    let value = world.answer(call)->0;
    let r = call->Pop_0;
    let follower = world.readers[r as int];
    assert(follower.sound(n, world.pushed));
    assert(world.ring.slots[follower.cursor.index as int].payload == Some(value));
    let at = choose|at: int| 0 <= at < world.pushed.len() && world.pushed[at] == value;
    lemma_pushed_was_called(n, calls, at);
}

/// No message twice through one reader: however the calls through it are
/// spread over threads, no two of its deliveries are of the same write.
pub proof fn lemma_no_message_twice<T>(n: nat, calls: Seq<Call<T>>, r: int, a: int, b: int)
    requires
        n >= 1,
        0 <= r < run(n, calls).readers.len(),
        0 <= a < run(n, calls).readers[r].log.len(),
        0 <= b < run(n, calls).readers[r].log.len(),
        a != b,
    ensures
        !same_write(run(n, calls).readers[r].log[a], run(n, calls).readers[r].log[b]),
{
    lemma_histories_are_sound(n, calls);
    let follower = run(n, calls).readers[r];
    assert(follower.sound(n, run(n, calls).pushed));
    if a < b {
        assert(!same_write(follower.log[a], follower.log[b]));
    } else {
        assert(!same_write(follower.log[b], follower.log[a]));
    }
}

/// A call lowers no mark and removes no reader.
pub proof fn lemma_step_keeps_marks<T>(world: World<T>, call: Call<T>)
    ensures
        world.step(call).ring.mark >= world.ring.mark,
        world.step(call).readers.len() >= world.readers.len(),
        forall|r: int|
            0 <= r < world.readers.len() ==> (#[trigger] world.step(call).readers[r]).cursor.mark
                >= world.readers[r].cursor.mark,
{
}

/// Marks never fall: between any earlier point of a history and its end,
/// neither the buffer's mark nor the mark of any reader has decreased.
pub proof fn lemma_marks_never_fall<T>(n: nat, calls: Seq<Call<T>>, earlier: int)
    requires
        0 <= earlier <= calls.len(),
    ensures
        run(n, calls.take(earlier)).ring.mark <= run(n, calls).ring.mark,
        run(n, calls.take(earlier)).readers.len() <= run(n, calls).readers.len(),
        forall|r: int|
            0 <= r < run(n, calls.take(earlier)).readers.len() ==> run(
                n,
                calls.take(earlier),
            ).readers[r].cursor.mark <= (#[trigger] run(n, calls).readers[r]).cursor.mark,
    decreases calls.len(),
{
    if earlier == calls.len() {
        assert(calls.take(earlier) =~= calls);
    } else {
        assert(calls.drop_last().take(earlier) =~= calls.take(earlier));
        lemma_marks_never_fall(n, calls.drop_last(), earlier);
        lemma_step_keeps_marks(run(n, calls.drop_last()), calls.last());
    }
}

/// `count` calls of `pop_front` through the reader with number `r`, one
/// after the other.
pub open spec fn pops<T>(r: nat, count: nat) -> Seq<Call<T>> {
    Seq::new(count, |k: int| Call::Pop(r))
}

/// A history that ends in `count` pops through one reader leaves the
/// buffer as it was before them and the reader where draining leaves it.
pub proof fn lemma_pops_drain<T>(n: nat, calls: Seq<Call<T>>, r: nat, count: nat)
    requires
        r < run(n, calls).readers.len(),
    ensures
        run(n, calls + pops(r, count)).ring == run(n, calls).ring,
        run(n, calls + pops(r, count)).readers.len() == run(n, calls).readers.len(),
        run(n, calls + pops(r, count)).readers[r as int].cursor == run(n, calls).ring.drain(
            run(n, calls).readers[r as int].cursor,
            count,
        ),
    decreases count,
{
    if count == 0 {
        assert(calls + pops::<T>(r, 0) =~= calls);
    } else {
        let shorter = calls + pops::<T>(r, (count - 1) as nat);
        let longer = calls + pops::<T>(r, count);
        assert(longer.drop_last() =~= shorter);
        assert(longer.last() == Call::<T>::Pop(r));
        lemma_pops_drain(n, calls, r, (count - 1) as nat);
        crate::model::lemma_drain_once_more(
            run(n, calls).ring,
            run(n, calls).readers[r as int].cursor,
            (count - 1) as nat,
        );
    }
}

/// Bounded catch-up: once the writer has stopped, a reader runs dry. After
/// any history there is a number, no larger than the reader's slack, such
/// that the reader's pops from that one on all hand back nothing, as long
/// as nothing is pushed.
pub proof fn lemma_silent_writer_runs_dry<T>(n: nat, calls: Seq<Call<T>>, r: nat) -> (count: nat)
    requires
        n >= 1,
        r < run(n, calls).readers.len(),
    ensures
        count <= crate::model::slack(run(n, calls).ring, run(n, calls).readers[r as int].cursor),
        forall|later: nat|
            later >= count ==> (#[trigger] run(n, calls + pops(r, later))).answer(Call::Pop(r))
                is None,
{
    lemma_histories_are_sound(n, calls);
    let world = run(n, calls);
    let cursor = world.readers[r as int].cursor;
    assert(world.readers[r as int].sound(n, world.pushed));
    let count = crate::model::lemma_reader_runs_dry(world.ring, cursor);
    assert forall|later: nat| later >= count implies (#[trigger] run(
        n,
        calls + pops(r, later),
    )).answer(Call::Pop(r)) is None by {
        lemma_pops_drain(n, calls, r, later);
        assert(world.ring.drain(cursor, later) == world.ring.drain(cursor, count));
    }
    count
}

} // verus!
