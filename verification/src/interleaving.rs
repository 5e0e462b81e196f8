//! Every interleaving of single memory accesses, and why no reader is ever
//! handed a torn message.
//!
//! Here a `push_back` and a `pop_front` are not single events: each is a
//! row of loads and stores, and the accesses of all threads may mix in any
//! order. The payload of a slot is written in two parts, so a thread that
//! copies it in between sees a mixture of two writes.

use crate::model::Cursor;
use crate::model::Ring;
use crate::model::Slot;
use crate::protocol::claimable;
use crate::protocol::published;
use crate::protocol::successor;
use vstd::prelude::*;

verus! {

/// What the payload region of a slot holds.
pub enum Payload<T> {
    /// Nothing was ever written.
    Empty,
    /// A write is halfway through: parts of two values.
    Torn,
    /// The whole of one value.
    Whole(T),
}

/// One slot as it is in memory at some instant.
pub struct Cell<T> {
    pub seq: nat,
    pub payload: Payload<T>,
}

/// The buffer's words as they are in memory at some instant.
pub struct Memory<T> {
    pub locked: bool,
    pub next: nat,
    pub mark: nat,
    pub cells: Seq<Cell<T>>,
}

/// How far the writer is with the `push_back` it is in.
pub enum Writing<T> {
    /// Between two calls.
    Idle,
    /// The slot's sequence word was `before` and is now odd.
    Began { slot: nat, before: nat, value: T },
    /// The mark covers the generation that the slot is about to reach.
    Published { slot: nat, value: T },
    /// Part of the payload is written.
    Storing { slot: nat, value: T },
    /// All of the payload is written.
    Stored { slot: nat },
    /// The slot's sequence word is even again.
    Committed { slot: nat },
}

/// How far a thread is with the `pop_front` it is in.
pub enum Reading<T> {
    /// The call has begun.
    Entered,
    /// The cursor was loaded.
    AtCursor { i: nat },
    /// The reader's mark was loaded.
    AtMark { i: nat, ver: nat },
    /// The slot's sequence word was loaded and names a claimable generation.
    Checked { i: nat, ver: nat, generation: nat },
    /// The reader's mark was raised to the generation.
    Raised { i: nat, generation: nat },
    /// The cursor was moved on: the slot is this call's.
    Claimed { i: nat, generation: nat },
    /// The payload was copied.
    Copied { i: nat, generation: nat, message: Payload<T> },
    /// The call has returned: a copy of a payload, or nothing.
    Done { handed: Option<Payload<T>> },
}

/// One call of `pop_front`, through the reader with number `reader`.
pub struct Thread<T> {
    pub reader: nat,
    /// How often the reader's cursor had moved when this call last loaded
    /// it.
    pub turn: nat,
    /// Which of the reader's claims this call holds, if it has made one
    /// and not given it up.
    pub ticket: Option<nat>,
    pub at: Reading<T>,
}

/// One successful move of a reader's cursor: the slot that the call claimed
/// and the generation that it had checked there.
pub struct Claim {
    pub slot: nat,
    pub generation: nat,
}

/// One call of `clone` on the reader with number `source`: the cursor it
/// has loaded, and whether it has loaded the mark too and returned.
pub struct Cloning {
    pub source: nat,
    pub index: nat,
    pub done: bool,
}

/// Memory, handles and calls in progress at some instant, with the record
/// of every value whose push has begun.
pub struct Machine<T> {
    pub memory: Memory<T>,
    pub guards: nat,
    pub writing: Writing<T>,
    pub readers: Seq<Cursor>,
    pub threads: Seq<Thread<T>>,
    pub clones: Seq<Cloning>,
    pub pushed: Seq<T>,
    /// For each reader, how often its cursor has moved.
    pub turns: Seq<nat>,
    /// For each reader, the claims made through it, oldest first.
    pub claims: Seq<Seq<Claim>>,
    /// Whether some call has moved a cursor that had gone round the ring
    /// and come back since the call loaded it.
    pub recycled: bool,
}

/// One memory access, or the start of a call.
pub enum Move<T> {
    /// `try_lock`: one swap.
    TryLock,
    /// The drop of the guard: one store.
    Unlock,
    /// The writer's next access; where it is idle, the first access of
    /// `push_back` with this value.
    Write(T),
    /// `reader`: one load.
    NewReader,
    /// `clone` of the reader with this number: the load of its cursor.
    CloneReader(nat),
    /// The second access of the `clone` call with this number: the load of
    /// the mark, which makes the new reader.
    FinishClone(nat),
    /// A thread calls `pop_front` through the reader with this number.
    Enter(nat),
    /// The next access of the call with this number.
    Read(nat),
    /// The call with this number has used up its attempts and returns
    /// nothing.
    GiveUp(nat),
}

impl<T> Machine<T> {
    /// A new buffer of `n` slots.
    pub open spec fn start(n: nat) -> Machine<T> {
        Machine {
            memory: Memory {
                locked: false,
                next: 0,
                mark: 0,
                cells: Seq::new(n, |j: int| Cell { seq: 0, payload: Payload::Empty }),
            },
            guards: 0,
            writing: Writing::Idle,
            readers: Seq::empty(),
            threads: Seq::empty(),
            clones: Seq::empty(),
            pushed: Seq::empty(),
            turns: Seq::empty(),
            claims: Seq::empty(),
            recycled: false,
        }
    }

    pub open spec fn capacity(self) -> nat {
        self.memory.cells.len()
    }

    /// The machine after the writer's next access.
    pub open spec fn write(self, value: T) -> Machine<T> {
        let memory = self.memory;
        match self.writing {
            Writing::Idle => if self.guards > 0 {
                let slot = memory.next;
                let cell = memory.cells[slot as int];
                Machine {
                    memory: Memory {
                        cells: memory.cells.update(slot as int, Cell { seq: cell.seq + 1, ..cell }),
                        ..memory
                    },
                    writing: Writing::Began { slot, before: cell.seq, value },
                    pushed: self.pushed.push(value),
                    ..self
                }
            } else {
                self
            },
            Writing::Began { slot, before, value } => Machine {
                memory: Memory { mark: published(memory.mark, before), ..memory },
                writing: Writing::Published { slot, value },
                ..self
            },
            Writing::Published { slot, value } => Machine {
                memory: Memory {
                    cells: memory.cells.update(
                        slot as int,
                        Cell { payload: Payload::Torn, ..memory.cells[slot as int] },
                    ),
                    ..memory
                },
                writing: Writing::Storing { slot, value },
                ..self
            },
            Writing::Storing { slot, value } => Machine {
                memory: Memory {
                    cells: memory.cells.update(
                        slot as int,
                        Cell { payload: Payload::Whole(value), ..memory.cells[slot as int] },
                    ),
                    ..memory
                },
                writing: Writing::Stored { slot },
                ..self
            },
            Writing::Stored { slot } => Machine {
                memory: Memory {
                    cells: memory.cells.update(
                        slot as int,
                        Cell { seq: memory.cells[slot as int].seq + 1, ..memory.cells[slot as int] },
                    ),
                    ..memory
                },
                writing: Writing::Committed { slot },
                ..self
            },
            Writing::Committed { slot } => Machine {
                memory: Memory { next: successor(slot, self.capacity()), ..memory },
                writing: Writing::Idle,
                ..self
            },
        }
    }

    /// The machine after the next access of the call with number `t`.
    pub open spec fn read(self, t: int) -> Machine<T> {
        let thread = self.threads[t];
        let r = thread.reader as int;
        let reader = self.readers[r];
        let cells = self.memory.cells;
        match thread.at {
            Reading::Entered => self.moved_on(
                t,
                Thread { at: Reading::AtCursor { i: reader.index }, turn: self.turns[r], ..thread },
            ),
            Reading::AtCursor { i } => if i >= self.capacity() {
                self.moved_on(t, Thread { at: Reading::Done { handed: None }, ..thread })
            } else {
                self.moved_on(t, Thread { at: Reading::AtMark { i, ver: reader.mark }, ..thread })
            },
            Reading::AtMark { i, ver } => match claimable(cells[i as int].seq, ver, i) {
                Some(generation) => self.moved_on(
                    t,
                    Thread { at: Reading::Checked { i, ver, generation }, ..thread },
                ),
                None => self.moved_on(t, Thread { at: Reading::Done { handed: None }, ..thread }),
            },
            Reading::Checked { i, ver, generation } => if reader.mark == ver {
                Machine {
                    readers: self.readers.update(r, Cursor { mark: generation, ..reader }),
                    ..self.moved_on(t, Thread { at: Reading::Raised { i, generation }, ..thread })
                }
            } else {
                self.moved_on(t, Thread { at: Reading::Done { handed: None }, ..thread })
            },
            Reading::Raised { i, generation } => if reader.index == i {
                Machine {
                    readers: self.readers.update(
                        r,
                        Cursor { index: successor(i, self.capacity()), ..reader },
                    ),
                    turns: self.turns.update(r, self.turns[r] + 1),
                    claims: self.claims.update(
                        r,
                        self.claims[r].push(Claim { slot: i, generation }),
                    ),
                    recycled: self.recycled || thread.turn != self.turns[r],
                    ..self.moved_on(
                        t,
                        Thread {
                            at: Reading::Claimed { i, generation },
                            ticket: Some(self.claims[r].len()),
                            ..thread
                        },
                    )
                }
            } else {
                self.moved_on(
                    t,
                    Thread {
                        at: Reading::AtCursor { i: reader.index },
                        turn: self.turns[r],
                        ..thread
                    },
                )
            },
            Reading::Claimed { i, generation } => self.moved_on(
                t,
                Thread {
                    at: Reading::Copied { i, generation, message: cells[i as int].payload },
                    ..thread
                },
            ),
            Reading::Copied { i, generation, message } => if cells[i as int].seq == generation {
                self.moved_on(t, Thread { at: Reading::Done { handed: Some(message) }, ..thread })
            } else {
                self.moved_on(t, Thread { at: Reading::Entered, ticket: None, ..thread })
            },
            Reading::Done { handed } => self,
        }
    }

    /// The machine in which the call with number `t` stands at `thread`.
    pub open spec fn moved_on(self, t: int, thread: Thread<T>) -> Machine<T> {
        Machine { threads: self.threads.update(t, thread), ..self }
    }

    /// The machine after `m`. A move through a handle or a call that does
    /// not exist changes nothing.
    pub open spec fn step(self, m: Move<T>) -> Machine<T> {
        match m {
            Move::TryLock => if self.memory.locked {
                self
            } else {
                Machine {
                    memory: Memory { locked: true, ..self.memory },
                    guards: self.guards + 1,
                    ..self
                }
            },
            Move::Unlock => if self.guards > 0 && self.writing is Idle {
                Machine {
                    memory: Memory { locked: false, ..self.memory },
                    guards: (self.guards - 1) as nat,
                    ..self
                }
            } else {
                self
            },
            Move::Write(value) => self.write(value),
            Move::NewReader => Machine {
                readers: self.readers.push(Cursor { index: 0, mark: self.memory.mark }),
                turns: self.turns.push(0),
                claims: self.claims.push(Seq::empty()),
                ..self
            },
            Move::CloneReader(r) => if r < self.readers.len() {
                Machine {
                    clones: self.clones.push(
                        Cloning { source: r, index: self.readers[r as int].index, done: false },
                    ),
                    ..self
                }
            } else {
                self
            },
            Move::FinishClone(c) => if c < self.clones.len() && !self.clones[c as int].done {
                let clone = self.clones[c as int];
                Machine {
                    readers: self.readers.push(
                        Cursor { index: clone.index, mark: self.readers[clone.source as int].mark },
                    ),
                    clones: self.clones.update(c as int, Cloning { done: true, ..clone }),
                    turns: self.turns.push(0),
                    claims: self.claims.push(Seq::empty()),
                    ..self
                }
            } else {
                self
            },
            Move::Enter(r) => if r < self.readers.len() {
                Machine {
                    threads: self.threads.push(
                        Thread { reader: r, turn: 0, ticket: None, at: Reading::Entered },
                    ),
                    ..self
                }
            } else {
                self
            },
            Move::Read(t) => if t < self.threads.len() {
                self.read(t as int)
            } else {
                self
            },
            Move::GiveUp(t) => if t < self.threads.len() && !(self.threads[t as int].at is Done) {
                self.moved_on(
                    t as int,
                    Thread { at: Reading::Done { handed: None }, ..self.threads[t as int] },
                )
            } else {
                self
            },
        }
    }
}

/// The machine that the moves `moves` lead to from a new buffer of `n`
/// slots.
pub open spec fn play<T>(n: nat, moves: Seq<Move<T>>) -> Machine<T>
    decreases moves.len(),
{
    if moves.len() == 0 {
        Machine::start(n)
    } else {
        play(n, moves.drop_last()).step(moves.last())
    }
}

impl<T> Writing<T> {
    /// The slot whose sequence word the writer has made odd and not yet
    /// even again.
    pub open spec fn busy_slot(self) -> Option<nat> {
        match self {
            Writing::Began { slot, .. } => Some(slot),
            Writing::Published { slot, .. } => Some(slot),
            Writing::Storing { slot, .. } => Some(slot),
            Writing::Stored { slot } => Some(slot),
            _ => None,
        }
    }

    /// The writer's slot is in range, the value it is writing is on
    /// record, and once stored it is in the slot.
    pub open spec fn steady(self, memory: Memory<T>, pushed: Seq<T>) -> bool {
        match self {
            Writing::Idle => true,
            Writing::Began { slot, before, value } => slot < memory.cells.len()
                && memory.cells[slot as int].seq == before + 1 && pushed.contains(value),
            Writing::Published { slot, value } => slot < memory.cells.len() && pushed.contains(
                value,
            ),
            Writing::Storing { slot, value } => slot < memory.cells.len() && pushed.contains(value),
            Writing::Stored { slot } => slot < memory.cells.len()
                && memory.cells[slot as int].payload is Whole,
            Writing::Committed { slot } => slot < memory.cells.len(),
        }
    }
}

impl<T> Machine<T> {
    /// A slot's sequence word is odd exactly while the writer is inside
    /// its write; its payload is torn only while the writer is halfway
    /// through storing into it, is empty only until its first write is
    /// committed, and is otherwise a pushed value.
    pub open spec fn cell_steady(self, j: int) -> bool {
        let cell = self.memory.cells[j];
        &&& (cell.seq % 2 == 1) == (self.writing.busy_slot() == Some(j as nat))
        &&& cell.payload is Torn ==> (self.writing matches Writing::Storing { slot, .. } && slot
            == j)
        &&& cell.payload matches Payload::Whole(value) ==> self.pushed.contains(value)
        &&& cell.payload is Empty ==> cell.seq <= 1
    }

    /// What a call in progress can rely on: the generation it has checked
    /// is even, that of a committed write, and not beyond the slot's
    /// sequence word; the payload it has copied is still the slot's own
    /// unless the word has moved on; and what it hands back is a pushed
    /// value.
    pub open spec fn thread_steady(self, t: int) -> bool {
        let thread = self.threads[t];
        let cells = self.memory.cells;
        let n = self.capacity();
        &&& thread.reader < self.readers.len()
        &&& match thread.at {
            Reading::AtCursor { i } => i != 0 ==> self.readers[thread.reader as int].mark >= 2,
            Reading::AtMark { i, ver } => i < n && (i != 0 ==> ver >= 2),
            Reading::Checked { i, ver, generation } => i < n && generation % 2 == 0 && 2
                <= generation <= cells[i as int].seq && ver <= generation,
            Reading::Raised { i, generation } => i < n && generation % 2 == 0 && 2 <= generation
                <= cells[i as int].seq && self.readers[thread.reader as int].mark >= 2,
            Reading::Claimed { i, generation } => i < n && generation % 2 == 0 && 2 <= generation
                <= cells[i as int].seq,
            Reading::Copied { i, generation, message } => i < n && generation % 2 == 0 && 2
                <= generation <= cells[i as int].seq && (cells[i as int].seq == generation
                ==> message == cells[i as int].payload),
            Reading::Done { handed: Some(message) } => message matches Payload::Whole(value)
                && self.pushed.contains(value),
            _ => true,
        }
    }

    /// What holds of the machine at every instant.
    pub open spec fn steady(self) -> bool {
        &&& self.capacity() >= 1
        &&& self.memory.next < self.capacity()
        &&& self.guards <= 1
        &&& (self.guards == 1) == self.memory.locked
        &&& !(self.writing is Idle) ==> self.guards == 1
        &&& self.writing.steady(self.memory, self.pushed)
        &&& forall|j: int| 0 <= j < self.memory.cells.len() ==> #[trigger] self.cell_steady(j)
        &&& forall|r: int| 0 <= r < self.readers.len() ==> #[trigger] self.reader_steady(r)
        &&& forall|t: int| 0 <= t < self.threads.len() ==> #[trigger] self.thread_steady(t)
        &&& forall|c: int| 0 <= c < self.clones.len() ==> #[trigger] self.clone_steady(c)
    }

    /// A `clone` in progress has loaded a cursor that is in range, and if
    /// the cursor had left the first slot, the mark it is about to load
    /// is that of a reader that has taken a message.
    pub open spec fn clone_steady(self, c: int) -> bool {
        let clone = self.clones[c];
        &&& clone.source < self.readers.len()
        &&& clone.index < self.capacity()
        &&& clone.index != 0 ==> self.readers[clone.source as int].mark >= 2
    }

    /// A reader's cursor is in range, and it has left the first slot only
    /// after taking a message.
    pub open spec fn reader_steady(self, r: int) -> bool {
        &&& self.readers[r].index < self.capacity()
        &&& self.readers[r].index != 0 ==> self.readers[r].mark >= 2
    }
}

proof fn lemma_write_keeps_steady<T>(machine: Machine<T>, value: T)
    requires
        machine.steady(),
    ensures
        machine.write(value).steady(),
        machine.write(value).capacity() == machine.capacity(),
{
    let after = machine.write(value);
    crate::model::lemma_record_grows(machine.pushed, value);
    assert forall|j: int| 0 <= j < after.memory.cells.len() implies #[trigger] after.cell_steady(
        j,
    ) by {
        assert(machine.cell_steady(j));
    }
    assert forall|t: int| 0 <= t < after.threads.len() implies #[trigger] after.thread_steady(
        t,
    ) by {
        assert(machine.thread_steady(t));
        match machine.threads[t].at {
            Reading::Checked { i, .. } => {
                assert(machine.cell_steady(i as int));
            },
            Reading::Raised { i, .. } => {
                assert(machine.cell_steady(i as int));
            },
            Reading::Claimed { i, .. } => {
                assert(machine.cell_steady(i as int));
            },
            Reading::Copied { i, .. } => {
                assert(machine.cell_steady(i as int));
            },
            _ => {},
        }
    }
    assert forall|r: int| 0 <= r < after.readers.len() implies #[trigger] after.reader_steady(
        r,
    ) by {
        assert(machine.reader_steady(r));
    }
    assert forall|c: int| 0 <= c < after.clones.len() implies #[trigger] after.clone_steady(c) by {
        assert(machine.clone_steady(c));
    }
}

proof fn lemma_read_keeps_steady<T>(machine: Machine<T>, t: int)
    requires
        machine.steady(),
        0 <= t < machine.threads.len(),
    ensures
        machine.read(t).steady(),
        machine.read(t).capacity() == machine.capacity(),
{
    let after = machine.read(t);
    let thread = machine.threads[t];
    let r = thread.reader as int;
    assert(machine.thread_steady(t));
    assert(machine.reader_steady(r));
    assert forall|j: int| 0 <= j < after.memory.cells.len() implies #[trigger] after.cell_steady(
        j,
    ) by {
        assert(machine.cell_steady(j));
    }
    assert forall|other: int| 0 <= other < after.readers.len() implies #[trigger] after.reader_steady(
        other,
    ) by {
        assert(machine.reader_steady(other));
    }
    assert forall|c: int| 0 <= c < after.clones.len() implies #[trigger] after.clone_steady(c) by {
        assert(machine.clone_steady(c));
    }
    assert forall|other: int| 0 <= other < after.threads.len() implies #[trigger] after.thread_steady(
        other,
    ) by {
        assert(machine.thread_steady(other));
        assert(machine.reader_steady(machine.threads[other].reader as int));
        if other == t {
            match thread.at {
                Reading::AtMark { i, .. } => {
                    assert(machine.cell_steady(i as int));
                },
                Reading::Copied { i, .. } => {
                    assert(machine.cell_steady(i as int));
                },
                _ => {},
            }
        }
    }
}

/// A move leads from a steady machine to a steady machine.
pub proof fn lemma_step_keeps_steady<T>(machine: Machine<T>, m: Move<T>)
    requires
        machine.steady(),
    ensures
        machine.step(m).steady(),
        machine.step(m).capacity() == machine.capacity(),
{
    let after = machine.step(m);
    match m {
        Move::Write(value) => {
            lemma_write_keeps_steady(machine, value);
        },
        Move::Read(t) => {
            if t < machine.threads.len() {
                lemma_read_keeps_steady(machine, t as int);
            }
        },
        _ => {
            assert forall|j: int| 0 <= j < after.memory.cells.len() implies #[trigger] after.cell_steady(
                j,
            ) by {
                assert(machine.cell_steady(j));
            }
            assert forall|r: int| 0 <= r < after.readers.len() implies #[trigger] after.reader_steady(
                r,
            ) by {
                if r < machine.readers.len() {
                    assert(machine.reader_steady(r));
                }
                if let Move::FinishClone(c) = m {
                    if c < machine.clones.len() {
                        assert(machine.clone_steady(c as int));
                    }
                }
            }
            assert forall|c: int| 0 <= c < after.clones.len() implies #[trigger] after.clone_steady(
                c,
            ) by {
                if c < machine.clones.len() {
                    assert(machine.clone_steady(c));
                }
                if let Move::CloneReader(source) = m {
                    if source < machine.readers.len() {
                        assert(machine.reader_steady(source as int));
                    }
                }
            }
            assert forall|t: int| 0 <= t < after.threads.len() implies #[trigger] after.thread_steady(
                t,
            ) by {
                if t < machine.threads.len() {
                    assert(machine.thread_steady(t));
                }
            }
        },
    }
}

/// Whatever the interleaving, the machine is steady.
pub proof fn lemma_machine_is_steady<T>(n: nat, moves: Seq<Move<T>>)
    requires
        n >= 1,
    ensures
        play(n, moves).steady(),
        play(n, moves).capacity() == n,
    decreases moves.len(),
{
    if moves.len() == 0 {
        let machine = Machine::<T>::start(n);
        assert forall|j: int| 0 <= j < machine.memory.cells.len() implies #[trigger] machine.cell_steady(
            j,
        ) by {}
    } else {
        lemma_machine_is_steady(n, moves.drop_last());
        lemma_step_keeps_steady(play(n, moves.drop_last()), moves.last());
    }
}

/// Every value on record was the argument of a write move.
pub proof fn lemma_recorded_was_written<T>(n: nat, moves: Seq<Move<T>>, at: int)
    requires
        0 <= at < play(n, moves).pushed.len(),
    ensures
        exists|k: int| 0 <= k < moves.len() && moves[k] == Move::Write(play(n, moves).pushed[at]),
    decreases moves.len(),
{
    if moves.len() > 0 {
        let before = play(n, moves.drop_last());
        if at < before.pushed.len() {
            lemma_recorded_was_written(n, moves.drop_last(), at);
            let k = choose|k: int|
                0 <= k < moves.drop_last().len() && moves.drop_last()[k] == Move::Write(
                    before.pushed[at],
                );
            assert(moves[k] == Move::Write(play(n, moves).pushed[at]));
        } else {
            assert(moves[moves.len() - 1] == Move::Write(play(n, moves).pushed[at]));
        }
    }
}

/// No torn read: whatever the interleaving, a `pop_front` that hands a
/// message back hands back the whole of one value, and that value is the
/// argument of a `push_back`. It is never a mixture of two writes, and
/// never the content of a slot that was not written yet.
pub proof fn lemma_no_torn_read<T>(n: nat, moves: Seq<Move<T>>, t: int)
    requires
        n >= 1,
        0 <= t < play(n, moves).threads.len(),
        play(n, moves).threads[t].at matches Reading::Done { handed: Some(_) },
    ensures
        play(n, moves).threads[t].at matches Reading::Done { handed: Some(Payload::Whole(value)) }
            && exists|k: int| 0 <= k < moves.len() && moves[k] == Move::Write(value),
{
    lemma_machine_is_steady(n, moves);
    let machine = play(n, moves);
    assert(machine.thread_steady(t));
    if let Reading::Done { handed: Some(Payload::Whole(value)) } = machine.threads[t].at {
        let at = choose|at: int| 0 <= at < machine.pushed.len() && machine.pushed[at] == value;
        lemma_recorded_was_written(n, moves, at);
    }
}

/// One writer at a time: whatever the interleaving, at most one guard is
/// live, a `push_back` is in progress only under a live guard, and while
/// a guard is live a `try_lock` changes nothing.
pub proof fn lemma_one_guard<T>(n: nat, moves: Seq<Move<T>>)
    requires
        n >= 1,
    ensures
        play(n, moves).guards <= 1,
        !(play(n, moves).writing is Idle) ==> play(n, moves).guards == 1,
        play(n, moves).guards == 1 ==> play(n, moves).step(Move::TryLock) == play(n, moves),
        play(n, moves).guards == 0 ==> play(n, moves).step(Move::TryLock).guards == 1,
{
    lemma_machine_is_steady(n, moves);
}

/// A move of a steady machine lowers no mark and removes no reader.
pub proof fn lemma_move_keeps_marks<T>(machine: Machine<T>, m: Move<T>)
    requires
        machine.steady(),
    ensures
        machine.step(m).memory.mark >= machine.memory.mark,
        machine.step(m).readers.len() >= machine.readers.len(),
        forall|r: int|
            0 <= r < machine.readers.len() ==> (#[trigger] machine.step(m).readers[r]).mark
                >= machine.readers[r].mark,
{
    if let Move::Read(t) = m {
        if t < machine.threads.len() {
            assert(machine.thread_steady(t as int));
        }
    }
}

/// Marks never fall: whatever the interleaving, between any earlier
/// instant and the last one neither the buffer's mark nor the mark of any
/// reader has decreased.
pub proof fn lemma_marks_never_fall<T>(n: nat, moves: Seq<Move<T>>, earlier: int)
    requires
        n >= 1,
        0 <= earlier <= moves.len(),
    ensures
        play(n, moves.take(earlier)).memory.mark <= play(n, moves).memory.mark,
        play(n, moves.take(earlier)).readers.len() <= play(n, moves).readers.len(),
        forall|r: int|
            0 <= r < play(n, moves.take(earlier)).readers.len() ==> play(
                n,
                moves.take(earlier),
            ).readers[r].mark <= (#[trigger] play(n, moves).readers[r]).mark,
    decreases moves.len(),
{
    if earlier == moves.len() {
        assert(moves.take(earlier) =~= moves);
    } else {
        assert(moves.drop_last().take(earlier) =~= moves.take(earlier));
        lemma_marks_never_fall(n, moves.drop_last(), earlier);
        lemma_machine_is_steady(n, moves.drop_last());
        lemma_move_keeps_marks(play(n, moves.drop_last()), moves.last());
    }
}

impl<T> Memory<T> {
    /// The buffer as it counts between two calls: a payload that is not
    /// whole counts as none.
    pub open spec fn settled(self) -> Ring<T> {
        Ring {
            locked: self.locked,
            next: self.next,
            mark: self.mark,
            slots: Seq::new(
                self.cells.len(),
                |j: int|
                    Slot {
                        seq: self.cells[j].seq,
                        payload: match self.cells[j].payload {
                            Payload::Whole(value) => Some(value),
                            _ => None,
                        },
                    },
            ),
        }
    }
}

/// A `push_back` that no other access interrupts is one push of the ring:
/// its six accesses leave memory as `Ring::push` says, and nothing else
/// has changed but the record.
pub proof fn lemma_push_alone<T>(machine: Machine<T>, value: T)
    requires
        machine.steady(),
        machine.writing is Idle,
        machine.guards == 1,
    ensures
        ({
            let done = machine.write(value).write(value).write(value).write(value).write(
                value,
            ).write(value);
            &&& done.writing is Idle
            &&& done.memory.settled() == machine.memory.settled().push(value)
            &&& done.pushed == machine.pushed.push(value)
            &&& done.readers == machine.readers
            &&& done.threads == machine.threads
            &&& done.clones == machine.clones
            &&& done.guards == machine.guards
            &&& done.claims == machine.claims
        }),
{
    let slot = machine.memory.next;
    assert(machine.cell_steady(slot as int));
    let began = machine.write(value);
    let published = began.write(value);
    let storing = published.write(value);
    let stored = storing.write(value);
    let committed = stored.write(value);
    let done = committed.write(value);
    assert(began.writing is Began);
    assert(published.writing is Published);
    assert(storing.writing is Storing);
    assert(stored.writing is Stored);
    assert(committed.writing is Committed);
    assert(done.memory.settled().slots =~= machine.memory.settled().push(value).slots);
}

/// A `pop_front` that no other access interrupts is one pop of the ring:
/// after at most seven accesses the call has returned what `Ring::pop`
/// says, and has left the reader where `Ring::pop` says.
pub proof fn lemma_pop_alone<T>(machine: Machine<T>, r: nat)
    requires
        machine.steady(),
        r < machine.readers.len(),
    ensures
        ({
            let t = machine.threads.len() as int;
            let done = machine.step(Move::Enter(r)).read(t).read(t).read(t).read(t).read(t).read(
                t,
            ).read(t);
            let (cursor, taken) = machine.memory.settled().pop(machine.readers[r as int]);
            &&& done.threads[t].at == Reading::<T>::Done {
                handed: match taken {
                    Some(value) => Some(Payload::Whole(value)),
                    None => None,
                },
            }
            &&& done.readers == machine.readers.update(r as int, cursor)
            &&& done.memory == machine.memory
            &&& done.recycled == machine.recycled
        }),
{
    let t = machine.threads.len() as int;
    let reader = machine.readers[r as int];
    let entered = machine.step(Move::Enter(r));
    let first = entered.read(t);
    let second = first.read(t);
    let third = second.read(t);
    let fourth = third.read(t);
    let fifth = fourth.read(t);
    let sixth = fifth.read(t);
    let done = sixth.read(t);
    assert(machine.reader_steady(r as int));
    assert(machine.cell_steady(reader.index as int));
    assert(first.threads[t].at == Reading::<T>::AtCursor { i: reader.index });
    assert(second.threads[t].at == Reading::<T>::AtMark { i: reader.index, ver: reader.mark });
    assert(first.readers =~= machine.readers);
    assert(second.readers =~= machine.readers);
    assert(third.readers =~= machine.readers);
    let seq = machine.memory.cells[reader.index as int].seq;
    match claimable(seq, reader.mark, reader.index) {
        Some(generation) => {
            assert(third.threads[t].at == Reading::<T>::Checked {
                i: reader.index,
                ver: reader.mark,
                generation,
            });
            assert(fourth.threads[t].at == Reading::<T>::Raised { i: reader.index, generation });
            assert(fourth.readers[r as int] == Cursor { mark: generation, ..reader });
            assert(fifth.threads[t].at == Reading::<T>::Claimed { i: reader.index, generation });
            assert(fifth.readers[r as int] == Cursor {
                index: successor(reader.index, machine.capacity()),
                mark: generation,
            });
            assert(sixth.threads[t].at == Reading::<T>::Copied {
                i: reader.index,
                generation,
                message: machine.memory.cells[reader.index as int].payload,
            });
            assert(sixth.readers =~= fifth.readers);
            assert(done.readers =~= fifth.readers);
            assert(done.readers =~= machine.readers.update(
                r as int,
                machine.memory.settled().pop(reader).0,
            ));
        },
        None => {
            assert(third.threads[t].at == Reading::<T>::Done { handed: None });
            assert(fourth.threads[t].at == Reading::<T>::Done { handed: None });
            assert(fifth.threads[t].at == Reading::<T>::Done { handed: None });
            assert(sixth.threads[t].at == Reading::<T>::Done { handed: None });
            assert(fourth.readers =~= machine.readers);
            assert(fifth.readers =~= machine.readers);
            assert(sixth.readers =~= machine.readers);
            assert(done.readers =~= machine.readers.update(r as int, reader));
        },
    }
}

impl Claim {
    /// Whether a reader in state `cursor` is past this claim: nothing that
    /// is claimed through it in turn from now on can be of the same write.
    pub open spec fn behind(self, cursor: Cursor) -> bool {
        self.generation < cursor.mark || (self.generation == cursor.mark && (cursor.index == 0
            || self.slot < cursor.index))
    }

    /// Whether a call that stands at slot `i` and is about to claim
    /// `generation` there is past this claim.
    pub open spec fn below(self, i: nat, generation: nat) -> bool {
        self.generation <= generation && ((i == 0 || self.slot == i) ==> self.generation
            < generation)
    }
}

impl<T> Machine<T> {
    /// The reader is past every claim in its log, and no write is in the
    /// log twice.
    pub open spec fn reader_orderly(self, r: int) -> bool {
        let log = self.claims[r];
        &&& forall|k: int| 0 <= k < log.len() ==> (#[trigger] log[k]).behind(self.readers[r])
        &&& forall|a: int, b: int|
            0 <= a < b < log.len() ==> #[trigger] log[a] != #[trigger] log[b]
    }

    /// A call holds the claim that its ticket names, and while the cursor
    /// has not moved since the call loaded it, what the call is about to
    /// claim lies beyond every claim in the log.
    pub open spec fn thread_orderly(self, t: int) -> bool {
        let thread = self.threads[t];
        let r = thread.reader as int;
        let log = self.claims[r];
        let reader = self.readers[r];
        &&& thread.turn <= self.turns[r]
        &&& thread.ticket matches Some(k) ==> k < log.len()
        &&& match thread.at {
            Reading::Raised { generation, .. } => reader.mark >= generation,
            Reading::Claimed { i, generation } => thread.ticket matches Some(k) && log[k as int]
                == (Claim { slot: i, generation }),
            Reading::Copied { i, generation, .. } => thread.ticket matches Some(k) && log[k as int]
                == (Claim { slot: i, generation }),
            Reading::Done { handed: Some(_) } => thread.ticket is Some,
            _ => true,
        }
        &&& thread.turn == self.turns[r] ==> match thread.at {
            Reading::AtCursor { i } => i == reader.index,
            Reading::AtMark { i, ver } => i == reader.index && forall|k: int|
                0 <= k < log.len() ==> (#[trigger] log[k]).generation <= ver && (log[k].slot == i
                    && i != 0 ==> log[k].generation < ver),
            Reading::Checked { i, generation, .. } => i == reader.index && forall|k: int|
                0 <= k < log.len() ==> (#[trigger] log[k]).below(i, generation),
            Reading::Raised { i, generation } => i == reader.index && forall|k: int|
                0 <= k < log.len() ==> (#[trigger] log[k]).below(i, generation),
            _ => true,
        }
    }

    /// Every reader has its count of turns and its log, and as long as no
    /// cursor was recycled, readers and calls are orderly and no two calls
    /// hold the same claim.
    pub open spec fn orderly(self) -> bool {
        &&& self.turns.len() == self.readers.len()
        &&& self.claims.len() == self.readers.len()
        &&& !self.recycled ==> {
            &&& forall|r: int| 0 <= r < self.readers.len() ==> #[trigger] self.reader_orderly(r)
            &&& forall|t: int| 0 <= t < self.threads.len() ==> #[trigger] self.thread_orderly(t)
            &&& forall|t: int, u: int|
                0 <= t < u < self.threads.len() && (#[trigger] self.threads[t]).reader == (
                #[trigger] self.threads[u]).reader && self.threads[t].ticket is Some
                    ==> self.threads[t].ticket != self.threads[u].ticket
        }
    }
}

proof fn lemma_read_keeps_orderly<T>(machine: Machine<T>, t: int)
    requires
        machine.steady(),
        machine.orderly(),
        0 <= t < machine.threads.len(),
    ensures
        machine.read(t).orderly(),
{
    let after = machine.read(t);
    let thread = machine.threads[t];
    let r = thread.reader as int;
    let reader = machine.readers[r];
    let log = machine.claims[r];
    assert(machine.thread_steady(t));
    if !after.recycled {
        assert(machine.thread_orderly(t));
        assert(machine.reader_orderly(r));
        assert forall|other: int| 0 <= other < after.readers.len() implies #[trigger] after.reader_orderly(
            other,
        ) by {
            assert(machine.reader_orderly(other));
            if other == r {
                let new_log = after.claims[r];
                assert forall|k: int| 0 <= k < new_log.len() implies (#[trigger] new_log[k]).behind(
                    after.readers[r],
                ) by {
                    if k < log.len() {
                        assert(log[k].behind(reader));
                        if thread.at is Raised && thread.at->Raised_i == reader.index {
                            assert(log[k].below(thread.at->Raised_i, thread.at->Raised_generation));
                        }
                    }
                }
                assert forall|a: int, b: int| 0 <= a < b < new_log.len() implies #[trigger] new_log[a]
                    != #[trigger] new_log[b] by {
                    if b < log.len() {
                        assert(log[a] != log[b]);
                    } else if thread.at is Raised && thread.at->Raised_i == reader.index {
                        assert(log[a].below(thread.at->Raised_i, thread.at->Raised_generation));
                    }
                }
            }
        }
        assert forall|other: int| 0 <= other < after.threads.len() implies #[trigger] after.thread_orderly(
            other,
        ) by {
            assert(machine.thread_orderly(other));
            assert(machine.thread_steady(other));
            let peer = machine.threads[other];
            if other == t {
                let new_log = after.claims[r];
                match thread.at {
                    Reading::AtCursor { i } => {
                        if i < machine.capacity() && thread.turn == machine.turns[r] {
                            assert forall|k: int| 0 <= k < new_log.len() implies (
                            #[trigger] new_log[k]).generation <= reader.mark && (new_log[k].slot
                                == i && i != 0 ==> new_log[k].generation < reader.mark) by {
                                assert(log[k].behind(reader));
                            }
                        }
                    },
                    Reading::AtMark { i, ver } => {
                        if thread.turn == machine.turns[r] {
                            if let Some(generation) = claimable(
                                machine.memory.cells[i as int].seq,
                                ver,
                                i,
                            ) {
                                assert forall|k: int| 0 <= k < new_log.len() implies (
                                #[trigger] new_log[k]).below(i, generation) by {
                                    assert(log[k].generation <= ver);
                                }
                            }
                        }
                    },
                    _ => {},
                }
            } else if peer.reader == thread.reader {
                if peer.turn == after.turns[r] {
                    match peer.at {
                        Reading::AtMark { .. } => {
                            assert(after.claims[r] == log);
                        },
                        Reading::Checked { .. } => {
                            assert(after.claims[r] == log);
                        },
                        Reading::Raised { .. } => {
                            assert(after.claims[r] == log);
                        },
                        _ => {},
                    }
                }
            }
        }
        assert forall|a: int, b: int|
            0 <= a < b < after.threads.len() && (#[trigger] after.threads[a]).reader == (
            #[trigger] after.threads[b]).reader && after.threads[a].ticket is Some implies after.threads[a].ticket
            != after.threads[b].ticket by {
            assert(machine.thread_orderly(a));
            assert(machine.thread_orderly(b));
            if a != t && b != t {
                assert(machine.threads[a].ticket != machine.threads[b].ticket);
            }
        }
    }
}

/// A move leads from an orderly machine to an orderly machine.
pub proof fn lemma_step_keeps_orderly<T>(machine: Machine<T>, m: Move<T>)
    requires
        machine.steady(),
        machine.orderly(),
    ensures
        machine.step(m).orderly(),
{
    let after = machine.step(m);
    match m {
        Move::Read(t) => {
            if t < machine.threads.len() {
                lemma_read_keeps_orderly(machine, t as int);
            }
        },
        _ => {
            if !after.recycled {
                assert forall|r: int| 0 <= r < after.readers.len() implies #[trigger] after.reader_orderly(
                    r,
                ) by {
                    if r < machine.readers.len() {
                        assert(machine.reader_orderly(r));
                    }
                }
                assert forall|t: int| 0 <= t < after.threads.len() implies #[trigger] after.thread_orderly(
                    t,
                ) by {
                    if t < machine.threads.len() {
                        assert(machine.thread_orderly(t));
                        assert(machine.thread_steady(t));
                    }
                }
                assert forall|a: int, b: int|
                    0 <= a < b < after.threads.len() && (#[trigger] after.threads[a]).reader == (
                    #[trigger] after.threads[b]).reader && after.threads[a].ticket is Some implies after.threads[a].ticket
                    != after.threads[b].ticket by {
                    if b < machine.threads.len() {
                        assert(machine.threads[a].ticket != machine.threads[b].ticket);
                    }
                }
            }
        },
    }
}

/// Whatever the interleaving, the machine is orderly.
pub proof fn lemma_machine_is_orderly<T>(n: nat, moves: Seq<Move<T>>)
    requires
        n >= 1,
    ensures
        play(n, moves).orderly(),
    decreases moves.len(),
{
    if moves.len() > 0 {
        lemma_machine_is_orderly(n, moves.drop_last());
        lemma_machine_is_steady(n, moves.drop_last());
        lemma_step_keeps_orderly(play(n, moves.drop_last()), moves.last());
    }
}

/// No message twice through one reader: whatever the interleaving, as
/// long as no call has moved a cursor that was recycled under it, two calls
/// through one reader that both hand back a message hold two claims, and
/// the two are of different writes.
pub proof fn lemma_no_repeat_unless_recycled<T>(
    n: nat,
    moves: Seq<Move<T>>,
    first: int,
    second: int,
)
    requires
        n >= 1,
        !play(n, moves).recycled,
        0 <= first < play(n, moves).threads.len(),
        0 <= second < play(n, moves).threads.len(),
        first != second,
        play(n, moves).threads[first].reader == play(n, moves).threads[second].reader,
        play(n, moves).threads[first].at matches Reading::Done { handed: Some(_) },
        play(n, moves).threads[second].at matches Reading::Done { handed: Some(_) },
    ensures
        ({
            let machine = play(n, moves);
            let log = machine.claims[machine.threads[first].reader as int];
            &&& machine.threads[first].ticket matches Some(a) && a < log.len()
            &&& machine.threads[second].ticket matches Some(b) && b < log.len()
            &&& log[machine.threads[first].ticket->0 as int] != log[machine.threads[second].ticket->0 as int]
        }),
{
    lemma_machine_is_steady(n, moves);
    lemma_machine_is_orderly(n, moves);
    let machine = play(n, moves);
    let r = machine.threads[first].reader as int;
    assert(machine.thread_steady(first));
    assert(machine.thread_orderly(first));
    assert(machine.thread_orderly(second));
    assert(machine.reader_orderly(r));
    let a = machine.threads[first].ticket->0 as int;
    let b = machine.threads[second].ticket->0 as int;
    if first < second {
        assert(machine.threads[first].ticket != machine.threads[second].ticket);
    } else {
        assert(machine.threads[second].ticket != machine.threads[first].ticket);
    }
    if a < b {
        assert(machine.claims[r][a] != machine.claims[r][b]);
    } else {
        assert(machine.claims[r][b] != machine.claims[r][a]);
    }
}

/// What one access brought back from memory.
pub enum Seen<T> {
    /// The word that a load found.
    Word(nat),
    /// The outcome of a compare-and-swap: whether it stored, and the word
    /// that it found.
    Swapped { done: bool, found: nat },
    /// The payload that a copy found.
    Message(Payload<T>),
}

impl<T> Reading<T> {
    /// Whether the slot that the call is working on is a slot of a ring of
    /// `n` slots.
    pub open spec fn within(self, n: nat) -> bool {
        match self {
            Reading::AtMark { i, .. } => i < n,
            Reading::Checked { i, .. } => i < n,
            Reading::Raised { i, .. } => i < n,
            Reading::Claimed { i, .. } => i < n,
            Reading::Copied { i, .. } => i < n,
            _ => true,
        }
    }

    /// Where a call stands after the access that it was about to make has
    /// brought back `seen`. This is all that a call decides: the rest is
    /// what memory holds when the access is made.
    pub open spec fn after(self, n: nat, seen: Seen<T>) -> Reading<T> {
        match (self, seen) {
            (Reading::Entered, Seen::Word(i)) => Reading::AtCursor { i },
            (Reading::AtCursor { i }, Seen::Word(ver)) => if i >= n {
                Reading::Done { handed: None }
            } else {
                Reading::AtMark { i, ver }
            },
            (Reading::AtMark { i, ver }, Seen::Word(seq)) => match claimable(seq, ver, i) {
                Some(generation) => Reading::Checked { i, ver, generation },
                None => Reading::Done { handed: None },
            },
            (Reading::Checked { i, generation, .. }, Seen::Swapped { done, .. }) => if done {
                Reading::Raised { i, generation }
            } else {
                Reading::Done { handed: None }
            },
            (Reading::Raised { i, generation }, Seen::Swapped { done, found }) => if done {
                Reading::Claimed { i, generation }
            } else {
                Reading::AtCursor { i: found }
            },
            (Reading::Claimed { i, generation }, Seen::Message(message)) => Reading::Copied {
                i,
                generation,
                message,
            },
            (Reading::Copied { generation, message, .. }, Seen::Word(seq)) => if seq
                == generation {
                Reading::Done { handed: Some(message) }
            } else {
                Reading::Entered
            },
            _ => self,
        }
    }
}

impl<T> Machine<T> {
    /// What memory brings back for the next access of the call with
    /// number `t`.
    pub open spec fn brings(self, t: int) -> Seen<T> {
        let thread = self.threads[t];
        let reader = self.readers[thread.reader as int];
        let cells = self.memory.cells;
        match thread.at {
            Reading::Entered => Seen::Word(reader.index),
            Reading::AtCursor { .. } => Seen::Word(reader.mark),
            Reading::AtMark { i, .. } => Seen::Word(cells[i as int].seq),
            Reading::Checked { ver, .. } => Seen::Swapped {
                done: reader.mark == ver,
                found: reader.mark,
            },
            Reading::Raised { i, .. } => Seen::Swapped {
                done: reader.index == i,
                found: reader.index,
            },
            Reading::Claimed { i, .. } => Seen::Message(cells[i as int].payload),
            Reading::Copied { i, .. } => Seen::Word(cells[i as int].seq),
            Reading::Done { .. } => Seen::Word(0),
        }
    }
}

/// A call in the machine goes from stage to stage as `Reading::after`
/// says, on what memory brings back at that instant.
pub proof fn lemma_read_follows_call<T>(machine: Machine<T>, t: int)
    requires
        0 <= t < machine.threads.len(),
    ensures
        machine.read(t).threads[t].at == machine.threads[t].at.after(
            machine.capacity(),
            machine.brings(t),
        ),
        machine.read(t).threads[t].reader == machine.threads[t].reader,
{
}

/// The stage that a call has reached after its accesses have brought back
/// `seen`, one after the other, in a ring of `n` slots.
pub open spec fn through<T>(n: nat, seen: Seq<Seen<T>>) -> Reading<T>
    decreases seen.len(),
{
    if seen.len() == 0 {
        Reading::Entered
    } else {
        through(n, seen.drop_last()).after(n, seen.last())
    }
}

/// One access more takes the call one stage further.
pub proof fn lemma_through_on<T>(n: nat, seen: Seq<Seen<T>>, next: Seen<T>)
    ensures
        through(n, seen.push(next)) == through(n, seen).after(n, next),
{
    assert(seen.push(next).drop_last() =~= seen);
}

/// Whatever its accesses bring back, a call works on a slot of the ring,
/// and it only ever raises a mark: the generation that it is about to
/// store into the reader's mark is even and not below the mark that it
/// loaded.
pub proof fn lemma_call_only_raises<T>(n: nat, seen: Seq<Seen<T>>)
    ensures
        through(n, seen).within(n),
        through(n, seen) matches Reading::Checked { ver, generation, .. } ==> ver <= generation
            && generation % 2 == 0,
    decreases seen.len(),
{
    if seen.len() > 0 {
        lemma_call_only_raises(n, seen.drop_last());
    }
}

/// Whatever its accesses bring back, what a call hands to its caller is a
/// payload that it copied from a slot in whose sequence word it had found
/// an even generation, and in which it found that same word again after
/// the copy: the access with number `confirmed` is that second look.
pub proof fn lemma_call_confirms<T>(n: nat, seen: Seq<Seen<T>>) -> (confirmed: int)
    requires
        through(n, seen) matches Reading::Done { handed: Some(_) },
    ensures
        0 <= confirmed < seen.len(),
        through(n, seen.take(confirmed)) matches Reading::Copied { generation, message, .. }
            && generation % 2 == 0 && seen[confirmed] == Seen::<T>::Word(generation) && through(
            n,
            seen,
        ) == (Reading::Done { handed: Some(message) }),
    decreases seen.len(),
{
    let shorter = seen.drop_last();
    if through(n, shorter) is Done {
        let confirmed = lemma_call_confirms(n, shorter);
        assert(shorter.take(confirmed) =~= seen.take(confirmed));
        confirmed
    } else {
        lemma_copy_is_checked(n, shorter);
        assert(seen.take(seen.len() - 1) =~= shorter);
        seen.len() - 1
    }
}

proof fn lemma_copy_is_checked<T>(n: nat, seen: Seq<Seen<T>>)
    ensures
        through(n, seen) matches Reading::Raised { generation, .. } ==> generation % 2 == 0,
        through(n, seen) matches Reading::Claimed { generation, .. } ==> generation % 2 == 0,
        through(n, seen) matches Reading::Copied { generation, .. } ==> generation % 2 == 0,
    decreases seen.len(),
{
    if seen.len() > 0 {
        lemma_copy_is_checked(n, seen.drop_last());
        lemma_call_only_raises(n, seen.drop_last());
    }
}

/// Every call in the machine is at the stage that its own accesses have
/// brought it to, unless it has given up.
pub proof fn lemma_calls_follow<T>(n: nat, moves: Seq<Move<T>>, t: int)
    requires
        n >= 1,
        0 <= t < play(n, moves).threads.len(),
    ensures
        play(n, moves).threads[t].at == (Reading::<T>::Done { handed: None }) || exists|
            seen: Seq<Seen<T>>,
        | play(n, moves).threads[t].at == #[trigger] through(n, seen),
    decreases moves.len(),
{
    let machine = play(n, moves);
    if moves.len() > 0 {
        let before = play(n, moves.drop_last());
        let m = moves.last();
        lemma_machine_is_steady(n, moves.drop_last());
        lemma_machine_is_steady(n, moves);
        if t < before.threads.len() {
            lemma_calls_follow(n, moves.drop_last(), t);
            if before.threads[t].at != (Reading::<T>::Done { handed: None }) {
                let seen = choose|seen: Seq<Seen<T>>|
                    before.threads[t].at == #[trigger] through(n, seen);
                if m == Move::<T>::Read(t as nat) {
                    lemma_read_follows_call(before, t);
                    lemma_through_on(n, seen, before.brings(t));
                    assert(machine.threads[t].at == through(n, seen.push(before.brings(t))));
                } else if m == Move::<T>::GiveUp(t as nat) {
                } else {
                    lemma_others_leave_call(before, m, t);
                    assert(machine.threads[t].at == through(n, seen));
                }
            } else {
                lemma_done_stays(before, m, t);
            }
        } else {
            assert(machine.threads[t].at == through::<T>(n, Seq::empty()));
        }
    }
}

proof fn lemma_others_leave_call<T>(machine: Machine<T>, m: Move<T>, t: int)
    requires
        0 <= t < machine.threads.len(),
        m != Move::<T>::Read(t as nat),
        m != Move::<T>::GiveUp(t as nat),
    ensures
        machine.step(m).threads[t].at == machine.threads[t].at,
{
}

proof fn lemma_done_stays<T>(machine: Machine<T>, m: Move<T>, t: int)
    requires
        0 <= t < machine.threads.len(),
        machine.threads[t].at == (Reading::<T>::Done { handed: None }),
    ensures
        machine.step(m).threads[t].at == (Reading::<T>::Done { handed: None }),
{
}

} // verus!
