//! The stream of pushed values, and the readers that keep up with it.
//!
//! After `p` pushes the ring holds the last writes of each slot, and a
//! reader that the writer has never lapped is handed the stream in order
//! and without a gap.

use crate::history::run;
use crate::history::Call;
use crate::history::Follower;
use crate::history::World;
use crate::model::Cursor;
use crate::model::Ring;
use crate::protocol::stable;
use vstd::prelude::*;

verus! {

/// How often slot `j` of a ring of `n` slots has been written after `p`
/// pushes.
pub open spec fn writes(p: nat, n: nat, j: nat) -> nat {
    p / n + if j < p % n {
        1nat
    } else {
        0nat
    }
}

/// The ring is what `pushed` makes of an empty ring: the write index and
/// the mark are where that many pushes leave them, and every slot that was
/// written holds the last value that went to it.
pub open spec fn mirrors<T>(ring: Ring<T>, pushed: Seq<T>) -> bool {
    let n = ring.capacity();
    let p = pushed.len();
    &&& n >= 1
    &&& ring.next == p % n
    &&& ring.mark == 2 * writes(p, n, 0)
    &&& forall|j: int|
        0 <= j < n ==> {
            let w = writes(p, n, j as nat);
            &&& (#[trigger] ring.slots[j]).seq == 2 * w
            &&& ring.slots[j].payload == if w == 0 {
                None
            } else {
                Some(pushed[(w - 1) * n + j])
            }
        }
}

proof fn lemma_split(p: nat, n: nat)
    requires
        n >= 1,
    ensures
        p == (p / n) * n + p % n,
        p % n < n,
{
    vstd::arithmetic::div_mod::lemma_fundamental_div_mod(p as int, n as int);
    vstd::arithmetic::div_mod::lemma_mod_bound(p as int, n as int);
    assert((p / n) * n == n * (p / n)) by (nonlinear_arith);
}

proof fn lemma_join(lap: nat, offset: nat, n: nat)
    requires
        offset < n,
    ensures
        (lap * n + offset) / n == lap,
        (lap * n + offset) % n == offset,
{
    vstd::arithmetic::div_mod::lemma_fundamental_div_mod_converse(
        (lap * n + offset) as int,
        n as int,
        lap as int,
        offset as int,
    );
}

proof fn lemma_next_lap(lap: int, n: int)
    ensures
        (lap + 1) * n == lap * n + n,
        (lap - 1) * n == lap * n - n,
{
    assert((lap + 1) * n == lap * n + n) by (nonlinear_arith);
    assert((lap - 1) * n == lap * n - n) by (nonlinear_arith);
}

/// Where one more push leaves the lap count and the write index.
proof fn lemma_count_on(p: nat, n: nat)
    requires
        n >= 1,
    ensures
        p % n + 1 < n ==> (p + 1) / n == p / n && (p + 1) % n == p % n + 1,
        p % n + 1 == n ==> (p + 1) / n == p / n + 1 && (p + 1) % n == 0,
{
    lemma_split(p, n);
    if p % n + 1 < n {
        lemma_join(p / n, (p % n + 1) as nat, n);
    } else {
        lemma_next_lap((p / n) as int, n as int);
        lemma_join(p / n + 1, 0, n);
    }
}

/// An empty ring mirrors the empty stream.
pub proof fn lemma_empty_mirrors<T>(n: nat)
    requires
        n >= 1,
    ensures
        mirrors(Ring::<T>::empty(n), Seq::<T>::empty()),
{
    lemma_join(0, 0, n);
    assert(0nat * n + 0 == 0) by (nonlinear_arith);
}

/// A push keeps the ring in line with the stream.
pub proof fn lemma_push_mirrors<T>(ring: Ring<T>, pushed: Seq<T>, value: T)
    requires
        mirrors(ring, pushed),
    ensures
        mirrors(ring.push(value), pushed.push(value)),
{
    let n = ring.capacity();
    let p = pushed.len();
    let lap = p / n;
    let i = p % n;
    let after = ring.push(value);
    let longer = pushed.push(value);
    lemma_split(p, n);
    lemma_count_on(p, n);
    lemma_next_lap(lap as int, n as int);
    assert(ring.slots[i as int].seq == 2 * writes(p, n, i));
    assert(ring.slots[0].seq == 2 * writes(p, n, 0));
    assert forall|j: int| 0 <= j < n implies {
        let w = writes((p + 1) as nat, n, j as nat);
        &&& (#[trigger] after.slots[j]).seq == 2 * w
        &&& after.slots[j].payload == if w == 0 {
            None
        } else {
            Some(longer[(w - 1) * n + j])
        }
    } by {
        let w = writes((p + 1) as nat, n, j as nat);
        let was = writes(p, n, j as nat);
        assert(ring.slots[j].seq == 2 * was);
        if j == i {
            assert(w == lap + 1);
            assert((w - 1) * n + j == p);
        } else {
            assert(w == was);
            if was > 0 {
                let at = (was - 1) * n + j;
                if j < i {
                    assert(at == lap * n + j);
                } else {
                    assert(at == lap * n - n + j);
                }
                assert(0 <= at < p);
                assert(longer[at] == pushed[at]);
            }
        }
    }
}

/// After any history the ring mirrors the record of pushes.
pub proof fn lemma_ring_mirrors_stream<T>(n: nat, calls: Seq<Call<T>>)
    requires
        n >= 1,
    ensures
        mirrors(run(n, calls).ring, run(n, calls).pushed),
        run(n, calls).ring.capacity() == n,
    decreases calls.len(),
{
    if calls.len() == 0 {
        lemma_empty_mirrors::<T>(n);
    } else {
        let before = run(n, calls.drop_last());
        lemma_ring_mirrors_stream(n, calls.drop_last());
        match calls.last() {
            Call::Push(value) => {
                if before.guards > 0 {
                    lemma_push_mirrors(before.ring, before.pushed, value);
                }
            },
            _ => {},
        }
    }
}

/// The place in the stream at which a reader in state `cursor` stands: the
/// number of pushes that lie behind it.
pub open spec fn position(cursor: Cursor, n: nat) -> nat {
    if cursor.index == 0 {
        (cursor.mark / 2) * n
    } else {
        ((cursor.mark / 2 - 1) * n + cursor.index) as nat
    }
}

/// Whether the writer has overwritten a message that the reader with
/// number `r` had not taken yet.
pub open spec fn lapped<T>(world: World<T>, r: int) -> bool {
    world.pushed.len() > position(world.readers[r].cursor, world.ring.capacity())
        + world.ring.capacity()
}

/// The reader keeps up with the stream `pushed`: it stands at most one lap
/// behind the writer, or at the start of the lap that the writer is in, and
/// its log is the part of the stream that ends at its position.
pub open spec fn in_step<T>(follower: Follower<T>, n: nat, pushed: Seq<T>) -> bool {
    let q = position(follower.cursor, n);
    let p = pushed.len();
    let taken = follower.log.len();
    &&& follower.cursor.index < n
    &&& follower.cursor.mark % 2 == 0
    &&& follower.cursor.index != 0 ==> follower.cursor.mark >= 2
    &&& p <= q + n
    &&& q > p ==> follower.cursor.index == 0 && q < p + n
    &&& taken <= q
    &&& taken > 0 ==> q <= p
    &&& forall|k: int| 0 <= k < taken ==> (#[trigger] follower.log[k]).value == pushed[q - taken + k]
}

proof fn lemma_laps_apart(near: int, i: int, far: int, o: int, n: int)
    requires
        0 <= i < n,
        0 <= o < n,
        near * n + i < far * n + o,
        far * n + o <= near * n + i + n,
    ensures
        (far == near && o > i) || (far == near + 1 && o <= i),
{
    assert(far >= near) by (nonlinear_arith)
        requires
            0 <= i < n,
            0 <= o < n,
            near * n + i < far * n + o,
    ;
    assert(far <= near + 1) by (nonlinear_arith)
        requires
            0 <= i < n,
            0 <= o < n,
            far * n + o <= near * n + i + n,
    ;
    lemma_next_lap(near, n);
}

/// A new reader keeps up with the stream.
pub proof fn lemma_new_reader_in_step<T>(ring: Ring<T>, pushed: Seq<T>)
    requires
        mirrors(ring, pushed),
    ensures
        in_step(Follower { cursor: ring.reader(), log: Seq::empty() }, ring.capacity(), pushed),
{
    let n = ring.capacity();
    let p = pushed.len();
    lemma_split(p, n);
    lemma_next_lap((p / n) as int, n as int);
    assert(ring.mark / 2 == writes(p, n, 0));
}

/// One more push leaves a reader in step unless it laps the reader.
pub proof fn lemma_push_in_step<T>(follower: Follower<T>, n: nat, pushed: Seq<T>, value: T)
    requires
        in_step(follower, n, pushed),
        pushed.len() + 1 <= position(follower.cursor, n) + n,
    ensures
        in_step(follower, n, pushed.push(value)),
{
    let q = position(follower.cursor, n);
    let taken = follower.log.len();
    assert forall|k: int| 0 <= k < taken implies (#[trigger] follower.log[k]).value == pushed.push(
        value,
    )[q - taken + k] by {
        assert(follower.log[k].value == pushed[q - taken + k]);
    }
}

/// What a reader in step is handed: the value at its position in the
/// stream while there is one, and nothing once it has caught up. Either
/// way it stays in step.
pub proof fn lemma_pop_in_step<T>(ring: Ring<T>, pushed: Seq<T>, follower: Follower<T>)
    requires
        mirrors(ring, pushed),
        in_step(follower, ring.capacity(), pushed),
    ensures
        ({
            let q = position(follower.cursor, ring.capacity());
            let (cursor, taken) = ring.pop(follower.cursor);
            if q < pushed.len() {
                &&& taken == Some(pushed[q as int])
                &&& position(cursor, ring.capacity()) == q + 1
                &&& in_step(
                    Follower {
                        cursor,
                        log: follower.log.push(
                            crate::history::Delivery {
                                slot: follower.cursor.index,
                                generation: cursor.mark,
                                value: pushed[q as int],
                            },
                        ),
                    },
                    ring.capacity(),
                    pushed,
                )
            } else {
                &&& taken is None
                &&& cursor == follower.cursor
            }
        }),
{
    let n = ring.capacity();
    let p = pushed.len();
    let q = position(follower.cursor, n);
    let i = follower.cursor.index;
    let half = follower.cursor.mark / 2;
    let near: nat = if i == 0 {
        half
    } else {
        (half - 1) as nat
    };
    let (cursor, taken) = ring.pop(follower.cursor);
    lemma_split(p, n);
    lemma_next_lap((p / n) as int, n as int);
    lemma_next_lap(near as int, n as int);
    assert(q == near * n + i);
    lemma_join(near, i, n);
    let seq = ring.slots[i as int].seq;
    assert(seq == 2 * writes(p, n, i));
    if q < p {
        lemma_laps_apart(near as int, i as int, (p / n) as int, (p % n) as int, n as int);
        assert(writes(p, n, i) == near + 1);
        assert(seq == 2 * (near + 1));
        assert(stable(seq));
        assert((writes(p, n, i) - 1) * n + i == q);
        assert(taken == Some(pushed[q as int]));
        assert(cursor.mark == seq);
        assert(cursor.mark / 2 == near + 1);
        assert(position(cursor, n) == q + 1);
        let log = follower.log.push(
            crate::history::Delivery {
                slot: follower.cursor.index,
                generation: cursor.mark,
                value: pushed[q as int],
            },
        );
        let count = follower.log.len();
        assert forall|k: int| 0 <= k < log.len() implies (#[trigger] log[k]).value == pushed[q + 1
            - log.len() + k] by {
            if k < count {
                assert(follower.log[k].value == pushed[q - count + k]);
            }
        }
    } else if q == p {
        assert(writes(p, n, i) == p / n);
        assert(stable(seq));
    } else {
        assert(i == 0);
        lemma_laps_apart((p / n) as int, (p % n) as int, near as int, 0, n as int);
        assert(writes(p, n, 0) == half);
        assert(stable(seq));
    }
}

/// Fan-out: a reader made by the call at `born` that the writer has not
/// lapped since has been handed, in order and without a gap, every value
/// pushed between the place where it started and the place where it
/// stands, and its next `pop_front` hands it the value at that place, or
/// nothing once it has taken them all. What other readers do in between
/// has no part in this, so each such reader is handed the whole stream.
pub proof fn lemma_fan_out<T>(n: nat, calls: Seq<Call<T>>, born: int, r: int)
    requires
        n >= 1,
        0 <= born < calls.len(),
        calls[born] is NewReader,
        r == run(n, calls.take(born)).readers.len(),
        forall|k: int|
            born < k <= calls.len() ==> !lapped(#[trigger] run(n, calls.take(k)), r),
    ensures
        r < run(n, calls).readers.len(),
        in_step(run(n, calls).readers[r], n, run(n, calls).pushed),
        ({
            let world = run(n, calls);
            let q = position(world.readers[r].cursor, n);
            world.answer(Call::Pop(r as nat)) == if q < world.pushed.len() {
                Some(world.pushed[q as int])
            } else {
                None
            }
        }),
    decreases calls.len(),
{
    let world = run(n, calls);
    let before = run(n, calls.drop_last());
    assert(calls.take(calls.len() as int) =~= calls);
    lemma_ring_mirrors_stream(n, calls.drop_last());
    lemma_ring_mirrors_stream(n, calls);
    if calls.len() == born + 1 {
        assert(calls.drop_last() =~= calls.take(born));
        lemma_new_reader_in_step(before.ring, before.pushed);
    } else {
        assert(calls.drop_last().take(born) =~= calls.take(born));
        assert forall|k: int| born < k <= calls.drop_last().len() implies !lapped(
            #[trigger] run(n, calls.drop_last().take(k)),
            r,
        ) by {
            assert(calls.drop_last().take(k) =~= calls.take(k));
        }
        lemma_fan_out(n, calls.drop_last(), born, r);
        assert(!lapped(run(n, calls.take(calls.len() as int)), r));
        match calls.last() {
            Call::Push(value) => {
                if before.guards > 0 {
                    lemma_push_in_step(before.readers[r], n, before.pushed, value);
                }
            },
            Call::Pop(other) => {
                if other == r {
                    lemma_pop_in_step(before.ring, before.pushed, before.readers[r]);
                }
            },
            _ => {},
        }
    }
    lemma_pop_in_step(world.ring, world.pushed, world.readers[r]);
}

} // verus!
