//! One call of `pop_front`, access by access.
//!
//! A call goes through a few stages. At each one it makes one access to
//! shared memory, and what the access brings back decides the next stage.
//! [`advance`] is that decision, and it is the same that a call in
//! [`crate::interleaving`] takes: its contract is `Reading::after`.

use crate::interleaving::lemma_through_on;
use crate::interleaving::through;
use crate::interleaving::Payload;
use crate::interleaving::Reading;
use crate::interleaving::Seen;
use crate::protocol::check_version;
use vstd::prelude::*;

verus! {

/// How far a call of `pop_front` is.
#[derive(Debug)]
pub enum Stage<T> {
    /// The call has begun; it loads the cursor next.
    Entered,
    /// The cursor was loaded; the reader's mark is next.
    AtCursor { i: usize },
    /// The mark was loaded; the slot's sequence word is next.
    AtMark { i: usize, ver: usize },
    /// The sequence word names a claimable generation; the call raises the
    /// reader's mark to it next.
    Checked { i: usize, ver: usize, generation: usize },
    /// The mark was raised; the call moves the cursor next.
    Raised { i: usize, generation: usize },
    /// The cursor was moved: the slot is this call's, and is copied next.
    Claimed { i: usize, generation: usize },
    /// The payload was copied; the sequence word is looked at once more.
    Copied { i: usize, generation: usize, message: Option<T> },
    /// The call is over: it hands back the copy of a payload, or nothing.
    Done { handed: Option<Option<T>> },
}

/// What an access brought back.
#[derive(Debug)]
pub enum Brought<T> {
    /// The word that a load found.
    Word(usize),
    /// The outcome of a compare-and-swap: the word that it found, as `Ok`
    /// if it stored.
    Swapped(Result<usize, usize>),
    /// The payload that a copy found.
    Message(Option<T>),
}

/// A copied payload as the machine counts it: a cell never holds parts of
/// two values, so a copy is a whole value or that of an unwritten slot.
pub open spec fn payload_of<T>(message: Option<T>) -> Payload<T> {
    match message {
        Some(value) => Payload::Whole(value),
        None => Payload::Empty,
    }
}

impl<T> Stage<T> {
    /// The stage as the machine counts it.
    pub open spec fn model(self) -> Reading<T> {
        match self {
            Stage::Entered => Reading::Entered,
            Stage::AtCursor { i } => Reading::AtCursor { i: i as nat },
            Stage::AtMark { i, ver } => Reading::AtMark { i: i as nat, ver: ver as nat },
            Stage::Checked { i, ver, generation } => Reading::Checked {
                i: i as nat,
                ver: ver as nat,
                generation: generation as nat,
            },
            Stage::Raised { i, generation } => Reading::Raised {
                i: i as nat,
                generation: generation as nat,
            },
            Stage::Claimed { i, generation } => Reading::Claimed {
                i: i as nat,
                generation: generation as nat,
            },
            Stage::Copied { i, generation, message } => Reading::Copied {
                i: i as nat,
                generation: generation as nat,
                message: payload_of(message),
            },
            Stage::Done { handed } => Reading::Done {
                handed: match handed {
                    Some(message) => Some(payload_of(message)),
                    None => None,
                },
            },
        }
    }

    /// Whether the slot that the call is working on is one of `n` slots.
    pub open spec fn fits(self, n: usize) -> bool {
        self.model().within(n as nat)
    }
}

impl<T> Brought<T> {
    /// What was brought back as the machine counts it.
    pub open spec fn seen(self) -> Seen<T> {
        match self {
            Brought::Word(word) => Seen::Word(word as nat),
            Brought::Swapped(Ok(found)) => Seen::Swapped { done: true, found: found as nat },
            Brought::Swapped(Err(found)) => Seen::Swapped { done: false, found: found as nat },
            Brought::Message(message) => Seen::Message(payload_of(message)),
        }
    }
}

/// Decides where a call stands after the access that `stage` was about to
/// make has brought back `brought`.
pub fn advance<T: Copy>(stage: Stage<T>, n: usize, brought: Brought<T>) -> (next: Stage<T>)
    ensures
        next.model() == stage.model().after(n as nat, brought.seen()),
        stage.fits(n) ==> next.fits(n),
{
    match (stage, brought) {
        (Stage::Entered, Brought::Word(i)) => Stage::AtCursor { i },
        (Stage::AtCursor { i }, Brought::Word(ver)) => {
            if i >= n {
                Stage::Done { handed: None }
            } else {
                Stage::AtMark { i, ver }
            }
        },
        (Stage::AtMark { i, ver }, Brought::Word(seq)) => {
            match check_version(seq, ver, i) {
                Some(generation) => Stage::Checked { i, ver, generation },
                None => Stage::Done { handed: None },
            }
        },
        (Stage::Checked { i, generation, .. }, Brought::Swapped(outcome)) => {
            match outcome {
                Ok(_) => Stage::Raised { i, generation },
                Err(_) => Stage::Done { handed: None },
            }
        },
        (Stage::Raised { i, generation }, Brought::Swapped(outcome)) => {
            match outcome {
                Ok(_) => Stage::Claimed { i, generation },
                Err(found) => Stage::AtCursor { i: found },
            }
        },
        (Stage::Claimed { i, generation }, Brought::Message(message)) => Stage::Copied {
            i,
            generation,
            message,
        },
        (Stage::Copied { generation, message, .. }, Brought::Word(seq)) => {
            if seq == generation {
                Stage::Done { handed: Some(message) }
            } else {
                Stage::Entered
            }
        },
        (stage, _) => stage,
    }
}

/// The stage that a call has reached after its accesses have brought back
/// `seen`, one after the other, in a ring of `n` slots.
pub open spec fn follow<T>(n: usize, seen: Seq<Seen<T>>) -> Reading<T> {
    through(n as nat, seen)
}

/// What a call that stands at `at` gives its caller: the value that it has
/// copied whole and confirmed, and nothing at any other stage.
pub open spec fn handed<T>(at: Reading<T>) -> Option<T> {
    match at {
        Reading::Done { handed: Some(Payload::Whole(value)) } => Some(value),
        _ => None,
    }
}

/// One access more takes the call one stage further.
pub proof fn lemma_follow_on<T>(n: usize, seen: Seq<Seen<T>>, next: Seen<T>)
    ensures
        follow(n, seen.push(next)) == follow(n, seen).after(n as nat, next),
{
    lemma_through_on(n as nat, seen, next);
}

/// What a call that is over hands back to its caller: the message it has
/// copied, if it has one.
pub fn handed_back<T: Copy>(stage: Stage<T>) -> (popped: Option<T>)
    ensures
        popped == handed(stage.model()),
{
    match stage {
        Stage::Done { handed: Some(message) } => message,
        _ => None,
    }
}

} // verus!
