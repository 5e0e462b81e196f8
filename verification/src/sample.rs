//! Sample payloads: four messages, each a distinct run of four bytes, for
//! checking that what comes out of a buffer is what went in.

use vstd::prelude::*;

verus! {

/// One of four sample messages.
#[derive(Debug, Clone, Copy, PartialEq, Eq, Structural)]
pub enum Message {
    A,
    B,
    C,
    D,
}

/// The place of a message among the four.
pub open spec fn ordinal(m: Message) -> nat {
    match m {
        Message::A => 0,
        Message::B => 1,
        Message::C => 2,
        Message::D => 3,
    }
}

/// The payload of a message: the four consecutive bytes that start at four
/// times its ordinal, so that no byte value occurs in two payloads.
pub fn range(m: Message) -> (bytes: [u8; 4])
    ensures
        forall|k: int| 0 <= k < 4 ==> #[trigger] bytes[k] == 4 * ordinal(m) + k,
{
    match m {
        Message::A => [0, 1, 2, 3],
        Message::B => [4, 5, 6, 7],
        Message::C => [8, 9, 10, 11],
        Message::D => [12, 13, 14, 15],
    }
}

} // verus!
