//! A sequentially locking ring buffer: a fixed-size, single-writer,
//! multi-reader broadcast queue whose writer never waits for a reader to
//! catch up.
//!
//! Readers that fall a whole lap behind the writer silently lose the
//! messages that were overwritten; pick a capacity that fits the workload.
//!
//! The writer can still wait for the length of one copy. A payload sits in
//! an atomic cell of `crossbeam-utils`, and unless an `Option` of the
//! payload has the size and alignment of a primitive atomic, a store into
//! the cell takes one of the crate's global locks. A reader whose first
//! try at a copy fails takes the same lock, so the writer can wait for a
//! reader, or for the writer of another buffer, until that copy is done.
//!
//! - [`buffer`] holds the buffer and its handles, the code that runs.
//! - [`protocol`] holds the arithmetic on sequence words, marks and
//!   indices, and [`call`] the stages of one `pop_front`.
//! - [`model`] states what each call computes when nothing interferes,
//!   [`history`] what holds of every sequence of whole calls, and
//!   [`stream`] what a reader that keeps up is handed.
//! - [`interleaving`] follows the single memory accesses of all threads in
//!   any order.
//! - [`padded`] and [`sample`] hold a wrapper for hot words and sample
//!   payloads.

pub mod buffer;
pub mod call;
pub mod history;
pub mod interleaving;
pub mod model;
pub mod padded;
pub mod protocol;
pub mod sample;
pub mod stream;

pub use buffer::RingBuffer;
pub use buffer::SharedReader;
pub use buffer::WriteGuard;
