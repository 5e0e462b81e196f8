//! A wrapper that marks the hot words of a buffer and its readers.

use vstd::prelude::*;

verus! {

/// Holds one value that several threads touch often. Each hot word of a
/// buffer or a reader sits in a `Padded` of its own, so that the layout of
/// all of them can be decided in this one place.
#[derive(Debug)]
pub struct Padded<T>(pub T);

impl<T> Padded<T> {
    /// Wraps `t`.
    pub fn new(t: T) -> (padded: Self)
        ensures
            padded.0 == t,
    {
        Padded(t)
    }
}

impl<T> std::ops::Deref for Padded<T> {
    type Target = T;

    fn deref(&self) -> (inner: &T)
        ensures
            *inner == self.0,
    {
        &self.0
    }
}

impl<T> std::ops::DerefMut for Padded<T> {
    fn deref_mut(&mut self) -> (inner: &mut T)
        ensures
            *inner == old(self).0,
            final(self).0 == *final(inner),
    {
        &mut self.0
    }
}

impl<T> From<T> for Padded<T> {
    fn from(value: T) -> (padded: Self) {
        Padded::new(value)
    }
}

impl<T> vstd::std_specs::convert::FromSpecImpl<T> for Padded<T> {
    open spec fn obeys_from_spec() -> bool {
        true
    }

    open spec fn from_spec(value: T) -> Self {
        Padded(value)
    }
}

} // verus!
