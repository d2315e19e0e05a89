//! Small shared utilities.

use vstd::prelude::*;

verus! {

/// Pads and aligns a value to the length of a cache line, so that counter
/// shards on different threads do not contend for one line.
#[derive(Clone, Copy, Default, Hash, PartialEq, Eq)]
pub struct CachePadded<T> {
    pub value: T,
}

/// An owned value handed out by shared reference.
pub struct Shared<T> {
    /// The value held.
    pub value: T,
}

impl<T> Shared<T> {
    /// The value held.
    pub open spec fn inner(self) -> T {
        self.value
    }

    /// Wraps a value.
    pub fn new(value: T) -> (s: Shared<T>)
        ensures
            s.inner() == value,
    {
        Shared { value }
    }

    /// Borrows the value.
    pub fn get(&self) -> (r: &T)
        ensures
            *r == self.inner(),
    {
        &self.value
    }
}

impl<T> From<T> for Shared<T> {
    fn from(value: T) -> (s: Shared<T>) {
        Shared { value }
    }
}

impl<T> vstd::std_specs::convert::FromSpecImpl<T> for Shared<T> {
    open spec fn obeys_from_spec() -> bool {
        true
    }

    open spec fn from_spec(value: T) -> Shared<T> {
        Shared { value }
    }
}

} // verus!
