use vstd::prelude::*;

verus! {

/// Wrapper that marks a value meant to sit on a cache line of its own, such
/// as a counter that one core updates. It holds the value and nothing else:
/// it carries no alignment of its own, so it does not by itself keep two
/// such values off one line.
#[derive(Debug, Default, Clone, Copy)]
pub struct CachePadded<T> {
    pub value: T,
}

impl<T> CachePadded<T> {
    /// Wraps a value.
    pub fn new(value: T) -> (padded: Self)
        ensures
            padded.value == value,
    {
        CachePadded { value }
    }

    /// Unwraps the value.
    pub fn into_inner(self) -> (value: T)
        ensures
            value == self.value,
    {
        self.value
    }

    /// Shared access to the wrapped value.
    pub fn get(&self) -> (value: &T)
        ensures
            *value == self.value,
    {
        &self.value
    }

    /// Replaces the wrapped value, returning the previous one.
    pub fn replace(&mut self, value: T) -> (previous: T)
        ensures
            previous == old(self).value,
            final(self).value == value,
    {
        let mut v = value;
        std::mem::swap(&mut self.value, &mut v);
        v
    }
}

impl<T> core::ops::Deref for CachePadded<T> {
    type Target = T;

    fn deref(&self) -> (value: &T)
        ensures
            *value == self.value,
    {
        &self.value
    }
}

} // verus!
