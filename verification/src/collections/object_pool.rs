//! Pool of reusable objects. Taking an object reuses the oldest idle one and
//! makes a new one with the pool's factory only when none is idle; handing an
//! object back keeps it for reuse while there is room.

use vstd::prelude::*;
use crate::collections::fifo::fifo_push;
use crate::collections::queue::ArrayQueue;
use crate::collections::ring::is_ring_capacity;

verus! {

/// Object pool backed by a bounded queue of idle objects.
#[verifier::reject_recursive_types(T)]
pub struct ObjectPool<T, F: Fn() -> T> {
    queue: ArrayQueue<T>,
    factory: F,
}

/// An object taken from a pool; hand it back with [`ObjectPool::recycle`].
pub struct PooledObject<T> {
    data: T,
}

impl<T> PooledObject<T> {
    /// The object.
    pub closed spec fn value(&self) -> T {
        self.data
    }

    /// Shared access to the object.
    pub fn get(&self) -> (value: &T)
        ensures
            *value == self.value(),
    {
        &self.data
    }

    /// Exclusive access to the object.
    pub fn get_mut(&mut self) -> (value: &mut T)
        ensures
            *value == old(self).value(),
            final(self).value() == *final(value),
    {
        &mut self.data
    }

    /// Takes the object out, so that it does not go back to the pool.
    pub fn into_inner(self) -> (value: T)
        ensures
            value == self.value(),
    {
        self.data
    }
}

impl<T> core::ops::Deref for PooledObject<T> {
    type Target = T;

    fn deref(&self) -> (value: &T)
        ensures
            *value == self.value(),
    {
        &self.data
    }
}

impl<T, F: Fn() -> T> ObjectPool<T, F> {
    /// The idle objects, oldest first.
    pub closed spec fn view(&self) -> Seq<T> {
        self.queue@
    }

    /// The most idle objects the pool keeps.
    pub closed spec fn capacity(&self) -> nat {
        self.queue.capacity()
    }

    /// The factory that makes new objects.
    pub closed spec fn factory(&self) -> F {
        self.factory
    }

    /// The pool's invariant.
    pub closed spec fn wf(&self) -> bool {
        &&& self.queue.wf()
        &&& self.factory.requires(())
    }

    /// Creates an empty pool. `capacity` must be a power of two (and, as for
    /// [`ArrayQueue::new`], allocatable); `factory` makes a new object
    /// whenever the pool is empty.
    pub fn new(capacity: usize, factory: F) -> (pool: Self)
        requires
            is_ring_capacity(capacity as int),
            capacity <= usize::MAX / 4,
            factory.requires(()),
        ensures
            pool.wf(),
            pool.capacity() == capacity,
            pool.factory() == factory,
            pool@ == Seq::<T>::empty(),
    {
        ObjectPool { queue: ArrayQueue::new(capacity), factory }
    }

    /// Acquires an object: the oldest idle one, or a new one from the factory
    /// when the pool is empty.
    pub fn take(&mut self) -> (object: PooledObject<T>)
        requires
            old(self).wf(),
        ensures
            final(self).wf(),
            final(self).capacity() == old(self).capacity(),
            final(self).factory() == old(self).factory(),
            old(self)@.len() > 0 ==> object.value() == old(self)@[0] && final(self)@ == old(self)@.drop_first(),
            old(self)@.len() == 0 ==> old(self).factory().ensures((), object.value()) && final(self)@ == old(self)@,
    {
        let data = match self.queue.pop() {
            Some(data) => data,
            None => (self.factory)(),
        };
        PooledObject { data }
    }

    /// Returns an object to the pool for reuse. When the pool already holds
    /// `capacity` idle objects, the object is dropped instead.
    pub fn recycle(&mut self, object: PooledObject<T>)
        requires
            old(self).wf(),
        ensures
            final(self).wf(),
            final(self).capacity() == old(self).capacity(),
            final(self).factory() == old(self).factory(),
            final(self)@ == fifo_push(old(self)@, old(self).capacity(), object.value()),
    {
        let _ = self.queue.push(object.data);
    }
}

} // verus!
