//! The ownership logic of an async I/O handle.
//!
//! An `Async` owns the registered I/O handle from the moment it is created until it is
//! unwrapped or dropped. The handle is a field of the struct, not an optional one, so every
//! `Async` there is holds its handle and the accessors cannot fail.
use vstd::prelude::*;

verus! {

/// An owned, registered I/O handle.
pub struct Async<T> {
    io: T,
}

impl<T> Async<T> {
    /// The handle held.
    pub closed spec fn handle(self) -> T {
        self.io
    }

    /// Wraps a registered handle.
    pub fn new(io: T) -> (a: Async<T>)
        ensures
            a.handle() == io,
    {
        Async { io }
    }

    /// A reference to the handle.
    pub fn get_ref(&self) -> (r: &T)
        ensures
            *r == self.handle(),
    {
        &self.io
    }

    /// A mutable reference to the handle.
    pub fn get_mut(&mut self) -> (r: &mut T)
        ensures
            *r == old(self).handle(),
            final(self).handle() == *final(r),
    {
        &mut self.io
    }

    /// Unwraps the handle.
    pub fn into_inner(self) -> (r: T)
        ensures
            r == self.handle(),
    {
        self.io
    }
}

} // verus!
