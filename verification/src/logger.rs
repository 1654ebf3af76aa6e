//! A transparent wrapper that a middleware layer puts around an inner
//! service to log each request before handing it on. The wrapper itself only
//! owns the inner value; the layer plumbing lives with the transport code.

use vstd::prelude::*;

verus! {

/// Wraps an inner service, exposing it unchanged.
#[derive(Debug, Clone)]
pub struct RequestLogger<T> {
    inner: T,
}

impl<T> RequestLogger<T> {
    /// The wrapped value.
    pub closed spec fn inner_spec(&self) -> T {
        self.inner
    }

    /// Creates a new [`RequestLogger`]
    pub fn new(inner: T) -> (r: Self)
        ensures
            r.inner_spec() == inner,
    {
        RequestLogger { inner }
    }

    /// Get a reference to the inner service
    pub fn get_ref(&self) -> (r: &T)
        ensures
            *r == self.inner_spec(),
    {
        &self.inner
    }

    /// Get a mutable reference to the inner service
    pub fn get_mut(&mut self) -> (r: &mut T)
        ensures
            *r == old(self).inner_spec(),
            final(self).inner_spec() == *final(r),
    {
        &mut self.inner
    }

    /// Consume `self`, returning the inner service
    pub fn into_inner(self) -> (r: T)
        ensures
            r == self.inner_spec(),
    {
        self.inner
    }
}

} // verus!
