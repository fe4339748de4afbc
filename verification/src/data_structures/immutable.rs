use vstd::prelude::*;

verus! {

/// Holds a value that can only be read once it has been wrapped.
pub struct Immutable<T>(T);

impl<T> Immutable<T> {
    /// The wrapped value.
    pub closed spec fn inner(&self) -> T {
        self.0
    }

    /// Returns a new [Immutable] containing `value`.
    pub fn new(value: T) -> (r: Self)
        ensures
            r.inner() == value,
    {
        Immutable(value)
    }

    /// Returns a shared reference to the wrapped value.
    pub fn get(&self) -> (r: &T)
        ensures
            *r == self.inner(),
    {
        &self.0
    }
}

impl<T> From<T> for Immutable<T> {
    fn from(value: T) -> (r: Self)
        ensures
            r.inner() == value,
    {
        Immutable(value)
    }
}

impl<T> vstd::std_specs::convert::FromSpecImpl<T> for Immutable<T> {
    open spec fn obeys_from_spec() -> bool {
        true
    }

    closed spec fn from_spec(v: T) -> Self {
        Immutable(v)
    }
}

impl<T> std::ops::Deref for Immutable<T> {
    type Target = T;

    fn deref(&self) -> (r: &T)
        ensures
            *r == self.inner(),
    {
        &self.0
    }
}

} // verus!
