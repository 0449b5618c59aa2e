//! A wrapper struct that provides modification detection.

use vstd::prelude::*;

verus! {

/// Wraps a value and remembers whether it was touched since the last
/// [`resolve`](Recorder::resolve).
#[derive(Clone, Copy, Debug)]
pub struct Recorder<T> {
    inner: T,
    is_updated: bool,
}

impl<T> Recorder<T> {
    /// The wrapped value.
    pub closed spec fn value(&self) -> T {
        self.inner
    }

    /// Whether the value was touched since the last `resolve`.
    pub closed spec fn updated(&self) -> bool {
        self.is_updated
    }

    /// Wraps `inner`, initially unmodified.
    pub fn new(inner: T) -> (r: Self)
        ensures
            r.value() == inner,
            !r.updated(),
    {
        Recorder { inner, is_updated: false }
    }

    /// Reads the wrapped value.
    pub fn get(&self) -> (r: &T)
        ensures
            *r == self.value(),
    {
        &self.inner
    }

    /// Borrows the wrapped value mutably and marks it as updated.
    pub fn get_mut(&mut self) -> (r: &mut T)
        ensures
            *r == old(self).value(),
            final(self).value() == *final(r),
            final(self).updated(),
    {
        self.is_updated = true;
        &mut self.inner
    }

    /// Updates the wrapped value to the first component of `f`'s result.
    /// This marks the value as updated iff `f`'s second component is `true`.
    pub fn update<F: FnOnce(&T) -> (T, bool)>(&mut self, f: F)
        requires
            forall|t: &T| *t == old(self).value() ==> call_requires(f, (t,)),
        ensures
            exists|t: &T, r: (T, bool)|
                {
                    &&& *t == old(self).value()
                    &&& #[trigger] call_ensures(f, (t,), r)
                    &&& final(self).value() == r.0
                    &&& final(self).updated() == (old(self).updated() || r.1)
                },
    {
        let (new_inner, b) = f(&self.inner);
        self.inner = new_inner;
        self.is_updated = self.is_updated || b;
    }

    /// Whether the value was touched since the last `resolve`.
    pub fn is_updated(&self) -> (r: bool)
        ensures
            r == self.updated(),
    {
        self.is_updated
    }

    /// Forgets any recorded modification.
    pub fn resolve(&mut self)
        ensures
            final(self).value() == old(self).value(),
            !final(self).updated(),
    {
        self.is_updated = false;
    }
}

impl<T: Default> Default for Recorder<T> {
    /// Wraps `T::default()`, initially unmodified.
    fn default() -> (r: Self)
        ensures
            !r.updated(),
    {
        Recorder { inner: T::default(), is_updated: false }
    }
}

} // verus!
