use vstd::prelude::*;
use vstd::std_specs::cmp::PartialEqSpec;

verus! {

/// A one-shot edge detector: `delta` reports the current value once after it
/// changes, and nothing while it stays equal to what was last reported.
pub struct Delta<T> {
    value: T,
    last: T,
}

impl<T: Copy + PartialEq + PartialEqSpec> Delta<T> {
    /// The value writers see and set.
    pub closed spec fn current(&self) -> T {
        self.value
    }

    /// The value that `delta` last reported (or the initial one).
    pub closed spec fn observed(&self) -> T {
        self.last
    }

    /// Whether the next `delta` reports a change.
    pub open spec fn changed(&self) -> bool {
        !self.current().eq_spec(&self.observed())
    }

    pub fn new(initial: T) -> (r: Self)
        ensures
            r.current() == initial,
            r.observed() == initial,
    {
        Delta { value: initial, last: initial }
    }

    pub fn value(&self) -> (r: T)
        ensures
            r == self.current(),
    {
        self.value
    }

    /// Writes a new current value; the next `delta` compares it with the last
    /// reported one.
    pub fn set(&mut self, v: T)
        ensures
            final(self).current() == v,
            final(self).observed() == old(self).observed(),
    {
        self.value = v;
    }

    /// Reports the current value if it differs from the last reported one, and
    /// remembers it as reported.
    pub fn delta(&mut self) -> (r: Option<T>)
        requires
            T::obeys_eq_spec(),
        ensures
            final(self).current() == old(self).current(),
            old(self).changed() ==> r == Some(old(self).current()) && final(self).observed()
                == old(self).current(),
            !old(self).changed() ==> r == None::<T> && final(self).observed() == old(
                self,
            ).observed(),
    {
        if self.value == self.last {
            None
        } else {
            self.last = self.value;
            Some(self.value)
        }
    }
}

} // verus!
