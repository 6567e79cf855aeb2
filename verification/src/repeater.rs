use vstd::prelude::*;

verus! {

/// An endless supply of values, each produced by one call of a function.
pub struct Repeater<F> {
    f: F,
}

impl<F> Repeater<F> {
    /// The function that produces the values.
    pub closed spec fn source(&self) -> F {
        self.f
    }

    pub fn new<T>(f: F) -> (repeater: Repeater<F>) where F: Fn() -> T
        ensures
            repeater.source() == f,
    {
        Repeater { f }
    }

    /// The next value: the result of one more call of the function. There
    /// always is one.
    pub fn next<T>(&mut self) -> (item: Option<T>) where F: Fn() -> T
        requires
            call_requires(old(self).source(), ()),
        ensures
            final(self).source() == old(self).source(),
            item is Some,
            call_ensures(old(self).source(), (), item->0),
    {
        Some((self.f)())
    }
}

} // verus!
