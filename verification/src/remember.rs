//! A cached value with a way to compute it afresh.

use vstd::prelude::*;

verus! {

/// A value of type `T` together with the calculation that yields it.
/// While `stale` is unset the stored value is current; once it is set,
/// the next read runs the calculation again.
#[verifier::reject_recursive_types(T)]
pub struct Remember<T: Copy, F: Fn() -> T> {
    value: T,
    pub stale: bool,
    calculate: F,
}

impl<T: Copy, F: Fn() -> T> Remember<T, F> {
    /// The stored value.
    pub closed spec fn value(&self) -> T {
        self.value
    }

    /// Is the stored value out of date?
    pub closed spec fn is_stale(&self) -> bool {
        self.stale
    }

    /// The calculation that refreshes the value.
    pub closed spec fn calculation(&self) -> F {
        self.calculate
    }

    /// The calculation can be run.
    pub open spec fn wf(&self) -> bool {
        call_requires(self.calculation(), ())
    }

    /// A fresh cache. It starts from `start_value` where one is given and
    /// from a first run of the calculation otherwise.
    pub fn new(calculate: F, start_value: Option<T>) -> (r: Remember<T, F>)
        requires
            call_requires(calculate, ()),
        ensures
            r.wf(),
            !r.is_stale(),
            r.calculation() == calculate,
            match start_value {
                Some(v) => r.value() == v,
                None => call_ensures(calculate, (), r.value()),
            },
    {
        match start_value {
            Some(value) => Remember { value, stale: false, calculate },
            None => {
                let value = calculate();
                Remember { value, stale: false, calculate }
            },
        }
    }

    /// The current value, without touching the cache: the stored value,
    /// or a result of the calculation when the cache is stale.
    pub fn get_static(&self) -> (v: T)
        requires
            self.wf(),
        ensures
            self.is_stale() ==> call_ensures(self.calculation(), (), v),
            !self.is_stale() ==> v == self.value(),
    {
        if self.stale {
            (self.calculate)()
        } else {
            self.value
        }
    }

    /// The current value; a stale cache is refreshed first.
    pub fn get(&mut self) -> (v: T)
        requires
            old(self).wf(),
        ensures
            final(self).wf(),
            !final(self).is_stale(),
            final(self).calculation() == old(self).calculation(),
            v == final(self).value(),
            old(self).is_stale() ==> call_ensures(old(self).calculation(), (), v),
            !old(self).is_stale() ==> v == old(self).value(),
    {
        if self.stale {
            self.value = (self.calculate)();
            self.stale = false;
        }
        self.value
    }

    /// Stores `value` and marks the cache as current.
    pub fn set(&mut self, value: T)
        ensures
            final(self).value() == value,
            !final(self).is_stale(),
            final(self).calculation() == old(self).calculation(),
    {
        self.value = value;
        self.stale = false;
    }
}

} // verus!
