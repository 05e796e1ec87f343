//! Sequential entity-ID generation over the unsigned integer types.
use vstd::prelude::*;

verus! {

/// A type usable as an entity ID: a counter with a first value and a
/// successor.
pub trait IDType: Sized + Clone + Copy + PartialEq + Eq + core::hash::Hash {
    /// The counter as a mathematical integer.
    spec fn id_value(self) -> int;

    /// One past the largest representable counter.
    spec fn id_limit() -> int;

    fn new() -> (r: Self)
        ensures
            r.id_value() == 0,
    ;

    fn next(&mut self) -> (r: Self)
        requires
            old(self).id_value() + 1 < Self::id_limit(),
        ensures
            final(self).id_value() == old(self).id_value() + 1,
            r.id_value() == final(self).id_value(),
    ;
}

impl IDType for u16 {
    open spec fn id_value(self) -> int {
        self as int
    }

    open spec fn id_limit() -> int {
        u16::MAX as int + 1
    }

    fn new() -> (r: Self) {
        0
    }

    fn next(&mut self) -> (r: Self) {
        *self = *self + 1;
        *self
    }
}

impl IDType for u32 {
    open spec fn id_value(self) -> int {
        self as int
    }

    open spec fn id_limit() -> int {
        u32::MAX as int + 1
    }

    fn new() -> (r: Self) {
        0
    }

    fn next(&mut self) -> (r: Self) {
        *self = *self + 1;
        *self
    }
}

impl IDType for u64 {
    open spec fn id_value(self) -> int {
        self as int
    }

    open spec fn id_limit() -> int {
        u64::MAX as int + 1
    }

    fn new() -> (r: Self) {
        0
    }

    fn next(&mut self) -> (r: Self) {
        *self = *self + 1;
        *self
    }
}

impl IDType for usize {
    open spec fn id_value(self) -> int {
        self as int
    }

    open spec fn id_limit() -> int {
        usize::MAX as int + 1
    }

    fn new() -> (r: Self) {
        0
    }

    fn next(&mut self) -> (r: Self) {
        *self = *self + 1;
        *self
    }
}

/// Hands out IDs by counting upward; the first ID handed out is 1.
pub struct IDGenerator<T: IDType = u64> {
    incrementer: T,
}

impl<T: IDType> IDGenerator<T> {
    /// The value of the last ID handed out, 0 when none was.
    pub closed spec fn count(self) -> int {
        self.incrementer.id_value()
    }

    pub fn new() -> (g: Self)
        ensures
            g.count() == 0,
    {
        IDGenerator { incrementer: T::new() }
    }

    pub fn gen(&mut self) -> (r: T)
        requires
            old(self).count() + 1 < T::id_limit(),
        ensures
            final(self).count() == old(self).count() + 1,
            r.id_value() == final(self).count(),
    {
        self.incrementer.next()
    }
}

} // verus!
