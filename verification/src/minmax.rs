//! Update a value in place with a smaller or larger one.

use vstd::prelude::*;

verus! {

/// Replace a value by a smaller (`setmin`) or larger (`setmax`) one, reporting
/// whether it changed.
pub trait SetMinMax: Sized {
    /// `self` comes strictly before `other` in the order of the type.
    spec fn precedes(self, other: Self) -> bool;

    /// Stores `v` when `v` is strictly smaller than the current value.
    fn setmin(&mut self, v: Self) -> (changed: bool)
        ensures
            changed == v.precedes(*old(self)),
            *final(self) == (if changed { v } else { *old(self) }),
    ;

    /// Stores `v` when `v` is strictly larger than the current value.
    fn setmax(&mut self, v: Self) -> (changed: bool)
        ensures
            changed == old(self).precedes(v),
            *final(self) == (if changed { v } else { *old(self) }),
    ;
}

impl SetMinMax for usize {
    open spec fn precedes(self, other: Self) -> bool {
        self < other
    }

    fn setmin(&mut self, v: Self) -> (changed: bool) {
        if *self > v {
            *self = v;
            true
        } else {
            false
        }
    }

    fn setmax(&mut self, v: Self) -> (changed: bool) {
        if *self < v {
            *self = v;
            true
        } else {
            false
        }
    }
}

impl SetMinMax for u64 {
    open spec fn precedes(self, other: Self) -> bool {
        self < other
    }

    fn setmin(&mut self, v: Self) -> (changed: bool) {
        if *self > v {
            *self = v;
            true
        } else {
            false
        }
    }

    fn setmax(&mut self, v: Self) -> (changed: bool) {
        if *self < v {
            *self = v;
            true
        } else {
            false
        }
    }
}

impl SetMinMax for u32 {
    open spec fn precedes(self, other: Self) -> bool {
        self < other
    }

    fn setmin(&mut self, v: Self) -> (changed: bool) {
        if *self > v {
            *self = v;
            true
        } else {
            false
        }
    }

    fn setmax(&mut self, v: Self) -> (changed: bool) {
        if *self < v {
            *self = v;
            true
        } else {
            false
        }
    }
}

impl SetMinMax for i64 {
    open spec fn precedes(self, other: Self) -> bool {
        self < other
    }

    fn setmin(&mut self, v: Self) -> (changed: bool) {
        if *self > v {
            *self = v;
            true
        } else {
            false
        }
    }

    fn setmax(&mut self, v: Self) -> (changed: bool) {
        if *self < v {
            *self = v;
            true
        } else {
            false
        }
    }
}

impl SetMinMax for i32 {
    open spec fn precedes(self, other: Self) -> bool {
        self < other
    }

    fn setmin(&mut self, v: Self) -> (changed: bool) {
        if *self > v {
            *self = v;
            true
        } else {
            false
        }
    }

    fn setmax(&mut self, v: Self) -> (changed: bool) {
        if *self < v {
            *self = v;
            true
        } else {
            false
        }
    }
}

} // verus!
