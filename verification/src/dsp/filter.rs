//! The memory of a second-order filter section.

use vstd::prelude::*;

verus! {

/// A second-order section in direct form 1: its normalized coefficients and its
/// last two inputs and outputs. `T` is the caller's number type.
#[derive(Clone, Copy)]
pub struct Biquad<T> {
    pub b0: T,
    pub b1: T,
    pub b2: T,
    pub a1: T,
    pub a2: T,
    pub x1: T,
    pub x2: T,
    pub y1: T,
    pub y2: T,
}

impl<T: Copy> Biquad<T> {
    /// The section has the same coefficients as another.
    pub open spec fn same_response(&self, other: &Biquad<T>) -> bool {
        &&& self.b0 == other.b0
        &&& self.b1 == other.b1
        &&& self.b2 == other.b2
        &&& self.a1 == other.a1
        &&& self.a2 == other.a2
    }

    /// A section at rest: `b` and `a` hold the coefficients, inputs and outputs
    /// are `zero`.
    pub fn at_rest(b: [T; 3], a: [T; 2], zero: T) -> (r: Self)
        ensures
            r.b0 == b[0],
            r.b1 == b[1],
            r.b2 == b[2],
            r.a1 == a[0],
            r.a2 == a[1],
            r.x1 == zero,
            r.x2 == zero,
            r.y1 == zero,
            r.y2 == zero,
    {
        Biquad { b0: b[0], b1: b[1], b2: b[2], a1: a[0], a2: a[1], x1: zero, x2: zero, y1: zero, y2: zero }
    }

    /// Remembers an input and the output it gave.
    pub fn remember(&mut self, x: T, y: T)
        ensures
            final(self).same_response(old(self)),
            final(self).x1 == x,
            final(self).x2 == old(self).x1,
            final(self).y1 == y,
            final(self).y2 == old(self).y1,
    {
        self.x2 = self.x1;
        self.x1 = x;
        self.y2 = self.y1;
        self.y1 = y;
    }
}

} // verus!
