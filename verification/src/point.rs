use std::cmp::Ordering;
use vstd::prelude::*;

use crate::arith::{clamp_i32, sat_add};

verus! {

/// A pair of coordinates (or of sizes) in the compositor's global space.
#[derive(Debug, Clone, Copy, PartialEq, Eq, Structural, Hash)]
pub struct Point(pub i32, pub i32);

impl Default for Point {
    fn default() -> (r: Point)
        ensures
            r == Point(0, 0),
    {
        Point(0, 0)
    }
}

/// `v * v` fits an `i32` (squaring a larger value overflows).
pub open spec fn square_fits(v: i32) -> bool {
    v * v <= i32::MAX
}

/// The ordering of two integers.
pub open spec fn ordering_of(a: int, b: int) -> Ordering {
    if a < b {
        Ordering::Less
    } else if a == b {
        Ordering::Equal
    } else {
        Ordering::Greater
    }
}

impl Point {
    /// Both coordinates can be squared without overflow.
    pub open spec fn fits(self) -> bool {
        square_fits(self.0) && square_fits(self.1)
    }

    /// The squared distance from the origin, saturated at `i32::MAX`.
    pub open spec fn norm(self) -> int {
        clamp_i32(self.0 * self.0 + self.1 * self.1)
    }

    /// The squared distance from the origin, saturated at `i32::MAX`.
    pub fn squared_norm(&self) -> (r: i32)
        requires
            self.fits(),
        ensures
            r == self.norm(),
    {
        assert(0 <= self.0 * self.0 <= i32::MAX) by (nonlinear_arith)
            requires
                self.0 * self.0 <= i32::MAX,
        ;
        assert(0 <= self.1 * self.1 <= i32::MAX) by (nonlinear_arith)
            requires
                self.1 * self.1 <= i32::MAX,
        ;
        let a = self.0 * self.0;
        let b = self.1 * self.1;
        sat_add(a, b)
    }

    /// Points are ordered by their distance from the origin.
    pub fn compare(&self, other: &Point) -> (r: Ordering)
        requires
            self.fits(),
            other.fits(),
        ensures
            r == ordering_of(self.norm(), other.norm()),
    {
        let me = self.squared_norm();
        let them = other.squared_norm();
        if me < them {
            Ordering::Less
        } else if me == them {
            Ordering::Equal
        } else {
            Ordering::Greater
        }
    }
}

} // verus!
