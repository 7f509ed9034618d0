//! A planar point with integer coordinates: the x and y coordinates are its
//! two axis projections, distance is squared Euclidean distance, and the
//! per-axis radius is the squared difference of the projections.
//!
//! Squared Euclidean distance orders pairs of points exactly as true
//! Euclidean distance does, so nearest-neighbor results agree with the
//! metric while staying in integer arithmetic.

use vstd::prelude::*;
use crate::kdtree::KdPoint;

verus! {

#[derive(Clone, Copy, PartialEq, Eq, Debug)]
pub struct Point {
    pub x: i32,
    pub y: i32,
}

/// The square of an integer.
pub open spec fn sq(a: int) -> int {
    a * a
}

proof fn lemma_sq_fits(a: int)
    requires
        -0x1_0000_0000 <= a <= 0x1_0000_0000,
    ensures
        0 <= sq(a) <= 0x1_0000_0000_0000_0000,
{
    assert(0 <= a * a <= 0x1_0000_0000_0000_0000) by (nonlinear_arith)
        requires
            -0x1_0000_0000 <= a <= 0x1_0000_0000,
    ;
}

proof fn lemma_sq_nonneg(a: int)
    ensures
        sq(a) >= 0,
{
    assert(a * a >= 0) by (nonlinear_arith);
}

/// If `s` lies between `a` and `c`, it is no farther from `a` than `c` is.
proof fn lemma_sq_mono(a: int, s: int, c: int)
    requires
        a <= s <= c || c <= s <= a,
    ensures
        sq(a - s) <= sq(a - c),
{
    assert((a - s) * (a - s) <= (a - c) * (a - c)) by (nonlinear_arith)
        requires
            a <= s <= c || c <= s <= a,
    ;
}

impl KdPoint for Point {
    open spec fn num_axes_spec() -> int {
        2
    }

    open spec fn axis_spec(self, i: int) -> int {
        if i == 0 {
            self.x as int
        } else {
            self.y as int
        }
    }

    open spec fn dist_spec(self, other: Self) -> int {
        sq(self.x - other.x) + sq(self.y - other.y)
    }

    open spec fn radius_spec(a: int, b: int) -> int {
        sq(a - b)
    }

    fn num_axes() -> (n: usize) {
        2
    }

    fn dup(&self) -> (c: Self) {
        Point { x: self.x, y: self.y }
    }

    fn axis(&self, i: usize) -> (a: i128) {
        if i == 0 {
            self.x as i128
        } else {
            self.y as i128
        }
    }

    fn distance(&self, other: &Self) -> (d: i128) {
        let dx: i128 = self.x as i128 - other.x as i128;
        let dy: i128 = self.y as i128 - other.y as i128;
        proof {
            lemma_sq_fits(dx as int);
            lemma_sq_fits(dy as int);
        }
        dx * dx + dy * dy
    }

    fn radius(&self, other: &Self, i: usize) -> (r: i128) {
        let a = self.axis(i);
        let b = other.axis(i);
        let d: i128 = a - b;
        proof {
            lemma_sq_fits(d as int);
        }
        d * d
    }

    proof fn radius_lower_bound(t: Self, p: Self, s: int, i: int) {
        lemma_sq_mono(t.axis_spec(i), s, p.axis_spec(i));
        if i == 0 {
            lemma_sq_nonneg(t.y - p.y);
        } else {
            lemma_sq_nonneg(t.x - p.x);
        }
    }
}

} // verus!
