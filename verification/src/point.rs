//! Plane points with exact decimal coordinates.

use vstd::prelude::*;
use crate::dec::{
    Dec, abs_i, dadd_n, dscale, dsub_n, dec_sqrt, lemma_bound_align, lemma_pow10_add,
    lemma_pow10_mono, lemma_pow10_pos, mid_n, mid_ok, mid_s, pow10, sqrt_dec, sub_ok,
};
use vstd::arithmetic::mul::{
    lemma_mul_basics, lemma_mul_inequality, lemma_mul_is_associative, lemma_mul_nonnegative,
    lemma_mul_upper_bound,
};

verus! {

/// A point of the plane; a pure value, equal iff the coordinate values are.
#[derive(Clone, Copy, Debug)]
pub struct Point {
    pub x: Dec,
    pub y: Dec,
}

/// The mantissa handed to the square root when measuring the distance
/// between `p` and `q`: the aligned sum of the squared coordinate
/// differences.
pub open spec fn dist_sq_n(p: Point, q: Point) -> int {
    let xn = dsub_n(p.x, q.x) * dsub_n(p.x, q.x);
    let yn = dsub_n(p.y, q.y) * dsub_n(p.y, q.y);
    let xs = dscale(p.x, q.x) + dscale(p.x, q.x);
    let ys = dscale(p.y, q.y) + dscale(p.y, q.y);
    if xs >= ys {
        xn + yn * pow10((xs - ys) as nat)
    } else {
        xn * pow10((ys - xs) as nat) + yn
    }
}

/// The scale that goes with `dist_sq_n`.
pub open spec fn dist_sq_s(p: Point, q: Point) -> nat {
    let xs = dscale(p.x, q.x) + dscale(p.x, q.x);
    let ys = dscale(p.y, q.y) + dscale(p.y, q.y);
    if xs >= ys {
        xs
    } else {
        ys
    }
}

/// The representation envelope inside which `distance` computes exactly:
/// coordinate values of magnitude at most ten, at scale at most twelve.
pub open spec fn dist_ok(p: Point, q: Point) -> bool {
    &&& coord_small(p.x)
    &&& coord_small(p.y)
    &&& coord_small(q.x)
    &&& coord_small(q.y)
}

/// A coordinate of value at most ten in magnitude, at scale at most twelve.
pub open spec fn coord_small(c: Dec) -> bool {
    &&& c.s() <= 12
    &&& abs_i(c.n()) <= 10 * pow10(c.s())
}

impl Point {
    /// Builds the point `(x, y)`.
    pub fn new(x: Dec, y: Dec) -> (r: Point)
        ensures
            r.x == x,
            r.y == y,
    {
        Point { x, y }
    }

    /// The exact midpoint: each coordinate is the half of the sum.
    pub fn midpoint(&self, other: &Point) -> (r: Point)
        requires
            mid_ok(self.x, other.x),
            mid_ok(self.y, other.y),
        ensures
            r.x.n() == mid_n(self.x, other.x),
            r.x.s() == mid_s(self.x, other.x),
            r.y.n() == mid_n(self.y, other.y),
            r.y.s() == mid_s(self.y, other.y),
    {
        Point { x: self.x.add(&other.x).halve(), y: self.y.add(&other.y).halve() }
    }

    /// The Euclidean distance, as the decimal square root that
    /// `rust_decimal` assigns to the exact squared distance.
    pub fn distance(&self, other: &Point) -> (r: Dec)
        requires
            dist_ok(*self, *other),
        ensures
            (r.n(), r.s()) == sqrt_dec(dist_sq_n(*self, *other), dist_sq_s(*self, *other)),
            r.mantissa >= 0,
            r.s() <= 28,
    {
        proof {
            lemma_dist_fits(*self, *other);
        }
        let dx = self.x.sub(&other.x);
        let dy = self.y.sub(&other.y);
        let x2 = dx.mul(&dx);
        let y2 = dy.mul(&dy);
        proof {
            lemma_dist_sum_ok(*self, *other, x2, y2);
        }
        let q = x2.add(&y2);
        dec_sqrt(&q)
    }
}

/// Everything in `distance`'s chain stays inside `i128`, and the final
/// sum lies inside the square root's accepted domain.
proof fn lemma_dist_fits(p: Point, q: Point)
    requires
        dist_ok(p, q),
    ensures
        sub_ok(p.x, q.x),
        sub_ok(p.y, q.y),
        abs_i(dsub_n(p.x, q.x)) <= 20 * pow10(dscale(p.x, q.x)),
        abs_i(dsub_n(p.y, q.y)) <= 20 * pow10(dscale(p.y, q.y)),
        dsub_n(p.x, q.x) * dsub_n(p.x, q.x) <= i128::MAX,
        dsub_n(p.y, q.y) * dsub_n(p.y, q.y) <= i128::MAX,
        dsub_n(p.x, q.x) * dsub_n(p.x, q.x) >= 0,
        dsub_n(p.y, q.y) * dsub_n(p.y, q.y) >= 0,
{
    lemma_sub_small(p.x, q.x);
    lemma_sub_small(p.y, q.y);
    lemma_sq_small(dsub_n(p.x, q.x), dscale(p.x, q.x));
    lemma_sq_small(dsub_n(p.y, q.y), dscale(p.y, q.y));
}

/// Difference of two small coordinates: aligned mantissas fit, and the
/// difference is at most twenty as a value.
proof fn lemma_sub_small(a: Dec, b: Dec)
    requires
        coord_small(a),
        coord_small(b),
    ensures
        sub_ok(a, b),
        abs_i(dsub_n(a, b)) <= 20 * pow10(dscale(a, b)),
        dscale(a, b) <= 12,
{
    let s = dscale(a, b);
    lemma_bound_align(a, 10, s);
    lemma_bound_align(b, 10, s);
    lemma_pow10_pos(s);
    lemma_pow10_mono(s, 12);
    lemma_pow10_mono(12, 24);
    lemma_pow10_val_24();
}

/// The square of a value of magnitude at most `20 * 10^s`, `s <= 12`,
/// is non-negative and fits `i128`.
proof fn lemma_sq_small(n: int, s: nat)
    requires
        abs_i(n) <= 20 * pow10(s),
        s <= 12,
    ensures
        n * n <= i128::MAX,
        n * n >= 0,
        n * n <= 400 * pow10(s + s),
{
    lemma_pow10_pos(s);
    let m = abs_i(n);
    assert(n * n == m * m && n * n >= 0) by (nonlinear_arith)
        requires
            m == n || m == -n,
    ;
    lemma_mul_upper_bound(m, 20 * pow10(s), m, 20 * pow10(s));
    assert((20 * pow10(s)) * (20 * pow10(s)) == 400 * (pow10(s) * pow10(s))) by (nonlinear_arith);
    lemma_pow10_add(s, s);
    lemma_pow10_mono(s + s, 24);
    assert(400 * pow10(s + s) <= 400 * pow10(24)) by {
        lemma_mul_inequality(pow10(s + s), pow10(24), 400);
    }
    assert(400 * pow10(24) < i128::MAX) by {
        lemma_pow10_val_24();
    }
}

/// `10^24`, written out.
proof fn lemma_pow10_val_24()
    ensures
        pow10(24) == 1000000000000000000000000,
{
    assert(pow10(24) == 1000000000000000000000000) by {
        reveal_with_fuel(pow10, 25);
    }
}

/// The sum that `distance` hands to the square root is exactly the spec
/// pair `(dist_sq_n, dist_sq_s)`, is representable, and lies inside the
/// square root's accepted domain.
proof fn lemma_dist_sum_ok(p: Point, q: Point, x2: Dec, y2: Dec)
    requires
        dist_ok(p, q),
        x2.n() == dsub_n(p.x, q.x) * dsub_n(p.x, q.x),
        x2.s() == dscale(p.x, q.x) + dscale(p.x, q.x),
        y2.n() == dsub_n(p.y, q.y) * dsub_n(p.y, q.y),
        y2.s() == dscale(p.y, q.y) + dscale(p.y, q.y),
    ensures
        sub_ok(x2, y2),
        dadd_n(x2, y2) == dist_sq_n(p, q),
        dscale(x2, y2) == dist_sq_s(p, q),
        0 <= dist_sq_n(p, q) <= 79228162514264337593543950335,
        dist_sq_s(p, q) <= 28,
{
    lemma_sub_small(p.x, q.x);
    lemma_sub_small(p.y, q.y);
    lemma_sq_small(dsub_n(p.x, q.x), dscale(p.x, q.x));
    lemma_sq_small(dsub_n(p.y, q.y), dscale(p.y, q.y));
    let xs = x2.s();
    let ys = y2.s();
    let s = dscale(x2, y2);
    lemma_pow10_pos(xs);
    lemma_pow10_pos(ys);
    lemma_pow10_pos((s - xs) as nat);
    lemma_pow10_pos((s - ys) as nat);
    lemma_mul_nonnegative(x2.n(), pow10((s - xs) as nat));
    lemma_mul_nonnegative(y2.n(), pow10((s - ys) as nat));
    lemma_scaled_square_bound(x2.n(), xs, (s - xs) as nat);
    lemma_scaled_square_bound(y2.n(), ys, (s - ys) as nat);
    lemma_pow10_mono(xs + (s - xs) as nat, 24);
    lemma_pow10_mono(ys + (s - ys) as nat, 24);
    lemma_pow10_val_24();
    if xs >= ys {
        assert(s == xs && (s - xs) as nat == 0);
        assert(pow10(0) == 1);
        assert(x2.n() * 1 == x2.n()) by {
            lemma_mul_basics(x2.n());
        }
    } else {
        assert(s == ys && (s - ys) as nat == 0);
        assert(pow10(0) == 1);
        assert(y2.n() * 1 == y2.n()) by {
            lemma_mul_basics(y2.n());
        }
    }
}

/// A squared difference bounded by `400 * 10^s`, once rescaled by `10^d`,
/// is bounded by `400 * 10^(s + d)`.
proof fn lemma_scaled_square_bound(n: int, s: nat, d: nat)
    requires
        0 <= n <= 400 * pow10(s),
    ensures
        n * pow10(d) <= 400 * pow10(s + d),
{
    lemma_pow10_pos(d);
    lemma_mul_inequality(n, 400 * pow10(s), pow10(d));
    lemma_mul_is_associative(400, pow10(s), pow10(d));
    lemma_pow10_add(s, d);
}

impl PartialEq for Point {
    /// Coordinate-wise value equality.
    fn eq(&self, other: &Point) -> (r: bool) {
        self.x == other.x && self.y == other.y
    }
}

impl vstd::std_specs::cmp::PartialEqSpecImpl for Point {
    open spec fn obeys_eq_spec() -> bool {
        true
    }

    open spec fn eq_spec(&self, other: &Point) -> bool {
        self.x.spec_eq(other.x) && self.y.spec_eq(other.y)
    }
}

} // verus!
