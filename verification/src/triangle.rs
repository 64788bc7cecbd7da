//! Triangles over exact decimal points: shoelace area, medial subdivision
//! into four children, and the canonical root triangle of the chain.

use vstd::prelude::*;
use crate::dec::{
    Dec, abs_i, align_n, box_dec, dadd_n, dscale, dsub_n, half_n, lemma_bound_align,
    lemma_mid_box, lemma_mid_d_exact,
    lemma_mid_unit, lemma_mul_sign, lemma_pow10_add, lemma_pow10_mono, lemma_pow10_pos,
    lemma_pow10_vals, mid_d, mid_n, mid_ok, mid_s, pow10, rat_eq, rat_lt, sqrt_dec, sub_ok,
    unit_dec,
};
use crate::point::{Point, coord_small, dist_sq_n, dist_sq_s};
use vstd::arithmetic::mul::{
    lemma_mul_inequality, lemma_mul_is_associative, lemma_mul_is_commutative,
    lemma_mul_nonnegative, lemma_mul_upper_bound,
};

verus! {

/// A triangle; the vertex order matters for subdivision, not for area.
#[derive(Clone, Copy, Debug)]
pub struct Triangle {
    pub a: Point,
    pub b: Point,
    pub c: Point,
}

/// First shoelace product: `(b.x - a.x) * (c.y - a.y)`, as a mantissa.
pub open spec fn cross_p1_n(t: Triangle) -> int {
    dsub_n(t.b.x, t.a.x) * dsub_n(t.c.y, t.a.y)
}

/// The scale of `cross_p1_n`.
pub open spec fn cross_p1_s(t: Triangle) -> nat {
    dscale(t.b.x, t.a.x) + dscale(t.c.y, t.a.y)
}

/// Second shoelace product: `(c.x - a.x) * (b.y - a.y)`, as a mantissa.
pub open spec fn cross_p2_n(t: Triangle) -> int {
    dsub_n(t.c.x, t.a.x) * dsub_n(t.b.y, t.a.y)
}

/// The scale of `cross_p2_n`.
pub open spec fn cross_p2_s(t: Triangle) -> nat {
    dscale(t.c.x, t.a.x) + dscale(t.b.y, t.a.y)
}

/// The scale of the signed cross product.
pub open spec fn cross_s(t: Triangle) -> nat {
    if cross_p1_s(t) >= cross_p2_s(t) {
        cross_p1_s(t)
    } else {
        cross_p2_s(t)
    }
}

/// The signed cross product `(b - a) x (c - a)`, twice the signed area,
/// as a mantissa at scale `cross_s`.
pub open spec fn cross_n(t: Triangle) -> int {
    cross_p1_n(t) * pow10((cross_s(t) - cross_p1_s(t)) as nat) - cross_p2_n(t) * pow10(
        (cross_s(t) - cross_p2_s(t)) as nat,
    )
}

/// The mantissa of the area: half the absolute cross product.
pub open spec fn area_n(t: Triangle) -> int {
    half_n(abs_i(cross_n(t)))
}

/// The scale of the area.
pub open spec fn area_s(t: Triangle) -> nat {
    if abs_i(cross_n(t)) % 2 == 0 {
        cross_s(t)
    } else {
        cross_s(t) + 1
    }
}

/// The area of `t` is strictly below the value of `thr`.
pub open spec fn area_below(t: Triangle, thr: Dec) -> bool {
    rat_lt(area_n(t), area_s(t), thr.n(), thr.s())
}

/// All six coordinates have values of magnitude at most `c`, the x
/// coordinates at scale at most `sx` and the y coordinates at most `sy`.
pub open spec fn box_xy(t: Triangle, c: int, sx: nat, sy: nat) -> bool {
    &&& box_dec(t.a.x, c, sx) && box_dec(t.a.y, c, sy)
    &&& box_dec(t.b.x, c, sx) && box_dec(t.b.y, c, sy)
    &&& box_dec(t.c.x, c, sx) && box_dec(t.c.y, c, sy)
}

/// All six coordinates sit in the unit box at scale at most `smax`.
pub open spec fn unit_tri(t: Triangle, smax: nat) -> bool {
    box_xy(t, 1, smax, smax)
}

/// One witness for `area`'s exactness: a value bound and per-axis scale
/// budgets under which the whole shoelace chain stays inside `i128`.
pub open spec fn area_env(t: Triangle, c: int, sx: nat, sy: nat) -> bool {
    &&& 1 <= c
    &&& box_xy(t, c, sx, sy)
    &&& 40 * (c * c) * pow10(sx + sy) <= i128::MAX
}

/// The exactness envelope of `area`: some value bound and scale budgets
/// keep the computation representable.
pub open spec fn area_ok(t: Triangle) -> bool {
    exists|c: int, sx: nat, sy: nat| #[trigger] area_env(t, c, sx, sy)
}

/// The three edge midpoints are exactly representable.
pub open spec fn tri_mid_ok(t: Triangle) -> bool {
    &&& mid_ok(t.a.x, t.b.x) && mid_ok(t.a.y, t.b.y)
    &&& mid_ok(t.b.x, t.c.x) && mid_ok(t.b.y, t.c.y)
    &&& mid_ok(t.c.x, t.a.x) && mid_ok(t.c.y, t.a.y)
}

/// The midpoint of two points, as spec values.
pub open spec fn mid_pt(p: Point, q: Point) -> Point {
    Point { x: mid_d(p.x, q.x), y: mid_d(p.y, q.y) }
}

/// The four children of the medial subdivision, in the fixed order
/// corner at `a`, corner at `b`, corner at `c`, central triangle.
#[verifier::opaque]
pub open spec fn subdivide_r(t: Triangle) -> Seq<Triangle> {
    let mab = mid_pt(t.a, t.b);
    let mbc = mid_pt(t.b, t.c);
    let mca = mid_pt(t.c, t.a);
    seq![
        Triangle { a: t.a, b: mab, c: mca },
        Triangle { a: mab, b: t.b, c: mbc },
        Triangle { a: mca, b: mbc, c: t.c },
        Triangle { a: mab, b: mbc, c: mca },
    ]
}

impl Triangle {
    /// Builds the triangle `(a, b, c)`.
    pub fn new(a: Point, b: Point, c: Point) -> (r: Triangle)
        ensures
            r.a == a,
            r.b == b,
            r.c == c,
    {
        Triangle { a, b, c }
    }

    /// The exact shoelace area: half the absolute cross product of two
    /// edge vectors. Never negative; zero exactly for degenerate input.
    pub fn area(&self) -> (r: Dec)
        requires
            area_ok(*self),
        ensures
            r.n() == area_n(*self),
            r.s() == area_s(*self),
            r.mantissa >= 0,
    {
        proof {
            let (c, sx, sy): (int, nat, nat) = choose|c: int, sx: nat, sy: nat|
                area_env(*self, c, sx, sy);
            lemma_area_fits(*self, c, sx, sy);
        }
        let dx1 = self.b.x.sub(&self.a.x);
        let dy2 = self.c.y.sub(&self.a.y);
        let dx2 = self.c.x.sub(&self.a.x);
        let dy1 = self.b.y.sub(&self.a.y);
        let q1 = dx1.mul(&dy2);
        let q2 = dx2.mul(&dy1);
        proof {
            let (c, sx, sy): (int, nat, nat) = choose|c: int, sx: nat, sy: nat|
                area_env(*self, c, sx, sy);
            lemma_area_cross_ok(*self, q1, q2, c, sx, sy);
        }
        let cr = q1.sub(&q2);
        let ar = cr.abs().halve();
        proof {
            if ar.n() < 0 {
                assert(half_n(abs_i(cross_n(*self))) >= 0);
            }
        }
        ar
    }

    /// The four medial children, in consensus order: the corner triangle
    /// at `a`, at `b`, at `c`, then the central one.
    pub fn subdivide(&self) -> (r: Vec<Triangle>)
        requires
            tri_mid_ok(*self),
        ensures
            r@ =~= subdivide_r(*self),
            r@.len() == 4,
    {
        let mab = self.a.midpoint(&self.b);
        let mbc = self.b.midpoint(&self.c);
        let mca = self.c.midpoint(&self.a);
        proof {
            lemma_mid_d_exact(self.a.x, self.b.x);
            lemma_mid_d_exact(self.a.y, self.b.y);
            lemma_mid_d_exact(self.b.x, self.c.x);
            lemma_mid_d_exact(self.b.y, self.c.y);
            lemma_mid_d_exact(self.c.x, self.a.x);
            lemma_mid_d_exact(self.c.y, self.a.y);
            assert(mab == mid_pt(self.a, self.b));
            assert(mbc == mid_pt(self.b, self.c));
            assert(mca == mid_pt(self.c, self.a));
        }
        proof {
            reveal(subdivide_r);
        }
        let mut r: Vec<Triangle> = Vec::new();
        r.push(Triangle { a: self.a, b: mab, c: mca });
        r.push(Triangle { a: mab, b: self.b, c: mbc });
        r.push(Triangle { a: mca, b: mbc, c: self.c });
        r.push(Triangle { a: mab, b: mbc, c: mca });
        r
    }
}

/// An area envelope caps the summed scale budgets at thirty-six.
proof fn lemma_env_scales(t: Triangle, c: int, sx: nat, sy: nat)
    requires
        area_env(t, c, sx, sy),
    ensures
        sx + sy <= 36,
        2 * c * pow10(sx) <= i128::MAX,
        2 * c * pow10(sy) <= i128::MAX,
{
    lemma_pow10_pos(sx);
    lemma_pow10_pos(sy);
    lemma_pow10_pos(sx + sy);
    lemma_pow10_vals();
    if sx + sy >= 37 {
        lemma_pow10_mono(37, sx + sy);
        assert(40 * (c * c) * pow10(sx + sy) >= 40 * pow10(37)) by (nonlinear_arith)
            requires
                1 <= c && pow10(sx + sy) >= pow10(37) >= 1,
        ;
        assert(false);
    }
    lemma_pow10_add(sx, sy);
    assert(2 * c * pow10(sx) <= 40 * (c * c) * pow10(sx + sy) && 2 * c * pow10(sy) <= 40 * (c * c)
        * pow10(sx + sy)) by (nonlinear_arith)
        requires
            1 <= c && pow10(sx) >= 1 && pow10(sy) >= 1 && pow10(sx + sy) == pow10(sx) * pow10(sy),
    ;
}

/// Inside an area envelope every step of the shoelace chain stays in
/// `i128`: the four coordinate differences and the two products.
proof fn lemma_area_fits(t: Triangle, c: int, sx: nat, sy: nat)
    requires
        area_env(t, c, sx, sy),
    ensures
        sub_ok(t.b.x, t.a.x),
        sub_ok(t.c.y, t.a.y),
        sub_ok(t.c.x, t.a.x),
        sub_ok(t.b.y, t.a.y),
        abs_i(cross_p1_n(t)) <= 4 * (c * c) * pow10(cross_p1_s(t)),
        abs_i(cross_p2_n(t)) <= 4 * (c * c) * pow10(cross_p2_s(t)),
        i128::MIN <= cross_p1_n(t) <= i128::MAX,
        i128::MIN <= cross_p2_n(t) <= i128::MAX,
        cross_p1_s(t) <= sx + sy,
        cross_p2_s(t) <= sx + sy,
        sx + sy <= 36,
{
    lemma_env_scales(t, c, sx, sy);
    lemma_box_sub(t.b.x, t.a.x, c, sx);
    lemma_box_sub(t.c.y, t.a.y, c, sy);
    lemma_box_sub(t.c.x, t.a.x, c, sx);
    lemma_box_sub(t.b.y, t.a.y, c, sy);
    lemma_prod_bound(dsub_n(t.b.x, t.a.x), dscale(t.b.x, t.a.x), dsub_n(t.c.y, t.a.y), dscale(t.c.y, t.a.y), c);
    lemma_prod_bound(dsub_n(t.c.x, t.a.x), dscale(t.c.x, t.a.x), dsub_n(t.b.y, t.a.y), dscale(t.b.y, t.a.y), c);
    lemma_prod_in_range(cross_p1_n(t), cross_p1_s(t), c, sx + sy);
    lemma_prod_in_range(cross_p2_n(t), cross_p2_s(t), c, sx + sy);
}

/// A product bounded by `4c^2 * 10^s`, `s` under the summed budgets,
/// stays inside `i128`.
proof fn lemma_prod_in_range(n: int, s: nat, c: int, cap: nat)
    requires
        abs_i(n) <= 4 * (c * c) * pow10(s),
        s <= cap,
        1 <= c,
        40 * (c * c) * pow10(cap) <= i128::MAX,
    ensures
        i128::MIN <= n <= i128::MAX,
{
    lemma_pow10_pos(s);
    lemma_pow10_pos(cap);
    lemma_pow10_mono(s, cap);
    assert(4 * (c * c) * pow10(s) <= 40 * (c * c) * pow10(cap)) by (nonlinear_arith)
        requires
            1 <= c && 1 <= pow10(s) <= pow10(cap),
    ;
}

/// Difference of two boxed decimals: representable, of value at most
/// twice the box's, at a scale bounded by its budget.
proof fn lemma_box_sub(a: Dec, b: Dec, c: int, smax: nat)
    requires
        box_dec(a, c, smax),
        box_dec(b, c, smax),
        1 <= c,
        2 * c * pow10(smax) <= i128::MAX,
    ensures
        sub_ok(a, b),
        abs_i(dsub_n(a, b)) <= 2 * c * pow10(dscale(a, b)),
        dscale(a, b) <= smax,
{
    let s = dscale(a, b);
    lemma_bound_align(a, c, s);
    lemma_bound_align(b, c, s);
    lemma_pow10_pos(s);
    lemma_pow10_mono(s, smax);
    assert(2 * c * pow10(s) <= 2 * c * pow10(smax) && 2 * (c * pow10(s)) == 2 * c * pow10(
        s,
    )) by (nonlinear_arith)
        requires
            1 <= c && 1 <= pow10(s) <= pow10(smax),
    ;
}

/// Product of two differences of value at most `2c`: value at most
/// `4c^2`, at the summed scale.
proof fn lemma_prod_bound(n1: int, s1: nat, n2: int, s2: nat, c: int)
    requires
        abs_i(n1) <= 2 * c * pow10(s1),
        abs_i(n2) <= 2 * c * pow10(s2),
        1 <= c,
    ensures
        abs_i(n1 * n2) <= 4 * (c * c) * pow10(s1 + s2),
{
    lemma_pow10_pos(s1);
    lemma_pow10_pos(s2);
    let m1 = abs_i(n1);
    let m2 = abs_i(n2);
    assert(abs_i(n1 * n2) == m1 * m2) by (nonlinear_arith)
        requires
            (m1 == n1 || m1 == -n1) && (m2 == n2 || m2 == -n2) && m1 >= 0 && m2 >= 0,
    ;
    lemma_mul_upper_bound(m1, 2 * c * pow10(s1), m2, 2 * c * pow10(s2));
    assert((2 * c * pow10(s1)) * (2 * c * pow10(s2)) == 4 * (c * c) * (pow10(s1) * pow10(
        s2,
    ))) by (nonlinear_arith);
    lemma_pow10_add(s1, s2);
}

/// The aligned difference of the two shoelace products is exactly the
/// cross mantissa, and every remaining step stays in `i128`.
proof fn lemma_area_cross_ok(t: Triangle, q1: Dec, q2: Dec, c: int, sx: nat, sy: nat)
    requires
        area_env(t, c, sx, sy),
        q1.n() == cross_p1_n(t),
        q1.s() == cross_p1_s(t),
        q2.n() == cross_p2_n(t),
        q2.s() == cross_p2_s(t),
    ensures
        sub_ok(q1, q2),
        dsub_n(q1, q2) == cross_n(t),
        dscale(q1, q2) == cross_s(t),
        cross_n(t) > i128::MIN,
        abs_i(cross_n(t)) % 2 != 0 ==> 5 * abs_i(abs_i(cross_n(t))) <= i128::MAX,
{
    lemma_area_fits(t, c, sx, sy);
    let s = cross_s(t);
    let b = 4 * (c * c);
    lemma_bound_align(q1, b, s);
    lemma_bound_align(q2, b, s);
    lemma_pow10_pos(s);
    lemma_pow10_pos(sx + sy);
    lemma_pow10_mono(s, sx + sy);
    assert(2 * (b * pow10(s)) <= i128::MAX && 5 * (2 * (b * pow10(s))) <= i128::MAX) by (nonlinear_arith)
        requires
            1 <= c,
            b == 4 * (c * c),
            1 <= pow10(s) <= pow10(sx + sy),
            40 * (c * c) * pow10(sx + sy) <= i128::MAX,
    ;
}

/// The area of a triangle in the unit box with per-axis scale budgets
/// is at most four in value, at a scale bounded by the summed budgets
/// plus one.
pub proof fn lemma_area_bound(t: Triangle, sx: nat, sy: nat)
    requires
        box_xy(t, 1, sx, sy),
        sx + sy <= 36,
    ensures
        abs_i(area_n(t)) <= 4 * pow10(area_s(t)),
        area_s(t) <= sx + sy + 1,
{
    lemma_pow10_vals();
    lemma_pow10_mono(sx, 36);
    lemma_pow10_mono(sy, 36);
    lemma_pow10_mono(sx + sy, 36);
    crate::dec::lemma_scale40_fits(sx + sy);
    assert(40 * (1 * 1) * pow10(sx + sy) == 40 * pow10(sx + sy)) by (nonlinear_arith);
    assert(area_env(t, 1, sx, sy));
    lemma_box_sub(t.b.x, t.a.x, 1, sx);
    lemma_box_sub(t.c.y, t.a.y, 1, sy);
    lemma_box_sub(t.c.x, t.a.x, 1, sx);
    lemma_box_sub(t.b.y, t.a.y, 1, sy);
    lemma_prod_bound(dsub_n(t.b.x, t.a.x), dscale(t.b.x, t.a.x), dsub_n(t.c.y, t.a.y), dscale(t.c.y, t.a.y), 1);
    lemma_prod_bound(dsub_n(t.c.x, t.a.x), dscale(t.c.x, t.a.x), dsub_n(t.b.y, t.a.y), dscale(t.b.y, t.a.y), 1);
    assert(abs_i(cross_p1_n(t)) <= 4 * pow10(cross_p1_s(t)));
    assert(abs_i(cross_p2_n(t)) <= 4 * pow10(cross_p2_s(t)));
    let s = cross_s(t);
    lemma_pow10_pos(s);
    lemma_pow10_pos((s - cross_p1_s(t)) as nat);
    lemma_pow10_pos((s - cross_p2_s(t)) as nat);
    lemma_cross_term_bound(cross_p1_n(t), cross_p1_s(t), s);
    lemma_cross_term_bound(cross_p2_n(t), cross_p2_s(t), s);
    let n = abs_i(cross_n(t));
    assert(n <= 8 * pow10(s));
    if n % 2 == 0 {
        assert(abs_i(half_n(n)) <= 4 * pow10(s));
    } else {
        assert(abs_i(half_n(n)) <= 40 * pow10(s));
        assert(40 * pow10(s) == 4 * pow10(s + 1)) by {
            lemma_pow10_add(1, s);
            assert(pow10(1) == 10) by {
                reveal_with_fuel(pow10, 3);
            }
        }
    }
}

/// A shoelace product of value at most four, aligned to the common cross
/// scale, keeps a value bound of four.
proof fn lemma_cross_term_bound(n: int, s: nat, target: nat)
    requires
        abs_i(n) <= 4 * pow10(s),
        s <= target,
    ensures
        abs_i(n * pow10((target - s) as nat)) <= 4 * pow10(target),
{
    let d = (target - s) as nat;
    lemma_pow10_pos(d);
    lemma_pow10_pos(s);
    lemma_mul_sign(n, pow10(d));
    if n < 0 {
        vstd::arithmetic::mul::lemma_mul_unary_negation(n, pow10(d));
        lemma_mul_inequality(-n, 4 * pow10(s), pow10(d));
    } else {
        lemma_mul_inequality(n, 4 * pow10(s), pow10(d));
    }
    lemma_mul_is_associative(4, pow10(s), pow10(d));
    lemma_pow10_add(s, d);
}

/// The canonical root triangle of the chain, as a spec value: vertices
/// `(0, 0)`, `(1, 0)` and `(0.5, 0.86602540378)`.
pub open spec fn genesis_triangle_s() -> Triangle {
    Triangle {
        a: Point { x: Dec { mantissa: 0, scale: 1 }, y: Dec { mantissa: 0, scale: 1 } },
        b: Point { x: Dec { mantissa: 10, scale: 1 }, y: Dec { mantissa: 0, scale: 1 } },
        c: Point {
            x: Dec { mantissa: 5, scale: 1 },
            y: Dec { mantissa: 86602540378, scale: 11 },
        },
    }
}

/// Builds the canonical root triangle.
pub fn genesis_triangle() -> (r: Triangle)
    ensures
        r == genesis_triangle_s(),
{
    Triangle {
        a: Point { x: Dec::new(0, 1), y: Dec::new(0, 1) },
        b: Point { x: Dec::new(10, 1), y: Dec::new(0, 1) },
        c: Point { x: Dec::new(5, 1), y: Dec::new(86602540378, 11) },
    }
}

/// The root triangle sits in the unit box at scale eleven.
pub proof fn lemma_genesis_unit()
    ensures
        unit_tri(genesis_triangle_s(), 11),
        box_xy(genesis_triangle_s(), 1, 1, 11),
{
    assert(pow10(1) == 10 && pow10(11) == 100000000000) by {
        reveal_with_fuel(pow10, 12);
    }
}

/// The sides measured when testing for an equilateral shape, as the
/// decimal square roots named by the distance function.
pub open spec fn dec_of(p: (int, nat)) -> Dec {
    Dec { mantissa: p.0 as i128, scale: p.1 as u32 }
}

/// The side between `a` and `b` of `t`, and its two rotations.
pub open spec fn side_ab(t: Triangle) -> Dec {
    dec_of(sqrt_dec(dist_sq_n(t.a, t.b), dist_sq_s(t.a, t.b)))
}

pub open spec fn side_bc(t: Triangle) -> Dec {
    dec_of(sqrt_dec(dist_sq_n(t.b, t.c), dist_sq_s(t.b, t.c)))
}

pub open spec fn side_ca(t: Triangle) -> Dec {
    dec_of(sqrt_dec(dist_sq_n(t.c, t.a), dist_sq_s(t.c, t.a)))
}

/// The difference of two sides exists inside `i128` and can be negated.
pub open spec fn diff_reprs(x: Dec, y: Dec) -> bool {
    &&& sub_ok(x, y)
    &&& dsub_n(x, y) > i128::MIN
}

/// `|x - y| < eps`, over the exact values.
pub open spec fn sides_close(x: Dec, y: Dec, eps: Dec) -> bool {
    rat_lt(abs_i(dsub_n(x, y)), dscale(x, y), eps.n(), eps.s())
}

/// Whether the triangle is equilateral within `epsilon`: both adjacent
/// side differences are below it in magnitude. `None` when a difference
/// of measured sides leaves the exact domain.
pub fn is_equilateral(tri: &Triangle, epsilon: &Dec) -> (r: Option<bool>)
    requires
        coord_small(tri.a.x),
        coord_small(tri.a.y),
        coord_small(tri.b.x),
        coord_small(tri.b.y),
        coord_small(tri.c.x),
        coord_small(tri.c.y),
    ensures
        match r {
            Some(b) => b == (sides_close(side_ab(*tri), side_bc(*tri), *epsilon) && sides_close(
                side_bc(*tri),
                side_ca(*tri),
                *epsilon,
            )),
            None => !(diff_reprs(side_ab(*tri), side_bc(*tri)) && diff_reprs(
                side_bc(*tri),
                side_ca(*tri),
            )),
        },
{
    let d1 = tri.a.distance(&tri.b);
    let d2 = tri.b.distance(&tri.c);
    let d3 = tri.c.distance(&tri.a);
    proof {
        assert(d1 == side_ab(*tri));
        assert(d2 == side_bc(*tri));
        assert(d3 == side_ca(*tri));
    }
    match d1.checked_sub(&d2) {
        None => None,
        Some(e12) => match d2.checked_sub(&d3) {
            None => None,
            Some(e23) => {
                if e12.mantissa == i128::MIN || e23.mantissa == i128::MIN {
                    None
                } else {
                    Some(e12.abs().lt(epsilon) && e23.abs().lt(epsilon))
                }
            },
        },
    }
}

impl PartialEq for Triangle {
    /// Vertex-wise value equality.
    fn eq(&self, other: &Triangle) -> (r: bool) {
        self.a == other.a && self.b == other.b && self.c == other.c
    }
}

impl vstd::std_specs::cmp::PartialEqSpecImpl for Triangle {
    open spec fn obeys_eq_spec() -> bool {
        true
    }

    open spec fn eq_spec(&self, other: &Triangle) -> bool {
        &&& self.a.x.spec_eq(other.a.x) && self.a.y.spec_eq(other.a.y)
        &&& self.b.x.spec_eq(other.b.x) && self.b.y.spec_eq(other.b.y)
        &&& self.c.x.spec_eq(other.c.x) && self.c.y.spec_eq(other.c.y)
    }
}

/// Cancelling a common positive power of ten.
proof fn lemma_pow10_cancel(x: int, y: int, d: nat)
    requires
        x * pow10(d) == y * pow10(d),
    ensures
        x == y,
{
    lemma_pow10_pos(d);
    vstd::arithmetic::mul::lemma_mul_equality_converse(pow10(d), x, y);
}

/// A rational equality, re-expressed over a common scale `S`.
proof fn lemma_rat_eq_lift(x: int, sx: nat, y: int, sy: nat, s: nat)
    requires
        x * pow10(sy) == y * pow10(sx),
        sx <= s,
        sy <= s,
    ensures
        x * pow10((s - sx) as nat) == y * pow10((s - sy) as nat),
{
    let dx = (s - sx) as nat;
    let dy = (s - sy) as nat;
    assert((x * pow10(dx)) * pow10(sx + sy) == (y * pow10(dy)) * pow10(sx + sy)) by {
        lemma_pow10_add(sx, sy);
        lemma_pow10_add(dx, sx + sy);
        lemma_pow10_add(dy, sx + sy);
        lemma_pow10_add(sy, s);
        lemma_pow10_add(sx, s);
        assert(dx + (sx + sy) == sy + s);
        assert(dy + (sx + sy) == sx + s);
        assert((x * pow10(dx)) * pow10(sx + sy) == x * (pow10(dx) * pow10(sx + sy))) by {
            lemma_mul_is_associative(x, pow10(dx), pow10(sx + sy));
        }
        assert(x * pow10(sy + s) == (x * pow10(sy)) * pow10(s)) by {
            lemma_pow10_add(sy, s);
            lemma_mul_is_associative(x, pow10(sy), pow10(s));
        }
        assert(y * pow10(sx + s) == (y * pow10(sx)) * pow10(s)) by {
            lemma_pow10_add(sx, s);
            lemma_mul_is_associative(y, pow10(sx), pow10(s));
        }
        assert((y * pow10(dy)) * pow10(sx + sy) == y * (pow10(dy) * pow10(sx + sy))) by {
            lemma_mul_is_associative(y, pow10(dy), pow10(sx + sy));
        }
    }
    lemma_pow10_cancel(x * pow10((s - sx) as nat), y * pow10((s - sy) as nat), sx + sy);
}

/// The midpoint doubled, on the common scale `S`, is the sum of the two
/// endpoints on that scale.
proof fn lemma_mid_vsum(a: Dec, b: Dec, s: nat)
    requires
        a.s() <= s,
        b.s() <= s,
        mid_s(a, b) <= s,
    ensures
        2 * (mid_n(a, b) * pow10((s - mid_s(a, b)) as nat)) == align_n(a, s) + align_n(b, s),
{
    let ds = dscale(a, b);
    let n = dadd_n(a, b);
    // 2 * mid == sum, as a rational over (mid_s, ds)
    assert((2 * mid_n(a, b)) * pow10(ds) == n * pow10(mid_s(a, b))) by {
        if n % 2 == 0 {
            assert(half_n(n) == n / 2 && mid_s(a, b) == ds);
            assert(2 * (n / 2) == n);
        } else {
            assert(half_n(n) == 5 * n && mid_s(a, b) == ds + 1);
            assert(pow10(ds + 1) == 10 * pow10(ds));
            assert((2 * (5 * n)) * pow10(ds) == n * (10 * pow10(ds))) by (nonlinear_arith);
        }
    }
    lemma_rat_eq_lift(2 * mid_n(a, b), mid_s(a, b), n, ds, s);
    assert((2 * mid_n(a, b)) * pow10((s - mid_s(a, b)) as nat) == 2 * (mid_n(a, b) * pow10(
        (s - mid_s(a, b)) as nat,
    ))) by {
        lemma_mul_is_associative(2, mid_n(a, b), pow10((s - mid_s(a, b)) as nat));
    }
    // the aligned sum lifts coordinate-wise
    let d = (s - ds) as nat;
    assert(n * pow10(d) == align_n(a, ds) * pow10(d) + align_n(b, ds) * pow10(d)) by {
        vstd::arithmetic::mul::lemma_mul_is_distributive_add_other_way(
            pow10(d),
            align_n(a, ds),
            align_n(b, ds),
        );
    }
    lemma_align_align(a, ds, s);
    lemma_align_align(b, ds, s);
}

/// Aligning in two steps is aligning once.
proof fn lemma_align_align(a: Dec, s1: nat, s2: nat)
    requires
        a.s() <= s1 <= s2,
    ensures
        align_n(a, s1) * pow10((s2 - s1) as nat) == align_n(a, s2),
{
    lemma_pow10_add((s1 - a.s()) as nat, (s2 - s1) as nat);
    lemma_mul_is_associative(a.n(), pow10((s1 - a.s()) as nat), pow10((s2 - s1) as nat));
}

/// The signed cross product of `u` on the common scale `s`, written over
/// the aligned coordinates.
pub open spec fn cross_v(u: Triangle, s: nat) -> int {
    (align_n(u.b.x, s) - align_n(u.a.x, s)) * (align_n(u.c.y, s) - align_n(u.a.y, s)) - (align_n(
        u.c.x,
        s,
    ) - align_n(u.a.x, s)) * (align_n(u.b.y, s) - align_n(u.a.y, s))
}

/// The stored cross mantissa, lifted to the common scale, is the cross
/// product of the aligned coordinates.
proof fn lemma_cross_lift(u: Triangle, s: nat)
    requires
        u.a.x.s() <= s,
        u.a.y.s() <= s,
        u.b.x.s() <= s,
        u.b.y.s() <= s,
        u.c.x.s() <= s,
        u.c.y.s() <= s,
    ensures
        cross_n(u) * pow10((2 * s - cross_s(u)) as nat) == cross_v(u, s),
{
    let dx1 = dsub_n(u.b.x, u.a.x);
    let sx1 = dscale(u.b.x, u.a.x);
    let dy2 = dsub_n(u.c.y, u.a.y);
    let sy2 = dscale(u.c.y, u.a.y);
    let dx2 = dsub_n(u.c.x, u.a.x);
    let sx2 = dscale(u.c.x, u.a.x);
    let dy1 = dsub_n(u.b.y, u.a.y);
    let sy1 = dscale(u.b.y, u.a.y);
    lemma_sub_lift(u.b.x, u.a.x, s);
    lemma_sub_lift(u.c.y, u.a.y, s);
    lemma_sub_lift(u.c.x, u.a.x, s);
    lemma_sub_lift(u.b.y, u.a.y, s);
    // products: (p * 10^(s - sp)) * (q * 10^(s - sq)) == (p * q) * 10^(2s - sp - sq)
    assert((dx1 * pow10((s - sx1) as nat)) * (dy2 * pow10((s - sy2) as nat)) == (dx1 * dy2)
        * pow10((2 * s - sx1 - sy2) as nat)) by {
        lemma_mul_shuffle(dx1, dy2, (s - sx1) as nat, (s - sy2) as nat);
    }
    assert((dx2 * pow10((s - sx2) as nat)) * (dy1 * pow10((s - sy1) as nat)) == (dx2 * dy1)
        * pow10((2 * s - sx2 - sy1) as nat)) by {
        lemma_mul_shuffle(dx2, dy1, (s - sx2) as nat, (s - sy1) as nat);
    }
    // the stored cross, lifted, distributes over the two products
    let cs = cross_s(u);
    let p1 = cross_p1_n(u);
    let p2 = cross_p2_n(u);
    let e1 = (cs - cross_p1_s(u)) as nat;
    let e2 = (cs - cross_p2_s(u)) as nat;
    let lift = (2 * s - cs) as nat;
    assert(cross_n(u) * pow10(lift) == (p1 * pow10(e1)) * pow10(lift) - (p2 * pow10(e2)) * pow10(
        lift,
    )) by {
        vstd::arithmetic::mul::lemma_mul_is_distributive_sub_other_way(
            pow10(lift),
            p1 * pow10(e1),
            p2 * pow10(e2),
        );
    }
    assert((p1 * pow10(e1)) * pow10(lift) == p1 * pow10((2 * s - sx1 - sy2) as nat)) by {
        lemma_mul_is_associative(p1, pow10(e1), pow10(lift));
        lemma_pow10_add(e1, lift);
        assert(e1 + lift == 2 * s - sx1 - sy2);
    }
    assert((p2 * pow10(e2)) * pow10(lift) == p2 * pow10((2 * s - sx2 - sy1) as nat)) by {
        lemma_mul_is_associative(p2, pow10(e2), pow10(lift));
        lemma_pow10_add(e2, lift);
        assert(e2 + lift == 2 * s - sx2 - sy1);
    }
}

/// A coordinate difference, lifted to the common scale, is the difference
/// of the aligned coordinates.
proof fn lemma_sub_lift(a: Dec, b: Dec, s: nat)
    requires
        a.s() <= s,
        b.s() <= s,
    ensures
        dsub_n(a, b) * pow10((s - dscale(a, b)) as nat) == align_n(a, s) - align_n(b, s),
{
    let ds = dscale(a, b);
    let d = (s - ds) as nat;
    vstd::arithmetic::mul::lemma_mul_is_distributive_sub_other_way(
        pow10(d),
        align_n(a, ds),
        align_n(b, ds),
    );
    lemma_align_align(a, ds, s);
    lemma_align_align(b, ds, s);
}

/// `(p * 10^a) * (q * 10^b) == (p * q) * 10^(a + b)`.
proof fn lemma_mul_shuffle(p: int, q: int, a: nat, b: nat)
    ensures
        (p * pow10(a)) * (q * pow10(b)) == (p * q) * pow10(a + b),
{
    lemma_pow10_add(a, b);
    assert((p * pow10(a)) * (q * pow10(b)) == (p * q) * (pow10(a) * pow10(b))) by (nonlinear_arith);
    lemma_mul_is_associative(p * q, pow10(a), pow10(b));
}

/// The largest coordinate scale of a triangle.
pub open spec fn tri_smax(t: Triangle) -> nat {
    let s1 = if t.a.x.s() >= t.a.y.s() {
        t.a.x.s()
    } else {
        t.a.y.s()
    };
    let s2 = if t.b.x.s() >= s1 {
        t.b.x.s()
    } else {
        s1
    };
    let s3 = if t.b.y.s() >= s2 {
        t.b.y.s()
    } else {
        s2
    };
    let s4 = if t.c.x.s() >= s3 {
        t.c.x.s()
    } else {
        s3
    };
    if t.c.y.s() >= s4 {
        t.c.y.s()
    } else {
        s4
    }
}

/// Four times a child's aligned cross product is the parent's: the
/// doubling equations of the three midpoints force the identity.
proof fn lemma_cross_quarter(t: Triangle, k: int, s: nat)
    requires
        tri_mid_ok(t),
        0 <= k < 4,
        tri_smax(t) + 1 <= s,
    ensures
        4 * cross_v(subdivide_r(t)[k], s) == cross_v(t, s),
{
    reveal(subdivide_r);
    lemma_mid_d_exact(t.a.x, t.b.x);
    lemma_mid_d_exact(t.a.y, t.b.y);
    lemma_mid_d_exact(t.b.x, t.c.x);
    lemma_mid_d_exact(t.b.y, t.c.y);
    lemma_mid_d_exact(t.c.x, t.a.x);
    lemma_mid_d_exact(t.c.y, t.a.y);
    let ax = align_n(t.a.x, s);
    let ay = align_n(t.a.y, s);
    let bx = align_n(t.b.x, s);
    let by = align_n(t.b.y, s);
    let cx = align_n(t.c.x, s);
    let cy = align_n(t.c.y, s);
    let mab = mid_pt(t.a, t.b);
    let mbc = mid_pt(t.b, t.c);
    let mca = mid_pt(t.c, t.a);
    lemma_mid_vsum(t.a.x, t.b.x, s);
    lemma_mid_vsum(t.a.y, t.b.y, s);
    lemma_mid_vsum(t.b.x, t.c.x, s);
    lemma_mid_vsum(t.b.y, t.c.y, s);
    lemma_mid_vsum(t.c.x, t.a.x, s);
    lemma_mid_vsum(t.c.y, t.a.y, s);
    let pabx = align_n(mab.x, s);
    let paby = align_n(mab.y, s);
    let pbcx = align_n(mbc.x, s);
    let pbcy = align_n(mbc.y, s);
    let pcax = align_n(mca.x, s);
    let pcay = align_n(mca.y, s);
    assert(2 * pabx == ax + bx && 2 * paby == ay + by);
    assert(2 * pbcx == bx + cx && 2 * pbcy == by + cy);
    assert(2 * pcax == cx + ax && 2 * pcay == cy + ay);
    if k == 0 {
        assert(4 * ((pabx - ax) * (pcay - ay) - (pcax - ax) * (paby - ay)) == (bx - ax) * (cy - ay)
            - (cx - ax) * (by - ay)) by (nonlinear_arith)
            requires
                2 * pabx == ax + bx,
                2 * paby == ay + by,
                2 * pcax == cx + ax,
                2 * pcay == cy + ay,
        ;
    } else if k == 1 {
        assert(4 * ((bx - pabx) * (pbcy - paby) - (pbcx - pabx) * (by - paby)) == (bx - ax) * (cy
            - ay) - (cx - ax) * (by - ay)) by (nonlinear_arith)
            requires
                2 * pabx == ax + bx,
                2 * paby == ay + by,
                2 * pbcx == bx + cx,
                2 * pbcy == by + cy,
        ;
    } else if k == 2 {
        assert(4 * ((pbcx - pcax) * (cy - pcay) - (cx - pcax) * (pbcy - pcay)) == (bx - ax) * (cy
            - ay) - (cx - ax) * (by - ay)) by (nonlinear_arith)
            requires
                2 * pbcx == bx + cx,
                2 * pbcy == by + cy,
                2 * pcax == cx + ax,
                2 * pcay == cy + ay,
        ;
    } else {
        assert(4 * ((pbcx - pabx) * (pcay - paby) - (pcax - pabx) * (pbcy - paby)) == (bx - ax) * (
        cy - ay) - (cx - ax) * (by - ay)) by (nonlinear_arith)
            requires
                2 * pabx == ax + bx,
                2 * paby == ay + by,
                2 * pbcx == bx + cx,
                2 * pbcy == by + cy,
                2 * pcax == cx + ax,
                2 * pcay == cy + ay,
        ;
    }
}

/// Halving, as a rational fact: twice the halved mantissa denotes the
/// original value.
proof fn lemma_half_rat(x: int, s: nat)
    ensures
        (2 * half_n(x)) * pow10(s) == x * pow10(
            if x % 2 == 0 {
                s
            } else {
                (s + 1) as nat
            },
        ),
{
    if x % 2 == 0 {
        assert(2 * (x / 2) == x);
    } else {
        assert(pow10(s + 1) == 10 * pow10(s));
        assert((2 * (5 * x)) * pow10(s) == x * (10 * pow10(s))) by (nonlinear_arith);
    }
}

/// The area conservation law, child by child: each of the four children
/// of the medial subdivision has exactly one quarter of the parent's
/// area, as exact rationals.
#[verifier::rlimit(100)]
pub proof fn lemma_area_quarter(t: Triangle, k: int)
    requires
        tri_mid_ok(t),
        0 <= k < 4,
    ensures
        rat_eq(
            4 * area_n(subdivide_r(t)[k]),
            area_s(subdivide_r(t)[k]),
            area_n(t),
            area_s(t),
        ),
{
    let u = subdivide_r(t)[k];
    lemma_cross_ratio(t, k);
    let cc = cross_n(u);
    let ct = cross_n(t);
    let csc = cross_s(u);
    let cst = cross_s(t);
    lemma_pow10_pos(csc);
    lemma_pow10_pos(cst);
    // absolute values keep the relation
    let acc = abs_i(cc);
    let act = abs_i(ct);
    assert(4 * acc * pow10(cst) == act * pow10(csc)) by (nonlinear_arith)
        requires
            (4 * cc) * pow10(cst) == ct * pow10(csc),
            pow10(cst) > 0,
            pow10(csc) > 0,
            (acc == cc || acc == -cc) && acc >= 0,
            (act == ct || act == -ct) && act >= 0,
    ;
    // halve both sides through the stored area representation
    lemma_half_rat(acc, csc);
    lemma_half_rat(act, cst);
    let ac = area_n(u);
    let at0 = area_n(t);
    let pc = pow10(area_s(u));
    let pt = pow10(area_s(t));
    let qc = pow10(csc);
    let qt = pow10(cst);
    lemma_pow10_pos(area_s(u));
    lemma_pow10_pos(area_s(t));
    lemma_pow10_pos(csc);
    lemma_pow10_pos(cst);
    lemma_quarter_combine(ac, at0, acc, act, pc, pt, qc, qt);
}

/// Four times a child's cross mantissa denotes the parent's cross, as
/// exact rationals over the stored scales.
proof fn lemma_cross_ratio(t: Triangle, k: int)
    requires
        tri_mid_ok(t),
        0 <= k < 4,
    ensures
        (4 * cross_n(subdivide_r(t)[k])) * pow10(cross_s(t)) == cross_n(t) * pow10(
            cross_s(subdivide_r(t)[k]),
        ),
{
    let s = tri_smax(t) + 1;
    let u = subdivide_r(t)[k];
    assert(u.a.x.s() <= s && u.a.y.s() <= s && u.b.x.s() <= s && u.b.y.s() <= s && u.c.x.s() <= s
        && u.c.y.s() <= s) by {
        reveal(subdivide_r);
        lemma_mid_d_exact(t.a.x, t.b.x);
        lemma_mid_d_exact(t.a.y, t.b.y);
        lemma_mid_d_exact(t.b.x, t.c.x);
        lemma_mid_d_exact(t.b.y, t.c.y);
        lemma_mid_d_exact(t.c.x, t.a.x);
        lemma_mid_d_exact(t.c.y, t.a.y);
    }
    lemma_cross_quarter(t, k, s);
    lemma_cross_ratio_from_v(u, t, s);
}

/// From the aligned quarter relation back to the stored cross mantissas
/// and scales.
proof fn lemma_cross_ratio_from_v(u: Triangle, t: Triangle, s: nat)
    requires
        u.a.x.s() <= s,
        u.a.y.s() <= s,
        u.b.x.s() <= s,
        u.b.y.s() <= s,
        u.c.x.s() <= s,
        u.c.y.s() <= s,
        t.a.x.s() <= s,
        t.a.y.s() <= s,
        t.b.x.s() <= s,
        t.b.y.s() <= s,
        t.c.x.s() <= s,
        t.c.y.s() <= s,
        4 * cross_v(u, s) == cross_v(t, s),
    ensures
        (4 * cross_n(u)) * pow10(cross_s(t)) == cross_n(t) * pow10(cross_s(u)),
{
    lemma_cross_lift(t, s);
    lemma_cross_lift(u, s);
    let cc = cross_n(u);
    let ct = cross_n(t);
    let csc = cross_s(u);
    let cst = cross_s(t);
    // lifted: 4 * cc * 10^(2s - csc) == ct * 10^(2s - cst)
    assert((4 * cc) * pow10((2 * s - csc) as nat) == ct * pow10((2 * s - cst) as nat)) by {
        lemma_mul_is_associative(4, cc, pow10((2 * s - csc) as nat));
    }
    // drop the common 10^(2s): 4 * cc * 10^cst == ct * 10^csc
    lemma_rat_eq_lift_inverse(4 * cc, csc, ct, cst, 2 * s);
}

/// Combines the three halving and quartering equalities into the
/// quarter-area statement, by walking one common multiple across them.
proof fn lemma_quarter_combine(
    ac: int,
    at0: int,
    acc: int,
    act: int,
    pc: int,
    pt: int,
    qc: int,
    qt: int,
)
    requires
        (2 * ac) * qc == acc * pc,
        (2 * at0) * qt == act * pt,
        4 * acc * qt == act * qc,
        qc > 0,
        qt > 0,
    ensures
        (4 * ac) * pt == at0 * pc,
{
    assert(8 * (ac * (qc * (qt * pt))) == (4 * (qt * pt)) * ((2 * ac) * qc)) by (nonlinear_arith);
    assert((4 * (qt * pt)) * (acc * pc) == (pt * pc) * ((4 * acc) * qt)) by (nonlinear_arith);
    assert((pt * pc) * (act * qc) == (qc * pc) * (act * pt)) by (nonlinear_arith);
    assert((qc * pc) * ((2 * at0) * qt) == (at0 * pc) * (2 * (qc * qt))) by (nonlinear_arith);
    assert(8 * (ac * (qc * (qt * pt))) == ((4 * ac) * pt) * (2 * (qc * qt))) by (nonlinear_arith);
    assert((4 * acc) * qt == act * qc) by (nonlinear_arith)
        requires
            4 * acc * qt == act * qc,
    ;
    assert(((4 * ac) * pt) * (2 * (qc * qt)) == (at0 * pc) * (2 * (qc * qt)));
    assert(2 * (qc * qt) > 0) by {
        vstd::arithmetic::mul::lemma_mul_strictly_positive(qc, qt);
    }
    lemma_mul_is_commutative((4 * ac) * pt, 2 * (qc * qt));
    lemma_mul_is_commutative(at0 * pc, 2 * (qc * qt));
    vstd::arithmetic::mul::lemma_mul_equality_converse(2 * (qc * qt), (4 * ac) * pt, at0 * pc);
}

/// The larger of four naturals.
pub open spec fn quad_max(a: nat, b: nat, c: nat, d: nat) -> nat {
    let m1 = if a >= b {
        a
    } else {
        b
    };
    let m2 = if c >= m1 {
        c
    } else {
        m1
    };
    if d >= m2 {
        d
    } else {
        m2
    }
}

/// The common scale the four children's areas are summed at.
pub open spec fn children_area_scale(t: Triangle) -> nat {
    let c = subdivide_r(t);
    quad_max(area_s(c[0]), area_s(c[1]), area_s(c[2]), area_s(c[3]))
}

/// The four children's area mantissas, aligned to the common scale and
/// summed.
pub open spec fn children_area_sum_n(t: Triangle) -> int {
    let c = subdivide_r(t);
    let m = children_area_scale(t);
    area_n(c[0]) * pow10((m - area_s(c[0])) as nat) + area_n(c[1]) * pow10(
        (m - area_s(c[1])) as nat,
    ) + area_n(c[2]) * pow10((m - area_s(c[2])) as nat) + area_n(c[3]) * pow10(
        (m - area_s(c[3])) as nat,
    )
}

/// One quarter relation, lifted to the common child scale.
proof fn lemma_quarter_lifted(t: Triangle, k: int)
    requires
        tri_mid_ok(t),
        0 <= k < 4,
        area_s(subdivide_r(t)[k]) <= children_area_scale(t),
    ensures
        (4 * (area_n(subdivide_r(t)[k]) * pow10(
            (children_area_scale(t) - area_s(subdivide_r(t)[k])) as nat,
        ))) * pow10(area_s(t)) == area_n(t) * pow10(children_area_scale(t)),
{
    lemma_area_quarter(t, k);
    let u = subdivide_r(t)[k];
    let m = children_area_scale(t);
    let d = (m - area_s(u)) as nat;
    let au = area_n(u);
    let at0 = area_n(t);
    let pt = pow10(area_s(t));
    let pu = pow10(area_s(u));
    let pd = pow10(d);
    assert(((4 * au) * pt) * pd == (at0 * pu) * pd);
    assert(((4 * au) * pt) * pd == (4 * (au * pd)) * pt) by (nonlinear_arith);
    assert((at0 * pu) * pd == at0 * (pu * pd)) by {
        lemma_mul_is_associative(at0, pu, pd);
    }
    assert(pu * pd == pow10(m)) by {
        lemma_pow10_add(area_s(u), d);
    }
}

/// The area conservation law, summed: the four children's areas together
/// denote exactly the parent's area, as exact rationals.
pub proof fn lemma_area_conservation(t: Triangle)
    requires
        tri_mid_ok(t),
    ensures
        rat_eq(children_area_sum_n(t), children_area_scale(t), area_n(t), area_s(t)),
{
    let c = subdivide_r(t);
    let m = children_area_scale(t);
    lemma_quarter_lifted(t, 0);
    lemma_quarter_lifted(t, 1);
    lemma_quarter_lifted(t, 2);
    lemma_quarter_lifted(t, 3);
    let x0 = area_n(c[0]) * pow10((m - area_s(c[0])) as nat);
    let x1 = area_n(c[1]) * pow10((m - area_s(c[1])) as nat);
    let x2 = area_n(c[2]) * pow10((m - area_s(c[2])) as nat);
    let x3 = area_n(c[3]) * pow10((m - area_s(c[3])) as nat);
    let pt = pow10(area_s(t));
    assert((4 * x0) * pt + (4 * x1) * pt + (4 * x2) * pt + (4 * x3) * pt == 4 * ((x0 + x1 + x2
        + x3) * pt)) by (nonlinear_arith);
    assert(4 * ((x0 + x1 + x2 + x3) * pt) == 4 * (area_n(t) * pow10(m)));
}

/// Dropping a common power of ten from both sides of a lifted equality.
proof fn lemma_rat_eq_lift_inverse(x: int, sx: nat, y: int, sy: nat, s: nat)
    requires
        sx <= s,
        sy <= s,
        x * pow10((s - sx) as nat) == y * pow10((s - sy) as nat),
    ensures
        x * pow10(sy) == y * pow10(sx),
{
    let dx = (s - sx) as nat;
    let dy = (s - sy) as nat;
    assert((x * pow10(sy)) * pow10(dx + dy) == (y * pow10(sx)) * pow10(dx + dy)) by {
        lemma_pow10_add(dx, dy);
        lemma_pow10_add(sy, dx + dy);
        lemma_pow10_add(sx, dx + dy);
        lemma_pow10_add(dx, s);
        lemma_pow10_add(dy, s);
        assert(sy + (dx + dy) == dx + s);
        assert(sx + (dx + dy) == dy + s);
        assert((x * pow10(sy)) * pow10(dx + dy) == x * (pow10(sy) * pow10(dx + dy))) by {
            lemma_mul_is_associative(x, pow10(sy), pow10(dx + dy));
        }
        assert(x * pow10(dx + s) == (x * pow10(dx)) * pow10(s)) by {
            lemma_pow10_add(dx, s);
            lemma_mul_is_associative(x, pow10(dx), pow10(s));
        }
        assert(y * pow10(dy + s) == (y * pow10(dy)) * pow10(s)) by {
            lemma_pow10_add(dy, s);
            lemma_mul_is_associative(y, pow10(dy), pow10(s));
        }
        assert((y * pow10(sx)) * pow10(dx + dy) == y * (pow10(sx) * pow10(dx + dy))) by {
            lemma_mul_is_associative(y, pow10(sx), pow10(dx + dy));
        }
    }
    lemma_pow10_cancel(x * pow10(sy), y * pow10(sx), dx + dy);
}

/// Every child of the subdivision of a unit-box triangle is again a
/// unit-box triangle, one scale step further out.
/// Every child of the subdivision of a boxed triangle sits in the same
/// value box, with each axis budget grown by one.
pub proof fn lemma_subdivide_box(t: Triangle, c: int, sx: nat, sy: nat)
    requires
        box_xy(t, c, sx, sy),
        1 <= c,
        10 * c * pow10(sx) <= i128::MAX,
        10 * c * pow10(sy) <= i128::MAX,
    ensures
        tri_mid_ok(t),
        subdivide_r(t).len() == 4,
        box_xy(subdivide_r(t)[0], c, sx + 1, sy + 1),
        box_xy(subdivide_r(t)[1], c, sx + 1, sy + 1),
        box_xy(subdivide_r(t)[2], c, sx + 1, sy + 1),
        box_xy(subdivide_r(t)[3], c, sx + 1, sy + 1),
{
    reveal(subdivide_r);
    lemma_mid_box(t.a.x, t.b.x, c, sx);
    lemma_mid_box(t.a.y, t.b.y, c, sy);
    lemma_mid_box(t.b.x, t.c.x, c, sx);
    lemma_mid_box(t.b.y, t.c.y, c, sy);
    lemma_mid_box(t.c.x, t.a.x, c, sx);
    lemma_mid_box(t.c.y, t.a.y, c, sy);
}

pub proof fn lemma_subdivide_unit(t: Triangle, smax: nat)
    requires
        unit_tri(t, smax),
        smax <= 37,
    ensures
        tri_mid_ok(t),
        subdivide_r(t).len() == 4,
        unit_tri(subdivide_r(t)[0], smax + 1),
        unit_tri(subdivide_r(t)[1], smax + 1),
        unit_tri(subdivide_r(t)[2], smax + 1),
        unit_tri(subdivide_r(t)[3], smax + 1),
{
    reveal(subdivide_r);
    lemma_mid_unit(t.a.x, t.b.x, smax);
    lemma_mid_unit(t.a.y, t.b.y, smax);
    lemma_mid_unit(t.b.x, t.c.x, smax);
    lemma_mid_unit(t.b.y, t.c.y, smax);
    lemma_mid_unit(t.c.x, t.a.x, smax);
    lemma_mid_unit(t.c.y, t.a.y, smax);
    lemma_pow10_mono(t.a.x.s(), t.a.x.s() + 1);
}

} // verus!
