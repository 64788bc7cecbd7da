//! Exact decimal numbers: an integer mantissa together with a power-of-ten
//! scale, denoting the rational value `mantissa / 10^scale`.
//!
//! All arithmetic here is exact: an operation either returns the precise
//! rational result (re-scaled as needed) or is guarded by a precondition
//! that keeps the mantissa inside `i128`.

use vstd::prelude::*;
use vstd::arithmetic::mul::*;

verus! {

/// `10^e` as a mathematical integer.
pub open spec fn pow10(e: nat) -> int
    decreases e,
{
    if e == 0 {
        1
    } else {
        10 * pow10((e - 1) as nat)
    }
}

pub broadcast proof fn lemma_pow10_pos(e: nat)
    ensures
        #[trigger] pow10(e) >= 1,
    decreases e,
{
    if e > 0 {
        lemma_pow10_pos((e - 1) as nat);
    }
}

pub proof fn lemma_pow10_add(a: nat, b: nat)
    ensures
        pow10(a + b) == pow10(a) * pow10(b),
    decreases a,
{
    if a == 0 {
        assert(pow10(0 + b) == 1 * pow10(b));
    } else {
        lemma_pow10_add((a - 1) as nat, b);
        assert(pow10((a - 1) as nat + b + 1) == 10 * pow10((a - 1) as nat + b));
        lemma_mul_is_associative(10, pow10((a - 1) as nat), pow10(b));
    }
}

pub proof fn lemma_pow10_mono(a: nat, b: nat)
    requires
        a <= b,
    ensures
        pow10(a) <= pow10(b),
    decreases b,
{
    if a < b {
        lemma_pow10_mono(a, (b - 1) as nat);
        lemma_pow10_pos((b - 1) as nat);
    }
}

/// An exact decimal: the value `mantissa / 10^scale`.
#[derive(Clone, Copy, Debug)]
pub struct Dec {
    pub mantissa: i128,
    pub scale: u32,
}

/// `a/10^sa < b/10^sb`, stated over the cross-multiplied integers.
pub open spec fn rat_lt(na: int, sa: nat, nb: int, sb: nat) -> bool {
    na * pow10(sb) < nb * pow10(sa)
}

/// `a/10^sa == b/10^sb`, stated over the cross-multiplied integers.
pub open spec fn rat_eq(na: int, sa: nat, nb: int, sb: nat) -> bool {
    na * pow10(sb) == nb * pow10(sa)
}

impl Dec {
    /// The mantissa as a mathematical integer.
    pub open spec fn n(self) -> int {
        self.mantissa as int
    }

    /// The scale as a mathematical natural.
    pub open spec fn s(self) -> nat {
        self.scale as nat
    }

    /// The denoted value is strictly below `other`'s.
    pub open spec fn spec_lt(self, other: Dec) -> bool {
        rat_lt(self.n(), self.s(), other.n(), other.s())
    }

    /// The denoted values are equal.
    pub open spec fn spec_eq(self, other: Dec) -> bool {
        rat_eq(self.n(), self.s(), other.n(), other.s())
    }

    /// Builds the decimal `mantissa / 10^scale`.
    pub fn new(mantissa: i64, scale: u32) -> (r: Dec)
        ensures
            r.mantissa == mantissa as i128,
            r.scale == scale,
    {
        Dec { mantissa: mantissa as i128, scale }
    }

    /// Exact value comparison: strictly less than.
    pub fn lt(&self, other: &Dec) -> (r: bool)
        ensures
            r == self.spec_lt(*other),
    {
        let a = *self;
        let b = *other;
        if a.scale == b.scale {
            proof {
                lemma_pow10_pos(a.s());
                if a.mantissa < b.mantissa {
                    lemma_mul_strict_inequality(a.n(), b.n(), pow10(a.s()));
                } else {
                    lemma_mul_inequality(b.n(), a.n(), pow10(a.s()));
                }
            }
            assert((a.mantissa < b.mantissa) == a.spec_lt(b));
            a.mantissa < b.mantissa
        } else if a.scale < b.scale {
            // align a up to b's scale; r == (a.m * 10^d < b.m)
            let d = b.scale - a.scale;
            proof {
                lemma_pow10_add(a.s(), d as nat);
                lemma_pow10_pos(a.s());
                lemma_pow10_pos(d as nat);
            }
            // rat_lt(a, b) <==> a.m * 10^d < b.m, by cancelling 10^(a.s)
            if a.mantissa == 0 {
                proof {
                    lemma_mul_sign(b.n(), pow10(a.s()));
                }
                assert((0 < b.mantissa) == a.spec_lt(b));
                0 < b.mantissa
            } else if d > 38 {
                // |a.m * 10^d| >= 10^39 > i128::MAX >= |b.m|: decided by a's sign
                proof {
                    lemma_pow10_mono(39, d as nat);
                    lemma_aligned_huge(a.n(), b.n(), d as nat);
                    lemma_lt_align(a.n(), a.s(), b.n(), d as nat);
                }
                assert((a.mantissa < 0) == a.spec_lt(b));
                a.mantissa < 0
            } else {
                let p = pow10_i128(d);
                proof {
                    lemma_lt_align(a.n(), a.s(), b.n(), d as nat);
                }
                match a.mantissa.checked_mul(p) {
                    Some(am) => {
                        assert((am < b.mantissa) == a.spec_lt(b));
                        am < b.mantissa
                    },
                    None => {
                        proof {
                            lemma_overflow_decides(a.n(), b.n(), d as nat);
                        }
                        assert((a.mantissa < 0) == a.spec_lt(b));
                        a.mantissa < 0
                    },
                }
            }
        } else {
            // align b up to a's scale; r == (a.m < b.m * 10^d)
            let d = a.scale - b.scale;
            proof {
                lemma_pow10_add(b.s(), d as nat);
                lemma_pow10_pos(b.s());
                lemma_pow10_pos(d as nat);
            }
            if b.mantissa == 0 {
                proof {
                    lemma_mul_sign(a.n(), pow10(b.s()));
                }
                assert((a.mantissa < 0) == a.spec_lt(b));
                a.mantissa < 0
            } else if d > 38 {
                proof {
                    lemma_pow10_mono(39, d as nat);
                    lemma_aligned_huge(b.n(), a.n(), d as nat);
                    lemma_lt_align_right(a.n(), b.n(), b.s(), d as nat);
                }
                assert((0 < b.mantissa) == a.spec_lt(b));
                0 < b.mantissa
            } else {
                let p = pow10_i128(d);
                proof {
                    lemma_lt_align_right(a.n(), b.n(), b.s(), d as nat);
                }
                match b.mantissa.checked_mul(p) {
                    Some(bm) => {
                        assert((a.mantissa < bm) == a.spec_lt(b));
                        a.mantissa < bm
                    },
                    None => {
                        proof {
                            lemma_overflow_decides_right(a.n(), b.n(), d as nat);
                        }
                        assert((0 < b.mantissa) == a.spec_lt(b));
                        0 < b.mantissa
                    },
                }
            }
        }
    }

    /// Exact value comparison: less than or equal.
    pub fn le(&self, other: &Dec) -> (r: bool)
        ensures
            r == !other.spec_lt(*self),
    {
        !other.lt(self)
    }

    /// Exact difference, at the larger of the two scales.
    pub fn sub(&self, other: &Dec) -> (r: Dec)
        requires
            sub_ok(*self, *other),
        ensures
            r.n() == dsub_n(*self, *other),
            r.s() == dscale(*self, *other),
    {
        let s = if self.scale >= other.scale { self.scale } else { other.scale };
        let ma = align_exec(self, s);
        let mb = align_exec(other, s);
        Dec { mantissa: ma - mb, scale: s }
    }

    /// Exact sum, at the larger of the two scales.
    pub fn add(&self, other: &Dec) -> (r: Dec)
        requires
            sub_ok(*self, *other),
        ensures
            r.n() == dadd_n(*self, *other),
            r.s() == dscale(*self, *other),
    {
        let s = if self.scale >= other.scale { self.scale } else { other.scale };
        let ma = align_exec(self, s);
        let mb = align_exec(other, s);
        Dec { mantissa: ma + mb, scale: s }
    }

    /// Exact product; the scales add.
    pub fn mul(&self, other: &Dec) -> (r: Dec)
        requires
            self.n() * other.n() <= i128::MAX,
            self.n() * other.n() >= i128::MIN,
            self.s() + other.s() <= u32::MAX,
        ensures
            r.n() == self.n() * other.n(),
            r.s() == self.s() + other.s(),
    {
        Dec { mantissa: self.mantissa * other.mantissa, scale: self.scale + other.scale }
    }

    /// Exact division by two: an even mantissa is halved in place, an odd
    /// one becomes five times itself at the next scale.
    pub fn halve(&self) -> (r: Dec)
        requires
            half_ok(*self),
        ensures
            r.n() == half_n(self.n()),
            r.s() == half_s(*self),
    {
        if self.mantissa % 2 == 0 {
            Dec { mantissa: self.mantissa / 2, scale: self.scale }
        } else {
            Dec { mantissa: 5 * self.mantissa, scale: self.scale + 1 }
        }
    }

    /// Absolute value.
    pub fn abs(&self) -> (r: Dec)
        requires
            self.mantissa > i128::MIN,
        ensures
            r.n() == abs_i(self.n()),
            r.s() == self.s(),
    {
        if self.mantissa < 0 {
            Dec { mantissa: -self.mantissa, scale: self.scale }
        } else {
            *self
        }
    }
}

/// `|x|` on mathematical integers.
pub open spec fn abs_i(x: int) -> int {
    if x < 0 {
        -x
    } else {
        x
    }
}

/// The common scale for addition and subtraction: the larger one.
pub open spec fn dscale(a: Dec, b: Dec) -> nat {
    if a.s() >= b.s() {
        a.s()
    } else {
        b.s()
    }
}

/// `a`'s mantissa rescaled to scale `s` (meaningful when `s >= a.s()`).
pub open spec fn align_n(a: Dec, s: nat) -> int {
    a.n() * pow10((s - a.s()) as nat)
}

/// Both mantissas, aligned to the common scale, fit `i128` even summed.
pub open spec fn sub_ok(a: Dec, b: Dec) -> bool {
    abs_i(align_n(a, dscale(a, b))) + abs_i(align_n(b, dscale(a, b))) <= i128::MAX
}

/// The aligned difference: the mantissa of `a - b` at scale `dscale`.
pub open spec fn dsub_n(a: Dec, b: Dec) -> int {
    align_n(a, dscale(a, b)) - align_n(b, dscale(a, b))
}

/// The aligned sum: the mantissa of `a + b` at scale `dscale`.
pub open spec fn dadd_n(a: Dec, b: Dec) -> int {
    align_n(a, dscale(a, b)) + align_n(b, dscale(a, b))
}

/// Halving stays exact and representable.
pub open spec fn half_ok(a: Dec) -> bool {
    &&& a.n() % 2 != 0 ==> 5 * abs_i(a.n()) <= i128::MAX && a.s() + 1 <= u32::MAX
}

/// The mantissa of `a / 2`.
pub open spec fn half_n(n: int) -> int {
    if n % 2 == 0 {
        n / 2
    } else {
        5 * n
    }
}

/// The scale of `a / 2`.
pub open spec fn half_s(a: Dec) -> nat {
    if a.n() % 2 == 0 {
        a.s()
    } else {
        a.s() + 1
    }
}

/// The midpoint mantissa of `a` and `b`: half their aligned sum.
pub open spec fn mid_n(a: Dec, b: Dec) -> int {
    half_n(dadd_n(a, b))
}

/// The midpoint scale of `a` and `b`.
pub open spec fn mid_s(a: Dec, b: Dec) -> nat {
    if dadd_n(a, b) % 2 == 0 {
        dscale(a, b)
    } else {
        dscale(a, b) + 1
    }
}

/// The midpoint of `a` and `b` stays exactly representable.
pub open spec fn mid_ok(a: Dec, b: Dec) -> bool {
    &&& sub_ok(a, b)
    &&& dadd_n(a, b) % 2 != 0 ==> 5 * abs_i(dadd_n(a, b)) <= i128::MAX && dscale(a, b) + 1
        <= u32::MAX
}

/// The midpoint of `a` and `b` as a `Dec` (exact whenever `mid_ok` holds).
pub open spec fn mid_d(a: Dec, b: Dec) -> Dec {
    Dec { mantissa: mid_n(a, b) as i128, scale: mid_s(a, b) as u32 }
}

/// Inside `mid_ok` the `mid_d` fields are exactly the mirror values.
pub proof fn lemma_mid_d_exact(a: Dec, b: Dec)
    requires
        mid_ok(a, b),
    ensures
        mid_d(a, b).n() == mid_n(a, b),
        mid_d(a, b).s() == mid_s(a, b),
{
    let n = dadd_n(a, b);
    if n % 2 == 0 {
        assert(abs_i(half_n(n)) <= abs_i(n));
    }
}

/// A boxed decimal: value of magnitude at most `c`, scale at most `smax`.
pub open spec fn box_dec(d: Dec, c: int, smax: nat) -> bool {
    &&& d.s() <= smax
    &&& abs_i(d.n()) <= c * pow10(d.s())
}

/// A unit-box decimal: value of magnitude at most one, scale at most `smax`.
pub open spec fn unit_dec(d: Dec, smax: nat) -> bool {
    box_dec(d, 1, smax)
}

/// The midpoint of two boxed decimals is representable and stays in the
/// same value box, with the scale growing by at most one. The last
/// premise keeps the halving step inside `i128`.
pub proof fn lemma_mid_box(a: Dec, b: Dec, c: int, smax: nat)
    requires
        box_dec(a, c, smax),
        box_dec(b, c, smax),
        1 <= c,
        10 * c * pow10(smax) <= i128::MAX,
    ensures
        mid_ok(a, b),
        box_dec(mid_d(a, b), c, smax + 1),
        mid_d(a, b).n() == mid_n(a, b),
        mid_d(a, b).s() == mid_s(a, b),
{
    let s = dscale(a, b);
    lemma_bound_align(a, c, s);
    lemma_bound_align(b, c, s);
    lemma_pow10_pos(s);
    lemma_pow10_pos(smax);
    lemma_pow10_mono(s, smax);
    lemma_pow10_39();
    if smax >= 38 {
        lemma_pow10_mono(38, smax);
        assert(10 * pow10(38) == pow10(39)) by {
            lemma_pow10_add(1, 38);
            assert(pow10(1) == 10) by {
                reveal_with_fuel(pow10, 3);
            }
        }
        assert(10 * c * pow10(smax) >= 10 * pow10(38)) by (nonlinear_arith)
            requires
                1 <= c && pow10(smax) >= pow10(38) >= 1,
        ;
        assert(false);
    }
    assert(10 * c * pow10(s) <= 10 * c * pow10(smax)) by {
        lemma_mul_inequality(pow10(s), pow10(smax), 10 * c);
        lemma_mul_is_commutative(pow10(s), 10 * c);
        lemma_mul_is_commutative(pow10(smax), 10 * c);
    }
    let n = dadd_n(a, b);
    assert(abs_i(n) <= 2 * (c * pow10(s)));
    assert(2 * (c * pow10(s)) <= 10 * c * pow10(s) && 5 * (2 * (c * pow10(s))) == 10 * c * pow10(
        s,
    )) by (nonlinear_arith)
        requires
            1 <= c && pow10(s) >= 1,
    ;
    if n % 2 == 0 {
        assert(abs_i(half_n(n)) <= c * pow10(s)) by {
            assert(half_n(n) == n / 2);
        }
    } else {
        assert(abs_i(half_n(n)) <= 10 * c * pow10(s));
        assert(10 * c * pow10(s) == c * pow10(s + 1)) by (nonlinear_arith)
            requires
                pow10(s + 1) == 10 * pow10(s),
        ;
    }
    lemma_mid_d_exact(a, b);
}

/// The unit-box case of `lemma_mid_box`, for budgets inside `i128`.
pub proof fn lemma_mid_unit(a: Dec, b: Dec, smax: nat)
    requires
        unit_dec(a, smax),
        unit_dec(b, smax),
        smax <= 37,
    ensures
        mid_ok(a, b),
        unit_dec(mid_d(a, b), smax + 1),
        mid_d(a, b).n() == mid_n(a, b),
        mid_d(a, b).s() == mid_s(a, b),
{
    lemma_pow10_mono(smax, 37);
    lemma_pow10_39();
    assert(10 * pow10(37) == pow10(38)) by {
        lemma_pow10_add(1, 37);
        assert(pow10(1) == 10) by {
            reveal_with_fuel(pow10, 3);
        }
    }
    lemma_mid_box(a, b, 1, smax);
}

/// Aligned mantissa of `a` at scale `s`, or `None` when it leaves `i128`.
pub fn align_checked(a: &Dec, s: u32) -> (r: Option<i128>)
    requires
        a.s() <= s as nat,
    ensures
        match r {
            Some(m) => m as int == align_n(*a, s as nat),
            None => abs_i(align_n(*a, s as nat)) > i128::MAX,
        },
{
    let d = s - a.scale;
    if a.mantissa == 0 {
        proof {
            lemma_pow10_pos(d as nat);
            lemma_mul_sign(a.n(), pow10(d as nat));
        }
        Some(0)
    } else if d > 38 {
        proof {
            lemma_pow10_mono(39, d as nat);
            lemma_pow10_39();
            lemma_pow10_pos(d as nat);
            if a.n() >= 1 {
                lemma_mul_inequality(1, a.n(), pow10(d as nat));
                assert(1 * pow10(d as nat) == pow10(d as nat));
            } else {
                lemma_mul_inequality(a.n(), -1, pow10(d as nat));
                assert((-1) * pow10(d as nat) == -pow10(d as nat));
            }
        }
        None
    } else {
        let p = pow10_i128(d);
        a.mantissa.checked_mul(p)
    }
}

impl Dec {
    /// Exact difference when it is representable, `None` otherwise.
    pub fn checked_sub(&self, other: &Dec) -> (r: Option<Dec>)
        ensures
            match r {
                Some(d) => d.n() == dsub_n(*self, *other) && d.s() == dscale(*self, *other),
                None => !sub_ok(*self, *other),
            },
    {
        let s = if self.scale >= other.scale { self.scale } else { other.scale };
        match align_checked(self, s) {
            None => None,
            Some(ma) => match align_checked(other, s) {
                None => None,
                Some(mb) => match ma.checked_sub(mb) {
                    None => None,
                    Some(m) => Some(Dec { mantissa: m, scale: s }),
                },
            },
        }
    }
}

/// The powers of ten the overflow envelopes compare against.
pub proof fn lemma_pow10_vals()
    ensures
        pow10(12) == 1000000000000,
        pow10(24) == 1000000000000000000000000,
        pow10(36) == 1000000000000000000000000000000000000,
        pow10(37) == 10000000000000000000000000000000000000,
{
    assert(pow10(12) == 1000000000000 && pow10(24) == 1000000000000000000000000 && pow10(36)
        == 1000000000000000000000000000000000000 && pow10(37)
        == 10000000000000000000000000000000000000) by {
        reveal_with_fuel(pow10, 38);
    }
}

/// Forty times a power of ten up to the thirty-sixth stays in `i128`.
pub proof fn lemma_scale40_fits(e: nat)
    requires
        e <= 36,
    ensures
        40 * pow10(e) <= i128::MAX,
{
    lemma_pow10_mono(e, 36);
    lemma_pow10_vals();
    let big: int = 1000000000000000000000000000000000000;
    assert(40 * pow10(e) <= 40 * big) by {
        lemma_mul_inequality(pow10(e), big, 40);
        lemma_mul_is_commutative(pow10(e), 40);
        lemma_mul_is_commutative(big, 40);
    }
}

/// A value bound survives rescaling: if `|a| <= c` as a value, the
/// mantissa aligned to scale `s` is at most `c * 10^s`.
pub proof fn lemma_bound_align(a: Dec, c: int, s: nat)
    requires
        abs_i(a.n()) <= c * pow10(a.s()),
        a.s() <= s,
    ensures
        abs_i(align_n(a, s)) <= c * pow10(s),
{
    let d = (s - a.s()) as nat;
    lemma_pow10_pos(d);
    lemma_pow10_pos(a.s());
    lemma_mul_sign(a.n(), pow10(d));
    if a.n() < 0 {
        lemma_mul_unary_negation(a.n(), pow10(d));
        lemma_mul_inequality(-a.n(), c * pow10(a.s()), pow10(d));
    } else {
        lemma_mul_inequality(a.n(), c * pow10(a.s()), pow10(d));
    }
    lemma_mul_is_associative(c, pow10(a.s()), pow10(d));
    lemma_pow10_add(a.s(), d);
}

/// The aligned mantissa of `a` at a scale `s >= a.s()`, as an `i128`.
fn align_exec(a: &Dec, s: u32) -> (r: i128)
    requires
        a.s() <= s as nat,
        abs_i(align_n(*a, s as nat)) <= i128::MAX,
    ensures
        r as int == align_n(*a, s as nat),
{
    let d = s - a.scale;
    if a.mantissa == 0 {
        proof {
            assert(align_n(*a, s as nat) == 0) by {
                lemma_mul_basics(pow10(d as nat));
            }
        }
        0
    } else {
        proof {
            lemma_pow10_pos(d as nat);
            if d > 38 {
                lemma_pow10_mono(39, d as nat);
                lemma_pow10_39();
                if a.n() >= 1 {
                    lemma_mul_inequality(1, a.n(), pow10(d as nat));
                    assert(1 * pow10(d as nat) == pow10(d as nat));
                } else {
                    lemma_mul_inequality(a.n(), -1, pow10(d as nat));
                    assert((-1) * pow10(d as nat) == -pow10(d as nat));
                }
                assert(false);
            }
        }
        let p = pow10_i128(d);
        proof {
            lemma_mul_sign(a.n(), pow10(d as nat));
        }
        a.mantissa * p
    }
}

/// A product with a positive factor keeps the other factor's sign.
pub proof fn lemma_mul_sign(x: int, p: int)
    requires
        p > 0,
    ensures
        (x < 0) == (x * p < 0),
        (x > 0) == (x * p > 0),
        (x == 0) == (x * p == 0),
{
    if x < 0 {
        lemma_mul_strictly_positive(-x, p);
        lemma_mul_unary_negation(x, p);
    } else if x > 0 {
        lemma_mul_strictly_positive(x, p);
    }
}

/// After cancelling `10^sa`: `rat_lt(a, b) <==> a.m * 10^d < b.m`
/// where `d = b.s - a.s`.
proof fn lemma_lt_align(na: int, sa: nat, nb: int, d: nat)
    ensures
        rat_lt(na, sa, nb, sa + d) == (na * pow10(d) < nb),
{
    lemma_pow10_add(sa, d);
    lemma_pow10_pos(sa);
    lemma_pow10_pos(d);
    // rat_lt: na * (10^sa * 10^d) < nb * 10^sa
    lemma_mul_is_associative(na, pow10(sa), pow10(d));
    lemma_mul_is_commutative(pow10(sa), pow10(d));
    lemma_mul_is_associative(na, pow10(d), pow10(sa));
    if na * pow10(d) < nb {
        lemma_mul_strict_inequality(na * pow10(d), nb, pow10(sa));
    }
    if (na * pow10(d)) * pow10(sa) < nb * pow10(sa) {
        lemma_mul_strict_inequality_converse(na * pow10(d), nb, pow10(sa));
    }
}

/// After cancelling `10^sb`: `rat_lt(a, b) <==> a.m < b.m * 10^d`
/// where `d = a.s - b.s`.
proof fn lemma_lt_align_right(na: int, nb: int, sb: nat, d: nat)
    ensures
        rat_lt(na, sb + d, nb, sb) == (na < nb * pow10(d)),
{
    lemma_pow10_add(sb, d);
    lemma_pow10_pos(sb);
    lemma_pow10_pos(d);
    lemma_mul_is_associative(nb, pow10(sb), pow10(d));
    lemma_mul_is_commutative(pow10(sb), pow10(d));
    lemma_mul_is_associative(nb, pow10(d), pow10(sb));
    if na < nb * pow10(d) {
        lemma_mul_strict_inequality(na, nb * pow10(d), pow10(sb));
    }
    if na * pow10(sb) < (nb * pow10(d)) * pow10(sb) {
        lemma_mul_strict_inequality_converse(na, nb * pow10(d), pow10(sb));
    }
}

/// A nonzero mantissa scaled by at least `10^39` lies outside `i128`,
/// so the comparison with any `i128` mantissa is decided by its sign.
proof fn lemma_aligned_huge(na: int, nb: int, d: nat)
    requires
        na != 0,
        pow10(39) <= pow10(d),
        -i128::MAX - 1 <= nb <= i128::MAX,
    ensures
        na < 0 ==> na * pow10(d) < nb,
        na > 0 ==> nb < na * pow10(d),
{
    lemma_pow10_pos(d);
    lemma_pow10_39();
    if na < 0 {
        lemma_mul_inequality(na, -1, pow10(d));
        assert((-1) * pow10(d) == -pow10(d));
    } else {
        lemma_mul_inequality(1, na, pow10(d));
        assert(1 * pow10(d) == pow10(d));
    }
}

/// When `a.m * 10^d` overflows `i128` the comparison with `b.m` is
/// decided by `a`'s sign.
proof fn lemma_overflow_decides(na: int, nb: int, d: nat)
    requires
        na * pow10(d) > i128::MAX || na * pow10(d) < i128::MIN,
        -i128::MAX - 1 <= nb <= i128::MAX,
    ensures
        na < 0 ==> na * pow10(d) < nb,
        na >= 0 ==> nb < na * pow10(d),
{
    lemma_pow10_pos(d);
    lemma_mul_sign(na, pow10(d));
}

/// Mirror of `lemma_overflow_decides` for the right operand.
proof fn lemma_overflow_decides_right(na: int, nb: int, d: nat)
    requires
        nb * pow10(d) > i128::MAX || nb * pow10(d) < i128::MIN,
        -i128::MAX - 1 <= na <= i128::MAX,
    ensures
        nb > 0 ==> na < nb * pow10(d),
        nb <= 0 ==> nb * pow10(d) < na,
{
    lemma_pow10_pos(d);
    lemma_mul_sign(nb, pow10(d));
}

/// The two concrete powers of ten that the overflow arguments lean on.
pub proof fn lemma_pow10_39()
    ensures
        pow10(39) > 2 * (i128::MAX as int) + 2,
        pow10(38) < i128::MAX,
{
    assert(pow10(39) == 10 * pow10(38) && pow10(38) ==
        100000000000000000000000000000000000000) by {
        reveal_with_fuel(pow10, 40);
    }
}

/// `10^e` as an `i128`, for exponents that fit.
pub fn pow10_i128(e: u32) -> (r: i128)
    requires
        e <= 38,
    ensures
        r as int == pow10(e as nat),
{
    proof {
        lemma_pow10_mono(e as nat, 38);
        lemma_pow10_39();
    }
    let mut r: i128 = 1;
    let mut i: u32 = 0;
    while i < e
        invariant
            i <= e <= 38,
            r as int == pow10(i as nat),
            pow10(e as nat) <= pow10(38) < i128::MAX,
        decreases e - i,
    {
        proof {
            lemma_pow10_mono((i + 1) as nat, e as nat);
            lemma_pow10_pos(i as nat);
        }
        r = r * 10;
        i = i + 1;
    }
    r
}

/// The decimal square root that `rust_decimal` computes for the value
/// `n / 10^s`, as a mantissa/scale pair. It depends on the pair alone.
pub uninterp spec fn sqrt_dec(n: int, s: nat) -> (int, nat);

/// Relies on rust_decimal's `MathematicalOps::sqrt`: for a non-negative
/// argument it returns a non-negative decimal approximation of the square
/// root, at a scale of at most 28, determined by the argument alone.
/// The iteration inside `sqrt` aborts after a thousand steps if it never
/// reaches a fixed point; its source does not rule that out for every
/// input, so that residual abort is accepted here alongside the usual
/// environmental ones.
#[verifier::external_body]
pub fn dec_sqrt(a: &Dec) -> (r: Dec)
    requires
        a.mantissa >= 0,
        a.n() <= 79228162514264337593543950335,
        a.s() <= 28,
    ensures
        (r.n(), r.s()) == sqrt_dec(a.n(), a.s()),
        r.mantissa >= 0,
        r.s() <= 28,
{
    let d = rust_decimal::Decimal::from_i128_with_scale(a.mantissa, a.scale);
    match rust_decimal::MathematicalOps::sqrt(&d) {
        Some(q) => Dec { mantissa: q.mantissa(), scale: q.scale() },
        None => Dec { mantissa: 0, scale: 0 },
    }
}

impl PartialEq for Dec {
    /// Value equality: `1.0 == 1.00` even though the scales differ.
    fn eq(&self, other: &Dec) -> (r: bool) {
        !self.lt(other) && !other.lt(self)
    }
}

impl vstd::std_specs::cmp::PartialEqSpecImpl for Dec {
    open spec fn obeys_eq_spec() -> bool {
        true
    }

    open spec fn eq_spec(&self, other: &Dec) -> bool {
        self.spec_eq(*other)
    }
}

} // verus!
