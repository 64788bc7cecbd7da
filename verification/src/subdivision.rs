//! Recursive expansion of a triangle into `4^depth` leaves, each tagged
//! with the digit path that reaches it: a pre-order, depth-first walk
//! with the fixed sibling order corner-`a`, corner-`b`, corner-`c`,
//! central.

use vstd::prelude::*;
use crate::dec::{lemma_pow10_mono, lemma_pow10_pos, pow10};
use crate::triangle::{Triangle, box_xy, lemma_subdivide_box, subdivide_r};
use vstd::arithmetic::mul::lemma_mul_inequality;

verus! {

/// The digit path from the root to a leaf: one entry in `0..=3` per
/// subdivision level.
#[derive(Debug)]
pub struct FractalAddress(pub Vec<u8>);

impl View for FractalAddress {
    type V = Seq<u8>;

    open spec fn view(&self) -> Seq<u8> {
        self.0@
    }
}

/// A byte-for-byte copy of a digit vector.
fn clone_digits(v: &Vec<u8>) -> (r: Vec<u8>)
    ensures
        r@ == v@,
{
    let mut r: Vec<u8> = Vec::new();
    let mut i: usize = 0;
    while i < v.len()
        invariant
            i <= v.len(),
            r@ == v@.subrange(0, i as int),
        decreases v.len() - i,
    {
        r.push(v[i]);
        proof {
            assert(r@ =~= v@.subrange(0, i + 1));
        }
        i = i + 1;
    }
    proof {
        assert(r@ =~= v@);
    }
    r
}

impl Clone for FractalAddress {
    /// Copies the digit path.
    fn clone(&self) -> (r: Self)
        ensures
            r@ == self@,
    {
        FractalAddress(clone_digits(&self.0))
    }
}

impl PartialEq for FractalAddress {
    /// Digit paths are equal iff they agree elementwise.
    fn eq(&self, other: &FractalAddress) -> (r: bool) {
        if self.0.len() != other.0.len() {
            return false;
        }
        let mut i: usize = 0;
        while i < self.0.len()
            invariant
                i <= self.0.len(),
                self.0.len() == other.0.len(),
                forall|j: int| 0 <= j < i ==> self.0@[j] == other.0@[j],
            decreases self.0.len() - i,
        {
            if self.0[i] != other.0[i] {
                return false;
            }
            i = i + 1;
        }
        proof {
            assert(self.0@ =~= other.0@);
        }
        true
    }
}

impl vstd::std_specs::cmp::PartialEqSpecImpl for FractalAddress {
    open spec fn obeys_eq_spec() -> bool {
        true
    }

    open spec fn eq_spec(&self, other: &FractalAddress) -> bool {
        self@ == other@
    }
}

/// `4^d`.
pub open spec fn pow4(d: nat) -> nat
    decreases d,
{
    if d == 0 {
        1
    } else {
        4 * pow4((d - 1) as nat)
    }
}

pub broadcast proof fn lemma_pow4_pos(d: nat)
    ensures
        #[trigger] pow4(d) >= 1,
    decreases d,
{
    if d > 0 {
        lemma_pow4_pos((d - 1) as nat);
    }
}

pub proof fn lemma_pow4_mono(a: nat, b: nat)
    requires
        a <= b,
    ensures
        pow4(a) <= pow4(b),
    decreases b,
{
    if a < b {
        lemma_pow4_mono(a, (b - 1) as nat);
        lemma_pow4_pos((b - 1) as nat);
    }
}

/// The leaves of expanding `t` for `depth` levels below the address
/// `prefix`, in traversal order.
pub open spec fn leaves(t: Triangle, depth: nat, prefix: Seq<u8>) -> Seq<(Triangle, Seq<u8>)>
    decreases depth,
{
    if depth == 0 {
        seq![(t, prefix)]
    } else {
        let c = subdivide_r(t);
        leaves(c[0], (depth - 1) as nat, prefix.push(0)) + leaves(
            c[1],
            (depth - 1) as nat,
            prefix.push(1),
        ) + leaves(c[2], (depth - 1) as nat, prefix.push(2)) + leaves(
            c[3],
            (depth - 1) as nat,
            prefix.push(3),
        )
    }
}

/// The triangles and digit paths that a vector of tagged leaves holds.
pub open spec fn entries_view(s: Seq<(Triangle, FractalAddress)>) -> Seq<(Triangle, Seq<u8>)> {
    s.map(|i: int, p: (Triangle, FractalAddress)| (p.0, p.1@))
}

/// Every expansion produces exactly `4^depth` leaves.
pub proof fn lemma_leaves_count(t: Triangle, depth: nat, prefix: Seq<u8>)
    ensures
        leaves(t, depth, prefix).len() == pow4(depth),
    decreases depth,
{
    if depth > 0 {
        let c = subdivide_r(t);
        lemma_leaves_count(c[0], (depth - 1) as nat, prefix.push(0));
        lemma_leaves_count(c[1], (depth - 1) as nat, prefix.push(1));
        lemma_leaves_count(c[2], (depth - 1) as nat, prefix.push(2));
        lemma_leaves_count(c[3], (depth - 1) as nat, prefix.push(3));
    }
}

/// Every leaf address extends the prefix and has one digit per level.
pub proof fn lemma_leaves_prefix(t: Triangle, depth: nat, prefix: Seq<u8>)
    ensures
        forall|i: int|
            0 <= i < leaves(t, depth, prefix).len() ==> (#[trigger] leaves(t, depth, prefix)[i].1).len()
                == prefix.len() + depth && leaves(t, depth, prefix)[i].1.subrange(
                0,
                prefix.len() as int,
            ) == prefix,
    decreases depth,
{
    if depth == 0 {
        assert(leaves(t, depth, prefix)[0].1.subrange(0, prefix.len() as int) =~= prefix);
    } else {
        let c = subdivide_r(t);
        let d1 = (depth - 1) as nat;
        let l0 = leaves(c[0], d1, prefix.push(0));
        let l1 = leaves(c[1], d1, prefix.push(1));
        let l2 = leaves(c[2], d1, prefix.push(2));
        let l3 = leaves(c[3], d1, prefix.push(3));
        lemma_leaves_prefix(c[0], d1, prefix.push(0));
        lemma_leaves_prefix(c[1], d1, prefix.push(1));
        lemma_leaves_prefix(c[2], d1, prefix.push(2));
        lemma_leaves_prefix(c[3], d1, prefix.push(3));
        let all = leaves(t, depth, prefix);
        assert(all == l0 + l1 + l2 + l3);
        assert forall|i: int|
            0 <= i < all.len() implies (#[trigger] all[i].1).len() == prefix.len() + depth && all[i].1.subrange(
            0,
            prefix.len() as int,
        ) == prefix by {
            let a = all[i].1;
            let p = prefix.len() as int;
            if i < l0.len() {
                assert(all[i] == l0[i]);
                assert(a.subrange(0, p + 1) == prefix.push(0));
            } else if i < l0.len() + l1.len() {
                assert(all[i] == l1[i - l0.len()]);
                assert(a.subrange(0, p + 1) == prefix.push(1));
            } else if i < l0.len() + l1.len() + l2.len() {
                assert(all[i] == l2[i - l0.len() - l1.len()]);
                assert(a.subrange(0, p + 1) == prefix.push(2));
            } else {
                assert(all[i] == l3[i - l0.len() - l1.len() - l2.len()]);
                assert(a.subrange(0, p + 1) == prefix.push(3));
            }
            assert(a.subrange(0, p) =~= a.subrange(0, p + 1).subrange(0, p));
            assert(a.subrange(0, p) =~= prefix);
        }
    }
}

/// Leaf addresses are pairwise distinct: within one child block by
/// induction, across blocks because they differ at the prefix's end.
pub proof fn lemma_leaves_distinct(t: Triangle, depth: nat, prefix: Seq<u8>)
    ensures
        forall|i: int, j: int|
            0 <= i < j < leaves(t, depth, prefix).len() ==> #[trigger] leaves(t, depth, prefix)[i].1
                != #[trigger] leaves(t, depth, prefix)[j].1,
    decreases depth,
{
    if depth > 0 {
        let c = subdivide_r(t);
        let d1 = (depth - 1) as nat;
        let l0 = leaves(c[0], d1, prefix.push(0));
        let l1 = leaves(c[1], d1, prefix.push(1));
        let l2 = leaves(c[2], d1, prefix.push(2));
        let l3 = leaves(c[3], d1, prefix.push(3));
        lemma_leaves_distinct(c[0], d1, prefix.push(0));
        lemma_leaves_distinct(c[1], d1, prefix.push(1));
        lemma_leaves_distinct(c[2], d1, prefix.push(2));
        lemma_leaves_distinct(c[3], d1, prefix.push(3));
        lemma_leaves_prefix(c[0], d1, prefix.push(0));
        lemma_leaves_prefix(c[1], d1, prefix.push(1));
        lemma_leaves_prefix(c[2], d1, prefix.push(2));
        lemma_leaves_prefix(c[3], d1, prefix.push(3));
        let all = leaves(t, depth, prefix);
        assert(all == l0 + l1 + l2 + l3);
        let p = prefix.len() as int;
        assert forall|i: int, j: int|
            0 <= i < j < all.len() implies #[trigger] all[i].1 != #[trigger] all[j].1 by {
            let bi = block_of(i, l0.len() as int, l1.len() as int, l2.len() as int);
            let bj = block_of(j, l0.len() as int, l1.len() as int, l2.len() as int);
            assert(all[i].1.subrange(0, p + 1) == prefix.push(bi as u8));
            assert(all[j].1.subrange(0, p + 1) == prefix.push(bj as u8));
            if bi == bj {
                // same block: the inductive claim separates them
            } else {
                assert(prefix.push(bi as u8)[p] == bi as u8);
                assert(prefix.push(bj as u8)[p] == bj as u8);
                if all[i].1 == all[j].1 {
                    assert(all[i].1.subrange(0, p + 1) == all[j].1.subrange(0, p + 1));
                    assert(false);
                }
            }
        }
    }
}

/// Which of the four child blocks a flat leaf index falls in.
pub open spec fn block_of(i: int, n0: int, n1: int, n2: int) -> int {
    if i < n0 {
        0
    } else if i < n0 + n1 {
        1
    } else if i < n0 + n1 + n2 {
        2
    } else {
        3
    }
}

/// The subdivision count law: expanding any triangle to depth `d` yields
/// exactly `4^d` leaves, each carrying a distinct address of length `d`.
pub proof fn lemma_subdivision_count(t: Triangle, depth: nat)
    ensures
        leaves(t, depth, Seq::empty()).len() == pow4(depth),
        forall|i: int|
            0 <= i < leaves(t, depth, Seq::empty()).len() ==> (#[trigger] leaves(
                t,
                depth,
                Seq::empty(),
            )[i].1).len() == depth,
        forall|i: int, j: int|
            0 <= i < j < leaves(t, depth, Seq::empty()).len() ==> #[trigger] leaves(
                t,
                depth,
                Seq::empty(),
            )[i].1 != #[trigger] leaves(t, depth, Seq::empty())[j].1,
{
    lemma_leaves_count(t, depth, Seq::empty());
    lemma_leaves_prefix(t, depth, Seq::empty());
    lemma_leaves_distinct(t, depth, Seq::empty());
}

/// One witness that the expansion of `t` for `depth` more levels keeps
/// every midpoint representable: a value bound `c` and a scale budget
/// `smax` with headroom for one scale step per level.
pub open spec fn expand_env(t: Triangle, c: int, smax: nat, depth: nat) -> bool {
    &&& 1 <= c
    &&& box_xy(t, c, smax, smax)
    &&& 10 * c * pow10(smax + depth) <= i128::MAX
}

/// Expands `triangle` to the requested depth and appends every leaf,
/// with its address, to `triangles`, in traversal order.
#[verifier::rlimit(100)]
pub fn fractal_subdivide(
    triangle: &Triangle,
    depth: usize,
    address: FractalAddress,
    triangles: &mut Vec<(Triangle, FractalAddress)>,
)
    requires
        exists|c: int, smax: nat| #[trigger] expand_env(*triangle, c, smax, depth as nat),
        old(triangles)@.len() + pow4(depth as nat) <= usize::MAX,
    ensures
        entries_view(final(triangles)@) == entries_view(old(triangles)@) + leaves(
            *triangle,
            depth as nat,
            address@,
        ),
    decreases depth,
{
    proof {
        lemma_leaves_count(*triangle, depth as nat, address@);
    }
    if depth == 0 {
        triangles.push((*triangle, address));
        proof {
            assert(entries_view(triangles@) =~= entries_view(old(triangles)@) + leaves(
                *triangle,
                0,
                address@,
            ));
        }
        return ;
    }
    proof {
        let (c, smax): (int, nat) = choose|c: int, smax: nat|
            expand_env(*triangle, c, smax, depth as nat);
        lemma_pow10_pos(smax);
        lemma_pow10_pos(smax + depth as nat);
        lemma_pow10_mono(smax, smax + depth as nat);
        assert(10 * c * pow10(smax) <= 10 * c * pow10(smax + depth as nat)) by {
            lemma_mul_inequality(pow10(smax), pow10(smax + depth as nat), 10 * c);
            vstd::arithmetic::mul::lemma_mul_is_commutative(pow10(smax), 10 * c);
            vstd::arithmetic::mul::lemma_mul_is_commutative(pow10(smax + depth as nat), 10 * c);
        }
        lemma_subdivide_box(*triangle, c, smax, smax);
        assert(expand_env(subdivide_r(*triangle)[0], c, smax + 1, (depth - 1) as nat));
        assert(expand_env(subdivide_r(*triangle)[1], c, smax + 1, (depth - 1) as nat));
        assert(expand_env(subdivide_r(*triangle)[2], c, smax + 1, (depth - 1) as nat));
        assert(expand_env(subdivide_r(*triangle)[3], c, smax + 1, (depth - 1) as nat));
        lemma_leaves_count(subdivide_r(*triangle)[0], (depth - 1) as nat, address@.push(0));
        lemma_leaves_count(subdivide_r(*triangle)[1], (depth - 1) as nat, address@.push(1));
        lemma_leaves_count(subdivide_r(*triangle)[2], (depth - 1) as nat, address@.push(2));
        lemma_leaves_count(subdivide_r(*triangle)[3], (depth - 1) as nat, address@.push(3));
    }
    let subdivided = triangle.subdivide();
    let ghost pre = triangles@;
    let mut a0 = clone_digits(&address.0);
    a0.push(0);
    fractal_subdivide(&subdivided[0], depth - 1, FractalAddress(a0), triangles);
    proof {
        assert(triangles@.len() == entries_view(triangles@).len());
        assert(subdivided@[1] == subdivide_r(*triangle)[1]);
    }
    let mut a1 = clone_digits(&address.0);
    a1.push(1);
    fractal_subdivide(&subdivided[1], depth - 1, FractalAddress(a1), triangles);
    proof {
        assert(triangles@.len() == entries_view(triangles@).len());
    }
    let mut a2 = clone_digits(&address.0);
    a2.push(2);
    fractal_subdivide(&subdivided[2], depth - 1, FractalAddress(a2), triangles);
    proof {
        assert(triangles@.len() == entries_view(triangles@).len());
    }
    let mut a3 = clone_digits(&address.0);
    a3.push(3);
    fractal_subdivide(&subdivided[3], depth - 1, FractalAddress(a3), triangles);
    proof {
        let d1 = (depth - 1) as nat;
        let c = subdivide_r(*triangle);
        let l0 = leaves(c[0], d1, address@.push(0));
        let l1 = leaves(c[1], d1, address@.push(1));
        let l2 = leaves(c[2], d1, address@.push(2));
        let l3 = leaves(c[3], d1, address@.push(3));
        assert(leaves(*triangle, depth as nat, address@) == l0 + l1 + l2 + l3);
        assert(entries_view(triangles@) == ((entries_view(old(triangles)@) + l0) + l1 + l2) + l3);
        assert(((entries_view(old(triangles)@) + l0) + l1 + l2) + l3 =~= entries_view(
            old(triangles)@,
        ) + (l0 + l1 + l2 + l3));
    }
}

} // verus!
