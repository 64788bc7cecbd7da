//! Deterministic mining: expand the canonical root triangle, scan the
//! leaves in traversal order, and return the first one whose area is
//! strictly below the threshold.

use vstd::prelude::*;
use crate::dec::{Dec, lemma_pow10_39, lemma_pow10_add, lemma_pow10_mono, lemma_pow10_vals, pow10};
use crate::triangle::{
    Triangle, area_below, area_env, area_ok, box_xy, genesis_triangle, genesis_triangle_s,
    lemma_genesis_unit, lemma_subdivide_box, subdivide_r,
};
use crate::subdivision::{FractalAddress, entries_view, expand_env, fractal_subdivide, leaves, pow4};

verus! {

/// A winning leaf: its digit path from the root, and the triangle the
/// path resolves to.
#[derive(Clone, Debug)]
pub struct MiningResult {
    pub address: FractalAddress,
    pub triangle: Triangle,
}

/// The leaves that deterministic mining scans at the given depth.
pub open spec fn genesis_leaves(depth: nat) -> Seq<(Triangle, Seq<u8>)> {
    leaves(genesis_triangle_s(), depth, Seq::empty())
}

/// Every entry of `s` is a unit-value triangle with per-axis budgets.
pub open spec fn all_box_xy(s: Seq<(Triangle, Seq<u8>)>, sx: nat, sy: nat) -> bool {
    forall|i: int| 0 <= i < s.len() ==> box_xy(#[trigger] s[i].0, 1, sx, sy)
}

/// Box bounds survive concatenation.
proof fn lemma_all_box_concat(
    s1: Seq<(Triangle, Seq<u8>)>,
    s2: Seq<(Triangle, Seq<u8>)>,
    sx: nat,
    sy: nat,
)
    requires
        all_box_xy(s1, sx, sy),
        all_box_xy(s2, sx, sy),
    ensures
        all_box_xy(s1 + s2, sx, sy),
{
    assert forall|i: int|
        0 <= i < (s1 + s2).len() implies box_xy(#[trigger] (s1 + s2)[i].0, 1, sx, sy) by {
        if i < s1.len() {
            assert((s1 + s2)[i] == s1[i]);
        } else {
            assert((s1 + s2)[i] == s2[i - s1.len()]);
        }
    }
}

/// The halving-stays-representable bound for a unit-value axis budget.
pub proof fn lemma_unit_axis_fits(smax: nat)
    requires
        smax <= 37,
    ensures
        10 * 1 * pow10(smax) <= i128::MAX,
{
    lemma_pow10_mono(smax, 37);
    lemma_pow10_39();
    assert(10 * pow10(37) == pow10(38)) by {
        lemma_pow10_add(1, 37);
        assert(pow10(1) == 10) by {
            reveal_with_fuel(pow10, 3);
        }
    }
    assert(10 * pow10(smax) <= 10 * pow10(37));
}

/// Every leaf of the expansion of a unit-value triangle is unit-value,
/// with each axis budget grown by the depth.
pub proof fn lemma_leaves_box(t: Triangle, depth: nat, prefix: Seq<u8>, sx: nat, sy: nat)
    requires
        box_xy(t, 1, sx, sy),
        sx + depth <= 37,
        sy + depth <= 37,
    ensures
        all_box_xy(leaves(t, depth, prefix), sx + depth, sy + depth),
    decreases depth,
{
    if depth > 0 {
        lemma_unit_axis_fits(sx);
        lemma_unit_axis_fits(sy);
        lemma_subdivide_box(t, 1, sx, sy);
        let c = subdivide_r(t);
        let d1 = (depth - 1) as nat;
        let l0 = leaves(c[0], d1, prefix.push(0));
        let l1 = leaves(c[1], d1, prefix.push(1));
        let l2 = leaves(c[2], d1, prefix.push(2));
        let l3 = leaves(c[3], d1, prefix.push(3));
        lemma_leaves_box(c[0], d1, prefix.push(0), sx + 1, sy + 1);
        lemma_leaves_box(c[1], d1, prefix.push(1), sx + 1, sy + 1);
        lemma_leaves_box(c[2], d1, prefix.push(2), sx + 1, sy + 1);
        lemma_leaves_box(c[3], d1, prefix.push(3), sx + 1, sy + 1);
        lemma_all_box_concat(l0, l1, sx + depth, sy + depth);
        lemma_all_box_concat(l0 + l1, l2, sx + depth, sy + depth);
        lemma_all_box_concat(l0 + l1 + l2, l3, sx + depth, sy + depth);
        assert(leaves(t, depth, prefix) == l0 + l1 + l2 + l3);
    }
}

/// A leaf of the canonical expansion at a bounded depth lies inside the
/// area envelope.
pub proof fn lemma_genesis_leaf_area_ok(u: Triangle, depth: nat)
    requires
        box_xy(u, 1, 1 + depth, 11 + depth),
        depth <= 12,
    ensures
        area_ok(u),
{
    crate::dec::lemma_scale40_fits((1 + depth) + (11 + depth));
    assert(40 * (1 * 1) * pow10((1 + depth) + (11 + depth)) == 40 * pow10(
        (1 + depth) + (11 + depth),
    )) by (nonlinear_arith);
    assert(area_env(u, 1, 1 + depth, 11 + depth));
}

/// Mines the canonical root triangle at the given depth: scans the
/// `4^depth` leaves in traversal order and returns the first whose area
/// is strictly below `threshold`, or `None` when no leaf qualifies.
pub fn mine_genesis(depth: usize, threshold: Dec) -> (r: Option<MiningResult>)
    requires
        depth <= 12,
    ensures
        match r {
            Some(mr) => exists|i: int|
                {
                    &&& 0 <= i < genesis_leaves(depth as nat).len()
                    &&& #[trigger] area_below(genesis_leaves(depth as nat)[i].0, threshold)
                    &&& mr.triangle == genesis_leaves(depth as nat)[i].0
                    &&& mr.address@ == genesis_leaves(depth as nat)[i].1
                    &&& forall|j: int|
                        0 <= j < i ==> !area_below(
                            #[trigger] genesis_leaves(depth as nat)[j].0,
                            threshold,
                        )
                },
            None => forall|i: int|
                0 <= i < genesis_leaves(depth as nat).len() ==> !area_below(
                    #[trigger] genesis_leaves(depth as nat)[i].0,
                    threshold,
                ),
        },
{
    let t = genesis_triangle();
    proof {
        lemma_genesis_unit();
        lemma_unit_axis_fits(11 + depth as nat);
        assert(expand_env(genesis_triangle_s(), 1, 11, depth as nat));
        lemma_leaves_box(genesis_triangle_s(), depth as nat, Seq::empty(), 1, 11);
        assert(all_box_xy(genesis_leaves(depth as nat), 1 + depth as nat, 11 + depth as nat));
        assert(pow4(12) == 16777216) by {
            reveal_with_fuel(pow4, 13);
        }
        crate::subdivision::lemma_pow4_mono(depth as nat, 12);
        crate::subdivision::lemma_leaves_count(genesis_triangle_s(), depth as nat, Seq::empty());
    }
    let mut triangles: Vec<(Triangle, FractalAddress)> = Vec::new();
    fractal_subdivide(&t, depth, FractalAddress(Vec::new()), &mut triangles);
    proof {
        assert(entries_view(triangles@) =~= genesis_leaves(depth as nat));
    }
    let ghost ls = genesis_leaves(depth as nat);
    let mut idx: usize = 0;
    while idx < triangles.len()
        invariant
            depth <= 12,
            idx <= triangles.len(),
            ls == genesis_leaves(depth as nat),
            entries_view(triangles@) == ls,
            triangles@.len() == ls.len(),
            all_box_xy(ls, 1 + depth as nat, 11 + depth as nat),
            forall|j: int| 0 <= j < idx ==> !area_below(#[trigger] ls[j].0, threshold),
        decreases triangles.len() - idx,
    {
        let tri = triangles[idx].0;
        proof {
            let k = idx as int;
            assert(entries_view(triangles@)[k] == (triangles@[k].0, triangles@[k].1@));
            assert(tri == ls[k].0);
            lemma_genesis_leaf_area_ok(tri, depth as nat);
        }
        let ar = tri.area();
        if ar.lt(&threshold) {
            let address = triangles[idx].1.clone();
            proof {
                let k = idx as int;
                assert(entries_view(triangles@)[k] == (triangles@[k].0, triangles@[k].1@));
                assert(address@ == genesis_leaves(depth as nat)[k].1);
                assert(area_below(genesis_leaves(depth as nat)[k].0, threshold));
                assert(forall|j: int|
                    0 <= j < k ==> !area_below(
                        #[trigger] genesis_leaves(depth as nat)[j].0,
                        threshold,
                    ));
            }
            return Some(MiningResult { address, triangle: tri });
        }
        idx = idx + 1;
    }
    None
}

/// The depth demanded at a chain height: it grows by one for every full
/// adjustment interval.
pub fn required_fractal_depth(
    block_height: usize,
    initial_depth: usize,
    adjustment_interval: usize,
) -> (r: usize)
    requires
        adjustment_interval > 0,
        initial_depth + block_height / adjustment_interval <= usize::MAX,
    ensures
        r == initial_depth + block_height as int / adjustment_interval as int,
{
    initial_depth + block_height / adjustment_interval
}

} // verus!
