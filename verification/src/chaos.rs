//! Chaotic mining: the same expansion as the deterministic miner, but
//! each candidate leaf is judged on its area scaled by a fresh random
//! factor in `[0, 1)`, so different runs may crown different leaves.

use vstd::prelude::*;
use crate::dec::{
    Dec, abs_i, lemma_pow10_add, lemma_pow10_mono, lemma_pow10_pos, lemma_pow10_vals, pow10,
    rat_lt,
};
use crate::triangle::{Triangle, area_n, area_s, box_xy, lemma_area_bound};
use crate::subdivision::{FractalAddress, entries_view, expand_env, fractal_subdivide, pow4};
use crate::mining::{all_box_xy, genesis_leaves};
use vstd::arithmetic::mul::{lemma_mul_inequality, lemma_mul_is_associative, lemma_mul_is_commutative};

verus! {

/// A leaf crowned by chaotic mining, with the random factor that let it
/// pass: a four-digit decimal fraction in `[0, 1)`.
#[derive(Clone, Debug)]
pub struct ChaoticMiningResult {
    pub address: FractalAddress,
    pub triangle: Triangle,
    pub chaos_factor: Dec,
}

/// Relies on `rand::random`: a fresh value from the thread-local
/// generator; nothing is promised of it.
#[verifier::external_body]
fn random_u64() -> u64 {
    rand::random::<u64>()
}

/// A leaf whose area scaled by even the largest possible factor stays at
/// or above the threshold: no draw whatsoever could let it pass.
pub open spec fn chaos_hopeless(t: Triangle, threshold: Dec) -> bool {
    !rat_lt(area_n(t) * 9999, area_s(t) + 4, threshold.n(), threshold.s())
}

/// Mines the canonical root triangle with a random difficulty
/// perturbation: a leaf qualifies when its area, scaled by a fresh
/// uniform factor in `[0, 1)`, is strictly below the threshold.
/// Whatever the draws, a returned result is a leaf of the expansion
/// whose scaled area passed the test, and an empty outcome means no
/// leaf could have passed under any draw: every leaf fails already at
/// the largest factor.
pub fn mine_chaos(depth: usize, threshold: Dec) -> (r: Option<ChaoticMiningResult>)
    requires
        depth <= 10,
    ensures
        match r {
            Some(mr) => exists|i: int|
                {
                    &&& 0 <= i < genesis_leaves(depth as nat).len()
                    &&& mr.triangle == #[trigger] genesis_leaves(depth as nat)[i].0
                    &&& mr.address@ == genesis_leaves(depth as nat)[i].1
                    &&& mr.chaos_factor.s() == 4
                    &&& 0 <= mr.chaos_factor.n() < 10000
                    &&& rat_lt(
                        area_n(genesis_leaves(depth as nat)[i].0) * mr.chaos_factor.n(),
                        area_s(genesis_leaves(depth as nat)[i].0) + 4,
                        threshold.n(),
                        threshold.s(),
                    )
                    &&& forall|j: int|
                        0 <= j < i ==> chaos_hopeless(
                            #[trigger] genesis_leaves(depth as nat)[j].0,
                            threshold,
                        )
                },
            None => forall|i: int|
                0 <= i < genesis_leaves(depth as nat).len() ==> chaos_hopeless(
                    #[trigger] genesis_leaves(depth as nat)[i].0,
                    threshold,
                ),
        },
{
    let t = crate::triangle::genesis_triangle();
    proof {
        crate::triangle::lemma_genesis_unit();
        crate::mining::lemma_unit_axis_fits(11 + depth as nat);
        assert(expand_env(crate::triangle::genesis_triangle_s(), 1, 11, depth as nat));
        crate::mining::lemma_leaves_box(
            crate::triangle::genesis_triangle_s(),
            depth as nat,
            Seq::empty(),
            1,
            11,
        );
        assert(pow4(10) == 1048576) by {
            reveal_with_fuel(pow4, 11);
        }
        crate::subdivision::lemma_pow4_mono(depth as nat, 10);
        crate::subdivision::lemma_leaves_count(
            crate::triangle::genesis_triangle_s(),
            depth as nat,
            Seq::empty(),
        );
    }
    let mut triangles: Vec<(Triangle, FractalAddress)> = Vec::new();
    fractal_subdivide(&t, depth, FractalAddress(Vec::new()), &mut triangles);
    proof {
        assert(entries_view(triangles@) =~= genesis_leaves(depth as nat));
    }
    let ghost ls = genesis_leaves(depth as nat);
    let mut idx: usize = 0;
    while idx < triangles.len()
        invariant
            depth <= 10,
            idx <= triangles.len(),
            ls == genesis_leaves(depth as nat),
            entries_view(triangles@) == ls,
            triangles@.len() == ls.len(),
            all_box_xy(ls, 1 + depth as nat, 11 + depth as nat),
            forall|j: int| 0 <= j < idx ==> chaos_hopeless(#[trigger] ls[j].0, threshold),
        decreases triangles.len() - idx,
    {
        let tri = triangles[idx].0;
        proof {
            let k = idx as int;
            assert(entries_view(triangles@)[k] == (triangles@[k].0, triangles@[k].1@));
            assert(tri == ls[k].0);
            crate::mining::lemma_genesis_leaf_area_ok(tri, depth as nat);
        }
        let ar = tri.area();
        let draw = random_u64() % 10000;
        let factor = Dec { mantissa: draw as i128, scale: 4 };
        proof {
            lemma_chaos_mul_fits(tri, 1 + depth as nat, 11 + depth as nat, factor);
        }
        let effective = ar.mul(&factor);
        if effective.lt(&threshold) {
            let address = triangles[idx].1.clone();
            proof {
                let k = idx as int;
                assert(entries_view(triangles@)[k] == (triangles@[k].0, triangles@[k].1@));
                assert(address@ == genesis_leaves(depth as nat)[k].1);
                assert(forall|j: int|
                    0 <= j < k ==> chaos_hopeless(
                        #[trigger] genesis_leaves(depth as nat)[j].0,
                        threshold,
                    ));
                assert(rat_lt(
                    area_n(genesis_leaves(depth as nat)[k].0) * factor.n(),
                    area_s(genesis_leaves(depth as nat)[k].0) + 4,
                    threshold.n(),
                    threshold.s(),
                ));
            }
            return Some(ChaoticMiningResult { address, triangle: tri, chaos_factor: factor });
        }
        proof {
            lemma_factor_monotone(area_n(tri), area_s(tri) + 4, factor.n(), threshold);
            assert(chaos_hopeless(ls[idx as int].0, threshold));
        }
        idx = idx + 1;
    }
    proof {
        assert(forall|i: int|
            0 <= i < genesis_leaves(depth as nat).len() ==> chaos_hopeless(
                #[trigger] genesis_leaves(depth as nat)[i].0,
                threshold,
            ));
    }
    None
}

/// A non-negative area that fails the threshold under some factor also
/// fails it under every larger factor, the largest included.
proof fn lemma_factor_monotone(a: int, s: nat, f: int, threshold: Dec)
    requires
        0 <= a,
        0 <= f <= 9999,
        !rat_lt(a * f, s, threshold.n(), threshold.s()),
    ensures
        !rat_lt(a * 9999, s, threshold.n(), threshold.s()),
{
    lemma_pow10_pos(s);
    lemma_pow10_pos(threshold.s());
    assert(a * f <= a * 9999) by {
        lemma_mul_inequality(f, 9999, a);
        lemma_mul_is_commutative(f, a);
        lemma_mul_is_commutative(9999, a);
    }
    lemma_mul_inequality(a * f, a * 9999, pow10(threshold.s()));
}

/// The product of a bounded-depth leaf's area and a four-digit chaos
/// factor stays inside `i128`.
proof fn lemma_chaos_mul_fits(t: Triangle, sx: nat, sy: nat, factor: Dec)
    requires
        box_xy(t, 1, sx, sy),
        sx + sy <= 32,
        factor.s() == 4,
        0 <= factor.n() < 10000,
    ensures
        area_n(t) * factor.n() <= i128::MAX,
        area_n(t) * factor.n() >= i128::MIN,
        area_s(t) + factor.s() <= u32::MAX,
{
    lemma_area_bound(t, sx, sy);
    let s = area_s(t);
    lemma_pow10_pos(s);
    let m = abs_i(area_n(t));
    assert(abs_i(area_n(t) * factor.n()) <= m * 10000) by (nonlinear_arith)
        requires
            0 <= factor.n() < 10000 && m == abs_i(area_n(t)) && (m == area_n(t) || m == -area_n(
                t,
            )),
    ;
    assert(m * 10000 <= (4 * pow10(s)) * 10000) by {
        lemma_mul_inequality(m, 4 * pow10(s), 10000);
    }
    assert((4 * pow10(s)) * 10000 == 4 * (pow10(s) * 10000)) by (nonlinear_arith);
    assert(pow10(s) * 10000 == pow10(s + 4)) by {
        lemma_pow10_add(s, 4);
        assert(pow10(4) == 10000) by {
            reveal_with_fuel(pow10, 5);
        }
        lemma_mul_is_associative(1, pow10(s), pow10(4));
    }
    lemma_pow10_mono(s + 4, 37);
    lemma_pow10_vals();
}

} // verus!
