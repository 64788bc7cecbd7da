use siertrichain::dec::Dec;
use siertrichain::point::Point;
use siertrichain::triangle::{Triangle, genesis_triangle, is_equilateral};
use siertrichain::subdivision::{FractalAddress, fractal_subdivide};
use siertrichain::mining::{mine_genesis, required_fractal_depth};
use siertrichain::chaos::mine_chaos;
use siertrichain::hierarchy::{fractal_depth, fractal_position};
use siertrichain::dsl::fractal_dsl;

#[test]
fn test_point_creation() {
    let p = Point::new(Dec::new(10, 1), Dec::new(20, 1));
    assert_eq!(p.x, Dec::new(10, 1));
    assert_eq!(p.y, Dec::new(20, 1));
}

#[test]
fn test_midpoint() {
    let p1 = Point::new(Dec::new(0, 1), Dec::new(0, 1));
    let p2 = Point::new(Dec::new(20, 1), Dec::new(20, 1));
    let mid = p1.midpoint(&p2);
    assert_eq!(mid, Point::new(Dec::new(10, 1), Dec::new(10, 1)));
}

#[test]
fn test_distance() {
    let p1 = Point::new(Dec::new(0, 1), Dec::new(0, 1));
    let p2 = Point::new(Dec::new(30, 1), Dec::new(40, 1));
    assert_eq!(p1.distance(&p2), Dec::new(50, 1));
}

#[test]
fn test_triangle_creation() {
    let a = Point::new(Dec::new(0, 1), Dec::new(0, 1));
    let b = Point::new(Dec::new(10, 1), Dec::new(0, 1));
    let c = Point::new(Dec::new(5, 1), Dec::new(10, 1));
    let t = Triangle::new(a, b, c);
    assert_eq!(t.a.x, Dec::new(0, 1));
    assert_eq!(t.b.x, Dec::new(10, 1));
    assert_eq!(t.c.y, Dec::new(10, 1));
}

#[test]
fn test_triangle_area() {
    let a = Point::new(Dec::new(0, 1), Dec::new(0, 1));
    let b = Point::new(Dec::new(10, 1), Dec::new(0, 1));
    let c = Point::new(Dec::new(5, 1), Dec::new(10, 1));
    let t = Triangle::new(a, b, c);
    assert_eq!(t.area(), Dec::new(5, 1));
}

#[test]
fn test_subdivide() {
    let a = Point::new(Dec::new(0, 1), Dec::new(0, 1));
    let b = Point::new(Dec::new(20, 1), Dec::new(0, 1));
    let c = Point::new(Dec::new(10, 1), Dec::new(20, 1));
    let t = Triangle::new(a, b, c);
    let subdivided = t.subdivide();

    let mid_ab = a.midpoint(&b);
    let mid_bc = b.midpoint(&c);
    let mid_ca = c.midpoint(&a);

    assert_eq!(subdivided[0], Triangle::new(a, mid_ab, mid_ca));
    assert_eq!(subdivided[1], Triangle::new(mid_ab, b, mid_bc));
    assert_eq!(subdivided[2], Triangle::new(mid_ca, mid_bc, c));
    assert_eq!(subdivided[3], Triangle::new(mid_ab, mid_bc, mid_ca));
}

#[test]
fn test_is_equilateral() {
    let a = Point::new(Dec::new(0, 1), Dec::new(0, 1));
    let b = Point::new(Dec::new(10, 1), Dec::new(0, 1));
    let c = Point::new(Dec::new(5, 1), Dec::new(86602540378, 11));
    let t = Triangle::new(a, b, c);
    assert_eq!(is_equilateral(&t, &Dec::new(1, 9)), Some(true));
}

#[test]
fn is_equilateral_rejects_a_skewed_triangle() {
    let a = Point::new(Dec::new(0, 1), Dec::new(0, 1));
    let b = Point::new(Dec::new(10, 1), Dec::new(0, 1));
    let c = Point::new(Dec::new(5, 1), Dec::new(10, 1));
    let t = Triangle::new(a, b, c);
    assert_eq!(is_equilateral(&t, &Dec::new(1, 9)), Some(false));
}

#[test]
fn test_fractal_subdivide() {
    let a = Point::new(Dec::new(0, 1), Dec::new(0, 1));
    let b = Point::new(Dec::new(10, 1), Dec::new(0, 1));
    let c = Point::new(Dec::new(5, 1), Dec::new(86602540378, 11));
    let t = Triangle::new(a, b, c);

    let mut triangles = Vec::new();
    fractal_subdivide(&t, 1, FractalAddress(vec![]), &mut triangles);
    assert_eq!(triangles.len(), 4);

    let mut triangles = Vec::new();
    fractal_subdivide(&t, 2, FractalAddress(vec![]), &mut triangles);
    assert_eq!(triangles.len(), 16);
}

#[test]
fn subdivision_addresses_are_distinct_and_sized() {
    let t = genesis_triangle();
    let mut triangles = Vec::new();
    fractal_subdivide(&t, 2, FractalAddress(vec![]), &mut triangles);
    assert_eq!(triangles.len(), 16);
    for (_, addr) in &triangles {
        assert_eq!(addr.0.len(), 2);
        for d in &addr.0 {
            assert!(*d < 4);
        }
    }
    for i in 0..triangles.len() {
        for j in (i + 1)..triangles.len() {
            assert!(triangles[i].1 != triangles[j].1);
        }
    }
}

#[test]
fn children_areas_are_exact_quarters() {
    let t = genesis_triangle();
    let parent_area = t.area();
    let children = t.subdivide();
    let four = Dec::new(4, 0);
    let mut sum = Dec::new(0, 0);
    for child in &children {
        let a = child.area();
        assert_eq!(a.mul(&four), parent_area);
        sum = sum.add(&a);
    }
    assert_eq!(sum, parent_area);
}

#[test]
fn deterministic_mining_is_stable_and_depth_sensitive() {
    // a tight threshold fails at depth one and succeeds at depth ten
    let threshold = Dec::new(1, 6);
    assert!(mine_genesis(1, threshold).is_none());
    let first = mine_genesis(10, threshold);
    let second = mine_genesis(10, threshold);
    let first = first.expect("depth ten must reach areas below the threshold");
    let second = second.expect("depth ten must reach areas below the threshold");
    assert_eq!(first.address, second.address);
    assert_eq!(first.address.0, vec![0u8; 10]);
    assert_eq!(first.address.0.len(), 10);
    assert!(first.triangle.area().lt(&threshold));
}

#[test]
fn mining_finds_the_first_leaf_under_a_loose_threshold() {
    let r = mine_genesis(1, Dec::new(5, 1)).expect("every depth-one leaf is small enough");
    assert_eq!(r.address.0, vec![0u8]);
}

#[test]
fn test_mine_chaos_returns_some() {
    let result = mine_chaos(2, Dec::new(5, 1));
    assert!(result.is_some());
    // every depth-two leaf passes any draw under this threshold, so the
    // scan cannot move past the first leaf
    assert_eq!(result.unwrap().address.0, vec![0u8, 0u8]);
}

#[test]
fn test_chaos_factor_in_range() {
    if let Some(res) = mine_chaos(2, Dec::new(5, 1)) {
        let zero = Dec::new(0, 0);
        let one = Dec::new(1, 0);
        assert!(zero.le(&res.chaos_factor) && res.chaos_factor.le(&one));
    }
}

#[test]
fn test_fractal_depth() {
    let addr = FractalAddress(vec![0, 1, 2, 0]);
    assert_eq!(fractal_depth(&addr), 4);
}

#[test]
fn test_fractal_position() {
    let addr = FractalAddress(vec![0, 1, 2]);
    assert_eq!(fractal_position(&addr), "0-1-2");
}

#[test]
fn test_required_fractal_depth_steps_by_interval() {
    assert_eq!(required_fractal_depth(0, 1, 10), 1);
    assert_eq!(required_fractal_depth(9, 1, 10), 1);
    assert_eq!(required_fractal_depth(10, 1, 10), 2);
    assert_eq!(required_fractal_depth(25, 2, 10), 4);
}

#[test]
fn dec_compares_by_value() {
    assert_eq!(Dec::new(10, 1), Dec::new(1, 0));
    assert_eq!(Dec::new(500, 3), Dec::new(5, 1));
    assert!(Dec::new(-1, 0).lt(&Dec::new(1, 6)));
    assert!(Dec::new(1, 6).lt(&Dec::new(1, 0)));
}

#[test]
fn fractal_dsl_accepts_any_text() {
    fractal_dsl("");
    fractal_dsl("subdivide; claim 0-1-2");
}
