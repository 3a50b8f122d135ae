//! The scalar, point and summary algebra at runtime.

use borscht::cfeature::CFeature;
use borscht::cfeature::betula;
use borscht::cfeature::birch;
use borscht::point::{Point, Scalar, scalar_add, scalar_div, scalar_mul, scalar_rem, scalar_sub};
use rand_xoshiro::Xoshiro256PlusPlus;
use rand_xoshiro::rand_core::{Rng, SeedableRng};

#[test]
fn scalar_saturation() {
    assert_eq!(scalar_add(2, 3), 5);
    assert_eq!(scalar_add(i128::MAX, 1), i128::MAX);
    assert_eq!(scalar_add(i128::MIN, -1), i128::MIN);
    assert_eq!(scalar_sub(2, 5), -3);
    assert_eq!(scalar_sub(i128::MIN, 1), i128::MIN);
    assert_eq!(scalar_mul(-4, 6), -24);
    assert_eq!(scalar_mul(i128::MAX, 2), i128::MAX);
    assert_eq!(scalar_mul(i128::MAX, -2), i128::MIN);
    // quotients truncate toward zero
    assert_eq!(scalar_div(7, 2), 3);
    assert_eq!(scalar_div(-7, 2), -3);
    assert_eq!(scalar_rem(7, 2), 1);
    assert_eq!(scalar_rem(-7, 2), -1);
}

#[test]
fn point_elementwise_ops() {
    let a = Point::from_arr([1, -2, 3]);
    let b = Point::from_arr([10, 20, 2]);
    assert_eq!(a.add(&b).as_slice(), &[11, 18, 5]);
    assert_eq!(a.sub(&b).as_slice(), &[-9, -22, 1]);
    assert_eq!(a.mul(&b).as_slice(), &[10, -40, 6]);
    assert_eq!(a.div(&b).as_slice(), &[0, 0, 1]);
    assert_eq!(a.rem(&b).as_slice(), &[1, -2, 1]);
    assert_eq!(a.neg().as_slice(), &[-1, 2, -3]);
    assert_eq!(a.add_scalar(5).as_slice(), &[6, 3, 8]);
    assert_eq!(a.sub_scalar(1).as_slice(), &[0, -3, 2]);
    assert_eq!(a.mul_scalar(-2).as_slice(), &[-2, 4, -6]);
    assert_eq!(b.div_scalar(3).as_slice(), &[3, 6, 0]);
    assert_eq!(b.rem_scalar(3).as_slice(), &[1, 2, 2]);
    assert_eq!(a.norm2(), 1 + 4 + 9);
    let mut c = Point::from_arr([1, 1, 1]);
    c.add_assign(&b);
    assert_eq!(c.as_slice(), &[11, 21, 3]);
    c.sub_assign(&b);
    assert_eq!(c.as_slice(), &[1, 1, 1]);
    c.mul_assign(&b);
    assert_eq!(c.as_slice(), &[10, 20, 2]);
    c.div_assign(&Point::from_arr([3, 7, 2]));
    assert_eq!(c.as_slice(), &[3, 2, 1]);
    c.rem_assign(&Point::from_arr([2, 2, 2]));
    assert_eq!(c.as_slice(), &[1, 0, 1]);
    assert!(Point::zero(3).is_zero());
    assert!(!a.is_zero());
    assert_eq!(a.dim(), 3);
    assert_eq!(a.index(2), 3);
    let mut d = a.duplicate();
    d.set(0, 9);
    assert_eq!(d.as_slice(), &[9, -2, 3]);
    assert_eq!(a.as_slice(), &[1, -2, 3]);
}

#[test]
fn singleton_summaries_have_zero_dispersion() {
    let p = Point::from_arr([123, -45, 6789]);
    let b = <birch::CFeature as CFeature>::from_point(&p);
    assert_eq!(b.size(), 1);
    assert_eq!(b.diam2(), 0);
    assert_eq!(b.center().as_slice(), p.as_slice());
    let t = <betula::CFeature as CFeature>::from_point(&p);
    assert_eq!(t.size(), 1);
    assert_eq!(t.diam2(), 0);
    assert_eq!(t.center().as_slice(), p.as_slice());
}

#[test]
fn summary_identity_laws() {
    // absorbing the empty summary changes nothing, in either order
    let p1 = Point::from_arr([10, 20, 30]);
    let p2 = Point::from_arr([16, 20, 30]);
    let b = <birch::CFeature as CFeature>::from_point(&p1).add_point(&p2);
    let zb = <birch::CFeature as CFeature>::zero(3);
    for merged in [b.add(&zb), zb.add(&b)] {
        assert_eq!(merged.size(), b.size());
        assert_eq!(merged.diam2(), b.diam2());
        assert_eq!(merged.dist2_cf(&b), 0);
        assert_eq!(merged.center().as_slice(), b.center().as_slice());
    }
    let t = <betula::CFeature as CFeature>::from_point(&p1).add_point(&p2);
    let zt = <betula::CFeature as CFeature>::zero(3);
    for merged in [t.add(&zt), zt.add(&t)] {
        assert_eq!(merged.size(), t.size());
        assert_eq!(merged.diam2(), t.diam2());
        assert_eq!(merged.dist2_cf(&t), 0);
        assert_eq!(merged.center().as_slice(), t.center().as_slice());
    }
}

#[test]
fn center_matches_naive_mean() {
    // mantissas divisible by the count make the centroid exact
    let b = <birch::CFeature as CFeature>::from_point(&Point::from_arr([10, 20, 30]))
        .add_point(&Point::from_arr([30, 40, 50]));
    assert_eq!(b.center().as_slice(), &[20, 30, 40]);
    let t = <betula::CFeature as CFeature>::from_point(&Point::from_arr([10, 20, 30]))
        .add_point(&Point::from_arr([30, 40, 50]));
    assert_eq!(t.center().as_slice(), &[20, 30, 40]);
}

#[test]
fn birch_distances_use_linear_sums() {
    // the classical variant measures squared distance between raw linear
    // sums, not between centroids: two points absorbed double the sum
    let one = <birch::CFeature as CFeature>::from_point(&Point::from_arr([10, 0, 0]));
    let two = one.add_point(&Point::from_arr([10, 0, 0]));
    // centers agree, yet the distance is the gap between (10,0,0) and
    // (20,0,0): exactly one hundred
    assert_eq!(one.center().as_slice(), two.center().as_slice());
    assert_eq!(one.dist2_cf(&two), 100);
    assert_eq!(two.dist2_pt(&Point::from_arr([0, 0, 0])), 400);
}

/// Builds the stable summary of a slice of points by repeated absorption.
fn betula_of(points: &[Point]) -> betula::CFeature {
    let mut acc = <betula::CFeature as CFeature>::from_point(&points[0]);
    for p in &points[1..] {
        acc = acc.add_point(p);
    }
    acc
}

#[test]
fn betula_merge_matches_bulk_summary() {
    // random two-way splits of one point set: merging the parts'
    // summaries agrees with summarizing the whole set, within a relative
    // billionth; a scale of a million million mantissa units per axis
    // unit keeps the truncation far below that
    let scale: Scalar = 1_000_000_000_000;
    let mut points: Vec<Point> = Vec::new();
    for i in 0..40i128 {
        let a = (i * 7) % 300;
        let b = (i * 13) % 300;
        let c = (i * 29) % 300;
        points.push(Point::from_arr([a * scale, b * scale, c * scale]));
    }
    let bulk = betula_of(&points);
    let mut rng = Xoshiro256PlusPlus::seed_from_u64(1);
    for _ in 0..5 {
        let mut left: Vec<Point> = Vec::new();
        let mut right: Vec<Point> = Vec::new();
        for p in &points {
            if rng.next_u64() % 2 == 0 {
                left.push(p.duplicate());
            } else {
                right.push(p.duplicate());
            }
        }
        if left.is_empty() || right.is_empty() {
            continue;
        }
        let merged = betula_of(&left).add(&betula_of(&right));
        assert_eq!(merged.size(), bulk.size());
        let mc = merged.center();
        let bc = bulk.center();
        for i in 0..3 {
            let m = mc.index(i) as f64;
            let b = bc.index(i) as f64;
            assert!((m - b).abs() <= 1e-9 * b.abs().max(1.0));
        }
        let md = merged.diam2() as f64;
        let bd = bulk.diam2() as f64;
        assert!((md - bd).abs() <= 1e-9 * bd.abs().max(1.0));
    }
}
