//! End-to-end behaviour of the cluster-feature tree.
//!
//! Coordinates are fixed-point mantissas: a scale of ten or one hundred
//! units per axis unit, with thresholds given in squared mantissa units.

use borscht::cfeature::CFeature;
use borscht::cfeature::betula;
use borscht::cfeature::birch;
use borscht::cftree::{BasicConfig, Capacity, ConfigInvalid, Node, NodeEntry};
use borscht::point::{Point, Scalar};
use rand_xoshiro::Xoshiro256PlusPlus;
use rand_xoshiro::rand_core::{Rng, SeedableRng};

fn config(min: usize, max: usize, threshold: Scalar) -> BasicConfig {
    BasicConfig::new(Capacity { min, max }, threshold).unwrap()
}

/// Collects the depth of every leaf entry.
fn leaf_depths<C: CFeature>(node: &Node<C>, depth: usize, out: &mut Vec<usize>) {
    for entry in &node.entries {
        match &entry.child {
            Some(child) => leaf_depths(child, depth + 1, out),
            None => out.push(depth),
        }
    }
}

/// Sums the sizes of every leaf entry's summary.
fn sum_leaf_sizes<C: CFeature>(node: &Node<C>) -> usize {
    let mut total: usize = 0;
    for entry in &node.entries {
        match &entry.child {
            Some(child) => total += sum_leaf_sizes(child),
            None => total += entry.feature.size(),
        }
    }
    total
}

/// The largest entry count of any node.
fn max_fanout<C: CFeature>(node: &Node<C>) -> usize {
    let mut m: usize = node.entries.len();
    for entry in &node.entries {
        if let Some(child) = &entry.child {
            let inner = max_fanout(child);
            if inner > m {
                m = inner;
            }
        }
    }
    m
}

/// The dispersion of every leaf entry stays within the threshold.
fn check_leaf_threshold<C: CFeature>(node: &Node<C>, threshold: Scalar) {
    for entry in &node.entries {
        match &entry.child {
            Some(child) => check_leaf_threshold(child, threshold),
            None => assert!(entry.feature.diam2() <= threshold),
        }
    }
}

/// Every internal entry's summary matches the fold of its child's
/// summaries: equal size, equal dispersion, and zero distance.
fn check_feature_consistency<C: CFeature>(node: &Node<C>, dim: usize) {
    for entry in &node.entries {
        if let Some(child) = &entry.child {
            let folded = child.compute_feature(dim);
            assert_eq!(entry.feature.size(), folded.size());
            assert_eq!(entry.feature.diam2(), folded.diam2());
            assert_eq!(entry.feature.dist2_cf(&folded), 0);
            check_feature_consistency(child, dim);
        }
    }
}

fn count_leaf_entries<C: CFeature>(node: &Node<C>) -> usize {
    let mut total: usize = 0;
    for entry in &node.entries {
        match &entry.child {
            Some(child) => total += count_leaf_entries(child),
            None => total += 1,
        }
    }
    total
}

/// The centers of every leaf entry, as coordinate vectors.
fn leaf_centers<C: CFeature>(node: &Node<C>, out: &mut Vec<Vec<Scalar>>) {
    for entry in &node.entries {
        match &entry.child {
            Some(child) => leaf_centers(child, out),
            None => out.push(entry.feature.center().as_slice().to_vec()),
        }
    }
}

/// The sizes of leaf entries, left to right.
fn leaf_sizes_in_order<C: CFeature>(node: &Node<C>, out: &mut Vec<usize>) {
    for entry in &node.entries {
        match &entry.child {
            Some(child) => leaf_sizes_in_order(child, out),
            None => out.push(entry.feature.size()),
        }
    }
}

fn check_all_invariants<C: CFeature>(root: &Node<C>, dim: usize, max: usize, threshold: Scalar) {
    // balance: all leaf entries at one depth
    let mut depths: Vec<usize> = Vec::new();
    leaf_depths(root, 0, &mut depths);
    for d in &depths {
        assert_eq!(*d, depths[0]);
    }
    // leaf threshold
    check_leaf_threshold(root, threshold);
    // feature consistency
    check_feature_consistency(root, dim);
    // capacity
    assert!(max_fanout(root) <= max);
}

#[test]
fn cftree_from_arr() {
    let mut points = vec![
        Point::from_arr([10, 20, 30]),
        Point::from_arr([20, 20, 30]),
        Point::from_arr([10, 30, 30]),
        Point::from_arr([10, 20, 40]),
    ];
    let drained: Vec<Point> = points.drain(..).collect();
    let root: Node<birch::CFeature> = Node::from_iter(drained, &config(1, 3, 50));
    let _ = root.height();
}

#[test]
fn single_point() {
    let points = vec![Point::from_arr([10, 20, 30])];
    let root: Node<birch::CFeature> = Node::from_iter(points, &config(1, 3, 50));
    assert_eq!(root.height(), 1);
    assert_eq!(root.entries.len(), 1);
    assert!(root.entries[0].child.is_none());
    let feature = &root.entries[0].feature;
    assert_eq!(feature.size(), 1);
    assert_eq!(feature.diam2(), 0);
    assert_eq!(feature.center().as_slice(), &[10, 20, 30]);
}

#[test]
fn four_near_points() {
    // each pair lies one squared axis unit apart: one hundred mantissa
    // units, over the threshold of fifty, so every point keeps its own
    // entry and the fourth insertion splits the root
    let points = vec![
        Point::from_arr([10, 20, 30]),
        Point::from_arr([20, 20, 30]),
        Point::from_arr([10, 30, 30]),
        Point::from_arr([10, 20, 40]),
    ];
    let root: Node<birch::CFeature> = Node::from_iter(points, &config(1, 3, 50));
    assert_eq!(root.height(), 2);
    assert_eq!(root.entries.len(), 2);
    assert!(root.entries[0].child.is_some());
    assert!(root.entries[1].child.is_some());
    assert_eq!(sum_leaf_sizes(&root), 4);
    check_all_invariants(&root, 3, 3, 50);
}

#[test]
fn four_tight_points() {
    // a tenth of an axis unit apart at one hundred mantissa units per
    // axis unit; everything is absorbed into a single entry
    let points = vec![
        Point::from_arr([0, 0, 0]),
        Point::from_arr([10, 0, 0]),
        Point::from_arr([0, 10, 0]),
        Point::from_arr([0, 0, 10]),
    ];
    let threshold: Scalar = 5000; // half a squared axis unit
    let root: Node<birch::CFeature> = Node::from_iter(points, &config(1, 3, threshold));
    assert_eq!(root.height(), 1);
    assert_eq!(root.entries.len(), 1);
    let feature = &root.entries[0].feature;
    assert_eq!(feature.size(), 4);
    assert!(feature.diam2() <= threshold);
}

/// One Gaussian sample by the polar method, folded to a mantissa at one
/// hundred units per axis unit.
fn normal_samples(rng: &mut Xoshiro256PlusPlus, mean: f64, std: f64) -> f64 {
    loop {
        let u1 = (rng.next_u64() >> 11) as f64 / (1u64 << 53) as f64 * 2.0 - 1.0;
        let u2 = (rng.next_u64() >> 11) as f64 / (1u64 << 53) as f64 * 2.0 - 1.0;
        let s = u1 * u1 + u2 * u2;
        if s > 0.0 && s < 1.0 {
            let factor = (-2.0 * s.ln() / s).sqrt();
            return mean + std * u1 * factor;
        }
    }
}

#[test]
fn hundred_gaussian_points() {
    let mut rng = Xoshiro256PlusPlus::seed_from_u64(0);
    let mut points: Vec<Point> = Vec::new();
    for _ in 0..100 {
        let x = normal_samples(&mut rng, 128.0, 5.0);
        let y = normal_samples(&mut rng, 52.0, 4.0);
        let z = normal_samples(&mut rng, 255.0, 3.0);
        points.push(Point::from_arr([
            (x * 100.0).round() as Scalar,
            (y * 100.0).round() as Scalar,
            (z * 100.0).round() as Scalar,
        ]));
    }
    let threshold: Scalar = 5000;
    let root: Node<birch::CFeature> = Node::from_iter(points, &config(1, 3, threshold));
    check_all_invariants(&root, 3, 3, threshold);
    assert_eq!(sum_leaf_sizes(&root), 100);
    assert!(count_leaf_entries(&root) <= 100);
    assert!(root.height() >= 2);
}

#[test]
fn betula_equivalence() {
    // a capacity wide enough that no split fires makes the two variants
    // coincide: with a zero threshold no summary absorbs a second
    // distinct point, so every leaf center is an exact input point
    let mk = || {
        vec![
            Point::from_arr([10, 20, 30]),
            Point::from_arr([20, 20, 30]),
            Point::from_arr([10, 30, 30]),
            Point::from_arr([10, 20, 40]),
        ]
    };
    let birch_tree: Node<birch::CFeature> = Node::from_iter(mk(), &config(1, 5, 0));
    let betula_tree: Node<betula::CFeature> = Node::from_iter(mk(), &config(1, 5, 0));
    assert_eq!(birch_tree.height(), betula_tree.height());
    assert_eq!(sum_leaf_sizes(&birch_tree), sum_leaf_sizes(&betula_tree));
    let mut birch_centers: Vec<Vec<Scalar>> = Vec::new();
    leaf_centers(&birch_tree, &mut birch_centers);
    let mut betula_centers: Vec<Vec<Scalar>> = Vec::new();
    leaf_centers(&betula_tree, &mut betula_centers);
    birch_centers.sort();
    betula_centers.sort();
    assert_eq!(birch_centers, betula_centers);
    // once splits fire, the variants may shape their trees differently
    // (the classical variant measures distances on raw linear sums), but
    // both keep every point and every invariant
    let b3: Node<birch::CFeature> = Node::from_iter(mk(), &config(1, 3, 0));
    let t3: Node<betula::CFeature> = Node::from_iter(mk(), &config(1, 3, 0));
    assert_eq!(sum_leaf_sizes(&b3), 4);
    assert_eq!(sum_leaf_sizes(&t3), 4);
    check_all_invariants(&b3, 3, 3, 0);
    check_all_invariants(&t3, 3, 3, 0);
}

#[test]
fn order_sensitivity() {
    // the same three points in opposite orders make different trees
    let forward = vec![
        Point::from_arr([0]),
        Point::from_arr([10]),
        Point::from_arr([11]),
    ];
    let backward = vec![
        Point::from_arr([11]),
        Point::from_arr([10]),
        Point::from_arr([0]),
    ];
    let cfg = config(1, 3, 10);
    let t1: Node<birch::CFeature> = Node::from_iter(forward, &cfg);
    let t2: Node<birch::CFeature> = Node::from_iter(backward, &cfg);
    let mut sizes1: Vec<usize> = Vec::new();
    leaf_sizes_in_order(&t1, &mut sizes1);
    let mut sizes2: Vec<usize> = Vec::new();
    leaf_sizes_in_order(&t2, &mut sizes2);
    assert_eq!(sizes1, vec![1, 2]);
    assert_eq!(sizes2, vec![2, 1]);
    assert_ne!(sizes1, sizes2);
}

#[test]
fn singleton_degeneracy() {
    // many copies of one point collapse into a single entry of
    // dispersion exactly zero, in both variants
    let k: usize = 9;
    let mk = || {
        let mut v: Vec<Point> = Vec::new();
        for _ in 0..k {
            v.push(Point::from_arr([70, -30, 120]));
        }
        v
    };
    let cfg = config(1, 3, 50);
    let birch_tree: Node<birch::CFeature> = Node::from_iter(mk(), &cfg);
    assert_eq!(birch_tree.entries.len(), 1);
    assert!(birch_tree.entries[0].child.is_none());
    assert_eq!(birch_tree.entries[0].feature.size(), k);
    assert_eq!(birch_tree.entries[0].feature.diam2(), 0);
    let betula_tree: Node<betula::CFeature> = Node::from_iter(mk(), &cfg);
    assert_eq!(betula_tree.entries.len(), 1);
    assert!(betula_tree.entries[0].child.is_none());
    assert_eq!(betula_tree.entries[0].feature.size(), k);
    assert_eq!(betula_tree.entries[0].feature.diam2(), 0);
}

#[test]
fn sample_tree_matches_four_near_points() {
    let root = borscht::sample::generate(0);
    assert_eq!(root.height(), 2);
    assert_eq!(sum_leaf_sizes(&root), 4);
    check_all_invariants(&root, 3, 3, 50);
}

#[test]
fn config_validation() {
    assert!(BasicConfig::new(Capacity { min: 1, max: 3 }, 50).is_ok());
    assert_eq!(
        BasicConfig::new(Capacity { min: 0, max: 3 }, 50).unwrap_err(),
        ConfigInvalid
    );
    assert_eq!(
        BasicConfig::new(Capacity { min: 4, max: 3 }, 50).unwrap_err(),
        ConfigInvalid
    );
    assert_eq!(
        BasicConfig::new(Capacity { min: 1, max: 1 }, 50).unwrap_err(),
        ConfigInvalid
    );
    assert_eq!(
        BasicConfig::new(Capacity { min: 1, max: 3 }, -1).unwrap_err(),
        ConfigInvalid
    );
}

#[test]
fn entry_absorption_boundary() {
    // absorption happens exactly when the absorbed dispersion stays
    // within the threshold
    let cfg_tight = config(1, 3, 99);
    let cfg_loose = config(1, 3, 100);
    // two points one hundred squared mantissa units apart: the pair's
    // dispersion is exactly one hundred
    let mut entry: NodeEntry<birch::CFeature> =
        NodeEntry { feature: <birch::CFeature as CFeature>::from_point(&Point::from_arr([0, 0, 0])), child: None };
    match entry.insert(Point::from_arr([10, 0, 0]), &cfg_tight) {
        borscht::cftree::EntryInsertion::Failure(p) => {
            assert_eq!(p.as_slice(), &[10, 0, 0]);
        }
        borscht::cftree::EntryInsertion::Success => panic!("absorbed past the threshold"),
    }
    assert_eq!(entry.feature.size(), 1);
    match entry.insert(Point::from_arr([10, 0, 0]), &cfg_loose) {
        borscht::cftree::EntryInsertion::Success => {}
        borscht::cftree::EntryInsertion::Failure(_) => panic!("refused within the threshold"),
    }
    assert_eq!(entry.feature.size(), 2);
    assert_eq!(entry.feature.diam2(), 100);
}
