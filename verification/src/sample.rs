//! A small fixed sample stream and the tree it builds.
//!
//! Coordinates use ten mantissa units per axis unit, so squared
//! quantities carry one hundred units: the classical threshold of half a
//! squared unit is the mantissa fifty.

use vstd::prelude::*;

verus! {

use crate::cfeature::birch;
use crate::cftree::BasicConfig;
use crate::cftree::Capacity;
use crate::cftree::Node;
use crate::cftree::SpecConfig;
use crate::cftree::TreeConfig;
use crate::cftree::node_points;
use crate::cftree::node_wf;
use crate::cftree::spec_build;
use crate::point::Point;

/// The sample stream: four nearby points, one mantissa decade apart.
pub open spec fn sample_points() -> Seq<Seq<int>> {
    seq![
        seq![10int, 20int, 30int],
        seq![20int, 20int, 30int],
        seq![10int, 30int, 30int],
        seq![10int, 20int, 40int],
    ]
}

/// The sample configuration: one to three entries per node, and a
/// threshold of half a squared axis unit.
pub open spec fn sample_config() -> SpecConfig {
    SpecConfig { node_min: 1, node_max: 3, leaf_min: 1, leaf_max: 3, threshold: 50 }
}

/// Builds the classical-variant tree of the fixed sample stream.
pub fn generate(_seed: u64) -> (r: Node<birch::CFeature>)
    ensures
        r@ == spec_build::<birch::CFeature>(sample_points(), 3, sample_config()),
        node_wf::<birch::CFeature>(r@, 3, sample_config()),
        node_points::<birch::CFeature>(r@) == 4,
{
    let mut points: Vec<Point> = Vec::new();
    points.push(Point::from_arr([10, 20, 30]));
    points.push(Point::from_arr([20, 20, 30]));
    points.push(Point::from_arr([10, 30, 30]));
    points.push(Point::from_arr([10, 20, 40]));
    let config = BasicConfig { capacity: Capacity { min: 1, max: 3 }, threshold: 50 };
    proof {
        assert(config.spec_config() == sample_config());
        assert(points@[0]@ =~= sample_points()[0]);
        assert(points@[1]@ =~= sample_points()[1]);
        assert(points@[2]@ =~= sample_points()[2]);
        assert(points@[3]@ =~= sample_points()[3]);
    }
    let r = Node::<birch::CFeature>::from_iter(points, &config);
    proof {
        assert(points@.map_values(|q: Point| q@) =~= sample_points());
    }
    r
}

} // verus!
