//! The cluster-feature capability set.
//!
//! A cluster feature (CF) is a constant-size summary of a multiset of
//! points: it can absorb another summary or a single point, and it derives
//! its centroid, its dispersion (`diam2`) and squared distances in constant
//! time. Two interchangeable variants implement the trait:
//! [`crate::cfeature::birch::CFeature`] and
//! [`crate::cfeature::betula::CFeature`].
//!
//! Every implementation carries a ghost view (`Self::V` through
//! [`View`]) and a spec-level algebra over views that pins each executable
//! operation exactly.

use vstd::prelude::*;

pub mod betula;
pub mod birch;

verus! {

use crate::point::Point;
use crate::point::Scalar;

/// The cluster-feature capability set: an additive summary of a point
/// multiset with derived centroid, dispersion and distances.
pub trait CFeature: View + Sized {
    /// The view is well formed: sizes and stored scalars are
    /// representable and internal dimensions agree.
    spec fn v_inv(v: Self::V) -> bool;

    /// The dimension of the summarized points.
    spec fn v_dim(v: Self::V) -> int;

    /// How many points the summary holds.
    spec fn v_size(v: Self::V) -> int;

    /// The dispersion measure the absorption threshold is compared with.
    spec fn v_diam2(v: Self::V) -> int;

    /// The centroid's coordinates.
    spec fn v_center(v: Self::V) -> Seq<int>;

    /// Squared distance from the summary to a point.
    spec fn v_dist2_pt(v: Self::V, p: Seq<int>) -> int;

    /// Squared distance between two summaries.
    spec fn v_dist2(a: Self::V, b: Self::V) -> int;

    /// The empty summary of the given dimension.
    spec fn v_zero(dim: int) -> Self::V;

    /// The summary of the union of two summarized multisets.
    spec fn v_add(a: Self::V, b: Self::V) -> Self::V;

    /// The summary after absorbing one more point.
    spec fn v_add_pt(a: Self::V, p: Seq<int>) -> Self::V;

    /// The empty summary is well formed, empty and of the asked dimension.
    proof fn lem_zero(dim: int)
        requires
            dim >= 0,
        ensures
            Self::v_inv(Self::v_zero(dim)),
            Self::v_dim(Self::v_zero(dim)) == dim,
            Self::v_size(Self::v_zero(dim)) == 0;

    /// Combining summaries adds their sizes and keeps well-formedness
    /// and dimension.
    proof fn lem_add(a: Self::V, b: Self::V)
        requires
            Self::v_inv(a),
            Self::v_inv(b),
            Self::v_dim(a) == Self::v_dim(b),
            Self::v_size(a) + Self::v_size(b) <= usize::MAX,
        ensures
            Self::v_inv(Self::v_add(a, b)),
            Self::v_dim(Self::v_add(a, b)) == Self::v_dim(a),
            Self::v_size(Self::v_add(a, b)) == Self::v_size(a) + Self::v_size(b);

    /// Absorbing a point grows the size by exactly one and keeps
    /// well-formedness and dimension.
    proof fn lem_add_pt(a: Self::V, p: Seq<int>)
        requires
            Self::v_inv(a),
            Self::v_dim(a) == p.len(),
            crate::point::pt_in_range(p),
            Self::v_size(a) + 1 <= usize::MAX,
        ensures
            Self::v_inv(Self::v_add_pt(a, p)),
            Self::v_dim(Self::v_add_pt(a, p)) == Self::v_dim(a),
            Self::v_size(Self::v_add_pt(a, p)) == Self::v_size(a) + 1;

    /// A singleton summary has dispersion exactly zero.
    proof fn lem_singleton_diam2(p: Seq<int>)
        requires
            crate::point::pt_in_range(p),
        ensures
            Self::v_diam2(Self::v_add_pt(Self::v_zero(p.len() as int), p)) == 0;

    /// A well-formed summary's size is a representable count.
    proof fn lem_size_bounds(v: Self::V)
        requires
            Self::v_inv(v),
        ensures
            0 <= Self::v_size(v) <= usize::MAX;

    /// The empty summary of the given dimension.
    fn zero(dim: usize) -> (r: Self)
        ensures
            r@ == Self::v_zero(dim as int),
    ;

    /// The singleton summary of one point.
    fn from_point(p: &Point) -> (r: Self)
        ensures
            r@ == Self::v_add_pt(Self::v_zero(p@.len() as int), p@),
    ;

    /// Combines two summaries over the same dimension.
    fn add(&self, o: &Self) -> (r: Self)
        requires
            Self::v_inv(self@),
            Self::v_inv(o@),
            Self::v_dim(self@) == Self::v_dim(o@),
            Self::v_size(self@) + Self::v_size(o@) <= usize::MAX,
        ensures
            r@ == Self::v_add(self@, o@),
    ;

    /// Absorbs one point into the summary.
    fn add_point(&self, p: &Point) -> (r: Self)
        requires
            Self::v_inv(self@),
            Self::v_dim(self@) == p@.len(),
            Self::v_size(self@) + 1 <= usize::MAX,
        ensures
            r@ == Self::v_add_pt(self@, p@),
    ;

    /// The dispersion measure compared against the absorption threshold.
    fn diam2(&self) -> (r: Scalar)
        requires
            Self::v_inv(self@),
        ensures
            r == Self::v_diam2(self@),
    ;

    /// Squared distance from the summary to a point.
    fn dist2_pt(&self, p: &Point) -> (r: Scalar)
        requires
            Self::v_inv(self@),
            Self::v_dim(self@) == p@.len(),
        ensures
            r == Self::v_dist2_pt(self@, p@),
    ;

    /// Squared distance between two summaries.
    fn dist2_cf(&self, o: &Self) -> (r: Scalar)
        requires
            Self::v_inv(self@),
            Self::v_inv(o@),
            Self::v_dim(self@) == Self::v_dim(o@),
        ensures
            r == Self::v_dist2(self@, o@),
    ;

    /// The centroid of a non-empty summary.
    fn center(&self) -> (r: Point)
        requires
            Self::v_inv(self@),
            Self::v_size(self@) > 0,
        ensures
            r@ == Self::v_center(self@),
    ;

    /// How many points the summary holds.
    fn size(&self) -> (r: usize)
        requires
            Self::v_inv(self@),
        ensures
            r as int == Self::v_size(self@),
    ;

    /// Whether the summary is the empty one of its dimension.
    fn is_zero(&self) -> (r: bool)
        requires
            Self::v_inv(self@),
        ensures
            r == (self@ == Self::v_zero(Self::v_dim(self@))),
    ;
}

} // verus!
