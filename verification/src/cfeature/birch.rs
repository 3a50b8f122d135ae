//! The classical cluster-feature variant.
//!
//! Stores the linear sum `ls = Σ xᵢ`, the squared sum `ss = Σ ‖xᵢ‖²` and
//! the count `n`. Summaries combine by adding the three fields. Squared
//! distances are taken between the raw linear sums, not between centroids:
//! that is this variant's documented behaviour.

use vstd::prelude::*;

verus! {

use crate::cfeature::CFeature as CFeatureTrait;
use crate::point::Point;
use crate::point::Scalar;
use crate::point::div_trunc;
use crate::point::in_scalar_range;
use crate::point::pt_add;
use crate::point::pt_div_scalar;
use crate::point::pt_in_range;
use crate::point::pt_sub;
use crate::point::sat_add;
use crate::point::sat_mul;
use crate::point::sat_sub;
use crate::point::scalar_add;
use crate::point::scalar_div;
use crate::point::scalar_mul;
use crate::point::scalar_sub;
use crate::point::spec_norm2;

/// The ghost summary: linear sum, squared sum and count as mathematical
/// values.
#[verifier::ext_equal]
pub struct BirchView {
    /// Linear sum of the summarized points.
    pub ls: Seq<int>,
    /// Sum of the points' squared norms.
    pub ss: int,
    /// How many points the summary holds.
    pub n: int,
}

/// The classical `(ls, ss, n)` cluster feature.
pub struct CFeature {
    /// Linear sum.
    ls: Point,
    /// Sum of squares.
    ss: Scalar,
    /// Size.
    n: usize,
}

impl View for CFeature {
    type V = BirchView;

    closed spec fn view(&self) -> BirchView {
        BirchView { ls: self.ls@, ss: self.ss as int, n: self.n as int }
    }
}

/// The dispersion divisor: one below two points, else `n·(n−1)`,
/// saturated.
pub open spec fn diam2_divisor(n: int) -> int {
    if n < 2 {
        1
    } else {
        sat_mul(n, n - 1)
    }
}

impl CFeatureTrait for CFeature {
    open spec fn v_inv(v: BirchView) -> bool {
        &&& 0 <= v.n <= usize::MAX
        &&& in_scalar_range(v.ss)
        &&& pt_in_range(v.ls)
    }

    open spec fn v_dim(v: BirchView) -> int {
        v.ls.len() as int
    }

    open spec fn v_size(v: BirchView) -> int {
        v.n
    }

    open spec fn v_diam2(v: BirchView) -> int {
        div_trunc(
            sat_sub(sat_mul(sat_mul(2, v.n), v.ss), sat_mul(2, spec_norm2(v.ls))),
            diam2_divisor(v.n),
        )
    }

    open spec fn v_center(v: BirchView) -> Seq<int> {
        pt_div_scalar(v.ls, v.n)
    }

    open spec fn v_dist2_pt(v: BirchView, p: Seq<int>) -> int {
        spec_norm2(pt_sub(v.ls, p))
    }

    open spec fn v_dist2(a: BirchView, b: BirchView) -> int {
        spec_norm2(pt_sub(a.ls, b.ls))
    }

    open spec fn v_zero(dim: int) -> BirchView {
        BirchView { ls: Seq::new(dim as nat, |i: int| 0), ss: 0, n: 0 }
    }

    open spec fn v_add(a: BirchView, b: BirchView) -> BirchView {
        BirchView { ls: pt_add(a.ls, b.ls), ss: sat_add(a.ss, b.ss), n: a.n + b.n }
    }

    open spec fn v_add_pt(a: BirchView, p: Seq<int>) -> BirchView {
        BirchView { ls: pt_add(a.ls, p), ss: sat_add(a.ss, spec_norm2(p)), n: a.n + 1 }
    }

    proof fn lem_zero(dim: int) {
    }

    proof fn lem_add(a: BirchView, b: BirchView) {
    }

    proof fn lem_add_pt(a: BirchView, p: Seq<int>) {
        lemma_norm2_in_range(p);
    }

    proof fn lem_singleton_diam2(p: Seq<int>) {
        let z = Self::v_zero(p.len() as int);
        let s = Self::v_add_pt(z, p);
        assert(s.ls =~= p);
        lemma_norm2_in_range(p);
        assert(s.ss == spec_norm2(p));
        assert(sat_mul(2, s.n) == 2);
        assert(sat_mul(2, s.ss) == sat_mul(2, spec_norm2(s.ls)));
        assert(sat_sub(sat_mul(sat_mul(2, s.n), s.ss), sat_mul(2, spec_norm2(s.ls))) == 0);
        assert(Self::v_diam2(s) == div_trunc(0, 1));
    }

    proof fn lem_size_bounds(v: BirchView) {
    }

    fn zero(dim: usize) -> (r: Self) {
        let r = CFeature { ls: Point::zero(dim), ss: 0, n: 0 };
        proof {
            assert(r@ =~= Self::v_zero(dim as int));
        }
        r
    }

    fn from_point(p: &Point) -> (r: Self) {
        let z = Self::zero(p.dim());
        proof {
            Self::lem_zero(p@.len() as int);
        }
        z.add_point(p)
    }

    fn add(&self, o: &Self) -> (r: Self) {
        let r = CFeature {
            ls: self.ls.add(&o.ls),
            ss: scalar_add(self.ss, o.ss),
            n: self.n + o.n,
        };
        proof {
            assert(r@ =~= Self::v_add(self@, o@));
        }
        r
    }

    fn add_point(&self, p: &Point) -> (r: Self) {
        let r = CFeature {
            ls: self.ls.add(p),
            ss: scalar_add(self.ss, p.norm2()),
            n: self.n + 1,
        };
        proof {
            assert(r@ =~= Self::v_add_pt(self@, p@));
        }
        r
    }

    fn diam2(&self) -> (r: Scalar) {
        let n_scalar: Scalar = self.n as Scalar;
        let numerator = scalar_sub(
            scalar_mul(scalar_mul(2, n_scalar), self.ss),
            scalar_mul(2, self.ls.norm2()),
        );
        let divisor: Scalar = if self.n < 2 {
            1
        } else {
            proof {
                assert(self.n as int * (self.n as int - 1) >= 2) by (nonlinear_arith)
                    requires
                        self.n >= 2,
                ;
            }
            scalar_mul(n_scalar, n_scalar - 1)
        };
        scalar_div(numerator, divisor)
    }

    fn dist2_pt(&self, p: &Point) -> (r: Scalar) {
        self.ls.sub(p).norm2()
    }

    fn dist2_cf(&self, o: &Self) -> (r: Scalar) {
        self.ls.sub(&o.ls).norm2()
    }

    fn center(&self) -> (r: Point) {
        self.ls.div_scalar(self.n as Scalar)
    }

    fn size(&self) -> (r: usize) {
        self.n
    }

    fn is_zero(&self) -> (r: bool) {
        let r = self.ls.is_zero() && self.ss == 0 && self.n == 0;
        proof {
            if r {
                assert(self@ =~= Self::v_zero(Self::v_dim(self@)));
            } else {
                if self@ == Self::v_zero(Self::v_dim(self@)) {
                    assert(forall|i: int|
                        0 <= i < self@.ls.len() ==> self@.ls[i] == 0);
                    assert(false);
                }
            }
        }
        r
    }
}

impl CFeature {
    /// The linear sum of the summarized points.
    pub fn linear_sum(&self) -> (r: &Point)
        ensures
            r@ == self@.ls,
    {
        &self.ls
    }

    /// The sum of the points' squared norms.
    pub fn square_sum(&self) -> (r: Scalar)
        ensures
            r == self@.ss,
    {
        self.ss
    }

    /// Rebuilds a summary from its three stored fields.
    pub fn from_parts(ls: Point, ss: Scalar, n: usize) -> (r: CFeature)
        ensures
            r@ == (BirchView { ls: ls@, ss: ss as int, n: n as int }),
    {
        CFeature { ls, ss, n }
    }
}

/// The saturating squared norm always lies in the representable range.
pub proof fn lemma_norm2_in_range(s: Seq<int>)
    ensures
        in_scalar_range(spec_norm2(s)),
    decreases s.len(),
{
    if s.len() != 0 {
        lemma_norm2_in_range(s.drop_last());
    }
}

} // verus!
