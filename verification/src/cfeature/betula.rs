//! The numerically stable cluster-feature variant.
//!
//! Stores the count `n`, the running mean `μ` and the sum of squared
//! deviations from the mean `S`, merged Welford-style:
//! `μ = μ₁ + (n₂·(μ₂ − μ₁))/n` and
//! `S = S₁ + S₂ + n₂·(μ₁ − μ₂)·(μ − μ₂)` componentwise. Products are
//! taken before quotients so that integer truncation loses as little as
//! possible.

use vstd::prelude::*;

verus! {

use crate::cfeature::CFeature as CFeatureTrait;
use crate::point::Point;
use crate::point::Scalar;
use crate::point::div_trunc;
use crate::point::pt_in_range;
use crate::point::pt_sub;
use crate::point::sat_add;
use crate::point::sat_mul;
use crate::point::sat_sub;
use crate::point::scalar_div;
use crate::point::scalar_mul;
use crate::point::spec_norm2;

/// The ghost summary: count, mean and squared deviations as mathematical
/// values.
#[verifier::ext_equal]
pub struct BetulaView {
    /// How many points the summary holds.
    pub n: int,
    /// The running mean.
    pub mu: Seq<int>,
    /// The componentwise sum of squared deviations from the mean.
    pub s: Seq<int>,
}

/// The Welford-style `(n, μ, S)` cluster feature.
pub struct CFeature {
    /// Sum of weights.
    n: usize,
    /// Weighted mean.
    mu: Point,
    /// Weighted sum of squared deviations from the mean.
    s: Point,
}

impl View for CFeature {
    type V = BetulaView;

    closed spec fn view(&self) -> BetulaView {
        BetulaView { n: self.n as int, mu: self.mu@, s: self.s@ }
    }
}

/// The merged mean of two summaries whose counts sum to `n > 0`.
pub open spec fn merged_mu(a: BetulaView, b: BetulaView, n: int) -> Seq<int> {
    Seq::new(a.mu.len(), |i: int| sat_add(a.mu[i], div_trunc(sat_mul(sat_sub(b.mu[i], a.mu[i]), b.n), n)))
}

/// The merged squared deviations, given the merged mean.
pub open spec fn merged_s(a: BetulaView, b: BetulaView, mu: Seq<int>) -> Seq<int> {
    Seq::new(
        a.s.len(),
        |i: int|
            sat_add(
                sat_add(a.s[i], b.s[i]),
                sat_mul(sat_mul(sat_sub(a.mu[i], b.mu[i]), b.n), sat_sub(mu[i], b.mu[i])),
            ),
    )
}

impl CFeatureTrait for CFeature {
    open spec fn v_inv(v: BetulaView) -> bool {
        &&& 0 <= v.n <= usize::MAX
        &&& v.mu.len() == v.s.len()
        &&& pt_in_range(v.mu)
        &&& pt_in_range(v.s)
    }

    open spec fn v_dim(v: BetulaView) -> int {
        v.mu.len() as int
    }

    open spec fn v_size(v: BetulaView) -> int {
        v.n
    }

    open spec fn v_diam2(v: BetulaView) -> int {
        if v.n <= 0 {
            i128::MAX as int
        } else {
            div_trunc(sat_mul(2, spec_norm2(v.s)), v.n)
        }
    }

    open spec fn v_center(v: BetulaView) -> Seq<int> {
        v.mu
    }

    open spec fn v_dist2_pt(v: BetulaView, p: Seq<int>) -> int {
        spec_norm2(pt_sub(v.mu, p))
    }

    open spec fn v_dist2(a: BetulaView, b: BetulaView) -> int {
        spec_norm2(pt_sub(a.mu, b.mu))
    }

    open spec fn v_zero(dim: int) -> BetulaView {
        BetulaView {
            n: 0,
            mu: Seq::new(dim as nat, |i: int| 0),
            s: Seq::new(dim as nat, |i: int| 0),
        }
    }

    open spec fn v_add(a: BetulaView, b: BetulaView) -> BetulaView {
        if a.n + b.n == 0 {
            Self::v_zero(a.mu.len() as int)
        } else {
            let mu = merged_mu(a, b, a.n + b.n);
            BetulaView { n: a.n + b.n, mu, s: merged_s(a, b, mu) }
        }
    }

    open spec fn v_add_pt(a: BetulaView, p: Seq<int>) -> BetulaView {
        Self::v_add(a, BetulaView { n: 1, mu: p, s: Seq::new(p.len(), |i: int| 0) })
    }

    proof fn lem_zero(dim: int) {
    }

    proof fn lem_add(a: BetulaView, b: BetulaView) {
        let n = a.n + b.n;
        if n == 0 {
        } else {
            let mu = merged_mu(a, b, n);
            assert forall|i: int| 0 <= i < mu.len() implies crate::point::in_scalar_range(
                #[trigger] mu[i],
            ) by {}
        }
    }

    proof fn lem_add_pt(a: BetulaView, p: Seq<int>) {
        let b = BetulaView { n: 1, mu: p, s: Seq::new(p.len(), |i: int| 0) };
        assert(Self::v_inv(b));
        Self::lem_add(a, b);
    }

    proof fn lem_singleton_diam2(p: Seq<int>) {
        let z = Self::v_zero(p.len() as int);
        let b = BetulaView { n: 1, mu: p, s: Seq::new(p.len(), |i: int| 0) };
        let r = Self::v_add(z, b);
        let mu = merged_mu(z, b, 1);
        assert forall|i: int| 0 <= i < p.len() implies mu[i] == p[i] by {
            assert(sat_sub(p[i], 0) == p[i]);
            assert(sat_mul(p[i], 1) == p[i]);
            assert(div_trunc(p[i], 1) == p[i]);
            assert(sat_add(0, p[i]) == p[i]);
        }
        let sv = merged_s(z, b, mu);
        assert forall|i: int| 0 <= i < sv.len() implies sv[i] == 0 by {
            assert(sat_sub(mu[i], p[i]) == 0);
            assert(sat_mul(sat_mul(sat_sub(0, p[i]), 1), 0) == 0);
        }
        lemma_norm2_of_zeros(sv);
        assert(Self::v_diam2(r) == div_trunc(sat_mul(2, 0), 1));
    }

    proof fn lem_size_bounds(v: BetulaView) {
    }

    fn zero(dim: usize) -> (r: Self) {
        let r = CFeature { n: 0, mu: Point::zero(dim), s: Point::zero(dim) };
        proof {
            assert(r@ =~= Self::v_zero(dim as int));
        }
        r
    }

    fn from_point(p: &Point) -> (r: Self) {
        let z = Self::zero(p.dim());
        proof {
            Self::lem_zero(p@.len() as int);
            p.lemma_view_in_range();
        }
        z.add_point(p)
    }

    fn add(&self, o: &Self) -> (r: Self) {
        let n = self.n + o.n;
        if n == 0 {
            let r = Self::zero(self.mu.dim());
            proof {
                assert(r@ =~= Self::v_add(self@, o@));
            }
            return r;
        }
        let n_scalar: Scalar = n as Scalar;
        let weight: Scalar = o.n as Scalar;
        let shift = o.mu.sub(&self.mu).mul_scalar(weight).div_scalar(n_scalar);
        let mu = self.mu.add(&shift);
        let prod = self.mu.sub(&o.mu).mul_scalar(weight).mul(&mu.sub(&o.mu));
        let s = self.s.add(&o.s).add(&prod);
        let r = CFeature { n, mu, s };
        proof {
            assert(r@.mu =~= merged_mu(self@, o@, n as int));
            assert(r@.s =~= merged_s(self@, o@, r@.mu));
            assert(r@ =~= Self::v_add(self@, o@));
        }
        r
    }

    fn add_point(&self, p: &Point) -> (r: Self) {
        let single = CFeature { n: 1, mu: p.duplicate(), s: Point::zero(p.dim()) };
        proof {
            p.lemma_view_in_range();
            assert(single@ =~= (BetulaView {
                n: 1,
                mu: p@,
                s: Seq::new(p@.len(), |i: int| 0),
            }));
        }
        self.add(&single)
    }

    fn diam2(&self) -> (r: Scalar) {
        if self.n == 0 {
            i128::MAX
        } else {
            scalar_div(scalar_mul(2, self.s.norm2()), self.n as Scalar)
        }
    }

    fn dist2_pt(&self, p: &Point) -> (r: Scalar) {
        self.mu.sub(p).norm2()
    }

    fn dist2_cf(&self, o: &Self) -> (r: Scalar) {
        self.mu.sub(&o.mu).norm2()
    }

    fn center(&self) -> (r: Point) {
        self.mu.duplicate()
    }

    fn size(&self) -> (r: usize) {
        self.n
    }

    fn is_zero(&self) -> (r: bool) {
        let r = self.n == 0 && self.mu.is_zero() && self.s.is_zero();
        proof {
            if r {
                assert(self@ =~= Self::v_zero(Self::v_dim(self@)));
            } else {
                if self@ == Self::v_zero(Self::v_dim(self@)) {
                    assert(forall|i: int| 0 <= i < self@.mu.len() ==> self@.mu[i] == 0);
                    assert(forall|i: int| 0 <= i < self@.s.len() ==> self@.s[i] == 0);
                    assert(false);
                }
            }
        }
        r
    }
}

impl CFeature {
    /// The running mean of the summarized points.
    pub fn mean(&self) -> (r: &Point)
        ensures
            r@ == self@.mu,
    {
        &self.mu
    }

    /// The componentwise sum of squared deviations from the mean.
    pub fn deviations(&self) -> (r: &Point)
        ensures
            r@ == self@.s,
    {
        &self.s
    }

    /// Rebuilds a summary from its three stored fields; the mean and the
    /// deviations must share one dimension.
    pub fn from_parts(n: usize, mu: Point, s: Point) -> (r: Result<CFeature, crate::cftree::ConfigInvalid>)
        ensures
            (mu@.len() == s@.len()) <==> r is Ok,
            r matches Ok(f) ==> f@ == (BetulaView { n: n as int, mu: mu@, s: s@ }),
    {
        if mu.dim() != s.dim() {
            return Err(crate::cftree::ConfigInvalid);
        }
        Ok(CFeature { n, mu, s })
    }
}

/// The squared norm of an all-zero sequence is zero.
pub proof fn lemma_norm2_of_zeros(s: Seq<int>)
    requires
        forall|i: int| 0 <= i < s.len() ==> s[i] == 0,
    ensures
        spec_norm2(s) == 0,
    decreases s.len(),
{
    if s.len() != 0 {
        lemma_norm2_of_zeros(s.drop_last());
    }
}

} // verus!
