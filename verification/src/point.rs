//! The scalar type, its saturating arithmetic, and the point type.
//!
//! A [`Scalar`] is a fixed-point mantissa: the caller fixes a scale once and
//! writes every coordinate as an integer multiple of it. Sums, differences
//! and products saturate at the bounds of `i128`; quotients truncate toward
//! zero. Every operation is total and its result is pinned exactly by the
//! spec functions below.

use vstd::prelude::*;

verus! {

/// The scalar the engine computes with: a fixed-point mantissa.
pub type Scalar = i128;

/// Clamps a mathematical integer into the representable scalar range.
pub open spec fn sat(x: int) -> int {
    if x > i128::MAX {
        i128::MAX as int
    } else if x < i128::MIN {
        i128::MIN as int
    } else {
        x
    }
}

/// Saturating sum.
pub open spec fn sat_add(a: int, b: int) -> int {
    sat(a + b)
}

/// Saturating difference.
pub open spec fn sat_sub(a: int, b: int) -> int {
    sat(a - b)
}

/// Saturating product.
pub open spec fn sat_mul(a: int, b: int) -> int {
    sat(a * b)
}

/// Quotient truncated toward zero, for a positive divisor.
pub open spec fn div_trunc(a: int, b: int) -> int
    recommends
        b > 0,
{
    if a >= 0 {
        a / b
    } else {
        -((-a) / b)
    }
}

/// Remainder with the sign of the dividend, for a positive divisor,
/// so that `b * div_trunc(a, b) + rem_trunc(a, b) == a`.
pub open spec fn rem_trunc(a: int, b: int) -> int
    recommends
        b > 0,
{
    if a >= 0 {
        a % b
    } else {
        -((-a) % b)
    }
}

/// Adds two scalars, saturating at the representable bounds.
pub fn scalar_add(a: Scalar, b: Scalar) -> (r: Scalar)
    ensures
        r == sat_add(a as int, b as int),
{
    match a.checked_add(b) {
        Some(r) => r,
        None => {
            if a > 0 {
                i128::MAX
            } else {
                i128::MIN
            }
        },
    }
}

/// Subtracts two scalars, saturating at the representable bounds.
pub fn scalar_sub(a: Scalar, b: Scalar) -> (r: Scalar)
    ensures
        r == sat_sub(a as int, b as int),
{
    match a.checked_sub(b) {
        Some(r) => r,
        None => {
            if a >= 0 {
                i128::MAX
            } else {
                i128::MIN
            }
        },
    }
}

/// Multiplies two scalars, saturating at the representable bounds.
pub fn scalar_mul(a: Scalar, b: Scalar) -> (r: Scalar)
    ensures
        r == sat_mul(a as int, b as int),
{
    match a.checked_mul(b) {
        Some(r) => r,
        None => {
            proof {
                assert(((a > 0) == (b > 0)) ==> a as int * b as int >= 0) by (nonlinear_arith);
                assert(((a > 0) != (b > 0)) ==> a as int * b as int <= 0) by (nonlinear_arith);
            }
            if (a > 0) == (b > 0) {
                i128::MAX
            } else {
                i128::MIN
            }
        },
    }
}

/// Divides a scalar by a positive scalar, truncating toward zero.
pub fn scalar_div(a: Scalar, b: Scalar) -> (r: Scalar)
    requires
        b > 0,
    ensures
        r == div_trunc(a as int, b as int),
{
    proof {
        lemma_div_trunc_bounds(a as int, b as int);
    }
    match a.checked_div(b) {
        Some(r) => r,
        None => 0,  // unreachable: the divisor is positive
    }
}

/// Remainder of a scalar by a positive scalar, with the dividend's sign.
pub fn scalar_rem(a: Scalar, b: Scalar) -> (r: Scalar)
    requires
        b > 0,
    ensures
        r == rem_trunc(a as int, b as int),
{
    match a.checked_rem(b) {
        Some(r) => r,
        None => 0,  // unreachable: the divisor is positive
    }
}

/// Whether a mathematical integer is representable as a scalar.
pub open spec fn in_scalar_range(x: int) -> bool {
    i128::MIN <= x <= i128::MAX
}

/// Whether every coordinate of a sequence is representable.
pub open spec fn pt_in_range(s: Seq<int>) -> bool {
    forall|i: int| 0 <= i < s.len() ==> in_scalar_range(#[trigger] s[i])
}

/// Elementwise saturating sum of two coordinate sequences.
pub open spec fn pt_add(a: Seq<int>, b: Seq<int>) -> Seq<int>
    recommends
        a.len() == b.len(),
{
    Seq::new(a.len(), |i: int| sat_add(a[i], b[i]))
}

/// Elementwise saturating difference of two coordinate sequences.
pub open spec fn pt_sub(a: Seq<int>, b: Seq<int>) -> Seq<int>
    recommends
        a.len() == b.len(),
{
    Seq::new(a.len(), |i: int| sat_sub(a[i], b[i]))
}

/// Elementwise saturating product of two coordinate sequences.
pub open spec fn pt_mul(a: Seq<int>, b: Seq<int>) -> Seq<int>
    recommends
        a.len() == b.len(),
{
    Seq::new(a.len(), |i: int| sat_mul(a[i], b[i]))
}

/// Elementwise truncated quotient of two coordinate sequences.
pub open spec fn pt_div(a: Seq<int>, b: Seq<int>) -> Seq<int>
    recommends
        a.len() == b.len(),
{
    Seq::new(a.len(), |i: int| div_trunc(a[i], b[i]))
}

/// Elementwise truncated remainder of two coordinate sequences.
pub open spec fn pt_rem(a: Seq<int>, b: Seq<int>) -> Seq<int>
    recommends
        a.len() == b.len(),
{
    Seq::new(a.len(), |i: int| rem_trunc(a[i], b[i]))
}

/// Elementwise saturating negation.
pub open spec fn pt_neg(a: Seq<int>) -> Seq<int> {
    Seq::new(a.len(), |i: int| sat_sub(0, a[i]))
}

/// A scalar broadcast over every coordinate, combined with the given
/// saturating sum.
pub open spec fn pt_add_scalar(a: Seq<int>, s: int) -> Seq<int> {
    Seq::new(a.len(), |i: int| sat_add(a[i], s))
}

/// A scalar broadcast subtracted from every coordinate.
pub open spec fn pt_sub_scalar(a: Seq<int>, s: int) -> Seq<int> {
    Seq::new(a.len(), |i: int| sat_sub(a[i], s))
}

/// A scalar broadcast multiplied into every coordinate.
pub open spec fn pt_mul_scalar(a: Seq<int>, s: int) -> Seq<int> {
    Seq::new(a.len(), |i: int| sat_mul(a[i], s))
}

/// Every coordinate divided by a positive scalar, truncating toward zero.
pub open spec fn pt_div_scalar(a: Seq<int>, s: int) -> Seq<int>
    recommends
        s > 0,
{
    Seq::new(a.len(), |i: int| div_trunc(a[i], s))
}

/// Every coordinate reduced modulo a positive scalar.
pub open spec fn pt_rem_scalar(a: Seq<int>, s: int) -> Seq<int>
    recommends
        s > 0,
{
    Seq::new(a.len(), |i: int| rem_trunc(a[i], s))
}

/// The squared Euclidean norm, folded left to right with saturation.
pub open spec fn spec_norm2(s: Seq<int>) -> int
    decreases s.len(),
{
    if s.len() == 0 {
        0
    } else {
        sat_add(spec_norm2(s.drop_last()), sat_mul(s.last(), s.last()))
    }
}

/// A fixed-dimensional coordinate vector of scalars.
///
/// The view is the sequence of coordinate mantissas as mathematical
/// integers; every operation below is pinned elementwise against it.
pub struct Point {
    coords: Vec<Scalar>,
}

impl View for Point {
    type V = Seq<int>;

    closed spec fn view(&self) -> Seq<int> {
        self.coords@.map_values(|x: Scalar| x as int)
    }
}

impl Point {
    /// Builds a point from a fixed-size coordinate array.
    pub fn from_arr<const N: usize>(arr: [Scalar; N]) -> (r: Point)
        ensures
            r@.len() == N,
            forall|i: int| 0 <= i < N ==> r@[i] == arr@[i],
    {
        let mut coords: Vec<Scalar> = Vec::with_capacity(N);
        for k in 0..N
            invariant
                coords@.len() == k,
                forall|i: int| 0 <= i < k ==> coords@[i] == arr@[i],
        {
            coords.push(arr[k]);
        }
        Point { coords }
    }

    /// Builds a point from a coordinate vector.
    pub fn from_vec(coords: Vec<Scalar>) -> (r: Point)
        ensures
            r@.len() == coords@.len(),
            forall|i: int| 0 <= i < coords@.len() ==> r@[i] == coords@[i],
    {
        Point { coords }
    }

    /// The coordinates as a borrowed slice.
    pub fn as_slice(&self) -> (r: &[Scalar])
        ensures
            r@.len() == self@.len(),
            forall|i: int| 0 <= i < self@.len() ==> r@[i] == self@[i],
    {
        self.coords.as_slice()
    }

    /// The dimension: how many coordinates the point has.
    pub fn dim(&self) -> (r: usize)
        ensures
            r == self@.len(),
    {
        self.coords.len()
    }

    /// Reads one coordinate.
    pub fn index(&self, i: usize) -> (r: Scalar)
        requires
            i < self@.len(),
        ensures
            r == self@[i as int],
    {
        self.coords[i]
    }

    /// Overwrites one coordinate.
    pub fn set(&mut self, i: usize, v: Scalar)
        requires
            i < old(self)@.len(),
        ensures
            final(self)@ == old(self)@.update(i as int, v as int),
    {
        self.coords.set(i, v);
        assert(final(self)@ =~= old(self)@.update(i as int, v as int));
    }

    /// The all-zeros point of the given dimension.
    pub fn zero(dim: usize) -> (r: Point)
        ensures
            r@.len() == dim,
            forall|i: int| 0 <= i < dim ==> r@[i] == 0,
    {
        let mut coords: Vec<Scalar> = Vec::with_capacity(dim);
        for k in 0..dim
            invariant
                coords@.len() == k,
                forall|i: int| 0 <= i < k ==> coords@[i] == 0,
        {
            coords.push(0);
        }
        Point { coords }
    }

    /// Whether every coordinate is zero.
    pub fn is_zero(&self) -> (r: bool)
        ensures
            r == (forall|i: int| 0 <= i < self@.len() ==> self@[i] == 0),
    {
        for k in 0..self.coords.len()
            invariant
                forall|i: int| 0 <= i < k ==> self@[i] == 0,
        {
            if self.coords[k] != 0 {
                proof {
                    assert(self@[k as int] != 0);
                }
                return false;
            }
        }
        true
    }

    /// An identical copy of the point.
    pub fn duplicate(&self) -> (r: Point)
        ensures
            r@ == self@,
    {
        let mut coords: Vec<Scalar> = Vec::with_capacity(self.coords.len());
        for k in 0..self.coords.len()
            invariant
                coords@.len() == k,
                forall|i: int| 0 <= i < k ==> coords@[i] == self.coords@[i],
        {
            coords.push(self.coords[k]);
        }
        let r = Point { coords };
        assert(r@ =~= self@);
        r
    }

    /// Elementwise saturating sum.
    pub fn add(&self, o: &Point) -> (r: Point)
        requires
            self@.len() == o@.len(),
        ensures
            r@ == pt_add(self@, o@),
    {
        let n = self.coords.len();
        let mut coords: Vec<Scalar> = Vec::with_capacity(n);
        for k in 0..n
            invariant
                n == self@.len(),
                o@.len() == n,
                coords@.len() == k,
                forall|i: int| 0 <= i < k ==> coords@[i] == sat_add(self@[i], o@[i]),
        {
            coords.push(scalar_add(self.coords[k], o.coords[k]));
        }
        let r = Point { coords };
        proof {
            assert(r@ =~= pt_add(self@, o@));
        }
        r
    }

    /// Elementwise saturating difference.
    pub fn sub(&self, o: &Point) -> (r: Point)
        requires
            self@.len() == o@.len(),
        ensures
            r@ == pt_sub(self@, o@),
    {
        let n = self.coords.len();
        let mut coords: Vec<Scalar> = Vec::with_capacity(n);
        for k in 0..n
            invariant
                n == self@.len(),
                o@.len() == n,
                coords@.len() == k,
                forall|i: int| 0 <= i < k ==> coords@[i] == sat_sub(self@[i], o@[i]),
        {
            coords.push(scalar_sub(self.coords[k], o.coords[k]));
        }
        let r = Point { coords };
        proof {
            assert(r@ =~= pt_sub(self@, o@));
        }
        r
    }

    /// Elementwise saturating product.
    pub fn mul(&self, o: &Point) -> (r: Point)
        requires
            self@.len() == o@.len(),
        ensures
            r@ == pt_mul(self@, o@),
    {
        let n = self.coords.len();
        let mut coords: Vec<Scalar> = Vec::with_capacity(n);
        for k in 0..n
            invariant
                n == self@.len(),
                o@.len() == n,
                coords@.len() == k,
                forall|i: int| 0 <= i < k ==> coords@[i] == sat_mul(self@[i], o@[i]),
        {
            coords.push(scalar_mul(self.coords[k], o.coords[k]));
        }
        let r = Point { coords };
        proof {
            assert(r@ =~= pt_mul(self@, o@));
        }
        r
    }

    /// Elementwise truncated quotient; every divisor coordinate must be
    /// positive.
    pub fn div(&self, o: &Point) -> (r: Point)
        requires
            self@.len() == o@.len(),
            forall|i: int| 0 <= i < o@.len() ==> o@[i] > 0,
        ensures
            r@ == pt_div(self@, o@),
    {
        let n = self.coords.len();
        let mut coords: Vec<Scalar> = Vec::with_capacity(n);
        for k in 0..n
            invariant
                n == self@.len(),
                o@.len() == n,
                forall|i: int| 0 <= i < n ==> o@[i] > 0,
                coords@.len() == k,
                forall|i: int| 0 <= i < k ==> coords@[i] == div_trunc(self@[i], o@[i]),
        {
            proof {
                assert(o@[k as int] > 0);
            }
            coords.push(scalar_div(self.coords[k], o.coords[k]));
        }
        let r = Point { coords };
        proof {
            assert(r@ =~= pt_div(self@, o@));
        }
        r
    }

    /// Elementwise truncated remainder; every divisor coordinate must be
    /// positive.
    pub fn rem(&self, o: &Point) -> (r: Point)
        requires
            self@.len() == o@.len(),
            forall|i: int| 0 <= i < o@.len() ==> o@[i] > 0,
        ensures
            r@ == pt_rem(self@, o@),
    {
        let n = self.coords.len();
        let mut coords: Vec<Scalar> = Vec::with_capacity(n);
        for k in 0..n
            invariant
                n == self@.len(),
                o@.len() == n,
                forall|i: int| 0 <= i < n ==> o@[i] > 0,
                coords@.len() == k,
                forall|i: int| 0 <= i < k ==> coords@[i] == rem_trunc(self@[i], o@[i]),
        {
            proof {
                assert(o@[k as int] > 0);
            }
            coords.push(scalar_rem(self.coords[k], o.coords[k]));
        }
        let r = Point { coords };
        proof {
            assert(r@ =~= pt_rem(self@, o@));
        }
        r
    }

    /// Elementwise saturating negation.
    pub fn neg(&self) -> (r: Point)
        ensures
            r@ == pt_neg(self@),
    {
        let n = self.coords.len();
        let mut coords: Vec<Scalar> = Vec::with_capacity(n);
        for k in 0..n
            invariant
                n == self@.len(),
                coords@.len() == k,
                forall|i: int| 0 <= i < k ==> coords@[i] == sat_sub(0, self@[i]),
        {
            coords.push(scalar_sub(0, self.coords[k]));
        }
        let r = Point { coords };
        proof {
            assert(r@ =~= pt_neg(self@));
        }
        r
    }

    /// The scalar added to every coordinate, saturating.
    pub fn add_scalar(&self, s: Scalar) -> (r: Point)
        ensures
            r@ == pt_add_scalar(self@, s as int),
    {
        let n = self.coords.len();
        let mut coords: Vec<Scalar> = Vec::with_capacity(n);
        for k in 0..n
            invariant
                n == self@.len(),
                coords@.len() == k,
                forall|i: int| 0 <= i < k ==> coords@[i] == sat_add(self@[i], s as int),
        {
            coords.push(scalar_add(self.coords[k], s));
        }
        let r = Point { coords };
        proof {
            assert(r@ =~= pt_add_scalar(self@, s as int));
        }
        r
    }

    /// The scalar subtracted from every coordinate, saturating.
    pub fn sub_scalar(&self, s: Scalar) -> (r: Point)
        ensures
            r@ == pt_sub_scalar(self@, s as int),
    {
        let n = self.coords.len();
        let mut coords: Vec<Scalar> = Vec::with_capacity(n);
        for k in 0..n
            invariant
                n == self@.len(),
                coords@.len() == k,
                forall|i: int| 0 <= i < k ==> coords@[i] == sat_sub(self@[i], s as int),
        {
            coords.push(scalar_sub(self.coords[k], s));
        }
        let r = Point { coords };
        proof {
            assert(r@ =~= pt_sub_scalar(self@, s as int));
        }
        r
    }

    /// Every coordinate multiplied by the scalar, saturating.
    pub fn mul_scalar(&self, s: Scalar) -> (r: Point)
        ensures
            r@ == pt_mul_scalar(self@, s as int),
    {
        let n = self.coords.len();
        let mut coords: Vec<Scalar> = Vec::with_capacity(n);
        for k in 0..n
            invariant
                n == self@.len(),
                coords@.len() == k,
                forall|i: int| 0 <= i < k ==> coords@[i] == sat_mul(self@[i], s as int),
        {
            coords.push(scalar_mul(self.coords[k], s));
        }
        let r = Point { coords };
        proof {
            assert(r@ =~= pt_mul_scalar(self@, s as int));
        }
        r
    }

    /// Every coordinate divided by a positive scalar, truncating.
    pub fn div_scalar(&self, s: Scalar) -> (r: Point)
        requires
            s > 0,
        ensures
            r@ == pt_div_scalar(self@, s as int),
    {
        let n = self.coords.len();
        let mut coords: Vec<Scalar> = Vec::with_capacity(n);
        for k in 0..n
            invariant
                n == self@.len(),
                s > 0,
                coords@.len() == k,
                forall|i: int| 0 <= i < k ==> coords@[i] == div_trunc(self@[i], s as int),
        {
            coords.push(scalar_div(self.coords[k], s));
        }
        let r = Point { coords };
        proof {
            assert(r@ =~= pt_div_scalar(self@, s as int));
        }
        r
    }

    /// Every coordinate reduced modulo a positive scalar.
    pub fn rem_scalar(&self, s: Scalar) -> (r: Point)
        requires
            s > 0,
        ensures
            r@ == pt_rem_scalar(self@, s as int),
    {
        let n = self.coords.len();
        let mut coords: Vec<Scalar> = Vec::with_capacity(n);
        for k in 0..n
            invariant
                n == self@.len(),
                s > 0,
                coords@.len() == k,
                forall|i: int| 0 <= i < k ==> coords@[i] == rem_trunc(self@[i], s as int),
        {
            coords.push(scalar_rem(self.coords[k], s));
        }
        let r = Point { coords };
        proof {
            assert(r@ =~= pt_rem_scalar(self@, s as int));
        }
        r
    }

    /// In-place elementwise saturating sum.
    pub fn add_assign(&mut self, o: &Point)
        requires
            old(self)@.len() == o@.len(),
        ensures
            final(self)@ == pt_add(old(self)@, o@),
    {
        let n = self.coords.len();
        for k in 0..n
            invariant
                n == old(self)@.len(),
                o@.len() == n,
                self@.len() == n,
                forall|i: int| 0 <= i < k ==> self@[i] == sat_add(old(self)@[i], o@[i]),
                forall|i: int| k <= i < n ==> self@[i] == old(self)@[i],
        {
            let ghost prev = self@;
            let v = scalar_add(self.coords[k], o.coords[k]);
            self.coords.set(k, v);
            proof {
                assert(self@ =~= prev.update(k as int, v as int));
            }
        }
        proof {
            assert(self@ =~= pt_add(old(self)@, o@));
        }
    }

    /// In-place elementwise saturating difference.
    pub fn sub_assign(&mut self, o: &Point)
        requires
            old(self)@.len() == o@.len(),
        ensures
            final(self)@ == pt_sub(old(self)@, o@),
    {
        let n = self.coords.len();
        for k in 0..n
            invariant
                n == old(self)@.len(),
                o@.len() == n,
                self@.len() == n,
                forall|i: int| 0 <= i < k ==> self@[i] == sat_sub(old(self)@[i], o@[i]),
                forall|i: int| k <= i < n ==> self@[i] == old(self)@[i],
        {
            let ghost prev = self@;
            let v = scalar_sub(self.coords[k], o.coords[k]);
            self.coords.set(k, v);
            proof {
                assert(self@ =~= prev.update(k as int, v as int));
            }
        }
        proof {
            assert(self@ =~= pt_sub(old(self)@, o@));
        }
    }

    /// In-place elementwise saturating product.
    pub fn mul_assign(&mut self, o: &Point)
        requires
            old(self)@.len() == o@.len(),
        ensures
            final(self)@ == pt_mul(old(self)@, o@),
    {
        let n = self.coords.len();
        for k in 0..n
            invariant
                n == old(self)@.len(),
                o@.len() == n,
                self@.len() == n,
                forall|i: int| 0 <= i < k ==> self@[i] == sat_mul(old(self)@[i], o@[i]),
                forall|i: int| k <= i < n ==> self@[i] == old(self)@[i],
        {
            let ghost prev = self@;
            let v = scalar_mul(self.coords[k], o.coords[k]);
            self.coords.set(k, v);
            proof {
                assert(self@ =~= prev.update(k as int, v as int));
            }
        }
        proof {
            assert(self@ =~= pt_mul(old(self)@, o@));
        }
    }

    /// In-place elementwise truncated quotient by positive coordinates.
    pub fn div_assign(&mut self, o: &Point)
        requires
            old(self)@.len() == o@.len(),
            forall|i: int| 0 <= i < o@.len() ==> o@[i] > 0,
        ensures
            final(self)@ == pt_div(old(self)@, o@),
    {
        let n = self.coords.len();
        for k in 0..n
            invariant
                n == old(self)@.len(),
                o@.len() == n,
                self@.len() == n,
                forall|i: int| 0 <= i < n ==> o@[i] > 0,
                forall|i: int| 0 <= i < k ==> self@[i] == div_trunc(old(self)@[i], o@[i]),
                forall|i: int| k <= i < n ==> self@[i] == old(self)@[i],
        {
            let ghost prev = self@;
            proof {
                assert(o@[k as int] > 0);
            }
            let v = scalar_div(self.coords[k], o.coords[k]);
            self.coords.set(k, v);
            proof {
                assert(self@ =~= prev.update(k as int, v as int));
            }
        }
        proof {
            assert(self@ =~= pt_div(old(self)@, o@));
        }
    }

    /// In-place elementwise truncated remainder by positive coordinates.
    pub fn rem_assign(&mut self, o: &Point)
        requires
            old(self)@.len() == o@.len(),
            forall|i: int| 0 <= i < o@.len() ==> o@[i] > 0,
        ensures
            final(self)@ == pt_rem(old(self)@, o@),
    {
        let n = self.coords.len();
        for k in 0..n
            invariant
                n == old(self)@.len(),
                o@.len() == n,
                self@.len() == n,
                forall|i: int| 0 <= i < n ==> o@[i] > 0,
                forall|i: int| 0 <= i < k ==> self@[i] == rem_trunc(old(self)@[i], o@[i]),
                forall|i: int| k <= i < n ==> self@[i] == old(self)@[i],
        {
            let ghost prev = self@;
            proof {
                assert(o@[k as int] > 0);
            }
            let v = scalar_rem(self.coords[k], o.coords[k]);
            self.coords.set(k, v);
            proof {
                assert(self@ =~= prev.update(k as int, v as int));
            }
        }
        proof {
            assert(self@ =~= pt_rem(old(self)@, o@));
        }
    }

    /// Every coordinate of a point's view is representable.
    pub proof fn lemma_view_in_range(&self)
        ensures
            pt_in_range(self@),
    {
        assert forall|i: int| 0 <= i < self@.len() implies in_scalar_range(#[trigger] self@[i]) by {
            assert(self@[i] == self.coords@[i] as int);
        }
    }

    /// The squared Euclidean norm of the point, `Σ cᵢ²`.
    pub fn norm2(&self) -> (r: Scalar)
        ensures
            r == spec_norm2(self@),
    {
        let mut acc: Scalar = 0;
        for k in 0..self.coords.len()
            invariant
                acc == spec_norm2(self@.take(k as int)),
        {
            let c = self.coords[k];
            acc = scalar_add(acc, scalar_mul(c, c));
            proof {
                assert(self@.take(k + 1).drop_last() =~= self@.take(k as int));
                assert(self@.take(k + 1).last() == self@[k as int]);
            }
        }
        proof {
            assert(self@.take(self.coords@.len() as int) =~= self@);
        }
        acc
    }
}

/// A truncated quotient by a positive divisor shrinks the magnitude.
pub proof fn lemma_div_trunc_bounds(a: int, b: int)
    requires
        b > 0,
    ensures
        a >= 0 ==> 0 <= div_trunc(a, b) <= a,
        a < 0 ==> a <= div_trunc(a, b) <= 0,
{
    if a >= 0 {
        vstd::arithmetic::div_mod::lemma_div_is_ordered_by_denominator(a, 1, b);
        vstd::arithmetic::div_mod::lemma_div_basics(a);
        vstd::arithmetic::div_mod::lemma_div_pos_is_pos(a, b);
    } else {
        vstd::arithmetic::div_mod::lemma_div_is_ordered_by_denominator(-a, 1, b);
        vstd::arithmetic::div_mod::lemma_div_basics(-a);
        vstd::arithmetic::div_mod::lemma_div_pos_is_pos(-a, b);
    }
}

} // verus!
