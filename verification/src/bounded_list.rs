//! A list whose length is kept between a fixed minimum and maximum.
//!
//! [`BoundedList`] wraps a vector together with inclusive length bounds.
//! Construction fails unless `min ≤ len ≤ max`; afterwards [`BoundedList::push`]
//! refuses to grow past `max` and [`BoundedList::pop`] refuses to shrink
//! below `min`.

use vstd::prelude::*;

verus! {

/// Construction was asked for bounds with `min > max`, or an initial
/// length outside them.
#[derive(Debug, PartialEq, Eq, Structural)]
pub struct InvalidBounds;

/// A pop would have shrunk the list below its minimum length.
#[derive(Debug, PartialEq, Eq, Structural)]
pub struct MinBoundExceeded;

/// A push would have grown the list past its maximum length; the rejected
/// item is handed back.
#[derive(Debug)]
pub struct MaxBoundExceeded<T>(pub T);

/// A list of at least `min` and at most `max` elements.
#[derive(Debug)]
pub struct BoundedList<T> {
    values: Vec<T>,
    min: usize,
    max: usize,
}

/// Moves a fixed-size array into a vector.
///
/// Relies on the standard library's `Vec::from` for arrays: the vector
/// holds exactly the array's elements, in order.
#[verifier::external_body]
fn array_into_vec<T, const N: usize>(arr: [T; N]) -> (v: Vec<T>)
    ensures
        v@ == arr@,
{
    Vec::from(arr)
}

impl<T> View for BoundedList<T> {
    type V = Seq<T>;

    closed spec fn view(&self) -> Seq<T> {
        self.values@
    }
}

impl<T> BoundedList<T> {
    /// The minimum length the list was constructed with.
    pub closed spec fn spec_min(&self) -> int {
        self.min as int
    }

    /// The maximum length the list was constructed with.
    pub closed spec fn spec_max(&self) -> int {
        self.max as int
    }

    /// The bounds are ordered and the current length lies between them.
    pub open spec fn wf(&self) -> bool {
        0 <= self.spec_min() <= self.spec_max() && self.spec_min() <= self@.len()
            <= self.spec_max()
    }

    /// An empty list that may grow up to `max` elements.
    pub fn with_max(max: usize) -> (r: BoundedList<T>)
        ensures
            r.wf(),
            r@ == Seq::<T>::empty(),
            r.spec_min() == 0,
            r.spec_max() == max,
    {
        let r = BoundedList { values: Vec::new(), min: 0, max };
        proof {
            assert(r@ =~= Seq::<T>::empty());
        }
        r
    }

    /// Builds a list with the given bounds from a fixed-size array.
    /// Fails, allocating nothing into the list, iff the bounds are
    /// unordered or the array's length lies outside them.
    pub fn from_arr<const N: usize>(initial_values: [T; N], min: usize, max: usize) -> (r: Result<
        BoundedList<T>,
        InvalidBounds,
    >)
        ensures
            (min <= max && min <= N && N <= max) <==> r is Ok,
            r matches Ok(list) ==> list@ == initial_values@ && list.spec_min() == min
                && list.spec_max() == max && list.wf(),
    {
        if min > max || N < min || N > max {
            return Err(InvalidBounds);
        }
        Ok(BoundedList { values: array_into_vec(initial_values), min, max })
    }

    /// Builds a list with the given bounds from a vector of initial
    /// values. Fails iff the bounds are unordered or the vector's length
    /// lies outside them.
    pub fn from_iter(initial_values: Vec<T>, min: usize, max: usize) -> (r: Result<
        BoundedList<T>,
        InvalidBounds,
    >)
        ensures
            (min <= max && min <= initial_values@.len() && initial_values@.len() <= max) <==> r
                is Ok,
            r matches Ok(list) ==> list@ == initial_values@ && list.spec_min() == min
                && list.spec_max() == max && list.wf(),
    {
        let n = initial_values.len();
        if min > max || n < min || n > max {
            return Err(InvalidBounds);
        }
        Ok(BoundedList { values: initial_values, min, max })
    }

    /// Appends an item. Fails, handing the item back and leaving the list
    /// unchanged, iff the list is already at its maximum length.
    pub fn push(&mut self, item: T) -> (r: Result<(), MaxBoundExceeded<T>>)
        ensures
            (old(self)@.len() < old(self).spec_max()) <==> r is Ok,
            r is Ok ==> final(self)@ == old(self)@.push(item),
            r matches Err(MaxBoundExceeded(back)) ==> back == item && *final(self) == *old(self),
            final(self).spec_min() == old(self).spec_min(),
            final(self).spec_max() == old(self).spec_max(),
            old(self).wf() ==> final(self).wf(),
    {
        if self.values.len() >= self.max {
            return Err(MaxBoundExceeded(item));
        }
        self.values.push(item);
        Ok(())
    }

    /// Removes and returns the last item. Fails, leaving the list
    /// unchanged, iff the list is already at its minimum length.
    pub fn pop(&mut self) -> (r: Result<T, MinBoundExceeded>)
        ensures
            (old(self)@.len() > old(self).spec_min()) <==> r is Ok,
            r matches Ok(item) ==> item == old(self)@.last() && final(self)@ == old(
                self,
            )@.drop_last(),
            r is Err ==> *final(self) == *old(self),
            final(self).spec_min() == old(self).spec_min(),
            final(self).spec_max() == old(self).spec_max(),
            old(self).wf() ==> final(self).wf(),
    {
        if self.values.len() <= self.min {
            return Err(MinBoundExceeded);
        }
        match self.values.pop() {
            Some(item) => Ok(item),
            None => Err(MinBoundExceeded),  // unreachable: the length exceeds a minimum of at least zero
        }
    }

    /// A borrowing cursor over the elements, front to back.
    pub fn iter<'a>(&'a self) -> (r: Iter<'a, T>)
        ensures
            r.remaining() == self@,
    {
        Iter { values: &self.values, pos: 0 }
    }

    /// Empties the list, returning a draining cursor that yields the
    /// elements front to back. The minimum bound is not re-checked.
    pub fn drain(&mut self) -> (r: DrainIter<T>)
        ensures
            r.remaining() == old(self)@,
            final(self)@ == Seq::<T>::empty(),
            final(self).spec_min() == old(self).spec_min(),
            final(self).spec_max() == old(self).spec_max(),
    {
        let mut taken: Vec<T> = Vec::new();
        std::mem::swap(&mut taken, &mut self.values);
        let mut reversed: Vec<T> = Vec::new();
        proof {
            assert(self@ =~= Seq::<T>::empty());
        }
        while taken.len() > 0
            invariant
                reversed@.len() + taken@.len() == old(self)@.len(),
                old(self)@ == taken@ + reversed@.reverse(),
            decreases taken@.len(),
        {
            match taken.pop() {
                Some(item) => {
                    reversed.push(item);
                    proof {
                        assert(old(self)@ =~= taken@ + reversed@.reverse());
                    }
                },
                None => {},
            }
        }
        proof {
            assert(taken@ =~= Seq::<T>::empty());
        }
        let r = DrainIter { reversed };
        proof {
            assert(r.remaining() =~= old(self)@);
        }
        r
    }

    /// The maximum length.
    pub fn max_size(&self) -> (r: usize)
        ensures
            r == self.spec_max(),
    {
        self.max
    }

    /// The minimum length.
    pub fn min_size(&self) -> (r: usize)
        ensures
            r == self.spec_min(),
    {
        self.min
    }

    /// The current length.
    pub fn len(&self) -> (r: usize)
        ensures
            r == self@.len(),
    {
        self.values.len()
    }
}

/// A borrowing cursor over a [`BoundedList`].
pub struct Iter<'a, T> {
    values: &'a Vec<T>,
    pos: usize,
}

impl<'a, T> Iter<'a, T> {
    /// The elements not yet yielded, front to back.
    pub closed spec fn remaining(&self) -> Seq<T> {
        if self.pos as int <= self.values@.len() {
            self.values@.skip(self.pos as int)
        } else {
            Seq::empty()
        }
    }

    /// An independent cursor at the same position.
    pub fn duplicate(&self) -> (r: Iter<'a, T>)
        ensures
            r.remaining() == self.remaining(),
    {
        Iter { values: self.values, pos: self.pos }
    }

    /// Yields a reference to the next element, or nothing when the cursor
    /// is exhausted.
    pub fn next(&mut self) -> (r: Option<&'a T>)
        ensures
            old(self).remaining().len() == 0 ==> r is None && final(self).remaining() == old(
                self,
            ).remaining(),
            old(self).remaining().len() > 0 ==> (r matches Some(item) && *item == old(
                self,
            ).remaining().first() && final(self).remaining() == old(self).remaining().drop_first()),
    {
        if self.pos < self.values.len() {
            let item = &self.values[self.pos];
            self.pos = self.pos + 1;
            proof {
                assert(old(self).remaining().first() == self.values@[old(self).pos as int]);
                assert(final(self).remaining() =~= old(self).remaining().drop_first());
            }
            Some(item)
        } else {
            proof {
                assert(old(self).remaining().len() == 0);
            }
            None
        }
    }
}

/// An owning cursor that drains a [`BoundedList`] front to back.
pub struct DrainIter<T> {
    reversed: Vec<T>,
}

impl<T> DrainIter<T> {
    /// The elements not yet yielded, front to back.
    pub closed spec fn remaining(&self) -> Seq<T> {
        self.reversed@.reverse()
    }

    /// Yields the next element, or nothing when the cursor is exhausted.
    pub fn next(&mut self) -> (r: Option<T>)
        ensures
            old(self).remaining().len() == 0 ==> r is None && final(self).remaining() == old(
                self,
            ).remaining(),
            old(self).remaining().len() > 0 ==> (r matches Some(item) && item == old(
                self,
            ).remaining().first() && final(self).remaining() == old(self).remaining().drop_first()),
    {
        let r = self.reversed.pop();
        match r {
            Some(item) => {
                proof {
                    assert(old(self).remaining().len() > 0);
                    assert(item == old(self).remaining().first());
                    assert(final(self).remaining() =~= old(self).remaining().drop_first());
                }
                Some(item)
            },
            None => {
                proof {
                    assert(old(self).remaining().len() == 0);
                    assert(final(self).remaining() =~= old(self).remaining());
                }
                None
            },
        }
    }
}

} // verus!
