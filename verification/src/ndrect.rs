//! Axis-aligned hyperrectangles over N-dimensional vectors.
//!
//! A rectangle is a start corner and a positive size per axis; integer
//! rectangles have inclusive minimum `start` and inclusive maximum
//! `start + size - 1`.

use vstd::prelude::*;
use vstd::math::min as int_min;
use vstd::math::max as int_max;

use crate::ndvec::seq_product;
use crate::ndvec::IVec;
use crate::ndvec::NdVec;
use crate::ndvec::NdVecNum;
use crate::ndvec::UVec;

verus! {

/// An axis-aligned hyperrectangle: a start corner and a size along each
/// axis, with every size at least one.
pub struct NdRect<N: NdVecNum> {
    /// The most negative corner.
    pub start: NdVec<N>,
    /// The extent along each axis; always at least one.
    pub size: NdVec<N>,
}

impl<N: NdVecNum> NdRect<N> {
    /// A rectangle is valid when its corner and size agree on dimension
    /// count, every size is positive, and its far corner stays within
    /// the numeric range.
    pub open spec fn wf(self) -> bool {
        &&& self.start@.len() == self.size@.len()
        &&& 1 <= self.start@.len() <= 6
        &&& (forall|i: int| 0 <= i < self.size@.len() ==> #[trigger] self.size@[i] >= 1)
        &&& (forall|i: int|
            0 <= i < self.size@.len() ==> N::lo() <= self.start@[i] + #[trigger] self.size@[i] - 1
                <= N::hi())
    }

    /// True when the point lies inside this rectangle.
    pub open spec fn spec_contains(self, p: Seq<int>) -> bool {
        p.len() == self.start@.len() && forall|i: int|
            0 <= i < p.len() ==> self.start@[i] <= #[trigger] p[i] < self.start@[i]
                + self.size@[i]
    }

    /// Constructs a rectangle from its most negative corner and its
    /// size along each axis.
    pub fn new(start: NdVec<N>, size: NdVec<N>) -> (r: Self)
        requires
            start@.len() == size@.len(),
            1 <= start@.len() <= 6,
            forall|i: int| 0 <= i < size@.len() ==> #[trigger] size@[i] >= 1,
            forall|i: int|
                0 <= i < size@.len() ==> N::lo() <= start@[i] + #[trigger] size@[i] - 1
                    <= N::hi(),
        ensures
            r.wf(),
            r.start@ == start@,
            r.size@ == size@,
    {
        NdRect { start, size }
    }

    /// Constructs the smallest rectangle containing both given corners.
    pub fn span(a: &NdVec<N>, b: &NdVec<N>) -> (r: Self)
        requires
            a@.len() == b@.len(),
            1 <= a@.len() <= 6,
            forall|i: int|
                int_max(#[trigger] a@[i], #[trigger] b@[i]) - int_min(a@[i], b@[i]) + 1
                    <= N::hi(),
        ensures
            r.wf(),
            r.start@ == Seq::new(a@.len(), |i: int| int_min(a@[i], b@[i])),
            r.size@ == Seq::new(a@.len(), |i: int| int_max(a@[i], b@[i]) - int_min(a@[i], b@[i]) + 1),
    {
        proof {
            a.in_range_all();
            b.in_range_all();
        }
        let lo: NdVec<N> = NdVec::min(a, b);
        let hi: NdVec<N> = NdVec::max(a, b);
        let n: usize = lo.ndim();
        let mut sz: Vec<N> = Vec::new();
        let mut i: usize = 0;
        while i < n
            invariant
                i <= n == lo@.len() == hi@.len() == a@.len() == b@.len(),
                lo@ == Seq::new(a@.len(), |j: int| int_min(a@[j], b@[j])),
                hi@ == Seq::new(a@.len(), |j: int| int_max(a@[j], b@[j])),
                forall|j: int|
                    int_max(#[trigger] a@[j], #[trigger] b@[j]) - int_min(a@[j], b@[j]) + 1
                        <= N::hi(),
                sz@.len() == i,
                forall|j: int|
                    0 <= j < i ==> (#[trigger] sz@[j]).as_int() == int_max(a@[j], b@[j]) - int_min(
                        a@[j],
                        b@[j],
                    ) + 1,
            decreases n - i,
        {
            let l: N = lo.get_idx(i);
            let h: N = hi.get_idx(i);
            proof {
                l.in_range();
                h.in_range();
                assert(int_max(a@[i as int], b@[i as int]) - int_min(a@[i as int], b@[i as int])
                    + 1 <= N::hi());
            }
            let one: N = N::one();
            let d: N = h.sub(l).add(one);
            sz.push(d);
            i = i + 1;
        }
        let size: NdVec<N> = NdVec::from_components(sz);
        proof {
            assert(size@ =~= Seq::new(
                a@.len(),
                |i: int| int_max(a@[i], b@[i]) - int_min(a@[i], b@[i]) + 1,
            ));
        }
        NdRect { start: lo, size }
    }

    /// Returns the most negative corner.
    pub fn min(&self) -> (r: NdVec<N>)
        ensures
            r@ == self.start@,
    {
        self.start.duplicate()
    }

    /// Returns the most positive corner, `start + size - 1`.
    pub fn max(&self) -> (r: NdVec<N>)
        requires
            self.wf(),
        ensures
            r@ == Seq::new(self.start@.len(), |i: int| self.start@[i] + self.size@[i] - 1),
    {
        let n: usize = self.start.ndim();
        let mut comps: Vec<N> = Vec::new();
        let mut i: usize = 0;
        while i < n
            invariant
                i <= n == self.start@.len() == self.size@.len(),
                self.wf(),
                comps@.len() == i,
                forall|j: int|
                    0 <= j < i ==> (#[trigger] comps@[j]).as_int() == self.start@[j]
                        + self.size@[j] - 1,
            decreases n - i,
        {
            let a: N = self.start.get_idx(i);
            let b: N = self.size.get_idx(i);
            proof {
                a.in_range();
                b.in_range();
            }
            let one: N = N::one();
            comps.push(a.add(b.sub(one)));
            i = i + 1;
        }
        let r: NdVec<N> = NdVec::from_components(comps);
        proof {
            assert(r@ =~= Seq::new(
                self.start@.len(),
                |i: int| self.start@[i] + self.size@[i] - 1,
            ));
        }
        r
    }

    /// Returns the number of points inside this rectangle: the product
    /// of its sizes.
    pub fn count(&self) -> (r: N)
        requires
            self.wf(),
            forall|k: int|
                0 <= k <= self.size@.len() ==> N::lo() <= seq_product(#[trigger] self.size@.take(k))
                    <= N::hi(),
        ensures
            r.as_int() == seq_product(self.size@),
    {
        self.size.product()
    }

    /// Returns true when the point lies inside this rectangle.
    pub fn contains(&self, p: &NdVec<N>) -> (r: bool)
        requires
            self.wf(),
            p@.len() == self.start@.len(),
        ensures
            r == self.spec_contains(p@),
    {
        let n: usize = self.start.ndim();
        let mut i: usize = 0;
        while i < n
            invariant
                i <= n == self.start@.len() == self.size@.len() == p@.len(),
                self.wf(),
                forall|j: int|
                    0 <= j < i ==> self.start@[j] <= #[trigger] p@[j] < self.start@[j]
                        + self.size@[j],
            decreases n - i,
        {
            let s: N = self.start.get_idx(i);
            let z: N = self.size.get_idx(i);
            let c: N = p.get_idx(i);
            proof {
                s.in_range();
                z.in_range();
                c.in_range();
            }
            let one: N = N::one();
            let hi: N = s.add(z.sub(one));
            if !(s.le(c) && c.le(hi)) {
                return false;
            }
            i = i + 1;
        }
        true
    }

    /// Returns this rectangle translated by the given vector.
    pub fn add(&self, v: &NdVec<N>) -> (r: Self)
        requires
            self.wf(),
            v@.len() == self.start@.len(),
            forall|i: int|
                0 <= i < v@.len() ==> N::lo() <= self.start@[i] + #[trigger] v@[i]
                    && self.start@[i] + v@[i] + self.size@[i] - 1 <= N::hi(),
        ensures
            r.wf(),
            r.start@ == Seq::new(self.start@.len(), |i: int| self.start@[i] + v@[i]),
            r.size@ == self.size@,
    {
        let n: usize = self.start.ndim();
        let mut comps: Vec<N> = Vec::new();
        let mut i: usize = 0;
        while i < n
            invariant
                i <= n == self.start@.len() == self.size@.len() == v@.len(),
                self.wf(),
                forall|j: int|
                    0 <= j < v@.len() ==> N::lo() <= self.start@[j] + #[trigger] v@[j]
                        && self.start@[j] + v@[j] + self.size@[j] - 1 <= N::hi(),
                comps@.len() == i,
                forall|j: int|
                    0 <= j < i ==> (#[trigger] comps@[j]).as_int() == self.start@[j] + v@[j],
            decreases n - i,
        {
            let a: N = self.start.get_idx(i);
            let b: N = v.get_idx(i);
            proof {
                a.in_range();
                b.in_range();
                assert(self.size@[i as int] >= 1);
            }
            comps.push(a.add(b));
            i = i + 1;
        }
        let start: NdVec<N> = NdVec::from_components(comps);
        proof {
            assert(start@ =~= Seq::new(self.start@.len(), |i: int| self.start@[i] + v@[i]));
        }
        NdRect { start, size: self.size.duplicate() }
    }

    /// Returns this rectangle translated backwards by the given vector.
    pub fn sub(&self, v: &NdVec<N>) -> (r: Self)
        requires
            self.wf(),
            v@.len() == self.start@.len(),
            forall|i: int|
                0 <= i < v@.len() ==> N::lo() <= self.start@[i] - #[trigger] v@[i]
                    && self.start@[i] - v@[i] + self.size@[i] - 1 <= N::hi(),
        ensures
            r.wf(),
            r.start@ == Seq::new(self.start@.len(), |i: int| self.start@[i] - v@[i]),
            r.size@ == self.size@,
    {
        let n: usize = self.start.ndim();
        let mut comps: Vec<N> = Vec::new();
        let mut i: usize = 0;
        while i < n
            invariant
                i <= n == self.start@.len() == self.size@.len() == v@.len(),
                self.wf(),
                forall|j: int|
                    0 <= j < v@.len() ==> N::lo() <= self.start@[j] - #[trigger] v@[j]
                        && self.start@[j] - v@[j] + self.size@[j] - 1 <= N::hi(),
                comps@.len() == i,
                forall|j: int|
                    0 <= j < i ==> (#[trigger] comps@[j]).as_int() == self.start@[j] - v@[j],
            decreases n - i,
        {
            let a: N = self.start.get_idx(i);
            let b: N = v.get_idx(i);
            proof {
                a.in_range();
                b.in_range();
                assert(self.size@[i as int] >= 1);
            }
            comps.push(a.sub(b));
            i = i + 1;
        }
        let start: NdVec<N> = NdVec::from_components(comps);
        proof {
            assert(start@ =~= Seq::new(self.start@.len(), |i: int| self.start@[i] - v@[i]));
        }
        NdRect { start, size: self.size.duplicate() }
    }
}

impl NdRect<usize> {
    /// "Outward-rounded" integer division: returns the smallest
    /// rectangle containing every point of this one divided by `d`.
    pub fn div_outward(&self, d: usize) -> (r: Self)
        requires
            self.wf(),
            d >= 1,
        ensures
            r.wf(),
            r.start@ == Seq::new(self.start@.len(), |i: int| self.start@[i] / d as int),
            r.size@ == Seq::new(
                self.start@.len(),
                |i: int| (self.start@[i] + self.size@[i] - 1) / d as int - self.start@[i] / d as int
                    + 1,
            ),
    {
        let n: usize = self.start.ndim();
        let mut starts: Vec<usize> = Vec::new();
        let mut sizes: Vec<usize> = Vec::new();
        let mut i: usize = 0;
        while i < n
            invariant
                i <= n == self.start@.len() == self.size@.len(),
                self.wf(),
                d >= 1,
                starts@.len() == i,
                sizes@.len() == i,
                forall|j: int|
                    0 <= j < i ==> (#[trigger] starts@[j]) as int == self.start@[j] / d as int,
                forall|j: int|
                    0 <= j < i ==> (#[trigger] sizes@[j]) as int == (self.start@[j]
                        + self.size@[j] - 1) / d as int - self.start@[j] / d as int + 1,
            decreases n - i,
        {
            let a: usize = self.start.get_idx(i);
            let b: usize = self.size.get_idx(i);
            let lo: usize = a / d;
            let hi: usize = (a + (b - 1)) / d;
            proof {
                assert(self.start@[i as int] + self.size@[i as int] - 1 <= usize::MAX);
                vstd::arithmetic::div_mod::lemma_div_is_ordered(
                    a as int,
                    a + b - 1,
                    d as int,
                );
                if d == 1 {
                    vstd::arithmetic::div_mod::lemma_div_basics(a + b - 1);
                    vstd::arithmetic::div_mod::lemma_div_basics(a as int);
                    assert(hi as int == a + b - 1);
                    assert(lo as int == a as int);
                } else {
                    vstd::arithmetic::div_mod::lemma_div_is_ordered_by_denominator(
                        a + b - 1,
                        2,
                        d as int,
                    );
                    vstd::arithmetic::div_mod::lemma_div_is_ordered(
                        a + b - 1,
                        usize::MAX as int,
                        2,
                    );
                }
            }
            starts.push(lo);
            sizes.push(hi - lo + 1);
            i = i + 1;
        }
        let start: UVec = NdVec::from_components(starts);
        let size: UVec = NdVec::from_components(sizes);
        proof {
            assert(start@ =~= Seq::new(self.start@.len(), |i: int| self.start@[i] / d as int));
            assert(size@ =~= Seq::new(
                self.start@.len(),
                |i: int| (self.start@[i] + self.size@[i] - 1) / d as int - self.start@[i]
                    / d as int + 1,
            ));
            assert forall|i: int| 0 <= i < size@.len() implies #[trigger] size@[i] >= 1 by {
                vstd::arithmetic::div_mod::lemma_div_is_ordered(
                    self.start@[i],
                    self.start@[i] + self.size@[i] - 1,
                    d as int,
                );
            }
        }
        NdRect { start, size }
    }
}

} // verus!
