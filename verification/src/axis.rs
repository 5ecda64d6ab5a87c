//! Axes and dimension counts for the N-dimensional grid types.
//!
//! A grid has between 1 and 6 dimensions; each dimension is named by an
//! `Axis`. Dimension counts are carried at runtime as a `usize` in `1..=6`.

use vstd::prelude::*;

verus! {

/// The greatest number of dimensions a grid may have.
pub const MAX_NDIM: usize = 6;

/// One of the six named directions of a grid, zero-indexed in the order
/// X, Y, Z, W, U, V.
#[derive(Debug, Clone, Copy, PartialEq, Eq, Structural, Hash)]
pub enum Axis {
    X,
    Y,
    Z,
    W,
    U,
    V,
}

impl Axis {
    /// The zero-based index of this axis: X is 0, Y is 1, and so on.
    pub open spec fn spec_index_of(self) -> int {
        match self {
            Axis::X => 0,
            Axis::Y => 1,
            Axis::Z => 2,
            Axis::W => 3,
            Axis::U => 4,
            Axis::V => 5,
        }
    }

    /// Returns the zero-based index of this axis.
    pub fn index_of(self) -> (r: usize)
        ensures
            r == self.spec_index_of(),
            r < MAX_NDIM,
    {
        match self {
            Axis::X => 0,
            Axis::Y => 1,
            Axis::Z => 2,
            Axis::W => 3,
            Axis::U => 4,
            Axis::V => 5,
        }
    }

    /// The axis with the given zero-based index.
    pub fn from_index(i: usize) -> (r: Axis)
        requires
            i < MAX_NDIM,
        ensures
            r.spec_index_of() == i,
    {
        if i == 0 {
            Axis::X
        } else if i == 1 {
            Axis::Y
        } else if i == 2 {
            Axis::Z
        } else if i == 3 {
            Axis::W
        } else if i == 4 {
            Axis::U
        } else {
            Axis::V
        }
    }
}

/// The axis with the given zero-based index, as a mathematical map.
pub open spec fn spec_axis_of(i: int) -> Axis {
    if i == 0 {
        Axis::X
    } else if i == 1 {
        Axis::Y
    } else if i == 2 {
        Axis::Z
    } else if i == 3 {
        Axis::W
    } else if i == 4 {
        Axis::U
    } else {
        Axis::V
    }
}

/// Returns the first `ndim` axes, in order.
pub fn axes(ndim: usize) -> (r: Vec<Axis>)
    requires
        1 <= ndim <= MAX_NDIM,
    ensures
        r@.len() == ndim,
        forall|i: int| 0 <= i < ndim ==> (#[trigger] r@[i]).spec_index_of() == i,
{
    let mut r: Vec<Axis> = Vec::new();
    let mut i: usize = 0;
    while i < ndim
        invariant
            i <= ndim <= MAX_NDIM,
            r@.len() == i,
            forall|j: int| 0 <= j < i ==> (#[trigger] r@[j]).spec_index_of() == j,
        decreases ndim - i,
    {
        r.push(Axis::from_index(i));
        i = i + 1;
    }
    r
}

/// Computes the recommended number of bits in each axis of a chunk index
/// for a given dimension count, chosen so that a full chunk holds at most
/// about 4096 cells: the chunk side length along each axis is
/// `1 << get_chunk_bits_for_ndim(ndim)`.
pub fn get_chunk_bits_for_ndim(ndim: usize) -> (r: usize)
    requires
        1 <= ndim,
    ensures
        r == 12 as int / ndim as int,
{
    12 / ndim
}

/// A "trait alias" for dimension descriptors that can serve as keys in
/// hashed collections.
pub trait Dimension: Sized + Eq + core::hash::Hash {

}

impl Dimension for usize {

}

/// A "trait alias" for a cell state type: a small value with a
/// distinguished default that can be copied for free or near-free.
pub trait Cell: Sized + Copy + Eq {

}

impl Cell for u8 {

}

impl Cell for bool {

}

/// A set of coordinates for a given dimensionality which allows negative
/// values; implemented by fixed-length arrays of signed integers.
pub trait Coords: Sized {
    /// The number of dimensions (number of axes).
    spec fn spec_ndim() -> nat;

    /// The mathematical value of each coordinate, in axis order.
    spec fn vals(&self) -> Seq<int>;

    /// The coordinate sequence always has exactly one entry per axis.
    proof fn vals_len(&self)
        ensures
            self.vals().len() == Self::spec_ndim(),
    ;

    /// Returns the number of dimensions.
    fn ndim() -> (r: usize)
        ensures
            r == Self::spec_ndim(),
            1 <= r <= MAX_NDIM,
    ;

    /// Returns the coordinate along the given axis.
    fn get(&self, axis: usize) -> (r: isize)
        requires
            axis < Self::spec_ndim(),
        ensures
            r as int == self.vals()[axis as int],
    ;

    /// Sets the coordinate along the given axis.
    fn set(&mut self, axis: usize, value: isize)
        requires
            axis < Self::spec_ndim(),
        ensures
            final(self).vals() == old(self).vals().update(axis as int, value as int),
    ;

    /// Returns whether these coordinates consist entirely of zeros.
    fn is_zero(&self) -> (r: bool)
        ensures
            r == forall|i: int| 0 <= i < self.vals().len() ==> self.vals()[i] == 0,
    ;

    /// Returns the coordinates of the origin (i.e. all zeros).
    fn origin() -> (r: Self)
        ensures
            r.vals() == Seq::new(Self::spec_ndim(), |i: int| 0int),
    ;
}

impl Coords for [isize; 1] {
    open spec fn spec_ndim() -> nat {
        1
    }

    open spec fn vals(&self) -> Seq<int> {
        self@.map_values(|x: isize| x as int)
    }

    proof fn vals_len(&self) {
    }

    fn ndim() -> (r: usize) {
        1
    }

    fn get(&self, axis: usize) -> (r: isize) {
        self[axis]
    }

    fn set(&mut self, axis: usize, value: isize) {
        *self = [value];
        proof {
            assert(final(self).vals() =~= old(self).vals().update(axis as int, value as int));
        }
    }

    fn is_zero(&self) -> (r: bool) {
        let r: bool = self[0] == 0;
        proof {
            assert(self.vals().len() == 1);
            assert(self.vals()[0] == self@[0] as int);
        }
        r
    }

    fn origin() -> (r: Self) {
        let r: [isize; 1] = [0];
        proof {
            assert(r.vals() =~= Seq::new(Self::spec_ndim(), |i: int| 0int));
        }
        r
    }
}

impl Coords for [isize; 2] {
    open spec fn spec_ndim() -> nat {
        2
    }

    open spec fn vals(&self) -> Seq<int> {
        self@.map_values(|x: isize| x as int)
    }

    proof fn vals_len(&self) {
    }

    fn ndim() -> (r: usize) {
        2
    }

    fn get(&self, axis: usize) -> (r: isize) {
        self[axis]
    }

    fn set(&mut self, axis: usize, value: isize) {
        let c0: isize = if axis == 0 { value } else { self[0] };
        let c1: isize = if axis == 1 { value } else { self[1] };
        *self = [c0, c1];
        proof {
            assert(final(self).vals() =~= old(self).vals().update(axis as int, value as int));
        }
    }

    fn is_zero(&self) -> (r: bool) {
        let r: bool = self[0] == 0 && self[1] == 0;
        proof {
            assert(self.vals().len() == 2);
            assert(self.vals()[0] == self@[0] as int);
            assert(self.vals()[1] == self@[1] as int);
        }
        r
    }

    fn origin() -> (r: Self) {
        let r: [isize; 2] = [0, 0];
        proof {
            assert(r.vals() =~= Seq::new(Self::spec_ndim(), |i: int| 0int));
        }
        r
    }
}


impl Coords for [isize; 3] {
    open spec fn spec_ndim() -> nat {
        3
    }

    open spec fn vals(&self) -> Seq<int> {
        self@.map_values(|x: isize| x as int)
    }

    proof fn vals_len(&self) {
    }

    fn ndim() -> (r: usize) {
        3
    }

    fn get(&self, axis: usize) -> (r: isize) {
        self[axis]
    }

    fn set(&mut self, axis: usize, value: isize) {
        let c0: isize = if axis == 0 { value } else { self[0] };
        let c1: isize = if axis == 1 { value } else { self[1] };
        let c2: isize = if axis == 2 { value } else { self[2] };
        *self = [c0, c1, c2];
        proof {
            assert(final(self).vals() =~= old(self).vals().update(axis as int, value as int));
        }
    }

    fn is_zero(&self) -> (r: bool) {
        let r: bool = self[0] == 0 && self[1] == 0 && self[2] == 0;
        proof {
            assert(self.vals().len() == 3);
            assert(self.vals()[0] == self@[0] as int);
            assert(self.vals()[1] == self@[1] as int);
            assert(self.vals()[2] == self@[2] as int);
        }
        r
    }

    fn origin() -> (r: Self) {
        let r: [isize; 3] = [0, 0, 0];
        proof {
            assert(r.vals() =~= Seq::new(Self::spec_ndim(), |i: int| 0int));
        }
        r
    }
}


impl Coords for [isize; 4] {
    open spec fn spec_ndim() -> nat {
        4
    }

    open spec fn vals(&self) -> Seq<int> {
        self@.map_values(|x: isize| x as int)
    }

    proof fn vals_len(&self) {
    }

    fn ndim() -> (r: usize) {
        4
    }

    fn get(&self, axis: usize) -> (r: isize) {
        self[axis]
    }

    fn set(&mut self, axis: usize, value: isize) {
        let c0: isize = if axis == 0 { value } else { self[0] };
        let c1: isize = if axis == 1 { value } else { self[1] };
        let c2: isize = if axis == 2 { value } else { self[2] };
        let c3: isize = if axis == 3 { value } else { self[3] };
        *self = [c0, c1, c2, c3];
        proof {
            assert(final(self).vals() =~= old(self).vals().update(axis as int, value as int));
        }
    }

    fn is_zero(&self) -> (r: bool) {
        let r: bool = self[0] == 0 && self[1] == 0 && self[2] == 0 && self[3] == 0;
        proof {
            assert(self.vals().len() == 4);
            assert(self.vals()[0] == self@[0] as int);
            assert(self.vals()[1] == self@[1] as int);
            assert(self.vals()[2] == self@[2] as int);
            assert(self.vals()[3] == self@[3] as int);
        }
        r
    }

    fn origin() -> (r: Self) {
        let r: [isize; 4] = [0, 0, 0, 0];
        proof {
            assert(r.vals() =~= Seq::new(Self::spec_ndim(), |i: int| 0int));
        }
        r
    }
}


impl Coords for [isize; 5] {
    open spec fn spec_ndim() -> nat {
        5
    }

    open spec fn vals(&self) -> Seq<int> {
        self@.map_values(|x: isize| x as int)
    }

    proof fn vals_len(&self) {
    }

    fn ndim() -> (r: usize) {
        5
    }

    fn get(&self, axis: usize) -> (r: isize) {
        self[axis]
    }

    fn set(&mut self, axis: usize, value: isize) {
        let c0: isize = if axis == 0 { value } else { self[0] };
        let c1: isize = if axis == 1 { value } else { self[1] };
        let c2: isize = if axis == 2 { value } else { self[2] };
        let c3: isize = if axis == 3 { value } else { self[3] };
        let c4: isize = if axis == 4 { value } else { self[4] };
        *self = [c0, c1, c2, c3, c4];
        proof {
            assert(final(self).vals() =~= old(self).vals().update(axis as int, value as int));
        }
    }

    fn is_zero(&self) -> (r: bool) {
        let r: bool = self[0] == 0 && self[1] == 0 && self[2] == 0 && self[3] == 0 && self[4] == 0;
        proof {
            assert(self.vals().len() == 5);
            assert(self.vals()[0] == self@[0] as int);
            assert(self.vals()[1] == self@[1] as int);
            assert(self.vals()[2] == self@[2] as int);
            assert(self.vals()[3] == self@[3] as int);
            assert(self.vals()[4] == self@[4] as int);
        }
        r
    }

    fn origin() -> (r: Self) {
        let r: [isize; 5] = [0, 0, 0, 0, 0];
        proof {
            assert(r.vals() =~= Seq::new(Self::spec_ndim(), |i: int| 0int));
        }
        r
    }
}


impl Coords for [isize; 6] {
    open spec fn spec_ndim() -> nat {
        6
    }

    open spec fn vals(&self) -> Seq<int> {
        self@.map_values(|x: isize| x as int)
    }

    proof fn vals_len(&self) {
    }

    fn ndim() -> (r: usize) {
        6
    }

    fn get(&self, axis: usize) -> (r: isize) {
        self[axis]
    }

    fn set(&mut self, axis: usize, value: isize) {
        let c0: isize = if axis == 0 { value } else { self[0] };
        let c1: isize = if axis == 1 { value } else { self[1] };
        let c2: isize = if axis == 2 { value } else { self[2] };
        let c3: isize = if axis == 3 { value } else { self[3] };
        let c4: isize = if axis == 4 { value } else { self[4] };
        let c5: isize = if axis == 5 { value } else { self[5] };
        *self = [c0, c1, c2, c3, c4, c5];
        proof {
            assert(final(self).vals() =~= old(self).vals().update(axis as int, value as int));
        }
    }

    fn is_zero(&self) -> (r: bool) {
        let r: bool = self[0] == 0 && self[1] == 0 && self[2] == 0 && self[3] == 0 && self[4] == 0 && self[5] == 0;
        proof {
            assert(self.vals().len() == 6);
            assert(self.vals()[0] == self@[0] as int);
            assert(self.vals()[1] == self@[1] as int);
            assert(self.vals()[2] == self@[2] as int);
            assert(self.vals()[3] == self@[3] as int);
            assert(self.vals()[4] == self@[4] as int);
            assert(self.vals()[5] == self@[5] as int);
        }
        r
    }

    fn origin() -> (r: Self) {
        let r: [isize; 6] = [0, 0, 0, 0, 0, 0];
        proof {
            assert(r.vals() =~= Seq::new(Self::spec_ndim(), |i: int| 0int));
        }
        r
    }
}

} // verus!
