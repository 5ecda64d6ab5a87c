//! N-dimensional vectors over several numeric component types.
//!
//! An `NdVec<N>` holds one component of numeric type `N` per axis; the
//! number of axes is chosen at construction time and lies in `1..=6`.
//! Component types are integers of various widths: `isize` and `usize` for
//! small offsets and sizes, and `i64` for pattern positions (the widest
//! coordinate type the tree addresses).

use vstd::prelude::*;

use crate::axis::spec_axis_of;
use crate::axis::Axis;
use crate::axis::MAX_NDIM;

verus! {

/// A "trait alias" for types that can be used as coordinates in an `NdVec`:
/// an integer type together with its mathematical value and range.
pub trait NdVecNum: Sized + Copy {
    /// The mathematical value of this number.
    spec fn as_int(self) -> int;

    /// The least value of this type.
    spec fn lo() -> int;

    /// The greatest value of this type.
    spec fn hi() -> int;

    /// Every value of the type lies within its range, and the range always
    /// admits zero and one.
    proof fn in_range(self)
        ensures
            Self::lo() <= self.as_int() <= Self::hi(),
            Self::lo() <= 0,
            Self::hi() >= 1,
    ;

    /// Two values with the same mathematical value are the same value.
    proof fn value_injective(self, other: Self)
        requires
            self.as_int() == other.as_int(),
        ensures
            self == other,
    ;

    /// Returns zero.
    fn zero() -> (r: Self)
        ensures
            r.as_int() == 0,
    ;

    /// Returns one.
    fn one() -> (r: Self)
        ensures
            r.as_int() == 1,
    ;

    /// The minimum size for an `NdRect` using this number type as
    /// coordinates; one for every integer type.
    fn get_min_rect_size() -> (r: Self)
        ensures
            r.as_int() == 1,
    ;

    /// Returns the sum of the two values.
    fn add(self, other: Self) -> (r: Self)
        requires
            Self::lo() <= self.as_int() + other.as_int() <= Self::hi(),
        ensures
            r.as_int() == self.as_int() + other.as_int(),
    ;

    /// Returns the difference of the two values.
    fn sub(self, other: Self) -> (r: Self)
        requires
            Self::lo() <= self.as_int() - other.as_int() <= Self::hi(),
        ensures
            r.as_int() == self.as_int() - other.as_int(),
    ;

    /// Returns the product of the two values.
    fn mul(self, other: Self) -> (r: Self)
        requires
            Self::lo() <= self.as_int() * other.as_int() <= Self::hi(),
        ensures
            r.as_int() == self.as_int() * other.as_int(),
    ;

    /// Compares the two values.
    fn le(self, other: Self) -> (r: bool)
        ensures
            r == (self.as_int() <= other.as_int()),
    ;
}

impl NdVecNum for i64 {
    open spec fn as_int(self) -> int {
        self as int
    }

    open spec fn lo() -> int {
        i64::MIN as int
    }

    open spec fn hi() -> int {
        i64::MAX as int
    }

    proof fn in_range(self) {
    }

    proof fn value_injective(self, other: Self) {
    }

    fn zero() -> (r: Self) {
        0
    }

    fn one() -> (r: Self) {
        1
    }

    fn get_min_rect_size() -> (r: Self) {
        1
    }

    fn add(self, other: Self) -> (r: Self) {
        self + other
    }

    fn sub(self, other: Self) -> (r: Self) {
        self - other
    }

    fn mul(self, other: Self) -> (r: Self) {
        self * other
    }

    fn le(self, other: Self) -> (r: bool) {
        self <= other
    }
}

impl NdVecNum for isize {
    open spec fn as_int(self) -> int {
        self as int
    }

    open spec fn lo() -> int {
        isize::MIN as int
    }

    open spec fn hi() -> int {
        isize::MAX as int
    }

    proof fn in_range(self) {
    }

    proof fn value_injective(self, other: Self) {
    }

    fn zero() -> (r: Self) {
        0
    }

    fn one() -> (r: Self) {
        1
    }

    fn get_min_rect_size() -> (r: Self) {
        1
    }

    fn add(self, other: Self) -> (r: Self) {
        self + other
    }

    fn sub(self, other: Self) -> (r: Self) {
        self - other
    }

    fn mul(self, other: Self) -> (r: Self) {
        self * other
    }

    fn le(self, other: Self) -> (r: bool) {
        self <= other
    }
}

impl NdVecNum for usize {
    open spec fn as_int(self) -> int {
        self as int
    }

    open spec fn lo() -> int {
        0
    }

    open spec fn hi() -> int {
        usize::MAX as int
    }

    proof fn in_range(self) {
    }

    proof fn value_injective(self, other: Self) {
    }

    fn zero() -> (r: Self) {
        0
    }

    fn one() -> (r: Self) {
        1
    }

    fn get_min_rect_size() -> (r: Self) {
        1
    }

    fn add(self, other: Self) -> (r: Self) {
        self + other
    }

    fn sub(self, other: Self) -> (r: Self) {
        self - other
    }

    fn mul(self, other: Self) -> (r: Self) {
        self * other
    }

    fn le(self, other: Self) -> (r: bool) {
        self <= other
    }
}

impl NdVecNum for u8 {
    open spec fn as_int(self) -> int {
        self as int
    }

    open spec fn lo() -> int {
        0
    }

    open spec fn hi() -> int {
        u8::MAX as int
    }

    proof fn in_range(self) {
    }

    proof fn value_injective(self, other: Self) {
    }

    fn zero() -> (r: Self) {
        0
    }

    fn one() -> (r: Self) {
        1
    }

    fn get_min_rect_size() -> (r: Self) {
        1
    }

    fn add(self, other: Self) -> (r: Self) {
        self + other
    }

    fn sub(self, other: Self) -> (r: Self) {
        self - other
    }

    fn mul(self, other: Self) -> (r: Self) {
        self * other
    }

    fn le(self, other: Self) -> (r: bool) {
        self <= other
    }
}

/// A set of coordinates for a given dimensionality.
#[derive(Debug, PartialEq, Eq, Hash)]
pub struct NdVec<N: NdVecNum> {
    components: Vec<N>,
}

/// A vector of native signed integers (small coordinates and offsets).
pub type IVec = NdVec<isize>;

/// A vector of non-negative native integers (sizes and indices).
pub type UVec = NdVec<usize>;

/// A vector of wide signed integers (pattern positions; the tree addresses
/// the whole range of `i64`).
pub type BigVec = NdVec<i64>;

impl<N: NdVecNum> View for NdVec<N> {
    type V = Seq<int>;

    closed spec fn view(&self) -> Seq<int> {
        self.components@.map_values(|x: N| x.as_int())
    }
}

impl<N: NdVecNum> NdVec<N> {
    /// A vector is valid when it has one component per axis of its grid.
    pub open spec fn wf(self) -> bool {
        1 <= self@.len() <= MAX_NDIM
    }

    /// The number of dimensions of this vector.
    pub open spec fn spec_ndim(self) -> int {
        self@.len() as int
    }

    /// Returns the number of dimensions of this vector.
    pub fn ndim(&self) -> (r: usize)
        ensures
            r == self.spec_ndim(),
    {
        self.components.len()
    }

    /// Builds a vector directly from its components.
    pub fn from_components(components: Vec<N>) -> (r: Self)
        ensures
            r@ == components@.map_values(|x: N| x.as_int()),
    {
        NdVec { components }
    }

    /// Returns the component along the given axis.
    pub fn get(&self, axis: Axis) -> (r: N)
        requires
            axis.spec_index_of() < self@.len(),
        ensures
            r.as_int() == self@[axis.spec_index_of()],
    {
        self.components[axis.index_of()]
    }

    /// Returns the component at the given axis index.
    pub fn get_idx(&self, i: usize) -> (r: N)
        requires
            i < self@.len(),
        ensures
            r.as_int() == self@[i as int],
    {
        self.components[i]
    }

    /// Replaces the component along the given axis.
    pub fn set(&mut self, axis: Axis, value: N)
        requires
            axis.spec_index_of() < old(self)@.len(),
        ensures
            final(self)@ == old(self)@.update(axis.spec_index_of(), value.as_int()),
    {
        let i: usize = axis.index_of();
        self.components[i] = value;
        proof {
            assert(final(self)@ =~= old(self)@.update(axis.spec_index_of(), value.as_int()));
        }
    }

    /// Replaces the component at the given axis index.
    pub fn set_idx(&mut self, i: usize, value: N)
        requires
            i < old(self)@.len(),
        ensures
            final(self)@ == old(self)@.update(i as int, value.as_int()),
    {
        self.components[i] = value;
        proof {
            assert(final(self)@ =~= old(self)@.update(i as int, value.as_int()));
        }
    }

    /// Every component's value lies within its numeric type's range.
    pub proof fn in_range_all(&self)
        ensures
            forall|i: int|
                0 <= i < self@.len() ==> N::lo() <= #[trigger] self@[i] <= N::hi(),
    {
        assert forall|i: int|
            0 <= i < self@.len() implies N::lo() <= #[trigger] self@[i] <= N::hi() by {
            assert(self@[i] == self.components@[i].as_int());
            self.components@[i].in_range();
        }
    }

    /// Returns a copy of this vector.
    pub fn duplicate(&self) -> (r: Self)
        ensures
            r@ == self@,
    {
        let mut components: Vec<N> = Vec::new();
        let mut i: usize = 0;
        while i < self.components.len()
            invariant
                i <= self.components.len(),
                components@ == self.components@.take(i as int),
            decreases self.components.len() - i,
        {
            components.push(self.components[i]);
            proof {
                assert(components@ =~= self.components@.take(i + 1));
            }
            i = i + 1;
        }
        proof {
            assert(components@ =~= self.components@);
        }
        NdVec { components }
    }

    /// Returns a vector consisting of all zeros.
    pub fn origin(ndim: usize) -> (r: Self)
        requires
            1 <= ndim <= MAX_NDIM,
        ensures
            r@ == Seq::new(ndim as nat, |i: int| 0int),
    {
        Self::repeat(N::zero(), ndim)
    }

    /// Returns true if the vector is all zeros, or false otherwise.
    pub fn is_zero(&self) -> (r: bool)
        ensures
            r == (self@ == Seq::new(self@.len(), |i: int| 0int)),
    {
        let mut i: usize = 0;
        let n: usize = self.components.len();
        let mut all_zero: bool = true;
        while i < n
            invariant
                i <= n,
                n == self@.len(),
                all_zero == (forall|j: int| 0 <= j < i ==> self@[j] == 0),
            decreases n - i,
        {
            let c: N = self.components[i];
            let z: N = N::zero();
            proof {
                assert(self@[i as int] == self.components@[i as int].as_int());
            }
            if !(c.le(z) && z.le(c)) {
                all_zero = false;
            }
            i = i + 1;
        }
        proof {
            if all_zero {
                assert(self@ =~= Seq::new(self@.len(), |i: int| 0int));
            }
        }
        all_zero
    }

    /// Returns the unit vector pointing along the given axis.
    pub fn unit(ndim: usize, axis: Axis) -> (r: Self)
        requires
            1 <= ndim <= MAX_NDIM,
            axis.spec_index_of() < ndim,
        ensures
            r@ == Seq::new(ndim as nat, |i: int| 0int).update(axis.spec_index_of(), 1int),
    {
        let mut r: Self = Self::origin(ndim);
        r.set(axis, N::one());
        r
    }

    /// Constructs a vector using the given value for all components.
    pub fn repeat(value: N, ndim: usize) -> (r: Self)
        requires
            1 <= ndim <= MAX_NDIM,
        ensures
            r@ == Seq::new(ndim as nat, |i: int| value.as_int()),
    {
        let mut components: Vec<N> = Vec::new();
        let mut i: usize = 0;
        while i < ndim
            invariant
                i <= ndim,
                components@.len() == i,
                forall|j: int| 0 <= j < i ==> #[trigger] components@[j] == value,
            decreases ndim - i,
        {
            components.push(value);
            i = i + 1;
        }
        proof {
            assert(components@.map_values(|x: N| x.as_int()) =~= Seq::new(
                ndim as nat,
                |i: int| value.as_int(),
            ));
        }
        NdVec { components }
    }

    /// Constructs a vector using a function of an axis to generate each
    /// component.
    pub fn from_fn<F: Fn(Axis) -> N>(ndim: usize, f: F) -> (r: Self)
        requires
            1 <= ndim <= MAX_NDIM,
            forall|ax: Axis| ax.spec_index_of() < ndim ==> #[trigger] f.requires((ax,)),
        ensures
            r@.len() == ndim,
            forall|i: int|
                #![trigger spec_axis_of(i)]
                0 <= i < ndim ==> exists|v: N|
                    #[trigger] call_ensures(f, (spec_axis_of(i),), v) && r@[i] == v.as_int(),
    {
        let mut components: Vec<N> = Vec::new();
        let mut i: usize = 0;
        while i < ndim
            invariant
                i <= ndim <= MAX_NDIM,
                forall|ax: Axis| ax.spec_index_of() < ndim ==> #[trigger] f.requires((ax,)),
                components@.len() == i,
                forall|j: int|
                    #![trigger spec_axis_of(j)]
                    0 <= j < i ==> exists|v: N|
                        #[trigger] call_ensures(f, (spec_axis_of(j),), v) && components@[j] == v,
            decreases ndim - i,
        {
            let ax: Axis = Axis::from_index(i);
            proof {
                assert(spec_axis_of(i as int) == ax);
            }
            let v: N = f(ax);
            components.push(v);
            i = i + 1;
        }
        proof {
            assert forall|i: int| #![trigger spec_axis_of(i)] 0 <= i < ndim implies exists|v: N|
                #[trigger] call_ensures(f, (spec_axis_of(i),), v) && components@.map_values(
                    |x: N| x.as_int(),
                )[i] == v.as_int() by {
                let v0 = choose|v: N|
                    #[trigger] call_ensures(f, (spec_axis_of(i),), v) && components@[i] == v;
                assert(components@.map_values(|x: N| x.as_int())[i] == components@[i].as_int());
            }
        }
        NdVec { components }
    }

    /// Replaces each component with a function of its axis and its old
    /// value.
    pub fn map_fn<F: Fn(Axis, N) -> N>(&mut self, f: F)
        requires
            old(self)@.len() <= MAX_NDIM,
            forall|ax: Axis, v: N|
                ax.spec_index_of() < old(self)@.len() && v.as_int() == old(self)@[
                    ax.spec_index_of()
                ] ==> #[trigger] f.requires((ax, v)),
        ensures
            final(self)@.len() == old(self)@.len(),
            forall|i: int|
                #![trigger spec_axis_of(i)]
                0 <= i < old(self)@.len() ==> exists|a: N, b: N|
                    a.as_int() == old(self)@[i] && #[trigger] call_ensures(
                        f,
                        (spec_axis_of(i), a),
                        b,
                    ) && final(self)@[i] == b.as_int(),
    {
        let n: usize = self.components.len();
        let mut i: usize = 0;
        while i < n
            invariant
                i <= n == old(self)@.len() <= MAX_NDIM,
                self@.len() == old(self)@.len(),
                forall|j: int|
                    i <= j < n ==> #[trigger] self.components@[j] == old(self).components@[j],
                forall|ax: Axis, v: N|
                    ax.spec_index_of() < old(self)@.len() && v.as_int() == old(self)@[
                        ax.spec_index_of()
                    ] ==> #[trigger] f.requires((ax, v)),
                forall|j: int|
                    #![trigger spec_axis_of(j)]
                    0 <= j < i ==> exists|a: N, b: N|
                        a.as_int() == old(self)@[j] && #[trigger] call_ensures(
                            f,
                            (spec_axis_of(j), a),
                            b,
                        ) && self@[j] == b.as_int(),
            decreases n - i,
        {
            let ax: Axis = Axis::from_index(i);
            let cur: N = self.components[i];
            proof {
                assert(spec_axis_of(i as int) == ax);
                assert(old(self)@[i as int] == old(self).components@[i as int].as_int());
                assert(cur.as_int() == old(self)@[i as int]);
            }
            let ghost before = self@;
            let v: N = f(ax, cur);
            self.components[i] = v;
            proof {
                assert forall|j: int| 0 <= j < n && j != i implies self@[j] == before[j] by {
                    assert(self@[j] == self.components@[j].as_int());
                }
                assert(self@[i as int] == v.as_int());
                assert forall|j: int|
                    #![trigger spec_axis_of(j)]
                    0 <= j < i + 1 implies exists|a: N, b: N|
                    a.as_int() == old(self)@[j] && #[trigger] call_ensures(
                        f,
                        (spec_axis_of(j), a),
                        b,
                    ) && self@[j] == b.as_int() by {
                    if j == i {
                        assert(call_ensures(f, (spec_axis_of(j), cur), v) && self@[j]
                            == v.as_int());
                    } else {
                        let (a0, b0) = choose|a: N, b: N|
                            a.as_int() == old(self)@[j] && #[trigger] call_ensures(
                                f,
                                (spec_axis_of(j), a),
                                b,
                            ) && self@[j] == b.as_int();
                    }
                }
            }
            i = i + 1;
        }
    }

    /// Constructs a vector where each component is the minimum of the
    /// corresponding components in the two given vectors.
    pub fn min(v1: &Self, v2: &Self) -> (r: Self)
        requires
            v1@.len() == v2@.len(),
        ensures
            r@ == Seq::new(v1@.len(), |i: int| vstd::math::min(v1@[i], v2@[i])),
    {
        let n: usize = v1.components.len();
        let mut components: Vec<N> = Vec::new();
        let mut i: usize = 0;
        while i < n
            invariant
                i <= n,
                n == v1@.len() == v2@.len(),
                components@.len() == i,
                forall|j: int|
                    0 <= j < i ==> (#[trigger] components@[j]).as_int() == vstd::math::min(
                        v1@[j],
                        v2@[j],
                    ),
            decreases n - i,
        {
            let a: N = v1.components[i];
            let b: N = v2.components[i];
            components.push(if a.le(b) {
                a
            } else {
                b
            });
            i = i + 1;
        }
        proof {
            assert(components@.map_values(|x: N| x.as_int()) =~= Seq::new(
                v1@.len(),
                |i: int| vstd::math::min(v1@[i], v2@[i]),
            ));
        }
        NdVec { components }
    }

    /// Constructs a vector where each component is the maximum of the
    /// corresponding components in the two given vectors.
    pub fn max(v1: &Self, v2: &Self) -> (r: Self)
        requires
            v1@.len() == v2@.len(),
        ensures
            r@ == Seq::new(v1@.len(), |i: int| vstd::math::max(v1@[i], v2@[i])),
    {
        let n: usize = v1.components.len();
        let mut components: Vec<N> = Vec::new();
        let mut i: usize = 0;
        while i < n
            invariant
                i <= n,
                n == v1@.len() == v2@.len(),
                components@.len() == i,
                forall|j: int|
                    0 <= j < i ==> (#[trigger] components@[j]).as_int() == vstd::math::max(
                        v1@[j],
                        v2@[j],
                    ),
            decreases n - i,
        {
            let a: N = v1.components[i];
            let b: N = v2.components[i];
            components.push(if a.le(b) {
                b
            } else {
                a
            });
            i = i + 1;
        }
        proof {
            assert(components@.map_values(|x: N| x.as_int()) =~= Seq::new(
                v1@.len(),
                |i: int| vstd::math::max(v1@[i], v2@[i]),
            ));
        }
        NdVec { components }
    }
}

/// The sum of the entries of an integer sequence.
pub open spec fn seq_sum(s: Seq<int>) -> int
    decreases s.len(),
{
    if s.len() == 0 {
        0
    } else {
        seq_sum(s.drop_last()) + s.last()
    }
}

/// The product of the entries of an integer sequence.
pub open spec fn seq_product(s: Seq<int>) -> int
    decreases s.len(),
{
    if s.len() == 0 {
        1
    } else {
        seq_product(s.drop_last()) * s.last()
    }
}

impl<N: NdVecNum> NdVec<N> {
    /// Adds together all the components of this vector.
    pub fn sum(&self) -> (r: N)
        requires
            forall|k: int|
                0 <= k <= self@.len() ==> N::lo() <= seq_sum(#[trigger] self@.take(k)) <= N::hi(),
        ensures
            r.as_int() == seq_sum(self@),
    {
        let n: usize = self.components.len();
        let mut acc: N = N::zero();
        let mut i: usize = 0;
        proof {
            assert(self@.take(0) =~= Seq::<int>::empty());
        }
        while i < n
            invariant
                i <= n,
                n == self@.len(),
                acc.as_int() == seq_sum(self@.take(i as int)),
                forall|k: int|
                    0 <= k <= self@.len() ==> N::lo() <= seq_sum(#[trigger] self@.take(k))
                        <= N::hi(),
            decreases n - i,
        {
            let c: N = self.components[i];
            proof {
                c.in_range();
                acc.in_range();
                assert(self@.take(i + 1).drop_last() =~= self@.take(i as int));
                assert(self@.take(i + 1).last() == self@[i as int]);
            }
            acc = acc.add(c);
            i = i + 1;
        }
        proof {
            assert(self@.take(n as int) =~= self@);
        }
        acc
    }

    /// Multiplies together all the components of this vector.
    pub fn product(&self) -> (r: N)
        requires
            forall|k: int|
                0 <= k <= self@.len() ==> N::lo() <= seq_product(#[trigger] self@.take(k))
                    <= N::hi(),
        ensures
            r.as_int() == seq_product(self@),
    {
        let n: usize = self.components.len();
        let mut acc: N = N::one();
        let mut i: usize = 0;
        proof {
            assert(self@.take(0) =~= Seq::<int>::empty());
        }
        while i < n
            invariant
                i <= n,
                n == self@.len(),
                acc.as_int() == seq_product(self@.take(i as int)),
                forall|k: int|
                    0 <= k <= self@.len() ==> N::lo() <= seq_product(#[trigger] self@.take(k))
                        <= N::hi(),
            decreases n - i,
        {
            let c: N = self.components[i];
            proof {
                c.in_range();
                acc.in_range();
                assert(self@.take(i + 1).drop_last() =~= self@.take(i as int));
                assert(self@.take(i + 1).last() == self@[i as int]);
            }
            acc = acc.mul(c);
            i = i + 1;
        }
        proof {
            assert(self@.take(n as int) =~= self@);
        }
        acc
    }
}

/// Vectors that can be converted to `UVec`s, panicking on values that do
/// not fit; here stated as a precondition instead, so conversion never
/// panics.
pub trait AsUVec {
    /// Converts the vector to a `UVec` with the same mathematical value.
    fn as_uvec(&self) -> (r: UVec)
        requires
            forall|i: int| 0 <= i < self.uvec_view().len() ==> 0 <= #[trigger] self.uvec_view()[i]
                <= usize::MAX as int,
        ensures
            r@ == self.uvec_view(),
    ;

    /// The mathematical components of the vector being converted.
    spec fn uvec_view(&self) -> Seq<int>;
}

/// Vectors that can be converted to `IVec`s, panicking on values that do
/// not fit; here stated as a precondition instead, so conversion never
/// panics.
pub trait AsIVec {
    /// Converts the vector to an `IVec` with the same mathematical value.
    fn as_ivec(&self) -> (r: IVec)
        requires
            forall|i: int|
                0 <= i < self.ivec_view().len() ==> isize::MIN as int
                    <= #[trigger] self.ivec_view()[i] <= isize::MAX as int,
        ensures
            r@ == self.ivec_view(),
    ;

    /// The mathematical components of the vector being converted.
    spec fn ivec_view(&self) -> Seq<int>;
}

impl AsUVec for IVec {
    open spec fn uvec_view(&self) -> Seq<int> {
        self@
    }

    fn as_uvec(&self) -> (r: UVec) {
        let n: usize = self.components.len();
        let mut components: Vec<usize> = Vec::new();
        let mut i: usize = 0;
        while i < n
            invariant
                i <= n,
                n == self@.len(),
                components@.len() == i,
                forall|j: int| 0 <= j < i ==> (#[trigger] components@[j]) as int == self@[j],
                forall|j: int| 0 <= j < self.uvec_view().len() ==> 0 <= #[trigger] self.uvec_view()[j]
                    <= usize::MAX as int,
            decreases n - i,
        {
            proof {
                assert(self.uvec_view()[i as int] == self.components@[i as int].as_int());
            }
            components.push(self.components[i] as usize);
            i = i + 1;
        }
        proof {
            assert(components@.map_values(|x: usize| x.as_int()) =~= self@);
        }
        NdVec { components }
    }
}

impl AsIVec for UVec {
    open spec fn ivec_view(&self) -> Seq<int> {
        self@
    }

    fn as_ivec(&self) -> (r: IVec) {
        let n: usize = self.components.len();
        let mut components: Vec<isize> = Vec::new();
        let mut i: usize = 0;
        while i < n
            invariant
                i <= n,
                n == self@.len(),
                components@.len() == i,
                forall|j: int| 0 <= j < i ==> (#[trigger] components@[j]) as int == self@[j],
                forall|j: int|
                    0 <= j < self.ivec_view().len() ==> isize::MIN as int
                        <= #[trigger] self.ivec_view()[j] <= isize::MAX as int,
            decreases n - i,
        {
            proof {
                assert(self.ivec_view()[i as int] == self.components@[i as int].as_int());
            }
            components.push(self.components[i] as isize);
            i = i + 1;
        }
        proof {
            assert(components@.map_values(|x: isize| x.as_int()) =~= self@);
        }
        NdVec { components }
    }
}

impl AsIVec for BigVec {
    open spec fn ivec_view(&self) -> Seq<int> {
        self@
    }

    fn as_ivec(&self) -> (r: IVec) {
        let n: usize = self.components.len();
        let mut components: Vec<isize> = Vec::new();
        let mut i: usize = 0;
        while i < n
            invariant
                i <= n,
                n == self@.len(),
                components@.len() == i,
                forall|j: int| 0 <= j < i ==> (#[trigger] components@[j]) as int == self@[j],
                forall|j: int|
                    0 <= j < self.ivec_view().len() ==> isize::MIN as int
                        <= #[trigger] self.ivec_view()[j] <= isize::MAX as int,
            decreases n - i,
        {
            proof {
                assert(self.ivec_view()[i as int] == self.components@[i as int].as_int());
            }
            components.push(self.components[i] as isize);
            i = i + 1;
        }
        proof {
            assert(components@.map_values(|x: isize| x.as_int()) =~= self@);
        }
        NdVec { components }
    }
}

impl IVec {
    /// Converts a vector of native integers to the wide coordinate type.
    pub fn convert(&self) -> (r: BigVec)
        ensures
            r@ == self@,
    {
        let n: usize = self.components.len();
        let mut components: Vec<i64> = Vec::new();
        let mut i: usize = 0;
        while i < n
            invariant
                i <= n,
                n == self@.len(),
                components@.len() == i,
                forall|j: int| 0 <= j < i ==> (#[trigger] components@[j]) as int == self@[j],
            decreases n - i,
        {
            components.push(self.components[i] as i64);
            i = i + 1;
        }
        proof {
            assert(components@.map_values(|x: i64| x.as_int()) =~= self@);
        }
        NdVec { components }
    }
}

impl BigVec {
    /// Every component of a wide-coordinate vector lies within the
    /// signed 64-bit range.
    pub proof fn bounds(&self)
        ensures
            forall|i: int|
                0 <= i < self@.len() ==> i64::MIN as int <= #[trigger] self@[i] <= i64::MAX as int,
    {
        assert forall|i: int|
            0 <= i < self@.len() implies i64::MIN as int <= #[trigger] self@[i]
            <= i64::MAX as int by {
            assert(self@[i] == self.components@[i] as int);
        }
    }

    /// Constructs a new `BigVec` from native signed integer components.
    pub fn big(isize_components: Vec<isize>) -> (r: Self)
        ensures
            r@ == isize_components@.map_values(|x: isize| x as int),
    {
        let v: IVec = NdVec { components: isize_components };
        v.convert()
    }
}

} // verus!
