//! Basic N-dimensional arrays for smaller patterns.
//!
//! An `NdArray` stores a dense hyperrectangular block of cells in a flat
//! vector, indexed by the mixed-radix encoding of the position: the
//! first axis varies fastest.

use vstd::prelude::*;
use vstd::arithmetic::div_mod::lemma_div_denominator;
use vstd::arithmetic::div_mod::lemma_fundamental_div_mod;
use vstd::arithmetic::div_mod::lemma_fundamental_div_mod_converse;

use crate::ndrect::NdRect;
use crate::ndvec::seq_product;
use crate::ndvec::AsIVec;
use crate::ndvec::IVec;
use crate::ndvec::NdVec;
use crate::ndvec::UVec;

verus! {

/// The flat index of a position within a box of the given sizes: the
/// first axis varies fastest.
pub open spec fn flatten_spec(size: Seq<int>, pos: Seq<int>) -> int
    decreases pos.len(),
{
    if pos.len() == 0 || pos.len() != size.len() {
        0
    } else {
        flatten_spec(size.drop_last(), pos.drop_last()) + pos.last() * seq_product(
            size.drop_last(),
        )
    }
}

/// True when the position lies inside the box of the given sizes.
pub open spec fn in_box(size: Seq<int>, pos: Seq<int>) -> bool {
    pos.len() == size.len() && forall|i: int| 0 <= i < pos.len() ==> 0 <= #[trigger] pos[i] < size[i]
}

/// The product of positive sizes is positive.
pub proof fn lemma_prod_pos(size: Seq<int>)
    requires
        forall|i: int| 0 <= i < size.len() ==> #[trigger] size[i] >= 1,
    ensures
        seq_product(size) >= 1,
    decreases size.len(),
{
    if size.len() > 0 {
        assert(forall|i: int|
            0 <= i < size.drop_last().len() ==> #[trigger] size.drop_last()[i] == size[i]);
        lemma_prod_pos(size.drop_last());
        assert(seq_product(size) == seq_product(size.drop_last()) * size.last());
        assert(seq_product(size.drop_last()) * size.last() >= 1) by (nonlinear_arith)
            requires
                seq_product(size.drop_last()) >= 1,
                size.last() >= 1,
        ;
    }
}

/// Every prefix product of positive sizes is positive and bounded by
/// the full product.
pub proof fn lemma_prod_prefix(size: Seq<int>, k: int)
    requires
        forall|i: int| 0 <= i < size.len() ==> #[trigger] size[i] >= 1,
        0 <= k <= size.len(),
    ensures
        1 <= seq_product(size.take(k)) <= seq_product(size),
    decreases size.len() - k,
{
    assert(forall|i: int| 0 <= i < size.take(k).len() ==> #[trigger] size.take(k)[i] == size[i]);
    lemma_prod_pos(size.take(k));
    if k == size.len() {
        assert(size.take(k) =~= size);
    } else {
        lemma_prod_prefix(size, k + 1);
        assert(size.take(k + 1).drop_last() =~= size.take(k));
        assert(size.take(k + 1).last() == size[k]);
        assert(seq_product(size.take(k + 1)) == seq_product(size.take(k)) * size[k]);
        assert(seq_product(size.take(k)) <= seq_product(size.take(k)) * size[k])
            by (nonlinear_arith)
            requires
                size[k] >= 1,
                seq_product(size.take(k)) >= 1,
        ;
    }
}

/// A flat index always lies below the product of the sizes.
pub proof fn lemma_flatten_bounds(size: Seq<int>, pos: Seq<int>)
    requires
        in_box(size, pos),
    ensures
        0 <= flatten_spec(size, pos) < seq_product(size),
    decreases pos.len(),
{
    if pos.len() == 0 {
    } else {
        assert(forall|i: int|
            0 <= i < size.drop_last().len() ==> #[trigger] size.drop_last()[i] == size[i]);
        assert(forall|i: int|
            0 <= i < pos.drop_last().len() ==> #[trigger] pos.drop_last()[i] == pos[i]);
        lemma_flatten_bounds(size.drop_last(), pos.drop_last());
        let f = flatten_spec(size.drop_last(), pos.drop_last());
        let p = seq_product(size.drop_last());
        let d = pos.last();
        let sl = size.last();
        assert(0 <= d < sl);
        assert(f + d * p < sl * p) by (nonlinear_arith)
            requires
                0 <= f < p,
                0 <= d < sl,
        ;
        assert(f + d * p >= 0) by (nonlinear_arith)
            requires
                f >= 0,
                d >= 0,
                p >= 1,
        ;
        assert(seq_product(size) == p * sl);
    }
}

/// Two in-box positions with the same flat index are the same position.
pub proof fn lemma_flatten_injective(size: Seq<int>, p1: Seq<int>, p2: Seq<int>)
    requires
        in_box(size, p1),
        in_box(size, p2),
        flatten_spec(size, p1) == flatten_spec(size, p2),
    ensures
        p1 == p2,
    decreases size.len(),
{
    if size.len() == 0 {
        assert(p1 =~= p2);
    } else {
        assert(forall|i: int|
            0 <= i < size.drop_last().len() ==> #[trigger] size.drop_last()[i] == size[i]);
        assert(forall|i: int|
            0 <= i < p1.drop_last().len() ==> #[trigger] p1.drop_last()[i] == p1[i]);
        assert(forall|i: int|
            0 <= i < p2.drop_last().len() ==> #[trigger] p2.drop_last()[i] == p2[i]);
        lemma_flatten_bounds(size.drop_last(), p1.drop_last());
        lemma_flatten_bounds(size.drop_last(), p2.drop_last());
        let p = seq_product(size.drop_last());
        let f1 = flatten_spec(size.drop_last(), p1.drop_last());
        let f2 = flatten_spec(size.drop_last(), p2.drop_last());
        let k = flatten_spec(size, p1);
        lemma_fundamental_div_mod_converse(k, p, p1.last(), f1);
        lemma_fundamental_div_mod_converse(k, p, p2.last(), f2);
        assert(p1.last() == p2.last() && f1 == f2);
        lemma_flatten_injective(size.drop_last(), p1.drop_last(), p2.drop_last());
        assert forall|i: int| 0 <= i < p1.len() implies p1[i] == p2[i] by {
            if i < p1.len() - 1 {
                assert(p1.drop_last()[i] == p2.drop_last()[i]);
            }
        }
        assert(p1 =~= p2);
    }
}

/// Converts a position into its flat array index.
pub fn flatten_idx(size: &UVec, pos: &IVec) -> (r: usize)
    requires
        in_box(size@, pos@),
        seq_product(size@) <= usize::MAX,
    ensures
        r == flatten_spec(size@, pos@),
        r < seq_product(size@),
{
    let n: usize = size.ndim();
    let mut acc: usize = 0;
    let mut stride: usize = 1;
    let mut i: usize = 0;
    proof {
        assert(size@.take(0) =~= Seq::<int>::empty());
        assert(pos@.take(0) =~= Seq::<int>::empty());
        assert forall|j: int| 0 <= j < size@.len() implies #[trigger] size@[j] >= 1 by {
            assert(0 <= pos@[j] < size@[j]);
        }
    }
    while i < n
        invariant
            i <= n == size@.len() == pos@.len(),
            in_box(size@, pos@),
            forall|j: int| 0 <= j < size@.len() ==> #[trigger] size@[j] >= 1,
            seq_product(size@) <= usize::MAX,
            stride == seq_product(size@.take(i as int)),
            acc == flatten_spec(size@.take(i as int), pos@.take(i as int)),
            0 <= acc < stride,
        decreases n - i,
    {
        proof {
            lemma_prod_prefix(size@, i as int);
            lemma_prod_prefix(size@, i + 1);
            assert(size@.take(i + 1).drop_last() =~= size@.take(i as int));
            assert(pos@.take(i + 1).drop_last() =~= pos@.take(i as int));
            assert(size@.take(i + 1).last() == size@[i as int]);
            assert(pos@.take(i + 1).last() == pos@[i as int]);
            assert(acc + pos@[i as int] * stride < size@[i as int] * stride)
                by (nonlinear_arith)
                requires
                    0 <= acc < stride,
                    0 <= pos@[i as int] < size@[i as int],
            ;
            assert(size@[i as int] * stride == seq_product(size@.take(i + 1)))
                by (nonlinear_arith)
                requires
                    seq_product(size@.take(i + 1)) == seq_product(size@.take(i as int)) * size@[i
                        as int],
                    stride == seq_product(size@.take(i as int)),
            ;
            assert(acc + pos@[i as int] * stride >= 0) by (nonlinear_arith)
                requires
                    acc >= 0,
                    pos@[i as int] >= 0,
                    stride >= 1,
            ;
            assert(seq_product(size@.take(i + 1)) == seq_product(size@.take(i as int))
                * size@[i as int]);
            assert(acc + pos@[i as int] * stride < seq_product(size@.take(i + 1)));
            assert(seq_product(size@.take(i + 1)) <= usize::MAX as int);
            assert(pos@[i as int] * stride >= 0) by (nonlinear_arith)
                requires
                    pos@[i as int] >= 0,
                    stride >= 0,
            ;
        }
        let d: usize = pos.get_idx(i) as usize;
        proof {
            assert(d == pos@[i as int]);
        }
        acc = acc + d * stride;
        stride = stride * size.get_idx(i);
        i = i + 1;
    }
    proof {
        assert(size@.take(n as int) =~= size@);
        assert(pos@.take(n as int) =~= pos@);
    }
    acc
}

/// Converts a flat array index back into a position.
pub fn unflatten_idx(size: &UVec, idx: usize) -> (r: IVec)
    requires
        1 <= size@.len() <= 6,
        forall|i: int| 0 <= i < size@.len() ==> 1 <= #[trigger] size@[i] <= isize::MAX as int,
        idx < seq_product(size@),
    ensures
        in_box(size@, r@),
        flatten_spec(size@, r@) == idx,
{
    let n: usize = size.ndim();
    let mut digits: Vec<isize> = Vec::new();
    let mut q: usize = idx;
    let mut i: usize = 0;
    proof {
        assert(size@.take(0) =~= Seq::<int>::empty());
    }
    while i < n
        invariant
            i <= n == size@.len(),
            forall|j: int| 0 <= j < size@.len() ==> 1 <= #[trigger] size@[j] <= isize::MAX as int,
            idx < seq_product(size@),
            digits@.len() == i,
            in_box(size@.take(i as int), digits@.map_values(|x: isize| x as int)),
            idx == flatten_spec(size@.take(i as int), digits@.map_values(|x: isize| x as int))
                + q * seq_product(size@.take(i as int)),
        decreases n - i,
    {
        let ghost dv = digits@.map_values(|x: isize| x as int);
        let sz: usize = size.get_idx(i);
        let d: usize = q % sz;
        let q2: usize = q / sz;
        proof {
            lemma_prod_prefix(size@, i as int);
            lemma_fundamental_div_mod(q as int, sz as int);
            assert(q == sz * q2 + d);
            assert(size@.take(i + 1).drop_last() =~= size@.take(i as int));
            assert(size@.take(i + 1).last() == size@[i as int]);
            assert(seq_product(size@.take(i + 1)) == seq_product(size@.take(i as int))
                * size@[i as int]);
            let st = seq_product(size@.take(i as int));
            assert(q * st == (sz * q2 + d) * st);
            assert((sz * q2 + d) * st == d * st + q2 * (sz * st)) by (nonlinear_arith);
            assert(sz * st == seq_product(size@.take(i + 1)));
            let ghost dv2 = digits@.push(d as isize).map_values(|x: isize| x as int);
            assert(dv2.drop_last() =~= dv);
            assert(dv2.last() == d as int);
            assert(in_box(size@.take(i + 1), dv2)) by {
                assert forall|j: int| 0 <= j < i + 1 implies 0 <= #[trigger] dv2[j] < size@.take(
                    i + 1,
                )[j] by {
                    assert(size@.take(i + 1)[j] == size@[j]);
                    if j < i {
                        assert(dv2[j] == dv[j]);
                        assert(size@.take(i as int)[j] == size@[j]);
                        assert(0 <= dv[j] < size@.take(i as int)[j]);
                    } else {
                        assert(dv2[j] == d as int);
                    }
                }
            }
            assert(flatten_spec(size@.take(i + 1), dv2) == flatten_spec(size@.take(i as int), dv)
                + d * st);
        }
        digits.push(d as isize);
        q = q2;
        i = i + 1;
    }
    let r: IVec = NdVec::from_components(digits);
    proof {
        assert(size@.take(n as int) =~= size@);
        let dv = digits@.map_values(|x: isize| x as int);
        assert(in_box(size@, dv));
        lemma_flatten_bounds(size@, dv);
        lemma_prod_pos(size@);
        // The remaining quotient must be zero, since anything more would
        // push the index past the product of the sizes.
        if q >= 1 {
            assert(q * seq_product(size@) >= seq_product(size@)) by (nonlinear_arith)
                requires
                    q >= 1,
                    seq_product(size@) >= 1,
            ;
        }
        assert(r@ == dv);
    }
    r
}

/// A basic N-dimensional array, implemented using a flat vector.
pub struct NdArray<T> {
    /// The extent of the array along each axis.
    pub size: UVec,
    /// The cells, indexed by flattened position.
    pub data: Vec<T>,
}

/// An offset immutable view of an `NdArray`.
pub struct NdArraySlice<'a, T> {
    /// The array whose cells are viewed.
    pub array: &'a NdArray<T>,
    /// The offset added to the viewed rectangle.
    pub offset: IVec,
}

impl<T> NdArray<T> {
    /// An array is valid when it holds one cell per position of its
    /// box.
    pub open spec fn wf(self) -> bool {
        &&& 1 <= self.size@.len() <= 6
        &&& (forall|i: int|
            0 <= i < self.size@.len() ==> 1 <= #[trigger] self.size@[i] <= isize::MAX as int)
        &&& self.data@.len() == seq_product(self.size@)
        &&& seq_product(self.size@) <= usize::MAX
    }

    /// Converts a position into this array's flat index.
    pub fn flatten_idx(&self, pos: &IVec) -> (r: usize)
        requires
            self.wf(),
            in_box(self.size@, pos@),
        ensures
            r == flatten_spec(self.size@, pos@),
            r < self.data@.len(),
    {
        proof {
            lemma_flatten_bounds(self.size@, pos@);
        }
        flatten_idx(&self.size, pos)
    }

    /// Returns the cell at the given position.
    pub fn get(&self, pos: &IVec) -> (r: &T)
        requires
            self.wf(),
            in_box(self.size@, pos@),
        ensures
            *r == self.data@[flatten_spec(self.size@, pos@)],
    {
        proof {
            lemma_flatten_bounds(self.size@, pos@);
        }
        let idx: usize = flatten_idx(&self.size, pos);
        &self.data[idx]
    }

    /// Replaces the cell at the given position.
    pub fn set(&mut self, pos: &IVec, value: T)
        requires
            old(self).wf(),
            in_box(old(self).size@, pos@),
        ensures
            final(self).wf(),
            final(self).size@ == old(self).size@,
            final(self).data@ == old(self).data@.update(
                flatten_spec(old(self).size@, pos@),
                value,
            ),
    {
        proof {
            lemma_flatten_bounds(self.size@, pos@);
        }
        let idx: usize = flatten_idx(&self.size, pos);
        self.data[idx] = value;
        proof {
            assert(final(self).data@ =~= old(self).data@.update(
                flatten_spec(old(self).size@, pos@),
                value,
            ));
        }
    }

    /// Returns the size vector of this array.
    pub fn size(&self) -> (r: &UVec)
        ensures
            r@ == self.size@,
    {
        &self.size
    }

    /// Returns the rectangle of this array, anchored at the origin.
    pub fn rect(&self) -> (r: NdRect<usize>)
        requires
            self.wf(),
        ensures
            r.start@ == Seq::new(self.size@.len(), |i: int| 0int),
            r.size@ == self.size@,
    {
        let start: UVec = NdVec::origin(self.size.ndim());
        NdRect::new(start, self.size.duplicate())
    }

    /// Returns a slice of this array with no offset.
    pub fn slice<'a>(&'a self) -> (r: NdArraySlice<'a, T>)
        requires
            self.wf(),
        ensures
            r.array == self,
            r.offset@ == Seq::new(self.size@.len(), |i: int| 0int),
    {
        let offset: IVec = NdVec::origin(self.size.ndim());
        NdArraySlice { array: self, offset }
    }

    /// Returns a slice of this array with the given offset.
    pub fn offset_slice<'a>(&'a self, offset: IVec) -> (r: NdArraySlice<'a, T>)
        ensures
            r.array == self,
            r.offset@ == offset@,
    {
        NdArraySlice { array: self, offset }
    }
}

impl NdArray<u8> {
    /// Materializes the cells of a tree node into a dense array: entry
    /// `pos` holds the node's cell at local position `pos`.
    #[verifier::rlimit(100)]
    pub fn from_node(node: &crate::node::NdTreeNode) -> (r: NdArray<u8>)
        requires
            crate::node::wf_node(*node),
            node.layer as nat * node.ndim as nat <= 20,
        ensures
            r.wf(),
            r.size@ == Seq::new(
                node.ndim as nat,
                |j: int| vstd::arithmetic::power2::pow2(node.layer as nat) as int,
            ),
            forall|pos: Seq<int>|
                in_box(r.size@, pos) ==> r.data@[flatten_spec(r.size@, pos)]
                    == crate::node::node_cell(*node, node.layer as nat, pos),
    {
        proof {
            assert(node.layer as nat <= 20) by (nonlinear_arith)
                requires
                    node.ndim >= 1,
                    node.layer as nat * node.ndim as nat <= 20,
            ;
        }
        let side: u64 = crate::node::pow2_u64(node.layer);
        proof {
            crate::node::lemma_pow2_le_mono(node.layer as nat, 20);
            vstd::arithmetic::power2::lemma2_to64();
        }
        let mut usz: Vec<usize> = Vec::new();
        let mut i: usize = 0;
        let nd: usize = node.ndim;
        while i < nd
            invariant
                i <= nd,
                side <= 0x100000,
                usz@.len() == i,
                forall|j: int| 0 <= j < i ==> (#[trigger] usz@[j]) as int == side as int,
            decreases nd - i,
        {
            usz.push(side as usize);
            i = i + 1;
        }
        let size: UVec = NdVec::from_components(usz);
        proof {
            assert(size@ =~= Seq::new(nd as nat, |j: int| side as int));
            assert forall|j: int| 0 <= j < size@.len() implies 1 <= #[trigger] size@[j]
                <= isize::MAX as int by {
                vstd::arithmetic::power2::lemma_pow2_pos(node.layer as nat);
            }
            lemma_prod_bounded_by_pow(size@, node.layer as nat, node.ndim as nat);
        }
        let total: usize = {
            proof {
                assert forall|k: int|
                    0 <= k <= size@.len() implies 1 <= seq_product(#[trigger] size@.take(k))
                    <= seq_product(size@) by {
                    lemma_prod_prefix(size@, k);
                }
            }
            size.product()
        };
        let mut data: Vec<u8> = Vec::new();
        let mut k: usize = 0;
        while k < total
            invariant
                k <= total == seq_product(size@),
                crate::node::wf_node(*node),
                size@.len() == node.ndim,
                1 <= size@.len() <= 6,
                seq_product(size@) <= usize::MAX,
                forall|j: int| 0 <= j < size@.len() ==> 1 <= #[trigger] size@[j] <= isize::MAX as int,
                data@.len() == k,
                forall|pp: Seq<int>|
                    in_box(size@, pp) && 0 <= flatten_spec(size@, pp) < k ==> data@[flatten_spec(
                        size@,
                        pp,
                    )] == crate::node::node_cell(*node, node.layer as nat, pp),
            decreases total - k,
        {
            let pos: IVec = unflatten_idx(&size, k);
            let n2: usize = pos.ndim();
            let mut q: Vec<u64> = Vec::new();
            let mut i2: usize = 0;
            while i2 < n2
                invariant
                    i2 <= n2 == pos@.len(),
                    in_box(size@, pos@),
                    q@.len() == i2,
                    forall|j: int| 0 <= j < i2 ==> (#[trigger] q@[j]) as int == pos@[j],
                decreases n2 - i2,
            {
                proof {
                    assert(0 <= pos@[i2 as int] < size@[i2 as int]);
                }
                let c: isize = pos.get_idx(i2);
                q.push(c as u64);
                i2 = i2 + 1;
            }
            proof {
                assert(crate::node::uints(q@) =~= pos@);
            }
            let cell: u8 = node.get_cell(&q);
            data.push(cell);
            proof {
                assert forall|pp: Seq<int>|
                    in_box(size@, pp) && 0 <= flatten_spec(size@, pp) < k + 1 implies data@[
                flatten_spec(size@, pp)] == crate::node::node_cell(
                    *node,
                    node.layer as nat,
                    pp,
                ) by {
                    if flatten_spec(size@, pp) == k {
                        lemma_flatten_injective(size@, pp, pos@);
                    }
                }
            }
            k = k + 1;
        }
        let r = NdArray { size, data };
        proof {
            assert forall|pos: Seq<int>| in_box(r.size@, pos) implies r.data@[flatten_spec(
                r.size@,
                pos,
            )] == crate::node::node_cell(*node, node.layer as nat, pos) by {
                lemma_flatten_bounds(r.size@, pos);
            }
        }
        r
    }
}

/// A hypercube's point count is the power of its side length.
proof fn lemma_prod_bounded_by_pow(size: Seq<int>, layer: nat, d: nat)
    requires
        size.len() == d,
        forall|j: int| 0 <= j < size.len() ==> #[trigger] size[j] == vstd::arithmetic::power2::pow2(
            layer,
        ),
        layer * d <= 20,
    ensures
        seq_product(size) <= 0x100000,
        seq_product(size) == vstd::arithmetic::power2::pow2(layer * d),
    decreases d,
{
    vstd::arithmetic::power2::lemma2_to64();
    if d == 0 {
        assert(size =~= Seq::<int>::empty());
    } else {
        assert(forall|j: int|
            0 <= j < size.drop_last().len() ==> #[trigger] size.drop_last()[j] == size[j]);
        let dm = (d - 1) as nat;
        assert(layer * dm <= layer * d && layer * dm + layer == layer * d) by (nonlinear_arith)
            requires
                dm == d - 1,
                d >= 1,
        ;
        lemma_prod_bounded_by_pow(size.drop_last(), layer, dm);
        assert(seq_product(size) == seq_product(size.drop_last()) * size.last());
        vstd::arithmetic::power2::lemma_pow2_adds(layer * dm, layer);
        vstd::arithmetic::power2::lemma_pow2_strictly_increases(layer * d, 21);
        assert(vstd::arithmetic::power2::pow2(21) == 0x200000);
    }
}

impl<'a, T> NdArraySlice<'a, T> {
    /// Returns the rectangle this slice covers: the array's rectangle
    /// shifted so that the offset becomes its origin.
    pub fn rect(&self) -> (r: NdRect<isize>)
        requires
            self.array.wf(),
            self.offset@.len() == self.array.size@.len(),
            forall|i: int|
                0 <= i < self.offset@.len() ==> isize::MIN as int <= -#[trigger] self.offset@[i]
                    && -self.offset@[i] + self.array.size@[i] - 1 <= isize::MAX as int,
        ensures
            r.start@ == Seq::new(self.offset@.len(), |i: int| -self.offset@[i]),
            r.size@ == self.array.size@,
    {
        let n: usize = self.offset.ndim();
        let mut comps: Vec<isize> = Vec::new();
        let mut i: usize = 0;
        while i < n
            invariant
                i <= n == self.offset@.len() == self.array.size@.len(),
                self.array.wf(),
                forall|j: int|
                    0 <= j < self.offset@.len() ==> isize::MIN as int
                        <= -#[trigger] self.offset@[j] && -self.offset@[j]
                        + self.array.size@[j] - 1 <= isize::MAX as int,
                comps@.len() == i,
                forall|j: int|
                    0 <= j < i ==> (#[trigger] comps@[j]) as int == -self.offset@[j],
            decreases n - i,
        {
            let o: isize = self.offset.get_idx(i);
            comps.push(-o);
            i = i + 1;
        }
        let start: IVec = NdVec::from_components(comps);
        let size: IVec = self.array.size.as_ivec();
        proof {
            assert(start@ =~= Seq::new(self.offset@.len(), |i: int| -self.offset@[i]));
        }
        NdRect::new(start, size)
    }
}

impl NdRect<isize> {
    /// Returns every position of this integer rectangle, ordered by
    /// flattened index (the first axis varies fastest).
    pub fn iter(&self) -> (r: Vec<IVec>)
        requires
            self.wf(),
            seq_product(self.size@) <= usize::MAX,
            forall|i: int| 0 <= i < self.size@.len() ==> #[trigger] self.size@[i] <= isize::MAX as int,
        ensures
            r@.len() == seq_product(self.size@),
            forall|k: int|
                0 <= k < r@.len() ==> self.spec_contains(#[trigger] r@[k]@) && flatten_spec(
                    self.size@,
                    Seq::new(self.size@.len(), |i: int| r@[k]@[i] - self.start@[i]),
                ) == k,
    {
        let ghost sz = self.size@;
        proof {
            assert(forall|i: int| 0 <= i < sz.len() ==> #[trigger] sz[i] >= 1);
            lemma_prod_prefix(sz, sz.len() as int);
            assert(sz.take(sz.len() as int) =~= sz);
        }
        let mut usz: Vec<usize> = Vec::new();
        let n: usize = self.size.ndim();
        let mut i: usize = 0;
        while i < n
            invariant
                i <= n == self.size@.len(),
                self.wf(),
                usz@.len() == i,
                forall|j: int| 0 <= j < i ==> (#[trigger] usz@[j]) as int == self.size@[j],
            decreases n - i,
        {
            let s: isize = self.size.get_idx(i);
            usz.push(s as usize);
            i = i + 1;
        }
        let sizes: UVec = NdVec::from_components(usz);
        proof {
            assert(sizes@ =~= self.size@);
        }
        let total: usize = {
            proof {
                assert(forall|k: int|
                    0 <= k <= sizes@.len() ==> 1 <= seq_product(#[trigger] sizes@.take(k))
                        <= seq_product(sizes@)) by {
                    assert forall|k: int|
                        0 <= k <= sizes@.len() implies 1 <= seq_product(
                        #[trigger] sizes@.take(k),
                    ) <= seq_product(sizes@) by {
                        lemma_prod_prefix(sizes@, k);
                    }
                }
            }
            sizes.product()
        };
        let mut out: Vec<IVec> = Vec::new();
        let mut k: usize = 0;
        while k < total
            invariant
                k <= total,
                total == seq_product(self.size@),
                sizes@ == self.size@,
                1 <= self.size@.len() <= 6,
                self.wf(),
                seq_product(self.size@) <= usize::MAX,
                forall|i2: int|
                    0 <= i2 < self.size@.len() ==> #[trigger] self.size@[i2]
                        <= isize::MAX as int,
                out@.len() == k,
                forall|k2: int|
                    0 <= k2 < k ==> self.spec_contains(#[trigger] out@[k2]@) && flatten_spec(
                        self.size@,
                        Seq::new(self.size@.len(), |i2: int| out@[k2]@[i2] - self.start@[i2]),
                    ) == k2,
            decreases total - k,
        {
            let digits: IVec = unflatten_idx(&sizes, k);
            let n2: usize = digits.ndim();
            let mut comps: Vec<isize> = Vec::new();
            let mut i2: usize = 0;
            proof {
                self.start.in_range_all();
            }
            while i2 < n2
                invariant
                    i2 <= n2 == digits@.len() == self.start@.len() == self.size@.len(),
                    self.wf(),
                    in_box(self.size@, digits@),
                    forall|j: int|
                        0 <= j < self.start@.len() ==> isize::MIN as int
                            <= #[trigger] self.start@[j] <= isize::MAX as int,
                    comps@.len() == i2,
                    forall|j: int|
                        0 <= j < i2 ==> (#[trigger] comps@[j]) as int == self.start@[j]
                            + digits@[j],
                decreases n2 - i2,
            {
                let a: isize = self.start.get_idx(i2);
                let b: isize = digits.get_idx(i2);
                proof {
                    assert(0 <= digits@[i2 as int] < self.size@[i2 as int]);
                    assert(self.start@[i2 as int] + self.size@[i2 as int] - 1
                        <= isize::MAX as int);
                }
                comps.push(a + b);
                i2 = i2 + 1;
            }
            let pos: IVec = NdVec::from_components(comps);
            proof {
                assert(pos@ =~= Seq::new(self.size@.len(), |j: int| self.start@[j] + digits@[j]));
                assert(Seq::new(self.size@.len(), |j: int| pos@[j] - self.start@[j]) =~= digits@);
            }
            out.push(pos);
            k = k + 1;
        }
        out
    }
}

} // verus!
