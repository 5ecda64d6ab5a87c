//! Nodes of the N-dimensional tree.
//!
//! A node at layer `L` represents a hypercube of side `2^L` cells; its
//! `2^ndim` branches are the sub-hypercubes of side `2^(L-1)`, where the
//! branch index packs one bit per axis (most significant bit first, in
//! axis order).  A branch is either an interned subnode or, below layer 1,
//! a single leaf cell.
//!
//! Every node carries its cached structural hash and its cached population
//! (number of non-default cells, saturating at `u64::MAX`); both are pinned
//! down by the well-formedness predicate `wf_branch`.

use std::rc::Rc;
use vstd::prelude::*;
use vstd::arithmetic::power2::pow2;
use vstd::arithmetic::power2::lemma_pow2_unfold;
use vstd::arithmetic::power2::lemma_pow2_pos;
use vstd::arithmetic::power2::lemma_pow2_strictly_increases;
use vstd::arithmetic::power2::lemma2_to64;
use vstd::arithmetic::power2::lemma2_to64_rest;

use crate::cache::seahash_of;

verus! {

/// The greatest layer a node may have: a layer-64 node spans the whole
/// range that `i64` coordinates can address.
pub const MAX_LAYER: usize = 64;

/// The default (background) cell state.
pub const DEFAULT_CELL: u8 = 0;

/// An `NdTreeNode`'s child: either a single cell (below layer 1) or an
/// interned subnode.
#[derive(Debug, PartialEq, Eq)]
#[verifier::ext_equal]
pub enum NdTreeBranch {
    /// A single cell of the given state, at layer 0.
    Leaf(u8),
    /// An interned subnode at some layer >= 1.
    Node(Rc<NdTreeNode>),
}

/// A single node in the tree: its layer (base-2 logarithm of hypercube
/// side length), its dimension count, its `2^ndim` branches, and its
/// cached structural hash and population.
#[derive(Debug, PartialEq, Eq)]
#[verifier::ext_equal]
pub struct NdTreeNode {
    /// The base-2 logarithm of the hypercube side length; at least 1.
    pub layer: usize,
    /// The number of dimensions, in `1..=6`.
    pub ndim: usize,
    /// The `2^ndim` branches, one layer lower, in branch-index order.
    pub branches: Vec<NdTreeBranch>,
    /// The structural hash of `(layer, branches)`.
    pub hash_code: u64,
    /// The number of non-default cells, saturating at `u64::MAX`.
    pub population: u64,
}

impl core::hash::Hash for NdTreeNode {
    /// Relies on Hasher::write_u64: nodes hash by their cached
    /// structural hash, which equal node values share, so hashing never
    /// walks the (shared, exponentially large) subtree.
    #[verifier::external_body]
    fn hash<H: core::hash::Hasher>(&self, state: &mut H) {
        state.write_u64(self.hash_code);
    }
}

/// The layer that a branch stands at: 0 for a leaf, the node's own layer
/// otherwise.
pub open spec fn spec_branch_layer(b: NdTreeBranch) -> nat {
    match b {
        NdTreeBranch::Leaf(_) => 0,
        NdTreeBranch::Node(n) => n.layer as nat,
    }
}

/// One bit of a branch index: 1 when the coordinate lies in the upper
/// half of the node along its axis.
pub open spec fn ge_bit(x: int, half: int) -> int {
    if x >= half {
        1
    } else {
        0
    }
}

/// Packs one upper-half bit per coordinate into a branch index, most
/// significant bit first.
pub open spec fn pack_bits(q: Seq<int>, half: int) -> int
    decreases q.len(),
{
    if q.len() == 0 {
        0
    } else {
        pack_bits(q.drop_last(), half) * 2 + ge_bit(q.last(), half)
    }
}

/// Maps each coordinate into the half-cube it selected: coordinates in
/// the upper half have the half side length subtracted.
pub open spec fn reduce_seq(q: Seq<int>, half: int) -> Seq<int> {
    q.map_values(|x: int| x - half * ge_bit(x, half))
}

/// True when every coordinate lies in `[0, side)`.
pub open spec fn in_cube(q: Seq<int>, side: int) -> bool {
    forall|i: int| 0 <= i < q.len() ==> 0 <= #[trigger] q[i] < side
}

/// The cell state of a node at local position `q`, where each coordinate
/// of `q` lies in `[0, 2^layer)`.
pub open spec fn node_cell(n: NdTreeNode, layer: nat, q: Seq<int>) -> u8
    decreases layer, 0int,
{
    if layer == 0 {
        DEFAULT_CELL
    } else {
        let half = pow2((layer - 1) as nat) as int;
        let idx = pack_bits(q, half);
        if 0 <= idx < n.branches@.len() {
            branch_cell(n.branches@[idx], (layer - 1) as nat, reduce_seq(q, half))
        } else {
            DEFAULT_CELL
        }
    }
}

/// The cell state of a branch at local position `q`, where each
/// coordinate of `q` lies in `[0, 2^layer)`.
pub open spec fn branch_cell(b: NdTreeBranch, layer: nat, q: Seq<int>) -> u8
    decreases layer, 1int,
{
    match b {
        NdTreeBranch::Leaf(c) => c,
        NdTreeBranch::Node(n) => node_cell(*n, layer, q),
    }
}

/// The exact population (count of non-default cells) of a node whose
/// branches stand at the given layer.
pub open spec fn node_pop(n: NdTreeNode, branch_layer: nat) -> nat
    decreases branch_layer, 2int, 0int,
{
    tally_pops(n.branches@, branch_layer)
}

/// The exact population of the branches of a sequence, each at the given
/// layer.
pub open spec fn tally_pops(s: Seq<NdTreeBranch>, layer: nat) -> nat
    decreases layer, 1int, s.len(),
{
    if s.len() == 0 {
        0
    } else {
        tally_pops(s.drop_last(), layer) + branch_pop(s.last(), layer)
    }
}

/// The exact population of one branch at the given layer.
pub open spec fn branch_pop(b: NdTreeBranch, layer: nat) -> nat
    decreases layer, 0int, 0int,
{
    match b {
        NdTreeBranch::Leaf(c) => if c == DEFAULT_CELL {
            0
        } else {
            1
        },
        NdTreeBranch::Node(n) => if layer == 0 {
            0
        } else {
            node_pop(*n, (layer - 1) as nat)
        },
    }
}

/// Saturates a mathematical count at `u64::MAX`.
pub open spec fn sat64(x: nat) -> nat {
    if x > u64::MAX {
        u64::MAX as nat
    } else {
        x
    }
}

/// The little-endian bytes of a 64-bit value.
pub open spec fn u64_le(x: u64) -> Seq<u8> {
    seq![
        (x as int % 256) as u8,
        (x as int / 256 % 256) as u8,
        (x as int / 0x10000 % 256) as u8,
        (x as int / 0x1000000 % 256) as u8,
        (x as int / 0x100000000 % 256) as u8,
        (x as int / 0x10000000000 % 256) as u8,
        (x as int / 0x1000000000000 % 256) as u8,
        (x as int / 0x100000000000000 % 256) as u8,
    ]
}

/// The bytes a single branch contributes to its parent's hash: a tag
/// byte, then the leaf cell or the child's cached hash.
pub open spec fn branch_encoding(b: NdTreeBranch) -> Seq<u8> {
    match b {
        NdTreeBranch::Leaf(c) => seq![0u8, c],
        NdTreeBranch::Node(n) => seq![1u8] + u64_le(n.hash_code),
    }
}

/// The concatenated encodings of a sequence of branches.
pub open spec fn branches_bytes(s: Seq<NdTreeBranch>) -> Seq<u8>
    decreases s.len(),
{
    if s.len() == 0 {
        Seq::empty()
    } else {
        branches_bytes(s.drop_last()) + branch_encoding(s.last())
    }
}

/// The bytes a node's structural hash is computed over: its layer, then
/// its branch encodings.
pub open spec fn node_bytes(layer: nat, s: Seq<NdTreeBranch>) -> Seq<u8> {
    u64_le(layer as u64) + branches_bytes(s)
}

/// Well-formedness of a branch standing at the given layer of a
/// `ndim`-dimensional tree: leaves stand at layer 0; a node's branches
/// stand one layer lower.
pub open spec fn wf_branch(b: NdTreeBranch, ndim: nat, layer: nat) -> bool
    decreases layer, 1int,
{
    match b {
        NdTreeBranch::Leaf(_) => layer == 0,
        NdTreeBranch::Node(n) => wf_node_at(*n, ndim, layer),
    }
}

/// Well-formedness of a node standing at the given layer: its branches
/// stand one layer lower, and its cached hash and population match its
/// structure.
pub open spec fn wf_node_at(n: NdTreeNode, ndim: nat, layer: nat) -> bool
    decreases layer, 0int,
{
    &&& 1 <= layer <= MAX_LAYER
    &&& 1 <= ndim <= 6
    &&& n.layer == layer
    &&& n.ndim == ndim
    &&& n.branches@.len() == pow2(ndim)
    &&& (forall|i: int|
        0 <= i < n.branches@.len() ==> wf_branch(
            #[trigger] n.branches@[i],
            ndim,
            (layer - 1) as nat,
        ))
    &&& n.population as nat == sat64(node_pop(n, (layer - 1) as nat))
    &&& n.hash_code == seahash_of(node_bytes(layer, n.branches@))
}

/// Well-formedness of a node at its own recorded layer.
pub open spec fn wf_node(n: NdTreeNode) -> bool {
    wf_node_at(n, n.ndim as nat, n.layer as nat)
}

/// The mathematical values of a vector of unsigned local coordinates.
pub open spec fn uints(s: Seq<u64>) -> Seq<int> {
    s.map_values(|x: u64| x as int)
}

/// A branch index always lies below `2^(number of axes)`.
pub proof fn lemma_pack_bounds(q: Seq<int>, half: int)
    ensures
        0 <= pack_bits(q, half) < pow2(q.len()),
    decreases q.len(),
{
    if q.len() == 0 {
        lemma2_to64();
    } else {
        lemma_pack_bounds(q.drop_last(), half);
        lemma_pow2_unfold(q.len());
    }
}

/// Equal branch indices mean equal upper-half bits on every axis.
pub proof fn lemma_pack_inj(a: Seq<int>, b: Seq<int>, half: int)
    requires
        a.len() == b.len(),
        pack_bits(a, half) == pack_bits(b, half),
    ensures
        forall|i: int| 0 <= i < a.len() ==> ge_bit(a[i], half) == ge_bit(b[i], half),
    decreases a.len(),
{
    if a.len() > 0 {
        assert(0 <= ge_bit(a.last(), half) <= 1);
        assert(0 <= ge_bit(b.last(), half) <= 1);
        assert(ge_bit(a.last(), half) == ge_bit(b.last(), half));
        lemma_pack_inj(a.drop_last(), b.drop_last(), half);
        assert forall|i: int| 0 <= i < a.len() implies ge_bit(a[i], half) == ge_bit(
            b[i],
            half,
        ) by {
            if i < a.len() - 1 {
                assert(a.drop_last()[i] == a[i]);
                assert(b.drop_last()[i] == b[i]);
            }
        }
    }
}

/// Pointwise equal upper-half bits give equal branch indices.
pub proof fn lemma_pack_eq(a: Seq<int>, ha: int, b: Seq<int>, hb: int)
    requires
        a.len() == b.len(),
        forall|i: int| 0 <= i < a.len() ==> ge_bit(a[i], ha) == ge_bit(b[i], hb),
    ensures
        pack_bits(a, ha) == pack_bits(b, hb),
    decreases a.len(),
{
    if a.len() > 0 {
        assert(forall|i: int|
            0 <= i < a.drop_last().len() ==> #[trigger] a.drop_last()[i] == a[i]);
        assert(forall|i: int|
            0 <= i < b.drop_last().len() ==> #[trigger] b.drop_last()[i] == b[i]);
        lemma_pack_eq(a.drop_last(), ha, b.drop_last(), hb);
        assert(ge_bit(a.last(), ha) == ge_bit(b.last(), hb));
    }
}

/// Branch indices sum to `2^len - 1` exactly when the upper-half bits
/// are complementary on every axis.
pub proof fn lemma_pack_sum_complement(a: Seq<int>, ha: int, b: Seq<int>, hb: int)
    requires
        a.len() == b.len(),
    ensures
        (pack_bits(a, ha) + pack_bits(b, hb) == pow2(a.len()) - 1) <==> (forall|i: int|
            0 <= i < a.len() ==> ge_bit(a[i], ha) + ge_bit(b[i], hb) == 1),
    decreases a.len(),
{
    lemma_pack_bounds(a, ha);
    lemma_pack_bounds(b, hb);
    if a.len() == 0 {
        lemma2_to64();
    } else {
        assert(forall|i: int|
            0 <= i < a.drop_last().len() ==> #[trigger] a.drop_last()[i] == a[i]);
        assert(forall|i: int|
            0 <= i < b.drop_last().len() ==> #[trigger] b.drop_last()[i] == b[i]);
        lemma_pack_sum_complement(a.drop_last(), ha, b.drop_last(), hb);
        lemma_pack_bounds(a.drop_last(), ha);
        lemma_pack_bounds(b.drop_last(), hb);
        lemma_pow2_unfold(a.len());
        assert(0 <= ge_bit(a.last(), ha) <= 1);
        assert(0 <= ge_bit(b.last(), hb) <= 1);
        if (pack_bits(a, ha) + pack_bits(b, hb) == pow2(a.len()) - 1) {
            assert(ge_bit(a.last(), ha) + ge_bit(b.last(), hb) == 1);
            assert forall|i: int| 0 <= i < a.len() implies ge_bit(a[i], ha) + ge_bit(
                b[i],
                hb,
            ) == 1 by {
                if i < a.len() - 1 {
                    assert(pack_bits(a.drop_last(), ha) + pack_bits(b.drop_last(), hb) == pow2(
                        a.drop_last().len(),
                    ) - 1);
                    assert(ge_bit(a.drop_last()[i], ha) + ge_bit(b.drop_last()[i], hb) == 1);
                    assert(a.drop_last()[i] == a[i]);
                    assert(b.drop_last()[i] == b[i]);
                }
            }
        }
        if (forall|i: int| 0 <= i < a.len() ==> ge_bit(a[i], ha) + ge_bit(b[i], hb) == 1) {
            assert(ge_bit(a.last(), ha) + ge_bit(b.last(), hb) == 1);
        }
    }
}

/// Reducing coordinates from a cube of side `2^layer` lands them in the
/// cube of side `2^(layer-1)`.
pub proof fn lemma_reduce_in_cube(q: Seq<int>, layer: nat)
    requires
        layer >= 1,
        in_cube(q, pow2(layer) as int),
    ensures
        in_cube(
            reduce_seq(q, pow2((layer - 1) as nat) as int),
            pow2((layer - 1) as nat) as int,
        ),
{
    lemma_pow2_unfold(layer);
    let half = pow2((layer - 1) as nat) as int;
    assert forall|i: int|
        0 <= i < reduce_seq(q, half).len() implies 0 <= #[trigger] reduce_seq(q, half)[i]
        < half by {
        assert(reduce_seq(q, half)[i] == q[i] - half * ge_bit(q[i], half));
        assert(0 <= q[i] < pow2(layer));
    }
}

/// Two in-range positions with the same branch index and the same
/// reduced coordinates are the same position.
pub proof fn lemma_reduce_recover(a: Seq<int>, b: Seq<int>, half: int)
    requires
        a.len() == b.len(),
        pack_bits(a, half) == pack_bits(b, half),
        reduce_seq(a, half) == reduce_seq(b, half),
    ensures
        a == b,
{
    lemma_pack_inj(a, b, half);
    assert forall|i: int| 0 <= i < a.len() implies a[i] == b[i] by {
        assert(reduce_seq(a, half)[i] == a[i] - half * ge_bit(a[i], half));
        assert(reduce_seq(b, half)[i] == b[i] - half * ge_bit(b[i], half));
    }
    assert(a =~= b);
}

/// The population of one branch never exceeds the tally of a sequence
/// that contains it.
pub proof fn lemma_pop_le_tally(s: Seq<NdTreeBranch>, layer: nat, i: int)
    requires
        0 <= i < s.len(),
    ensures
        branch_pop(s[i], layer) <= tally_pops(s, layer),
    decreases s.len(),
{
    if i < s.len() - 1 {
        lemma_pop_le_tally(s.drop_last(), layer, i);
        assert(s.drop_last()[i] == s[i]);
    }
}

/// A branch with population zero shows the default state everywhere.
pub proof fn lemma_zero_pop_cells(b: NdTreeBranch, ndim: nat, layer: nat, q: Seq<int>)
    requires
        wf_branch(b, ndim, layer),
        branch_pop(b, layer) == 0,
    ensures
        branch_cell(b, layer, q) == DEFAULT_CELL,
    decreases layer,
{
    match b {
        NdTreeBranch::Leaf(c) => {
        },
        NdTreeBranch::Node(n) => {
            let half = pow2((layer - 1) as nat) as int;
            let idx = pack_bits(q, half);
            lemma_pack_bounds(q, half);
            if 0 <= idx < n.branches@.len() {
                assert(wf_branch(n.branches@[idx], ndim, (layer - 1) as nat));
                lemma_pop_le_tally(n.branches@, (layer - 1) as nat, idx);
                lemma_zero_pop_cells(
                    n.branches@[idx],
                    ndim,
                    (layer - 1) as nat,
                    reduce_seq(q, half),
                );
            }
        },
    }
}

/// `pow2` is monotone.
pub proof fn lemma_pow2_le_mono(a: nat, b: nat)
    requires
        a <= b,
    ensures
        pow2(a) <= pow2(b),
{
    if a < b {
        lemma_pow2_strictly_increases(a, b);
    }
}

/// The cached population of every well-formed node is the sum of its
/// children's populations (saturating at `u64::MAX`); a leaf's population
/// is one exactly when its cell differs from the default state.  The
/// recurrence below exposes the sum child by child.
pub proof fn lemma_population_sum(s: Seq<NdTreeBranch>, layer: nat, k: int)
    requires
        0 <= k < s.len(),
    ensures
        tally_pops(s.take(k + 1), layer) == tally_pops(s.take(k), layer) + branch_pop(
            s[k],
            layer,
        ),
        branch_pop(s[k], layer) == match s[k] {
            NdTreeBranch::Leaf(c) => if c == DEFAULT_CELL {
                0int
            } else {
                1int
            },
            NdTreeBranch::Node(n) => if layer == 0 {
                0int
            } else {
                tally_pops(n.branches@, (layer - 1) as nat) as int
            },
        },
{
    assert(s.take(k + 1).drop_last() =~= s.take(k));
    assert(s.take(k + 1).last() == s[k]);
}

/// Computes `2^k` as a 64-bit value.
pub fn pow2_u64(k: usize) -> (r: u64)
    requires
        k <= 63,
    ensures
        r == pow2(k as nat),
{
    proof {
        lemma2_to64();
    }
    let mut r: u64 = 1;
    let mut i: usize = 0;
    while i < k
        invariant
            i <= k <= 63,
            r == pow2(i as nat),
            r <= 0x8000000000000000u64,
        decreases k - i,
    {
        proof {
            lemma_pow2_unfold((i + 1) as nat);
            lemma_pow2_le_mono(i as nat, 62);
            lemma2_to64();
            lemma2_to64_rest();
        }
        r = r * 2;
        i = i + 1;
    }
    r
}

impl NdTreeNode {
    /// Returns this node's layer (base-2 logarithm of its side length).
    pub fn layer(&self) -> (r: usize)
        ensures
            r == self.layer,
    {
        self.layer
    }

    /// Returns this node's branches.
    pub fn branches(&self) -> (r: &Vec<NdTreeBranch>)
        ensures
            r@ == self.branches@,
    {
        &self.branches
    }

    /// Returns this node's cached structural hash.
    pub fn hash_code(&self) -> (r: u64)
        ensures
            r == self.hash_code,
    {
        self.hash_code
    }

    /// Returns this node's cached population: the exact count of
    /// non-default cells, saturating at `u64::MAX`.
    pub fn population(&self) -> (r: u64)
        requires
            wf_node(*self),
        ensures
            r as nat == sat64(node_pop(*self, (self.layer - 1) as nat)),
    {
        self.population
    }

    /// Returns the length of a single side of the hypercube this node
    /// covers.
    pub fn len(&self) -> (r: u64)
        requires
            wf_node(*self),
            self.layer <= 63,
        ensures
            r == pow2(self.layer as nat),
    {
        pow2_u64(self.layer)
    }

    /// Returns true iff there are no non-default cells inside this node.
    pub fn is_empty(&self) -> (r: bool)
        requires
            wf_node(*self),
        ensures
            r == (node_pop(*self, (self.layer - 1) as nat) == 0),
    {
        self.population == 0
    }

    /// Returns the cell value at the given local position (one
    /// coordinate per axis, each interpreted within `[0, 2^layer)`).
    #[verifier::rlimit(60)]
    pub fn get_cell(&self, q: &Vec<u64>) -> (r: u8)
        requires
            wf_node(*self),
            q@.len() == self.ndim,
        ensures
            r == node_cell(*self, self.layer as nat, uints(q@)),
        decreases self.layer,
    {
        let half: u64 = pow2_u64(self.layer - 1);
        let idx: usize = pack_index(q, half);
        proof {
            lemma_pack_bounds(uints(q@), half as int);
        }
        let reduced: Vec<u64> = reduce_exec(q, half);
        proof {
            assert(wf_branch(
                self.branches@[idx as int],
                self.ndim as nat,
                (self.layer - 1) as nat,
            ));
            assert(uints(reduced@).len() == reduced@.len());
            assert(reduce_seq(uints(q@), half as int).len() == q@.len());
        }
        match &self.branches[idx] {
            NdTreeBranch::Leaf(c) => *c,
            NdTreeBranch::Node(rc) => rc.get_cell(&reduced),
        }
    }
}

/// Packs one upper-half bit per coordinate into a branch index, most
/// significant bit first.
pub fn pack_index(q: &Vec<u64>, half: u64) -> (r: usize)
    requires
        q@.len() <= 6,
    ensures
        r == pack_bits(uints(q@), half as int),
        r < pow2(q@.len()),
{
    let n: usize = q.len();
    let mut r: usize = 0;
    let mut i: usize = 0;
    proof {
        assert(uints(q@).take(0) =~= Seq::<int>::empty());
        lemma_pack_bounds(uints(q@).take(0), half as int);
    }
    while i < n
        invariant
            i <= n == q@.len() <= 6,
            r == pack_bits(uints(q@).take(i as int), half as int),
            r < pow2(i as nat),
        decreases n - i,
    {
        proof {
            lemma_pow2_unfold((i + 1) as nat);
            lemma_pow2_le_mono((i + 1) as nat, 6);
            lemma2_to64();
            assert(uints(q@).take(i + 1).drop_last() =~= uints(q@).take(i as int));
            assert(uints(q@).take(i + 1).last() == uints(q@)[i as int]);
            assert(uints(q@)[i as int] == q@[i as int] as int);
        }
        let bit: usize = if q[i] >= half {
            1
        } else {
            0
        };
        r = r * 2 + bit;
        i = i + 1;
    }
    proof {
        assert(uints(q@).take(n as int) =~= uints(q@));
    }
    r
}

/// Maps each local coordinate into the half-cube it selected.
pub fn reduce_exec(q: &Vec<u64>, half: u64) -> (r: Vec<u64>)
    ensures
        uints(r@) == reduce_seq(uints(q@), half as int),
{
    let n: usize = q.len();
    let mut r: Vec<u64> = Vec::new();
    let mut i: usize = 0;
    while i < n
        invariant
            i <= n == q@.len(),
            r@.len() == i,
            forall|j: int|
                0 <= j < i ==> #[trigger] r@[j] as int == uints(q@)[j] - half * ge_bit(
                    uints(q@)[j],
                    half as int,
                ),
        decreases n - i,
    {
        proof {
            assert(uints(q@)[i as int] == q@[i as int] as int);
        }
        let x: u64 = q[i];
        r.push(if x >= half {
            x - half
        } else {
            x
        });
        i = i + 1;
    }
    proof {
        assert(uints(r@) =~= reduce_seq(uints(q@), half as int));
    }
    r
}

/// Returns a branch standing for the same value as the given one,
/// sharing the subnode.
pub fn branch_dup(b: &NdTreeBranch) -> (r: NdTreeBranch)
    ensures
        r == *b,
{
    match b {
        NdTreeBranch::Leaf(c) => NdTreeBranch::Leaf(*c),
        NdTreeBranch::Node(rc) => NdTreeBranch::Node(rc_clone(rc)),
    }
}

/// Relies on Rc::clone: cloning a reference-counted pointer yields a
/// pointer to the same allocation, hence to the same value.
#[verifier::external_body]
pub fn rc_clone(rc: &Rc<NdTreeNode>) -> (r: Rc<NdTreeNode>)
    ensures
        r == *rc,
{
    rc.clone()
}

/// Returns the layer a branch stands at.
pub fn branch_layer(b: &NdTreeBranch) -> (r: usize)
    requires
        spec_branch_layer(*b) <= MAX_LAYER,
    ensures
        r == spec_branch_layer(*b),
{
    match b {
        NdTreeBranch::Leaf(_) => 0,
        NdTreeBranch::Node(rc) => rc.layer,
    }
}

/// Returns true iff there are no non-default cells inside this branch.
pub fn branch_is_empty(b: &NdTreeBranch, layer: usize) -> (r: bool)
    requires
        wf_branch(*b, arbitrary_ndim_of(*b), layer as nat),
    ensures
        r == (branch_pop(*b, layer as nat) == 0),
{
    match b {
        NdTreeBranch::Leaf(c) => *c == DEFAULT_CELL,
        NdTreeBranch::Node(rc) => rc.population == 0,
    }
}

/// The dimension count a branch declares, taking 1 for a leaf.
pub open spec fn arbitrary_ndim_of(b: NdTreeBranch) -> nat {
    match b {
        NdTreeBranch::Leaf(_) => 1,
        NdTreeBranch::Node(n) => n.ndim as nat,
    }
}

/// The node value a reference-counted pointer stands for.
pub open spec fn node_of(rc: Rc<NdTreeNode>) -> NdTreeNode {
    *rc
}

/// A node with population zero shows the default state at every signed
/// position when centered on the origin.
pub proof fn lemma_zero_pop_centered(n: NdTreeNode, ndim: nat, layer: nat, p: Seq<int>)
    requires
        wf_node_at(n, ndim, layer),
        node_pop(n, (layer - 1) as nat) == 0,
    ensures
        centered_cell(n, p) == DEFAULT_CELL,
{
    let half = pow2((n.layer - 1) as nat) as int;
    if p.len() == n.ndim && (forall|i: int| 0 <= i < p.len() ==> -half <= #[trigger] p[i] < half) {
        lemma_zero_pop_cells_node(n, ndim, layer, p.map_values(|x: int| x + half));
    }
}

/// A well-formed branch stands exactly at its recorded layer.
pub proof fn lemma_wf_branch_layer(b: NdTreeBranch, ndim: nat, layer: nat)
    requires
        wf_branch(b, ndim, layer),
    ensures
        spec_branch_layer(b) == layer,
{
}

/// A node with population zero shows the default state everywhere.
pub proof fn lemma_zero_pop_cells_node(n: NdTreeNode, ndim: nat, layer: nat, q: Seq<int>)
    requires
        wf_node_at(n, ndim, layer),
        node_pop(n, (layer - 1) as nat) == 0,
    ensures
        node_cell(n, layer, q) == DEFAULT_CELL,
{
    let half = pow2((layer - 1) as nat) as int;
    let idx = pack_bits(q, half);
    lemma_pack_bounds(q, half);
    if 0 <= idx < n.branches@.len() {
        lemma_pop_le_tally(n.branches@, (layer - 1) as nat, idx);
        lemma_zero_pop_cells(n.branches@[idx], ndim, (layer - 1) as nat, reduce_seq(q, half));
    }
}

/// The cell state a centered node shows at the signed position `p`: the
/// node's hypercube is centered on the origin, so each coordinate ranges
/// over `[-2^(L-1), 2^(L-1))`; positions outside it show the default
/// state.
pub open spec fn centered_cell(n: NdTreeNode, p: Seq<int>) -> u8 {
    let half = pow2((n.layer - 1) as nat) as int;
    if p.len() == n.ndim && (forall|i: int| 0 <= i < p.len() ==> -half <= #[trigger] p[i] < half) {
        node_cell(n, n.layer as nat, p.map_values(|x: int| x + half))
    } else {
        DEFAULT_CELL
    }
}

} // verus!
