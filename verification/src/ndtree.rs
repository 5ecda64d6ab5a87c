//! The N-dimensional tree: a rooted, origin-centered, hash-consed
//! quadtree generalization.
//!
//! The root node's hypercube is centered on the origin, so a root at
//! layer `L` addresses signed coordinates in `[-2^(L-1), 2^(L-1))` along
//! each axis.  Reads outside the root return the default state; writes
//! outside the root grow the tree first.  Every edit is functional: it
//! returns a new tree that shares all untouched branches with the old
//! one through the node cache.

use std::rc::Rc;
use vstd::prelude::*;
use vstd::arithmetic::power2::pow2;
use vstd::arithmetic::power2::lemma_pow2_unfold;
use vstd::arithmetic::power2::lemma_pow2_pos;
use vstd::arithmetic::power2::lemma2_to64;
use vstd::arithmetic::power2::lemma2_to64_rest;

use crate::cache::NdTreeCache;
use crate::node::branch_cell;
use crate::node::branch_dup;
use crate::node::branch_pop;
use crate::node::centered_cell;
use crate::node::lemma_wf_branch_layer;
use crate::node::ge_bit;
use crate::node::in_cube;
use crate::node::lemma_pack_bounds;
use crate::node::lemma_pack_eq;
use crate::node::lemma_pack_inj;
use crate::node::lemma_pack_sum_complement;
use crate::node::lemma_pop_le_tally;
use crate::node::lemma_pow2_le_mono;
use crate::node::lemma_reduce_in_cube;
use crate::node::lemma_reduce_recover;
use crate::node::lemma_zero_pop_cells;
use crate::node::node_cell;
use crate::node::node_of;
use crate::node::node_pop;
use crate::node::node_bytes;
use crate::node::tally_pops;
use crate::cache::seahash_of;
use crate::node::pack_bits;
use crate::node::pack_index;
use crate::node::pow2_u64;
use crate::node::rc_clone;
use crate::node::reduce_exec;
use crate::node::reduce_seq;
use crate::node::spec_branch_layer;
use crate::node::uints;
use crate::node::wf_branch;
use crate::node::wf_node;
use crate::node::wf_node_at;
use crate::node::NdTreeBranch;
use crate::node::NdTreeNode;
use crate::node::DEFAULT_CELL;
use crate::node::MAX_LAYER;

verus! {

impl NdTreeNode {
    /// Constructs a new interned node with the cell at the given local
    /// position set to the given state; every other cell keeps its value
    /// and every untouched branch is shared.
    pub fn set_cell(&self, cache: &mut NdTreeCache, q: &Vec<u64>, cell_state: u8) -> (r: Rc<
        NdTreeNode,
    >)
        requires
            old(cache).wf(),
            wf_node(*self),
            self.ndim == old(cache).ndim,
            q@.len() == self.ndim,
            in_cube(uints(q@), pow2(self.layer as nat) as int),
        ensures
            final(cache).wf(),
            final(cache).ndim == old(cache).ndim,
            r.layer == self.layer,
            r.ndim == self.ndim,
            wf_node_at(*r, self.ndim as nat, self.layer as nat),
            forall|q2: Seq<int>|
                q2.len() == self.ndim && in_cube(q2, pow2(self.layer as nat) as int)
                    ==> node_cell(*r, self.layer as nat, q2) == (if q2 == uints(q@) {
                    cell_state
                } else {
                    node_cell(*self, self.layer as nat, q2)
                }),
        decreases self.layer,
    {
        let ghost qi = uints(q@);
        let ghost layer = self.layer as nat;
        let ghost ndim = self.ndim as nat;
        let half: u64 = pow2_u64(self.layer - 1);
        let idx: usize = pack_index(q, half);
        proof {
            lemma_pack_bounds(qi, half as int);
        }
        let reduced: Vec<u64> = reduce_exec(q, half);
        proof {
            lemma_reduce_in_cube(qi, layer);
            assert(uints(reduced@).len() == reduced@.len());
            assert(reduce_seq(qi, half as int).len() == qi.len());
        }
        let count: usize = self.branches.len();
        let mut new_branches: Vec<NdTreeBranch> = Vec::new();
        let mut i: usize = 0;
        while i < count
            invariant
                i <= count == self.branches@.len(),
                idx < count,
                new_branches@.len() == i,
                forall|j: int|
                    0 <= j < i && j != idx ==> #[trigger] new_branches@[j]
                        == self.branches@[j],
            decreases count - i,
        {
            new_branches.push(branch_dup(&self.branches[i]));
            i = i + 1;
        }
        // Replace the branch that holds the target cell.
        proof {
            assert(wf_branch(self.branches@[idx as int], ndim, (layer - 1) as nat));
        }
        let new_branch: NdTreeBranch = match &self.branches[idx] {
            NdTreeBranch::Leaf(_) => NdTreeBranch::Leaf(cell_state),
            NdTreeBranch::Node(rc) => NdTreeBranch::Node(
                rc.set_cell(cache, &reduced, cell_state),
            ),
        };
        new_branches[idx] = new_branch;
        proof {
            assert(forall|j: int|
                0 <= j < new_branches@.len() ==> wf_branch(
                    #[trigger] new_branches@[j],
                    ndim,
                    (layer - 1) as nat,
                ));
            assert(spec_branch_layer(new_branches@[0]) == (layer - 1) as nat);
        }
        let r = cache.get_node(new_branches);
        proof {
            let ghost nb = r.branches@;
            assert forall|q2: Seq<int>|
                q2.len() == self.ndim && in_cube(q2, pow2(layer) as int) implies node_cell(
                *r,
                layer,
                q2,
            ) == (if q2 == qi {
                cell_state
            } else {
                node_cell(*self, layer, q2)
            }) by {
                let idx2 = pack_bits(q2, half as int);
                lemma_pack_bounds(q2, half as int);
                let rq2 = reduce_seq(q2, half as int);
                lemma_reduce_in_cube(q2, layer);
                assert(node_cell(*r, layer, q2) == branch_cell(
                    nb[idx2],
                    (layer - 1) as nat,
                    rq2,
                ));
                assert(node_cell(*self, layer, q2) == branch_cell(
                    self.branches@[idx2],
                    (layer - 1) as nat,
                    rq2,
                ));
                if idx2 == idx as int {
                    lemma_pack_inj(q2, qi, half as int);
                    if q2 == qi {
                        assert(rq2 == reduce_seq(qi, half as int));
                        match self.branches@[idx2] {
                            NdTreeBranch::Leaf(_) => {
                                assert(branch_cell(nb[idx2], (layer - 1) as nat, rq2)
                                    == cell_state);
                            },
                            NdTreeBranch::Node(rc0) => {
                                assert(branch_cell(nb[idx2], (layer - 1) as nat, rq2)
                                    == cell_state);
                            },
                        }
                    } else {
                        match self.branches@[idx2] {
                            NdTreeBranch::Leaf(c0) => {
                                // Both positions lie in the same unit cell, so
                                // they must be equal: contradiction.
                                assert(wf_branch(
                                    self.branches@[idx2],
                                    ndim,
                                    (layer - 1) as nat,
                                ));
                                assert(layer == 1);
                                lemma2_to64();
                                assert(half == 1);
                                assert(pow2(layer) == 2);
                                assert forall|k: int| 0 <= k < q2.len() implies q2[k] == qi[k] by {
                                    assert(0 <= q2[k] < 2);
                                    assert(0 <= qi[k] < 2);
                                    assert(ge_bit(q2[k], 1) == ge_bit(qi[k], 1));
                                }
                                assert(q2 =~= qi);
                                assert(false);
                            },
                            NdTreeBranch::Node(rc0) => {
                                // The recursive call distinguishes the reduced
                                // positions.
                                if rq2 == reduce_seq(qi, half as int) {
                                    lemma_reduce_recover(q2, qi, half as int);
                                    assert(false);
                                }
                                assert(branch_cell(nb[idx2], (layer - 1) as nat, rq2)
                                    == node_cell(*rc0, (layer - 1) as nat, rq2));
                            },
                        }
                    }
                } else {
                    // Untouched branch: the cell keeps its old value, and the
                    // target position cannot live here.
                    assert(nb[idx2] == self.branches@[idx2]);
                    if q2 == qi {
                        assert(false);
                    }
                }
            }
        }
        r
    }
}

/// The shape of one branch of an expanded node: an inner node holding
/// the old branch in the corner opposite its own position and default
/// cells everywhere else.
pub open spec fn expanded_outer(
    nb: NdTreeBranch,
    old_b: NdTreeBranch,
    ndim: nat,
    layer: nat,
    opp: int,
) -> bool {
    match nb {
        NdTreeBranch::Leaf(_) => false,
        NdTreeBranch::Node(inn) => {
            &&& wf_node_at(*inn, ndim, layer)
            &&& inn.branches@[opp] == old_b
            &&& (forall|k: int|
                0 <= k < inn.branches@.len() && k != opp ==> branch_pop(
                    #[trigger] inn.branches@[k],
                    (layer - 1) as nat,
                ) == 0)
        },
    }
}

impl NdTreeNode {
    /// "Zooms out" by a factor of two: returns an interned node one layer
    /// higher that shows the same cell at every signed position, with the
    /// old contents centered in an otherwise default grid.
    #[verifier::rlimit(100)]
    pub fn expand_centered(&self, cache: &mut NdTreeCache) -> (r: Rc<NdTreeNode>)
        requires
            old(cache).wf(),
            wf_node(*self),
            self.ndim == old(cache).ndim,
            self.layer < MAX_LAYER,
        ensures
            final(cache).wf(),
            final(cache).ndim == old(cache).ndim,
            r.layer == self.layer + 1,
            r.ndim == self.ndim,
            wf_node_at(*r, self.ndim as nat, (self.layer + 1) as nat),
            forall|p: Seq<int>|
                p.len() == self.ndim ==> centered_cell(*r, p) == centered_cell(*self, p),
    {
        let ghost ndim = self.ndim as nat;
        let ghost layer = self.layer as nat;
        let count: usize = self.branches.len();
        proof {
            lemma_pow2_pos(ndim);
        }
        let mask: usize = count - 1;
        let mut new_branches: Vec<NdTreeBranch> = Vec::new();
        let mut b: usize = 0;
        while b < count
            invariant
                b <= count == self.branches@.len(),
                mask == count - 1,
                count == pow2(ndim),
                wf_node(*self),
                self.ndim == ndim,
                self.layer == layer,
                1 <= layer < MAX_LAYER,
                cache.wf(),
                cache.ndim == old(cache).ndim,
                self.ndim == old(cache).ndim,
                new_branches@.len() == b,
                forall|j: int|
                    0 <= j < b ==> expanded_outer(
                        #[trigger] new_branches@[j],
                        self.branches@[j],
                        ndim,
                        layer,
                        mask - j,
                    ),
            decreases count - b,
        {
            proof {
                assert(wf_branch(self.branches@[b as int], ndim, (layer - 1) as nat));
            }
            let mut inner: Vec<NdTreeBranch> = Vec::new();
            let mut k: usize = 0;
            let opp: usize = mask - b;
            while k < count
                invariant
                    k <= count == self.branches@.len(),
                    opp == mask - b,
                    b < count,
                    mask == count - 1,
                    count == pow2(ndim),
                    wf_node(*self),
                    self.ndim == ndim,
                    self.layer == layer,
                    1 <= layer < MAX_LAYER,
                    cache.wf(),
                    cache.ndim == old(cache).ndim,
                    self.ndim == old(cache).ndim,
                    inner@.len() == k,
                    forall|j: int|
                        0 <= j < k ==> wf_branch(
                            #[trigger] inner@[j],
                            ndim,
                            (layer - 1) as nat,
                        ),
                    forall|j: int|
                        0 <= j < k && j != opp ==> branch_pop(
                            #[trigger] inner@[j],
                            (layer - 1) as nat,
                        ) == 0,
                    k > opp ==> inner@[opp as int] == self.branches@[b as int],
                decreases count - k,
            {
                if k == opp {
                    inner.push(branch_dup(&self.branches[b]));
                } else {
                    inner.push(cache.get_empty_branch(self.layer - 1));
                }
                k = k + 1;
            }
            proof {
                crate::node::lemma_wf_branch_layer(inner@[0], ndim, (layer - 1) as nat);
            }
            let inner_rc = cache.get_node(inner);
            new_branches.push(NdTreeBranch::Node(inner_rc));
            b = b + 1;
        }
        proof {
            assert(forall|j: int|
                0 <= j < new_branches@.len() ==> wf_branch(
                    #[trigger] new_branches@[j],
                    ndim,
                    layer,
                ));
            assert(spec_branch_layer(new_branches@[0]) == layer);
        }
        let r = cache.get_node(new_branches);
        proof {
            let ghost rn: NdTreeNode = *r;
            lemma_expand_cells(*self, rn, ndim, layer);
        }
        r
    }
}

impl NdTreeNode {
    /// Constructs a new interned node with the given branches, which
    /// must all stand at one layer; the node stands one layer above.
    pub fn with_branches(cache: &mut NdTreeCache, branches: Vec<NdTreeBranch>) -> (r: Rc<
        NdTreeNode,
    >)
        requires
            old(cache).wf(),
            branches@.len() == pow2(old(cache).ndim as nat),
            spec_branch_layer(branches@[0]) < MAX_LAYER,
            forall|i: int|
                0 <= i < branches@.len() ==> wf_branch(
                    #[trigger] branches@[i],
                    old(cache).ndim as nat,
                    spec_branch_layer(branches@[0]),
                ),
        ensures
            final(cache).wf(),
            final(cache).ndim == old(cache).ndim,
            r.ndim == old(cache).ndim,
            r.layer as nat == spec_branch_layer(branches@[0]) + 1,
            r.branches@ == branches@,
            wf_node_at(*r, old(cache).ndim as nat, (spec_branch_layer(branches@[0]) + 1) as nat),
    {
        cache.get_node(branches)
    }

    /// Returns the minimum layer whose nodes can compute the states of
    /// their inner cells after one step of a rule with the given
    /// neighborhood radius: the node's quarter side must cover the
    /// radius, and the layer is never below 2.
    pub fn min_sim_layer(radius: usize) -> (r: usize)
        requires
            radius <= usize::MAX / 8,
        ensures
            r >= 2,
            radius <= pow2(r as nat) / 4,
            r > 2 ==> radius > pow2((r - 1) as nat) / 4,
    {
        let mut min_layer: usize = 2;
        let mut quarter: usize = 1;
        proof {
            lemma2_to64();
        }
        while radius > quarter
            invariant
                2 <= min_layer <= 63,
                quarter == pow2(min_layer as nat) / 4,
                quarter == pow2((min_layer - 2) as nat),
                min_layer > 2 ==> radius > pow2((min_layer - 1) as nat) / 4,
                radius <= usize::MAX / 8,
            decreases 64 - min_layer,
        {
            proof {
                lemma_pow2_unfold((min_layer - 1) as nat);
                lemma_pow2_unfold(min_layer as nat);
                lemma_pow2_unfold((min_layer + 1) as nat);
                if min_layer + 1 > 63 {
                    crate::node::lemma_pow2_le_mono(61, (min_layer - 2) as nat);
                    lemma2_to64();
                    lemma2_to64_rest();
                    assert(false);
                }
            }
            quarter = quarter * 2;
            min_layer = min_layer + 1;
        }
        min_layer
    }

    /// Returns the base-2 log of the number of generations a node at
    /// the given layer can simulate for a rule with the given radius,
    /// or nothing when the layer is too small.
    pub fn max_gen_exp_at_layer(layer: usize, radius: usize) -> (r: Option<usize>)
        requires
            radius <= usize::MAX / 8,
        ensures
            match r {
                Some(e) => layer >= 2 && radius <= pow2(layer as nat) / 4 && e + 2 <= layer,
                None => layer < 2 || radius > pow2(layer as nat) / 4,
            },
    {
        let min_layer: usize = Self::min_sim_layer(radius);
        if layer >= min_layer {
            proof {
                if !(radius <= pow2(layer as nat) / 4) {
                    crate::node::lemma_pow2_le_mono(min_layer as nat, layer as nat);
                    vstd::arithmetic::div_mod::lemma_div_is_ordered(
                        pow2(min_layer as nat) as int,
                        pow2(layer as nat) as int,
                        4,
                    );
                }
            }
            Some(layer - min_layer)
        } else {
            proof {
                if layer >= 2 && radius <= pow2(layer as nat) / 4 {
                    crate::node::lemma_pow2_le_mono(layer as nat, (min_layer - 1) as nat);
                    vstd::arithmetic::div_mod::lemma_div_is_ordered(
                        pow2(layer as nat) as int,
                        pow2((min_layer - 1) as nat) as int,
                        4,
                    );
                }
            }
            None
        }
    }

    /// Returns the base-2 log of the number of generations this node
    /// can simulate for a rule with the given radius.
    pub fn max_gen_exp(&self, radius: usize) -> (r: Option<usize>)
        requires
            radius <= usize::MAX / 8,
        ensures
            match r {
                Some(e) => self.layer >= 2 && radius <= pow2(self.layer as nat) / 4 && e + 2
                    <= self.layer,
                None => self.layer < 2 || radius > pow2(self.layer as nat) / 4,
            },
    {
        Self::max_gen_exp_at_layer(self.layer, radius)
    }

    /// Returns true when this node's origin-centered hypercube contains
    /// the given signed position.
    pub fn contains(&self, pos: &crate::ndvec::BigVec) -> (r: bool)
        requires
            wf_node(*self),
            pos@.len() == self.ndim,
        ensures
            r == (forall|i: int|
                0 <= i < pos@.len() ==> -(pow2((self.layer - 1) as nat) as int)
                    <= #[trigger] pos@[i] < pow2((self.layer - 1) as nat) as int),
    {
        let half: u64 = pow2_u64(self.layer - 1);
        let hi: i128 = half as i128;
        let n: usize = pos.ndim();
        let mut i: usize = 0;
        while i < n
            invariant
                i <= n == pos@.len(),
                hi == pow2((self.layer - 1) as nat),
                forall|j: int| 0 <= j < i ==> -hi <= #[trigger] pos@[j] < hi,
            decreases n - i,
        {
            let c: i64 = pos.get_idx(i);
            if (c as i128) < -hi || (c as i128) >= hi {
                return false;
            }
            i = i + 1;
        }
        true
    }
}

/// An N-dimensional tree: a rooted interned node whose hypercube is
/// centered on the origin.  All edits are functional and share structure
/// through the node cache.
pub struct NdTree {
    /// The root node; it always covers the origin-centered hypercube of
    /// side `2^layer`.
    pub root: Rc<NdTreeNode>,
}

impl NdTree {
    /// A tree is valid when its root is a well-formed node.
    pub open spec fn wf(self) -> bool {
        wf_node(*self.root)
    }

    /// The number of dimensions of this tree.
    pub open spec fn spec_ndim(self) -> int {
        self.root.ndim as int
    }

    /// The cell state this tree shows at the signed position `p`;
    /// positions outside the root's hypercube show the default state.
    pub open spec fn cell(self, p: Seq<int>) -> u8 {
        centered_cell(*self.root, p)
    }

    /// Creates a new empty N-dimensional tree over the given cache.
    pub fn new(cache: &mut NdTreeCache) -> (t: NdTree)
        requires
            old(cache).wf(),
        ensures
            final(cache).wf(),
            final(cache).ndim == old(cache).ndim,
            t.wf(),
            t.spec_ndim() == old(cache).ndim,
            t.root.layer == 1,
            forall|p: Seq<int>| t.cell(p) == DEFAULT_CELL,
    {
        let root = cache.get_empty_node(1);
        let t = NdTree { root };
        proof {
            assert forall|p: Seq<int>| t.cell(p) == DEFAULT_CELL by {
                crate::node::lemma_zero_pop_centered(node_of(t.root), old(cache).ndim as nat, 1, p);
                assert(t.cell(p) == centered_cell(node_of(t.root), p));
            }
        }
        t
    }

    /// Returns the number of dimensions of this tree.
    pub fn ndim(&self) -> (r: usize)
        ensures
            r == self.spec_ndim(),
    {
        self.root.ndim
    }

    /// Returns a strong reference to the root node.
    pub fn get_root(&self) -> (r: Rc<NdTreeNode>)
        ensures
            *r == *self.root,
    {
        rc_clone(&self.root)
    }

    /// Returns the number of non-default cells in this tree, saturating
    /// at `u64::MAX`.
    pub fn population(&self) -> (r: u64)
        requires
            self.wf(),
        ensures
            r as nat == crate::node::sat64(node_pop(*self.root, (self.root.layer - 1) as nat)),
    {
        self.root.population
    }

    /// Returns the cell state at the given signed position; positions
    /// outside the root's hypercube show the default state.
    pub fn get_cell(&self, pos: &crate::ndvec::BigVec) -> (r: u8)
        requires
            self.wf(),
            pos@.len() == self.spec_ndim(),
        ensures
            r == self.cell(pos@),
    {
        let layer: usize = self.root.layer;
        let half: u64 = pow2_u64(layer - 1);
        let hi: i128 = half as i128;
        let n: usize = pos.ndim();
        let mut q: Vec<u64> = Vec::new();
        let mut i: usize = 0;
        proof {
            crate::node::lemma_pow2_le_mono((layer - 1) as nat, 63);
            lemma2_to64();
            lemma2_to64_rest();
        }
        while i < n
            invariant
                i <= n == pos@.len(),
                pos@.len() == self.root.ndim,
                self.wf(),
                layer == self.root.layer,
                hi == half as i128,
                half == pow2((layer - 1) as nat),
                half <= 0x8000000000000000u64,
                q@.len() == i,
                forall|j: int| 0 <= j < i ==> -hi <= #[trigger] pos@[j] < hi,
                forall|j: int| 0 <= j < i ==> #[trigger] q@[j] as int == pos@[j] + hi,
            decreases n - i,
        {
            let c: i64 = pos.get_idx(i);
            if (c as i128) < -hi || (c as i128) >= hi {
                proof {
                    assert(!(-(pow2((self.root.layer - 1) as nat) as int) <= pos@[i as int] < pow2(
                        (self.root.layer - 1) as nat,
                    ) as int));
                }
                return DEFAULT_CELL;
            }
            q.push(((c as i128) + hi) as u64);
            i = i + 1;
        }
        let r: u8 = self.root.get_cell(&q);
        proof {
            let ghost hint = pow2((layer - 1) as nat) as int;
            assert(uints(q@) =~= pos@.map_values(|x: int| x + hint));
        }
        r
    }

    /// Returns a new tree with the cell at the given signed position set
    /// to the given state, growing the tree as needed; the old tree is
    /// untouched and shares all unchanged branches with the new one.
    pub fn set_cell(
        &self,
        cache: &mut NdTreeCache,
        pos: &crate::ndvec::BigVec,
        cell_state: u8,
    ) -> (t: NdTree)
        requires
            self.wf(),
            old(cache).wf(),
            self.spec_ndim() == old(cache).ndim,
            pos@.len() == self.spec_ndim(),
        ensures
            final(cache).wf(),
            final(cache).ndim == old(cache).ndim,
            t.wf(),
            t.spec_ndim() == self.spec_ndim(),
            forall|p: Seq<int>|
                p.len() == self.spec_ndim() ==> t.cell(p) == (if p == pos@ {
                    cell_state
                } else {
                    self.cell(p)
                }),
            forall|j: int|
                0 <= j < pos@.len() ==> -(pow2((t.root.layer - 1) as nat) as int)
                    <= #[trigger] pos@[j] < pow2((t.root.layer - 1) as nat) as int,
    {
        let ghost ndim = self.root.ndim as nat;
        let mut root: Rc<NdTreeNode> = rc_clone(&self.root);
        while !root.contains(pos)
            invariant
                cache.wf(),
                cache.ndim == old(cache).ndim,
                self.spec_ndim() == old(cache).ndim,
                wf_node(*root),
                root.ndim == self.root.ndim,
                pos@.len() == self.root.ndim,
                forall|p: Seq<int>|
                    p.len() == self.spec_ndim() ==> centered_cell(*root, p) == self.cell(p),
            decreases MAX_LAYER - root.layer,
        {
            proof {
                if root.layer >= MAX_LAYER {
                    pos.bounds();
                    lemma2_to64();
                    lemma2_to64_rest();
                    assert(pow2(63) == 0x8000000000000000) by {
                        lemma2_to64_rest();
                    }
                    assert(false);
                }
            }
            let bigger = root.expand_centered(cache);
            root = bigger;
        }
        // The root now contains the position: compute local coordinates.
        let layer: usize = root.layer;
        let half: u64 = pow2_u64(layer - 1);
        let hi: i128 = half as i128;
        let n: usize = pos.ndim();
        let mut q: Vec<u64> = Vec::new();
        let mut i: usize = 0;
        proof {
            crate::node::lemma_pow2_le_mono((layer - 1) as nat, 63);
            lemma2_to64();
            lemma2_to64_rest();
        }
        while i < n
            invariant
                i <= n == pos@.len(),
                pos@.len() == root.ndim,
                wf_node(*root),
                layer == root.layer,
                hi == half as i128,
                half == pow2((layer - 1) as nat),
                half <= 0x8000000000000000u64,
                forall|j: int| 0 <= j < pos@.len() ==> -hi <= #[trigger] pos@[j] < hi,
                q@.len() == i,
                forall|j: int| 0 <= j < i ==> #[trigger] q@[j] as int == pos@[j] + hi,
            decreases n - i,
        {
            let c: i64 = pos.get_idx(i);
            q.push(((c as i128) + hi) as u64);
            i = i + 1;
        }
        proof {
            let ghost hint = pow2((layer - 1) as nat) as int;
            assert(uints(q@) =~= pos@.map_values(|x: int| x + hint));
            assert(in_cube(uints(q@), pow2(layer as nat) as int)) by {
                lemma_pow2_unfold(layer as nat);
                assert forall|j: int|
                    0 <= j < uints(q@).len() implies 0 <= #[trigger] uints(q@)[j] < pow2(
                    layer as nat,
                ) as int by {
                    assert(uints(q@)[j] == q@[j] as int);
                    assert(q@[j] as int == pos@[j] + hint);
                }
            }
        }
        let new_root: Rc<NdTreeNode> = root.set_cell(cache, &q, cell_state);
        let t = NdTree { root: new_root };
        proof {
            lemma_tree_set_cell(
                node_of(root),
                node_of(t.root),
                pos@,
                uints(q@),
                cell_state,
                self.root.ndim as nat,
                layer as nat,
            );
        }
        t
    }
}

/// Lifts the node-level pointwise update contract of `set_cell` to the
/// signed, origin-centered coordinates of a tree.
#[verifier::rlimit(100)]
pub proof fn lemma_tree_set_cell(
    grown: NdTreeNode,
    nr: NdTreeNode,
    pos: Seq<int>,
    qi: Seq<int>,
    state: u8,
    ndim: nat,
    layer: nat,
)
    requires
        wf_node_at(grown, ndim, layer),
        wf_node_at(nr, ndim, layer),
        pos.len() == ndim,
        forall|j: int|
            0 <= j < pos.len() ==> -(pow2((layer - 1) as nat) as int) <= #[trigger] pos[j] < pow2(
                (layer - 1) as nat,
            ) as int,
        qi == pos.map_values(|x: int| x + pow2((layer - 1) as nat) as int),
        forall|q2: Seq<int>|
            q2.len() == ndim && in_cube(q2, pow2(layer) as int) ==> node_cell(nr, layer, q2) == (
            if q2 == qi {
                state
            } else {
                node_cell(grown, layer, q2)
            }),
    ensures
        forall|p: Seq<int>|
            p.len() == ndim ==> centered_cell(nr, p) == (if p == pos {
                state
            } else {
                centered_cell(grown, p)
            }),
{
    let hint = pow2((layer - 1) as nat) as int;
    lemma_pow2_unfold(layer);
    assert forall|p: Seq<int>| p.len() == ndim implies centered_cell(nr, p) == (if p == pos {
        state
    } else {
        centered_cell(grown, p)
    }) by {
        let pq = p.map_values(|x: int| x + hint);
        assert(forall|j: int| 0 <= j < p.len() ==> #[trigger] pq[j] == p[j] + hint);
        if (forall|j: int| 0 <= j < p.len() ==> -hint <= #[trigger] p[j] < hint) {
            assert(centered_cell(nr, p) == node_cell(nr, layer, pq));
            assert(centered_cell(grown, p) == node_cell(grown, layer, pq));
            assert(in_cube(pq, pow2(layer) as int)) by {
                assert forall|j: int|
                    0 <= j < pq.len() implies 0 <= #[trigger] pq[j] < pow2(layer) as int by {
                    assert(pq[j] == p[j] + hint);
                }
            }
            if p == pos {
                assert(pq =~= qi);
            } else {
                assert(pq != qi) by {
                    if pq == qi {
                        assert forall|j: int| 0 <= j < p.len() implies p[j] == pos[j] by {
                            assert(pq[j] == p[j] + hint);
                            assert(qi[j] == pos[j] + hint);
                        }
                        assert(p =~= pos);
                    }
                }
            }
        } else {
            // Outside the root: both trees show the default state, and
            // the written position is inside the root.
            let j = choose|j: int| 0 <= j < p.len() && !(-hint <= #[trigger] p[j] < hint);
            assert(centered_cell(nr, p) == DEFAULT_CELL);
            assert(centered_cell(grown, p) == DEFAULT_CELL);
            assert(p != pos) by {
                if p == pos {
                    assert(-hint <= pos[j] < hint);
                }
            }
        }
    }
}

/// A node built by `expand_centered` shows the same cell as the old
/// node at every signed position: the old contents sit in the center of
/// the doubled grid and everything else is default.
#[verifier::rlimit(100)]
pub proof fn lemma_expand_cells(old_n: NdTreeNode, new_n: NdTreeNode, ndim: nat, layer: nat)
    requires
        wf_node_at(old_n, ndim, layer),
        wf_node_at(new_n, ndim, (layer + 1) as nat),
        1 <= layer < MAX_LAYER,
        forall|j: int|
            0 <= j < pow2(ndim) ==> expanded_outer(
                #[trigger] new_n.branches@[j],
                old_n.branches@[j],
                ndim,
                layer,
                pow2(ndim) - 1 - j,
            ),
    ensures
        forall|p: Seq<int>|
            p.len() == ndim ==> centered_cell(new_n, p) == centered_cell(old_n, p),
{
    let cnt = pow2(ndim) as int;
    let bigh = pow2(layer) as int;
    let h = pow2((layer - 1) as nat) as int;
    lemma_pow2_unfold(layer);
    lemma_pow2_unfold((layer + 1) as nat);
    lemma_pow2_pos((layer - 1) as nat);
    assert forall|p: Seq<int>| p.len() == ndim implies centered_cell(new_n, p) == centered_cell(
        old_n,
        p,
    ) by {
        let qn = p.map_values(|x: int| x + bigh);
        let qo = p.map_values(|x: int| x + h);
        assert(forall|i: int| 0 <= i < p.len() ==> #[trigger] qn[i] == p[i] + bigh);
        assert(forall|i: int| 0 <= i < p.len() ==> #[trigger] qo[i] == p[i] + h);
        if (forall|i: int| 0 <= i < p.len() ==> -bigh <= #[trigger] p[i] < bigh) {
            assert(centered_cell(new_n, p) == node_cell(new_n, (layer + 1) as nat, qn));
            let idx_o = pack_bits(qn, bigh);
            lemma_pack_bounds(qn, bigh);
            let rqn = reduce_seq(qn, bigh);
            assert(forall|i: int|
                0 <= i < p.len() ==> #[trigger] rqn[i] == qn[i] - bigh * ge_bit(qn[i], bigh));
            assert(node_cell(new_n, (layer + 1) as nat, qn) == branch_cell(
                new_n.branches@[idx_o],
                layer,
                rqn,
            ));
            assert(expanded_outer(
                new_n.branches@[idx_o],
                old_n.branches@[idx_o],
                ndim,
                layer,
                cnt - 1 - idx_o,
            ));
            match new_n.branches@[idx_o] {
                NdTreeBranch::Leaf(_) => {
                    assert(false);
                },
                NdTreeBranch::Node(inn) => {
                    assert(branch_cell(new_n.branches@[idx_o], layer, rqn) == node_cell(
                        *inn,
                        layer,
                        rqn,
                    ));
                    let idx_i = pack_bits(rqn, h);
                    lemma_pack_bounds(rqn, h);
                    let rr = reduce_seq(rqn, h);
                    assert(forall|i: int|
                        0 <= i < p.len() ==> #[trigger] rr[i] == rqn[i] - h * ge_bit(
                            rqn[i],
                            h,
                        ));
                    assert(node_cell(*inn, layer, rqn) == branch_cell(
                        inn.branches@[idx_i],
                        (layer - 1) as nat,
                        rr,
                    ));
                    if (forall|i: int| 0 <= i < p.len() ==> -h <= #[trigger] p[i] < h) {
                        // The position lies inside the old node: the inner
                        // index is the opposite corner and the cell comes
                        // from the old branch.
                        assert forall|i: int| 0 <= i < rqn.len() implies ge_bit(
                            #[trigger] rqn[i],
                            h,
                        ) + ge_bit(qn[i], bigh) == 1 by {
                            assert(qn[i] == p[i] + bigh);
                        }
                        lemma_pack_sum_complement(rqn, h, qn, bigh);
                        assert(idx_i + idx_o == cnt - 1);
                        assert(inn.branches@[idx_i] == old_n.branches@[idx_o]);
                        assert forall|i: int| 0 <= i < qo.len() implies ge_bit(
                            #[trigger] qo[i],
                            h,
                        ) == ge_bit(qn[i], bigh) by {
                            assert(qo[i] == p[i] + h);
                            assert(qn[i] == p[i] + bigh);
                        }
                        lemma_pack_eq(qo, h, qn, bigh);
                        assert(centered_cell(old_n, p) == node_cell(old_n, layer, qo));
                        assert(node_cell(old_n, layer, qo) == branch_cell(
                            old_n.branches@[idx_o],
                            (layer - 1) as nat,
                            reduce_seq(qo, h),
                        ));
                        assert forall|i: int| 0 <= i < rr.len() implies #[trigger] rr[i]
                            == reduce_seq(qo, h)[i] by {
                            assert(bigh == 2 * h);
                            assert(-h <= p[i] < h);
                            assert(reduce_seq(qo, h)[i] == qo[i] - h * ge_bit(qo[i], h));
                            assert(qo[i] == p[i] + h);
                            assert(qn[i] == p[i] + bigh);
                            assert(rqn[i] == qn[i] - bigh * ge_bit(qn[i], bigh));
                            assert(rr[i] == rqn[i] - h * ge_bit(rqn[i], h));
                            if p[i] >= 0 {
                                assert(ge_bit(qn[i], bigh) == 1);
                                assert(rqn[i] == p[i]);
                                assert(ge_bit(rqn[i], h) == 0);
                                assert(ge_bit(qo[i], h) == 1);
                            } else {
                                assert(ge_bit(qn[i], bigh) == 0);
                                assert(rqn[i] == p[i] + 2 * h);
                                assert(ge_bit(rqn[i], h) == 1);
                                assert(ge_bit(qo[i], h) == 0);
                            }
                        }
                        assert(rr =~= reduce_seq(qo, h));
                    } else {
                        // The position lies in the grown margin: the old
                        // node shows default there, and so does the inner
                        // node, whose selected branch is one of the empty
                        // fillers.
                        assert(centered_cell(old_n, p) == DEFAULT_CELL);
                        if idx_i == cnt - 1 - idx_o {
                            lemma_pack_sum_complement(rqn, h, qn, bigh);
                            assert forall|i: int| 0 <= i < p.len() implies -h <= #[trigger] p[i]
                                < h by {
                                assert(ge_bit(rqn[i], h) + ge_bit(qn[i], bigh) == 1);
                                assert(qn[i] == p[i] + bigh);
                                assert(rqn[i] == qn[i] - bigh * ge_bit(qn[i], bigh));
                            }
                            assert(false);
                        }
                        assert(branch_pop(inn.branches@[idx_i], (layer - 1) as nat) == 0);
                        assert(wf_branch(inn.branches@[idx_i], ndim, (layer - 1) as nat));
                        lemma_zero_pop_cells(inn.branches@[idx_i], ndim, (layer - 1) as nat, rr);
                    }
                },
            }
        } else {
            // The position lies outside even the doubled node; both sides
            // show the default state.
            assert(centered_cell(new_n, p) == DEFAULT_CELL);
            let i = choose|i: int| 0 <= i < p.len() && !(-bigh <= #[trigger] p[i] < bigh);
            assert(!(-h <= p[i] < h));
            assert(centered_cell(old_n, p) == DEFAULT_CELL);
        }
    }
}

/// One branch's part of the contraction condition: the branch is a
/// node whose cells are all default outside the corner that touches
/// the center.
pub open spec fn ring_ok_at(n: NdTreeNode, ndim: nat, b: int) -> bool {
    match n.branches@[b] {
        NdTreeBranch::Leaf(_) => false,
        NdTreeBranch::Node(inner) => forall|k: int|
            0 <= k < inner.branches@.len() && k != pow2(ndim) - 1 - b ==> branch_pop(
                #[trigger] inner.branches@[k],
                (n.layer - 2) as nat,
            ) == 0,
    }
}

/// True when a node's whole content sits in its concentric half-size
/// center.
pub open spec fn ring_empty(n: NdTreeNode, ndim: nat) -> bool {
    forall|b: int| 0 <= b < n.branches@.len() ==> #[trigger] ring_ok_at(n, ndim, b)
}

impl NdTreeNode {
    /// Returns true when the whole content of this node sits in its
    /// concentric half-size center, so that `contract_centered` can
    /// shrink it.
    /// Returns true when every branch of this node except the one at
    /// `opp` holds only default cells.
    pub fn all_empty_but(&self, opp: usize) -> (r: bool)
        requires
            wf_node(*self),
        ensures
            r == (forall|k: int|
                0 <= k < self.branches@.len() && k != opp ==> branch_pop(
                    #[trigger] self.branches@[k],
                    (self.layer - 1) as nat,
                ) == 0),
    {
        let ghost ndim = self.ndim as nat;
        let count: usize = self.branches.len();
        let mut k: usize = 0;
        while k < count
            invariant
                k <= count == self.branches@.len(),
                wf_node(*self),
                self.ndim == ndim,
                forall|j: int|
                    0 <= j < k && j != opp ==> branch_pop(
                        #[trigger] self.branches@[j],
                        (self.layer - 1) as nat,
                    ) == 0,
            decreases count - k,
        {
            if k != opp {
                proof {
                    assert(wf_branch(self.branches@[k as int], ndim, (self.layer - 1) as nat));
                }
                let e: bool = crate::node::branch_is_empty(&self.branches[k], self.layer - 1);
                if !e {
                    return false;
                }
            }
            k = k + 1;
        }
        true
    }

    /// Returns true when the whole content of this node sits in its
    /// concentric half-size center, so that `contract_centered` can
    /// shrink it.
    #[verifier::rlimit(100)]
    pub fn is_ring_empty(&self, cache: &NdTreeCache) -> (r: bool)
        requires
            wf_node(*self),
            self.layer >= 2,
            self.ndim == cache.ndim,
        ensures
            r == ring_empty(*self, self.ndim as nat),
    {
        let ghost ndim = self.ndim as nat;
        let count: usize = self.branches.len();
        proof {
            lemma_pow2_pos(ndim);
        }
        let mask: usize = count - 1;
        let mut b: usize = 0;
        while b < count
            invariant
                b <= count == self.branches@.len(),
                count == pow2(ndim),
                mask == count - 1,
                wf_node(*self),
                self.ndim == ndim,
                self.layer >= 2,
                forall|j: int| 0 <= j < b ==> #[trigger] ring_ok_at(*self, ndim, j),
            decreases count - b,
        {
            proof {
                assert(wf_branch(self.branches@[b as int], ndim, (self.layer - 1) as nat));
            }
            let opp: usize = mask - b;
            match &self.branches[b] {
                NdTreeBranch::Leaf(_) => {
                    proof {
                        assert(!ring_ok_at(*self, ndim, b as int));
                    }
                    return false;
                },
                NdTreeBranch::Node(inner) => {
                    let ok: bool = inner.all_empty_but(opp);
                    if !ok {
                        proof {
                            assert(!ring_ok_at(*self, ndim, b as int)) by {
                                assert(self.branches@[b as int] == NdTreeBranch::Node(*inner));
                                let k0 = choose|k: int|
                                    0 <= k < inner.branches@.len() && k != opp as int
                                        && branch_pop(
                                        #[trigger] inner.branches@[k],
                                        (inner.layer - 1) as nat,
                                    ) != 0;
                                if ring_ok_at(*self, ndim, b as int) {
                                    assert(branch_pop(
                                        inner.branches@[k0],
                                        (self.layer - 2) as nat,
                                    ) == 0);
                                }
                            }
                        }
                        return false;
                    }
                    proof {
                        assert(ring_ok_at(*self, ndim, b as int)) by {
                            assert(self.branches@[b as int] == NdTreeBranch::Node(*inner));
                            assert forall|k: int|
                                0 <= k < inner.branches@.len() && k != pow2(ndim) - 1 - b
                                    implies branch_pop(
                                #[trigger] inner.branches@[k],
                                ((*self).layer - 2) as nat,
                            ) == 0 by {
                                assert(branch_pop(
                                    inner.branches@[k],
                                    (inner.layer - 1) as nat,
                                ) == 0);
                            }
                        }
                    }
                },
            }
            b = b + 1;
        }
        true
    }

    /// Collects, for each branch index, the corner of that branch which
    /// touches the node's center; these corners reassemble into the
    /// contracted node.
    #[verifier::rlimit(100)]
    pub fn pick_centers(&self) -> (picked: Vec<NdTreeBranch>)
        requires
            wf_node(*self),
            self.layer >= 2,
            ring_empty(*self, self.ndim as nat),
        ensures
            picked@.len() == pow2(self.ndim as nat),
            forall|j: int|
                0 <= j < picked@.len() ==> wf_branch(
                    #[trigger] picked@[j],
                    self.ndim as nat,
                    (self.layer - 2) as nat,
                ),
            forall|j: int|
                0 <= j < picked@.len() ==> expanded_outer(
                    self.branches@[j],
                    #[trigger] picked@[j],
                    self.ndim as nat,
                    (self.layer - 1) as nat,
                    pow2(self.ndim as nat) - 1 - j,
                ),
    {
        let ghost ndim = self.ndim as nat;
        let ghost layer = self.layer as nat;
        let count: usize = self.branches.len();
        proof {
            lemma_pow2_pos(ndim);
        }
        let mask: usize = count - 1;
        let mut picked: Vec<NdTreeBranch> = Vec::new();
        let mut b: usize = 0;
        while b < count
            invariant
                b <= count == self.branches@.len(),
                count == pow2(ndim),
                mask == count - 1,
                wf_node(*self),
                self.ndim == ndim,
                self.layer as nat == layer,
                self.layer >= 2,
                ring_empty(*self, ndim),
                picked@.len() == b,
                forall|j: int|
                    0 <= j < b ==> wf_branch(#[trigger] picked@[j], ndim, (layer - 2) as nat),
                forall|j: int|
                    0 <= j < b ==> expanded_outer(
                        self.branches@[j],
                        #[trigger] picked@[j],
                        ndim,
                        (layer - 1) as nat,
                        pow2(ndim) - 1 - j,
                    ),
            decreases count - b,
        {
            proof {
                assert(wf_branch(self.branches@[b as int], ndim, (layer - 1) as nat));
                assert(ring_ok_at(*self, ndim, b as int));
            }
            match &self.branches[b] {
                NdTreeBranch::Leaf(_) => {
                    proof {
                        assert(false);
                    }
                },
                NdTreeBranch::Node(inner) => {
                    proof {
                        assert(wf_branch(inner.branches@[mask - b], ndim, (layer - 2) as nat));
                    }
                    picked.push(branch_dup(&inner.branches[mask - b]));
                    proof {
                        assert(expanded_outer(
                            self.branches@[b as int],
                            picked@[b as int],
                            ndim,
                            (layer - 1) as nat,
                            pow2(ndim) - 1 - b,
                        ));
                    }
                },
            }
            b = b + 1;
        }
        picked
    }

    /// Removes one layer from a node whose content sits entirely in its
    /// concentric half-size center.
    #[verifier::rlimit(100)]
    pub fn contract_once(&self, cache: &mut NdTreeCache) -> (r: Rc<NdTreeNode>)
        requires
            old(cache).wf(),
            wf_node(*self),
            self.ndim == old(cache).ndim,
            self.layer >= 2,
            ring_empty(*self, self.ndim as nat),
        ensures
            final(cache).wf(),
            final(cache).ndim == old(cache).ndim,
            wf_node(*r),
            r.ndim == self.ndim,
            r.layer == self.layer - 1,
            forall|p: Seq<int>|
                p.len() == self.ndim ==> centered_cell(*r, p) == centered_cell(*self, p),
    {
        let ghost ndim = self.ndim as nat;
        let ghost layer = self.layer as nat;
        let picked: Vec<NdTreeBranch> = self.pick_centers();
        proof {
            lemma_pow2_pos(ndim);
            lemma_wf_branch_layer(picked@[0], ndim, (layer - 2) as nat);
        }
        let next: Rc<NdTreeNode> = cache.get_node(picked);
        proof {
            assert forall|j: int|
                0 <= j < pow2(ndim) implies expanded_outer(
                #[trigger] self.branches@[j],
                next.branches@[j],
                ndim,
                (layer - 1) as nat,
                pow2(ndim) - 1 - j,
            ) by {
                assert(expanded_outer(
                    self.branches@[j],
                    picked@[j],
                    ndim,
                    (layer - 1) as nat,
                    pow2(ndim) - 1 - j,
                ));
            }
            lemma_expand_cells(node_of(next), *self, ndim, (layer - 1) as nat);
        }
        next
    }

    /// "Zooms in" as far as possible without losing non-default cells:
    /// returns an interned node, as small as possible but at least at
    /// layer 1, that shows the same cell at every signed position.
    pub fn contract_centered(&self, cache: &mut NdTreeCache) -> (r: Rc<NdTreeNode>)
        requires
            old(cache).wf(),
            wf_node(*self),
            self.ndim == old(cache).ndim,
        ensures
            final(cache).wf(),
            final(cache).ndim == old(cache).ndim,
            wf_node(*r),
            r.ndim == self.ndim,
            1 <= r.layer <= self.layer,
            forall|p: Seq<int>|
                p.len() == self.ndim ==> centered_cell(*r, p) == centered_cell(*self, p),
            r.layer > 1 ==> !ring_empty(*r, self.ndim as nat),
    {
        let ghost ndim = self.ndim as nat;
        // Re-intern this node so the result is canonical even when the
        // starting node was built by hand.
        let count: usize = self.branches.len();
        proof {
            lemma_pow2_pos(ndim);
            assert(wf_branch(self.branches@[0], ndim, (self.layer - 1) as nat));
            lemma_wf_branch_layer(self.branches@[0], ndim, (self.layer - 1) as nat);
        }
        let mask: usize = count - 1;
        let mut first: Vec<NdTreeBranch> = Vec::new();
        let mut i: usize = 0;
        while i < count
            invariant
                i <= count == self.branches@.len(),
                first@ == self.branches@.take(i as int),
            decreases count - i,
        {
            first.push(branch_dup(&self.branches[i]));
            proof {
                assert(first@ =~= self.branches@.take(i + 1));
            }
            i = i + 1;
        }
        proof {
            assert(first@ =~= self.branches@);
        }
        let mut cur: Rc<NdTreeNode> = cache.get_node(first);
        proof {
            assert(cur.branches@ == self.branches@);
            assert(cur.layer == self.layer && cur.ndim == self.ndim);
            assert forall|p: Seq<int>|
                p.len() == self.ndim implies centered_cell(*cur, p) == centered_cell(
                *self,
                p,
            ) by {
                let half = pow2((self.layer - 1) as nat) as int;
                let qn = p.map_values(|x: int| x + half);
                lemma_pack_bounds(qn, half);
                assert(node_cell(*cur, self.layer as nat, qn) == node_cell(
                    *self,
                    self.layer as nat,
                    qn,
                ));
            }
        }
        while cur.layer > 1 && cur.is_ring_empty(cache)
            invariant
                cache.wf(),
                cache.ndim == old(cache).ndim,
                self.ndim == old(cache).ndim,
                wf_node(*cur),
                cur.ndim == self.ndim,
                1 <= cur.layer <= self.layer,
                forall|p: Seq<int>|
                    p.len() == self.ndim ==> centered_cell(*cur, p) == centered_cell(*self, p),
            decreases cur.layer,
        {
            let next = cur.contract_once(cache);
            cur = next;
        }
        cur
    }
}

} // verus!
