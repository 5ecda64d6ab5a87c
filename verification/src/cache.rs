//! The node cache: an interning pool of weakly-referenced tree nodes.
//!
//! Nodes are created only through [`NdTreeCache::get_node`], which hashes
//! the candidate node, looks it up in a weak hash set, and returns the
//! existing interned node when a structurally equal one is alive.  The
//! set holds nodes weakly, so dropping the last tree that references a
//! node lets the entry expire.

use std::rc::Rc;
use vstd::prelude::*;
use vstd::arithmetic::power2::pow2;

use crate::node::branch_dup;
use crate::node::branch_layer;
use crate::node::branch_pop;
use crate::node::branches_bytes;
use crate::node::node_bytes;
use crate::node::node_pop;
use crate::node::pow2_u64;
use crate::node::rc_clone;
use crate::node::sat64;
use crate::node::spec_branch_layer;
use crate::node::tally_pops;
use crate::node::u64_le;
use crate::node::wf_branch;
use crate::node::wf_node_at;
use crate::node::NdTreeBranch;
use crate::node::NdTreeNode;
use crate::node::DEFAULT_CELL;
use crate::node::MAX_LAYER;

verus! {

/// The hash that `seahash` computes over a byte string; a pure function
/// of the bytes.
pub uninterp spec fn seahash_of(bytes: Seq<u8>) -> u64;

/// Relies on seahash::hash: the 64-bit SeaHash of a byte slice, a pure
/// function of the bytes alone.
#[verifier::external_body]
fn seahash_bytes(bytes: &Vec<u8>) -> (r: u64)
    ensures
        r == seahash_of(bytes@),
{
    seahash::hash(bytes.as_slice())
}

/// The weak set of interned nodes.
///
/// Relies on weak_table::WeakHashSet over `std::rc::Weak` elements,
/// compared by the node's derived `Eq` (structural equality, following
/// `Rc` branches into the child values) and bucketed by the node's
/// cached structural hash.  Entries expire when the last strong
/// reference drops, so a lookup may miss; but a hit always returns a
/// node structurally equal to the key.
#[verifier::external_body]
pub struct NodeSet {
    set: weak_table::WeakHashSet<
        std::rc::Weak<NdTreeNode>,
        std::hash::BuildHasherDefault<seahash::SeaHasher>,
    >,
}

impl NodeSet {
    /// Relies on weak_table::WeakHashSet::with_hasher to make an empty set.
    #[verifier::external_body]
    pub fn new() -> (r: NodeSet) {
        NodeSet { set: weak_table::WeakHashSet::with_hasher(Default::default()) }
    }

    /// Relies on weak_table::WeakHashSet::get: a hit hands back a stored
    /// element that the derived `Eq` found equal to the key, which is
    /// structural equality of the node values.
    #[verifier::external_body]
    pub fn get(&self, key: &NdTreeNode) -> (r: Option<Rc<NdTreeNode>>)
        ensures
            r matches Some(n) ==> *n == *key,
    {
        self.set.get(key)
    }

    /// Relies on weak_table::WeakHashSet::insert; a later `get` with an
    /// equal key may return this node, as long as it is still alive.
    #[verifier::external_body]
    pub fn insert(&mut self, node: Rc<NdTreeNode>) {
        self.set.insert(node);
    }
}

/// Adds two counts, saturating at `u64::MAX`.
pub fn sat_add(a: u64, b: u64) -> (r: u64)
    ensures
        r as nat == sat64((a + b) as nat),
{
    if a > u64::MAX - b {
        u64::MAX
    } else {
        a + b
    }
}

/// Appends the little-endian bytes of a 64-bit value.
pub fn push_u64_le(out: &mut Vec<u8>, x: u64)
    ensures
        final(out)@ == old(out)@ + u64_le(x),
{
    out.push((x % 256) as u8);
    out.push((x / 256 % 256) as u8);
    out.push((x / 0x10000 % 256) as u8);
    out.push((x / 0x1000000 % 256) as u8);
    out.push((x / 0x100000000 % 256) as u8);
    out.push((x / 0x10000000000 % 256) as u8);
    out.push((x / 0x1000000000000 % 256) as u8);
    out.push((x / 0x100000000000000 % 256) as u8);
    proof {
        assert(final(out)@ =~= old(out)@ + u64_le(x));
    }
}

/// Computes the bytes a node's structural hash is taken over: its layer,
/// then one encoding per branch.
pub fn node_bytes_exec(layer: usize, branches: &Vec<NdTreeBranch>) -> (r: Vec<u8>)
    ensures
        r@ == node_bytes(layer as nat, branches@),
{
    let mut out: Vec<u8> = Vec::new();
    push_u64_le(&mut out, layer as u64);
    let n: usize = branches.len();
    let mut i: usize = 0;
    proof {
        assert(branches@.take(0) =~= Seq::<NdTreeBranch>::empty());
        assert(out@ =~= u64_le(layer as u64) + branches_bytes(branches@.take(0)));
    }
    while i < n
        invariant
            i <= n == branches@.len(),
            out@ == u64_le(layer as u64) + branches_bytes(branches@.take(i as int)),
        decreases n - i,
    {
        proof {
            assert(branches@.take(i + 1).drop_last() =~= branches@.take(i as int));
            assert(branches@.take(i + 1).last() == branches@[i as int]);
        }
        match &branches[i] {
            NdTreeBranch::Leaf(c) => {
                out.push(0u8);
                out.push(*c);
            },
            NdTreeBranch::Node(rc) => {
                out.push(1u8);
                push_u64_le(&mut out, rc.hash_code);
            },
        }
        proof {
            assert(out@ =~= u64_le(layer as u64) + branches_bytes(branches@.take(i + 1)));
        }
        i = i + 1;
    }
    proof {
        assert(branches@.take(n as int) =~= branches@);
    }
    out
}

/// Reads off a branch's cached population (saturating at `u64::MAX`).
pub fn branch_pop_exec(b: &NdTreeBranch, ndim: usize, layer: usize) -> (r: u64)
    requires
        wf_branch(*b, ndim as nat, layer as nat),
    ensures
        r as nat == sat64(branch_pop(*b, layer as nat)),
{
    match b {
        NdTreeBranch::Leaf(c) => if *c == DEFAULT_CELL {
            0
        } else {
            1
        },
        NdTreeBranch::Node(rc) => rc.population,
    }
}

/// Sums the cached populations of a sequence of branches, saturating at
/// `u64::MAX`.
pub fn tally_exec(branches: &Vec<NdTreeBranch>, ndim: usize, layer: usize) -> (r: u64)
    requires
        forall|i: int|
            0 <= i < branches@.len() ==> wf_branch(
                #[trigger] branches@[i],
                ndim as nat,
                layer as nat,
            ),
    ensures
        r as nat == sat64(tally_pops(branches@, layer as nat)),
{
    let n: usize = branches.len();
    let mut acc: u64 = 0;
    let mut i: usize = 0;
    proof {
        assert(branches@.take(0) =~= Seq::<NdTreeBranch>::empty());
    }
    while i < n
        invariant
            i <= n == branches@.len(),
            acc as nat == sat64(tally_pops(branches@.take(i as int), layer as nat)),
            forall|j: int|
                0 <= j < branches@.len() ==> wf_branch(
                    #[trigger] branches@[j],
                    ndim as nat,
                    layer as nat,
                ),
        decreases n - i,
    {
        proof {
            assert(branches@.take(i + 1).drop_last() =~= branches@.take(i as int));
            assert(branches@.take(i + 1).last() == branches@[i as int]);
        }
        let bp: u64 = branch_pop_exec(&branches[i], ndim, layer);
        acc = sat_add(acc, bp);
        i = i + 1;
    }
    proof {
        assert(branches@.take(n as int) =~= branches@);
    }
    acc
}

/// A tally over branches that all have population zero is zero.
pub proof fn lemma_tally_zero(s: Seq<NdTreeBranch>, layer: nat)
    requires
        forall|i: int| 0 <= i < s.len() ==> branch_pop(#[trigger] s[i], layer) == 0,
    ensures
        tally_pops(s, layer) == 0,
    decreases s.len(),
{
    if s.len() > 0 {
        assert(forall|i: int|
            0 <= i < s.drop_last().len() ==> #[trigger] s.drop_last()[i] == s[i]);
        lemma_tally_zero(s.drop_last(), layer);
    }
}

/// A cache of interned tree nodes for one dimension count: the weak
/// interning pool, and strong references to the all-default node of each
/// layer seen so far.
pub struct NdTreeCache {
    /// The number of dimensions of the trees this cache serves.
    pub ndim: usize,
    /// The weak set of interned nodes.
    pub nodes: NodeSet,
    /// The element at index `i` is the all-default node at layer `i + 1`.
    pub empty_nodes: Vec<Rc<NdTreeNode>>,
}

impl NdTreeCache {
    /// A cache is valid when its dimension count is in range and every
    /// memoized empty node is the well-formed all-default node of its
    /// layer.
    pub open spec fn wf(self) -> bool {
        &&& 1 <= self.ndim <= 6
        &&& self.empty_nodes@.len() <= MAX_LAYER
        &&& (forall|i: int|
            0 <= i < self.empty_nodes@.len() ==> wf_node_at(
                *#[trigger] self.empty_nodes@[i],
                self.ndim as nat,
                (i + 1) as nat,
            ) && node_pop(*self.empty_nodes@[i], i as nat) == 0)
    }

    /// Returns a new empty node cache for trees of the given dimension
    /// count.
    pub fn new(ndim: usize) -> (r: Self)
        requires
            1 <= ndim <= 6,
        ensures
            r.wf(),
            r.ndim == ndim,
    {
        NdTreeCache { ndim, nodes: NodeSet::new(), empty_nodes: Vec::new() }
    }

    /// Returns the interned node with the given branches, creating it if
    /// no structurally equal node is alive in the pool.  The branches
    /// must all stand at one layer, which becomes the new node's layer
    /// less one.
    pub fn get_node(&mut self, branches: Vec<NdTreeBranch>) -> (r: Rc<NdTreeNode>)
        requires
            old(self).wf(),
            branches@.len() == pow2(old(self).ndim as nat),
            spec_branch_layer(branches@[0]) < MAX_LAYER,
            forall|i: int|
                0 <= i < branches@.len() ==> wf_branch(
                    #[trigger] branches@[i],
                    old(self).ndim as nat,
                    spec_branch_layer(branches@[0]),
                ),
        ensures
            final(self).wf(),
            final(self).ndim == old(self).ndim,
            final(self).empty_nodes@ == old(self).empty_nodes@,
            r.ndim == old(self).ndim,
            r.layer as nat == spec_branch_layer(branches@[0]) + 1,
            r.branches@ == branches@,
            wf_node_at(*r, old(self).ndim as nat, (spec_branch_layer(branches@[0]) + 1) as nat),
    {
        proof {
            vstd::arithmetic::power2::lemma_pow2_pos(self.ndim as nat);
        }
        let layer_below: usize = branch_layer(&branches[0]);
        let layer: usize = layer_below + 1;
        let population: u64 = tally_exec(&branches, self.ndim, layer_below);
        let bytes: Vec<u8> = node_bytes_exec(layer, &branches);
        let hash_code: u64 = seahash_bytes(&bytes);
        let cand = NdTreeNode { layer, ndim: self.ndim, branches, hash_code, population };
        proof {
            assert(wf_node_at(cand, self.ndim as nat, layer as nat));
        }
        let found: Option<Rc<NdTreeNode>> = self.nodes.get(&cand);
        match found {
            Some(rc) => rc,
            None => {
                let rc = Rc::new(cand);
                self.nodes.insert(rc_clone(&rc));
                rc
            },
        }
    }

    /// Returns the all-default node at the given layer, memoizing it and
    /// every layer below.
    pub fn get_empty_node(&mut self, layer: usize) -> (r: Rc<NdTreeNode>)
        requires
            old(self).wf(),
            1 <= layer <= MAX_LAYER,
        ensures
            final(self).wf(),
            final(self).ndim == old(self).ndim,
            wf_node_at(*r, old(self).ndim as nat, layer as nat),
            node_pop(*r, (layer - 1) as nat) == 0,
        decreases layer, 0int,
    {
        if layer - 1 < self.empty_nodes.len() {
            rc_clone(&self.empty_nodes[layer - 1])
        } else {
            let branch: NdTreeBranch = self.get_empty_branch(layer - 1);
            proof {
                crate::node::lemma_pow2_le_mono(self.ndim as nat, 6);
                vstd::arithmetic::power2::lemma2_to64();
            }
            let count: usize = pow2_u64(self.ndim) as usize;
            let mut branches: Vec<NdTreeBranch> = Vec::new();
            let mut i: usize = 0;
            while i < count
                invariant
                    i <= count,
                    branches@.len() == i,
                    forall|j: int| 0 <= j < i ==> #[trigger] branches@[j] == branch,
                decreases count - i,
            {
                branches.push(branch_dup(&branch));
                i = i + 1;
            }
            proof {
                assert(spec_branch_layer(branch) == (layer - 1) as nat);
                vstd::arithmetic::power2::lemma_pow2_pos(self.ndim as nat);
            }
            let rc = self.get_node(branches);
            proof {
                assert(forall|j: int|
                    0 <= j < rc.branches@.len() ==> branch_pop(
                        #[trigger] rc.branches@[j],
                        (layer - 1) as nat,
                    ) == 0);
                lemma_tally_zero(rc.branches@, (layer - 1) as nat);
            }
            let ghost prev = self.empty_nodes@;
            if self.empty_nodes.len() == layer - 1 {
                self.empty_nodes.push(rc_clone(&rc));
                proof {
                    assert forall|i2: int| 0 <= i2 < self.empty_nodes@.len() implies wf_node_at(
                        *#[trigger] self.empty_nodes@[i2],
                        self.ndim as nat,
                        (i2 + 1) as nat,
                    ) && node_pop(*self.empty_nodes@[i2], i2 as nat) == 0 by {
                        if i2 < self.empty_nodes@.len() - 1 {
                            assert(self.empty_nodes@[i2] == prev[i2]);
                        }
                    }
                }
            }
            rc
        }
    }

    /// Returns the branch containing all default cells at the given
    /// layer: the default leaf at layer 0, the all-default node above.
    pub fn get_empty_branch(&mut self, layer: usize) -> (r: NdTreeBranch)
        requires
            old(self).wf(),
            layer <= MAX_LAYER,
        ensures
            final(self).wf(),
            final(self).ndim == old(self).ndim,
            wf_branch(r, old(self).ndim as nat, layer as nat),
            branch_pop(r, layer as nat) == 0,
        decreases layer, 1int,
    {
        if layer == 0 {
            NdTreeBranch::Leaf(DEFAULT_CELL)
        } else {
            NdTreeBranch::Node(self.get_empty_node(layer))
        }
    }
}

} // verus!
