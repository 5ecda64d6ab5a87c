use std::rc::Rc;

use ndcell::axis::{axes, get_chunk_bits_for_ndim, Axis, Coords};
use ndcell::cache::NdTreeCache;
use ndcell::ndarray::{flatten_idx, unflatten_idx, NdArray};
use ndcell::ndrect::NdRect;
use ndcell::ndtree::NdTree;
use ndcell::ndvec::{AsIVec, AsUVec, IVec, NdVec, UVec};
use ndcell::node::NdTreeBranch;

/// Tests that flatten_idx() and unflatten_idx() are inverses and never
/// return values out of range.
#[test]
fn test_flatten_unflatten_ndarray_idx() {
    let size: UVec = NdVec::from_components(vec![4, 5, 6, 7]);
    let rect: NdRect<isize> = NdRect::new(NdVec::origin(4), size.as_ivec());
    let count = rect.count() as usize;
    for pos in rect.iter() {
        let flat_idx: usize = flatten_idx(&size, &pos);
        assert!(flat_idx < count);
        assert_eq!(pos, unflatten_idx(&size, flat_idx));
    }
}

// Setting a cell makes exactly that cell readable, and no other.
#[test]
fn test_set_get_cell() {
    let mut cache = NdTreeCache::new(2);
    let t = NdTree::new(&mut cache);
    let p = NdVec::big(vec![3, -7]);
    let q = NdVec::big(vec![-4, 9]);
    let t2 = t.set_cell(&mut cache, &p, 19);
    assert_eq!(19, t2.get_cell(&p));
    assert_eq!(0, t2.get_cell(&q));
    assert_eq!(0, t.get_cell(&p));
    let t3 = t2.set_cell(&mut cache, &q, 5);
    assert_eq!(19, t3.get_cell(&p));
    assert_eq!(5, t3.get_cell(&q));
    assert_eq!(19, t2.get_cell(&p));
    assert_eq!(0, t2.get_cell(&q));
}

// A single cell at a huge coordinate: the tree grows to cover it.
#[test]
fn test_set_cell_large_coordinate() {
    let mut cache = NdTreeCache::new(2);
    let t = NdTree::new(&mut cache);
    let p = NdVec::big(vec![1_000_000_000_000_000_000, -1_000_000_000_000_000_000]);
    let t2 = t.set_cell(&mut cache, &p, 7);
    assert_eq!(7, t2.get_cell(&p));
    assert_eq!(0, t2.get_cell(&NdVec::big(vec![0, 0])));
    assert_eq!(1, t2.population());
    assert!(t2.get_root().layer >= 61);
}

// Two trees built by the same writes through one cache share their root
// node physically.
#[test]
fn test_structural_sharing() {
    let mut cache = NdTreeCache::new(2);
    let glider: [(isize, isize); 5] = [(11, 14), (12, 13), (10, 12), (11, 12), (12, 12)];
    let mut a = NdTree::new(&mut cache);
    for (x, y) in glider {
        a = a.set_cell(&mut cache, &NdVec::big(vec![x, y]), 1);
    }
    let mut b = NdTree::new(&mut cache);
    for (x, y) in glider {
        b = b.set_cell(&mut cache, &NdVec::big(vec![x, y]), 1);
    }
    assert!(Rc::ptr_eq(&a.get_root(), &b.get_root()));
}

// Expanding a node and contracting the result lands on the same
// interned node.
#[test]
fn test_expand_contract_identity() {
    let mut cache = NdTreeCache::new(2);
    let mut t = NdTree::new(&mut cache);
    // Cells in different quadrants, so the tree cannot contract further.
    t = t.set_cell(&mut cache, &NdVec::big(vec![-2, -2]), 3);
    t = t.set_cell(&mut cache, &NdVec::big(vec![1, 1]), 4);
    let root = t.get_root();
    let expanded = root.expand_centered(&mut cache);
    assert_eq!(root.layer + 1, expanded.layer);
    let contracted = expanded.contract_centered(&mut cache);
    assert!(Rc::ptr_eq(&root, &contracted));
    // The expansion kept every cell.
    let big = NdTree { root: expanded };
    assert_eq!(3, big.get_cell(&NdVec::big(vec![-2, -2])));
    assert_eq!(4, big.get_cell(&NdVec::big(vec![1, 1])));
    assert_eq!(0, big.get_cell(&NdVec::big(vec![0, 0])));
}

// A node's population is the sum of its branches' populations.
#[test]
fn test_population_sum() {
    let mut cache = NdTreeCache::new(2);
    let mut t = NdTree::new(&mut cache);
    for i in 0..5isize {
        t = t.set_cell(&mut cache, &NdVec::big(vec![i - 2, 2 * i - 5]), 1);
    }
    assert_eq!(5, t.population());
    let root = t.get_root();
    let mut total: u64 = 0;
    for b in root.branches() {
        total += match b {
            NdTreeBranch::Leaf(c) => {
                if *c != 0 {
                    1
                } else {
                    0
                }
            }
            NdTreeBranch::Node(n) => n.population,
        };
    }
    assert_eq!(root.population, total);
}

// The cached structural hash is the SeaHash of the node's layer and
// branch encodings.
#[test]
fn test_node_hash_uses_seahash() {
    let mut cache = NdTreeCache::new(2);
    let node = cache.get_empty_node(1);
    // Layer as eight little-endian bytes, then one tag byte and one
    // cell byte for each of the four leaf branches.
    let bytes: Vec<u8> = vec![
        1, 0, 0, 0, 0, 0, 0, 0, //
        0, 0, 0, 0, 0, 0, 0, 0,
    ];
    assert_eq!(seahash::hash(&bytes), node.hash_code);
}

// Coordinate arrays implement the shared coordinate interface.
#[test]
fn test_coords_arrays() {
    let mut c: [isize; 3] = <[isize; 3] as Coords>::origin();
    assert!(c.is_zero());
    c.set(1, -5);
    assert!(!c.is_zero());
    assert_eq!(-5, c.get(1));
    assert_eq!(0, c.get(0));
    assert_eq!(3, <[isize; 3] as Coords>::ndim());
    assert_eq!(6, get_chunk_bits_for_ndim(2));
    assert_eq!(2, get_chunk_bits_for_ndim(5));
    assert_eq!(Axis::X, axes(3)[0]);
    assert_eq!(Axis::Z, axes(3)[2]);
}

// Vector arithmetic helpers.
#[test]
fn test_ndvec_ops() {
    let a: IVec = NdVec::from_components(vec![3, -4, 5]);
    let b: IVec = NdVec::from_components(vec![-1, 7, 5]);
    let lo = NdVec::min(&a, &b);
    let hi = NdVec::max(&a, &b);
    assert_eq!(-1, lo.get(Axis::X));
    assert_eq!(-4, lo.get(Axis::Y));
    assert_eq!(7, hi.get(Axis::Y));
    assert_eq!(4, a.sum());
    assert_eq!(-60, a.product());
    assert!(NdVec::<isize>::origin(3).is_zero());
    assert!(!NdVec::<isize>::unit(3, Axis::Z).is_zero());
    let u: UVec = NdVec::from_components(vec![4, 9]);
    assert_eq!(4, u.as_ivec().get(Axis::X));
    let i: IVec = NdVec::from_components(vec![8, 2]);
    assert_eq!(8, i.as_uvec().get(Axis::X));
    assert_eq!(8, i.convert().get(Axis::X));
}

// Component-wise constructors driven by functions of the axis.
#[test]
fn test_ndvec_from_fn_map_fn() {
    let mut v: IVec = NdVec::from_fn(3, |ax: Axis| match ax {
        Axis::X => 10,
        Axis::Y => 20,
        _ => 30,
    });
    assert_eq!(10, v.get(Axis::X));
    assert_eq!(20, v.get(Axis::Y));
    assert_eq!(30, v.get(Axis::Z));
    v.map_fn(|_ax: Axis, c: isize| c + 1);
    assert_eq!(11, v.get(Axis::X));
    assert_eq!(31, v.get(Axis::Z));
    let r: IVec = NdVec::repeat(4, 2);
    assert_eq!(4, r.get(Axis::X));
    assert_eq!(4, r.get(Axis::Y));
}

// Rectangle queries: containment, corners and outward division.
#[test]
fn test_ndrect_ops() {
    let a: IVec = NdVec::from_components(vec![5, -3]);
    let b: IVec = NdVec::from_components(vec![-2, 4]);
    let r = NdRect::span(&a, &b);
    assert_eq!(-2, r.min().get(Axis::X));
    assert_eq!(5, r.max().get(Axis::X));
    assert_eq!(-3, r.min().get(Axis::Y));
    assert_eq!(4, r.max().get(Axis::Y));
    assert_eq!(64, r.count());
    assert!(r.contains(&NdVec::from_components(vec![0, 0])));
    assert!(!r.contains(&NdVec::from_components(vec![6, 0])));
    let moved = r.add(&NdVec::from_components(vec![10, 10]));
    assert_eq!(8, moved.min().get(Axis::X));
    assert_eq!(moved.sub(&NdVec::from_components(vec![10, 10])).min(), r.min());
    let u: NdRect<usize> = NdRect::new(
        NdVec::from_components(vec![4, 10]),
        NdVec::from_components(vec![6, 5]),
    );
    let d = u.div_outward(3);
    assert_eq!(1, d.min().get(Axis::X));
    assert_eq!(3, d.max().get(Axis::X));
    assert_eq!(3, d.min().get(Axis::Y));
    assert_eq!(4, d.max().get(Axis::Y));
}

// Materializing a small node gives a dense copy of its cells.
#[test]
fn test_ndarray_from_node() {
    let mut cache = NdTreeCache::new(2);
    let mut t = NdTree::new(&mut cache);
    t = t.set_cell(&mut cache, &NdVec::big(vec![1, 1]), 7);
    t = t.set_cell(&mut cache, &NdVec::big(vec![-2, -2]), 9);
    let root = t.get_root();
    let arr = NdArray::from_node(&root);
    let side = 1isize << root.layer;
    // The root's local coordinates shift the origin to the center.
    let center = side / 2;
    assert_eq!(7, *arr.get(&NdVec::from_components(vec![center + 1, center + 1])));
    assert_eq!(9, *arr.get(&NdVec::from_components(vec![center - 2, center - 2])));
    assert_eq!(0, *arr.get(&NdVec::from_components(vec![center, center])));
}

// Dense arrays store and fetch by position.
#[test]
fn test_ndarray_get_set() {
    let size: UVec = NdVec::from_components(vec![3, 2]);
    let mut arr: NdArray<u8> = NdArray {
        size,
        data: vec![0; 6],
    };
    let p: IVec = NdVec::from_components(vec![2, 1]);
    arr.set(&p, 9);
    assert_eq!(9, *arr.get(&p));
    assert_eq!(0, *arr.get(&NdVec::from_components(vec![0, 0])));
    assert_eq!(3, arr.size().as_ivec().get(Axis::X));
    let slice = arr.offset_slice(NdVec::from_components(vec![1, 1]));
    let sr = slice.rect();
    assert_eq!(-1, sr.min().get(Axis::X));
    assert_eq!(1, sr.max().get(Axis::X));
}
