//! A cellular-automaton grid engine built around a HashLife-style
//! N-dimensional tree: a hash-consed, power-of-two-aligned spatial index
//! that stores sparse infinite grids of discrete cell states, together
//! with its coordinate algebra and the Golly Extended RLE codec that
//! reads and writes patterns into it.

pub mod axis;
pub mod cache;
pub mod ndarray;
pub mod ndrect;
pub mod ndtree;
pub mod ndvec;
pub mod node;
pub mod rle;

pub use axis::Axis;
pub use ndtree::NdTree;
pub use rle::NdAutomaton;
