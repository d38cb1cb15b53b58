//! Building blocks for competitive programming: union-find, prefix sums,
//! bit vectors, graphs, and a family of generic dynamic-programming engines,
//! each with a contract that is proved of its code.

pub mod binary_search;
pub mod bit_vec;
pub mod all_direction_tree_dp;
pub mod compress;
pub mod cumulative_sum;
pub mod cumulative_sum_2d;
pub mod dp;
pub mod fx;
pub mod graph;
pub mod imos;
pub mod order;
pub mod union_find;
pub mod union_laws;
pub mod utils;
pub mod values;

pub use bit_vec::{BitVec, BitVecAll, BitVecIter, BitVecRange};
pub use cumulative_sum::{CumulativeSum, CumulativeSum2D};
pub use dp::{DigitDP, DpValue, MemoizedDFS};
pub use graph::{Directed, Graph, Node, Tree, Undirected};
pub use imos::{Imos1D, Imos2D};
pub use union_find::{PersistentUnionFind, UnionFind};
pub use utils::{fmt_bitvec, fmt_u2bit, is_palindrome, to_base, Compress};
