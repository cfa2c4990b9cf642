//! Disjoint-set (union-find) structures with verified behaviour.
//!
//! The crate keeps a fixed universe of elements partitioned into disjoint
//! classes.  Two storage strategies are offered: [`QuickUnionUf`], a tree of
//! parent pointers with path halving, and [`QuickFindUf`], a flat root-index
//! array with sibling chains.  Each class carries a payload value; a merge
//! policy ([`UnionBySize`], [`UnionByRank`], [`UnionBySizeRank`],
//! [`UnionByRankSize`]) decides which side of a union becomes the new
//! representative and how the two payloads combine.
//!
//! Every operation is specified against [`UfModel`], a mathematical view of
//! the partition, so path compression and chain splicing are proved to leave
//! the visible partition untouched.

mod laws;
mod model;
mod slot;
mod traits;
mod union;
mod quick_find;
mod quick_union;

pub use crate::laws::{
    conserved, find_twice, lemma_conserved_union_ok, lemma_grown_conserved,
    lemma_merged_by_size, lemma_merged_connects, lemma_merged_conserved, lemma_new_conserved,
    lemma_relink_inv, size_at, size_sum, union_twice,
};
pub use crate::model::UfModel;
pub use crate::traits::{Union, UnionFind, UnionResult};
pub use crate::quick_find::QuickFindUf;
pub use crate::quick_union::QuickUnionUf;
pub use crate::union::{UnionByRank, UnionByRankSize, UnionBySize, UnionBySizeRank};
