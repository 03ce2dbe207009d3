//! A disjoint-set (union-find) structure over integer-indexed elements, with
//! single-level `find` and a bounds-checked wrapper.
mod disjoint;

pub use disjoint::{
    fresh_table, in_range, lemma_case_two_redirects, lemma_fresh_resolves_to_self,
    lemma_union_connects, lemma_union_idempotent, lemma_union_of_representatives,
    lemma_union_repeat, resolve, union_table, well_formed, DisjointSet, SafeDisjointSet,
};
