//! A many-to-many shortest-path cost engine for road networks preprocessed
//! with contraction hierarchies.
//!
//! Given a read-only contracted graph, a set of source seed queries and a set
//! of target seed queries, the engine produces a dense matrix of
//! `(weight, duration)` cost pairs, one row per source and one column per
//! target.  A backward search per target emits "middle node" buckets; a
//! forward search per source emits source buckets; joining the two bucket
//! families at shared middle nodes yields the cost matrix.  The orchestrator
//! caches buckets so that appending sources or targets only computes the new
//! rows or columns.

pub mod bucket;
pub mod coordinates;
pub mod geometry;
pub mod graph;
pub mod heap;
pub mod join;
pub mod m2m;
pub mod rectangle;
pub mod search;
