//! Consolidation of scored genomic intervals and similarity between the
//! rows of matrices, with contracts that Verus proves.
//!
//! * [`peak`], [`rank`]: scored intervals, their overlap relation, and the
//!   integer ranks by which they compete.
//! * [`selection`], [`merge`]: greedy selection of non-overlapping peaks and
//!   the consolidation of candidate peaks per chromosome.
//! * [`clip`]: clipping of peaks to the length of their chromosome.
//! * [`overlap`], [`membership`]: a static index for overlap queries and the
//!   set-membership tests that are built on it.
//! * [`sparsity`], [`similarity`], [`correlation`]: sparsity patterns, the
//!   Jaccard similarity of their rows and the rank correlation of samples,
//!   as exact integers.
//! * [`dtype`], [`files`], [`export`], [`text`]: the decisions made where
//!   matrices, files and fragments enter or leave.

pub mod clip;
pub mod correlation;
pub mod dtype;
pub mod export;
pub mod files;
pub mod membership;
pub mod merge;
pub mod overlap;
pub mod peak;
pub mod rank;
pub mod selection;
pub mod similarity;
pub mod sparsity;
pub mod text;
