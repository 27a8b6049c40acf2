//! Verified core of a family of approximate-nearest-neighbour search
//! components: ranking, filtered search planning, navigable-small-world graph
//! search, streaming product-quantisation bookkeeping, bit codes, int8
//! scoring, cascaded and columnar scans, and late-interaction candidate
//! gathering.
//!
//! Scores are carried as `u64` order keys: a key stands for a distance or a
//! similarity, and a smaller key means a smaller score.  Turning a float score
//! into its key, and any float arithmetic, happens outside this crate.
use vstd::prelude::*;

pub mod acorn;
pub mod codeq;
pub mod filtered;
pub mod hybrid;
pub mod knn_graph;
pub mod lex;
pub mod maxsim;
pub mod mrl;
pub mod nsw;
pub mod nsw_laws;
pub mod nsw_search;
pub mod oracle;
pub mod pdx;
pub mod planner;
pub mod rabitq;
pub mod rank;
pub mod speculative;
pub mod recall;
mod rng;

verus! {

} // verus!
