//! The greedy DAG extractor keeps its work list in the same queue as the
//! bottom-up analysis.
pub use super::bottom_up_analysis::UniqueQueue;
