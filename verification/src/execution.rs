//! Running queries: chunks of rows, workers, and the folding of their results.
pub mod aggregator;
pub mod chunk;
pub mod coordinator;
pub mod laws;
pub mod matching;
pub mod meaning;
pub mod merging;
pub mod planning;
pub mod sorting;
pub mod worker;

pub use crate::execution::aggregator::{Aggregator, PartialResult};
pub use crate::execution::chunk::{ChunkId, Task};
pub use crate::execution::coordinator::{Coordinator, Submission};
pub use crate::execution::worker::Worker;
