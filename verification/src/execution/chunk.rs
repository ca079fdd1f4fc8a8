//! Units of work.
use std::ops::Range;
use std::sync::Arc;
use vstd::prelude::*;

use crate::query::{Query, QueryId};

verus! {

#[derive(Debug, Clone, Copy, PartialEq, Eq, Hash, Structural)]
pub struct ChunkId(pub u64);

/// One unit of work: "run this query over this range of rows". Workers receive
/// these and produce a partial result for each.
#[derive(Debug)]
pub struct Task {
    pub chunk_id: ChunkId,
    pub query_id: QueryId,
    pub query: Arc<Query>,
    pub rows: Range<usize>,
}

impl Clone for Task {
    fn clone(&self) -> (r: Task)
        ensures
            r == *self,
    {
        Task {
            chunk_id: self.chunk_id,
            query_id: self.query_id,
            query: self.query.clone(),
            rows: self.rows.start..self.rows.end,
        }
    }
}

} // verus!
