//! Simple leveled compaction, as far as the choice between strategies needs to know it.

use crate::lsm_storage::LsmStorageState;
use vstd::prelude::*;

verus! {

/// Tables of two adjacent levels to merge into the lower one. Without an `upper_level`, the upper
/// tables are those of level 0.
#[derive(Debug)]
pub struct SimpleLeveledCompactionTask {
    pub upper_level: Option<usize>,
    pub upper_level_sst_ids: Vec<usize>,
    pub lower_level: usize,
    pub lower_level_sst_ids: Vec<usize>,
    pub is_lower_level_bottom_level: bool,
}

/// A strategy that merges whole levels. Nothing is assumed of what it chooses or returns.
pub trait SimpleLeveledCompactionController {
    /// The compaction that the state calls for, if any.
    fn generate_compaction_task(&self, snapshot: &LsmStorageState) -> Option<
        SimpleLeveledCompactionTask,
    >;

    /// The state with the tables `output` in place of the tables of the task, and the tables that
    /// are no longer in use.
    fn apply_compaction_result(
        &self,
        snapshot: &LsmStorageState,
        task: &SimpleLeveledCompactionTask,
        output: &[usize],
    ) -> (LsmStorageState, Vec<usize>);
}

} // verus!
