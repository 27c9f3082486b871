//! Compaction: choosing tables to merge and putting the merged tables in their place.

pub mod choice;
pub mod consistency;
pub mod effects;
pub mod generator;
pub mod leveled;
pub mod runs;
pub mod simple_leveled;
pub mod tiered;

use crate::ids::{remove_ids, without_first};
use crate::lsm_storage::{copy_ids, copy_levels, LsmStorageInner, LsmStorageState, StateView};
use crate::table::SsTable;
use generator::SstGenerator;
use leveled::{LeveledCompactionController, LeveledCompactionOptions, LeveledCompactionTask};
use simple_leveled::{SimpleLeveledCompactionController, SimpleLeveledCompactionTask};
use tiered::{TieredCompactionController, TieredCompactionOptions, TieredCompactionTask};
use vstd::prelude::*;

verus! {

broadcast use vstd::std_specs::hash::group_hash_axioms;

/// Tables to merge.
#[derive(Debug)]
pub enum CompactionTask {
    Leveled(LeveledCompactionTask),
    Tiered(TieredCompactionTask),
    Simple(SimpleLeveledCompactionTask),
    ForceFullCompaction { l0_sstables: Vec<usize>, l1_sstables: Vec<usize> },
}

impl CompactionTask {
    /// Whether nothing older than the tables of the task is left below them.
    pub open spec fn to_bottom(self) -> bool {
        match self {
            CompactionTask::ForceFullCompaction { .. } => true,
            CompactionTask::Leveled(task) => task.is_lower_level_bottom_level,
            CompactionTask::Simple(task) => task.is_lower_level_bottom_level,
            CompactionTask::Tiered(task) => task.bottom_tier_included,
        }
    }

    /// Whether the output goes to the bottom, so that deleted keys need not be kept.
    pub fn compact_to_bottom_level(&self) -> (r: bool)
        ensures
            r == self.to_bottom(),
    {
        match self {
            CompactionTask::ForceFullCompaction { .. } => true,
            CompactionTask::Leveled(task) => task.is_lower_level_bottom_level,
            CompactionTask::Simple(task) => task.is_lower_level_bottom_level,
            CompactionTask::Tiered(task) => task.bottom_tier_included,
        }
    }
}

/// A compaction strategy.
pub enum CompactionController<C> {
    Leveled(LeveledCompactionController),
    Tiered(TieredCompactionController),
    Simple(C),
    NoCompaction,
}

impl<C: SimpleLeveledCompactionController> CompactionController<C> {
    /// Whether a task can be generated for state `s`. Without a strategy there is none.
    pub open spec fn fits(self, s: StateView) -> bool {
        match self {
            CompactionController::Leveled(ctrl) => ctrl@.fits(s),
            CompactionController::Tiered(ctrl) => ctrl@.fits(s),
            CompactionController::Simple(_) => true,
            CompactionController::NoCompaction => false,
        }
    }

    /// Whether `r` is the task that the strategy has for the state.
    pub open spec fn generates(self, snapshot: LsmStorageState, r: Option<CompactionTask>) -> bool {
        match self {
            CompactionController::Leveled(ctrl) => match r {
                Some(CompactionTask::Leveled(task)) => ctrl@.task(snapshot@) == Some(task@),
                Some(_) => false,
                None => ctrl@.task(snapshot@) is None,
            },
            CompactionController::Tiered(ctrl) => match r {
                Some(CompactionTask::Tiered(task)) => ctrl@.task(snapshot@) == Some(task@),
                Some(_) => false,
                None => ctrl@.task(snapshot@) is None,
            },
            CompactionController::Simple(ctrl) => match r {
                Some(CompactionTask::Simple(task)) => call_ensures(
                    C::generate_compaction_task,
                    (&ctrl, &snapshot),
                    Some(task),
                ),
                Some(_) => false,
                None => call_ensures(
                    C::generate_compaction_task,
                    (&ctrl, &snapshot),
                    None::<SimpleLeveledCompactionTask>,
                ),
            },
            CompactionController::NoCompaction => false,
        }
    }

    /// Whether the task is one of this strategy and can be applied to state `s`.
    pub open spec fn can_apply(
        self,
        s: StateView,
        task: CompactionTask,
        output: Seq<usize>,
        in_recovery: bool,
    ) -> bool {
        match (self, task) {
            (CompactionController::Leveled(_), CompactionTask::Leveled(task)) => {
                leveled::can_apply(s, task@, output, in_recovery)
            },
            (CompactionController::Simple(_), CompactionTask::Simple(_)) => true,
            (CompactionController::Tiered(_), CompactionTask::Tiered(task)) => {
                tiered::can_apply(s, task@, output)
            },
            _ => false,
        }
    }

    /// Whether `after` is the state after the task and `removed` the tables that it leaves unused.
    pub open spec fn applies(
        self,
        snapshot: LsmStorageState,
        task: CompactionTask,
        output: Seq<usize>,
        in_recovery: bool,
        after: LsmStorageState,
        removed: Vec<usize>,
    ) -> bool {
        match (self, task) {
            (CompactionController::Leveled(_), CompactionTask::Leveled(task)) => {
                &&& leveled::applied(snapshot@, task@, output, in_recovery, after@)
                &&& removed@ == task@.upper_level_sst_ids + task@.lower_level_sst_ids
            },
            (CompactionController::Simple(ctrl), CompactionTask::Simple(task)) => {
                exists|ids: &[usize]|
                    ids@ == output && #[trigger] call_ensures(
                        C::apply_compaction_result,
                        (&ctrl, &snapshot, &task, ids),
                        (after, removed),
                    )
            },
            (CompactionController::Tiered(_), CompactionTask::Tiered(task)) => {
                &&& after@ == tiered::applied(snapshot@, task@, output)
                &&& removed@ == tiered::removed_ids(snapshot@.levels, tiered::tier_map(task@.tiers))
            },
            _ => false,
        }
    }

    /// The compaction that the state calls for, if any.
    pub fn generate_compaction_task(&self, snapshot: &LsmStorageState) -> (r: Option<
        CompactionTask,
    >)
        requires
            self.fits(snapshot@),
        ensures
            self.generates(*snapshot, r),
    {
        match self {
            CompactionController::Leveled(ctrl) => {
                match ctrl.generate_compaction_task(snapshot) {
                    Some(task) => Some(CompactionTask::Leveled(task)),
                    None => None,
                }
            },
            CompactionController::Simple(ctrl) => {
                match ctrl.generate_compaction_task(snapshot) {
                    Some(task) => Some(CompactionTask::Simple(task)),
                    None => None,
                }
            },
            CompactionController::Tiered(ctrl) => {
                match ctrl.generate_compaction_task(snapshot) {
                    Some(task) => Some(CompactionTask::Tiered(task)),
                    None => None,
                }
            },
            CompactionController::NoCompaction => None,
        }
    }

    /// The state with the tables `output` in place of the tables of the task, and the tables that
    /// are no longer in use.
    pub fn apply_compaction_result(
        &self,
        snapshot: &LsmStorageState,
        task: &CompactionTask,
        output: &[usize],
        in_recovery: bool,
    ) -> (r: (LsmStorageState, Vec<usize>))
        requires
            self.can_apply(snapshot@, *task, output@, in_recovery),
        ensures
            self.applies(*snapshot, *task, output@, in_recovery, r.0, r.1),
    {
        match (self, task) {
            (CompactionController::Leveled(ctrl), CompactionTask::Leveled(task)) => {
                ctrl.apply_compaction_result(snapshot, task, output, in_recovery)
            },
            (CompactionController::Simple(ctrl), CompactionTask::Simple(task)) => {
                ctrl.apply_compaction_result(snapshot, task, output)
            },
            (CompactionController::Tiered(ctrl), CompactionTask::Tiered(task)) => {
                ctrl.apply_compaction_result(snapshot, task, output)
            },
            _ => (snapshot.clone(), Vec::new()),
        }
    }

    /// Whether memtables are flushed to level 0. Tiered compaction has no level 0.
    pub fn flush_to_l0(&self) -> (r: bool)
        ensures
            r == !(self is Tiered),
    {
        match self {
            CompactionController::Tiered(_) => false,
            _ => true,
        }
    }
}

/// How to compact.
#[derive(Debug, Clone)]
pub enum CompactionOptions<O> {
    /// Leveled compaction with partial compaction, a table at a time, and dynamic levels, whose
    /// target sizes go up from the size of the bottom level (as RocksDB's leveled compaction).
    Leveled(LeveledCompactionOptions),
    /// Tiered compaction (as RocksDB's universal compaction).
    Tiered(TieredCompactionOptions),
    /// Simple leveled compaction.
    Simple(O),
    /// No compaction in the background: memtables are flushed to level 0.
    NoCompaction,
}

/// The tables that a compaction reads, newer ones first.
pub enum CompactionInput {
    /// Tables whose keys may overlap, and under them a run of tables that do not.
    TablesOverRun { tables: Vec<usize>, run: Vec<usize> },
    /// Two runs of tables.
    RunOverRun { upper: Vec<usize>, lower: Vec<usize> },
    /// Any number of runs of tables.
    Runs(Vec<(usize, Vec<usize>)>),
}

/// Whether the state has all tables of the task.
pub open spec fn has_task_tables(s: StateView, task: CompactionTask) -> bool {
    match task {
        CompactionTask::ForceFullCompaction { l0_sstables, l1_sstables } => {
            s.has_tables(l0_sstables@) && s.has_tables(l1_sstables@)
        },
        CompactionTask::Leveled(task) => {
            s.has_tables(task.upper_level_sst_ids@) && s.has_tables(task.lower_level_sst_ids@)
        },
        CompactionTask::Simple(task) => {
            s.has_tables(task.upper_level_sst_ids@) && s.has_tables(task.lower_level_sst_ids@)
        },
        CompactionTask::Tiered(task) => forall|i: int|
            0 <= i < task@.tiers.len() ==> s.has_tables((#[trigger] task@.tiers[i]).1),
    }
}

/// Whether `r` has the tables of a merge of two levels: those of level 0 overlap, those of another
/// upper level do not.
pub open spec fn reads_two_levels(
    upper_level: Option<usize>,
    upper: Seq<usize>,
    lower: Seq<usize>,
    r: CompactionInput,
) -> bool {
    match (upper_level, r) {
        (None, CompactionInput::TablesOverRun { tables, run }) => tables@ == upper && run@ == lower,
        (Some(_), CompactionInput::RunOverRun { upper: u, lower: l }) => u@ == upper && l@ == lower,
        _ => false,
    }
}

/// Whether `r` has the tables of the task.
pub open spec fn reads_task(task: CompactionTask, r: CompactionInput) -> bool {
    match task {
        CompactionTask::ForceFullCompaction { l0_sstables, l1_sstables } => reads_two_levels(
            None,
            l0_sstables@,
            l1_sstables@,
            r,
        ),
        CompactionTask::Leveled(task) => reads_two_levels(
            task.upper_level,
            task.upper_level_sst_ids@,
            task.lower_level_sst_ids@,
            r,
        ),
        CompactionTask::Simple(task) => reads_two_levels(
            task.upper_level,
            task.upper_level_sst_ids@,
            task.lower_level_sst_ids@,
            r,
        ),
        CompactionTask::Tiered(task) => match r {
            CompactionInput::Runs(runs) => crate::lsm_storage::levels_view(runs@) == task@.tiers,
            _ => false,
        },
    }
}

fn two_levels(upper_level: Option<usize>, upper: &Vec<usize>, lower: &Vec<usize>) -> (r:
    CompactionInput)
    ensures
        reads_two_levels(upper_level, upper@, lower@, r),
{
    let upper = copy_ids(upper.as_slice());
    let lower = copy_ids(lower.as_slice());
    match upper_level {
        None => CompactionInput::TablesOverRun { tables: upper, run: lower },
        Some(_) => CompactionInput::RunOverRun { upper, lower },
    }
}

/// The tables of `m` and the tables `new`, each under its id.
pub open spec fn with_tables(m: Map<usize, SsTable>, new: Seq<SsTable>) -> Map<usize, SsTable>
    decreases new.len(),
{
    if new.len() == 0 {
        m
    } else {
        with_tables(m, new.drop_last()).insert(new.last().id, new.last())
    }
}

/// The tables of `m` but those of `ids`.
pub open spec fn without_tables(m: Map<usize, SsTable>, ids: Seq<usize>) -> Map<usize, SsTable> {
    m.remove_keys(ids.to_set())
}

/// The ids of the tables.
pub open spec fn table_ids(tables: Seq<SsTable>) -> Seq<usize> {
    tables.map_values(|t: SsTable| t.id)
}

/// Adds the tables to the state, at no level, and lists their ids.
fn add_tables(state: &mut LsmStorageState, tables: Vec<SsTable>) -> (r: Vec<usize>)
    ensures
        r@ == table_ids(tables@),
        final(state)@ == (StateView {
            sstables: with_tables(old(state)@.sstables, tables@),
            ..old(state)@
        }),
{
    let mut ids: Vec<usize> = Vec::with_capacity(tables.len());
    let ghost all = tables@;
    assert(table_ids(all.take(0)) =~= Seq::<usize>::empty());
    for table in it: tables
        invariant
            it.seq() == all,
            ids@ == table_ids(all.take(it.index() as int)),
            state@ == (StateView {
                sstables: with_tables(old(state)@.sstables, all.take(it.index() as int)),
                ..old(state)@
            }),
    {
        let ghost i = it.index() as int;
        assert(all.take(i + 1).drop_last() =~= all.take(i));
        assert(table_ids(all.take(i + 1)) =~= table_ids(all.take(i)).push(all[i].id));
        ids.push(table.sst_id());
        state.sstables.insert(table.sst_id(), table);
    }
    assert(all.take(all.len() as int) =~= all);
    ids
}

/// Takes the tables out of the state's table map.
fn drop_tables(state: &mut LsmStorageState, ids: &[usize])
    ensures
        final(state)@ == (StateView {
            sstables: without_tables(old(state)@.sstables, ids@),
            ..old(state)@
        }),
{
    let mut i: usize = 0;
    assert(without_tables(state@.sstables, ids@.take(0)) =~= state@.sstables);
    while i < ids.len()
        invariant
            i <= ids@.len(),
            state@ == (StateView {
                sstables: without_tables(old(state)@.sstables, ids@.take(i as int)),
                ..old(state)@
            }),
        decreases ids@.len() - i,
    {
        let ghost front = ids@.take(i as int);
        assert(ids@.take(i + 1) =~= front.push(ids@[i as int]));
        assert(ids@.take(i + 1).to_set() =~= front.to_set().insert(ids@[i as int])) by {
            front.lemma_push_to_set_commute(ids@[i as int]);
        }
        assert(without_tables(old(state)@.sstables, ids@.take(i + 1)) =~= without_tables(
            old(state)@.sstables,
            front,
        ).remove(ids@[i as int]));
        state.sstables.remove(&ids[i]);
        i += 1;
    }
    assert(ids@.take(i as int) =~= ids@);
}

impl<C: SimpleLeveledCompactionController, O> LsmStorageInner<C, O> {
    /// Starts to cut a stream of merged entries into tables.
    pub fn generate_new_sst_from_iter(&self, is_compact_bottom: bool) -> (r: SstGenerator)
        ensures
            r@ == generator::GeneratorView::fresh(is_compact_bottom, self.options.target_sst_size),
            r@.inv(),
    {
        SstGenerator::new(is_compact_bottom, self.options.target_sst_size)
    }

    /// The tables that a compaction reads, and how to cut what it writes into tables.
    pub fn compact(&self, state: &LsmStorageState, task: &CompactionTask) -> (r: (
        CompactionInput,
        SstGenerator,
    ))
        requires
            has_task_tables(state@, *task),
        ensures
            reads_task(*task, r.0),
            r.1@ == generator::GeneratorView::fresh(
                task.to_bottom(),
                self.options.target_sst_size,
            ),
            r.1@.inv(),
    {
        let input = match task {
            CompactionTask::ForceFullCompaction { l0_sstables, l1_sstables } => {
                two_levels(None, l0_sstables, l1_sstables)
            },
            CompactionTask::Simple(task) => {
                two_levels(task.upper_level, &task.upper_level_sst_ids, &task.lower_level_sst_ids)
            },
            CompactionTask::Leveled(task) => {
                two_levels(task.upper_level, &task.upper_level_sst_ids, &task.lower_level_sst_ids)
            },
            CompactionTask::Tiered(task) => {
                assert(task@.tiers.take(task@.tiers.len() as int) =~= task@.tiers);
                CompactionInput::Runs(copy_levels(&task.tiers, task.tiers.len()))
            },
        };
        (input, self.generate_new_sst_from_iter(task.compact_to_bottom_level()))
    }

    /// The task that merges all of level 0 into level 1.
    pub fn force_full_compaction(&self, state: &LsmStorageState) -> (r: CompactionTask)
        requires
            self.options.compaction_options is NoCompaction,
            state@.levels.len() > 0,
        ensures
            r matches CompactionTask::ForceFullCompaction { l0_sstables, l1_sstables }
                && l0_sstables@ == state@.l0_sstables && l1_sstables@ == state@.levels[0].1,
    {
        CompactionTask::ForceFullCompaction {
            l0_sstables: copy_ids(state.l0_sstables.as_slice()),
            l1_sstables: copy_ids(state.level(0).as_slice()),
        }
    }

    /// Puts the tables that a full compaction wrote in the place of those that it read, and lists
    /// their ids. The state may have gained tables at level 0 in the meantime; these stay.
    pub fn finish_full_compaction(
        &self,
        state: &LsmStorageState,
        l0_tables: &[usize],
        l1_tables: &[usize],
        new_ssts: Vec<SsTable>,
    ) -> (r: (LsmStorageState, Vec<usize>))
        requires
            state@.levels.len() > 0,
            (l0_tables@ + l1_tables@).no_duplicates(),
            state@.has_tables(l0_tables@ + l1_tables@),
            table_ids(new_ssts@).no_duplicates(),
            forall|i: int|
                0 <= i < new_ssts@.len() ==> !without_tables(
                    state@.sstables,
                    l0_tables@ + l1_tables@,
                ).contains_key((#[trigger] new_ssts@[i]).id),
        ensures
            r.0@ == full_compaction(state@, l0_tables@, l1_tables@, new_ssts@),
            r.1@ == table_ids(new_ssts@),
    {
        let mut next = state.clone();
        drop_tables(&mut next, l0_tables);
        drop_tables(&mut next, l1_tables);
        assert(next@.sstables =~= without_tables(state@.sstables, l0_tables@ + l1_tables@)) by {
            vstd::seq_lib::seq_to_set_distributes_over_add(l0_tables@, l1_tables@);
        }
        let new_l1 = add_tables(&mut next, new_ssts);
        next.set_level(0, copy_ids(new_l1.as_slice()));
        next.l0_sstables = remove_ids(next.l0_sstables.as_slice(), l0_tables);
        (next, new_l1)
    }

    /// The compaction that the state calls for, if any.
    pub fn trigger_compaction(&self, state: &LsmStorageState) -> (r: Option<CompactionTask>)
        requires
            self.compaction_controller.fits(state@),
        ensures
            self.compaction_controller.generates(*state, r),
    {
        self.compaction_controller.generate_compaction_task(state)
    }

    /// Whether `r` is what a compaction leaves of the state: the new tables are added, the strategy
    /// puts them in their places, and the tables `removed` that it leaves unused are dropped.
    pub open spec fn finishes(
        self,
        state: LsmStorageState,
        task: CompactionTask,
        new_tables: Seq<SsTable>,
        before: LsmStorageState,
        after: LsmStorageState,
        r: LsmStorageState,
        removed: Vec<usize>,
    ) -> bool {
        &&& before@ == (StateView {
            sstables: with_tables(state@.sstables, new_tables),
            ..state@
        })
        &&& self.compaction_controller.applies(
            before,
            task,
            table_ids(new_tables),
            false,
            after,
            removed,
        )
        &&& r@ == (StateView { sstables: without_tables(after@.sstables, removed@), ..after@ })
    }

    /// Puts the tables that a compaction wrote in the place of those that it read. Returns the new
    /// state, the ids of the new tables and the ids of the tables that are no longer in use.
    pub fn finish_compaction(
        &self,
        state: &LsmStorageState,
        task: &CompactionTask,
        new_tables: Vec<SsTable>,
    ) -> (r: (LsmStorageState, Vec<usize>, Vec<usize>))
        requires
            self.compaction_controller.can_apply(
                StateView { sstables: with_tables(state@.sstables, new_tables@), ..state@ },
                *task,
                table_ids(new_tables@),
                false,
            ),
        ensures
            r.1@ == table_ids(new_tables@),
            exists|before: LsmStorageState, after: LsmStorageState| #[trigger]
                self.finishes(*state, *task, new_tables@, before, after, r.0, r.2),
    {
        let mut snapshot = state.clone();
        let new_ids = add_tables(&mut snapshot, new_tables);
        let (mut after, removed) = self.compaction_controller.apply_compaction_result(
            &snapshot,
            task,
            new_ids.as_slice(),
            false,
        );
        let ghost applied = after;
        drop_tables(&mut after, removed.as_slice());
        let r = (after, new_ids, removed);
        assert(self.finishes(*state, *task, new_tables@, snapshot, applied, r.0, r.2));
        r
    }

    /// Whether the strategy compacts in the background.
    pub fn compacts_in_background(&self) -> (r: bool)
        ensures
            r == !(self.options.compaction_options is NoCompaction),
    {
        match self.options.compaction_options {
            CompactionOptions::NoCompaction => false,
            _ => true,
        }
    }

    /// Whether a memtable is to be flushed, with this many waiting.
    pub fn trigger_flush(&self, imm_memtables: usize) -> (r: bool)
        ensures
            r == (imm_memtables >= self.options.num_memtable_limit),
    {
        imm_memtables >= self.options.num_memtable_limit
    }
}

/// The state after a full compaction of the tables `l0` and `l1` into the tables `new`.
pub open spec fn full_compaction(
    s: StateView,
    l0: Seq<usize>,
    l1: Seq<usize>,
    new: Seq<SsTable>,
) -> StateView {
    StateView {
        l0_sstables: without_first(s.l0_sstables, l0.to_set()),
        levels: s.levels.update(0, (s.levels[0].0, table_ids(new))),
        sstables: with_tables(without_tables(s.sstables, l0 + l1), new),
    }
}

} // verus!
