use mini_lsm::compact::generator::SstGenerator;
use mini_lsm::compact::leveled::{
    LeveledCompactionController, LeveledCompactionOptions, LeveledCompactionTask,
};
use mini_lsm::compact::simple_leveled::{
    SimpleLeveledCompactionController, SimpleLeveledCompactionTask,
};
use mini_lsm::compact::tiered::{
    TieredCompactionController, TieredCompactionOptions, TieredCompactionTask,
};
use mini_lsm::compact::{
    CompactionController, CompactionInput, CompactionOptions, CompactionTask,
};
use mini_lsm::key::{KeySlice, KeyVec};
use mini_lsm::lsm_storage::{LsmStorageInner, LsmStorageOptions, LsmStorageState};
use mini_lsm::table::SsTable;
use std::collections::HashMap;

/// A strategy that merges all of level 0 into level 1, whatever there is.
struct Whole;

impl SimpleLeveledCompactionController for Whole {
    fn generate_compaction_task(
        &self,
        snapshot: &LsmStorageState,
    ) -> Option<SimpleLeveledCompactionTask> {
        if snapshot.l0_sstables.is_empty() {
            return None;
        }
        Some(SimpleLeveledCompactionTask {
            upper_level: None,
            upper_level_sst_ids: snapshot.l0_sstables.clone(),
            lower_level: 1,
            lower_level_sst_ids: snapshot.levels[0].1.clone(),
            is_lower_level_bottom_level: false,
        })
    }

    fn apply_compaction_result(
        &self,
        snapshot: &LsmStorageState,
        task: &SimpleLeveledCompactionTask,
        output: &[usize],
    ) -> (LsmStorageState, Vec<usize>) {
        let mut after = snapshot.clone();
        after.l0_sstables.clear();
        after.levels[0].1 = output.to_vec();
        let mut removed = task.upper_level_sst_ids.clone();
        removed.extend(&task.lower_level_sst_ids);
        (after, removed)
    }
}

fn table(id: usize, first: &str, last: &str) -> SsTable {
    SsTable {
        id,
        first_key: KeyVec::from_vec(first.as_bytes().to_vec()),
        last_key: KeyVec::from_vec(last.as_bytes().to_vec()),
        table_size: 10,
    }
}

fn state(l0: &[usize], levels: &[&[usize]]) -> LsmStorageState {
    let mut sstables = HashMap::new();
    for ids in levels.iter().chain([&l0]) {
        for &id in *ids {
            sstables.insert(id, table(id, "a", "b"));
        }
    }
    LsmStorageState {
        l0_sstables: l0.to_vec(),
        levels: levels.iter().enumerate().map(|(i, ids)| (i + 1, ids.to_vec())).collect(),
        sstables,
    }
}

fn known(s: &LsmStorageState) -> Vec<usize> {
    let mut ids: Vec<usize> = s.sstables.keys().copied().collect();
    ids.sort();
    ids
}

fn leveled_options() -> LeveledCompactionOptions {
    LeveledCompactionOptions {
        level_size_multiplier: 2,
        level0_file_num_compaction_trigger: 1,
        max_levels: 2,
        base_level_size_mb: 1,
    }
}

fn tiered_options() -> TieredCompactionOptions {
    TieredCompactionOptions {
        num_tiers: 2,
        max_size_amplification_percent: 100,
        size_ratio: 1,
        min_merge_width: 2,
        max_merge_width: None,
    }
}

fn leveled() -> CompactionController<Whole> {
    CompactionController::Leveled(LeveledCompactionController::new(leveled_options()))
}

fn tiered() -> CompactionController<Whole> {
    CompactionController::Tiered(TieredCompactionController::new(tiered_options()))
}

fn inner(
    compaction_options: CompactionOptions<()>,
    compaction_controller: CompactionController<Whole>,
) -> LsmStorageInner<Whole, ()> {
    LsmStorageInner {
        options: LsmStorageOptions {
            block_size: 4096,
            target_sst_size: 100,
            num_memtable_limit: 3,
            compaction_options,
        },
        compaction_controller,
    }
}

fn leveled_task(upper_level: Option<usize>, bottom: bool) -> CompactionTask {
    CompactionTask::Leveled(LeveledCompactionTask {
        upper_level,
        upper_level_sst_ids: vec![3],
        lower_level: 2,
        lower_level_sst_ids: vec![1, 2],
        is_lower_level_bottom_level: bottom,
    })
}

#[test]
fn bottom_level_of_each_task() {
    let full = CompactionTask::ForceFullCompaction { l0_sstables: vec![], l1_sstables: vec![] };
    assert!(full.compact_to_bottom_level());
    assert!(leveled_task(None, true).compact_to_bottom_level());
    assert!(!leveled_task(None, false).compact_to_bottom_level());
    for bottom in [false, true] {
        let task = CompactionTask::Tiered(TieredCompactionTask {
            tiers: vec![],
            bottom_tier_included: bottom,
        });
        assert_eq!(task.compact_to_bottom_level(), bottom);
        let task = CompactionTask::Simple(SimpleLeveledCompactionTask {
            upper_level: None,
            upper_level_sst_ids: vec![],
            lower_level: 1,
            lower_level_sst_ids: vec![],
            is_lower_level_bottom_level: bottom,
        });
        assert_eq!(task.compact_to_bottom_level(), bottom);
    }
}

#[test]
fn only_tiers_take_flushes_themselves() {
    assert!(leveled().flush_to_l0());
    assert!(!tiered().flush_to_l0());
    assert!(CompactionController::Simple(Whole).flush_to_l0());
    assert!(CompactionController::<Whole>::NoCompaction.flush_to_l0());
}

#[test]
fn each_strategy_generates_its_own_task() {
    let s = state(&[3, 2], &[&[], &[1]]);
    match leveled().generate_compaction_task(&s) {
        Some(CompactionTask::Leveled(t)) => {
            assert_eq!(t.upper_level_sst_ids, vec![3, 2]);
            assert_eq!(t.lower_level_sst_ids, vec![1]);
        }
        other => panic!("{:?}", other),
    }
    match CompactionController::Simple(Whole).generate_compaction_task(&s) {
        Some(CompactionTask::Simple(t)) => assert_eq!(t.upper_level_sst_ids, vec![3, 2]),
        other => panic!("{:?}", other),
    }
    match tiered().generate_compaction_task(&state(&[], &[&[3, 2], &[1]])) {
        Some(CompactionTask::Tiered(t)) => assert_eq!(t.tiers.len(), 2),
        other => panic!("{:?}", other),
    }
    let calm = state(&[], &[&[], &[1]]);
    assert!(leveled().generate_compaction_task(&calm).is_none());
    assert!(CompactionController::Simple(Whole).generate_compaction_task(&calm).is_none());
    assert!(tiered().generate_compaction_task(&state(&[], &[&[1]])).is_none());
}

#[test]
fn each_strategy_applies_its_own_task() {
    let s = state(&[3], &[&[], &[1, 2]]);
    let task = leveled_task(None, true);
    let (after, removed) = leveled().apply_compaction_result(&s, &task, &[], true);
    assert_eq!(removed, vec![3, 1, 2]);
    assert_eq!(after.levels[1].1, Vec::<usize>::new());
    let simple = CompactionController::Simple(Whole);
    let task = simple.generate_compaction_task(&s).unwrap();
    let (after, removed) = simple.apply_compaction_result(&s, &task, &[9], false);
    assert_eq!(removed, vec![3]);
    assert_eq!(after.levels[0].1, vec![9]);
    let s = state(&[], &[&[3, 2], &[1]]);
    let task = tiered().generate_compaction_task(&s).unwrap();
    let (after, removed) = tiered().apply_compaction_result(&s, &task, &[9], false);
    assert_eq!(removed, vec![3, 2, 1]);
    assert_eq!(after.levels, vec![(9, vec![9])]);
}

#[test]
fn compaction_reads_the_tables_of_its_task() {
    let s = state(&[3], &[&[], &[1, 2]]);
    let tree = inner(CompactionOptions::Leveled(leveled_options()), leveled());
    match tree.compact(&s, &leveled_task(None, true)).0 {
        CompactionInput::TablesOverRun { tables, run } => {
            assert_eq!(tables, vec![3]);
            assert_eq!(run, vec![1, 2]);
        }
        _ => panic!("level 0 overlaps"),
    }
    match tree.compact(&s, &leveled_task(Some(1), true)).0 {
        CompactionInput::RunOverRun { upper, lower } => {
            assert_eq!(upper, vec![3]);
            assert_eq!(lower, vec![1, 2]);
        }
        _ => panic!("level 1 is a run"),
    }
    let task = CompactionTask::Tiered(TieredCompactionTask {
        tiers: vec![(3, vec![3]), (1, vec![1, 2])],
        bottom_tier_included: true,
    });
    match tree.compact(&s, &task).0 {
        CompactionInput::Runs(runs) => assert_eq!(runs, vec![(3, vec![3]), (1, vec![1, 2])]),
        _ => panic!("tiers are runs"),
    }
    let task = CompactionTask::ForceFullCompaction { l0_sstables: vec![3], l1_sstables: vec![1] };
    match tree.compact(&s, &task).0 {
        CompactionInput::TablesOverRun { tables, run } => {
            assert_eq!(tables, vec![3]);
            assert_eq!(run, vec![1]);
        }
        _ => panic!("level 0 overlaps"),
    }
}

/// Cuts a stream of entries, whose sizes are counted as they are added, into tables.
fn cut(mut g: SstGenerator, entries: &[(&str, &str)]) -> Vec<Vec<String>> {
    let mut tables: Vec<Vec<String>> = Vec::new();
    let mut open: Option<(Vec<String>, usize)> = None;
    for (k, v) in entries {
        let action = g.entry(KeySlice::from_slice(k.as_bytes()), v.as_bytes());
        if action.start_builder {
            assert!(open.is_none());
            open = Some((Vec::new(), 0));
        }
        let (keys, size) = open.as_mut().unwrap();
        if action.add {
            keys.push(k.to_string());
            *size += k.len() + v.len();
        }
        if g.advanced(*size) {
            tables.push(open.take().unwrap().0);
        }
    }
    if g.finish() {
        tables.push(open.take().unwrap().0);
    }
    assert!(open.is_none());
    tables
}

const STREAM: [(&str, &str); 6] =
    [("a", "12"), ("b", ""), ("c", "34"), ("d", ""), ("e", "56"), ("f", "")];

#[test]
fn stream_is_cut_at_the_target_size() {
    let tables = cut(SstGenerator::new(false, 6), &STREAM);
    assert_eq!(tables, vec![vec!["a", "b", "c"], vec!["d", "e", "f"]]);
}

#[test]
fn deleted_keys_are_dropped_at_the_bottom() {
    let tables = cut(SstGenerator::new(true, 6), &STREAM);
    assert_eq!(tables, vec![vec!["a", "c"], vec!["e"]]);
}

#[test]
fn deleted_keys_alone_make_an_empty_table() {
    let deleted = cut(SstGenerator::new(true, 6), &[("a", ""), ("b", "")]);
    assert_eq!(deleted, vec![Vec::<String>::new()]);
    let nothing = cut(SstGenerator::new(true, 6), &[]);
    assert_eq!(nothing, Vec::<Vec<String>>::new());
}

#[test]
fn full_last_table_is_not_followed_by_another() {
    assert_eq!(cut(SstGenerator::new(false, 3), &[("a", "12")]), vec![vec!["a"]]);
    let tree = inner(CompactionOptions::NoCompaction, CompactionController::NoCompaction);
    let long = "x".repeat(99);
    let tables = cut(tree.generate_new_sst_from_iter(false), &[("a", &long), ("b", "")]);
    assert_eq!(tables, vec![vec!["a"], vec!["b"]]);
}

#[test]
fn full_compaction_takes_level_zero_and_one() {
    let tree = inner(CompactionOptions::NoCompaction, CompactionController::NoCompaction);
    let s = state(&[4, 3], &[&[1, 2], &[7]]);
    match tree.force_full_compaction(&s) {
        CompactionTask::ForceFullCompaction { l0_sstables, l1_sstables } => {
            assert_eq!(l0_sstables, vec![4, 3]);
            assert_eq!(l1_sstables, vec![1, 2]);
        }
        other => panic!("{:?}", other),
    }
}

#[test]
fn full_compaction_keeps_later_tables() {
    let tree = inner(CompactionOptions::NoCompaction, CompactionController::NoCompaction);
    let later = state(&[6, 5, 4, 3], &[&[1, 2], &[7]]);
    let new = vec![table(10, "a", "b"), table(11, "c", "d")];
    let (after, ids) = tree.finish_full_compaction(&later, &[4, 3], &[1, 2], new);
    assert_eq!(ids, vec![10, 11]);
    assert_eq!(after.l0_sstables, vec![6, 5]);
    assert_eq!(after.levels, vec![(1, vec![10, 11]), (2, vec![7])]);
    assert_eq!(known(&after), vec![5, 6, 7, 10, 11]);
    assert_eq!(after.table(11).first_key().raw_ref(), b"c");
}

#[test]
fn finished_compaction_keeps_the_state_consistent() {
    let tree = inner(CompactionOptions::Leveled(leveled_options()), leveled());
    let s = state(&[4, 3], &[&[], &[1, 2]]);
    let task = tree.trigger_compaction(&s).unwrap();
    let later = state(&[5, 4, 3], &[&[], &[1, 2]]);
    let new = vec![table(11, "m", "n"), table(10, "a", "b")];
    let (after, ids, removed) = tree.finish_compaction(&later, &task, new);
    assert_eq!(ids, vec![11, 10]);
    assert_eq!(removed, vec![4, 3, 1, 2]);
    assert_eq!(after.l0_sstables, vec![5]);
    assert_eq!(after.levels[1].1, vec![10, 11]);
    assert_eq!(known(&after), vec![5, 10, 11]);
}

#[test]
fn finished_tiered_compaction() {
    let tree = inner(CompactionOptions::Tiered(tiered_options()), tiered());
    let s = state(&[], &[&[3, 4], &[1]]);
    let task = tree.trigger_compaction(&s).unwrap();
    let (after, ids, removed) = tree.finish_compaction(&s, &task, vec![table(9, "a", "b")]);
    assert_eq!(ids, vec![9]);
    assert_eq!(removed, vec![3, 4, 1]);
    assert_eq!(after.levels, vec![(9, vec![9])]);
    assert_eq!(known(&after), vec![9]);
}

#[test]
fn finished_simple_compaction() {
    let tree = inner(CompactionOptions::Simple(()), CompactionController::Simple(Whole));
    let s = state(&[4, 3], &[&[1], &[2]]);
    let task = tree.trigger_compaction(&s).unwrap();
    let (after, ids, removed) = tree.finish_compaction(&s, &task, vec![table(9, "a", "b")]);
    assert_eq!(ids, vec![9]);
    assert_eq!(removed, vec![4, 3, 1]);
    assert_eq!(after.levels, vec![(1, vec![9]), (2, vec![2])]);
    assert_eq!(known(&after), vec![2, 9]);
}

#[test]
fn background_compaction_by_options() {
    let with = |o| inner(o, CompactionController::NoCompaction).compacts_in_background();
    assert!(with(CompactionOptions::Leveled(leveled_options())));
    assert!(with(CompactionOptions::Tiered(tiered_options())));
    assert!(with(CompactionOptions::Simple(())));
    assert!(!with(CompactionOptions::NoCompaction));
}

#[test]
fn flush_is_due_at_the_limit() {
    let tree = inner(CompactionOptions::NoCompaction, CompactionController::NoCompaction);
    assert!(!tree.trigger_flush(2));
    assert!(tree.trigger_flush(3));
    assert!(tree.trigger_flush(4));
}

#[test]
fn tables_of_an_ascending_stream_do_not_overlap() {
    let keys: Vec<String> = (0..60).map(|i| format!("k{:02}", i)).collect();
    let stream: Vec<(&str, &str)> = keys
        .iter()
        .enumerate()
        .map(|(i, k)| (k.as_str(), if i % 4 == 0 { "" } else { "value" }))
        .collect();
    for bottom in [false, true] {
        let tables = cut(SstGenerator::new(bottom, 50), &stream);
        assert!(tables.len() > 3);
        for w in tables.windows(2) {
            assert!(w[0].last().unwrap() < &w[1][0]);
        }
        let expected: Vec<String> = stream
            .iter()
            .filter(|e| !bottom || !e.1.is_empty())
            .map(|e| e.0.to_string())
            .collect();
        assert_eq!(tables.concat(), expected);
    }
}
