use mini_lsm::compact::leveled::{
    LeveledCompactionController, LeveledCompactionOptions, LeveledCompactionTask,
};
use mini_lsm::key::KeyVec;
use mini_lsm::lsm_storage::LsmStorageState;
use mini_lsm::table::SsTable;
use std::collections::HashMap;

const MB: u64 = 1024 * 1024;

fn table(id: usize, first: &str, last: &str, size: u64) -> SsTable {
    SsTable {
        id,
        first_key: KeyVec::from_vec(first.as_bytes().to_vec()),
        last_key: KeyVec::from_vec(last.as_bytes().to_vec()),
        table_size: size,
    }
}

fn state(l0: &[usize], levels: &[&[usize]], tables: Vec<SsTable>) -> LsmStorageState {
    let mut sstables = HashMap::new();
    for t in tables {
        sstables.insert(t.id, t);
    }
    LsmStorageState {
        l0_sstables: l0.to_vec(),
        levels: levels.iter().enumerate().map(|(i, ids)| (i + 1, ids.to_vec())).collect(),
        sstables,
    }
}

fn controller(trigger: usize, max_levels: usize) -> LeveledCompactionController {
    LeveledCompactionController::new(LeveledCompactionOptions {
        level_size_multiplier: 2,
        level0_file_num_compaction_trigger: trigger,
        max_levels,
        base_level_size_mb: 1,
    })
}

fn parts(t: &LeveledCompactionTask) -> (Option<usize>, Vec<usize>, usize, Vec<usize>, bool) {
    (
        t.upper_level,
        t.upper_level_sst_ids.clone(),
        t.lower_level,
        t.lower_level_sst_ids.clone(),
        t.is_lower_level_bottom_level,
    )
}

fn level_ids(s: &LsmStorageState) -> Vec<Vec<usize>> {
    s.levels.iter().map(|l| l.1.clone()).collect()
}

#[test]
fn overlapping_tables_are_found() {
    let s = state(
        &[1, 2],
        &[&[10, 11, 12, 13]],
        vec![
            table(1, "f", "h", 1),
            table(2, "c", "d", 1),
            table(10, "a", "b", 1),
            table(11, "b1", "c", 1),
            table(12, "e", "e1", 1),
            table(13, "h1", "z", 1),
        ],
    );
    let c = controller(0, 1);
    assert_eq!(c.find_overlapping_ssts(&s, &[1, 2], 1), vec![11, 12]);
    assert_eq!(c.find_overlapping_ssts(&s, &[1], 1), Vec::<usize>::new());
    assert_eq!(c.find_overlapping_ssts(&s, &[2], 1), vec![11]);
    assert_eq!(c.find_overlapping_ssts(&s, &[13], 1), vec![13]);
}

#[test]
fn level_zero_goes_to_the_bottom_of_a_small_tree() {
    let s = state(
        &[5, 4, 3],
        &[&[], &[], &[1, 2]],
        vec![
            table(5, "a", "c", 10),
            table(4, "b", "d", 10),
            table(3, "a", "b", 10),
            table(1, "b", "c", 10),
            table(2, "x", "y", 10),
        ],
    );
    let t = controller(2, 3).generate_compaction_task(&s).unwrap();
    assert_eq!(parts(&t), (None, vec![5, 4, 3], 3, vec![1], true));
}

#[test]
fn level_zero_at_the_trigger_is_left_alone() {
    let s = state(&[2, 1], &[&[], &[]], vec![table(1, "a", "b", 1), table(2, "a", "b", 1)]);
    assert!(controller(2, 2).generate_compaction_task(&s).is_none());
    assert!(controller(1, 2).generate_compaction_task(&s).is_some());
}

#[test]
fn level_zero_goes_above_a_filled_bottom() {
    let s = state(
        &[5],
        &[&[], &[], &[1]],
        vec![table(5, "a", "c", 10), table(1, "b", "c", MB + 2)],
    );
    let t = controller(0, 3).generate_compaction_task(&s).unwrap();
    assert_eq!(parts(&t), (None, vec![5], 2, vec![], false));
    let at_base = state(
        &[5],
        &[&[], &[], &[1]],
        vec![table(5, "a", "c", 10), table(1, "b", "c", MB)],
    );
    let t = controller(0, 3).generate_compaction_task(&at_base).unwrap();
    assert_eq!(parts(&t), (None, vec![5], 3, vec![1], true));
}

#[test]
fn level_past_its_target_gives_its_oldest_table() {
    let tables = |upper: u64| {
        vec![
            table(7, "a", "c", upper),
            table(6, "m", "n", 1),
            table(1, "b", "c", 2 * MB),
            table(2, "m1", "z", 2 * MB),
        ]
    };
    let over = state(&[], &[&[], &[7, 6], &[1, 2]], tables(2 * MB));
    let t = controller(4, 3).generate_compaction_task(&over).unwrap();
    assert_eq!(parts(&t), (Some(2), vec![6], 3, vec![2], true));
    let at = state(&[], &[&[], &[7, 6], &[1, 2]], tables(2 * MB - 1));
    assert!(controller(4, 3).generate_compaction_task(&at).is_none());
}

#[test]
fn full_level_zero_comes_first() {
    let s = state(
        &[9],
        &[&[7], &[1]],
        vec![table(9, "a", "a", 1), table(7, "a", "c", 9 * MB), table(1, "b", "c", 2 * MB)],
    );
    let t = controller(0, 2).generate_compaction_task(&s).unwrap();
    assert_eq!(parts(&t), (None, vec![9], 1, vec![7], false));
    let t = controller(1, 2).generate_compaction_task(&s).unwrap();
    assert_eq!(parts(&t), (Some(1), vec![7], 2, vec![1], true));
}

#[test]
fn single_level_never_overflows() {
    let s = state(&[], &[&[1]], vec![table(1, "a", "b", 50 * MB)]);
    assert!(controller(0, 1).generate_compaction_task(&s).is_none());
}

#[test]
fn result_is_sorted_by_first_key() {
    let s = state(
        &[9, 8],
        &[&[3, 2, 4]],
        vec![
            table(9, "a", "z", 1),
            table(8, "a", "z", 1),
            table(2, "d", "e", 1),
            table(3, "a", "b", 1),
            table(4, "x", "y", 1),
            table(20, "m", "n", 1),
            table(21, "b", "c", 1),
        ],
    );
    let t = LeveledCompactionTask {
        upper_level: None,
        upper_level_sst_ids: vec![8],
        lower_level: 1,
        lower_level_sst_ids: vec![2],
        is_lower_level_bottom_level: true,
    };
    let (after, removed) = controller(0, 1).apply_compaction_result(&s, &t, &[20, 21], false);
    assert_eq!(removed, vec![8, 2]);
    assert_eq!(after.l0_sstables, vec![9]);
    assert_eq!(level_ids(&after), vec![vec![3, 21, 20, 4]]);
    let (after, removed) = controller(0, 1).apply_compaction_result(&s, &t, &[20, 21], true);
    assert_eq!(removed, vec![8, 2]);
    assert_eq!(level_ids(&after), vec![vec![3, 4, 20, 21]]);
}

#[test]
fn tables_with_the_same_first_key_stay_in_order() {
    let s = state(
        &[],
        &[&[1], &[5, 4]],
        vec![
            table(1, "a", "z", 1),
            table(4, "k", "k1", 1),
            table(5, "k", "k2", 1),
            table(6, "k", "k3", 1),
            table(7, "a", "b", 1),
        ],
    );
    let t = LeveledCompactionTask {
        upper_level: Some(1),
        upper_level_sst_ids: vec![1],
        lower_level: 2,
        lower_level_sst_ids: vec![],
        is_lower_level_bottom_level: true,
    };
    let (after, removed) = controller(0, 2).apply_compaction_result(&s, &t, &[6, 7], false);
    assert_eq!(removed, vec![1]);
    assert_eq!(level_ids(&after), vec![vec![], vec![7, 5, 4, 6]]);
    assert_eq!(after.levels[1].0, 2);
}

#[test]
fn applying_exchanges_the_tables() {
    let s = state(
        &[5],
        &[&[], &[1, 2]],
        vec![
            table(5, "a", "c", 10),
            table(1, "b", "c", 10),
            table(2, "x", "y", 10),
            table(30, "a", "c", 20),
        ],
    );
    let c = controller(0, 2);
    let t = c.generate_compaction_task(&s).unwrap();
    let (after, removed) = c.apply_compaction_result(&s, &t, &[30], false);
    let mut left: Vec<usize> = after.l0_sstables.clone();
    left.extend(level_ids(&after).concat());
    left.extend(removed);
    left.sort();
    assert_eq!(left, vec![1, 2, 5, 30]);
}

#[test]
fn lower_level_stays_a_run() {
    let mut s = state(
        &[],
        &[&[7], &[1, 2, 3, 4]],
        vec![
            table(7, "e", "k", 9 * MB),
            table(1, "a", "c", MB),
            table(2, "d", "f", MB),
            table(3, "j", "m", MB),
            table(4, "n", "z", MB),
        ],
    );
    let c = controller(4, 2);
    let t = c.generate_compaction_task(&s).unwrap();
    assert_eq!(parts(&t), (Some(1), vec![7], 2, vec![2, 3], true));
    for new in [table(20, "g", "m", MB), table(21, "d", "f", MB)] {
        s.sstables.insert(new.id, new);
    }
    let (after, _) = c.apply_compaction_result(&s, &t, &[21, 20], false);
    assert_eq!(level_ids(&after), vec![vec![], vec![1, 21, 20, 4]]);
    for w in after.levels[1].1.windows(2) {
        let (a, b) = (after.table(w[0]), after.table(w[1]));
        assert!(a.last_key().raw_ref() < b.first_key().raw_ref());
    }
}

#[test]
fn level_zero_goes_to_the_first_level_with_a_target() {
    let s = state(
        &[5],
        &[&[], &[], &[1]],
        vec![table(5, "a", "b", 9), table(1, "c", "d", 8 * MB)],
    );
    // The targets are 2, 4 and 8 MiB.
    let t = controller(0, 3).generate_compaction_task(&s).unwrap();
    assert_eq!(parts(&t), (None, vec![5], 1, vec![], false));
    // With 2 MiB at the bottom the level above has the base size, and the one above that none.
    let s = state(
        &[5],
        &[&[], &[], &[1]],
        vec![table(5, "a", "b", 9), table(1, "a", "d", 2 * MB)],
    );
    let t = controller(0, 3).generate_compaction_task(&s).unwrap();
    assert_eq!(parts(&t), (None, vec![5], 2, vec![], false));
}

/// Four levels, the bottom one of 16 MiB, so that the targets are 2, 4, 8 and 16 MiB.
fn four_levels(sizes: [u64; 3]) -> LsmStorageState {
    state(
        &[],
        &[&[3], &[2], &[1], &[9]],
        vec![
            table(3, "a", "b", sizes[0]),
            table(2, "a", "b", sizes[1]),
            table(1, "a", "b", sizes[2]),
            table(9, "a", "b", 16 * MB),
        ],
    )
}

#[test]
fn level_furthest_above_its_target_is_merged() {
    let task = |sizes| controller(0, 4).generate_compaction_task(&four_levels(sizes));
    let t = task([3 * MB, 5 * MB, 9 * MB]).unwrap();
    assert_eq!(parts(&t), (Some(1), vec![3], 2, vec![2], false));
    let t = task([3 * MB, 9 * MB, 9 * MB]).unwrap();
    assert_eq!(parts(&t), (Some(2), vec![2], 3, vec![1], false));
    let t = task([3 * MB, 9 * MB, 30 * MB]).unwrap();
    assert_eq!(parts(&t), (Some(3), vec![1], 4, vec![9], true));
    assert!(task([2 * MB, 4 * MB, 8 * MB]).is_none());
    let t = task([2 * MB, 4 * MB + 1, 8 * MB]).unwrap();
    assert_eq!(t.upper_level, Some(2));
}

#[test]
fn of_equally_full_levels_the_lowest_is_merged() {
    let task = |sizes| controller(0, 4).generate_compaction_task(&four_levels(sizes)).unwrap();
    assert_eq!(task([3 * MB, 6 * MB, 12 * MB]).upper_level, Some(3));
    assert_eq!(task([3 * MB, 6 * MB, 8 * MB]).upper_level, Some(2));
}

#[test]
fn choice_of_level_agrees_with_doubles() {
    let mut x: u64 = 0x1234_5678_9abc_def1;
    for round in 0..2000usize {
        let n = 1 + round % 5;
        let multiplier = 1 + round % 4;
        let mut sizes: Vec<u64> = Vec::new();
        for _ in 0..n {
            x ^= x << 13;
            x ^= x >> 7;
            x ^= x << 17;
            sizes.push((x % (20 * MB)) >> (x % 5));
        }
        let mut targets = vec![0u64; n];
        targets[n - 1] = sizes[n - 1].max(MB);
        let mut base_level = n;
        for i in (0..n - 1).rev() {
            if targets[i + 1] > MB {
                targets[i] = targets[i + 1] / multiplier as u64;
            }
            if targets[i] > 0 {
                base_level = i + 1;
            }
        }
        let mut prior: Vec<(f64, usize)> = Vec::new();
        for i in base_level - 1..n {
            let priority = sizes[i] as f64 / targets[i] as f64;
            if priority > 1.0 {
                prior.push((priority, i + 1));
            }
        }
        prior.sort_by(|a, b| b.partial_cmp(a).unwrap());
        let ids: Vec<Vec<usize>> = (0..n).map(|i| vec![i + 1]).collect();
        let levels: Vec<&[usize]> = ids.iter().map(|l| l.as_slice()).collect();
        let tables: Vec<SsTable> = (0..n).map(|i| table(i + 1, "a", "b", sizes[i])).collect();
        let c = LeveledCompactionController::new(LeveledCompactionOptions {
            level_size_multiplier: multiplier,
            level0_file_num_compaction_trigger: 0,
            max_levels: n,
            base_level_size_mb: 1,
        });
        let s = state(&[], &levels, tables);
        let upper = c.generate_compaction_task(&s).map(|t| t.upper_level.unwrap());
        assert_eq!(upper, prior.first().map(|p| p.1), "{:?} {:?}", sizes, targets);
        let mut with_l0 = s.clone();
        with_l0.l0_sstables.push(1);
        let t = c.generate_compaction_task(&with_l0).unwrap();
        assert_eq!(t.lower_level, base_level);
        assert_eq!(t.is_lower_level_bottom_level, base_level == n);
    }
}
