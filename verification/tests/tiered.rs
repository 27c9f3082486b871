use mini_lsm::compact::tiered::{
    TieredCompactionController, TieredCompactionOptions, TieredCompactionTask,
};
use mini_lsm::lsm_storage::LsmStorageState;
use std::collections::HashMap;

fn state(tiers: &[(usize, &[usize])]) -> LsmStorageState {
    LsmStorageState {
        l0_sstables: vec![],
        levels: tiers.iter().map(|(n, ids)| (*n, ids.to_vec())).collect(),
        sstables: HashMap::new(),
    }
}

/// Tiers of the given sizes, the newest first, each numbered as its first table.
fn sized(sizes: &[usize]) -> LsmStorageState {
    let mut next = 100;
    let mut levels = Vec::new();
    for &n in sizes {
        let ids: Vec<usize> = (next..next + n).collect();
        levels.push((next, ids));
        next += n.max(1);
    }
    LsmStorageState { l0_sstables: vec![], levels, sstables: HashMap::new() }
}

fn options() -> TieredCompactionOptions {
    TieredCompactionOptions {
        num_tiers: 3,
        max_size_amplification_percent: 200,
        size_ratio: 1,
        min_merge_width: 2,
        max_merge_width: None,
    }
}

fn width(options: TieredCompactionOptions, sizes: &[usize]) -> Option<(usize, bool)> {
    let s = sized(sizes);
    let task = TieredCompactionController::new(options).generate_compaction_task(&s);
    task.map(|t| {
        assert_eq!(t.tiers, s.levels[..t.tiers.len()].to_vec());
        (t.tiers.len(), t.bottom_tier_included)
    })
}

/// The same decision on doubles.
fn expected(o: TieredCompactionOptions, sizes: &[usize]) -> Option<(usize, bool)> {
    let n = sizes.len();
    if o.num_tiers > n {
        return None;
    }
    let upper: usize = sizes[..n - 1].iter().sum();
    let limit = o.max_size_amplification_percent as f64 / 100.0;
    if upper as f64 / sizes[n - 1] as f64 > limit {
        return Some((n, true));
    }
    let trigger = (o.size_ratio as f64 + 100.0) / 100.0;
    let mut pre = 0;
    for i in 0..n - 1 {
        pre += sizes[i];
        if sizes[i + 1] as f64 / pre as f64 > trigger && i + 1 > o.min_merge_width {
            return Some((i + 1, false));
        }
    }
    let m = n.min(o.max_merge_width.unwrap_or(usize::MAX));
    Some((m, m >= n))
}

#[test]
fn few_tiers_are_left_alone() {
    assert_eq!(width(options(), &[1, 1]), None);
    assert_eq!(width(options(), &[]), None);
}

#[test]
fn space_amplification_merges_all() {
    assert_eq!(width(options(), &[1, 2, 1]), Some((3, true)));
    assert_eq!(width(options(), &[1, 1, 0]), Some((3, true)));
}

#[test]
fn size_ratio_merges_the_first_tiers() {
    // Two tiers are not more than the least width, three are.
    assert_eq!(width(options(), &[1, 1, 4, 4]), Some((4, true)));
    assert_eq!(width(options(), &[1, 1, 1, 4]), Some((3, false)));
    let o = TieredCompactionOptions { size_ratio: 34, ..options() };
    assert_eq!(width(o, &[1, 1, 1, 4]), Some((4, true)));
    let o = TieredCompactionOptions { size_ratio: 33, ..options() };
    assert_eq!(width(o, &[1, 1, 1, 4]), Some((3, false)));
}

#[test]
fn merge_width_is_bounded() {
    let o = TieredCompactionOptions { max_merge_width: Some(2), ..options() };
    assert_eq!(width(o, &[1, 1, 1]), Some((2, false)));
    let o = TieredCompactionOptions { max_merge_width: Some(3), ..options() };
    assert_eq!(width(o, &[1, 1, 1]), Some((3, true)));
    let o = TieredCompactionOptions { max_merge_width: Some(0), ..options() };
    assert_eq!(width(o, &[1, 1, 1]), Some((0, false)));
}

#[test]
fn decisions_agree_with_doubles() {
    let mut x: u64 = 88172645463325252;
    for round in 0..3000usize {
        let mut sizes = Vec::new();
        for _ in 0..(1 + round % 6) {
            x ^= x << 13;
            x ^= x >> 7;
            x ^= x << 17;
            sizes.push((x % 12) as usize);
        }
        let o = TieredCompactionOptions {
            num_tiers: round % 4,
            max_size_amplification_percent: [50, 100, 150, 300][round % 4],
            size_ratio: [0, 1, 20, 50, 133][round % 5],
            min_merge_width: round % 3,
            max_merge_width: [None, Some(2), Some(4)][round % 3],
        };
        assert_eq!(width(o, &sizes), expected(o, &sizes), "{:?} {:?}", o, sizes);
    }
}

#[test]
fn merged_tiers_are_replaced_by_one() {
    let s = state(&[(9, &[9]), (7, &[7, 8]), (3, &[3]), (1, &[1, 2])]);
    let c = TieredCompactionController::new(options());
    let task = TieredCompactionTask {
        tiers: vec![(9, vec![9]), (7, vec![7, 8])],
        bottom_tier_included: false,
    };
    let (after, removed) = c.apply_compaction_result(&s, &task, &[20, 21]);
    assert_eq!(removed, vec![9, 7, 8]);
    assert_eq!(after.levels, vec![(20, vec![20, 21]), (3, vec![3]), (1, vec![1, 2])]);
}

#[test]
fn newer_tiers_stay_in_front() {
    let s = state(&[(11, &[11]), (9, &[9]), (7, &[7, 8]), (1, &[1, 2])]);
    let c = TieredCompactionController::new(options());
    let task = TieredCompactionTask {
        tiers: vec![(9, vec![9]), (7, vec![7, 8])],
        bottom_tier_included: false,
    };
    let (after, removed) = c.apply_compaction_result(&s, &task, &[20]);
    assert_eq!(removed, vec![9, 7, 8]);
    assert_eq!(after.levels, vec![(11, vec![11]), (20, vec![20]), (1, vec![1, 2])]);
}

#[test]
fn empty_tier_task_adds_a_tier_behind_the_first() {
    let s = state(&[(11, &[11]), (9, &[9])]);
    let c = TieredCompactionController::new(options());
    let task = TieredCompactionTask { tiers: vec![], bottom_tier_included: false };
    let (after, removed) = c.apply_compaction_result(&s, &task, &[20]);
    assert!(removed.is_empty());
    assert_eq!(after.levels, vec![(11, vec![11]), (20, vec![20]), (9, vec![9])]);
}

#[test]
fn generated_task_is_applied() {
    let s = sized(&[1, 2, 1]);
    let c = TieredCompactionController::new(options());
    let task = c.generate_compaction_task(&s).unwrap();
    let (after, removed) = c.apply_compaction_result(&s, &task, &[200]);
    assert_eq!(after.levels, vec![(200, vec![200])]);
    assert_eq!(removed, vec![100, 101, 102, 103]);
}

#[test]
fn generated_task_is_applied_behind_later_tiers() {
    let s = sized(&[1, 1, 1, 4]);
    let c = TieredCompactionController::new(options());
    let task = c.generate_compaction_task(&s).unwrap();
    assert_eq!(task.tiers.len(), 3);
    let mut later = s.clone();
    later.levels.insert(0, (301, vec![301, 302]));
    let (after, removed) = c.apply_compaction_result(&later, &task, &[200, 201]);
    assert_eq!(removed, vec![100, 101, 102]);
    assert_eq!(
        after.levels,
        vec![
            (301, vec![301, 302]),
            (200, vec![200, 201]),
            (103, vec![103, 104, 105, 106]),
        ]
    );
}
