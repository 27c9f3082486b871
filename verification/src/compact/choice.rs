//! What leveled and tiered compaction choose, in terms of the levels, their tables and the options.

use super::leveled::{
    lemma_base_level, lemma_least_id, lemma_next_exists, lemma_overfull_has_tables,
    level_size, overlapping, overlaps, LeveledCompactionOptions, LeveledTaskView,
};
use super::tiered::{size_of_first, TieredCompactionOptions, TieredTaskView};
use crate::double::{double, exceeds, quotient_exceeds};
use crate::ids::lemma_same_filter;
use crate::key::key_lt;
use crate::lsm_storage::{level_ids, StateView};
use vstd::prelude::*;

verus! {

/// The sizes that leveled compaction goes by. The bottom level has its own size for a target, or
/// the base size in megabytes if that is larger. A level above has a target just where that of the
/// level below it is larger than the base size: that target divided by the multiplier, rounded
/// down.
pub proof fn lemma_leveled_targets(options: LeveledCompactionOptions, s: StateView, n: int)
    requires
        1 <= n <= options.max_levels,
    ensures
        ({
            let base = options.base_level_size_mb * 1048576;
            let bottom = options.target(s, options.max_levels as int);
            let size = s.total_size(s.levels[options.max_levels - 1].1);
            let below = options.target(s, n + 1);
            let own = options.target(s, n);
            &&& options.base_size() == base
            &&& bottom >= base && bottom >= size
            &&& bottom == base || bottom == size
            &&& n < options.max_levels && below <= base ==> own == 0
            &&& n < options.max_levels && below > base && options.level_size_multiplier > 0 ==> own
                * options.level_size_multiplier <= below < (own + 1) * options.level_size_multiplier
            &&& level_size(s, n) == s.total_size(s.levels[n - 1].1)
        }),
{
    let m = options.level_size_multiplier as int;
    let below = options.target(s, n + 1) as int;
    if below > options.base_size() && m > 0 {
        let q = below / m;
        vstd::arithmetic::div_mod::lemma_fundamental_div_mod(below, m);
        assert(q * m <= below < (q + 1) * m) by (nonlinear_arith)
            requires
                below == m * q + below % m,
                0 <= below % m < m,
        ;
    }
}

/// For which states leveled compaction can choose: those with the levels of the options, whose
/// tables are known and whose sizes can be added up, a base size in bytes that can be held, a
/// multiplier if the bottom level has outgrown the base size, and the tables of level 0 if it is
/// to be merged.
pub proof fn lemma_leveled_fits(options: LeveledCompactionOptions, s: StateView)
    requires
        1 <= options.max_levels <= s.levels.len(),
        options.base_level_size_mb * 1048576 <= usize::MAX,
        forall|i: int, id: usize|
            0 <= i < options.max_levels && #[trigger] s.levels[i].1.contains(id)
                ==> s.sstables.contains_key(id),
        forall|i: int|
            0 <= i < options.max_levels ==> s.total_size((#[trigger] s.levels[i]).1) <= usize::MAX,
        options.max_levels >= 2 && s.total_size(s.levels[options.max_levels - 1].1)
            > options.base_level_size_mb * 1048576 ==> options.level_size_multiplier > 0,
        s.l0_sstables.len() > options.level0_file_num_compaction_trigger ==> forall|id: usize|
            #[trigger] s.l0_sstables.contains(id) ==> s.sstables.contains_key(id),
    ensures
        options.fits(s),
{
    assert forall|i: int| 0 <= i < options.max_levels implies {
        &&& s.has_tables((#[trigger] s.levels[i]).1)
        &&& s.total_size(s.levels[i].1) <= usize::MAX
    } by {
        let ids = s.levels[i].1;
        assert forall|k: int| 0 <= k < ids.len() implies s.sstables.contains_key(
            #[trigger] ids[k],
        ) by {
            assert(s.levels[i].1.contains(ids[k]));
        }
    }
    if s.l0_sstables.len() > options.level0_file_num_compaction_trigger {
        assert forall|k: int| 0 <= k < s.l0_sstables.len() implies s.sstables.contains_key(
            #[trigger] s.l0_sstables[k],
        ) by {
            assert(s.l0_sstables.contains(s.l0_sstables[k]));
        }
    }
}

/// A task that merges a level takes one of its tables, the oldest: the id that it takes is one of
/// the level's, and no id of the level is smaller.
pub proof fn lemma_oldest_table_is_taken(
    options: LeveledCompactionOptions,
    s: StateView,
    task: LeveledTaskView,
    n: usize,
)
    requires
        options.fits(s),
        options.task(s) == Some(task),
        task.upper_level == Some(n),
    ensures
        1 <= n < options.max_levels,
        task.upper_level_sst_ids.len() == 1,
        s.levels[n - 1].1.contains(task.upper_level_sst_ids[0]),
        forall|id: usize| #[trigger]
            s.levels[n - 1].1.contains(id) ==> task.upper_level_sst_ids[0] <= id,
{
    lemma_base_level(options, s);
    let ids = s.levels[n - 1].1;
    lemma_overfull_has_tables(options, s, n as int);
    lemma_least_id(ids);
    assert forall|id: usize| #[trigger] ids.contains(id) implies task.upper_level_sst_ids[0]
        <= id by {
        let i = choose|i: int| 0 <= i < ids.len() && ids[i] == id;
        assert(task.upper_level_sst_ids[0] <= ids[i]);
    }
}

/// A task goes into a level of the tree, and says that this is the bottom level just where it is
/// the last one of the options. Level 0 goes into the first level that has a target; another level
/// into the one below it.
pub proof fn lemma_leveled_destination(
    options: LeveledCompactionOptions,
    s: StateView,
    task: LeveledTaskView,
)
    requires
        options.fits(s),
        options.task(s) == Some(task),
    ensures
        1 <= task.lower_level <= options.max_levels,
        task.is_lower_level_bottom_level <==> task.lower_level == options.max_levels,
        task.upper_level matches Some(n) ==> task.lower_level == n + 1,
        task.upper_level is None ==> {
            &&& task.lower_level < options.max_levels ==> options.target(s, task.lower_level as int)
                > 0
            &&& forall|m: int| 1 <= m < task.lower_level ==> #[trigger] options.target(s, m) == 0
        },
{
    lemma_base_level(options, s);
}

/// Level 0 is merged just where it has more tables than the trigger, and then whole. Otherwise the
/// level is merged whose size is the largest multiple of its target, at double precision, of those
/// that are larger than their targets; of several with the same multiple the lowest in the tree.
/// Where no level is larger than its target, nothing is merged.
pub proof fn lemma_leveled_choice(options: LeveledCompactionOptions, s: StateView)
    requires
        options.fits(s),
    ensures
        s.l0_sstables.len() > options.level0_file_num_compaction_trigger <==> (options.task(
            s,
        ) matches Some(task) && task.upper_level is None),
        options.task(s) matches Some(task) ==> (task.upper_level is None ==> task.upper_level_sst_ids
            == s.l0_sstables),
        options.task(s) is None ==> forall|m: int|
            1 <= m < options.max_levels && options.target(s, m) > 0 ==> !exceeds(
                s.total_size(s.levels[m - 1].1),
                #[trigger] options.target(s, m),
            ),
        forall|n: usize|
            (options.task(s) matches Some(task) && task.upper_level == Some(n)) ==> {
                let size = s.total_size(s.levels[n - 1].1);
                let target = #[trigger] options.target(s, n as int);
                &&& 1 <= n < options.max_levels
                &&& target > 0
                &&& exceeds(size, target)
                &&& forall|m: int|
                    1 <= m < options.max_levels && options.target(s, m) > 0 && exceeds(
                        s.total_size(s.levels[m - 1].1),
                        #[trigger] options.target(s, m),
                    ) ==> {
                        let other = s.total_size(s.levels[m - 1].1);
                        &&& !quotient_exceeds(other, options.target(s, m), size, target)
                        &&& m > n ==> quotient_exceeds(size, target, other, options.target(s, m))
                    }
            },
{
    lemma_base_level(options, s);
    if options.task(s) is None {
        assert forall|m: int|
            1 <= m < options.max_levels && options.target(s, m) > 0 implies !exceeds(
            s.total_size(s.levels[m - 1].1),
            #[trigger] options.target(s, m),
        ) by {
            if exceeds(level_size(s, m), options.target(s, m)) {
                assert(options.is_overfull(s, m));
                lemma_next_exists(options, s, m);
            }
        }
    }
    assert forall|n: usize| (options.task(s) matches Some(task) && task.upper_level == Some(
        n,
    )) implies {
        let size = s.total_size(s.levels[n - 1].1);
        let target = #[trigger] options.target(s, n as int);
        &&& 1 <= n < options.max_levels
        &&& target > 0
        &&& exceeds(size, target)
        &&& forall|m: int|
            1 <= m < options.max_levels && options.target(s, m) > 0 && exceeds(
                s.total_size(s.levels[m - 1].1),
                #[trigger] options.target(s, m),
            ) ==> {
                let other = s.total_size(s.levels[m - 1].1);
                &&& !quotient_exceeds(other, options.target(s, m), size, target)
                &&& m > n ==> quotient_exceeds(size, target, other, options.target(s, m))
            }
    } by {
        let size = s.total_size(s.levels[n - 1].1);
        let target = options.target(s, n as int);
        assert(options.is_next(s, n as int));
        assert forall|m: int|
            1 <= m < options.max_levels && options.target(s, m) > 0 && exceeds(
                s.total_size(s.levels[m - 1].1),
                #[trigger] options.target(s, m),
            ) implies {
            let other = s.total_size(s.levels[m - 1].1);
            &&& !quotient_exceeds(other, options.target(s, m), size, target)
            &&& m > n ==> quotient_exceeds(size, target, other, options.target(s, m))
        } by {
            assert(options.is_overfull(s, m));
        }
    }
}

/// The tables of a level that overlap some tables are those, in their order, not all of whose keys
/// come before the keys of these, and not all after.
pub proof fn lemma_overlapping_tables(s: StateView, upper: Seq<usize>, n: int)
    ensures
        overlapping(s, upper, n) == s.levels[n - 1].1.filter(
            |id: usize|
                {
                    &&& !(forall|a: int|
                        0 <= a < upper.len() ==> key_lt(
                            s.sstables[id].last_key@,
                            s.sstables[#[trigger] upper[a]].first_key@,
                        ))
                    &&& !(forall|a: int|
                        0 <= a < upper.len() ==> key_lt(
                            s.sstables[#[trigger] upper[a]].last_key@,
                            s.sstables[id].first_key@,
                        ))
                },
        ),
{
    let level = s.levels[n - 1].1;
    let p = |id: usize| overlaps(s, upper, id);
    let q = |id: usize|
        {
            &&& !(forall|a: int|
                0 <= a < upper.len() ==> key_lt(
                    s.sstables[id].last_key@,
                    s.sstables[#[trigger] upper[a]].first_key@,
                ))
            &&& !(forall|a: int|
                0 <= a < upper.len() ==> key_lt(
                    s.sstables[#[trigger] upper[a]].last_key@,
                    s.sstables[id].first_key@,
                ))
        };
    assert(overlapping(s, upper, n) == level.filter(p));
    lemma_same_filter(level, p, q);
}

/// The lower tables of a task are those tables of the lower level, in their order, that overlap the
/// range of keys of the upper tables: not all of their keys come before that range, and not all
/// after it.
pub proof fn lemma_overlapping_tables_are_taken(
    options: LeveledCompactionOptions,
    s: StateView,
    task: LeveledTaskView,
)
    requires
        options.fits(s),
        options.task(s) == Some(task),
    ensures
        task.lower_level_sst_ids == s.levels[task.lower_level - 1].1.filter(
            |id: usize|
                {
                    &&& !(forall|a: int|
                        0 <= a < task.upper_level_sst_ids.len() ==> key_lt(
                            s.sstables[id].last_key@,
                            s.sstables[#[trigger] task.upper_level_sst_ids[a]].first_key@,
                        ))
                    &&& !(forall|a: int|
                        0 <= a < task.upper_level_sst_ids.len() ==> key_lt(
                            s.sstables[#[trigger] task.upper_level_sst_ids[a]].last_key@,
                            s.sstables[id].first_key@,
                        ))
                },
        ),
{
    lemma_base_level(options, s);
    let upper = task.upper_level_sst_ids;
    assert(task.lower_level_sst_ids == overlapping(s, upper, task.lower_level as int));
    lemma_overlapping_tables(s, upper, task.lower_level as int);
}

/// The number of tables of the first tiers.
proof fn lemma_size_of_first(s: StateView, n: int)
    requires
        0 <= n <= s.levels.len(),
    ensures
        size_of_first(s, n) == level_ids(s.levels.take(n)).len(),
    decreases n,
{
    if n > 0 {
        lemma_size_of_first(s, n - 1);
        assert(s.levels.take(n).drop_last() =~= s.levels.take(n - 1));
    }
}

/// For which states tiered compaction can choose: those without tables at level 0 that have a tier,
/// unless a number of tiers is asked for, and no more tables than can be counted.
pub proof fn lemma_tiered_fits(options: TieredCompactionOptions, s: StateView)
    requires
        s.l0_sstables.len() == 0,
        options.num_tiers > 0 || s.levels.len() > 0,
        level_ids(s.levels).len() <= usize::MAX,
    ensures
        options.fits(s),
{
    lemma_size_of_first(s, s.levels.len() as int);
    assert(s.levels.take(s.levels.len() as int) =~= s.levels);
}

/// Tiers are merged just where there are as many of them as the options ask for.
pub proof fn lemma_enough_tiers_are_merged(options: TieredCompactionOptions, s: StateView)
    ensures
        options.task(s) is None <==> s.levels.len() < options.num_tiers,
{
}

/// The newest tiers are merged, and a task says whether these are all. All of them are, where the
/// tables above the bottom tier are more than the given percentage of those in it, at double
/// precision.
pub proof fn lemma_amplified_tiers_are_merged(
    options: TieredCompactionOptions,
    s: StateView,
    task: TieredTaskView,
)
    requires
        options.fits(s),
        options.task(s) == Some(task),
    ensures
        s.levels.len() > 0,
        task.tiers.len() <= s.levels.len(),
        task.tiers == s.levels.take(task.tiers.len() as int),
        task.bottom_tier_included <==> task.tiers.len() == s.levels.len(),
        quotient_exceeds(
            level_ids(s.levels.drop_last()).len(),
            s.levels.last().1.len(),
            options.max_size_amplification_percent as nat,
            100,
        ) ==> task.tiers.len() == s.levels.len(),
{
    let n = s.levels.len() as int;
    lemma_size_of_first(s, n - 1);
    assert(s.levels.take(n) =~= s.levels);
    assert(s.levels.take(n - 1) =~= s.levels.drop_last());
}

/// Without too many tables above the bottom tier, where the tier behind the first `m` has more
/// tables than these together by more than the size ratio in percent, and these are more than the
/// least width, some first tiers of which this holds are merged, and no more than `m`. So it is the
/// least such number of tiers that is merged.
pub proof fn lemma_least_ratio_is_merged(
    options: TieredCompactionOptions,
    s: StateView,
    task: TieredTaskView,
    m: int,
)
    requires
        options.fits(s),
        options.task(s) == Some(task),
        !quotient_exceeds(
            level_ids(s.levels.drop_last()).len(),
            s.levels.last().1.len(),
            options.max_size_amplification_percent as nat,
            100,
        ),
        1 <= m < s.levels.len(),
        m > options.min_merge_width,
        quotient_exceeds(
            s.levels[m].1.len(),
            level_ids(s.levels.take(m)).len(),
            double(options.size_ratio as nat) + 100,
            100,
        ),
    ensures
        1 <= task.tiers.len() <= m,
        task.tiers.len() > options.min_merge_width,
        quotient_exceeds(
            s.levels[task.tiers.len() as int].1.len(),
            level_ids(s.levels.take(task.tiers.len() as int)).len(),
            double(options.size_ratio as nat) + 100,
            100,
        ),
{
    let n = s.levels.len() as int;
    lemma_size_of_first(s, n - 1);
    lemma_size_of_first(s, m);
    assert(s.levels.take(n - 1) =~= s.levels.drop_last());
    assert(options.ratio_triggers(s, m));
    let first = lemma_least_trigger(options, s, m);
    assert(options.first_trigger(s, first));
    let chosen = choose|c: int| options.first_trigger(s, c);
    assert(options.first_trigger(s, chosen));
    if m < chosen {
        assert(!options.ratio_triggers(s, m));
    }
    lemma_size_of_first(s, chosen);
}

proof fn lemma_least_trigger(options: TieredCompactionOptions, s: StateView, m: int) -> (r: int)
    requires
        1 <= m,
        options.ratio_triggers(s, m),
    ensures
        1 <= r <= m,
        options.ratio_triggers(s, r),
        forall|j: int| 1 <= j < r ==> !#[trigger] options.ratio_triggers(s, j),
    decreases m,
{
    if exists|j: int| 1 <= j < m && #[trigger] options.ratio_triggers(s, j) {
        let j = choose|j: int| 1 <= j < m && #[trigger] options.ratio_triggers(s, j);
        lemma_least_trigger(options, s, j)
    } else {
        m
    }
}

/// Without too many tables above the bottom tier, and where no first tiers, more than the least
/// width, have a tier behind them that is larger than these together by more than the size ratio in
/// percent, as many tiers are merged as may be at once.
pub proof fn lemma_runs_are_reduced(
    options: TieredCompactionOptions,
    s: StateView,
    task: TieredTaskView,
)
    requires
        options.fits(s),
        options.task(s) == Some(task),
        !quotient_exceeds(
            level_ids(s.levels.drop_last()).len(),
            s.levels.last().1.len(),
            options.max_size_amplification_percent as nat,
            100,
        ),
        forall|m: int|
            options.min_merge_width < m && 1 <= m < s.levels.len() ==> !quotient_exceeds(
                (#[trigger] s.levels[m]).1.len(),
                level_ids(s.levels.take(m)).len(),
                double(options.size_ratio as nat) + 100,
                100,
            ),
    ensures
        task.tiers.len() <= s.levels.len(),
        options.max_merge_width matches Some(w) ==> task.tiers.len() <= w,
        options.max_merge_width matches Some(w) ==> (w <= s.levels.len() ==> task.tiers.len() == w),
        options.max_merge_width matches Some(w) ==> (w > s.levels.len() ==> task.tiers.len()
            == s.levels.len()),
        options.max_merge_width is None ==> task.tiers.len() == s.levels.len(),
{
    let n = s.levels.len() as int;
    lemma_size_of_first(s, n - 1);
    assert(s.levels.take(n - 1) =~= s.levels.drop_last());
    assert(s.levels.take(n) =~= s.levels);
    assert forall|m: int| !options.first_trigger(s, m) by {
        if 1 <= m < n {
            lemma_size_of_first(s, m);
            assert(s.levels[m].1.len() >= 0);
        }
    }
}

} // verus!
