//! Leveled compaction: a level that grows past its target is merged into the next one.

use crate::double::{double, exceeds, is_larger, quotient, quotient_larger};
use crate::double::lemma_double_monotone;
use crate::ids::{
    lemma_filter_keeps_distinct, lemma_without_first_contains, lemma_without_first_keeps_the_rest,
};
use crate::ids::{is_stable_sort, remove_ids, sort_by_first_key, without_first};
use crate::key::{key_le, key_less, lemma_key_le_transitive, lemma_key_lt_irreflexive};
use crate::key::lemma_key_lt_asymmetric;
use crate::lsm_storage::{copy_ids, level_ids, LsmStorageState, StateView};
use crate::lsm_storage::{lemma_count_add, lemma_count_level_update};
use vstd::prelude::*;

verus! {

/// Tables of two adjacent levels to merge into the lower one. Without an `upper_level`, the upper
/// tables are those of level 0.
#[derive(Debug)]
pub struct LeveledCompactionTask {
    pub upper_level: Option<usize>,
    pub upper_level_sst_ids: Vec<usize>,
    pub lower_level: usize,
    pub lower_level_sst_ids: Vec<usize>,
    pub is_lower_level_bottom_level: bool,
}

/// The value of a `LeveledCompactionTask`.
#[verifier::ext_equal]
pub struct LeveledTaskView {
    pub upper_level: Option<usize>,
    pub upper_level_sst_ids: Seq<usize>,
    pub lower_level: usize,
    pub lower_level_sst_ids: Seq<usize>,
    pub is_lower_level_bottom_level: bool,
}

impl View for LeveledCompactionTask {
    type V = LeveledTaskView;

    open spec fn view(&self) -> LeveledTaskView {
        LeveledTaskView {
            upper_level: self.upper_level,
            upper_level_sst_ids: self.upper_level_sst_ids@,
            lower_level: self.lower_level,
            lower_level_sst_ids: self.lower_level_sst_ids@,
            is_lower_level_bottom_level: self.is_lower_level_bottom_level,
        }
    }
}

#[derive(Debug, Clone, Copy)]
pub struct LeveledCompactionOptions {
    pub level_size_multiplier: usize,
    pub level0_file_num_compaction_trigger: usize,
    pub max_levels: usize,
    pub base_level_size_mb: usize,
}

pub struct LeveledCompactionController {
    options: LeveledCompactionOptions,
}

impl View for LeveledCompactionController {
    type V = LeveledCompactionOptions;

    closed spec fn view(&self) -> LeveledCompactionOptions {
        self.options
    }
}

/// The size of level `n` in bytes, counting levels from one.
pub open spec fn level_size(s: StateView, n: int) -> nat {
    s.total_size(s.levels[n - 1].1)
}

impl LeveledCompactionOptions {
    /// The size below which the bottom level does not count as filled, in bytes.
    pub open spec fn base_size(self) -> nat {
        (self.base_level_size_mb * 1024 * 1024) as nat
    }

    /// The target size of the bottom level: its size, or the base size if that is larger.
    pub open spec fn bottom_target(self, s: StateView) -> nat {
        let size = level_size(s, self.max_levels as int);
        if size > self.base_size() {
            size
        } else {
            self.base_size()
        }
    }

    /// The target size of level `n`. Targets go up from the bottom level: a level has one where the
    /// level below it has outgrown the base size, and is then smaller by the multiplier. A level
    /// without a target has the target zero.
    pub open spec fn target(self, s: StateView, n: int) -> nat
        decreases self.max_levels - n,
    {
        if n >= self.max_levels {
            self.bottom_target(s)
        } else if self.target(s, n + 1) > self.base_size() {
            self.target(s, n + 1) / self.level_size_multiplier as nat
        } else {
            0
        }
    }

    /// The first level from `n` on that has a target, or the bottom level.
    pub open spec fn first_with_target(self, s: StateView, n: int) -> int
        decreases self.max_levels - n,
    {
        if n >= self.max_levels {
            self.max_levels as int
        } else if self.target(s, n) > 0 {
            n
        } else {
            self.first_with_target(s, n + 1)
        }
    }

    /// The level into which level 0 is merged: the first one with a target, or the bottom level.
    pub open spec fn base_level(self, s: StateView) -> int {
        self.first_with_target(s, 1)
    }

    /// Whether level `n` has a target and is larger. The bottom level never is larger than its own.
    pub open spec fn is_overfull(self, s: StateView, n: int) -> bool {
        &&& self.base_level(s) <= n < self.max_levels
        &&& exceeds(level_size(s, n), self.target(s, n))
    }

    /// The size of level `n` divided by its target.
    pub open spec fn priority(self, s: StateView, n: int) -> nat {
        quotient(double(level_size(s, n)), double(self.target(s, n)))
    }

    /// Whether level `n` is the next to be merged into the one below it: of those that are larger
    /// than their targets the one with the highest priority, and of several the lowest in the tree.
    pub open spec fn is_next(self, s: StateView, n: int) -> bool {
        &&& self.is_overfull(s, n)
        &&& forall|m: int| #[trigger]
            self.is_overfull(s, m) ==> {
                &&& self.priority(s, m) <= self.priority(s, n)
                &&& m > n ==> self.priority(s, m) < self.priority(s, n)
            }
    }

    /// What the sizes and targets take: levels that are there, with their tables, whose sizes can
    /// be added up, and a multiplier where one is needed.
    pub open spec fn fits(self, s: StateView) -> bool {
        &&& 1 <= self.max_levels <= s.levels.len()
        &&& self.base_size() <= usize::MAX
        &&& forall|i: int|
            0 <= i < self.max_levels ==> {
                &&& s.has_tables((#[trigger] s.levels[i]).1)
                &&& s.total_size(s.levels[i].1) <= usize::MAX
            }
        &&& self.max_levels >= 2 && self.bottom_target(s) > self.base_size()
            ==> self.level_size_multiplier > 0
        &&& s.l0_sstables.len() > self.level0_file_num_compaction_trigger ==> s.has_tables(
            s.l0_sstables,
        )
    }

    /// The compaction that state `s` calls for.
    pub open spec fn task(self, s: StateView) -> Option<LeveledTaskView> {
        let base = self.base_level(s);
        let bottom = self.max_levels as int;
        if s.l0_sstables.len() > self.level0_file_num_compaction_trigger {
            Some(
                LeveledTaskView {
                    upper_level: None,
                    upper_level_sst_ids: s.l0_sstables,
                    lower_level: base as usize,
                    lower_level_sst_ids: overlapping(s, s.l0_sstables, base),
                    is_lower_level_bottom_level: base == bottom,
                },
            )
        } else if exists|n: int| self.is_next(s, n) {
            let n = choose|n: int| self.is_next(s, n);
            let oldest = seq![least_id(s.levels[n - 1].1)];
            Some(
                LeveledTaskView {
                    upper_level: Some(n as usize),
                    upper_level_sst_ids: oldest,
                    lower_level: (n + 1) as usize,
                    lower_level_sst_ids: overlapping(s, oldest, n + 1),
                    is_lower_level_bottom_level: n + 1 == bottom,
                },
            )
        } else {
            None
        }
    }
}

/// The base level is a level, and it and all levels below it have targets, but for an empty bottom
/// level with the base size zero.
pub proof fn lemma_base_level(options: LeveledCompactionOptions, s: StateView)
    requires
        options.max_levels >= 1,
    ensures
        1 <= options.base_level(s) <= options.max_levels,
        forall|n: int|
            options.base_level(s) <= n < options.max_levels ==> #[trigger] options.target(s, n) > 0,
        forall|n: int|
            1 <= n < options.base_level(s) ==> #[trigger] options.target(s, n) == 0,
{
    lemma_first_with_target(options, s, 1);
}

proof fn lemma_first_with_target(options: LeveledCompactionOptions, s: StateView, n: int)
    requires
        n <= options.max_levels,
    ensures
        n <= options.first_with_target(s, n) <= options.max_levels,
        forall|m: int|
            options.first_with_target(s, n) <= m < options.max_levels ==> #[trigger] options.target(
                s,
                m,
            ) > 0,
        forall|m: int|
            n <= m < options.first_with_target(s, n) ==> #[trigger] options.target(s, m) == 0,
    decreases options.max_levels - n,
{
    if n < options.max_levels {
        lemma_first_with_target(options, s, n + 1);
        if options.target(s, n) > 0 {
            assert(options.target(s, n + 1) > 0);
            assert(options.first_with_target(s, n + 1) == n + 1);
        }
    }
}

/// At most one level is the next.
pub proof fn lemma_next_unique(options: LeveledCompactionOptions, s: StateView, m: int, n: int)
    requires
        options.is_next(s, m),
        options.is_next(s, n),
    ensures
        m == n,
{
}

/// Where some level is larger than its target, one is the next.
pub proof fn lemma_next_exists(options: LeveledCompactionOptions, s: StateView, n: int)
    requires
        options.max_levels >= 1,
        options.is_overfull(s, n),
    ensures
        exists|m: int| options.is_next(s, m),
{
    lemma_base_level(options, s);
    let m = lemma_next_below(options, s, options.max_levels as int, n);
    assert(options.is_next(s, m));
}

/// Of the levels above level `end` that are larger than their targets one has the highest priority.
proof fn lemma_next_below(options: LeveledCompactionOptions, s: StateView, end: int, n: int) -> (m:
    int)
    requires
        options.base_level(s) >= 1,
        options.is_overfull(s, n),
        n < end <= options.max_levels,
    ensures
        options.is_overfull(s, m),
        m < end,
        forall|k: int| #[trigger]
            options.is_overfull(s, k) && k < end ==> {
                &&& options.priority(s, k) <= options.priority(s, m)
                &&& k > m ==> options.priority(s, k) < options.priority(s, m)
            },
    decreases end,
{
    let last = end - 1;
    if exists|k: int| options.is_overfull(s, k) && k < last {
        let k = choose|k: int| options.is_overfull(s, k) && k < last;
        let m = lemma_next_below(options, s, last, k);
        if options.is_overfull(s, last) && options.priority(s, last) >= options.priority(s, m) {
            last
        } else {
            m
        }
    } else {
        assert(n == last);
        n
    }
}

/// An overfull level has tables.
pub proof fn lemma_overfull_has_tables(options: LeveledCompactionOptions, s: StateView, n: int)
    requires
        options.is_overfull(s, n),
    ensures
        s.levels[n - 1].1.len() > 0,
{
    if s.levels[n - 1].1.len() == 0 {
        lemma_double_monotone(level_size(s, n), options.target(s, n));
    }
}

/// The smallest of `ids`: the oldest table.
pub open spec fn least_id(ids: Seq<usize>) -> usize
    decreases ids.len(),
{
    if ids.len() <= 1 {
        ids[0]
    } else {
        let m = least_id(ids.drop_last());
        if ids.last() < m {
            ids.last()
        } else {
            m
        }
    }
}

/// Whether the keys of table `id` reach into the range from the smallest to the largest key of
/// the tables `ids`.
pub open spec fn overlaps(s: StateView, ids: Seq<usize>, id: usize) -> bool {
    &&& exists|a: int|
        0 <= a < ids.len() && key_le(s.first_key(#[trigger] ids[a]), s.last_key(id))
    &&& exists|b: int|
        0 <= b < ids.len() && key_le(s.first_key(id), s.last_key(#[trigger] ids[b]))
}

/// The tables of level `n` whose keys overlap those of the tables `ids`, in their order.
pub open spec fn overlapping(s: StateView, ids: Seq<usize>, n: int) -> Seq<usize> {
    s.levels[n - 1].1.filter(|id: usize| overlaps(s, ids, id))
}

proof fn lemma_total_size_prefix(s: StateView, ids: Seq<usize>, i: int)
    requires
        0 <= i <= ids.len(),
    ensures
        s.total_size(ids.take(i)) <= s.total_size(ids),
    decreases ids.len() - i,
{
    if i < ids.len() {
        lemma_total_size_prefix(s, ids, i + 1);
        assert(ids.take(i + 1).drop_last() =~= ids.take(i));
    } else {
        assert(ids.take(i) =~= ids);
    }
}

fn sum_of_sizes(s: &LsmStorageState, ids: &Vec<usize>) -> (r: usize)
    requires
        s@.has_tables(ids@),
        s@.total_size(ids@) <= usize::MAX,
    ensures
        r == s@.total_size(ids@),
{
    let mut sum: u64 = 0;
    let mut i: usize = 0;
    while i < ids.len()
        invariant
            i <= ids@.len(),
            s@.has_tables(ids@),
            s@.total_size(ids@) <= usize::MAX,
            sum == s@.total_size(ids@.take(i as int)),
        decreases ids@.len() - i,
    {
        proof {
            lemma_total_size_prefix(s@, ids@, i + 1);
            assert(ids@.take(i + 1).drop_last() =~= ids@.take(i as int));
        }
        sum = sum + s.table(ids[i]).table_size();
        i += 1;
    }
    assert(ids@.take(i as int) =~= ids@);
    sum as usize
}

/// The least id is one of the ids.
pub proof fn lemma_least_id(ids: Seq<usize>)
    requires
        ids.len() > 0,
    ensures
        ids.contains(least_id(ids)),
        forall|i: int| 0 <= i < ids.len() ==> least_id(ids) <= #[trigger] ids[i],
    decreases ids.len(),
{
    if ids.len() > 1 {
        let front = ids.drop_last();
        lemma_least_id(front);
        let m = least_id(front);
        let k = choose|k: int| 0 <= k < front.len() && front[k] == m;
        assert(ids[k] == m);
        assert(ids[ids.len() - 1] == ids.last());
        assert forall|i: int| 0 <= i < ids.len() implies least_id(ids) <= #[trigger] ids[i] by {
            if i < front.len() {
                assert(front[i] == ids[i]);
            }
        }
    }
}

fn oldest(ids: &Vec<usize>) -> (r: usize)
    requires
        ids@.len() > 0,
    ensures
        r == least_id(ids@),
{
    let mut m: usize = ids[0];
    let mut i: usize = 1;
    assert(ids@.take(1).last() == ids@[0]);
    while i < ids.len()
        invariant
            1 <= i <= ids@.len(),
            m == least_id(ids@.take(i as int)),
        decreases ids@.len() - i,
    {
        assert(ids@.take(i + 1).drop_last() =~= ids@.take(i as int));
        if ids[i] < m {
            m = ids[i];
        }
        i += 1;
    }
    assert(ids@.take(i as int) =~= ids@);
    m
}

impl LeveledCompactionController {
    pub fn new(options: LeveledCompactionOptions) -> (r: LeveledCompactionController)
        ensures
            r@ == options,
    {
        LeveledCompactionController { options }
    }

    /// The tables of level `in_level` whose keys overlap the range of keys of `sst_ids`.
    pub fn find_overlapping_ssts(
        &self,
        snapshot: &LsmStorageState,
        sst_ids: &[usize],
        in_level: usize,
    ) -> (r: Vec<usize>)
        requires
            sst_ids@.len() > 0,
            snapshot@.has_tables(sst_ids@),
            1 <= in_level <= snapshot@.levels.len(),
            snapshot@.has_tables(snapshot@.levels[in_level - 1].1),
        ensures
            r@ == overlapping(snapshot@, sst_ids@, in_level as int),
    {
        let ghost s = snapshot@;
        // The tables with the smallest first key and with the largest last key.
        let mut begin: usize = 0;
        let mut end: usize = 0;
        let mut i: usize = 1;
        proof {
            lemma_key_lt_irreflexive(s.first_key(sst_ids@[0]));
            lemma_key_lt_irreflexive(s.last_key(sst_ids@[0]));
        }
        while i < sst_ids.len()
            invariant
                1 <= i <= sst_ids@.len(),
                begin < i,
                end < i,
                s == snapshot@,
                s.has_tables(sst_ids@),
                forall|j: int|
                    0 <= j < i ==> key_le(
                        s.first_key(sst_ids@[begin as int]),
                        s.first_key(#[trigger] sst_ids@[j]),
                    ),
                forall|j: int|
                    0 <= j < i ==> key_le(
                        s.last_key(#[trigger] sst_ids@[j]),
                        s.last_key(sst_ids@[end as int]),
                    ),
            decreases sst_ids@.len() - i,
        {
            let table = snapshot.table(sst_ids[i]);
            let ghost old_begin = sst_ids@[begin as int];
            let ghost old_end = sst_ids@[end as int];
            let ghost id = sst_ids@[i as int];
            proof {
                lemma_key_lt_irreflexive(s.first_key(id));
                lemma_key_lt_irreflexive(s.last_key(id));
            }
            if key_less(
                table.first_key().raw_ref(),
                snapshot.table(sst_ids[begin]).first_key().raw_ref(),
            ) {
                proof {
                    lemma_key_lt_asymmetric(s.first_key(id), s.first_key(old_begin));
                    assert forall|j: int| 0 <= j < i implies key_le(
                        s.first_key(id),
                        s.first_key(#[trigger] sst_ids@[j]),
                    ) by {
                        lemma_key_le_transitive(
                            s.first_key(id),
                            s.first_key(old_begin),
                            s.first_key(sst_ids@[j]),
                        );
                    }
                }
                begin = i;
            }
            if key_less(
                snapshot.table(sst_ids[end]).last_key().raw_ref(),
                table.last_key().raw_ref(),
            ) {
                proof {
                    lemma_key_lt_asymmetric(s.last_key(old_end), s.last_key(id));
                    assert forall|j: int| 0 <= j < i implies key_le(
                        s.last_key(#[trigger] sst_ids@[j]),
                        s.last_key(id),
                    ) by {
                        lemma_key_le_transitive(
                            s.last_key(sst_ids@[j]),
                            s.last_key(old_end),
                            s.last_key(id),
                        );
                    }
                }
                end = i;
            }
            i += 1;
        }
        let begin_key = snapshot.table(sst_ids[begin]).first_key();
        let end_key = snapshot.table(sst_ids[end]).last_key();
        let level = snapshot.level(in_level - 1);
        let ghost pred = |id: usize| overlaps(s, sst_ids@, id);
        let mut matched: Vec<usize> = Vec::new();
        let mut k: usize = 0;
        assert(level@.take(0).filter(pred) =~= Seq::<usize>::empty()) by {
            reveal(Seq::filter);
        }
        while k < level.len()
            invariant
                k <= level@.len(),
                s == snapshot@,
                s.has_tables(level@),
                begin < sst_ids@.len(),
                end < sst_ids@.len(),
                begin_key@ == s.first_key(sst_ids@[begin as int]),
                end_key@ == s.last_key(sst_ids@[end as int]),
                forall|j: int|
                    0 <= j < sst_ids@.len() ==> key_le(
                        s.first_key(sst_ids@[begin as int]),
                        s.first_key(#[trigger] sst_ids@[j]),
                    ),
                forall|j: int|
                    0 <= j < sst_ids@.len() ==> key_le(
                        s.last_key(#[trigger] sst_ids@[j]),
                        s.last_key(sst_ids@[end as int]),
                    ),
                pred == (|id: usize| overlaps(s, sst_ids@, id)),
                matched@ == level@.take(k as int).filter(pred),
            decreases level@.len() - k,
        {
            let id = level[k];
            let table = snapshot.table(id);
            let after = key_less(end_key.raw_ref(), table.first_key().raw_ref());
            let before = key_less(table.last_key().raw_ref(), begin_key.raw_ref());
            proof {
                assert(level@.take(k + 1).drop_last() =~= level@.take(k as int));
                reveal(Seq::filter);
                if overlaps(s, sst_ids@, id) {
                    let a = choose|a: int|
                        0 <= a < sst_ids@.len() && key_le(
                            s.first_key(#[trigger] sst_ids@[a]),
                            s.last_key(id),
                        );
                    lemma_key_le_transitive(begin_key@, s.first_key(sst_ids@[a]), s.last_key(id));
                    let b = choose|b: int|
                        0 <= b < sst_ids@.len() && key_le(
                            s.first_key(id),
                            s.last_key(#[trigger] sst_ids@[b]),
                        );
                    lemma_key_le_transitive(s.first_key(id), s.last_key(sst_ids@[b]), end_key@);
                }
                assert(!(after || before) == pred(id));
            }
            if !(after || before) {
                matched.push(id);
            }
            k += 1;
        }
        assert(level@.take(k as int) =~= level@);
        matched
    }

    /// The compaction that the state calls for, if any. Level 0 goes first, when it has more
    /// tables than the trigger; otherwise the level that is furthest above its target size gives
    /// up its oldest table.
    pub fn generate_compaction_task(&self, snapshot: &LsmStorageState) -> (r: Option<
        LeveledCompactionTask,
    >)
        requires
            self@.fits(snapshot@),
        ensures
            match r {
                Some(task) => self@.task(snapshot@) == Some(task@),
                None => self@.task(snapshot@) is None,
            },
    {
        let ghost s = snapshot@;
        let max = self.options.max_levels;
        let mut real_size: Vec<usize> = Vec::with_capacity(max);
        let mut i: usize = 0;
        while i < max
            invariant
                i <= max,
                max == self@.max_levels,
                s == snapshot@,
                self@.fits(s),
                real_size@.len() == i,
                forall|j: int| 0 <= j < i ==> #[trigger] real_size@[j] == level_size(s, j + 1),
            decreases max - i,
        {
            assert(s.has_tables(s.levels[i as int].1));
            let size = sum_of_sizes(snapshot, snapshot.level(i));
            real_size.push(size);
            i += 1;
        }
        let base_size: usize = self.options.base_level_size_mb * 1024 * 1024;
        let mut target_size: Vec<usize> = Vec::with_capacity(max);
        let mut i: usize = 0;
        while i < max
            invariant
                i <= max,
                target_size@.len() == i,
                forall|j: int| 0 <= j < i ==> #[trigger] target_size@[j] == 0,
            decreases max - i,
        {
            target_size.push(0);
            i += 1;
        }
        target_size[max - 1] = if real_size[max - 1] > base_size {
            real_size[max - 1]
        } else {
            base_size
        };
        let mut base_level: usize = max;
        let mut i: usize = max - 1;
        while i > 0
            invariant
                i < max == self@.max_levels,
                self.options == self@,
                s == snapshot@,
                self@.fits(s),
                base_size == self@.base_size(),
                target_size@.len() == max,
                forall|j: int| 0 <= j < i ==> #[trigger] target_size@[j] == 0,
                forall|j: int|
                    i <= j < max ==> #[trigger] target_size@[j] == self@.target(s, j + 1),
                target_size@[max - 1] == self@.bottom_target(s),
                base_size < target_size@[i as int] ==> base_size < self@.bottom_target(s),
                base_level == self@.first_with_target(s, i + 1),
            decreases i,
        {
            assert(target_size@[i as int] == self@.target(s, i + 1));
            let ghost above = target_size@[i as int];
            if target_size[i] > base_size {
                target_size[i - 1] = target_size[i] / self.options.level_size_multiplier;
                proof {
                    vstd::arithmetic::div_mod::lemma_div_is_ordered_by_denominator(
                        above as int,
                        1,
                        self@.level_size_multiplier as int,
                    );
                }
            }
            if target_size[i - 1] > 0 {
                base_level = i;
            }
            assert(target_size@[i - 1] == self@.target(s, i as int));
            i -= 1;
        }
        proof {
            lemma_base_level(self@, s);
        }
        assert(s.has_tables(s.levels[base_level - 1].1));
        assert(s.has_tables(s.levels[max - 1].1));
        if snapshot.l0_sstables.len() > self.options.level0_file_num_compaction_trigger {
            return Some(
                LeveledCompactionTask {
                    upper_level: None,
                    upper_level_sst_ids: copy_ids(snapshot.l0_sstables.as_slice()),
                    lower_level: base_level,
                    lower_level_sst_ids: self.find_overlapping_ssts(
                        snapshot,
                        snapshot.l0_sstables.as_slice(),
                        base_level,
                    ),
                    is_lower_level_bottom_level: base_level == max,
                },
            );
        }
        // The level that is furthest above its target, the lowest of several.
        let mut prior: Option<usize> = None;
        let mut i: usize = base_level - 1;
        while i < max
            invariant
                1 <= base_level <= max == self@.max_levels,
                base_level - 1 <= i <= max,
                s == snapshot@,
                base_level == self@.base_level(s),
                real_size@.len() == max,
                target_size@.len() == max,
                forall|j: int| 0 <= j < max ==> #[trigger] real_size@[j] == level_size(s, j + 1),
                forall|j: int|
                    0 <= j < max ==> #[trigger] target_size@[j] == self@.target(s, j + 1),
                target_size@[max - 1] == self@.bottom_target(s),
                forall|n: int| base_level <= n < max ==> #[trigger] self@.target(s, n) > 0,
                match prior {
                    Some(p) => {
                        &&& self@.is_overfull(s, p as int)
                        &&& p <= i
                        &&& forall|m: int| #[trigger]
                            self@.is_overfull(s, m) && m <= i ==> {
                                &&& self@.priority(s, m) <= self@.priority(s, p as int)
                                &&& m > p ==> self@.priority(s, m) < self@.priority(s, p as int)
                            }
                    },
                    None => forall|m: int| m <= i ==> !#[trigger] self@.is_overfull(s, m),
                },
            decreases max - i,
        {
            let ghost level = i + 1;
            assert(real_size@[i as int] == level_size(s, level));
            assert(target_size@[i as int] == self@.target(s, level));
            proof {
                if i == max - 1 {
                    lemma_double_monotone(level_size(s, level), self@.target(s, level));
                }
            }
            if is_larger(real_size[i] as u128, target_size[i] as u128) {
                assert(self@.is_overfull(s, level));
                match prior {
                    Some(p) => {
                        assert(real_size@[p - 1] == level_size(s, p as int));
                        assert(target_size@[p - 1] == self@.target(s, p as int));
                        if !quotient_larger(
                            real_size[p - 1] as u128,
                            target_size[p - 1] as u128,
                            real_size[i] as u128,
                            target_size[i] as u128,
                        ) {
                            prior = Some(i + 1);
                        }
                    },
                    None => {
                        prior = Some(i + 1);
                    },
                }
            }
            i += 1;
        }
        if let Some(level) = prior {
            let ids = snapshot.level(level - 1);
            proof {
                assert(self@.is_next(s, level as int));
                lemma_next_unique(
                    self@,
                    s,
                    level as int,
                    choose|n: int| self@.is_next(s, n),
                );
                lemma_overfull_has_tables(self@, s, level as int);
                lemma_least_id(ids@);
                assert(s.has_tables(s.levels[level - 1].1));
                assert(s.has_tables(s.levels[level as int].1));
            }
            let sst_id = oldest(ids);
            let upper: Vec<usize> = vec![sst_id];
            assert(upper@ =~= seq![sst_id]);
            return Some(
                LeveledCompactionTask {
                    upper_level: Some(level),
                    lower_level_sst_ids: self.find_overlapping_ssts(
                        snapshot,
                        upper.as_slice(),
                        level + 1,
                    ),
                    upper_level_sst_ids: upper,
                    lower_level: level + 1,
                    is_lower_level_bottom_level: level + 1 == max,
                },
            );
        }
        None
    }

    /// Replaces the tables of the task by the tables `output`, and lists the tables that are no
    /// longer in use. Unless the state is being recovered, the lower level is put in the order of
    /// its keys.
    pub fn apply_compaction_result(
        &self,
        snapshot: &LsmStorageState,
        task: &LeveledCompactionTask,
        output: &[usize],
        in_recovery: bool,
    ) -> (r: (LsmStorageState, Vec<usize>))
        requires
            can_apply(snapshot@, task@, output@, in_recovery),
        ensures
            applied(snapshot@, task@, output@, in_recovery, r.0@),
            r.1@ == task@.upper_level_sst_ids + task@.lower_level_sst_ids,
    {
        let mut state = snapshot.clone();
        let mut removed = copy_ids(task.upper_level_sst_ids.as_slice());
        removed.extend_from_slice(task.lower_level_sst_ids.as_slice());
        assert(removed@ =~= task@.upper_level_sst_ids + task@.lower_level_sst_ids);
        if let Some(upper) = task.upper_level {
            let rest = remove_ids(
                state.level(upper - 1).as_slice(),
                task.upper_level_sst_ids.as_slice(),
            );
            state.set_level(upper - 1, rest);
        } else {
            state.l0_sstables = remove_ids(
                state.l0_sstables.as_slice(),
                task.upper_level_sst_ids.as_slice(),
            );
        }
        assert(state@ =~= without_upper(snapshot@, task@));
        let mut lower = remove_ids(
            state.level(task.lower_level - 1).as_slice(),
            task.lower_level_sst_ids.as_slice(),
        );
        lower.extend_from_slice(output);
        assert(lower@ =~= merged_level(snapshot@, task@, output@));
        if !in_recovery {
            sort_by_first_key(snapshot, &mut lower);
        }
        state.set_level(task.lower_level - 1, lower);
        (state, removed)
    }
}

/// The state without the upper tables of the task.
pub open spec fn without_upper(s: StateView, task: LeveledTaskView) -> StateView {
    let drop = task.upper_level_sst_ids.to_set();
    match task.upper_level {
        Some(n) => StateView {
            levels: s.levels.update(
                n - 1,
                (s.levels[n - 1].0, without_first(s.levels[n - 1].1, drop)),
            ),
            ..s
        },
        None => StateView { l0_sstables: without_first(s.l0_sstables, drop), ..s },
    }
}

/// The lower level without the lower tables of the task, and then the tables `output`.
pub open spec fn merged_level(s: StateView, task: LeveledTaskView, output: Seq<usize>) -> Seq<
    usize,
> {
    without_first(
        without_upper(s, task).levels[task.lower_level - 1].1,
        task.lower_level_sst_ids.to_set(),
    ) + output
}

/// What applying a task takes: levels that are there, that hold the task's tables, and keys to
/// put the lower level in order.
pub open spec fn can_apply(
    s: StateView,
    task: LeveledTaskView,
    output: Seq<usize>,
    in_recovery: bool,
) -> bool {
    &&& match task.upper_level {
        Some(n) => {
            &&& 1 <= n <= s.levels.len()
            &&& task.upper_level_sst_ids.to_set().subset_of(s.levels[n - 1].1.to_set())
        },
        None => task.upper_level_sst_ids.to_set().subset_of(s.l0_sstables.to_set()),
    }
    &&& 1 <= task.lower_level <= s.levels.len()
    &&& task.lower_level_sst_ids.to_set().subset_of(
        without_upper(s, task).levels[task.lower_level - 1].1.to_set(),
    )
    &&& !in_recovery && merged_level(s, task, output).len() >= 2 ==> s.has_tables(
        merged_level(s, task, output),
    )
}

/// Whether `r` is state `s` after the task, with the tables `output` in place of its tables.
pub open spec fn applied(
    s: StateView,
    task: LeveledTaskView,
    output: Seq<usize>,
    in_recovery: bool,
    r: StateView,
) -> bool {
    let base = without_upper(s, task);
    let n = task.lower_level - 1;
    let merged = merged_level(s, task, output);
    &&& r == (StateView { levels: base.levels.update(n, (base.levels[n].0, r.levels[n].1)), ..base })
    &&& if in_recovery {
        r.levels[n].1 == merged
    } else {
        is_stable_sort(s, merged, r.levels[n].1)
    }
}

/// A generated task can be applied to the state it was made for, and to a later one that has
/// gained tables, at level 0 or of none of the levels yet.
pub proof fn lemma_generated_task_applies(
    options: LeveledCompactionOptions,
    s: StateView,
    task: LeveledTaskView,
    later: StateView,
    output: Seq<usize>,
    in_recovery: bool,
)
    requires
        options.fits(s),
        options.task(s) == Some(task),
        s.l0_sstables.to_set().subset_of(later.l0_sstables.to_set()),
        later.levels == s.levels,
        s.sstables.dom().subset_of(later.sstables.dom()),
        later.has_tables(output),
    ensures
        can_apply(later, task, output, in_recovery),
{
    lemma_base_level(options, s);
    if let Some(n) = task.upper_level {
        let ids = s.levels[n - 1].1;
        lemma_overfull_has_tables(options, s, n as int);
        lemma_least_id(ids);
        assert forall|id: usize| #[trigger] task.upper_level_sst_ids.to_set().contains(id)
            implies ids.to_set().contains(id) by {
            assert(id == least_id(ids));
        }
    }
    let n = task.lower_level as int;
    let level = s.levels[n - 1].1;
    assert(s.has_tables(level));
    assert(without_upper(later, task).levels[n - 1] == s.levels[n - 1]);
    let pred = |id: usize| overlaps(s, task.upper_level_sst_ids, id);
    assert(task.lower_level_sst_ids == level.filter(pred));
    assert forall|id: usize| #[trigger] task.lower_level_sst_ids.to_set().contains(id)
        implies level.to_set().contains(id) by {
        level.lemma_filter_contains_rev(pred, id);
    }
    let drop = task.lower_level_sst_ids.to_set();
    let merged = merged_level(later, task, output);
    assert forall|i: int| 0 <= i < merged.len() implies later.sstables.contains_key(
        #[trigger] merged[i],
    ) by {
        let kept = without_first(level, drop);
        if i < kept.len() {
            assert(kept.contains(kept[i]));
            lemma_without_first_contains(level, drop, kept[i]);
            let k = choose|k: int| 0 <= k < level.len() && level[k] == kept[i];
            assert(s.sstables.contains_key(level[k]));
            assert(s.sstables.dom().contains(level[k]));
        } else {
            assert(merged[i] == output[i - kept.len()]);
        }
    }
}

/// A task generated from lists without repeated ids repeats none.
pub proof fn lemma_generated_task_distinct(
    options: LeveledCompactionOptions,
    s: StateView,
    task: LeveledTaskView,
)
    requires
        options.fits(s),
        options.task(s) == Some(task),
        s.l0_sstables.no_duplicates(),
        forall|i: int| 0 <= i < s.levels.len() ==> (#[trigger] s.levels[i]).1.no_duplicates(),
    ensures
        task.upper_level_sst_ids.no_duplicates(),
        task.lower_level_sst_ids.no_duplicates(),
{
    lemma_base_level(options, s);
    let level = s.levels[task.lower_level - 1].1;
    lemma_filter_distinct(level, |id: usize| overlaps(s, task.upper_level_sst_ids, id));
}

proof fn lemma_filter_distinct(ids: Seq<usize>, pred: spec_fn(usize) -> bool)
    requires
        ids.no_duplicates(),
    ensures
        ids.filter(pred).no_duplicates(),
{
    lemma_filter_keeps_distinct(ids, pred);
}

/// No table gets lost: what the state lists after a task, together with what the task removes, is
/// what it listed before, together with the output.
pub proof fn lemma_apply_conserves_tables(
    s: StateView,
    task: LeveledTaskView,
    output: Seq<usize>,
    in_recovery: bool,
    r: StateView,
)
    requires
        can_apply(s, task, output, in_recovery),
        applied(s, task, output, in_recovery, r),
        task.upper_level_sst_ids.no_duplicates(),
        task.lower_level_sst_ids.no_duplicates(),
    ensures
        (r.all_ids() + (task.upper_level_sst_ids + task.lower_level_sst_ids)).to_multiset()
            == (s.all_ids() + output).to_multiset(),
{
    let upper = task.upper_level_sst_ids;
    let lower = task.lower_level_sst_ids;
    let base = without_upper(s, task);
    let n = task.lower_level - 1;
    let merged = merged_level(s, task, output);
    let left = (r.all_ids() + (upper + lower)).to_multiset();
    let right = (s.all_ids() + output).to_multiset();
    assert forall|id: usize| left.count(id) == right.count(id) by {
        lemma_count_add(r.all_ids(), upper + lower, id);
        lemma_count_add(upper, lower, id);
        lemma_count_add(s.all_ids(), output, id);
        lemma_count_add(r.l0_sstables, level_ids(r.levels), id);
        lemma_count_add(s.l0_sstables, level_ids(s.levels), id);
        lemma_count_level_update(base.levels, n, (base.levels[n].0, r.levels[n].1), id);
        lemma_count_add(without_first(base.levels[n].1, lower.to_set()), output, id);
        lemma_without_first_keeps_the_rest(base.levels[n].1, lower.to_set());
        lemma_count_distinct(upper, id);
        lemma_count_distinct(lower, id);
        match task.upper_level {
            Some(m) => {
                let ids = s.levels[m - 1].1;
                lemma_without_first_keeps_the_rest(ids, upper.to_set());
                lemma_count_level_update(
                    s.levels,
                    m - 1,
                    (s.levels[m - 1].0, without_first(ids, upper.to_set())),
                    id,
                );
            },
            None => {
                lemma_without_first_keeps_the_rest(s.l0_sstables, upper.to_set());
            },
        }
    }
    assert(left =~= right);
}

proof fn lemma_count_distinct(ids: Seq<usize>, id: usize)
    requires
        ids.no_duplicates(),
    ensures
        ids.to_multiset().count(id) == (if ids.to_set().contains(id) { 1nat } else { 0nat }),
{
    broadcast use vstd::seq_lib::group_to_multiset_ensures;

    ids.lemma_multiset_has_no_duplicates();
    if ids.contains(id) {
        assert(ids.to_multiset().contains(id));
    }
}

} // verus!
