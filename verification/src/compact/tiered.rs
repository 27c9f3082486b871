//! Tiered compaction: whole tiers are merged, from the newest on, when there are too many of them.

use crate::double::{double, quotient_exceeds, quotient_larger, to_double};
use crate::lsm_storage::{lemma_count_add, lemma_level_ids_add, level_ids};
use crate::lsm_storage::{copy_ids, copy_levels, levels_view, LsmStorageState, StateView};
use std::collections::HashMap;
use vstd::prelude::*;

verus! {

broadcast use vstd::std_specs::hash::group_hash_axioms;

/// Tiers to merge into one, each with its number and the ids of its tables.
#[derive(Debug)]
pub struct TieredCompactionTask {
    pub tiers: Vec<(usize, Vec<usize>)>,
    pub bottom_tier_included: bool,
}

/// The value of a `TieredCompactionTask`.
#[verifier::ext_equal]
pub struct TieredTaskView {
    pub tiers: Seq<(usize, Seq<usize>)>,
    pub bottom_tier_included: bool,
}

impl View for TieredCompactionTask {
    type V = TieredTaskView;

    open spec fn view(&self) -> TieredTaskView {
        TieredTaskView {
            tiers: levels_view(self.tiers@),
            bottom_tier_included: self.bottom_tier_included,
        }
    }
}

#[derive(Debug, Clone, Copy)]
pub struct TieredCompactionOptions {
    pub num_tiers: usize,
    pub max_size_amplification_percent: usize,
    pub size_ratio: usize,
    pub min_merge_width: usize,
    pub max_merge_width: Option<usize>,
}

pub struct TieredCompactionController {
    options: TieredCompactionOptions,
}

impl View for TieredCompactionController {
    type V = TieredCompactionOptions;

    closed spec fn view(&self) -> TieredCompactionOptions {
        self.options
    }
}

/// The number of tables in the first `n` tiers. The size of a tier is the number of its tables.
pub open spec fn size_of_first(s: StateView, n: int) -> nat
    decreases n,
{
    if n <= 0 {
        0
    } else {
        size_of_first(s, n - 1) + s.levels[n - 1].1.len()
    }
}

impl TieredCompactionOptions {
    /// What generating a task takes: no tables at level 0, at least one tier where the number of
    /// tiers does not rule a task out, and a number of tables that can be counted.
    pub open spec fn fits(self, s: StateView) -> bool {
        &&& s.l0_sstables.len() == 0
        &&& self.num_tiers > 0 || s.levels.len() > 0
        &&& size_of_first(s, s.levels.len() as int) <= usize::MAX
    }

    /// Whether the tiers above the bottom one hold too much, in percent of the bottom one.
    pub open spec fn too_amplified(self, s: StateView) -> bool {
        let last = s.levels.len() - 1;
        quotient_exceeds(
            size_of_first(s, last),
            s.levels[last].1.len(),
            self.max_size_amplification_percent as nat,
            100,
        )
    }

    /// Whether the tier after the first `n` is larger than these together by more than the size
    /// ratio, in percent, and there are enough of them.
    pub open spec fn ratio_triggers(self, s: StateView, n: int) -> bool {
        &&& quotient_exceeds(
            s.levels[n].1.len(),
            size_of_first(s, n),
            double(self.size_ratio as nat) + 100,
            100,
        )
        &&& n > self.min_merge_width
    }

    /// Whether `n` is the least number of tiers that the size ratio has merged.
    pub open spec fn first_trigger(self, s: StateView, n: int) -> bool {
        &&& 1 <= n < s.levels.len()
        &&& self.ratio_triggers(s, n)
        &&& forall|m: int| 1 <= m < n ==> !#[trigger] self.ratio_triggers(s, m)
    }

    /// The number of tiers that are merged for being too many.
    pub open spec fn merge_width(self, s: StateView) -> int {
        match self.max_merge_width {
            Some(w) => if w < s.levels.len() {
                w as int
            } else {
                s.levels.len() as int
            },
            None => s.levels.len() as int,
        }
    }

    /// The compaction that state `s` calls for: none with fewer tiers than `num_tiers`; all tiers
    /// where the space amplification is too high; the first few where the size ratio triggers;
    /// otherwise as many as may be merged at once.
    pub open spec fn task(self, s: StateView) -> Option<TieredTaskView> {
        if self.num_tiers > s.levels.len() {
            None
        } else if self.too_amplified(s) {
            Some(TieredTaskView { tiers: s.levels, bottom_tier_included: true })
        } else if exists|n: int| self.first_trigger(s, n) {
            let n = choose|n: int| self.first_trigger(s, n);
            Some(TieredTaskView { tiers: s.levels.take(n), bottom_tier_included: false })
        } else {
            let n = self.merge_width(s);
            Some(
                TieredTaskView {
                    tiers: s.levels.take(n),
                    bottom_tier_included: n == s.levels.len(),
                },
            )
        }
    }
}

proof fn lemma_size_of_first_monotone(s: StateView, m: int, n: int)
    requires
        m <= n,
    ensures
        size_of_first(s, m) <= size_of_first(s, n),
    decreases n - m,
{
    if m < n {
        lemma_size_of_first_monotone(s, m, n - 1);
    }
}

/// The least number of tiers that the size ratio has merged is unique.
pub proof fn lemma_first_trigger_unique(
    options: TieredCompactionOptions,
    s: StateView,
    m: int,
    n: int,
)
    requires
        options.first_trigger(s, m),
        options.first_trigger(s, n),
    ensures
        m == n,
{
}

impl TieredCompactionController {
    pub fn new(options: TieredCompactionOptions) -> (r: TieredCompactionController)
        ensures
            r@ == options,
    {
        TieredCompactionController { options }
    }

    /// The compaction that the state calls for, if any.
    pub fn generate_compaction_task(&self, snapshot: &LsmStorageState) -> (r: Option<
        TieredCompactionTask,
    >)
        requires
            self@.fits(snapshot@),
        ensures
            match r {
                Some(task) => self@.task(snapshot@) == Some(task@),
                None => self@.task(snapshot@) is None,
            },
    {
        let ghost s = snapshot@;
        let n = snapshot.levels.len();
        if self.options.num_tiers > n {
            return None;
        }
        // Space amplification.
        let mut upper_size: usize = 0;
        let mut i: usize = 0;
        while i < n - 1
            invariant
                i < n == s.levels.len(),
                s == snapshot@,
                size_of_first(s, n as int) <= usize::MAX,
                upper_size == size_of_first(s, i as int),
            decreases n - i,
        {
            proof {
                lemma_size_of_first_monotone(s, i + 1, n as int);
            }
            upper_size += snapshot.level(i).len();
            i += 1;
        }
        if quotient_larger(
            upper_size as u128,
            snapshot.level(n - 1).len() as u128,
            self.options.max_size_amplification_percent as u128,
            100,
        ) {
            let tiers = copy_levels(&snapshot.levels, n);
            assert(s.levels.take(n as int) =~= s.levels);
            return Some(TieredCompactionTask { tiers, bottom_tier_included: true });
        }
        // Size ratio.
        let trigger: u128 = to_double(self.options.size_ratio as u128) + 100;
        let mut pre_size: usize = 0;
        let mut i: usize = 0;
        while i < n - 1
            invariant
                i < n == s.levels.len(),
                s == snapshot@,
                self.options == self@,
                self@.fits(s),
                self@.num_tiers <= n,
                !self@.too_amplified(s),
                trigger == double(self@.size_ratio as nat) + 100,
                trigger <= 0x1_0000_0000_0000_0000 + 100,
                pre_size == size_of_first(s, i as int),
                forall|m: int| 1 <= m <= i ==> !#[trigger] self@.ratio_triggers(s, m),
            decreases n - i,
        {
            proof {
                lemma_size_of_first_monotone(s, i + 1, n as int);
            }
            pre_size += snapshot.level(i).len();
            let lower_size = snapshot.level(i + 1).len();
            if quotient_larger(lower_size as u128, pre_size as u128, trigger, 100) && i + 1
                > self.options.min_merge_width {
                assert(self@.first_trigger(s, i + 1));
                proof {
                    lemma_first_trigger_unique(
                        self@,
                        s,
                        i + 1,
                        choose|m: int| self@.first_trigger(s, m),
                    );
                }
                return Some(
                    TieredCompactionTask {
                        tiers: copy_levels(&snapshot.levels, i + 1),
                        bottom_tier_included: false,
                    },
                );
            }
            i += 1;
        }
        assert forall|m: int| !self@.first_trigger(s, m) by {
            if 1 <= m < n {
                assert(!self@.ratio_triggers(s, m));
            }
        }
        // Too many tiers.
        let width = match self.options.max_merge_width {
            Some(w) => if w < n {
                w
            } else {
                n
            },
            None => n,
        };
        Some(
            TieredCompactionTask {
                tiers: copy_levels(&snapshot.levels, width),
                bottom_tier_included: width >= n,
            },
        )
    }

    /// Replaces the tiers of the task by one tier with the tables `output`, numbered as the first
    /// of these, and lists the tables that are no longer in use.
    pub fn apply_compaction_result(
        &self,
        snapshot: &LsmStorageState,
        task: &TieredCompactionTask,
        output: &[usize],
    ) -> (r: (LsmStorageState, Vec<usize>))
        requires
            can_apply(snapshot@, task@, output@),
        ensures
            r.0@ == applied(snapshot@, task@, output@),
            r.1@ == removed_ids(snapshot@.levels, tier_map(task@.tiers)),
    {
        let ghost s = snapshot@;
        let ghost tiers = task@.tiers;
        let n = task.tiers.len();
        // The place of each tier's tables in the task.
        let mut remove_map: HashMap<usize, usize> = HashMap::new();
        let mut i: usize = 0;
        assert(tiers.take(0) =~= Seq::<(usize, Seq<usize>)>::empty());
        while i < n
            invariant
                i <= n == tiers.len(),
                tiers == task@.tiers,
                remove_map@.dom() == tier_map(tiers.take(i as int)).dom(),
                forall|id: usize| #[trigger]
                    remove_map@.contains_key(id) ==> {
                        &&& remove_map@[id] < n
                        &&& tiers[remove_map@[id] as int].1 == tier_map(tiers.take(i as int))[id]
                    },
            decreases n - i,
        {
            assert(tiers.take(i + 1).drop_last() =~= tiers.take(i as int));
            remove_map.insert(task.tiers[i].0, i);
            assert(remove_map@.dom() =~= tier_map(tiers.take(i + 1)).dom());
            i += 1;
        }
        assert(tiers.take(i as int) =~= tiers);
        let ghost mut left = tier_map(tiers);
        let ghost all = tier_map(tiers);
        let mut state = snapshot.clone();
        let mut removed: Vec<usize> = Vec::new();
        let mut new_levels: Vec<(usize, Vec<usize>)> = Vec::new();
        let mut added_new = false;
        let mut j: usize = 0;
        let count = snapshot.levels.len();
        let ghost new = (output@[0], output@);
        assert(s.levels.skip(0) =~= s.levels);
        assert(levels_view(new_levels@) + replaced(s.levels, left.dom(), new) =~= replaced(
            s.levels,
            left.dom(),
            new,
        ));
        assert(removed@ + removed_ids(s.levels, left) =~= removed_ids(s.levels, left));
        while j < count
            invariant
                j <= count == s.levels.len(),
                s == snapshot@,
                tiers == task@.tiers,
                n == tiers.len(),
                count > 0 ==> output@.len() > 0,
                new == (output@[0], output@),
                remove_map@.dom() == left.dom(),
                forall|id: usize| #[trigger]
                    remove_map@.contains_key(id) ==> {
                        &&& remove_map@[id] < n
                        &&& tiers[remove_map@[id] as int].1 == left[id]
                    },
                added_new ==> left.dom().is_empty(),
                levels_view(new_levels@) + (if added_new {
                    s.levels.skip(j as int)
                } else {
                    replaced(s.levels.skip(j as int), left.dom(), new)
                }) == replaced(s.levels, all.dom(), new),
                removed@ + removed_ids(s.levels.skip(j as int), left) == removed_ids(s.levels, all),
            decreases count - j,
        {
            let id = snapshot.levels[j].0;
            let ghost rest = s.levels.skip(j as int);
            let ghost tail = s.levels.skip(j + 1);
            let ghost old_levels = levels_view(new_levels@);
            let ghost old_removed = removed@;
            let ghost old_left = left;
            let ghost old_added = added_new;
            assert(rest.drop_first() =~= tail);
            assert(rest[0] == (id, s.levels[j as int].1));
            if let Some(place) = remove_map.remove(&id) {
                removed.extend_from_slice(task.tiers[place].1.as_slice());
                assert(removed@ =~= old_removed + left[id]);
                assert(old_removed + (left[id] + removed_ids(tail, left.remove(id))) =~= removed@
                    + removed_ids(tail, left.remove(id)));
                proof {
                    left = left.remove(id);
                }
                assert(remove_map@.dom() =~= left.dom());
            } else {
                let ids = copy_ids(snapshot.levels[j].1.as_slice());
                new_levels.push((id, ids));
                assert(levels_view(new_levels@) =~= old_levels.push(rest[0]));
                assert(remove_map@ =~= remove_map@.remove(id));
                assert(left.remove(id) =~= left);
            }
            let ghost mid = levels_view(new_levels@);
            assert(left.dom() =~= old_left.dom().remove(id));
            assert(remove_map@.is_empty() == left.dom().is_empty()) by {
                assert(remove_map@.is_empty() == (remove_map@.dom() =~= Set::<usize>::empty()));
            }
            if remove_map.is_empty() && !added_new {
                added_new = true;
                new_levels.push((output[0], copy_ids(output)));
                assert(levels_view(new_levels@) =~= mid.push(new));
            }
            proof {
                let head = if old_left.dom().contains(id) {
                    Seq::<(usize, Seq<usize>)>::empty()
                } else {
                    seq![rest[0]]
                };
                assert(mid =~= old_levels + head);
                if old_added {
                    assert(rest =~= seq![rest[0]] + tail);
                    assert(old_levels + rest =~= levels_view(new_levels@) + tail);
                } else if added_new {
                    assert(replaced(rest, old_left.dom(), new) == head + seq![new] + tail);
                    assert(old_levels + (head + seq![new] + tail) =~= levels_view(new_levels@)
                        + tail);
                } else {
                    assert(replaced(rest, old_left.dom(), new) == head + replaced(
                        tail,
                        left.dom(),
                        new,
                    ));
                    assert(old_levels + (head + replaced(tail, left.dom(), new)) =~= mid
                        + replaced(tail, left.dom(), new));
                }
            }
            j += 1;
        }
        let ghost rest = s.levels.skip(j as int);
        assert(rest =~= Seq::<(usize, Seq<usize>)>::empty());
        assert(levels_view(new_levels@) + rest =~= levels_view(new_levels@));
        assert(levels_view(new_levels@) + replaced(rest, left.dom(), new) =~= levels_view(
            new_levels@,
        ));
        assert(removed@ + removed_ids(rest, left) =~= removed@);
        state.levels = new_levels;
        (state, removed)
    }
}

/// The tables of each tier, by number.
pub open spec fn tier_map(tiers: Seq<(usize, Seq<usize>)>) -> Map<usize, Seq<usize>>
    decreases tiers.len(),
{
    if tiers.len() == 0 {
        Map::empty()
    } else {
        tier_map(tiers.drop_last()).insert(tiers.last().0, tiers.last().1)
    }
}

/// Whether no two tiers have the same number.
pub open spec fn numbered_apart(tiers: Seq<(usize, Seq<usize>)>) -> bool {
    forall|i: int, j: int| 0 <= i < j < tiers.len() ==> tiers[i].0 != tiers[j].0
}

/// The numbers of the tiers.
pub open spec fn tier_numbers(tiers: Seq<(usize, Seq<usize>)>) -> Set<usize> {
    tiers.map_values(|t: (usize, Seq<usize>)| t.0).to_set()
}

/// The tiers without the first one of each of the given numbers, with `new` at the place where
/// the last of them was found, and after the first tier where no number is given.
pub open spec fn replaced(
    tiers: Seq<(usize, Seq<usize>)>,
    numbers: Set<usize>,
    new: (usize, Seq<usize>),
) -> Seq<(usize, Seq<usize>)>
    decreases tiers.len(),
{
    if tiers.len() == 0 {
        Seq::empty()
    } else {
        let left = numbers.remove(tiers[0].0);
        let head = if numbers.contains(tiers[0].0) {
            Seq::empty()
        } else {
            seq![tiers[0]]
        };
        if left.is_empty() {
            head + seq![new] + tiers.drop_first()
        } else {
            head + replaced(tiers.drop_first(), left, new)
        }
    }
}

/// The tables of `tiers_to_remove`, in the order in which their numbers come first in `tiers`.
pub open spec fn removed_ids(
    tiers: Seq<(usize, Seq<usize>)>,
    tiers_to_remove: Map<usize, Seq<usize>>,
) -> Seq<usize>
    decreases tiers.len(),
{
    if tiers.len() == 0 {
        Seq::empty()
    } else if tiers_to_remove.contains_key(tiers[0].0) {
        tiers_to_remove[tiers[0].0] + removed_ids(
            tiers.drop_first(),
            tiers_to_remove.remove(tiers[0].0),
        )
    } else {
        removed_ids(tiers.drop_first(), tiers_to_remove)
    }
}

/// What applying a task takes: that its tiers are there, and a table to name the new one after.
pub open spec fn can_apply(s: StateView, task: TieredTaskView, output: Seq<usize>) -> bool {
    &&& tier_map(task.tiers).dom().subset_of(tier_numbers(s.levels))
    &&& s.levels.len() > 0 ==> output.len() > 0
}

/// State `s` after the task, with a tier of the tables `output` in place of its tiers.
pub open spec fn applied(s: StateView, task: TieredTaskView, output: Seq<usize>) -> StateView {
    StateView {
        levels: replaced(s.levels, tier_map(task.tiers).dom(), (output[0], output)),
        ..s
    }
}

/// A generated task takes some of the newest tiers, and says whether these are all of them.
pub proof fn lemma_generated_task_takes_newest(
    options: TieredCompactionOptions,
    s: StateView,
    task: TieredTaskView,
)
    requires
        options.fits(s),
        options.task(s) == Some(task),
    ensures
        task.tiers.len() <= s.levels.len(),
        task.tiers == s.levels.take(task.tiers.len() as int),
        task.bottom_tier_included == (task.tiers.len() == s.levels.len()),
{
    if options.too_amplified(s) {
        assert(s.levels =~= s.levels.take(s.levels.len() as int));
    }
}

/// A generated task can be applied to the state it was made for.
pub proof fn lemma_generated_task_applies(
    options: TieredCompactionOptions,
    s: StateView,
    task: TieredTaskView,
    output: Seq<usize>,
)
    requires
        options.fits(s),
        options.task(s) == Some(task),
        output.len() > 0,
    ensures
        can_apply(s, task, output),
{
    lemma_generated_task_takes_newest(options, s, task);
    let n = task.tiers.len() as int;
    let numbers = s.levels.map_values(|t: (usize, Seq<usize>)| t.0);
    assert forall|id: usize| #[trigger] tier_map(task.tiers).dom().contains(id)
        implies tier_numbers(s.levels).contains(id) by {
        let i = lemma_tier_map(task.tiers, id);
        assert(numbers[i] == id);
    }
}

/// The tables of a number are those of a tier with that number.
pub proof fn lemma_tier_map(tiers: Seq<(usize, Seq<usize>)>, id: usize) -> (i: int)
    requires
        tier_map(tiers).contains_key(id),
    ensures
        0 <= i < tiers.len(),
        tiers[i].0 == id,
        tiers[i].1 == tier_map(tiers)[id],
    decreases tiers.len(),
{
    if tiers.last().0 == id {
        tiers.len() - 1
    } else {
        lemma_tier_map(tiers.drop_last(), id)
    }
}

/// Every tier has tables under its number.
pub proof fn lemma_tier_map_has(tiers: Seq<(usize, Seq<usize>)>, i: int)
    requires
        0 <= i < tiers.len(),
    ensures
        tier_map(tiers).contains_key(tiers[i].0),
    decreases tiers.len(),
{
    if i < tiers.len() - 1 {
        lemma_tier_map_has(tiers.drop_last(), i);
    }
}

/// Merging the newest tiers of a state whose tiers are numbered apart puts the new tier in front
/// of the tiers that are left.
pub proof fn lemma_newest_tiers_replaced(
    tiers: Seq<(usize, Seq<usize>)>,
    n: int,
    new: (usize, Seq<usize>),
)
    requires
        1 <= n <= tiers.len(),
        forall|i: int, j: int| 0 <= i < j < tiers.len() ==> tiers[i].0 != tiers[j].0,
    ensures
        replaced(tiers, tier_map(tiers.take(n)).dom(), new) == seq![new] + tiers.skip(n),
        removed_ids(tiers, tier_map(tiers.take(n))) == level_ids(tiers.take(n)),
{
    let map = tier_map(tiers.take(n));
    assert forall|id: usize| #[trigger]
        map.contains_key(id) <==> exists|i: int| 0 <= i < n && (#[trigger] tiers[i]).0 == id by {
        if map.contains_key(id) {
            let i = lemma_tier_map(tiers.take(n), id);
            assert(tiers[i].0 == id);
        }
        if exists|i: int| 0 <= i < n && (#[trigger] tiers[i]).0 == id {
            let i = choose|i: int| 0 <= i < n && (#[trigger] tiers[i]).0 == id;
            lemma_tier_map_has(tiers.take(n), i);
        }
    }
    assert forall|i: int| 0 <= i < n implies map[(#[trigger] tiers[i]).0] == tiers[i].1 by {
        lemma_tier_map_has(tiers.take(n), i);
        let k = lemma_tier_map(tiers.take(n), tiers[i].0);
        assert(tiers[k].0 == tiers[i].0);
    }
    lemma_front_replaced(tiers, n, map, new);
}

proof fn lemma_front_replaced(
    tiers: Seq<(usize, Seq<usize>)>,
    n: int,
    map: Map<usize, Seq<usize>>,
    new: (usize, Seq<usize>),
)
    requires
        1 <= n <= tiers.len(),
        forall|i: int, j: int| 0 <= i < j < tiers.len() ==> tiers[i].0 != tiers[j].0,
        forall|id: usize| #[trigger]
            map.contains_key(id) <==> exists|i: int| 0 <= i < n && (#[trigger] tiers[i]).0 == id,
        forall|i: int| 0 <= i < n ==> map[(#[trigger] tiers[i]).0] == tiers[i].1,
    ensures
        replaced(tiers, map.dom(), new) == seq![new] + tiers.skip(n),
        removed_ids(tiers, map) == level_ids(tiers.take(n)),
    decreases n,
{
    let tail = tiers.drop_first();
    let rest = map.remove(tiers[0].0);
    assert(map.contains_key(tiers[0].0));
    assert(rest.dom() =~= map.dom().remove(tiers[0].0));
    if n == 1 {
        assert(rest.dom() =~= Set::<usize>::empty()) by {
            assert forall|id: usize| !rest.contains_key(id) by {
                if rest.contains_key(id) {
                    assert(map.contains_key(id));
                }
            }
        }
        assert(replaced(tiers, map.dom(), new) =~= seq![new] + tiers.skip(1));
        lemma_removed_none(tail, rest);
        assert(tiers.take(1).drop_last() =~= Seq::<(usize, Seq<usize>)>::empty());
        assert(level_ids(tiers.take(1).drop_last()) =~= Seq::<usize>::empty());
        assert(level_ids(tiers.take(1)) =~= tiers[0].1);
    } else {
        assert forall|id: usize| #[trigger]
            rest.contains_key(id) <==> exists|i: int|
                0 <= i < n - 1 && (#[trigger] tail[i]).0 == id by {
            if rest.contains_key(id) {
                assert(map.contains_key(id));
                let i = choose|i: int| 0 <= i < n && (#[trigger] tiers[i]).0 == id;
                assert(tail[i - 1].0 == id);
            }
            if exists|i: int| 0 <= i < n - 1 && (#[trigger] tail[i]).0 == id {
                let i = choose|i: int| 0 <= i < n - 1 && (#[trigger] tail[i]).0 == id;
                assert(tiers[i + 1].0 == id);
                assert(map.contains_key(id));
            }
        }
        assert forall|i: int| 0 <= i < n - 1 implies rest[(#[trigger] tail[i]).0] == tail[i].1 by {
            assert(tiers[i + 1] == tail[i]);
        }
        lemma_front_replaced(tail, n - 1, rest, new);
        assert(tail[0].0 == tiers[1].0);
        assert(rest.contains_key(tail[0].0));
        assert(!rest.dom().is_empty());
        assert(tail.skip(n - 1) =~= tiers.skip(n));
        assert(replaced(tiers, map.dom(), new) =~= replaced(tail, rest.dom(), new));
        assert(tiers.take(n) =~= seq![tiers[0]] + tail.take(n - 1));
        lemma_level_ids_add(seq![tiers[0]], tail.take(n - 1));
        assert(seq![tiers[0]].drop_last() =~= Seq::<(usize, Seq<usize>)>::empty());
        assert(level_ids(seq![tiers[0]].drop_last()) =~= Seq::<usize>::empty());
        assert(level_ids(seq![tiers[0]]) =~= tiers[0].1);
    }
}

proof fn lemma_removed_none(tiers: Seq<(usize, Seq<usize>)>, map: Map<usize, Seq<usize>>)
    requires
        map.dom() == Set::<usize>::empty(),
    ensures
        removed_ids(tiers, map) == Seq::<usize>::empty(),
    decreases tiers.len(),
{
    if tiers.len() > 0 {
        assert(!map.dom().contains(tiers[0].0));
        lemma_removed_none(tiers.drop_first(), map);
    }
}

/// No table gets lost: what the state lists after a task, together with what the task removes, is
/// what it listed before, together with the output. The tiers must be numbered apart, and those
/// of the task must be tiers of the state.
pub proof fn lemma_apply_conserves_tables(
    s: StateView,
    task: TieredTaskView,
    output: Seq<usize>,
)
    requires
        can_apply(s, task, output),
        s.levels.len() > 0,
        forall|i: int, j: int| 0 <= i < j < s.levels.len() ==> s.levels[i].0 != s.levels[j].0,
        forall|i: int| 0 <= i < task.tiers.len() ==> s.levels.contains(#[trigger] task.tiers[i]),
    ensures
        (applied(s, task, output).all_ids() + removed_ids(s.levels, tier_map(task.tiers))).to_multiset()
            == (s.all_ids() + output).to_multiset(),
{
    let map = tier_map(task.tiers);
    let r = applied(s, task, output);
    let removed = removed_ids(s.levels, map);
    let left = (r.all_ids() + removed).to_multiset();
    let right = (s.all_ids() + output).to_multiset();
    let new = (output[0], output);
    assert forall|i: int| 0 <= i < s.levels.len() && map.contains_key(
        (#[trigger] s.levels[i]).0,
    ) implies map[s.levels[i].0] == s.levels[i].1 by {
        let k = lemma_tier_map(task.tiers, s.levels[i].0);
        let j = choose|j: int| 0 <= j < s.levels.len() && s.levels[j] == task.tiers[k];
        assert(s.levels[j].0 == s.levels[i].0);
        assert(i == j);
    }
    let numbers = s.levels.map_values(|t: (usize, Seq<usize>)| t.0);
    assert forall|id: usize| #[trigger] map.contains_key(id) implies exists|i: int|
        0 <= i < s.levels.len() && (#[trigger] s.levels[i]).0 == id by {
        assert(tier_numbers(s.levels).contains(id));
        let i = choose|i: int| 0 <= i < numbers.len() && numbers[i] == id;
        assert(s.levels[i].0 == id);
    }
    assert forall|id: usize| left.count(id) == right.count(id) by {
        lemma_count_add(r.all_ids(), removed, id);
        lemma_count_add(s.all_ids(), output, id);
        lemma_count_add(r.l0_sstables, level_ids(r.levels), id);
        lemma_count_add(s.l0_sstables, level_ids(s.levels), id);
        lemma_count_replaced(s.levels, map, new, id);
    }
    assert(left =~= right);
}

proof fn lemma_count_replaced(
    tiers: Seq<(usize, Seq<usize>)>,
    map: Map<usize, Seq<usize>>,
    new: (usize, Seq<usize>),
    id: usize,
)
    requires
        tiers.len() > 0,
        forall|i: int, j: int| 0 <= i < j < tiers.len() ==> tiers[i].0 != tiers[j].0,
        forall|i: int|
            0 <= i < tiers.len() && map.contains_key((#[trigger] tiers[i]).0)
                ==> map[tiers[i].0] == tiers[i].1,
        forall|n: usize| #[trigger]
            map.contains_key(n) ==> exists|i: int|
                0 <= i < tiers.len() && (#[trigger] tiers[i]).0 == n,
    ensures
        level_ids(replaced(tiers, map.dom(), new)).to_multiset().count(id) + removed_ids(
            tiers,
            map,
        ).to_multiset().count(id) == level_ids(tiers).to_multiset().count(id)
            + new.1.to_multiset().count(id),
    decreases tiers.len(),
{
    let first = tiers[0];
    let tail = tiers.drop_first();
    let rest = map.remove(first.0);
    assert(rest.dom() =~= map.dom().remove(first.0));
    assert(tiers =~= seq![first] + tail);
    lemma_count_levels(first, tail, id);
    let head = if map.contains_key(first.0) {
        Seq::<(usize, Seq<usize>)>::empty()
    } else {
        seq![first]
    };
    if map.contains_key(first.0) {
        lemma_count_add(map[first.0], removed_ids(tail, rest), id);
    } else {
        assert(rest =~= map);
    }
    if rest.dom().is_empty() {
        assert(rest.dom() =~= Set::<usize>::empty());
        lemma_removed_none(tail, rest);
        lemma_count_levels(new, tail, id);
        assert(replaced(tiers, map.dom(), new) == head + seq![new] + tail);
        if map.contains_key(first.0) {
            assert(head + seq![new] + tail =~= seq![new] + tail);
        } else {
            lemma_count_levels(first, seq![new] + tail, id);
            assert(head + seq![new] + tail =~= seq![first] + (seq![new] + tail));
        }
        assert(Seq::<usize>::empty().to_multiset().count(id) == 0) by {
            broadcast use vstd::seq_lib::group_to_multiset_ensures;

            assert(!Seq::<usize>::empty().contains(id));
        }
    } else {
        assert forall|i: int| 0 <= i < tail.len() && rest.contains_key(
            (#[trigger] tail[i]).0,
        ) implies rest[tail[i].0] == tail[i].1 by {
            assert(tiers[i + 1] == tail[i]);
        }
        assert forall|n: usize| #[trigger] rest.contains_key(n) implies exists|i: int|
            0 <= i < tail.len() && (#[trigger] tail[i]).0 == n by {
            assert(map.contains_key(n));
            let i = choose|i: int| 0 <= i < tiers.len() && (#[trigger] tiers[i]).0 == n;
            assert(tail[i - 1].0 == n);
        }
        let n = choose|n: usize| rest.dom().contains(n);
        assert(rest.contains_key(n));
        assert(tail.len() > 0);
        lemma_count_replaced(tail, rest, new, id);
        if map.contains_key(first.0) {
            assert(head + replaced(tail, rest.dom(), new) =~= replaced(tail, rest.dom(), new));
        } else {
            lemma_count_levels(first, replaced(tail, rest.dom(), new), id);
        }
    }
}

proof fn lemma_count_levels(
    first: (usize, Seq<usize>),
    tail: Seq<(usize, Seq<usize>)>,
    id: usize,
)
    ensures
        level_ids(seq![first] + tail).to_multiset().count(id) == first.1.to_multiset().count(id)
            + level_ids(tail).to_multiset().count(id),
{
    lemma_level_ids_add(seq![first], tail);
    assert(seq![first].drop_last() =~= Seq::<(usize, Seq<usize>)>::empty());
    assert(level_ids(seq![first].drop_last()) =~= Seq::<usize>::empty());
    assert(level_ids(seq![first]) =~= first.1);
    lemma_count_add(first.1, level_ids(tail), id);
}

/// Tiers whose numbers are not given stay in front.
proof fn lemma_front_stays(
    front: Seq<(usize, Seq<usize>)>,
    tiers: Seq<(usize, Seq<usize>)>,
    map: Map<usize, Seq<usize>>,
    new: (usize, Seq<usize>),
)
    requires
        !map.dom().is_empty(),
        forall|i: int| 0 <= i < front.len() ==> !map.contains_key((#[trigger] front[i]).0),
    ensures
        replaced(front + tiers, map.dom(), new) == front + replaced(tiers, map.dom(), new),
        removed_ids(front + tiers, map) == removed_ids(tiers, map),
    decreases front.len(),
{
    let all = front + tiers;
    if front.len() == 0 {
        assert(all =~= tiers);
        assert(front + replaced(tiers, map.dom(), new) =~= replaced(tiers, map.dom(), new));
    } else {
        let rest = front.drop_first();
        assert forall|i: int| 0 <= i < rest.len() implies !map.contains_key(
            (#[trigger] rest[i]).0,
        ) by {
            assert(rest[i] == front[i + 1]);
        }
        lemma_front_stays(rest, tiers, map, new);
        assert(all[0] == front[0]);
        assert(!map.contains_key(front[0].0));
        assert(map.dom().remove(front[0].0) =~= map.dom());
        assert(all.drop_first() =~= rest + tiers);
        assert(seq![front[0]] + (rest + replaced(tiers, map.dom(), new)) =~= front + replaced(
            tiers,
            map.dom(),
            new,
        ));
    }
}

/// A generated task can be applied to a later state that has gained tiers in front of those that it
/// was made for, where all tiers are numbered apart. The new tier then takes the place of the tiers
/// of the task, behind the later ones.
pub proof fn lemma_generated_task_applies_later(
    options: TieredCompactionOptions,
    s: StateView,
    task: TieredTaskView,
    later: StateView,
    front: Seq<(usize, Seq<usize>)>,
    output: Seq<usize>,
)
    requires
        options.fits(s),
        options.task(s) == Some(task),
        later.levels == front + s.levels,
        numbered_apart(later.levels),
        output.len() > 0,
    ensures
        can_apply(later, task, output),
        forall|i: int| 0 <= i < task.tiers.len() ==> later.levels.contains(#[trigger] task.tiers[i]),
        task.tiers.len() > 0 ==> applied(later, task, output).levels == front + seq![
            (output[0], output),
        ] + s.levels.skip(task.tiers.len() as int),
        task.tiers.len() > 0 ==> removed_ids(later.levels, tier_map(task.tiers)) == level_ids(
            task.tiers,
        ),
{
    lemma_generated_task_takes_newest(options, s, task);
    let n = task.tiers.len() as int;
    let map = tier_map(task.tiers);
    let new = (output[0], output);
    let numbers = later.levels.map_values(|t: (usize, Seq<usize>)| t.0);
    assert forall|i: int| 0 <= i < n implies later.levels.contains(#[trigger] task.tiers[i]) by {
        assert(later.levels[front.len() + i] == task.tiers[i]);
    }
    assert forall|id: usize| #[trigger] map.dom().contains(id) implies tier_numbers(
        later.levels,
    ).contains(id) by {
        let i = lemma_tier_map(task.tiers, id);
        assert(numbers[front.len() + i] == id);
    }
    if n > 0 {
        assert forall|i: int, j: int| 0 <= i < j < s.levels.len() implies s.levels[i].0
            != s.levels[j].0 by {
            assert(later.levels[front.len() + i] == s.levels[i]);
            assert(later.levels[front.len() + j] == s.levels[j]);
        }
        lemma_newest_tiers_replaced(s.levels, n, new);
        lemma_tier_map_has(task.tiers, 0);
        assert(map.dom().contains(task.tiers[0].0));
        assert forall|i: int| 0 <= i < front.len() implies !map.contains_key(
            (#[trigger] front[i]).0,
        ) by {
            if map.contains_key(front[i].0) {
                let k = lemma_tier_map(task.tiers, front[i].0);
                assert(later.levels[i] == front[i]);
                assert(later.levels[front.len() + k] == s.levels[k]);
            }
        }
        lemma_front_stays(front, s.levels, map, new);
        assert(front + (seq![new] + s.levels.skip(n)) =~= front + seq![new] + s.levels.skip(n));
    }
}

/// Whether every tier has tables and bears the id of its first one.
pub open spec fn named_by_first(tiers: Seq<(usize, Seq<usize>)>) -> bool {
    forall|i: int|
        0 <= i < tiers.len() ==> (#[trigger] tiers[i]).1.len() > 0 && tiers[i].0 == tiers[i].1[0]
}

/// What it is for tiers to be numbered apart, and to be named after their first tables.
pub proof fn lemma_tier_names(tiers: Seq<(usize, Seq<usize>)>)
    ensures
        numbered_apart(tiers) <==> forall|i: int, j: int|
            0 <= i < tiers.len() && 0 <= j < tiers.len() && i != j ==> tiers[i].0 != tiers[j].0,
        named_by_first(tiers) <==> forall|i: int|
            0 <= i < tiers.len() ==> (#[trigger] tiers[i]).1.len() > 0 && tiers[i].1.first()
                == tiers[i].0,
{
    if numbered_apart(tiers) {
        assert forall|i: int, j: int|
            0 <= i < tiers.len() && 0 <= j < tiers.len() && i != j implies tiers[i].0
            != tiers[j].0 by {
            if j < i {
                assert(tiers[j].0 != tiers[i].0);
            }
        }
    }
}

/// A task without tiers puts the new tier behind the first one.
pub proof fn lemma_empty_task(s: StateView, task: TieredTaskView, output: Seq<usize>)
    requires
        task.tiers.len() == 0,
        s.levels.len() > 0,
    ensures
        applied(s, task, output).levels == s.levels.take(1) + seq![(output[0], output)]
            + s.levels.skip(1),
        removed_ids(s.levels, tier_map(task.tiers)) == Seq::<usize>::empty(),
{
    let map = tier_map(task.tiers);
    assert(map.dom() =~= Set::<usize>::empty());
    assert(map.dom().remove(s.levels[0].0) =~= Set::<usize>::empty());
    assert(s.levels.take(1) =~= seq![s.levels[0]]);
    assert(s.levels.drop_first() =~= s.levels.skip(1));
    lemma_removed_none(s.levels, map);
}

/// A compaction keeps every tier named after its first table.
pub proof fn lemma_apply_keeps_names(s: StateView, task: TieredTaskView, output: Seq<usize>)
    requires
        can_apply(s, task, output),
        named_by_first(s.levels),
    ensures
        named_by_first(applied(s, task, output).levels),
{
    if s.levels.len() > 0 {
        lemma_replaced_named(s.levels, tier_map(task.tiers).dom(), (output[0], output));
    }
}

proof fn lemma_replaced_named(
    tiers: Seq<(usize, Seq<usize>)>,
    numbers: Set<usize>,
    new: (usize, Seq<usize>),
)
    requires
        named_by_first(tiers),
        new.1.len() > 0,
        new.0 == new.1[0],
    ensures
        named_by_first(replaced(tiers, numbers, new)),
    decreases tiers.len(),
{
    if tiers.len() > 0 {
        let tail = tiers.drop_first();
        assert forall|i: int| 0 <= i < tail.len() implies (#[trigger] tail[i]).1.len() > 0
            && tail[i].0 == tail[i].1[0] by {
            assert(tail[i] == tiers[i + 1]);
        }
        lemma_replaced_named(tail, numbers.remove(tiers[0].0), new);
    }
}

} // verus!
