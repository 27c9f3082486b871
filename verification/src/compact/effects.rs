//! What compactions do to the state, list by list.

use super::generator::{kept, GeneratorView};
use super::leveled::{self, LeveledTaskView};
use super::simple_leveled::SimpleLeveledCompactionController;
use super::tiered::{self, replaced, removed_ids, tier_map, tier_numbers, TieredTaskView};
use super::{
    full_compaction, has_task_tables, reads_task, table_ids, with_tables, without_tables,
    CompactionController, CompactionInput, CompactionTask,
};
use crate::ids::{
    lemma_same_filter, lemma_stable_sort, lemma_without_first_contains,
    lemma_without_first_is_filter, without_first,
};
use crate::key::{key_lt, Entry};
use crate::lsm_storage::{
    lemma_level_ids_add, level_ids, LsmStorageInner, LsmStorageState, StateView,
};
use crate::table::SsTable;
use vstd::prelude::*;

verus! {

/// Removal of a list of ids from a list without repeated ids.
proof fn lemma_removal(ids: Seq<usize>, drop: Seq<usize>)
    requires
        ids.no_duplicates(),
    ensures
        without_first(ids, drop.to_set()) == ids.filter(|id: usize| !drop.contains(id)),
{
    let p = |id: usize| !drop.to_set().contains(id);
    let q = |id: usize| !drop.contains(id);
    lemma_without_first_is_filter(ids, drop.to_set());
    lemma_same_filter(ids, p, q);
}

/// A leveled compaction takes the upper tables of its task out of their level, or out of level 0,
/// and the lower tables out of theirs, and puts the new tables there: at its end while the state is
/// recovered, otherwise where their first keys belong, those with the same first key in the order
/// in which they were. All other levels, the numbers of the levels and the tables stay.
pub proof fn lemma_leveled_effect(
    s: StateView,
    task: LeveledTaskView,
    output: Seq<usize>,
    in_recovery: bool,
    r: StateView,
)
    requires
        leveled::can_apply(s, task, output, in_recovery),
        leveled::applied(s, task, output, in_recovery, r),
        task.upper_level != Some(task.lower_level),
        s.l0_sstables.no_duplicates(),
        forall|i: int| 0 <= i < s.levels.len() ==> (#[trigger] s.levels[i]).1.no_duplicates(),
    ensures
        ({
            let stay = s.levels[task.lower_level - 1].1.filter(
                |id: usize| !task.lower_level_sst_ids.contains(id),
            );
            let lower = r.levels[task.lower_level - 1].1;
            &&& 1 <= task.lower_level <= s.levels.len()
            &&& r.sstables == s.sstables
            &&& r.levels.len() == s.levels.len()
            &&& forall|i: int|
                0 <= i < s.levels.len() ==> (#[trigger] r.levels[i]).0 == s.levels[i].0
            &&& forall|i: int|
                0 <= i < s.levels.len() && i + 1 != task.lower_level && task.upper_level != Some(
                    (i + 1) as usize,
                ) ==> (#[trigger] r.levels[i]).1 == s.levels[i].1
            &&& task.upper_level is None ==> r.l0_sstables == s.l0_sstables.filter(
                |id: usize| !task.upper_level_sst_ids.contains(id),
            )
            &&& task.upper_level matches Some(n) ==> {
                &&& r.l0_sstables == s.l0_sstables
                &&& r.levels[n - 1].1 == s.levels[n - 1].1.filter(
                    |id: usize| !task.upper_level_sst_ids.contains(id),
                )
            }
            &&& in_recovery ==> lower == stay + output
            &&& !in_recovery ==> {
                &&& lower.to_multiset() == (stay + output).to_multiset()
                &&& forall|i: int, j: int|
                    0 <= i < j < lower.len() ==> !key_lt(
                        s.sstables[#[trigger] lower[j]].first_key@,
                        s.sstables[#[trigger] lower[i]].first_key@,
                    )
            }
            &&& !in_recovery && (stay + output).no_duplicates() ==> forall|
                i: int,
                j: int,
                k: int,
                l: int,
            |
                #![trigger (stay + output)[i], (stay + output)[j], lower[k], lower[l]]
                0 <= i < j < (stay + output).len() && 0 <= k < lower.len() && 0 <= l < lower.len()
                    && lower[k] == (stay + output)[i] && lower[l] == (stay + output)[j]
                    && s.sstables[lower[k]].first_key@ == s.sstables[lower[l]].first_key@ ==> k < l
        }),
{
    let stay = s.levels[task.lower_level - 1].1.filter(
        |id: usize| !task.lower_level_sst_ids.contains(id),
    );
    let lower = r.levels[task.lower_level - 1].1;
    let merged = leveled::merged_level(s, task, output);
    assert(s.levels[task.lower_level - 1].1.no_duplicates());
    lemma_removal(s.levels[task.lower_level - 1].1, task.lower_level_sst_ids);
    assert(merged == stay + output);
    match task.upper_level {
        Some(n) => {
            assert(s.levels[n - 1].1.no_duplicates());
            lemma_removal(s.levels[n - 1].1, task.upper_level_sst_ids);
        },
        None => {
            lemma_removal(s.l0_sstables, task.upper_level_sst_ids);
        },
    }
    if !in_recovery {
        assert forall|i: int, j: int| 0 <= i < j < lower.len() implies !key_lt(
            s.sstables[#[trigger] lower[j]].first_key@,
            s.sstables[#[trigger] lower[i]].first_key@,
        ) by {
            assert(crate::key::key_le(s.first_key(lower[i]), s.first_key(lower[j])));
        }
        if merged.no_duplicates() {
            lemma_stable_sort(s, merged, lower);
        }
    }
}

/// A leveled task can be applied where its levels are there and hold its tables, and the tables of
/// the lower level and the new ones are known.
pub proof fn lemma_leveled_can_apply(
    s: StateView,
    task: LeveledTaskView,
    output: Seq<usize>,
    in_recovery: bool,
)
    requires
        1 <= task.lower_level <= s.levels.len(),
        task.upper_level != Some(task.lower_level),
        task.upper_level matches Some(n) ==> 1 <= n <= s.levels.len(),
        task.upper_level matches Some(n) ==> forall|id: usize| #[trigger]
            task.upper_level_sst_ids.contains(id) ==> s.levels[n - 1].1.contains(id),
        task.upper_level is None ==> forall|id: usize| #[trigger]
            task.upper_level_sst_ids.contains(id) ==> s.l0_sstables.contains(id),
        forall|id: usize| #[trigger]
            task.lower_level_sst_ids.contains(id) ==> s.levels[task.lower_level - 1].1.contains(id),
        forall|id: usize| #[trigger]
            s.levels[task.lower_level - 1].1.contains(id) ==> s.sstables.contains_key(id),
        forall|id: usize| #[trigger] output.contains(id) ==> s.sstables.contains_key(id),
    ensures
        leveled::can_apply(s, task, output, in_recovery),
{
    let level = s.levels[task.lower_level - 1].1;
    let drop = task.lower_level_sst_ids.to_set();
    let merged = leveled::merged_level(s, task, output);
    let stay = without_first(level, drop);
    assert(merged == stay + output);
    assert forall|i: int| 0 <= i < merged.len() implies s.sstables.contains_key(
        #[trigger] merged[i],
    ) by {
        if i < stay.len() {
            assert(stay.contains(stay[i]));
            lemma_without_first_contains(level, drop, stay[i]);
            assert(level.contains(stay[i]));
        } else {
            assert(output.contains(output[i - stay.len()]));
        }
    }
    assert forall|id: usize| task.upper_level_sst_ids.to_set().contains(id) implies (
    match task.upper_level {
        Some(n) => s.levels[n - 1].1.to_set().contains(id),
        None => s.l0_sstables.to_set().contains(id),
    }) by {
        assert(task.upper_level_sst_ids.contains(id));
    }
    assert forall|id: usize| drop.contains(id) implies level.to_set().contains(id) by {
        assert(task.lower_level_sst_ids.contains(id));
    }
}

/// A tiered compaction puts a tier of the new tables, named after the first of them, in the place of
/// the last tier of its task, and takes the tiers of the task out. All other tiers stay where they
/// are, level 0 and the tables too. The tables of the tiers that go are no longer in use, in the
/// order of the tiers.
pub proof fn lemma_tiered_effect(
    s: StateView,
    task: TieredTaskView,
    output: Seq<usize>,
    p: int,
)
    requires
        tiered::can_apply(s, task, output),
        forall|i: int, j: int| 0 <= i < j < s.levels.len() ==> s.levels[i].0 != s.levels[j].0,
        forall|t: (usize, Seq<usize>)| #[trigger] task.tiers.contains(t) ==> s.levels.contains(t),
        0 <= p < s.levels.len(),
        task.tiers.contains(s.levels[p]),
        forall|i: int| p < i < s.levels.len() ==> !task.tiers.contains(#[trigger] s.levels[i]),
    ensures
        ({
            let r = tiered::applied(s, task, output);
            &&& r.l0_sstables == s.l0_sstables
            &&& r.sstables == s.sstables
            &&& r.levels == s.levels.take(p).filter(
                |t: (usize, Seq<usize>)| !task.tiers.contains(t),
            ) + seq![(output[0], output)] + s.levels.skip(p + 1)
            &&& removed_ids(s.levels, tier_map(task.tiers)) == level_ids(
                s.levels.filter(|t: (usize, Seq<usize>)| task.tiers.contains(t)),
            )
        }),
{
    let map = tier_map(task.tiers);
    assert forall|i: int| 0 <= i < s.levels.len() implies (map.contains_key(
        (#[trigger] s.levels[i]).0,
    ) <==> task.tiers.contains(s.levels[i])) && (map.contains_key(s.levels[i].0)
        ==> map[s.levels[i].0] == s.levels[i].1) by {
        let t = s.levels[i];
        if task.tiers.contains(t) {
            let k = choose|k: int| 0 <= k < task.tiers.len() && task.tiers[k] == t;
            tiered::lemma_tier_map_has(task.tiers, k);
        }
        if map.contains_key(t.0) {
            let k = tiered::lemma_tier_map(task.tiers, t.0);
            assert(task.tiers.contains(task.tiers[k]));
            let j = choose|j: int| 0 <= j < s.levels.len() && s.levels[j] == task.tiers[k];
            assert(j == i);
        }
    }
    assert forall|id: usize| #[trigger] map.contains_key(id) implies exists|i: int|
        0 <= i < s.levels.len() && (#[trigger] s.levels[i]).0 == id by {
        let k = tiered::lemma_tier_map(task.tiers, id);
        assert(task.tiers.contains(task.tiers[k]));
        let j = choose|j: int| 0 <= j < s.levels.len() && s.levels[j] == task.tiers[k];
        assert(s.levels[j].0 == id);
    }
    lemma_replaced_at(s.levels, map.dom(), (output[0], output), p);
    let f = |t: (usize, Seq<usize>)| !map.dom().contains(t.0);
    let g = |t: (usize, Seq<usize>)| !task.tiers.contains(t);
    assert forall|i: int| 0 <= i < p implies f(#[trigger] s.levels.take(p)[i]) == g(
        s.levels.take(p)[i],
    ) by {
        assert(s.levels.take(p)[i] == s.levels[i]);
    }
    lemma_same_filter(s.levels.take(p), f, g);
    lemma_removed_are_filtered(s.levels, map);
    lemma_same_filter(
        s.levels,
        |t: (usize, Seq<usize>)| map.contains_key(t.0),
        |t: (usize, Seq<usize>)| task.tiers.contains(t),
    );
}

proof fn lemma_replaced_at(
    tiers: Seq<(usize, Seq<usize>)>,
    numbers: Set<usize>,
    new: (usize, Seq<usize>),
    p: int,
)
    requires
        forall|i: int, j: int| 0 <= i < j < tiers.len() ==> tiers[i].0 != tiers[j].0,
        0 <= p < tiers.len(),
        numbers.contains(tiers[p].0),
        forall|i: int| p < i < tiers.len() ==> !numbers.contains((#[trigger] tiers[i]).0),
        forall|id: usize| #[trigger]
            numbers.contains(id) ==> exists|i: int|
                0 <= i < tiers.len() && (#[trigger] tiers[i]).0 == id,
    ensures
        replaced(tiers, numbers, new) == tiers.take(p).filter(
            |t: (usize, Seq<usize>)| !numbers.contains(t.0),
        ) + seq![new] + tiers.skip(p + 1),
    decreases tiers.len(),
{
    let first = tiers[0];
    let tail = tiers.drop_first();
    let left = numbers.remove(first.0);
    let f = |t: (usize, Seq<usize>)| !numbers.contains(t.0);
    if p == 0 {
        assert forall|id: usize| !left.contains(id) by {
            if left.contains(id) {
                let i = choose|i: int| 0 <= i < tiers.len() && (#[trigger] tiers[i]).0 == id;
                assert(i == 0);
            }
        }
        assert(left =~= Set::<usize>::empty());
        reveal(Seq::filter);
        assert(tiers.take(0) =~= Seq::empty());
        assert(replaced(tiers, numbers, new) =~= tiers.take(0).filter(f) + seq![new] + tiers.skip(
            1,
        ));
    } else {
        assert(tail[p - 1] == tiers[p]);
        assert(left.contains(tiers[p].0));
        assert(!left.is_empty());
        assert forall|i: int| p - 1 < i < tail.len() implies !left.contains(
            (#[trigger] tail[i]).0,
        ) by {
            assert(tail[i] == tiers[i + 1]);
        }
        assert forall|id: usize| #[trigger] left.contains(id) implies exists|i: int|
            0 <= i < tail.len() && (#[trigger] tail[i]).0 == id by {
            assert(numbers.contains(id));
            let i = choose|i: int| 0 <= i < tiers.len() && (#[trigger] tiers[i]).0 == id;
            assert(tail[i - 1].0 == id);
        }
        lemma_replaced_at(tail, left, new, p - 1);
        let front = tail.take(p - 1);
        let g = |t: (usize, Seq<usize>)| !left.contains(t.0);
        assert forall|i: int| 0 <= i < front.len() implies f(#[trigger] front[i]) == g(
            front[i],
        ) by {
            assert(front[i] == tiers[i + 1]);
        }
        lemma_same_filter(front, f, g);
        assert(tiers.take(p) =~= seq![first] + front);
        Seq::filter_distributes_over_add(seq![first], front, f);
        reveal_with_fuel(Seq::filter, 2);
        assert(seq![first].drop_last() =~= Seq::empty());
        assert(tail.skip(p) =~= tiers.skip(p + 1));
        let head = if numbers.contains(first.0) {
            Seq::empty()
        } else {
            seq![first]
        };
        assert(seq![first].filter(f) =~= head);
        assert(head + (front.filter(g) + seq![new] + tail.skip(p)) =~= (head + front.filter(f))
            + seq![new] + tiers.skip(p + 1));
    }
}

proof fn lemma_removed_are_filtered(
    tiers: Seq<(usize, Seq<usize>)>,
    map: Map<usize, Seq<usize>>,
)
    requires
        forall|i: int, j: int| 0 <= i < j < tiers.len() ==> tiers[i].0 != tiers[j].0,
        forall|i: int|
            0 <= i < tiers.len() && map.contains_key((#[trigger] tiers[i]).0) ==> map[tiers[i].0]
                == tiers[i].1,
    ensures
        removed_ids(tiers, map) == level_ids(
            tiers.filter(|t: (usize, Seq<usize>)| map.contains_key(t.0)),
        ),
    decreases tiers.len(),
{
    let f = |t: (usize, Seq<usize>)| map.contains_key(t.0);
    if tiers.len() == 0 {
        reveal(Seq::filter);
    } else {
        let first = tiers[0];
        let tail = tiers.drop_first();
        let rest = map.remove(first.0);
        let g = |t: (usize, Seq<usize>)| rest.contains_key(t.0);
        assert(tiers =~= seq![first] + tail);
        Seq::filter_distributes_over_add(seq![first], tail, f);
        assert forall|i: int| 0 <= i < tail.len() implies {
            &&& f(#[trigger] tail[i]) == g(tail[i])
            &&& map.contains_key(tail[i].0) ==> map[tail[i].0] == tail[i].1
            &&& rest.contains_key(tail[i].0) ==> rest[tail[i].0] == tail[i].1
        } by {
            assert(tail[i] == tiers[i + 1]);
        }
        lemma_same_filter(tail, f, g);
        reveal_with_fuel(Seq::filter, 2);
        assert(seq![first].drop_last() =~= Seq::empty());
        if map.contains_key(first.0) {
            lemma_removed_are_filtered(tail, rest);
            assert(seq![first].filter(f) =~= seq![first]);
            lemma_level_ids_add(seq![first], tail.filter(f));
            assert(level_ids(seq![first].drop_last()) =~= Seq::<usize>::empty());
            assert(level_ids(seq![first]) =~= first.1);
        } else {
            lemma_removed_are_filtered(tail, map);
            assert(seq![first].filter(f) =~= Seq::empty());
            assert(Seq::empty() + tail.filter(f) =~= tail.filter(f));
        }
    }
}

/// A tiered task can be applied where for each of its tiers one with the same number is there, and
/// there is a new table.
pub proof fn lemma_tiered_can_apply(s: StateView, task: TieredTaskView, output: Seq<usize>)
    requires
        output.len() > 0,
        forall|i: int|
            0 <= i < task.tiers.len() ==> exists|j: int|
                0 <= j < s.levels.len() && (#[trigger] s.levels[j]).0 == (
                #[trigger] task.tiers[i]).0,
    ensures
        tiered::can_apply(s, task, output),
{
    let numbers = s.levels.map_values(|t: (usize, Seq<usize>)| t.0);
    assert forall|id: usize| #[trigger] tier_map(task.tiers).dom().contains(id)
        implies tier_numbers(s.levels).contains(id) by {
        let i = tiered::lemma_tier_map(task.tiers, id);
        assert(task.tiers[i].0 == id);
        let j = choose|j: int| 0 <= j < s.levels.len() && (#[trigger] s.levels[j]).0 == id;
        assert(numbers[j] == id);
    }
}

/// A deleted key is dropped only where nothing older lies below the tables of the task. Of a task
/// that leveled compaction generates this is so just where it goes into the last level of the
/// options; of one that tiered compaction generates, where it takes all tiers; and of a full
/// compaction always. Elsewhere the tables that the compaction writes keep the deleted key.
pub proof fn lemma_deleted_keys_are_dropped_at_the_bottom<C: SimpleLeveledCompactionController>(
    ctrl: CompactionController<C>,
    state: LsmStorageState,
    task: CompactionTask,
    target: usize,
    deleted: Entry,
)
    requires
        ctrl.fits(state@),
        ctrl.generates(state, Some(task)),
        !(ctrl is Simple),
        deleted.value.len() == 0,
    ensures
        ({
            let g = GeneratorView::fresh(task.to_bottom(), target);
            let at_bottom = match (ctrl, task) {
                (CompactionController::Leveled(ctrl), CompactionTask::Leveled(task)) => {
                    task.lower_level == ctrl@.max_levels
                },
                (CompactionController::Tiered(_), CompactionTask::Tiered(task)) => {
                    task.tiers@.len() == state.levels@.len()
                },
                _ => false,
            };
            &&& g.is_compact_bottom <==> at_bottom
            &&& !at_bottom ==> g.after_entry(deleted).current == seq![deleted]
            &&& !at_bottom ==> kept(seq![deleted], g.is_compact_bottom) == seq![deleted]
            &&& at_bottom ==> g.after_entry(deleted).current == Seq::<Entry>::empty()
        }),
        (CompactionTask::ForceFullCompaction {
            l0_sstables: state.l0_sstables,
            l1_sstables: state.l0_sstables,
        }).to_bottom(),
{
    match (ctrl, task) {
        (CompactionController::Leveled(ctrl), CompactionTask::Leveled(task)) => {
            super::choice::lemma_leveled_destination(ctrl@, state@, task@);
        },
        (CompactionController::Tiered(ctrl), CompactionTask::Tiered(task)) => {
            super::choice::lemma_amplified_tiers_are_merged(ctrl@, state@, task@);
        },
        _ => {},
    }
    super::generator::lemma_kept(Seq::empty(), Seq::empty(), deleted, task.to_bottom());
    assert(Seq::<Entry>::empty().push(deleted) =~= seq![deleted]);
}

/// What a task says of the bottom of the tree, field by field.
pub proof fn lemma_task_bottom(task: CompactionTask)
    ensures
        task matches CompactionTask::Leveled(t) ==> (task.to_bottom()
            <==> t.is_lower_level_bottom_level),
        task matches CompactionTask::Simple(t) ==> (task.to_bottom()
            <==> t.is_lower_level_bottom_level),
        task matches CompactionTask::Tiered(t) ==> (task.to_bottom() <==> t.bottom_tier_included),
        task is ForceFullCompaction ==> task.to_bottom(),
{
}

/// Each strategy generates tasks of its own kind, and those that its rules call for.
pub proof fn lemma_strategy_generates<C: SimpleLeveledCompactionController>(
    ctrl: CompactionController<C>,
    state: LsmStorageState,
    r: Option<CompactionTask>,
)
    ensures
        ctrl matches CompactionController::Leveled(c) ==> (ctrl.fits(state@) <==> c@.fits(state@)),
        ctrl matches CompactionController::Tiered(c) ==> (ctrl.fits(state@) <==> c@.fits(state@)),
        ctrl is Simple ==> ctrl.fits(state@),
        ctrl matches CompactionController::Leveled(c) ==> (ctrl.generates(state, r) ==> (
        if c@.task(state@) is None {
            r is None
        } else {
            r matches Some(CompactionTask::Leveled(t)) && c@.task(state@) == Some(t@)
        })),
        ctrl matches CompactionController::Tiered(c) ==> (ctrl.generates(state, r) ==> (
        if c@.task(state@) is None {
            r is None
        } else {
            r matches Some(CompactionTask::Tiered(t)) && c@.task(state@) == Some(t@)
        })),
        ctrl is Simple && ctrl.generates(state, r) ==> (r matches Some(t) ==> t is Simple),
{
}

/// Each strategy applies tasks of its own kind, by its rules, and leaves the tables unused that it
/// takes out.
pub proof fn lemma_strategy_applies<C: SimpleLeveledCompactionController>(
    ctrl: CompactionController<C>,
    state: LsmStorageState,
    task: CompactionTask,
    output: Seq<usize>,
    in_recovery: bool,
    after: LsmStorageState,
    removed: Vec<usize>,
)
    requires
        ctrl.can_apply(state@, task, output, in_recovery),
        ctrl.applies(state, task, output, in_recovery, after, removed),
    ensures
        ctrl is Leveled ==> (task matches CompactionTask::Leveled(t) && leveled::can_apply(
            state@,
            t@,
            output,
            in_recovery,
        ) && leveled::applied(state@, t@, output, in_recovery, after@) && removed@
            == t.upper_level_sst_ids@ + t.lower_level_sst_ids@),
        ctrl is Tiered ==> (task matches CompactionTask::Tiered(t) && tiered::can_apply(
            state@,
            t@,
            output,
        ) && after@ == tiered::applied(state@, t@, output) && removed@ == removed_ids(
            state@.levels,
            tier_map(t@.tiers),
        )),
        ctrl is Simple ==> task is Simple,
        !(ctrl is NoCompaction),
{
}

/// A strategy can apply what its rules can.
pub proof fn lemma_strategy_can_apply<C: SimpleLeveledCompactionController>(
    ctrl: CompactionController<C>,
    s: StateView,
    task: CompactionTask,
    output: Seq<usize>,
    in_recovery: bool,
)
    ensures
        ctrl is Leveled ==> (task matches CompactionTask::Leveled(t) ==> (ctrl.can_apply(
            s,
            task,
            output,
            in_recovery,
        ) <==> leveled::can_apply(s, t@, output, in_recovery))),
        ctrl is Tiered ==> (task matches CompactionTask::Tiered(t) ==> (ctrl.can_apply(
            s,
            task,
            output,
            in_recovery,
        ) <==> tiered::can_apply(s, t@, output))),
        ctrl is Simple && task is Simple ==> ctrl.can_apply(s, task, output, in_recovery),
{
}

/// What a compaction reads: the upper tables over the lower ones, of level 0 as tables that overlap
/// and of another level as a run; the tiers in their order; and for a full compaction level 0 over
/// level 1.
pub proof fn lemma_compaction_reads(task: CompactionTask, input: CompactionInput)
    requires
        reads_task(task, input),
    ensures
        task matches CompactionTask::Leveled(t) ==> {
            &&& t.upper_level is None ==> (input matches CompactionInput::TablesOverRun {
                tables,
                run,
            } && tables@ == t.upper_level_sst_ids@ && run@ == t.lower_level_sst_ids@)
            &&& t.upper_level is Some ==> (input matches CompactionInput::RunOverRun {
                upper,
                lower,
            } && upper@ == t.upper_level_sst_ids@ && lower@ == t.lower_level_sst_ids@)
        },
        task matches CompactionTask::Simple(t) ==> {
            &&& t.upper_level is None ==> (input matches CompactionInput::TablesOverRun {
                tables,
                run,
            } && tables@ == t.upper_level_sst_ids@ && run@ == t.lower_level_sst_ids@)
            &&& t.upper_level is Some ==> (input matches CompactionInput::RunOverRun {
                upper,
                lower,
            } && upper@ == t.upper_level_sst_ids@ && lower@ == t.lower_level_sst_ids@)
        },
        task matches CompactionTask::ForceFullCompaction { l0_sstables, l1_sstables } ==> (
        input matches CompactionInput::TablesOverRun { tables, run } && tables@ == l0_sstables@
            && run@ == l1_sstables@),
        task matches CompactionTask::Tiered(t) ==> (input matches CompactionInput::Runs(runs)
            && runs@.len() == t.tiers@.len() && forall|i: int|
            0 <= i < t.tiers@.len() ==> (#[trigger] runs@[i]).0 == t.tiers@[i].0 && runs@[i].1@
                == t.tiers@[i].1@),
{
    match (task, input) {
        (CompactionTask::Tiered(t), CompactionInput::Runs(runs)) => {
            let a = crate::lsm_storage::levels_view(runs@);
            let b = crate::lsm_storage::levels_view(t.tiers@);
            assert(a == b);
            assert forall|i: int| 0 <= i < t.tiers@.len() implies (#[trigger] runs@[i]).0
                == t.tiers@[i].0 && runs@[i].1@ == t.tiers@[i].1@ by {
                assert(a[i] == b[i]);
            }
        },
        _ => {},
    }
}

/// A compaction can be run where all tables of its task are known.
pub proof fn lemma_compaction_can_run(s: StateView, task: CompactionTask)
    requires
        task matches CompactionTask::Leveled(t) ==> forall|id: usize| #[trigger]
            (t.upper_level_sst_ids@ + t.lower_level_sst_ids@).contains(id)
                ==> s.sstables.contains_key(id),
        task matches CompactionTask::Simple(t) ==> forall|id: usize| #[trigger]
            (t.upper_level_sst_ids@ + t.lower_level_sst_ids@).contains(id)
                ==> s.sstables.contains_key(id),
        task matches CompactionTask::ForceFullCompaction { l0_sstables, l1_sstables } ==> forall|
            id: usize,
        | #[trigger]
            (l0_sstables@ + l1_sstables@).contains(id) ==> s.sstables.contains_key(id),
        task matches CompactionTask::Tiered(t) ==> forall|i: int, id: usize|
            0 <= i < t.tiers@.len() && #[trigger] t.tiers@[i].1@.contains(id)
                ==> s.sstables.contains_key(id),
    ensures
        has_task_tables(s, task),
{
    match task {
        CompactionTask::Leveled(t) => {
            lemma_known(s, t.upper_level_sst_ids@, t.lower_level_sst_ids@);
        },
        CompactionTask::Simple(t) => {
            lemma_known(s, t.upper_level_sst_ids@, t.lower_level_sst_ids@);
        },
        CompactionTask::ForceFullCompaction { l0_sstables, l1_sstables } => {
            lemma_known(s, l0_sstables@, l1_sstables@);
        },
        CompactionTask::Tiered(t) => {
            assert forall|i: int| 0 <= i < t@.tiers.len() implies s.has_tables(
                (#[trigger] t@.tiers[i]).1,
            ) by {
                let ids = t.tiers@[i].1@;
                assert forall|k: int| 0 <= k < ids.len() implies s.sstables.contains_key(
                    #[trigger] ids[k],
                ) by {
                    assert(t.tiers@[i].1@.contains(ids[k]));
                }
            }
        },
    }
}

proof fn lemma_known(s: StateView, a: Seq<usize>, b: Seq<usize>)
    requires
        forall|id: usize| #[trigger] (a + b).contains(id) ==> s.sstables.contains_key(id),
    ensures
        s.has_tables(a),
        s.has_tables(b),
{
    assert forall|i: int| 0 <= i < a.len() implies s.sstables.contains_key(#[trigger] a[i]) by {
        assert((a + b)[i] == a[i]);
        assert((a + b).contains(a[i]));
    }
    assert forall|i: int| 0 <= i < b.len() implies s.sstables.contains_key(#[trigger] b[i]) by {
        assert((a + b)[a.len() + i] == b[i]);
        assert((a + b).contains(b[i]));
    }
}

/// Adding and dropping tables: the ids of the tables are theirs, in their order; a table that is
/// added last is found under its id, and all other ids keep what they had; what is dropped is no
/// longer found, and the rest is.
pub proof fn lemma_table_map(m: Map<usize, SsTable>, new: Seq<SsTable>, t: SsTable, ids: Seq<usize>)
    ensures
        table_ids(new).len() == new.len(),
        forall|i: int| 0 <= i < new.len() ==> #[trigger] table_ids(new)[i] == new[i].id,
        with_tables(m, Seq::empty()) == m,
        with_tables(m, new.push(t)) == with_tables(m, new).insert(t.id, t),
        forall|id: usize| #[trigger]
            without_tables(m, ids).contains_key(id) <==> m.contains_key(id) && !ids.contains(id),
        forall|id: usize|
            m.contains_key(id) && !ids.contains(id) ==> #[trigger] without_tables(m, ids)[id]
                == m[id],
{
    assert(new.push(t).drop_last() =~= new);
    assert forall|id: usize| #[trigger]
        without_tables(m, ids).contains_key(id) <==> m.contains_key(id) && !ids.contains(id) by {
        assert(ids.to_set().contains(id) <==> ids.contains(id));
    }
}

/// A full compaction takes the tables that it read out of level 0 and puts the new ones, in their
/// order, in the place of level 1. The other levels stay, and of level 0 what was not read.
pub proof fn lemma_full_compaction_effect(
    s: StateView,
    l0: Seq<usize>,
    l1: Seq<usize>,
    new: Seq<SsTable>,
)
    requires
        s.levels.len() > 0,
        s.l0_sstables.no_duplicates(),
    ensures
        ({
            let r = full_compaction(s, l0, l1, new);
            &&& r.l0_sstables == s.l0_sstables.filter(|id: usize| !l0.contains(id))
            &&& r.levels.len() == s.levels.len()
            &&& r.levels[0].0 == s.levels[0].0
            &&& r.levels[0].1.len() == new.len()
            &&& forall|i: int| 0 <= i < new.len() ==> #[trigger] r.levels[0].1[i] == new[i].id
            &&& forall|i: int| 0 < i < s.levels.len() ==> #[trigger] r.levels[i] == s.levels[i]
            &&& r.sstables == with_tables(
                s.sstables.remove_keys(l0.to_set()).remove_keys(l1.to_set()),
                new,
            )
        }),
{
    lemma_removal(s.l0_sstables, l0);
    vstd::seq_lib::seq_to_set_distributes_over_add(l0, l1);
    assert(without_tables(s.sstables, l0 + l1) =~= s.sstables.remove_keys(
        l0.to_set(),
    ).remove_keys(l1.to_set()));
}

/// A finished compaction has the lists that the strategy made of the state with the new tables, and
/// its tables without those that are no longer in use.
pub proof fn lemma_finished_compaction<C: SimpleLeveledCompactionController, O>(
    inner: LsmStorageInner<C, O>,
    state: LsmStorageState,
    task: CompactionTask,
    new_tables: Seq<SsTable>,
    before: LsmStorageState,
    after: LsmStorageState,
    r: LsmStorageState,
    removed: Vec<usize>,
)
    requires
        inner.finishes(state, task, new_tables, before, after, r, removed),
    ensures
        before@.l0_sstables == state@.l0_sstables,
        before@.levels == state@.levels,
        before@.sstables == with_tables(state@.sstables, new_tables),
        inner.compaction_controller.applies(
            before,
            task,
            new_tables.map_values(|t: SsTable| t.id),
            false,
            after,
            removed,
        ),
        r@.l0_sstables == after@.l0_sstables,
        r@.levels == after@.levels,
        r@.sstables == after@.sstables.remove_keys(removed@.to_set()),
{
}

} // verus!
