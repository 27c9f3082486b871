//! What every compaction keeps: each listed table is known, and none is listed twice.

use super::simple_leveled::SimpleLeveledCompactionController;
use super::{full_compaction, leveled, table_ids, tiered, with_tables, without_tables};
use super::{CompactionController, CompactionTask};
use crate::ids::{lemma_without_first_keeps_the_rest, without_first};
use crate::lsm_storage::{
    lemma_count_add, lemma_count_level_update, level_ids, LsmStorageInner, LsmStorageState,
    StateView,
};
use crate::table::SsTable;
use vstd::prelude::*;

verus! {

/// Whether the tables have ids of their own, which the state does not use.
pub open spec fn are_new(s: StateView, tables: Seq<SsTable>) -> bool {
    &&& table_ids(tables).no_duplicates()
    &&& forall|id: usize| #[trigger] table_ids(tables).contains(id) ==> !s.all_ids().contains(id)
}

/// New tables are those whose ids differ and stand in none of the lists of the state.
pub proof fn lemma_new_tables(s: StateView, tables: Seq<SsTable>)
    ensures
        are_new(s, tables) <==> {
            &&& forall|i: int, j: int|
                0 <= i < j < tables.len() ==> (#[trigger] tables[i]).id != (#[trigger] tables[j]).id
            &&& forall|i: int|
                0 <= i < tables.len() ==> !s.all_ids().contains((#[trigger] tables[i]).id)
        },
{
    let ids = table_ids(tables);
    if are_new(s, tables) {
        assert forall|i: int, j: int| 0 <= i < j < tables.len() implies (#[trigger] tables[i]).id
            != (#[trigger] tables[j]).id by {
            assert(ids[i] != ids[j]);
        }
        assert forall|i: int| 0 <= i < tables.len() implies !s.all_ids().contains(
            (#[trigger] tables[i]).id,
        ) by {
            assert(ids[i] == tables[i].id);
            assert(ids.contains(ids[i]));
        }
    }
    if (forall|i: int, j: int|
        0 <= i < j < tables.len() ==> (#[trigger] tables[i]).id != (#[trigger] tables[j]).id) && (
    forall|i: int| 0 <= i < tables.len() ==> !s.all_ids().contains((#[trigger] tables[i]).id)) {
        assert forall|i: int, j: int| 0 <= i < j < ids.len() implies ids[i] != ids[j] by {
            assert(tables[i].id != tables[j].id);
        }
        assert forall|id: usize| #[trigger] ids.contains(id) implies !s.all_ids().contains(id) by {
            let i = choose|i: int| 0 <= i < ids.len() && ids[i] == id;
            assert(tables[i].id == id);
        }
    }
}

proof fn lemma_with_tables_has(m: Map<usize, SsTable>, new: Seq<SsTable>, id: usize)
    ensures
        with_tables(m, new).contains_key(id) <==> m.contains_key(id) || table_ids(new).contains(id),
    decreases new.len(),
{
    let ids = table_ids(new);
    if new.len() > 0 {
        let front = table_ids(new.drop_last());
        lemma_with_tables_has(m, new.drop_last(), id);
        assert(ids =~= front.push(new.last().id));
        if ids.contains(id) {
            let i = choose|i: int| 0 <= i < ids.len() && ids[i] == id;
            if i < front.len() {
                assert(front[i] == id);
            }
        }
        if front.contains(id) {
            let i = choose|i: int| 0 <= i < front.len() && front[i] == id;
            assert(ids[i] == id);
        }
        if new.last().id == id {
            assert(ids[front.len() as int] == id);
        }
    }
}

proof fn lemma_count_at_most_one(ids: Seq<usize>, id: usize)
    requires
        ids.no_duplicates(),
    ensures
        ids.to_multiset().count(id) == (if ids.contains(id) {
            1nat
        } else {
            0nat
        }),
{
    broadcast use vstd::seq_lib::group_to_multiset_ensures;

    ids.lemma_multiset_has_no_duplicates();
    if ids.contains(id) {
        assert(ids.to_multiset().contains(id));
    }
}

/// Where new tables take the places of others, and these are dropped, each listed table is known
/// and none is listed twice, if it was so before.
pub proof fn lemma_exchange_keeps_consistent(
    s: StateView,
    new: Seq<SsTable>,
    after: StateView,
    removed: Seq<usize>,
)
    requires
        s.consistent(),
        are_new(s, new),
        (after.all_ids() + removed).to_multiset() == (s.all_ids() + table_ids(new)).to_multiset(),
        forall|id: usize|
            #[trigger] after.sstables.contains_key(id) <==> with_tables(
                s.sstables,
                new,
            ).contains_key(id) && !removed.contains(id),
    ensures
        after.consistent(),
{
    broadcast use vstd::seq_lib::group_to_multiset_ensures;

    let ids = after.all_ids();
    assert forall|id: usize| ids.to_multiset().count(id) <= 1 && (ids.contains(id)
        ==> after.sstables.contains_key(id)) by {
        lemma_count_add(ids, removed, id);
        lemma_count_add(s.all_ids(), table_ids(new), id);
        lemma_count_at_most_one(s.all_ids(), id);
        lemma_count_at_most_one(table_ids(new), id);
        lemma_with_tables_has(s.sstables, new, id);
        if ids.contains(id) {
            assert(ids.to_multiset().count(id) > 0);
            assert(removed.to_multiset().count(id) == 0);
            assert(!removed.contains(id));
            if s.all_ids().contains(id) {
                let i = choose|i: int| 0 <= i < s.all_ids().len() && s.all_ids()[i] == id;
                assert(s.sstables.contains_key(s.all_ids()[i]));
            }
        }
    }
    assert forall|id: usize| ids.to_multiset().contains(id) implies ids.to_multiset().count(id)
        == 1 by {
        assert(ids.to_multiset().count(id) <= 1);
    }
    ids.lemma_multiset_has_no_duplicates_conv();
    assert forall|i: int| 0 <= i < ids.len() implies after.sstables.contains_key(
        #[trigger] ids[i],
    ) by {
        assert(ids.contains(ids[i]));
        assert(ids.to_multiset().count(ids[i]) <= 1);
    }
}

/// Whether the task lists no table twice or, for tiers, lists tiers of the state.
pub open spec fn is_proper(s: StateView, task: CompactionTask) -> bool {
    match task {
        CompactionTask::Leveled(task) => {
            &&& task@.upper_level_sst_ids.no_duplicates()
            &&& task@.lower_level_sst_ids.no_duplicates()
        },
        CompactionTask::Tiered(task) => {
            &&& s.levels.len() > 0
            &&& tiered::numbered_apart(s.levels)
            &&& forall|i: int|
                0 <= i < task@.tiers.len() ==> s.levels.contains(#[trigger] task@.tiers[i])
        },
        _ => false,
    }
}

/// In a consistent state no level lists a table twice.
proof fn lemma_levels_distinct(s: StateView)
    requires
        s.consistent(),
    ensures
        s.l0_sstables.no_duplicates(),
        forall|i: int| 0 <= i < s.levels.len() ==> (#[trigger] s.levels[i]).1.no_duplicates(),
{
    broadcast use vstd::seq_lib::group_to_multiset_ensures;

    assert forall|id: usize| s.l0_sstables.to_multiset().contains(
        id,
    ) implies s.l0_sstables.to_multiset().count(id) == 1 by {
        lemma_count_add(s.l0_sstables, level_ids(s.levels), id);
        lemma_count_at_most_one(s.all_ids(), id);
    }
    s.l0_sstables.lemma_multiset_has_no_duplicates_conv();
    assert forall|i: int| 0 <= i < s.levels.len() implies (
    #[trigger] s.levels[i]).1.no_duplicates() by {
        let ids = s.levels[i].1;
        assert forall|id: usize| ids.to_multiset().contains(id) implies ids.to_multiset().count(id)
            == 1 by {
            lemma_count_add(s.l0_sstables, level_ids(s.levels), id);
            lemma_count_at_most_one(s.all_ids(), id);
            lemma_count_level_update(s.levels, i, (s.levels[i].0, Seq::empty()), id);
            assert(!Seq::<usize>::empty().contains(id));
            assert(Seq::<usize>::empty().to_multiset().count(id) == 0);
        }
        ids.lemma_multiset_has_no_duplicates_conv();
    }
}

/// In a consistent state tiers that are named after their first tables are numbered apart.
pub proof fn lemma_names_distinct(s: StateView)
    requires
        s.consistent(),
        tiered::named_by_first(s.levels),
    ensures
        tiered::numbered_apart(s.levels),
{
    broadcast use vstd::seq_lib::group_to_multiset_ensures;

    assert forall|i: int, j: int| 0 <= i < j < s.levels.len() implies s.levels[i].0
        != s.levels[j].0 by {
        let id = s.levels[i].0;
        if s.levels[j].0 == id {
            let empty = (0usize, Seq::<usize>::empty());
            let without_j = s.levels.update(j, empty);
            lemma_count_add(s.l0_sstables, level_ids(s.levels), id);
            lemma_count_at_most_one(s.all_ids(), id);
            lemma_count_level_update(s.levels, j, empty, id);
            lemma_count_level_update(without_j, i, empty, id);
            assert(s.levels[i].1.contains(s.levels[i].1[0]));
            assert(s.levels[j].1.contains(s.levels[j].1[0]));
            assert(s.levels[i].1.to_multiset().count(id) > 0);
            assert(s.levels[j].1.to_multiset().count(id) > 0);
            assert(!empty.1.contains(id));
            assert(empty.1.to_multiset().count(id) == 0);
        }
    }
}

/// A task that a leveled or tiered strategy generates for a consistent state is proper for it, and
/// for a later state. For the tiered strategy a later state is one that has gained tiers in front,
/// and its tiers must be numbered apart.
pub proof fn lemma_generated_task_is_proper<C: SimpleLeveledCompactionController>(
    ctrl: CompactionController<C>,
    state: LsmStorageState,
    task: CompactionTask,
    later: StateView,
    front: Seq<(usize, Seq<usize>)>,
)
    requires
        !(ctrl is Simple),
        ctrl.fits(state@),
        ctrl.generates(state, Some(task)),
        state@.consistent(),
        ctrl is Tiered ==> later.levels == front + state@.levels && tiered::numbered_apart(
            later.levels,
        ),
    ensures
        is_proper(later, task),
{
    let s = state@;
    match (ctrl, task) {
        (CompactionController::Leveled(ctrl), CompactionTask::Leveled(task)) => {
            lemma_levels_distinct(s);
            leveled::lemma_generated_task_distinct(ctrl@, s, task@);
        },
        (CompactionController::Tiered(ctrl), CompactionTask::Tiered(task)) => {
            tiered::lemma_generated_task_applies_later(ctrl@, s, task@, later, front, seq![0usize]);
        },
        _ => {},
    }
}

/// A leveled or tiered compaction keeps the state consistent.
pub proof fn lemma_compaction_keeps_consistent<C: SimpleLeveledCompactionController, O>(
    inner: LsmStorageInner<C, O>,
    state: LsmStorageState,
    task: CompactionTask,
    new_tables: Seq<SsTable>,
    before: LsmStorageState,
    after: LsmStorageState,
    r: LsmStorageState,
    removed: Vec<usize>,
)
    requires
        state@.consistent(),
        are_new(state@, new_tables),
        is_proper(state@, task),
        inner.compaction_controller.can_apply(before@, task, table_ids(new_tables), false),
        inner.finishes(state, task, new_tables, before, after, r, removed),
    ensures
        r@.consistent(),
{
    let output = table_ids(new_tables);
    match task {
        CompactionTask::Leveled(task) => {
            leveled::lemma_apply_conserves_tables(before@, task@, output, false, after@);
        },
        CompactionTask::Tiered(task) => {
            tiered::lemma_apply_conserves_tables(before@, task@, output);
        },
        _ => {},
    }
    assert(r@.all_ids() =~= after@.all_ids());
    assert(before@.all_ids() =~= state@.all_ids());
    assert forall|id: usize| #[trigger]
        r@.sstables.contains_key(id) <==> with_tables(state@.sstables, new_tables).contains_key(id)
            && !removed@.contains(id) by {
        assert(removed@.to_set().contains(id) <==> removed@.contains(id));
    }
    lemma_exchange_keeps_consistent(state@, new_tables, r@, removed@);
}

/// A full compaction exchanges the tables that it read for those that it wrote.
pub proof fn lemma_full_compaction_conserves_tables(
    s: StateView,
    l0: Seq<usize>,
    l1: Seq<usize>,
    new: Seq<SsTable>,
)
    requires
        s.levels.len() > 0,
        s.levels[0].1 == l1,
        l0.no_duplicates(),
        l0.to_set().subset_of(s.l0_sstables.to_set()),
    ensures
        (full_compaction(s, l0, l1, new).all_ids() + (l0 + l1)).to_multiset() == (s.all_ids()
            + table_ids(new)).to_multiset(),
{
    let r = full_compaction(s, l0, l1, new);
    let left = (r.all_ids() + (l0 + l1)).to_multiset();
    let right = (s.all_ids() + table_ids(new)).to_multiset();
    vstd::seq_lib::seq_to_set_is_finite(l0);
    lemma_without_first_keeps_the_rest(s.l0_sstables, l0.to_set());
    assert forall|id: usize| left.count(id) == right.count(id) by {
        lemma_count_add(r.all_ids(), l0 + l1, id);
        lemma_count_add(l0, l1, id);
        lemma_count_add(r.l0_sstables, level_ids(r.levels), id);
        lemma_count_add(s.l0_sstables, level_ids(s.levels), id);
        lemma_count_add(s.all_ids(), table_ids(new), id);
        lemma_count_level_update(s.levels, 0, (s.levels[0].0, table_ids(new)), id);
        lemma_count_at_most_one(l0, id);
        assert(l0.to_set().contains(id) <==> l0.contains(id));
        assert(s.l0_sstables.to_multiset().count(id) == without_first(
            s.l0_sstables,
            l0.to_set(),
        ).to_multiset().count(id) + (if l0.to_set().contains(id) {
            1nat
        } else {
            0nat
        }));
    }
    assert(left =~= right);
}

/// A full compaction keeps the state consistent.
pub proof fn lemma_full_compaction_keeps_consistent(
    s: StateView,
    l0: Seq<usize>,
    l1: Seq<usize>,
    new: Seq<SsTable>,
)
    requires
        s.consistent(),
        s.levels.len() > 0,
        s.levels[0].1 == l1,
        l0.no_duplicates(),
        l0.to_set().subset_of(s.l0_sstables.to_set()),
        are_new(s, new),
    ensures
        full_compaction(s, l0, l1, new).consistent(),
{
    let r = full_compaction(s, l0, l1, new);
    lemma_full_compaction_conserves_tables(s, l0, l1, new);
    assert forall|id: usize| #[trigger]
        r.sstables.contains_key(id) <==> with_tables(s.sstables, new).contains_key(id) && !(l0
            + l1).contains(id) by {
        lemma_with_tables_has(s.sstables, new, id);
        lemma_with_tables_has(without_tables(s.sstables, l0 + l1), new, id);
        assert((l0 + l1).to_set().contains(id) <==> (l0 + l1).contains(id));
        if (l0 + l1).contains(id) && table_ids(new).contains(id) {
            lemma_merged_ids_listed(s, l0, l1, id);
        }
    }
    lemma_exchange_keeps_consistent(s, new, r, l0 + l1);
}

/// The ids that a full compaction reads are listed.
proof fn lemma_merged_ids_listed(s: StateView, l0: Seq<usize>, l1: Seq<usize>, id: usize)
    requires
        s.levels.len() > 0,
        s.levels[0].1 == l1,
        l0.to_set().subset_of(s.l0_sstables.to_set()),
        (l0 + l1).contains(id),
    ensures
        s.all_ids().contains(id),
{
    broadcast use vstd::seq_lib::group_to_multiset_ensures;

    lemma_count_add(s.l0_sstables, level_ids(s.levels), id);
    if l0.contains(id) {
        assert(l0.to_set().contains(id));
        assert(s.l0_sstables.to_set().contains(id));
        assert(s.l0_sstables.to_multiset().count(id) > 0);
    } else {
        lemma_count_level_update(s.levels, 0, (s.levels[0].0, Seq::empty()), id);
        assert(l1.contains(id));
        assert(l1.to_multiset().count(id) > 0);
        assert(!Seq::<usize>::empty().contains(id));
        assert(Seq::<usize>::empty().to_multiset().count(id) == 0);
    }
    assert(s.all_ids().to_multiset().count(id) > 0);
}

} // verus!
