//! Runs: tables whose ranges of keys follow one another. Leveled compaction keeps levels runs.

use super::leveled::{applied, can_apply, merged_level, overlapping, overlaps};
use super::leveled::{least_id, lemma_base_level, lemma_least_id, lemma_overfull_has_tables};
use super::leveled::{LeveledCompactionOptions, LeveledTaskView};
use crate::ids::{
    lemma_same_filter, lemma_without_first_contains, lemma_without_first_keeps_the_rest, without_first,
};
use crate::key::{key_le, key_lt, lemma_key_lt_total, lemma_key_lt_transitive};
use crate::lsm_storage::StateView;
use vstd::prelude::*;

verus! {

/// Whether all keys of table `a` come before those of table `b`.
pub open spec fn precedes(s: StateView, a: usize, b: usize) -> bool {
    key_lt(s.last_key(a), s.first_key(b))
}

/// Whether the ranges of keys of the tables follow one another.
pub open spec fn is_run(s: StateView, ids: Seq<usize>) -> bool {
    &&& forall|i: int|
        0 <= i < ids.len() ==> key_le(s.first_key(#[trigger] ids[i]), s.last_key(ids[i]))
    &&& forall|i: int, j: int|
        0 <= i < j < ids.len() ==> precedes(s, #[trigger] ids[i], #[trigger] ids[j])
}

/// Whether the keys of table `id` lie between the smallest and the largest key of the tables
/// `inputs`.
pub open spec fn lies_within(s: StateView, inputs: Seq<usize>, id: usize) -> bool {
    &&& exists|a: int|
        0 <= a < inputs.len() && key_le(s.first_key(#[trigger] inputs[a]), s.first_key(id))
    &&& exists|b: int|
        0 <= b < inputs.len() && key_le(s.last_key(id), s.last_key(#[trigger] inputs[b]))
}

/// What it is to be a run: no table has its last key before its first, and the last key of each is
/// less than the first key of every later one.
pub proof fn lemma_run(s: StateView, ids: Seq<usize>)
    ensures
        is_run(s, ids) <==> {
            &&& forall|i: int|
                0 <= i < ids.len() ==> !key_lt(
                    s.sstables[#[trigger] ids[i]].last_key@,
                    s.sstables[ids[i]].first_key@,
                )
            &&& forall|i: int, j: int|
                0 <= i < j < ids.len() ==> key_lt(
                    s.sstables[#[trigger] ids[i]].last_key@,
                    s.sstables[#[trigger] ids[j]].first_key@,
                )
        },
{
    if is_run(s, ids) {
        assert forall|i: int, j: int| 0 <= i < j < ids.len() implies key_lt(
            s.sstables[#[trigger] ids[i]].last_key@,
            s.sstables[#[trigger] ids[j]].first_key@,
        ) by {
            assert(precedes(s, ids[i], ids[j]));
        }
        assert forall|i: int| 0 <= i < ids.len() implies !key_lt(
            s.sstables[#[trigger] ids[i]].last_key@,
            s.sstables[ids[i]].first_key@,
        ) by {
            assert(key_le(s.first_key(ids[i]), s.last_key(ids[i])));
        }
    }
}

proof fn lemma_lt_le(a: Seq<u8>, b: Seq<u8>, c: Seq<u8>)
    requires
        key_lt(a, b),
        key_le(b, c),
    ensures
        key_lt(a, c),
{
    lemma_key_lt_total(b, c);
    if key_lt(b, c) {
        lemma_key_lt_transitive(a, b, c);
    }
}

proof fn lemma_le_lt(a: Seq<u8>, b: Seq<u8>, c: Seq<u8>)
    requires
        key_le(a, b),
        key_lt(b, c),
    ensures
        key_lt(a, c),
{
    lemma_key_lt_total(a, b);
    if key_lt(a, b) {
        lemma_key_lt_transitive(a, b, c);
    }
}

/// A run has no table twice.
proof fn lemma_run_distinct(s: StateView, ids: Seq<usize>)
    requires
        is_run(s, ids),
    ensures
        ids.no_duplicates(),
{
    assert forall|i: int, j: int| 0 <= i < j < ids.len() implies ids[i] != ids[j] by {
        assert(precedes(s, ids[i], ids[j]));
        assert(key_le(s.first_key(ids[i]), s.last_key(ids[i])));
    }
}

/// Of two tables of a run one precedes the other.
proof fn lemma_run_pair(s: StateView, ids: Seq<usize>, a: usize, b: usize)
    requires
        is_run(s, ids),
        ids.contains(a),
        ids.contains(b),
        a != b,
    ensures
        precedes(s, a, b) || precedes(s, b, a),
{
    let i = choose|i: int| 0 <= i < ids.len() && ids[i] == a;
    let j = choose|j: int| 0 <= j < ids.len() && ids[j] == b;
    if i < j {
        assert(precedes(s, ids[i], ids[j]));
    } else {
        assert(precedes(s, ids[j], ids[i]));
    }
}

/// What is left of a run is a run.
proof fn lemma_without_first_run(s: StateView, ids: Seq<usize>, drop: Set<usize>)
    requires
        is_run(s, ids),
    ensures
        is_run(s, without_first(ids, drop)),
    decreases ids.len(),
{
    if ids.len() > 0 {
        let tail = ids.drop_first();
        assert(is_run(s, tail)) by {
            assert forall|i: int| 0 <= i < tail.len() implies key_le(
                s.first_key(#[trigger] tail[i]),
                s.last_key(tail[i]),
            ) by {
                assert(tail[i] == ids[i + 1]);
            }
            assert forall|i: int, j: int| 0 <= i < j < tail.len() implies precedes(
                s,
                #[trigger] tail[i],
                #[trigger] tail[j],
            ) by {
                assert(precedes(s, ids[i + 1], ids[j + 1]));
            }
        }
        if drop.contains(ids[0]) {
            lemma_without_first_run(s, tail, drop.remove(ids[0]));
        } else {
            let rest = without_first(tail, drop);
            let left = without_first(ids, drop);
            lemma_without_first_run(s, tail, drop);
            assert forall|i: int| 0 <= i < left.len() implies key_le(
                s.first_key(#[trigger] left[i]),
                s.last_key(left[i]),
            ) by {
                if i > 0 {
                    assert(left[i] == rest[i - 1]);
                } else {
                    assert(left[0] == ids[0]);
                }
            }
            assert forall|i: int, j: int| 0 <= i < j < left.len() implies precedes(
                s,
                #[trigger] left[i],
                #[trigger] left[j],
            ) by {
                assert(left[j] == rest[j - 1]);
                if i > 0 {
                    assert(left[i] == rest[i - 1]);
                } else {
                    assert(rest.contains(rest[j - 1]));
                    lemma_without_first_contains(tail, drop, rest[j - 1]);
                    let k = choose|k: int| 0 <= k < tail.len() && tail[k] == rest[j - 1];
                    assert(precedes(s, ids[0], ids[k + 1]));
                }
            }
        }
    }
}

/// A table of a run that does not overlap the upper tables precedes or follows all keys that come
/// from the upper tables and from those tables of the run that overlap them.
proof fn lemma_kept_table_apart(
    s: StateView,
    level: Seq<usize>,
    upper: Seq<usize>,
    lower: Seq<usize>,
    k: usize,
    o: usize,
)
    requires
        is_run(s, level),
        level.contains(k),
        !overlaps(s, upper, k),
        forall|i: int|
            0 <= i < lower.len() ==> level.contains(#[trigger] lower[i]) && overlaps(
                s,
                upper,
                lower[i],
            ),
        lies_within(s, upper + lower, o),
    ensures
        precedes(s, k, o) || precedes(s, o, k),
{
    let inputs = upper + lower;
    let ki = choose|i: int| 0 <= i < level.len() && level[i] == k;
    assert(key_le(s.first_key(level[ki]), s.last_key(level[ki])));
    let x = choose|x: int|
        0 <= x < inputs.len() && key_le(s.first_key(#[trigger] inputs[x]), s.first_key(o));
    let y = choose|y: int|
        0 <= y < inputs.len() && key_le(s.last_key(o), s.last_key(#[trigger] inputs[y]));
    if forall|a: int|
        0 <= a < upper.len() ==> key_lt(s.last_key(k), s.first_key(#[trigger] upper[a])) {
        let t = inputs[x];
        if x < upper.len() {
            assert(t == upper[x]);
        } else {
            assert(t == lower[x - upper.len()]);
            assert(overlaps(s, upper, t));
            assert(t != k);
            lemma_run_pair(s, level, k, t);
            if precedes(s, t, k) {
                let a = choose|a: int|
                    0 <= a < upper.len() && key_le(s.first_key(#[trigger] upper[a]), s.last_key(t));
                let f = s.first_key(upper[a]);
                assert(key_lt(s.last_key(k), f));
                lemma_lt_le(s.last_key(k), f, s.last_key(t));
                lemma_key_lt_transitive(s.last_key(k), s.last_key(t), s.first_key(k));
            }
        }
        lemma_lt_le(s.last_key(k), s.first_key(t), s.first_key(o));
    } else {
        let bad = choose|a: int|
            0 <= a < upper.len() && !key_lt(s.last_key(k), s.first_key(#[trigger] upper[a]));
        assert(key_le(s.first_key(upper[bad]), s.last_key(k)));
        assert forall|b: int| 0 <= b < upper.len() implies key_lt(
            s.last_key(#[trigger] upper[b]),
            s.first_key(k),
        ) by {
            if key_le(s.first_key(k), s.last_key(upper[b])) {
                assert(overlaps(s, upper, k));
            }
        }
        let t = inputs[y];
        if y < upper.len() {
            assert(t == upper[y]);
        } else {
            assert(t == lower[y - upper.len()]);
            assert(overlaps(s, upper, t));
            assert(t != k);
            lemma_run_pair(s, level, k, t);
            if precedes(s, k, t) {
                let b = choose|b: int|
                    0 <= b < upper.len() && key_le(s.first_key(t), s.last_key(#[trigger] upper[b]));
                let l = s.last_key(upper[b]);
                assert(key_lt(l, s.first_key(k)));
                lemma_lt_le(s.last_key(k), s.first_key(t), l);
                lemma_key_lt_transitive(s.last_key(k), l, s.first_key(k));
            }
        }
        lemma_le_lt(s.last_key(o), s.last_key(t), s.first_key(k));
    }
}

/// Tables in the order of their first keys, of any two of which one precedes the other, are a run.
proof fn lemma_sorted_apart_is_run(s: StateView, ids: Seq<usize>)
    requires
        ids.no_duplicates(),
        crate::ids::is_sorted(s, ids),
        forall|i: int|
            0 <= i < ids.len() ==> key_le(s.first_key(#[trigger] ids[i]), s.last_key(ids[i])),
        forall|a: usize, b: usize|
            #![trigger precedes(s, a, b)]
            ids.contains(a) && ids.contains(b) && a != b ==> precedes(s, a, b) || precedes(s, b, a),
    ensures
        is_run(s, ids),
{
    assert forall|i: int, j: int| 0 <= i < j < ids.len() implies precedes(
        s,
        #[trigger] ids[i],
        #[trigger] ids[j],
    ) by {
        let (a, b) = (ids[i], ids[j]);
        assert(ids.contains(a) && ids.contains(b) && a != b);
        if !precedes(s, a, b) {
            assert(precedes(s, b, a));
            lemma_lt_le(s.last_key(b), s.first_key(a), s.first_key(b));
            assert(key_le(s.first_key(b), s.last_key(b)));
        }
    }
}

/// A leveled compaction keeps the lower level a run, where the task takes all tables that overlap
/// the upper ones, and the new tables are a run of keys from the tables of the task. All other
/// levels that are runs stay runs.
pub proof fn lemma_leveled_compaction_keeps_runs(
    s: StateView,
    task: LeveledTaskView,
    output: Seq<usize>,
    r: StateView,
    n: int,
)
    requires
        can_apply(s, task, output, false),
        applied(s, task, output, false, r),
        task.upper_level != Some(task.lower_level),
        task.lower_level_sst_ids == overlapping(
            s,
            task.upper_level_sst_ids,
            task.lower_level as int,
        ),
        merged_level(s, task, output).no_duplicates(),
        is_run(s, output),
        forall|i: int|
            0 <= i < output.len() ==> lies_within(
                s,
                task.upper_level_sst_ids + task.lower_level_sst_ids,
                #[trigger] output[i],
            ),
        0 <= n < s.levels.len(),
        is_run(s, s.levels[n].1),
    ensures
        is_run(r, r.levels[n].1),
{
    let upper = task.upper_level_sst_ids;
    let lower = task.lower_level_sst_ids;
    let level = s.levels[task.lower_level - 1].1;
    let drop = lower.to_set();
    assert(r.sstables == s.sstables);
    assert(is_run(s, r.levels[n].1)) by {
        if n != task.lower_level - 1 {
            lemma_without_first_run(s, s.levels[n].1, upper.to_set());
        } else {
            let kept = without_first(level, drop);
            let merged = merged_level(s, task, output);
            let sorted = r.levels[n].1;
            assert(merged == kept + output);
            lemma_without_first_run(s, level, drop);
            lemma_overlapping(s, upper, level, lower);
            lemma_run_distinct(s, level);
            lemma_same_members(merged, sorted);
            assert forall|i: int| 0 <= i < sorted.len() implies key_le(
                s.first_key(#[trigger] sorted[i]),
                s.last_key(sorted[i]),
            ) by {
                assert(sorted.contains(sorted[i]));
                let m = choose|m: int| 0 <= m < merged.len() && merged[m] == sorted[i];
                if m < kept.len() {
                    assert(kept[m] == sorted[i]);
                } else {
                    assert(output[m - kept.len()] == sorted[i]);
                }
            }
            assert forall|a: usize, b: usize|
                #![trigger precedes(s, a, b)]
                sorted.contains(a) && sorted.contains(b) && a != b implies precedes(s, a, b)
                || precedes(s, b, a) by {
                assert(merged.contains(a) && merged.contains(b));
                lemma_merged_pair(s, level, upper, lower, output, a, b);
            }
            lemma_sorted_apart_is_run(s, sorted);
        }
    }
}

/// The members of the list of overlapping tables.
proof fn lemma_overlapping(s: StateView, upper: Seq<usize>, level: Seq<usize>, lower: Seq<usize>)
    requires
        lower == level.filter(|id: usize| overlaps(s, upper, id)),
    ensures
        forall|i: int|
            0 <= i < lower.len() ==> level.contains(#[trigger] lower[i]) && overlaps(
                s,
                upper,
                lower[i],
            ),
        forall|id: usize|
            level.contains(id) && overlaps(s, upper, id) ==> #[trigger] lower.contains(id),
        lower.to_set().subset_of(level.to_set()),
{
    let pred = |id: usize| overlaps(s, upper, id);
    assert forall|i: int| 0 <= i < lower.len() implies level.contains(#[trigger] lower[i])
        && overlaps(s, upper, lower[i]) by {
        level.lemma_filter_pred(pred, i);
        level.lemma_filter_contains_rev(pred, lower[i]);
    }
    assert forall|id: usize| level.contains(id) && overlaps(
        s,
        upper,
        id,
    ) implies #[trigger] lower.contains(id) by {
        let i = choose|i: int| 0 <= i < level.len() && level[i] == id;
        level.lemma_filter_contains(pred, i);
    }
    assert forall|id: usize| lower.to_set().contains(id) implies level.to_set().contains(id) by {
        let i = choose|i: int| 0 <= i < lower.len() && lower[i] == id;
        assert(level.contains(lower[i]));
    }
}

/// A list in another order has the same members, each as often.
proof fn lemma_same_members(a: Seq<usize>, b: Seq<usize>)
    requires
        a.to_multiset() == b.to_multiset(),
        a.no_duplicates(),
    ensures
        b.no_duplicates(),
        forall|id: usize| #[trigger] b.contains(id) <==> a.contains(id),
{
    a.lemma_multiset_has_no_duplicates();
    b.lemma_multiset_has_no_duplicates_conv();
    assert forall|id: usize| #[trigger] b.contains(id) <==> a.contains(id) by {
        vstd::seq_lib::to_multiset_contains(a, id);
        vstd::seq_lib::to_multiset_contains(b, id);
    }
}

/// Of two tables of the merged level one precedes the other.
proof fn lemma_merged_pair(
    s: StateView,
    level: Seq<usize>,
    upper: Seq<usize>,
    lower: Seq<usize>,
    output: Seq<usize>,
    a: usize,
    b: usize,
)
    requires
        is_run(s, level),
        is_run(s, output),
        level.no_duplicates(),
        lower == level.filter(|id: usize| overlaps(s, upper, id)),
        forall|i: int|
            0 <= i < output.len() ==> lies_within(s, upper + lower, #[trigger] output[i]),
        (without_first(level, lower.to_set()) + output).contains(a),
        (without_first(level, lower.to_set()) + output).contains(b),
        a != b,
    ensures
        precedes(s, a, b) || precedes(s, b, a),
{
    let kept = without_first(level, lower.to_set());
    lemma_overlapping(s, upper, level, lower);
    lemma_member_of_either(kept, output, a);
    lemma_member_of_either(kept, output, b);
    if kept.contains(a) {
        lemma_kept_table(level, lower, a);
    }
    if kept.contains(b) {
        lemma_kept_table(level, lower, b);
    }
    if kept.contains(a) && kept.contains(b) {
        lemma_run_pair(s, level, a, b);
    } else if kept.contains(a) {
        let i = choose|i: int| 0 <= i < output.len() && output[i] == b;
        assert(lies_within(s, upper + lower, output[i]));
        lemma_kept_table_apart(s, level, upper, lower, a, b);
    } else if kept.contains(b) {
        let i = choose|i: int| 0 <= i < output.len() && output[i] == a;
        assert(lies_within(s, upper + lower, output[i]));
        lemma_kept_table_apart(s, level, upper, lower, b, a);
    } else {
        lemma_run_pair(s, output, a, b);
    }
}

proof fn lemma_member_of_either(a: Seq<usize>, b: Seq<usize>, id: usize)
    requires
        (a + b).contains(id),
    ensures
        a.contains(id) || b.contains(id),
{
    let i = choose|i: int| 0 <= i < (a + b).len() && (a + b)[i] == id;
    if i < a.len() {
        assert(a[i] == id);
    } else {
        assert(b[i - a.len()] == id);
    }
}

/// A table that is left of a level was there and is not among those that were taken out.
proof fn lemma_kept_table(level: Seq<usize>, lower: Seq<usize>, id: usize)
    requires
        level.no_duplicates(),
        lower.to_set().subset_of(level.to_set()),
        without_first(level, lower.to_set()).contains(id),
    ensures
        level.contains(id),
        !lower.contains(id),
{
    broadcast use vstd::seq_lib::group_to_multiset_ensures;

    let drop = lower.to_set();
    vstd::seq_lib::seq_to_set_is_finite(lower);
    lemma_without_first_contains(level, drop, id);
    lemma_without_first_keeps_the_rest(level, drop);
    level.lemma_multiset_has_no_duplicates();
    assert(level.to_multiset().contains(id));
    assert(level.to_multiset().count(id) == 1);
    assert(without_first(level, drop).to_multiset().count(id) > 0);
    assert(drop.contains(id) <==> lower.contains(id));
}

proof fn lemma_filter_agrees(
    ids: Seq<usize>,
    p: spec_fn(usize) -> bool,
    q: spec_fn(usize) -> bool,
)
    requires
        forall|i: int| 0 <= i < ids.len() ==> p(#[trigger] ids[i]) == q(ids[i]),
    ensures
        ids.filter(p) == ids.filter(q),
{
    lemma_same_filter(ids, p, q);
}

/// A generated task takes all tables that overlap the upper ones, in the state it was made for and
/// in a later one that knows more tables.
pub proof fn lemma_generated_task_takes_overlapping(
    options: LeveledCompactionOptions,
    s: StateView,
    task: LeveledTaskView,
    later: StateView,
)
    requires
        options.fits(s),
        options.task(s) == Some(task),
        later.levels == s.levels,
        forall|id: usize| #[trigger]
            s.sstables.contains_key(id) ==> later.sstables.contains_key(id) && later.sstables[id]
                == s.sstables[id],
    ensures
        task.upper_level != Some(task.lower_level),
        task.lower_level_sst_ids == overlapping(
            later,
            task.upper_level_sst_ids,
            task.lower_level as int,
        ),
{
    let upper = task.upper_level_sst_ids;
    let level = s.levels[task.lower_level - 1].1;
    lemma_base_level(options, s);
    assert(s.has_tables(upper)) by {
        if let Some(n) = task.upper_level {
            let ids = s.levels[n - 1].1;
            assert(s.has_tables(ids));
            lemma_overfull_has_tables(options, s, n as int);
            lemma_least_id(ids);
            let k = choose|k: int| 0 <= k < ids.len() && ids[k] == least_id(ids);
            assert(s.sstables.contains_key(ids[k]));
        }
    }
    assert(s.has_tables(level));
    let p = |id: usize| overlaps(s, upper, id);
    let q = |id: usize| overlaps(later, upper, id);
    assert forall|id: usize| #[trigger] s.sstables.contains_key(id) implies s.first_key(id)
        == later.first_key(id) && s.last_key(id) == later.last_key(id) by {
        assert(later.sstables[id] == s.sstables[id]);
    }
    assert forall|i: int| 0 <= i < level.len() implies p(#[trigger] level[i]) == q(level[i]) by {
        let id = level[i];
        assert(s.sstables.contains_key(id));
        if overlaps(s, upper, id) {
            let a = choose|a: int|
                0 <= a < upper.len() && key_le(s.first_key(#[trigger] upper[a]), s.last_key(id));
            let b = choose|b: int|
                0 <= b < upper.len() && key_le(s.first_key(id), s.last_key(#[trigger] upper[b]));
            assert(key_le(later.first_key(upper[a]), later.last_key(id)));
            assert(key_le(later.first_key(id), later.last_key(upper[b])));
        }
        if overlaps(later, upper, id) {
            let a = choose|a: int|
                0 <= a < upper.len() && key_le(
                    later.first_key(#[trigger] upper[a]),
                    later.last_key(id),
                );
            let b = choose|b: int|
                0 <= b < upper.len() && key_le(
                    later.first_key(id),
                    later.last_key(#[trigger] upper[b]),
                );
            assert(key_le(s.first_key(upper[a]), s.last_key(id)));
            assert(key_le(s.first_key(id), s.last_key(upper[b])));
        }
    }
    lemma_filter_agrees(level, p, q);
}

} // verus!
