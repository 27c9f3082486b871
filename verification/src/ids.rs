//! Lists of table ids: removing tables from a list and putting a list in the order of its keys.

use crate::key::{key_le, key_less, key_lt};
use crate::key::{lemma_key_le_transitive, lemma_key_lt_asymmetric, lemma_key_lt_irreflexive};
use crate::lsm_storage::{LsmStorageState, StateView};
use std::collections::HashSet;
use vstd::prelude::*;

verus! {

broadcast use vstd::std_specs::hash::group_hash_axioms;

/// `ids` without the first occurrence of each member of `drop`.
pub open spec fn without_first(ids: Seq<usize>, drop: Set<usize>) -> Seq<usize>
    decreases ids.len(),
{
    if ids.len() == 0 {
        ids
    } else if drop.contains(ids[0]) {
        without_first(ids.drop_first(), drop.remove(ids[0]))
    } else {
        seq![ids[0]] + without_first(ids.drop_first(), drop)
    }
}

/// Removes the first occurrence of each of `drop` from `ids`.
pub fn remove_ids(ids: &[usize], drop: &[usize]) -> (r: Vec<usize>)
    ensures
        r@ == without_first(ids@, drop@.to_set()),
{
    let mut left: HashSet<usize> = HashSet::new();
    let mut i: usize = 0;
    while i < drop.len()
        invariant
            i <= drop@.len(),
            left@ == drop@.take(i as int).to_set(),
        decreases drop@.len() - i,
    {
        left.insert(drop[i]);
        assert(drop@.take(i + 1) =~= drop@.take(i as int).push(drop@[i as int]));
        assert(drop@.take(i + 1).to_set() =~= drop@.take(i as int).to_set().insert(drop@[i as int])) by {
            drop@.take(i as int).lemma_push_to_set_commute(drop@[i as int]);
        }
        i += 1;
    }
    assert(drop@.take(i as int) =~= drop@);
    let mut r: Vec<usize> = Vec::new();
    let mut j: usize = 0;
    assert(ids@.skip(0) =~= ids@);
    assert(r@ + without_first(ids@, left@) =~= without_first(ids@, left@));
    while j < ids.len()
        invariant
            j <= ids@.len(),
            r@ + without_first(ids@.skip(j as int), left@) == without_first(ids@, drop@.to_set()),
        decreases ids@.len() - j,
    {
        let ghost rest = ids@.skip(j as int);
        let ghost before = r@;
        let ghost left_before = left@;
        assert(rest.drop_first() =~= ids@.skip(j + 1));
        if !left.remove(&ids[j]) {
            r.push(ids[j]);
            assert(left@ =~= left_before);
            assert(before + (seq![rest[0]] + without_first(rest.drop_first(), left@)) =~= r@
                + without_first(rest.drop_first(), left@));
        }
        j += 1;
    }
    assert(r@ + without_first(ids@.skip(j as int), left@) =~= r@);
    r
}

/// What removal leaves and what it removes make up the list.
pub proof fn lemma_without_first_keeps_the_rest(ids: Seq<usize>, drop: Set<usize>)
    requires
        drop.finite(),
        drop.subset_of(ids.to_set()),
    ensures
        forall|id: usize|
            #[trigger] ids.to_multiset().count(id) == without_first(ids, drop).to_multiset().count(id)
                + (if drop.contains(id) { 1nat } else { 0nat }),
    decreases ids.len(),
{
    broadcast use vstd::seq_lib::group_to_multiset_ensures;

    if ids.len() == 0 {
        assert forall|id: usize| !drop.contains(id) by {
            if drop.contains(id) {
                assert(ids.to_set().contains(id));
            }
        }
    } else {
        let head = ids[0];
        let tail = ids.drop_first();
        assert(ids =~= seq![head] + tail);
        vstd::seq_lib::lemma_multiset_commutative(seq![head], tail);
        assert(seq![head] =~= Seq::<usize>::empty().push(head));
        let rest = if drop.contains(head) {
            drop.remove(head)
        } else {
            drop
        };
        assert forall|id: usize| rest.contains(id) implies tail.to_set().contains(id) by {
            assert(ids.to_set().contains(id));
            let i = choose|i: int| 0 <= i < ids.len() && ids[i] == id;
            assert(tail[i - 1] == id);
        }
        lemma_without_first_keeps_the_rest(tail, rest);
        if !drop.contains(head) {
            vstd::seq_lib::lemma_multiset_commutative(seq![head], without_first(tail, rest));
        }
    }
}

/// What is left of a list was in it.
pub proof fn lemma_without_first_contains(ids: Seq<usize>, drop: Set<usize>, id: usize)
    requires
        without_first(ids, drop).contains(id),
    ensures
        ids.contains(id),
    decreases ids.len(),
{
    if ids.len() > 0 {
        let tail = ids.drop_first();
        let left = without_first(ids, drop);
        if drop.contains(ids[0]) {
            lemma_without_first_contains(tail, drop.remove(ids[0]), id);
        } else {
            let rest = without_first(tail, drop);
            let i = choose|i: int| 0 <= i < left.len() && left[i] == id;
            if i == 0 {
                assert(ids[0] == id);
            } else {
                assert(rest[i - 1] == id);
                lemma_without_first_contains(tail, drop, id);
            }
        }
        if tail.contains(id) {
            let k = choose|k: int| 0 <= k < tail.len() && tail[k] == id;
            assert(ids[k + 1] == id);
        }
    }
}

/// Removal goes through a list from its front: it takes the first occurrence of an id, and then no
/// other.
pub proof fn lemma_without_first_step(id: usize, rest: Seq<usize>, drop: Set<usize>)
    ensures
        without_first(Seq::empty(), drop) == Seq::<usize>::empty(),
        drop.contains(id) ==> without_first(seq![id] + rest, drop) == without_first(
            rest,
            drop.remove(id),
        ),
        !drop.contains(id) ==> without_first(seq![id] + rest, drop) == seq![id] + without_first(
            rest,
            drop,
        ),
{
    assert((seq![id] + rest).drop_first() =~= rest);
}

/// Removal from a list without repeated ids leaves the ids that are not removed, in their order.
pub proof fn lemma_without_first_is_filter(ids: Seq<usize>, drop: Set<usize>)
    requires
        ids.no_duplicates(),
    ensures
        without_first(ids, drop) == ids.filter(|id: usize| !drop.contains(id)),
    decreases ids.len(),
{
    let pred = |id: usize| !drop.contains(id);
    if ids.len() > 0 {
        let head = ids[0];
        let tail = ids.drop_first();
        assert(ids =~= seq![head] + tail);
        Seq::filter_distributes_over_add(seq![head], tail, pred);
        assert(seq![head].filter(pred) =~= (if pred(head) {
            seq![head]
        } else {
            Seq::empty()
        })) by {
            reveal_with_fuel(Seq::filter, 2);
            assert(seq![head].drop_last() =~= Seq::<usize>::empty());
        }
        assert(tail.no_duplicates());
        if drop.contains(head) {
            let rest = drop.remove(head);
            lemma_without_first_is_filter(tail, rest);
            assert forall|i: int| 0 <= i < tail.len() implies (|id: usize| !rest.contains(id))(
                #[trigger] tail[i],
            ) == pred(tail[i]) by {
                assert(tail[i] == ids[i + 1]);
            }
            lemma_same_filter(tail, |id: usize| !rest.contains(id), pred);
            assert(Seq::<usize>::empty() + tail.filter(pred) =~= tail.filter(pred));
        } else {
            lemma_without_first_is_filter(tail, drop);
        }
    } else {
        reveal(Seq::filter);
    }
}

/// Filtering by conditions that agree on a list gives the same.
pub proof fn lemma_same_filter<A>(
    list: Seq<A>,
    p: spec_fn(A) -> bool,
    q: spec_fn(A) -> bool,
)
    requires
        forall|i: int| 0 <= i < list.len() ==> p(#[trigger] list[i]) == q(list[i]),
    ensures
        list.filter(p) == list.filter(q),
    decreases list.len(),
{
    reveal(Seq::filter);
    if list.len() > 0 {
        let front = list.drop_last();
        assert forall|i: int| 0 <= i < front.len() implies p(#[trigger] front[i]) == q(
            front[i],
        ) by {
            assert(front[i] == list[i]);
        }
        lemma_same_filter(front, p, q);
        assert(p(list[list.len() - 1]) == q(list[list.len() - 1]));
    }
}

/// Where each of two ids that a condition keeps comes in the filtered list.
proof fn lemma_filter_order(ids: Seq<usize>, pred: spec_fn(usize) -> bool, i: int, j: int) -> (r: (
    int,
    int,
))
    requires
        0 <= i < j < ids.len(),
        pred(ids[i]),
        pred(ids[j]),
    ensures
        0 <= r.0 < r.1 < ids.filter(pred).len(),
        ids.filter(pred)[r.0] == ids[i],
        ids.filter(pred)[r.1] == ids[j],
    decreases ids.len(),
{
    reveal(Seq::filter);
    let front = ids.drop_last();
    if j == ids.len() - 1 {
        front.lemma_filter_contains(pred, i);
        let kept = front.filter(pred);
        let u = choose|u: int| 0 <= u < kept.len() && kept[u] == front[i];
        assert(ids.filter(pred) == kept.push(ids[j]));
        (u, kept.len() as int)
    } else {
        lemma_filter_order(front, pred, i, j)
    }
}

/// A stable sort has the same ids as often, in the order of their first keys, and of two with the
/// same first key the one that came first still does.
pub proof fn lemma_stable_sort(state: StateView, ids: Seq<usize>, sorted: Seq<usize>)
    requires
        is_stable_sort(state, ids, sorted),
        ids.no_duplicates(),
    ensures
        sorted.to_multiset() == ids.to_multiset(),
        forall|i: int, j: int|
            0 <= i < j < sorted.len() ==> !key_lt(
                state.sstables[#[trigger] sorted[j]].first_key@,
                state.sstables[#[trigger] sorted[i]].first_key@,
            ),
        forall|i: int, j: int, k: int, l: int|
            #![trigger ids[i], ids[j], sorted[k], sorted[l]]
            0 <= i < j < ids.len() && 0 <= k < sorted.len() && 0 <= l < sorted.len() && sorted[k]
                == ids[i] && sorted[l] == ids[j] && state.sstables[ids[i]].first_key@
                == state.sstables[ids[j]].first_key@ ==> k < l,
{
    assert forall|i: int, j: int| 0 <= i < j < sorted.len() implies !key_lt(
        state.sstables[#[trigger] sorted[j]].first_key@,
        state.sstables[#[trigger] sorted[i]].first_key@,
    ) by {
        assert(key_le(state.first_key(sorted[i]), state.first_key(sorted[j])));
    }
    assert forall|i: int, j: int, k: int, l: int|
        #![trigger ids[i], ids[j], sorted[k], sorted[l]]
        0 <= i < j < ids.len() && 0 <= k < sorted.len() && 0 <= l < sorted.len() && sorted[k]
            == ids[i] && sorted[l] == ids[j] && state.sstables[ids[i]].first_key@
            == state.sstables[ids[j]].first_key@ implies k < l by {
        let key = state.first_key(ids[i]);
        let pred = |id: usize| state.first_key(id) == key;
        assert(starting_at(state, sorted, key) == starting_at(state, ids, key));
        let kept = ids.filter(pred);
        lemma_filter_keeps_distinct(ids, pred);
        let (u, v) = lemma_filter_order(ids, pred, i, j);
        if l < k {
            let (x, y) = lemma_filter_order(sorted, pred, l, k);
            assert(kept[x] == kept[v] && kept[y] == kept[u]);
            assert(x == v && y == u);
        }
    }
}

/// A list without repeated ids repeats none after filtering.
pub proof fn lemma_filter_keeps_distinct(ids: Seq<usize>, pred: spec_fn(usize) -> bool)
    requires
        ids.no_duplicates(),
    ensures
        ids.filter(pred).no_duplicates(),
    decreases ids.len(),
{
    reveal(Seq::filter);
    if ids.len() > 0 {
        let front = ids.drop_last();
        lemma_filter_keeps_distinct(front, pred);
        if front.filter(pred).contains(ids.last()) {
            front.lemma_filter_contains_rev(pred, ids.last());
            let k = choose|k: int| 0 <= k < front.len() && front[k] == ids.last();
            assert(ids[k] == ids[ids.len() - 1]);
        }
    }
}

/// The ids of `ids` whose tables start at `key`.
pub open spec fn starting_at(state: StateView, ids: Seq<usize>, key: Seq<u8>) -> Seq<usize> {
    ids.filter(|id: usize| state.first_key(id) == key)
}

/// Whether `sorted` is `ids` in the order of their first keys, tables with the same first key in
/// the order in which they were.
pub open spec fn is_stable_sort(state: StateView, ids: Seq<usize>, sorted: Seq<usize>) -> bool {
    &&& sorted.to_multiset() == ids.to_multiset()
    &&& is_sorted(state, sorted)
    &&& forall|key: Seq<u8>|
        #[trigger] starting_at(state, sorted, key) == starting_at(state, ids, key)
}

/// Whether the tables `ids` stand in the order of their first keys.
pub open spec fn is_sorted(state: StateView, ids: Seq<usize>) -> bool {
    forall|i: int, j: int|
        0 <= i <= j < ids.len() ==> key_le(
            state.first_key(#[trigger] ids[i]),
            state.first_key(#[trigger] ids[j]),
        )
}

proof fn lemma_swap_neighbours(state: StateView, ids: Seq<usize>, j: int)
    requires
        0 < j < ids.len(),
        state.first_key(ids[j - 1]) != state.first_key(ids[j]),
    ensures
        ({
            let swapped = ids.update(j - 1, ids[j]).update(j, ids[j - 1]);
            &&& swapped.to_multiset() == ids.to_multiset()
            &&& forall|key: Seq<u8>|
                #[trigger] starting_at(state, swapped, key) == starting_at(state, ids, key)
        }),
{
    let swapped = ids.update(j - 1, ids[j]).update(j, ids[j - 1]);
    let front = ids.take(j - 1);
    let back = ids.skip(j + 1);
    let x = ids[j - 1];
    let y = ids[j];
    assert(ids =~= front + seq![x, y] + back);
    assert(swapped =~= front + seq![y, x] + back);
    assert(seq![x, y] =~= seq![x] + seq![y]);
    assert(seq![y, x] =~= seq![y] + seq![x]);
    vstd::seq_lib::lemma_multiset_commutative(seq![x], seq![y]);
    vstd::seq_lib::lemma_multiset_commutative(seq![y], seq![x]);
    assert(seq![x, y].to_multiset() =~= seq![y, x].to_multiset());
    vstd::seq_lib::lemma_multiset_commutative(front, seq![x, y]);
    vstd::seq_lib::lemma_multiset_commutative(front, seq![y, x]);
    vstd::seq_lib::lemma_multiset_commutative(front + seq![x, y], back);
    vstd::seq_lib::lemma_multiset_commutative(front + seq![y, x], back);
    assert forall|key: Seq<u8>| #[trigger]
        starting_at(state, swapped, key) == starting_at(state, ids, key) by {
        let pred = |id: usize| state.first_key(id) == key;
        Seq::filter_distributes_over_add(front, seq![x, y], pred);
        Seq::filter_distributes_over_add(front, seq![y, x], pred);
        Seq::filter_distributes_over_add(front + seq![x, y], back, pred);
        Seq::filter_distributes_over_add(front + seq![y, x], back, pred);
        reveal_with_fuel(Seq::filter, 3);
        assert(seq![x, y].drop_last() =~= seq![x]);
        assert(seq![y, x].drop_last() =~= seq![y]);
        assert(seq![x].drop_last() =~= Seq::<usize>::empty());
        assert(seq![y].drop_last() =~= Seq::<usize>::empty());
        assert(seq![x, y].filter(pred) =~= seq![y, x].filter(pred));
    }
}

/// Puts `ids` in the order of their tables' first keys. Tables with the same first key keep their
/// order.
pub fn sort_by_first_key(state: &LsmStorageState, ids: &mut Vec<usize>)
    requires
        old(ids)@.len() >= 2 ==> state@.has_tables(old(ids)@),
    ensures
        is_stable_sort(state@, old(ids)@, final(ids)@),
{
    let n = ids.len();
    proof {
        if n >= 1 {
            lemma_key_lt_irreflexive(state@.first_key(ids@[0]));
        }
    }
    if n < 2 {
        return;
    }
    let mut i: usize = 1;
    while i < n
        invariant
            1 <= i <= n,
            n == ids@.len(),
            state@.has_tables(ids@),
            is_sorted(state@, ids@.take(i as int)),
            ids@.to_multiset() == old(ids)@.to_multiset(),
            forall|key: Seq<u8>|
                #[trigger] starting_at(state@, ids@, key) == starting_at(state@, old(ids)@, key),
        decreases n - i,
    {
        let mut j: usize = i;
        assert forall|a: int, b: int| 0 <= a <= b <= i && a != j && b != j implies key_le(
            state@.first_key(#[trigger] ids@[a]),
            state@.first_key(#[trigger] ids@[b]),
        ) by {
            assert(ids@.take(i as int)[a] == ids@[a]);
            assert(ids@.take(i as int)[b] == ids@[b]);
        }
        while j > 0 && key_less(
            state.table(ids[j]).first_key.raw_ref(),
            state.table(ids[j - 1]).first_key.raw_ref(),
        )
            invariant
                j <= i < n,
                n == ids@.len(),
                state@.has_tables(ids@),
                // Leaving the moving element out, the front is sorted.
                forall|a: int, b: int|
                    0 <= a <= b <= i && a != j && b != j ==> key_le(
                        state@.first_key(#[trigger] ids@[a]),
                        state@.first_key(#[trigger] ids@[b]),
                    ),
                // It comes before all that it has passed.
                forall|b: int|
                    j < b <= i ==> key_lt(
                        state@.first_key(ids@[j as int]),
                        state@.first_key(#[trigger] ids@[b]),
                    ),
                ids@.to_multiset() == old(ids)@.to_multiset(),
                forall|key: Seq<u8>|
                    #[trigger] starting_at(state@, ids@, key) == starting_at(state@, old(ids)@, key),
            decreases j,
        {
            let ghost before = ids@;
            proof {
                lemma_key_lt_irreflexive(state@.first_key(ids@[j as int]));
                lemma_swap_neighbours(state@, ids@, j as int);
            }
            let x = ids[j - 1];
            let y = ids[j];
            ids[j - 1] = y;
            ids[j] = x;
            assert(ids@ =~= before.update(j - 1, before[j as int]).update(j as int, before[j - 1]));
            j -= 1;
        }
        proof {
            let front = ids@.take(i + 1);
            assert forall|a: int, b: int| 0 <= a <= b < front.len() implies key_le(
                state@.first_key(#[trigger] front[a]),
                state@.first_key(#[trigger] front[b]),
            ) by {
                lemma_key_lt_irreflexive(state@.first_key(front[a]));
                if a == j && b > j {
                    lemma_key_lt_asymmetric(state@.first_key(ids@[a]), state@.first_key(ids@[b]));
                } else if b == j && a < j {
                    assert(key_le(state@.first_key(ids@[a]), state@.first_key(ids@[j - 1])));
                    lemma_key_le_transitive(
                        state@.first_key(ids@[a]),
                        state@.first_key(ids@[j - 1]),
                        state@.first_key(ids@[j as int]),
                    );
                }
            }
        }
        i += 1;
    }
    assert(ids@.take(n as int) =~= ids@);
}

} // verus!
