//! The state of the tree on disk: which tables there are and at which level each one stands.

use crate::compact::{CompactionController, CompactionOptions};
use crate::table::SsTable;
use std::collections::HashMap;
use vstd::prelude::*;

verus! {

broadcast use vstd::std_specs::hash::group_hash_axioms;

/// The tables of the tree. `l0_sstables` lists the tables of level 0, the newest first. `levels`
/// lists the other levels, or the tiers, each with its number and the ids of its tables.
pub struct LsmStorageState {
    pub l0_sstables: Vec<usize>,
    pub levels: Vec<(usize, Vec<usize>)>,
    pub sstables: HashMap<usize, SsTable>,
}

/// The settings of a tree. `O` stands for the options of simple leveled compaction.
pub struct LsmStorageOptions<O> {
    pub block_size: usize,
    pub target_sst_size: usize,
    pub num_memtable_limit: usize,
    pub compaction_options: CompactionOptions<O>,
}

/// The settings of a tree and its compaction strategy. `C` stands for simple leveled compaction.
pub struct LsmStorageInner<C, O> {
    pub options: LsmStorageOptions<O>,
    pub compaction_controller: CompactionController<C>,
}

/// The value of an `LsmStorageState`.
#[verifier::ext_equal]
pub struct StateView {
    pub l0_sstables: Seq<usize>,
    pub levels: Seq<(usize, Seq<usize>)>,
    pub sstables: Map<usize, SsTable>,
}

/// The value of a list of levels.
pub open spec fn levels_view(levels: Seq<(usize, Vec<usize>)>) -> Seq<(usize, Seq<usize>)> {
    Seq::new(levels.len(), |i: int| (levels[i].0, levels[i].1@))
}

impl View for LsmStorageState {
    type V = StateView;

    open spec fn view(&self) -> StateView {
        StateView {
            l0_sstables: self.l0_sstables@,
            levels: levels_view(self.levels@),
            sstables: self.sstables@,
        }
    }
}

impl StateView {
    /// Whether a table is known for each of `ids`.
    pub open spec fn has_tables(self, ids: Seq<usize>) -> bool {
        forall|i: int| 0 <= i < ids.len() ==> self.sstables.contains_key(#[trigger] ids[i])
    }

    /// The smallest key of table `id`.
    pub open spec fn first_key(self, id: usize) -> Seq<u8> {
        self.sstables[id].first_key@
    }

    /// The largest key of table `id`.
    pub open spec fn last_key(self, id: usize) -> Seq<u8> {
        self.sstables[id].last_key@
    }

    /// The size of the tables `ids` together, in bytes.
    pub open spec fn total_size(self, ids: Seq<usize>) -> nat
        decreases ids.len(),
    {
        if ids.len() == 0 {
            0
        } else {
            self.total_size(ids.drop_last()) + self.sstables[ids.last()].table_size as nat
        }
    }

    /// The ids at level 0 and then, level by level, at the others.
    pub open spec fn all_ids(self) -> Seq<usize> {
        self.l0_sstables + level_ids(self.levels)
    }

    /// Whether each listed table is known, and none is listed twice.
    pub open spec fn consistent(self) -> bool {
        self.all_ids().no_duplicates() && self.has_tables(self.all_ids())
    }
}

/// The ids of the tables of `levels`, level by level.
pub open spec fn level_ids(levels: Seq<(usize, Seq<usize>)>) -> Seq<usize>
    decreases levels.len(),
{
    if levels.len() == 0 {
        Seq::empty()
    } else {
        level_ids(levels.drop_last()) + levels.last().1
    }
}

/// The value of a state has its lists, level by level, and its tables.
pub proof fn lemma_state_view(state: LsmStorageState)
    ensures
        state@.l0_sstables == state.l0_sstables@,
        state@.levels.len() == state.levels@.len(),
        forall|i: int|
            0 <= i < state.levels@.len() ==> (#[trigger] state@.levels[i]).0 == state.levels@[i].0
                && state@.levels[i].1 == state.levels@[i].1@,
        state@.sstables == state.sstables@,
{
}

/// What a state knows of its tables: the ids that it has, their keys, and the sum of their sizes.
pub proof fn lemma_state_tables(s: StateView, ids: Seq<usize>, id: usize)
    ensures
        s.has_tables(ids) <==> forall|x: usize| #[trigger]
            ids.contains(x) ==> s.sstables.contains_key(x),
        s.first_key(id) == s.sstables[id].first_key@,
        s.last_key(id) == s.sstables[id].last_key@,
        s.total_size(Seq::empty()) == 0,
        s.total_size(ids.push(id)) == s.total_size(ids) + s.sstables[id].table_size,
{
    assert(ids.push(id).drop_last() =~= ids);
    if s.has_tables(ids) {
        assert forall|x: usize| #[trigger] ids.contains(x) implies s.sstables.contains_key(x) by {
            let i = choose|i: int| 0 <= i < ids.len() && ids[i] == x;
            assert(s.sstables.contains_key(ids[i]));
        }
    }
    if forall|x: usize| #[trigger] ids.contains(x) ==> s.sstables.contains_key(x) {
        assert forall|i: int| 0 <= i < ids.len() implies s.sstables.contains_key(
            #[trigger] ids[i],
        ) by {
            assert(ids.contains(ids[i]));
        }
    }
}

/// The ids that a state lists are those of level 0 and then of the other levels, one after the
/// other. It is consistent where these are all different and have tables.
pub proof fn lemma_listed_ids(s: StateView, level: (usize, Seq<usize>))
    ensures
        s.all_ids() == s.l0_sstables + level_ids(s.levels),
        level_ids(Seq::empty()) == Seq::<usize>::empty(),
        level_ids(s.levels.push(level)) == level_ids(s.levels) + level.1,
        s.consistent() <==> {
            &&& forall|i: int, j: int|
                0 <= i < j < s.all_ids().len() ==> s.all_ids()[i] != s.all_ids()[j]
            &&& forall|i: int|
                0 <= i < s.all_ids().len() ==> s.sstables.contains_key(#[trigger] s.all_ids()[i])
        },
{
    assert(s.levels.push(level).drop_last() =~= s.levels);
}

/// The ids of levels after other levels.
pub proof fn lemma_level_ids_add(
    a: Seq<(usize, Seq<usize>)>,
    b: Seq<(usize, Seq<usize>)>,
)
    ensures
        level_ids(a + b) == level_ids(a) + level_ids(b),
    decreases b.len(),
{
    if b.len() == 0 {
        assert(a + b =~= a);
        assert(level_ids(a) + level_ids(b) =~= level_ids(a));
    } else {
        lemma_level_ids_add(a, b.drop_last());
        assert((a + b).drop_last() =~= a + b.drop_last());
        assert(level_ids(a + b) =~= level_ids(a) + level_ids(b));
    }
}

/// How often an id stands in a list after another.
pub proof fn lemma_count_add(a: Seq<usize>, b: Seq<usize>, id: usize)
    ensures
        (a + b).to_multiset().count(id) == a.to_multiset().count(id) + b.to_multiset().count(id),
{
    vstd::seq_lib::lemma_multiset_commutative(a, b);
}

/// Replacing the ids of one level replaces them in the list of all.
pub proof fn lemma_count_level_update(
    levels: Seq<(usize, Seq<usize>)>,
    i: int,
    level: (usize, Seq<usize>),
    id: usize,
)
    requires
        0 <= i < levels.len(),
    ensures
        level_ids(levels.update(i, level)).to_multiset().count(id)
            + levels[i].1.to_multiset().count(id) == level_ids(levels).to_multiset().count(id)
            + level.1.to_multiset().count(id),
    decreases levels.len(),
{
    let updated = levels.update(i, level);
    lemma_count_add(level_ids(levels.drop_last()), levels.last().1, id);
    lemma_count_add(level_ids(updated.drop_last()), updated.last().1, id);
    if i == levels.len() - 1 {
        assert(updated.drop_last() =~= levels.drop_last());
    } else {
        assert(updated.drop_last() =~= levels.drop_last().update(i, level));
        lemma_count_level_update(levels.drop_last(), i, level, id);
    }
}

/// Copies a list of ids.
pub fn copy_ids(ids: &[usize]) -> (r: Vec<usize>)
    ensures
        r@ == ids@,
{
    vstd::slice::slice_to_vec(ids)
}

/// Copies the first `count` levels.
pub fn copy_levels(levels: &Vec<(usize, Vec<usize>)>, count: usize) -> (r: Vec<(usize, Vec<usize>)>)
    requires
        count <= levels@.len(),
    ensures
        levels_view(r@) == levels_view(levels@).take(count as int),
{
    let mut r: Vec<(usize, Vec<usize>)> = Vec::new();
    let mut i: usize = 0;
    while i < count
        invariant
            count <= levels@.len(),
            i <= count,
            levels_view(r@) =~= levels_view(levels@).take(i as int),
        decreases count - i,
    {
        let ids = copy_ids(levels[i].1.as_slice());
        let ghost before = r@;
        r.push((levels[i].0, ids));
        assert(levels_view(r@) =~= levels_view(before).push((levels@[i as int].0, levels@[i as int].1@)));
        i += 1;
    }
    r
}

impl Clone for LsmStorageState {
    fn clone(&self) -> (r: LsmStorageState)
        ensures
            r@ == self@,
    {
        let r = LsmStorageState {
            l0_sstables: copy_ids(self.l0_sstables.as_slice()),
            levels: copy_levels(&self.levels, self.levels.len()),
            sstables: self.sstables.clone(),
        };
        assert(levels_view(self.levels@).take(self.levels@.len() as int) =~= levels_view(
            self.levels@,
        ));
        r
    }
}

impl LsmStorageState {
    /// The table with the given id.
    pub fn table(&self, id: usize) -> (r: &SsTable)
        requires
            self@.sstables.contains_key(id),
        ensures
            *r == self@.sstables[id],
    {
        self.sstables.get(&id).unwrap()
    }

    /// The ids of a level or tier.
    pub fn level(&self, i: usize) -> (r: &Vec<usize>)
        requires
            i < self@.levels.len(),
        ensures
            r@ == self@.levels[i as int].1,
    {
        &self.levels[i].1
    }

    /// Replaces the ids of a level, keeping its number.
    pub fn set_level(&mut self, i: usize, ids: Vec<usize>)
        requires
            i < old(self)@.levels.len(),
        ensures
            final(self)@ == (StateView {
                levels: old(self)@.levels.update(i as int, (old(self)@.levels[i as int].0, ids@)),
                ..old(self)@
            }),
    {
        let number = self.levels[i].0;
        self.levels[i] = (number, ids);
        assert(levels_view(self.levels@) =~= levels_view(old(self).levels@).update(
            i as int,
            (number, ids@),
        ));
    }
}

} // verus!
