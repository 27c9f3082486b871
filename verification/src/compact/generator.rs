//! Cutting a stream of merged entries into tables.

use crate::key::{key_lt, Entry, KeySlice};
use vstd::prelude::*;

verus! {

/// What to do with an entry of the stream: first `start_builder`, if so, then `add` the entry to
/// the builder, if so.
pub struct EntryAction {
    pub start_builder: bool,
    pub add: bool,
}

/// Decides, entry by entry, which entries of a stream go to which table. Between two entries the
/// generator is told the size of the table so far.
pub struct SstGenerator {
    is_compact_bottom: bool,
    target_sst_size: usize,
    builder_open: bool,
    size_due: bool,
    seen: Ghost<Seq<Entry>>,
    tables: Ghost<Seq<Seq<Entry>>>,
    current: Ghost<Seq<Entry>>,
}

/// The value of an `SstGenerator`.
#[verifier::ext_equal]
pub struct GeneratorView {
    /// Whether the tables go to the bottom of the tree.
    pub is_compact_bottom: bool,
    /// The size at which a table is complete.
    pub target_sst_size: usize,
    /// Whether a table is being built.
    pub builder_open: bool,
    /// Whether the size after the last entry is still to be told.
    pub size_due: bool,
    /// The entries of the stream so far.
    pub seen: Seq<Entry>,
    /// The entries of each complete table.
    pub tables: Seq<Seq<Entry>>,
    /// The entries of the table that is being built.
    pub current: Seq<Entry>,
}

impl View for SstGenerator {
    type V = GeneratorView;

    closed spec fn view(&self) -> GeneratorView {
        GeneratorView {
            is_compact_bottom: self.is_compact_bottom,
            target_sst_size: self.target_sst_size,
            builder_open: self.builder_open,
            size_due: self.size_due,
            seen: self.seen@,
            tables: self.tables@,
            current: self.current@,
        }
    }
}

/// The entries that are kept: all of them, or, at the bottom, those that are not deleted.
pub open spec fn kept(entries: Seq<Entry>, is_compact_bottom: bool) -> Seq<Entry> {
    entries.filter(|e: Entry| !is_compact_bottom || e.value.len() > 0)
}

/// The entries of the tables, table by table.
pub open spec fn contents(tables: Seq<Seq<Entry>>) -> Seq<Entry>
    decreases tables.len(),
{
    if tables.len() == 0 {
        Seq::empty()
    } else {
        contents(tables.drop_last()) + tables.last()
    }
}

impl GeneratorView {
    /// The tables hold the entries of the stream that are kept, in their order.
    pub open spec fn inv(self) -> bool {
        &&& contents(self.tables) + self.current == kept(self.seen, self.is_compact_bottom)
        &&& !self.builder_open ==> self.current.len() == 0
        &&& self.size_due ==> self.builder_open
    }

    /// A generator that has seen nothing.
    pub open spec fn fresh(is_compact_bottom: bool, target_sst_size: usize) -> GeneratorView {
        GeneratorView {
            is_compact_bottom,
            target_sst_size,
            builder_open: false,
            size_due: false,
            seen: Seq::empty(),
            tables: Seq::empty(),
            current: Seq::empty(),
        }
    }

    /// After another entry of the stream.
    pub open spec fn after_entry(self, e: Entry) -> GeneratorView {
        GeneratorView {
            builder_open: true,
            size_due: true,
            seen: self.seen.push(e),
            current: if self.is_compact_bottom && e.value.len() == 0 {
                self.current
            } else {
                self.current.push(e)
            },
            ..self
        }
    }

    /// After the table being built is complete.
    pub open spec fn after_build(self) -> GeneratorView {
        GeneratorView {
            builder_open: false,
            size_due: false,
            tables: self.tables.push(self.current),
            current: Seq::empty(),
            ..self
        }
    }
}

proof fn lemma_contents_push(tables: Seq<Seq<Entry>>, table: Seq<Entry>)
    ensures
        contents(tables.push(table)) == contents(tables) + table,
{
    assert(tables.push(table).drop_last() =~= tables);
}

/// Which entries are kept: of a stream those of its parts, and of a single entry the entry itself,
/// unless the tables go to the bottom and the entry marks a deleted key.
pub proof fn lemma_kept(a: Seq<Entry>, b: Seq<Entry>, e: Entry, is_compact_bottom: bool)
    ensures
        kept(a + b, is_compact_bottom) == kept(a, is_compact_bottom) + kept(b, is_compact_bottom),
        kept(Seq::empty(), is_compact_bottom) == Seq::<Entry>::empty(),
        e.value.len() > 0 ==> kept(seq![e], is_compact_bottom) == seq![e],
        kept(seq![e], false) == seq![e],
        e.value.len() == 0 ==> kept(seq![e], true) == Seq::<Entry>::empty(),
{
    let pred = |x: Entry| !is_compact_bottom || x.value.len() > 0;
    Seq::filter_distributes_over_add(a, b, pred);
    reveal_with_fuel(Seq::filter, 2);
    assert(seq![e].drop_last() =~= Seq::<Entry>::empty());
    assert(Seq::<Entry>::empty().push(e) =~= seq![e]);
}

/// The entries of tables are those of each of them in turn.
pub proof fn lemma_contents(tables: Seq<Seq<Entry>>, table: Seq<Entry>)
    ensures
        contents(Seq::empty()) == Seq::<Entry>::empty(),
        contents(tables.push(table)) == contents(tables) + table,
{
    lemma_contents_push(tables, table);
}

/// How a generator goes on: it starts with nothing; an entry opens a table, is seen, and is added
/// to the table just where it is kept; a complete table is closed with all that was added to it.
pub proof fn lemma_generator_steps(g: GeneratorView, e: Entry, bottom: bool, target: usize)
    ensures
        ({
            let f = GeneratorView::fresh(bottom, target);
            &&& f.is_compact_bottom == bottom
            &&& f.target_sst_size == target
            &&& !f.builder_open && !f.size_due
            &&& f.seen.len() == 0 && f.tables.len() == 0 && f.current.len() == 0
        }),
        ({
            let n = g.after_entry(e);
            &&& n.is_compact_bottom == g.is_compact_bottom
            &&& n.target_sst_size == g.target_sst_size
            &&& n.builder_open && n.size_due
            &&& n.seen == g.seen.push(e)
            &&& n.tables == g.tables
            &&& n.current == g.current + kept(seq![e], g.is_compact_bottom)
        }),
        ({
            let n = g.after_build();
            &&& n.is_compact_bottom == g.is_compact_bottom
            &&& n.target_sst_size == g.target_sst_size
            &&& !n.builder_open && !n.size_due
            &&& n.seen == g.seen
            &&& n.tables == g.tables.push(g.current)
            &&& n.current.len() == 0
        }),
        g.inv() ==> contents(g.tables) + g.current == kept(g.seen, g.is_compact_bottom),
{
    lemma_kept(g.seen, seq![e], e, g.is_compact_bottom);
    assert(g.current + seq![e] =~= g.current.push(e));
    assert(g.current + Seq::<Entry>::empty() =~= g.current);
}

/// Whether the keys of the entries ascend.
pub open spec fn ascending(entries: Seq<Entry>) -> bool {
    forall|i: int, j: int|
        0 <= i < j < entries.len() ==> key_lt(
            (#[trigger] entries[i]).key,
            (#[trigger] entries[j]).key,
        )
}

/// Dropping entries keeps the order of the others.
proof fn lemma_kept_ascending(entries: Seq<Entry>, is_compact_bottom: bool)
    requires
        ascending(entries),
    ensures
        ascending(kept(entries, is_compact_bottom)),
    decreases entries.len(),
{
    reveal(Seq::filter);
    if entries.len() > 0 {
        let front = entries.drop_last();
        let before = kept(front, is_compact_bottom);
        let after = kept(entries, is_compact_bottom);
        let pred = |e: Entry| !is_compact_bottom || e.value.len() > 0;
        lemma_kept_ascending(front, is_compact_bottom);
        assert forall|i: int, j: int| 0 <= i < j < after.len() implies key_lt(
            (#[trigger] after[i]).key,
            (#[trigger] after[j]).key,
        ) by {
            assert(after[i] == before[i]);
            if j < before.len() {
                assert(after[j] == before[j]);
            } else {
                assert(after[j] == entries[entries.len() - 1]);
                assert(front.filter(pred).contains(before[i]));
                front.lemma_filter_contains_rev(pred, before[i]);
                let k = choose|k: int| 0 <= k < front.len() && front[k] == before[i];
                assert(entries[k] == before[i]);
            }
        }
    }
}

/// The entries of a table are among those of all tables.
proof fn lemma_contents_has(tables: Seq<Seq<Entry>>, i: int, a: int) -> (p: int)
    requires
        0 <= i < tables.len(),
        0 <= a < tables[i].len(),
    ensures
        0 <= p < contents(tables).len(),
        contents(tables)[p] == tables[i][a],
    decreases tables.len(),
{
    if i == tables.len() - 1 {
        contents(tables.drop_last()).len() + a
    } else {
        lemma_contents_has(tables.drop_last(), i, a)
    }
}

proof fn lemma_ascending_tables(tables: Seq<Seq<Entry>>, i: int, a: int, j: int, b: int)
    requires
        ascending(contents(tables)),
        0 <= i < j < tables.len(),
        0 <= a < tables[i].len(),
        0 <= b < tables[j].len(),
    ensures
        key_lt(tables[i][a].key, tables[j][b].key),
    decreases tables.len(),
{
    let front = tables.drop_last();
    let all = contents(tables);
    let before = contents(front);
    if j == tables.len() - 1 {
        let p = lemma_contents_has(front, i, a);
        assert(all[p] == before[p]);
        assert(all[before.len() + b] == tables[j][b]);
    } else {
        assert forall|k: int, l: int| 0 <= k < l < before.len() implies key_lt(
            (#[trigger] before[k]).key,
            (#[trigger] before[l]).key,
        ) by {
            assert(all[k] == before[k] && all[l] == before[l]);
        }
        lemma_ascending_tables(front, i, a, j, b);
    }
}

/// Tables cut from a stream of ascending keys do not overlap: all keys of one come before all keys
/// of the next.
pub proof fn lemma_tables_do_not_overlap(g: GeneratorView, i: int, a: int, j: int, b: int)
    requires
        g.inv(),
        ascending(g.seen),
        0 <= i < j < g.tables.len(),
        0 <= a < g.tables[i].len(),
        0 <= b < g.tables[j].len(),
    ensures
        key_lt(g.tables[i][a].key, g.tables[j][b].key),
{
    lemma_kept_ascending(g.seen, g.is_compact_bottom);
    let all = contents(g.tables);
    let whole = kept(g.seen, g.is_compact_bottom);
    assert forall|k: int, l: int| 0 <= k < l < all.len() implies key_lt(
        (#[trigger] all[k]).key,
        (#[trigger] all[l]).key,
    ) by {
        assert((all + g.current)[k] == all[k] && (all + g.current)[l] == all[l]);
        assert(whole[k] == all[k] && whole[l] == all[l]);
    }
    lemma_ascending_tables(g.tables, i, a, j, b);
}

impl SstGenerator {
    /// A generator of tables of about `target_sst_size` bytes.
    pub fn new(is_compact_bottom: bool, target_sst_size: usize) -> (r: SstGenerator)
        ensures
            r@ == GeneratorView::fresh(is_compact_bottom, target_sst_size),
            r@.inv(),
    {
        let r = SstGenerator {
            is_compact_bottom,
            target_sst_size,
            builder_open: false,
            size_due: false,
            seen: Ghost(Seq::empty()),
            tables: Ghost(Seq::empty()),
            current: Ghost(Seq::empty()),
        };
        proof {
            reveal(Seq::filter);
            assert(contents(r@.tables) + r@.current =~= kept(r@.seen, is_compact_bottom));
        }
        r
    }

    /// Takes the next entry of the stream. Every entry needs an open builder; at the bottom of the
    /// tree deleted keys are dropped.
    pub fn entry(&mut self, key: KeySlice<'_>, value: &[u8]) -> (r: EntryAction)
        requires
            old(self)@.inv(),
            !old(self)@.size_due,
        ensures
            final(self)@ == old(self)@.after_entry(Entry { key: key@, value: value@ }),
            final(self)@.inv(),
            r.start_builder == !old(self)@.builder_open,
            r.add == !(old(self)@.is_compact_bottom && value@.len() == 0),
    {
        let add = !(self.is_compact_bottom && value.len() == 0);
        let r = EntryAction { start_builder: !self.builder_open, add };
        let ghost e = Entry { key: key@, value: value@ };
        self.builder_open = true;
        self.size_due = true;
        proof {
            reveal(Seq::filter);
            let seen = old(self)@.seen;
            assert(seen.push(e).drop_last() =~= seen);
            if add {
                assert(contents(old(self)@.tables) + old(self)@.current.push(e) =~= kept(
                    seen.push(e),
                    old(self)@.is_compact_bottom,
                ));
                self.current@ = self.current@.push(e);
            }
            self.seen@ = self.seen@.push(e);
        }
        r
    }

    /// Is told the size of the open builder once the stream has moved on. Returns whether the
    /// table is to be built now.
    pub fn advanced(&mut self, estimated_size: usize) -> (r: bool)
        requires
            old(self)@.inv(),
            old(self)@.size_due,
        ensures
            r == (estimated_size >= old(self)@.target_sst_size),
            final(self)@ == (if r {
                old(self)@.after_build()
            } else {
                GeneratorView { size_due: false, ..old(self)@ }
            }),
            final(self)@.inv(),
    {
        self.size_due = false;
        if estimated_size >= self.target_sst_size {
            self.close();
            true
        } else {
            false
        }
    }

    /// Ends the stream. Returns whether a last table is to be built.
    pub fn finish(&mut self) -> (r: bool)
        requires
            old(self)@.inv(),
            !old(self)@.size_due,
        ensures
            r == old(self)@.builder_open,
            final(self)@ == (if r {
                old(self)@.after_build()
            } else {
                old(self)@
            }),
            final(self)@.inv(),
            contents(final(self)@.tables) == kept(old(self)@.seen, old(self)@.is_compact_bottom),
    {
        if self.builder_open {
            self.close();
            assert(contents(self@.tables) + self@.current =~= contents(self@.tables));
            true
        } else {
            assert(contents(self@.tables) + self@.current =~= contents(self@.tables));
            false
        }
    }

    fn close(&mut self)
        requires
            old(self)@.inv(),
            !old(self)@.size_due,
        ensures
            final(self)@ == old(self)@.after_build(),
            final(self)@.inv(),
    {
        proof {
            lemma_contents_push(self.tables@, self.current@);
            self.tables@ = self.tables@.push(self.current@);
            self.current@ = Seq::empty();
            assert(contents(self.tables@) + self.current@ =~= contents(self.tables@));
        }
        self.builder_open = false;
    }
}

} // verus!
