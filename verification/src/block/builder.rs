//! Writing a block.

use super::{
    base_key, common_prefix, encode, encode_data, entry_bytes, fits_fields, fits_fields_at,
    lemma_common_prefix, Block, U16_SIZE,
};
use crate::buf::{low16_of, put_slice, put_u16};
use crate::key::{Entry, KeySlice, KeyVec};
use vstd::prelude::*;
use vstd::slice::slice_subrange;

verus! {

/// Builds a block.
pub struct BlockBuilder {
    /// Where each entry starts.
    offsets: Vec<u16>,
    /// The bytes of the entries.
    data: Vec<u8>,
    /// The size that the block should have.
    block_size: usize,
    /// The key of the first entry, empty before there is one.
    first_key: KeyVec,
    /// The entries.
    entries: Ghost<Seq<Entry>>,
}

/// The value of a `BlockBuilder`.
#[verifier::ext_equal]
pub struct BuilderView {
    /// The size that the block should have.
    pub block_size: usize,
    /// The entries so far.
    pub entries: Seq<Entry>,
}

impl View for BlockBuilder {
    type V = BuilderView;

    closed spec fn view(&self) -> BuilderView {
        BuilderView { block_size: self.block_size, entries: self.entries@ }
    }
}

/// The size of the block of the entries: its bytes, its offsets and their number.
pub open spec fn size(entries: Seq<Entry>) -> nat {
    2 + 2 * entries.len() + encode_data(entries).len()
}

impl BuilderView {
    /// Whether the block has room for an entry. An empty block always has.
    pub open spec fn has_room(self, e: Entry) -> bool {
        ||| self.entries.len() == 0
        ||| size(self.entries) + e.key.len() + e.value.len() + 6 <= self.block_size
    }

    /// No key is empty, and from the second entry on the block is at most an offset larger than it
    /// should be.
    pub open spec fn inv(self) -> bool {
        &&& forall|i: int|
            0 <= i < self.entries.len() ==> (#[trigger] self.entries[i]).key.len() > 0
        &&& self.entries.len() > 1 ==> size(self.entries) <= self.block_size + 2
    }
}

/// The length of an entry in a block.
proof fn lemma_entry_len(first_key: Seq<u8>, e: Entry)
    ensures
        common_prefix(first_key, e.key) <= e.key.len(),
        entry_bytes(first_key, e).len() == 6 + e.key.len() - common_prefix(first_key, e.key)
            + e.value.len(),
{
    lemma_common_prefix(first_key, e.key);
}

/// The bytes of some entries and another one.
proof fn lemma_encode_data_push(entries: Seq<Entry>, e: Entry)
    ensures
        encode_data(entries.push(e)) == encode_data(entries) + entry_bytes(
            base_key(entries, entries.len() as int),
            e,
        ),
{
    assert(entries.push(e).drop_last() =~= entries);
}

/// Every entry takes at least six bytes.
proof fn lemma_data_len(entries: Seq<Entry>)
    ensures
        encode_data(entries).len() >= 6 * entries.len(),
    decreases entries.len(),
{
    if entries.len() > 0 {
        lemma_data_len(entries.drop_last());
        lemma_entry_len(base_key(entries, entries.len() - 1), entries.last());
    }
}

/// Entry `i`, at its start and with its own length, lies inside the bytes of all entries.
proof fn lemma_entry_inside(entries: Seq<Entry>, i: int)
    requires
        0 <= i < entries.len(),
    ensures
        encode_data(entries.take(i)).len() + entry_bytes(base_key(entries, i), entries[i]).len()
            <= encode_data(entries).len(),
    decreases entries.len(),
{
    if i == entries.len() - 1 {
        assert(entries.take(i) =~= entries.drop_last());
    } else {
        assert(entries.take(i) =~= entries.drop_last().take(i));
        lemma_entry_inside(entries.drop_last(), i);
    }
}

/// In a builder of small blocks no number needs more than two bytes, provided that the first
/// entry, which is taken whatever its size, does not need more. Together with the round trip of
/// `encode` this says that the block has the entries that were added.
pub proof fn lemma_small_block_fits_fields(b: BuilderView)
    requires
        b.inv(),
        b.block_size < 0x1_0000,
        b.entries.len() > 0,
        b.entries[0].key.len() < 0x1_0000,
        b.entries[0].value.len() < 0x1_0000,
    ensures
        fits_fields(b.entries),
{
    let entries = b.entries;
    assert forall|i: int| 0 <= i < entries.len() implies #[trigger] fits_fields_at(entries, i) by {
        lemma_entry_len(base_key(entries, i), entries[i]);
        if entries.len() > 1 {
            lemma_entry_inside(entries, i);
        } else {
            assert(entries.take(0) =~= Seq::empty());
        }
    }
}

/// An entry that fits is taken and one that does not is refused: a block that has entries takes
/// another just where its bytes, two for each offset and two for their number, the key, the value
/// and three numbers of two bytes are no more than the size that it should have. An empty block
/// takes any entry.
pub proof fn lemma_fitting_entry_is_taken(b: BuilderView, e: Entry)
    ensures
        b.entries.len() == 0 ==> b.has_room(e),
        b.entries.len() > 0 ==> (b.has_room(e) <==> encode(b.entries).data.len() + 2
            * b.entries.len() + 2 + e.key.len() + e.value.len() + 6 <= b.block_size),
{
}

/// From the second entry on a block is at most two bytes larger than it should be, and it has no
/// empty key.
pub proof fn lemma_block_size_is_bounded(b: BuilderView, i: int)
    requires
        b.inv(),
    ensures
        b.entries.len() > 1 ==> encode(b.entries).data.len() + 2 * b.entries.len() <= b.block_size,
        0 <= i < b.entries.len() ==> b.entries[i].key.len() > 0,
{
}

/// A smaller entry is taken wherever a larger one is, and a larger block takes what a smaller takes.
pub proof fn lemma_room_monotone(b: BuilderView, larger: usize, e: Entry, f: Entry)
    requires
        b.has_room(e),
        f.key.len() + f.value.len() <= e.key.len() + e.value.len(),
        larger >= b.block_size,
    ensures
        b.has_room(f),
        (BuilderView { block_size: larger, ..b }).has_room(f),
{
}

/// How many bytes two keys have in common at their start.
pub fn compute_overlap(s1: &KeySlice<'_>, s2: &KeySlice<'_>) -> (r: usize)
    ensures
        r == common_prefix(s1@, s2@),
{
    let mut ret: usize = 0;
    let (a, b) = (s1.raw_ref(), s2.raw_ref());
    assert(s1@.skip(0) =~= s1@);
    assert(s2@.skip(0) =~= s2@);
    while ret < a.len() && ret < b.len() && a[ret] == b[ret]
        invariant
            a@ == s1@,
            b@ == s2@,
            ret <= a@.len(),
            ret <= b@.len(),
            common_prefix(s1@, s2@) == ret + common_prefix(
                s1@.skip(ret as int),
                s2@.skip(ret as int),
            ),
        decreases a@.len() - ret,
    {
        assert(s1@.skip(ret as int).drop_first() =~= s1@.skip(ret + 1));
        assert(s2@.skip(ret as int).drop_first() =~= s2@.skip(ret + 1));
        ret += 1;
    }
    ret
}

impl BlockBuilder {
    /// The builder holds the block of its entries.
    pub closed spec fn wf(self) -> bool {
        &&& self.data@ == encode(self.entries@).data
        &&& self.offsets@ == encode(self.entries@).offsets
        &&& self.first_key@ == base_key(self.entries@, self.entries@.len() as int)
        &&& self.data@.len() <= isize::MAX
    }

    /// A builder of an empty block.
    pub fn new(block_size: usize) -> (r: BlockBuilder)
        ensures
            r.wf(),
            r@.inv(),
            r@ == (BuilderView { block_size, entries: Seq::empty() }),
    {
        let r = BlockBuilder {
            offsets: Vec::new(),
            data: Vec::new(),
            block_size,
            first_key: KeyVec::new(),
            entries: Ghost(Seq::empty()),
        };
        assert(r.offsets@ =~= encode(r.entries@).offsets);
        r
    }

    /// The size of the block so far.
    pub fn estimated_size(&self) -> (r: usize)
        requires
            self.wf(),
        ensures
            r == size(self@.entries),
            r == 2 + 2 * self@.entries.len() + encode(self@.entries).data.len(),
    {
        proof {
            lemma_data_len(self.entries@);
        }
        U16_SIZE + self.offsets.len() * U16_SIZE + self.data.len()
    }

    /// Adds an entry to the block. Returns false, and leaves the block as it is, when the block is
    /// full.
    #[must_use]
    pub fn add(&mut self, key: KeySlice<'_>, value: &[u8]) -> (r: bool)
        requires
            old(self).wf(),
            old(self)@.inv(),
            key@.len() > 0,
            encode_data(old(self)@.entries).len() + key@.len() + value@.len() + 6 <= isize::MAX,
        ensures
            final(self).wf(),
            final(self)@.inv(),
            r == old(self)@.has_room(Entry { key: key@, value: value@ }),
            r <==> old(self)@.entries.len() == 0 || encode(old(self)@.entries).data.len() + 2
                * old(self)@.entries.len() + 2 + key@.len() + value@.len() + 6
                <= old(self)@.block_size,
            final(self)@ == (if r {
                BuilderView {
                    entries: old(self)@.entries.push(Entry { key: key@, value: value@ }),
                    ..old(self)@
                }
            } else {
                old(self)@
            }),
    {
        let ghost e = Entry { key: key@, value: value@ };
        let ghost before = self.entries@;
        proof {
            lemma_data_len(before);
        }
        if !self.is_empty() && self.estimated_size() + key.len() + value.len() + 3 * U16_SIZE
            > self.block_size {
            return false;
        }
        let ghost base = base_key(before, before.len() as int);
        proof {
            lemma_entry_len(base, e);
        }
        self.offsets.push(low16_of(self.data.len()));
        let overlap = compute_overlap(&self.first_key.as_key_slice(), &key);
        put_u16(&mut self.data, low16_of(overlap));
        put_u16(&mut self.data, low16_of(key.len() - overlap));
        put_slice(&mut self.data, slice_subrange(key.raw_ref(), overlap, key.len()));
        put_u16(&mut self.data, low16_of(value.len()));
        put_slice(&mut self.data, value);
        if self.first_key.is_empty() {
            self.first_key = key.to_key_vec();
        }
        proof {
            self.entries@ = before.push(e);
            lemma_encode_data_push(before, e);
            assert(key@.subrange(overlap as int, key@.len() as int) =~= key@.skip(overlap as int));
            assert(self.data@ =~= encode_data(before) + entry_bytes(base, e));
            assert(self.offsets@ =~= encode(before.push(e)).offsets) by {
                assert forall|i: int| 0 <= i < before.len() implies before.push(e).take(i)
                    == before.take(i) by {
                    assert(before.push(e).take(i) =~= before.take(i));
                }
                assert(before.push(e).take(before.len() as int) =~= before);
            }
        }
        true
    }

    /// Whether the block has no entry.
    pub fn is_empty(&self) -> (r: bool)
        requires
            self.wf(),
        ensures
            r == (self@.entries.len() == 0),
    {
        self.offsets.len() == 0
    }

    /// The block of the entries.
    pub fn build(self) -> (r: Block)
        requires
            self.wf(),
            self@.entries.len() > 0,
        ensures
            r@ == encode(self@.entries),
    {
        Block { data: self.data, offsets: self.offsets }
    }
}

} // verus!
