//! Reading a block.

use super::{
    encode, fits_fields, lemma_encode_round_trip, lemma_fits_fields, Block, BlockView, U16_SIZE,
};
use crate::buf::{advance, get_u16};
use crate::key::{
    key_le, key_less, key_lt, lemma_key_lt_irreflexive, lemma_key_lt_total,
    lemma_key_lt_transitive, Entry, KeySlice, KeyVec,
};
use std::sync::Arc;
use vstd::prelude::*;
use vstd::slice::slice_subrange;

verus! {

/// Iterates on a block.
pub struct BlockIterator {
    /// The block.
    block: Arc<Block>,
    /// The current key. It is empty when the iterator is not valid.
    key: KeyVec,
    /// Where the value of the current entry starts and ends in the bytes of the block.
    value_range: (usize, usize),
    /// The number of the current entry.
    idx: usize,
    /// The first key in the block.
    first_key: KeyVec,
}

/// The value of a `BlockIterator`.
#[verifier::ext_equal]
pub struct IteratorView {
    /// The block.
    pub block: BlockView,
    /// The current key.
    pub key: Seq<u8>,
    /// Where the current value starts.
    pub value_start: int,
    /// Where the current value ends.
    pub value_end: int,
    /// The number of the current entry.
    pub idx: int,
}

impl View for BlockIterator {
    type V = IteratorView;

    closed spec fn view(&self) -> IteratorView {
        IteratorView {
            block: self.block@,
            key: self.key@,
            value_start: self.value_range.0 as int,
            value_end: self.value_range.1 as int,
            idx: self.idx as int,
        }
    }
}

impl IteratorView {
    /// Whether there is a current entry.
    pub open spec fn valid(self) -> bool {
        self.key.len() > 0
    }

    /// The current value.
    pub open spec fn value(self) -> Seq<u8> {
        self.block.data.subrange(self.value_start, self.value_end)
    }
}

impl BlockView {
    /// An iterator at entry `i`, or behind the last entry.
    pub open spec fn iterator_at(self, i: int) -> IteratorView {
        if i < self.offsets.len() {
            IteratorView {
                block: self,
                key: self.key_at(i),
                value_start: self.value_start(i),
                value_end: self.value_end(i),
                idx: i,
            }
        } else {
            IteratorView { block: self, key: Seq::empty(), value_start: 0, value_end: 0, idx: i }
        }
    }

    /// Whether entry `i` can be read, if there is one.
    pub open spec fn can_visit(self, i: int) -> bool {
        i < self.offsets.len() ==> self.readable(i)
    }

    /// Whether all entries can be read, and none has an empty key.
    pub open spec fn searchable(self) -> bool {
        forall|i: int|
            #![trigger self.readable(i)]
            #![trigger self.key_at(i)]
            0 <= i < self.offsets.len() ==> self.readable(i) && self.key_at(i).len() > 0
    }

    /// Whether the keys ascend.
    pub open spec fn sorted(self) -> bool {
        forall|i: int, j: int|
            0 <= i <= j < self.offsets.len() ==> key_le(
                #[trigger] self.key_at(i),
                #[trigger] self.key_at(j),
            )
    }

    /// Whether the key before position `p` is less than `key`, and the key at `p` is not.
    pub open spec fn is_boundary(self, p: int, key: Seq<u8>) -> bool {
        &&& 0 <= p <= self.offsets.len()
        &&& p > 0 ==> key_lt(self.key_at(p - 1), key)
        &&& p < self.offsets.len() ==> key_le(key, self.key_at(p))
    }
}

/// Where the keys ascend, the keys before a boundary, and only those, are less than the key, so
/// that the key at the boundary is the first that is not.
pub proof fn lemma_boundary_is_first(block: BlockView, p: int, key: Seq<u8>, i: int)
    requires
        block.sorted(),
        block.is_boundary(p, key),
        0 <= i < block.offsets.len(),
    ensures
        key_lt(block.key_at(i), key) <==> i < p,
{
    if i < p {
        let (a, b) = (block.key_at(i), block.key_at(p - 1));
        assert(key_le(a, b));
        lemma_key_lt_total(a, b);
        if key_lt(a, b) {
            lemma_key_lt_transitive(a, b, key);
        }
    } else {
        let (a, b) = (block.key_at(p), block.key_at(i));
        assert(key_le(a, b));
        if key_lt(b, key) {
            lemma_key_lt_total(a, b);
            if key_lt(a, b) {
                lemma_key_lt_transitive(a, b, key);
            }
        }
    }
}

/// Where a key belongs in a block: the key before that place is less, and the key there is not.
pub proof fn lemma_boundary(block: BlockView, p: int, key: Seq<u8>)
    ensures
        block.is_boundary(p, key) <==> {
            &&& 0 <= p <= block.offsets.len()
            &&& p > 0 ==> key_lt(block.key_at(p - 1), key)
            &&& p < block.offsets.len() ==> !key_lt(block.key_at(p), key)
        },
{
}

/// An iterator at an entry has its number, its key and its value; behind the last entry it has no
/// key, and is not valid.
pub proof fn lemma_iterator_position(block: BlockView, i: int)
    requires
        0 <= i,
    ensures
        block.iterator_at(i).block == block,
        block.iterator_at(i).idx == i,
        i >= block.offsets.len() ==> block.iterator_at(i).key.len() == 0,
        i < block.offsets.len() ==> {
            &&& block.iterator_at(i).key == block.key_at(i)
            &&& block.iterator_at(i).value_start == block.value_start(i)
            &&& block.iterator_at(i).value_end == block.value_end(i)
            &&& block.iterator_at(i).value() == block.value_at(i)
        },
        block.iterator_at(i).valid() <==> block.iterator_at(i).key.len() > 0,
        block.can_visit(i) <==> (i < block.offsets.len() ==> block.readable(i)),
{
}

/// Seeking a key in the block of entries whose keys ascend finds the first entry whose key is not
/// less: all before it are less, and it and all behind it are not. Any such block can be searched.
pub proof fn lemma_seek_finds_first(entries: Seq<Entry>, key: Seq<u8>, p: int)
    requires
        entries.len() > 0,
        forall|i: int|
            0 <= i < entries.len() ==> {
                &&& encode(entries.take(i)).data.len() < 0x1_0000
                &&& 0 < (#[trigger] entries[i]).key.len() < 0x1_0000
                &&& entries[i].value.len() < 0x1_0000
            },
        forall|i: int, j: int|
            0 <= i < j < entries.len() ==> !key_lt(
                (#[trigger] entries[j]).key,
                (#[trigger] entries[i]).key,
            ),
    ensures
        encode(entries).has_first_key(),
        encode(entries).searchable(),
        encode(entries).sorted(),
        encode(entries).is_boundary(p, key) <==> 0 <= p <= entries.len() && forall|i: int|
            0 <= i < entries.len() ==> (key_lt((#[trigger] entries[i]).key, key) <==> i < p),
{
    let block = encode(entries);
    assert forall|i: int| 0 <= i < entries.len() implies {
        &&& encode(entries.take(i)).data.len() < 0x1_0000
        &&& (#[trigger] entries[i]).key.len() < 0x1_0000
        &&& entries[i].value.len() < 0x1_0000
    } by {
        assert(0 < entries[i].key.len() < 0x1_0000);
    }
    lemma_fits_fields(entries);
    lemma_encode_round_trip(entries);
    lemma_iterator_at_entry(block, entries, 0);
    assert forall|i: int, j: int| 0 <= i <= j < entries.len() implies key_le(
        (#[trigger] entries[i]).key,
        (#[trigger] entries[j]).key,
    ) by {
        lemma_key_lt_irreflexive(entries[i].key);
    }
    lemma_encode_sorted(entries);
    lemma_boundary_of_entries(block, entries, key, p);
}

proof fn lemma_boundary_of_entries(
    block: BlockView,
    entries: Seq<Entry>,
    key: Seq<u8>,
    p: int,
)
    requires
        block.offsets.len() == entries.len(),
        forall|i: int| 0 <= i < entries.len() ==> block.has_entry(i, #[trigger] entries[i]),
        block.sorted(),
    ensures
        block.is_boundary(p, key) <==> 0 <= p <= entries.len() && forall|i: int|
            0 <= i < entries.len() ==> (key_lt((#[trigger] entries[i]).key, key) <==> i < p),
{
    assert forall|i: int| 0 <= i < entries.len() implies block.key_at(i) == (
    #[trigger] entries[i]).key by {
        assert(block.has_entry(i, entries[i]));
    }
    if block.is_boundary(p, key) {
        assert forall|i: int| 0 <= i < entries.len() implies (key_lt(
            (#[trigger] entries[i]).key,
            key,
        ) <==> i < p) by {
            lemma_boundary_is_first(block, p, key, i);
        }
    }
    if 0 <= p <= entries.len() && forall|i: int|
        0 <= i < entries.len() ==> (key_lt((#[trigger] entries[i]).key, key) <==> i < p) {
        if p > 0 {
            assert(key_lt(entries[p - 1].key, key));
        }
        if p < entries.len() {
            assert(!key_lt(entries[p].key, key));
        }
    }
}

/// An iterator on a block that has some entries is at the entries one after the other.
proof fn lemma_iterator_at_entry(block: BlockView, entries: Seq<Entry>, i: int)
    requires
        block.offsets.len() == entries.len(),
        0 <= i <= entries.len(),
        forall|j: int| 0 <= j < entries.len() ==> block.has_entry(j, #[trigger] entries[j]),
        forall|j: int| 0 <= j < entries.len() ==> (#[trigger] entries[j]).key.len() > 0,
    ensures
        block.searchable(),
        block.can_visit(i),
        block.iterator_at(i).valid() <==> i < entries.len(),
        i < entries.len() ==> block.iterator_at(i).key == entries[i].key && block.iterator_at(
            i,
        ).value() == entries[i].value && block.iterator_at(i).value_end <= block.data.len(),
{
    assert forall|j: int|
        #![trigger block.readable(j)]
        #![trigger block.key_at(j)]
        0 <= j < block.offsets.len() implies block.readable(j) && block.key_at(j).len() > 0 by {
        assert(block.has_entry(j, entries[j]));
    }
    if i < entries.len() {
        assert(block.has_entry(i, entries[i]));
    }
}

/// An iterator on the block of some entries is at the entries one after the other, and valid at
/// each of them.
pub proof fn lemma_iterator_reads_entries(entries: Seq<Entry>, i: int)
    requires
        entries.len() > 0,
        fits_fields(entries),
        0 <= i <= entries.len(),
        forall|j: int| 0 <= j < entries.len() ==> (#[trigger] entries[j]).key.len() > 0,
    ensures
        encode(entries).searchable(),
        encode(entries).can_visit(i),
        encode(entries).iterator_at(i).valid() <==> i < entries.len(),
        i < entries.len() ==> encode(entries).iterator_at(i).key == entries[i].key && encode(
            entries,
        ).iterator_at(i).value() == entries[i].value && encode(entries).iterator_at(i).value_end
            <= encode(entries).data.len(),
{
    lemma_encode_round_trip(entries);
    lemma_iterator_at_entry(encode(entries), entries, i);
}

/// The block of entries with ascending keys has ascending keys.
pub proof fn lemma_encode_sorted(entries: Seq<Entry>)
    requires
        entries.len() > 0,
        fits_fields(entries),
        forall|i: int, j: int|
            0 <= i <= j < entries.len() ==> key_le(
                (#[trigger] entries[i]).key,
                (#[trigger] entries[j]).key,
            ),
    ensures
        encode(entries).sorted(),
{
    lemma_encode_round_trip(entries);
    let block = encode(entries);
    assert forall|i: int, j: int| 0 <= i <= j < block.offsets.len() implies key_le(
        #[trigger] block.key_at(i),
        #[trigger] block.key_at(j),
    ) by {
        assert(block.has_entry(i, entries[i]) && block.has_entry(j, entries[j]));
    }
}

impl BlockIterator {
    /// The iterator knows the first key of its block.
    pub closed spec fn wf(self) -> bool {
        &&& self.block@.has_first_key()
        &&& self.first_key@ == self.block@.first_key()
        &&& self.value_range.0 <= self.value_range.1
    }

    /// An iterator that is not at any entry.
    pub fn new(block: Arc<Block>) -> (r: BlockIterator)
        requires
            block@.has_first_key(),
        ensures
            r.wf(),
            r@ == (IteratorView {
                block: block@,
                key: Seq::empty(),
                value_start: 0,
                value_end: 0,
                idx: 0,
            }),
    {
        BlockIterator {
            first_key: block.get_first_key(),
            block,
            key: KeyVec::new(),
            value_range: (0, 0),
            idx: 0,
        }
    }

    /// Creates an iterator at the first entry.
    pub fn create_and_seek_to_first(block: Arc<Block>) -> (r: BlockIterator)
        requires
            block@.has_first_key(),
            block@.can_visit(0),
        ensures
            r.wf(),
            r@ == block@.iterator_at(0),
    {
        let mut iter = BlockIterator::new(block);
        iter.seek_to_first();
        iter
    }

    /// Creates an iterator at the first key that is not less than `key`.
    pub fn create_and_seek_to_key(block: Arc<Block>, key: KeySlice<'_>) -> (r: BlockIterator)
        requires
            block@.has_first_key(),
            block@.searchable(),
        ensures
            r.wf(),
            r@ == block@.iterator_at(r@.idx),
            block@.is_boundary(r@.idx, key@),
            0 <= r@.idx <= block@.offsets.len(),
            r@.idx > 0 ==> key_lt(block@.key_at(r@.idx - 1), key@),
            r@.idx < block@.offsets.len() ==> !key_lt(r@.key, key@),
            block@.sorted() ==> forall|i: int|
                0 <= i < block@.offsets.len() ==> (key_lt(#[trigger] block@.key_at(i), key@) <==> i
                    < r@.idx),
    {
        let mut iter = BlockIterator::new(block);
        iter.seek_to_key(key);
        iter
    }

    /// The key of the current entry.
    pub fn key(&self) -> (r: KeySlice<'_>)
        requires
            self@.valid(),
        ensures
            r@ == self@.key,
    {
        self.key.as_key_slice()
    }

    /// The value of the current entry.
    pub fn value(&self) -> (r: &[u8])
        requires
            self.wf(),
            self@.valid(),
            self@.value_end <= self@.block.data.len(),
        ensures
            r@ == self@.value(),
    {
        slice_subrange(self.block.data.as_slice(), self.value_range.0, self.value_range.1)
    }

    /// Whether there is a current entry.
    pub fn is_valid(&self) -> (r: bool)
        ensures
            r == self@.valid(),
    {
        !self.key.is_empty()
    }

    /// Moves to an entry by its number.
    pub fn seek_to_idx(&mut self, idx: usize)
        requires
            old(self).wf(),
            old(self)@.block.can_visit(idx as int),
        ensures
            final(self).wf(),
            final(self)@ == old(self)@.block.iterator_at(idx as int),
    {
        if self.block.offsets.len() <= idx {
            self.key.clear();
            self.value_range = (0, 0);
            self.idx = idx;
            return ;
        }
        let ghost block = self.block@;
        let offset_set = self.block.offsets[idx] as usize;
        let data = self.block.data.as_slice();
        let mut entry = slice_subrange(data, offset_set, data.len());
        self.key.clear();
        let overlap_len = get_u16(&mut entry) as usize;
        assert(overlap_len == block.overlap(idx as int));
        self.key.append(slice_subrange(self.first_key.raw_ref(), 0, overlap_len));
        let key_len = get_u16(&mut entry) as usize;
        assert(key_len == block.rest_len(idx as int));
        self.key.append(slice_subrange(entry, 0, key_len));
        assert(self.key@ =~= block.key_at(idx as int));
        advance(&mut entry, key_len);
        let value_len = get_u16(&mut entry) as usize;
        assert(value_len == block.value_len(idx as int));
        let value_start = offset_set + U16_SIZE * 3 + key_len;
        let value_end = value_start + value_len;
        self.value_range = (value_start, value_end);
        self.idx = idx;
    }

    /// Moves to the first entry.
    pub fn seek_to_first(&mut self)
        requires
            old(self).wf(),
            old(self)@.block.can_visit(0),
        ensures
            final(self).wf(),
            final(self)@ == old(self)@.block.iterator_at(0),
    {
        self.seek_to_idx(0);
    }

    /// Moves to the next entry.
    pub fn next(&mut self)
        requires
            old(self).wf(),
            old(self)@.idx < usize::MAX,
            old(self)@.block.can_visit(old(self)@.idx + 1),
        ensures
            final(self).wf(),
            final(self)@ == old(self)@.block.iterator_at(old(self)@.idx + 1),
    {
        self.seek_to_idx(self.idx + 1);
    }

    /// Moves to the first key that is not less than `key`, in a block whose keys ascend. In any
    /// block it moves to a key that is not less than `key`, or behind the last entry, and the key
    /// before that is less.
    pub fn seek_to_key(&mut self, key: KeySlice<'_>)
        requires
            old(self).wf(),
            old(self)@.block.searchable(),
        ensures
            final(self).wf(),
            final(self)@ == old(self)@.block.iterator_at(final(self)@.idx),
            old(self)@.block.is_boundary(final(self)@.idx, key@),
            0 <= final(self)@.idx <= old(self)@.block.offsets.len(),
            final(self)@.idx > 0 ==> key_lt(
                old(self)@.block.key_at(final(self)@.idx - 1),
                key@,
            ),
            final(self)@.idx < old(self)@.block.offsets.len() ==> !key_lt(
                final(self)@.key,
                key@,
            ),
            old(self)@.block.sorted() ==> forall|i: int|
                0 <= i < old(self)@.block.offsets.len() ==> (key_lt(
                    #[trigger] old(self)@.block.key_at(i),
                    key@,
                ) <==> i < final(self)@.idx),
    {
        let ghost block = self@.block;
        let mut left: usize = 0;
        let mut right: usize = self.block.offsets.len();
        while left != right
            invariant
                self.wf(),
                self@.block == block,
                block == old(self)@.block,
                block.searchable(),
                left <= right <= block.offsets.len(),
                left > 0 ==> key_lt(block.key_at(left - 1), key@),
                right < block.offsets.len() ==> key_le(key@, block.key_at(right as int)),
            decreases right - left,
        {
            let mid = left + (right - left) / 2;
            assert(block.key_at(mid as int).len() > 0);
            self.seek_to_idx(mid);
            if key_less(self.key().raw_ref(), key.raw_ref()) {
                left = mid + 1;
            } else {
                right = mid;
            }
        }
        proof {
            if right < block.offsets.len() {
                assert(block.key_at(right as int).len() > 0);
            }
            if block.sorted() {
                assert forall|i: int| 0 <= i < block.offsets.len() implies (key_lt(
                    #[trigger] block.key_at(i),
                    key@,
                ) <==> i < right) by {
                    lemma_boundary_is_first(block, right as int, key@, i);
                }
            }
        }
        self.seek_to_idx(right);
    }
}

} // verus!
