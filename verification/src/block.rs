//! Blocks: sorted runs of key-value entries, the unit of reading from a table.

pub mod builder;
pub mod iterator;

use crate::buf::{be16, get_u16, lemma_u16_at_be16, low16, u16_at};
use crate::key::{Entry, KeyVec};
use vstd::prelude::*;
use vstd::slice::{slice_subrange, slice_to_vec};

verus! {

/// The size of a length or an offset in a block, in bytes.
pub const U16_SIZE: usize = 2;

/// A block: the bytes of its entries, one entry after the other, and where each entry starts.
///
/// An entry is the number of bytes that its key has in common with the first key of the block, the
/// number of the other bytes of the key, those bytes, the length of the value and the value. The
/// three numbers take two bytes each, high byte first.
pub struct Block {
    pub data: Vec<u8>,
    pub offsets: Vec<u16>,
}

/// The value of a `Block`.
#[verifier::ext_equal]
pub struct BlockView {
    pub data: Seq<u8>,
    pub offsets: Seq<u16>,
}

impl View for Block {
    type V = BlockView;

    open spec fn view(&self) -> BlockView {
        BlockView { data: self.data@, offsets: self.offsets@ }
    }
}

impl BlockView {
    /// Whether the bytes are long enough to hold a first key.
    pub open spec fn has_first_key(self) -> bool {
        &&& self.data.len() >= 4
        &&& self.data.len() >= 4 + u16_at(self.data, 2)
    }

    /// The key of the entry at the start of the block, all of whose bytes are stored.
    pub open spec fn first_key(self) -> Seq<u8> {
        self.data.subrange(4, 4 + u16_at(self.data, 2))
    }

    /// Where entry `i` starts.
    pub open spec fn offset(self, i: int) -> int {
        self.offsets[i] as int
    }

    /// How many bytes of the first key the key of entry `i` starts with.
    pub open spec fn overlap(self, i: int) -> int {
        u16_at(self.data, self.offset(i)) as int
    }

    /// How many bytes of the key of entry `i` are stored.
    pub open spec fn rest_len(self, i: int) -> int {
        u16_at(self.data, self.offset(i) + 2) as int
    }

    /// The length of the value of entry `i`.
    pub open spec fn value_len(self, i: int) -> int {
        u16_at(self.data, self.offset(i) + 4 + self.rest_len(i)) as int
    }

    /// Whether the numbers and the key of entry `i` are there to read.
    pub open spec fn readable(self, i: int) -> bool {
        &&& self.offset(i) + 4 <= self.data.len()
        &&& self.overlap(i) <= self.first_key().len()
        &&& self.offset(i) + 4 + self.rest_len(i) + 2 <= self.data.len()
    }

    /// The key of entry `i`.
    pub open spec fn key_at(self, i: int) -> Seq<u8> {
        self.first_key().take(self.overlap(i)) + self.data.subrange(
            self.offset(i) + 4,
            self.offset(i) + 4 + self.rest_len(i),
        )
    }

    /// Where the value of entry `i` starts.
    pub open spec fn value_start(self, i: int) -> int {
        self.offset(i) + 6 + self.rest_len(i)
    }

    /// Where the value of entry `i` ends.
    pub open spec fn value_end(self, i: int) -> int {
        self.value_start(i) + self.value_len(i)
    }

    /// The value of entry `i`, of a block that reaches to its end.
    pub open spec fn value_at(self, i: int) -> Seq<u8> {
        self.data.subrange(self.value_start(i), self.value_end(i))
    }

    /// Whether the block reaches to the end of entry `i`, and this is `e`.
    pub open spec fn has_entry(self, i: int, e: Entry) -> bool {
        &&& self.readable(i)
        &&& self.key_at(i) == e.key
        &&& self.value_end(i) <= self.data.len()
        &&& self.value_at(i) == e.value
    }
}

impl Block {
    /// The first key of the block.
    pub fn get_first_key(&self) -> (r: KeyVec)
        requires
            self@.has_first_key(),
        ensures
            r@ == self@.first_key(),
    {
        let mut entry = self.data.as_slice();
        get_u16(&mut entry);
        let key_size = get_u16(&mut entry) as usize;
        assert(entry@ =~= self.data@.skip(4));
        let key = slice_to_vec(slice_subrange(entry, 0, key_size));
        assert(key@ =~= self@.first_key());
        KeyVec::from_vec(key)
    }
}

/// How many bytes two keys have in common at their start.
pub open spec fn common_prefix(a: Seq<u8>, b: Seq<u8>) -> nat
    decreases a.len(),
{
    if a.len() == 0 || b.len() == 0 || a[0] != b[0] {
        0
    } else {
        1 + common_prefix(a.drop_first(), b.drop_first())
    }
}

/// The common prefix of two keys is a prefix of both, and no longer one is.
pub proof fn lemma_common_prefix(a: Seq<u8>, b: Seq<u8>)
    ensures
        common_prefix(a, b) <= a.len(),
        common_prefix(a, b) <= b.len(),
        a.take(common_prefix(a, b) as int) == b.take(common_prefix(a, b) as int),
        common_prefix(a, b) < a.len() && common_prefix(a, b) < b.len() ==> a[common_prefix(
            a,
            b,
        ) as int] != b[common_prefix(a, b) as int],
    decreases a.len(),
{
    let n = common_prefix(a, b) as int;
    if n > 0 {
        let (s, t) = (a.drop_first(), b.drop_first());
        lemma_common_prefix(s, t);
        assert forall|i: int| 0 <= i < n implies a[i] == b[i] by {
            if i > 0 {
                assert(s.take(n - 1)[i - 1] == t.take(n - 1)[i - 1]);
            }
        }
    }
    assert(a.take(n) =~= b.take(n));
}

/// The bytes of an entry in a block whose first key is `first_key`.
pub open spec fn entry_bytes(first_key: Seq<u8>, e: Entry) -> Seq<u8> {
    let overlap = common_prefix(first_key, e.key);
    be16(low16(overlap)) + be16(low16((e.key.len() - overlap) as nat)) + e.key.skip(overlap as int)
        + be16(low16(e.value.len())) + e.value
}

/// The key that entry `i` shares bytes with: none for the first entry, whose key is stored whole.
pub open spec fn base_key(entries: Seq<Entry>, i: int) -> Seq<u8> {
    if i == 0 {
        Seq::empty()
    } else {
        entries[0].key
    }
}

/// The bytes of the entries, one after the other.
pub open spec fn encode_data(entries: Seq<Entry>) -> Seq<u8>
    decreases entries.len(),
{
    if entries.len() == 0 {
        Seq::empty()
    } else {
        encode_data(entries.drop_last()) + entry_bytes(
            base_key(entries, entries.len() - 1),
            entries.last(),
        )
    }
}

/// The block of the entries.
pub open spec fn encode(entries: Seq<Entry>) -> BlockView {
    BlockView {
        data: encode_data(entries),
        offsets: Seq::new(
            entries.len(),
            |i: int| low16(encode_data(entries.take(i)).len()),
        ),
    }
}

/// Whether no number of the block of the entries needs more than two bytes.
pub open spec fn fits_fields(entries: Seq<Entry>) -> bool {
    forall|i: int| 0 <= i < entries.len() ==> #[trigger] fits_fields_at(entries, i)
}

/// Whether the offset and the lengths of entry `i` need no more than two bytes each.
pub open spec fn fits_fields_at(entries: Seq<Entry>, i: int) -> bool {
    &&& encode_data(entries.take(i)).len() < 0x1_0000
    &&& entries[i].key.len() - common_prefix(base_key(entries, i), entries[i].key) < 0x1_0000
    &&& entries[i].value.len() < 0x1_0000
}

/// The bytes of entry `i` stand where the entries before it end.
proof fn lemma_encode_data_at(entries: Seq<Entry>, i: int)
    requires
        0 <= i < entries.len(),
    ensures
        ({
            let start = encode_data(entries.take(i)).len() as int;
            let bytes = entry_bytes(base_key(entries, i), entries[i]);
            &&& start + bytes.len() <= encode_data(entries).len()
            &&& encode_data(entries).subrange(start, start + bytes.len()) == bytes
        }),
    decreases entries.len(),
{
    let front = entries.drop_last();
    let start = encode_data(entries.take(i)).len() as int;
    let bytes = entry_bytes(base_key(entries, i), entries[i]);
    if i == entries.len() - 1 {
        assert(entries.take(i) =~= front);
    } else {
        lemma_encode_data_at(front, i);
        assert(front.take(i) =~= entries.take(i));
        assert(encode_data(entries).subrange(start, start + bytes.len()) =~= encode_data(
            front,
        ).subrange(start, start + bytes.len()));
    }
    assert(encode_data(entries).subrange(start, start + bytes.len()) =~= bytes);
}

/// What the bytes of an entry hold, wherever they stand.
proof fn lemma_entry_fields(data: Seq<u8>, at: int, first_key: Seq<u8>, e: Entry)
    requires
        0 <= at,
        at + entry_bytes(first_key, e).len() <= data.len(),
        data.subrange(at, at + entry_bytes(first_key, e).len()) == entry_bytes(first_key, e),
        common_prefix(first_key, e.key) < 0x1_0000,
        e.key.len() - common_prefix(first_key, e.key) < 0x1_0000,
        e.value.len() < 0x1_0000,
    ensures
        ({
            let overlap = common_prefix(first_key, e.key) as int;
            let rest = e.key.len() - overlap;
            &&& entry_bytes(first_key, e).len() == 6 + rest + e.value.len()
            &&& u16_at(data, at) == overlap
            &&& u16_at(data, at + 2) == rest
            &&& data.subrange(at + 4, at + 4 + rest) == e.key.skip(overlap)
            &&& u16_at(data, at + 4 + rest) == e.value.len()
            &&& data.subrange(at + 6 + rest, at + 6 + rest + e.value.len()) == e.value
        }),
{
    lemma_common_prefix(first_key, e.key);
    let overlap = common_prefix(first_key, e.key) as int;
    let rest = e.key.len() - overlap;
    let bytes = entry_bytes(first_key, e);
    let got = data.subrange(at, at + bytes.len());
    assert(bytes.len() == 6 + rest + e.value.len());
    assert forall|i: int, j: int| 0 <= i <= j <= bytes.len() implies #[trigger] data.subrange(
        at + i,
        at + j,
    ) == bytes.subrange(i, j) by {
        assert(data.subrange(at + i, at + j) =~= got.subrange(i, j));
    }
    assert(data.subrange(at + 0, at + 2) == bytes.subrange(0, 2));
    assert(bytes.subrange(0, 2) =~= be16(low16(overlap as nat)));
    lemma_u16_at_be16(data, at, low16(overlap as nat));
    assert(data.subrange(at + 2, at + 4) == bytes.subrange(2, 4));
    assert(bytes.subrange(2, 4) =~= be16(low16(rest as nat)));
    lemma_u16_at_be16(data, at + 2, low16(rest as nat));
    assert(data.subrange(at + 4, at + (4 + rest)) == bytes.subrange(4, 4 + rest));
    assert(bytes.subrange(4, 4 + rest) =~= e.key.skip(overlap));
    assert(data.subrange(at + (4 + rest), at + (6 + rest)) == bytes.subrange(4 + rest, 6 + rest));
    assert(bytes.subrange(4 + rest, 6 + rest) =~= be16(low16(e.value.len())));
    lemma_u16_at_be16(data, at + 4 + rest, low16(e.value.len()));
    assert(data.subrange(at + (6 + rest), at + bytes.len()) == bytes.subrange(
        6 + rest,
        bytes.len() as int,
    ));
    assert(bytes.subrange(6 + rest, bytes.len() as int) =~= e.value);
}

/// The block of some entries starts with the first of them.
proof fn lemma_encode_first_key(entries: Seq<Entry>)
    requires
        entries.len() > 0,
        fits_fields(entries),
    ensures
        encode(entries).has_first_key(),
        encode(entries).first_key() == entries[0].key,
{
    let first = entries[0];
    let data = encode_data(entries);
    assert(fits_fields_at(entries, 0));
    lemma_common_prefix(Seq::empty(), first.key);
    lemma_encode_data_at(entries, 0);
    assert(entries.take(0) =~= Seq::empty());
    assert(encode_data(entries.take(0)).len() == 0);
    lemma_entry_fields(data, 0, Seq::empty(), first);
    assert(first.key.skip(0) =~= first.key);
}

/// A block that holds the numbers and the bytes of an entry has the entry.
proof fn lemma_has_entry(block: BlockView, i: int, e: Entry, overlap: int)
    requires
        0 <= overlap <= e.key.len(),
        overlap <= block.first_key().len(),
        block.first_key().take(overlap) == e.key.take(overlap),
        block.offset(i) + 6 + (e.key.len() - overlap) + e.value.len() <= block.data.len(),
        block.overlap(i) == overlap,
        block.rest_len(i) == e.key.len() - overlap,
        block.data.subrange(
            block.offset(i) + 4,
            block.offset(i) + 4 + (e.key.len() - overlap),
        ) == e.key.skip(overlap),
        block.value_len(i) == e.value.len(),
        block.value_at(i) == e.value,
    ensures
        block.has_entry(i, e),
{
    assert(e.key.take(overlap) + e.key.skip(overlap) =~= e.key);
}

/// The block of some entries has each of them.
proof fn lemma_encode_entry(entries: Seq<Entry>, i: int)
    requires
        0 <= i < entries.len(),
        fits_fields(entries),
    ensures
        encode(entries).has_entry(i, entries[i]),
{
    let block = encode(entries);
    let e = entries[i];
    let base = base_key(entries, i);
    let overlap = common_prefix(base, e.key) as int;
    let start = encode_data(entries.take(i)).len() as int;
    assert(fits_fields_at(entries, i));
    assert(fits_fields_at(entries, 0));
    assert(block.offset(i) == start);
    lemma_encode_first_key(entries);
    lemma_common_prefix(base, e.key);
    lemma_common_prefix(Seq::empty(), entries[0].key);
    assert(block.first_key().take(overlap) =~= e.key.take(overlap));
    assert(overlap < 0x1_0000);
    lemma_encode_data_at(entries, i);
    lemma_entry_fields(block.data, start, base, e);
    lemma_has_entry(block, i, e, overlap);
}

/// The block of some entries has them, in their order: what was written is read back. A number
/// that needs more than two bytes is cut off, so this is of entries whose numbers do not.
pub proof fn lemma_encode_round_trip(entries: Seq<Entry>)
    requires
        entries.len() > 0,
        fits_fields(entries),
    ensures
        encode(entries).offsets.len() == entries.len(),
        encode(entries).has_first_key(),
        encode(entries).first_key() == entries[0].key,
        forall|i: int|
            0 <= i < entries.len() ==> encode(entries).has_entry(i, #[trigger] entries[i]),
{
    lemma_encode_first_key(entries);
    assert forall|i: int| 0 <= i < entries.len() implies encode(entries).has_entry(
        i,
        #[trigger] entries[i],
    ) by {
        lemma_encode_entry(entries, i);
    }
}

/// What another entry adds to a block: its offset, the number of bytes that its key shares with the
/// first key, the number of the others, those bytes, the length of the value and all of the value.
/// What was there stays. An empty block has no bytes, and its first key is stored whole.
pub proof fn lemma_encode_grows(entries: Seq<Entry>, e: Entry)
    ensures
        encode(Seq::empty()).data.len() == 0,
        encode(Seq::empty()).offsets.len() == 0,
        ({
            let before = encode(entries);
            let after = encode(entries.push(e));
            let start = before.data.len() as int;
            let shared = if entries.len() == 0 {
                0
            } else {
                common_prefix(entries[0].key, e.key) as int
            };
            let rest = e.key.len() - shared;
            &&& 0 <= shared <= e.key.len()
            &&& after.offsets == before.offsets.push((start % 0x1_0000) as u16)
            &&& after.data.len() == start + 6 + rest + e.value.len()
            &&& after.data.take(start) == before.data
            &&& after.data[start] * 256 + after.data[start + 1] == shared % 0x1_0000
            &&& after.data[start + 2] * 256 + after.data[start + 3] == rest % 0x1_0000
            &&& after.data.subrange(start + 4, start + 4 + rest) == e.key.skip(shared)
            &&& after.data[start + 4 + rest] * 256 + after.data[start + 5 + rest] == e.value.len()
                % 0x1_0000
            &&& after.data.skip(start + 6 + rest) == e.value
        }),
{
    let before = encode(entries);
    let after = encode(entries.push(e));
    let start = before.data.len() as int;
    let base = base_key(entries, entries.len() as int);
    let shared = common_prefix(base, e.key) as int;
    let rest = e.key.len() - shared;
    lemma_common_prefix(base, e.key);
    assert(entries.push(e).drop_last() =~= entries);
    assert(after.data == before.data + entry_bytes(base, e));
    assert(after.offsets =~= before.offsets.push((start % 0x1_0000) as u16)) by {
        assert forall|i: int| 0 <= i < entries.len() implies entries.push(e).take(i)
            == entries.take(i) by {
            assert(entries.push(e).take(i) =~= entries.take(i));
        }
        assert(entries.push(e).take(entries.len() as int) =~= entries);
    }
    assert(after.data.take(start) =~= before.data);
    assert(after.data.subrange(start + 4, start + 4 + rest) =~= e.key.skip(shared));
    assert(after.data.skip(start + 6 + rest) =~= e.value);
}

/// A block with room for its numbers has all its entries read back, whatever they are: it is enough
/// that every entry starts and every key and value ends below two to the sixteenth.
pub proof fn lemma_fits_fields(entries: Seq<Entry>)
    requires
        forall|i: int|
            0 <= i < entries.len() ==> {
                &&& encode(entries.take(i)).data.len() < 0x1_0000
                &&& (#[trigger] entries[i]).key.len() < 0x1_0000
                &&& entries[i].value.len() < 0x1_0000
            },
    ensures
        fits_fields(entries),
{
    assert forall|i: int| 0 <= i < entries.len() implies #[trigger] fits_fields_at(entries, i) by {
        lemma_common_prefix(base_key(entries, i), entries[i].key);
        assert(encode(entries.take(i)).data.len() < 0x1_0000);
        assert(entries[i].key.len() < 0x1_0000);
    }
}

/// How any block is read: the first key is what the first length says of the bytes from the fifth
/// on, a key is so many bytes of the first key and then those stored with it, and its value follows.
pub proof fn lemma_block_is_read(block: BlockView, i: int)
    requires
        block.data.len() >= 4,
        0 <= i < block.offsets.len(),
        block.offsets[i] + 4 <= block.data.len(),
    ensures
        ({
            let data = block.data;
            let first_len = data[2] * 256 + data[3];
            let at = block.offsets[i] as int;
            let shared = data[at] * 256 + data[at + 1];
            let rest = data[at + 2] * 256 + data[at + 3];
            let value_len = data[at + 4 + rest] * 256 + data[at + 5 + rest];
            &&& block.has_first_key() <==> data.len() >= 4 + first_len
            &&& block.first_key() == data.subrange(4, 4 + first_len)
            &&& data.len() >= 4 + first_len ==> (block.readable(i) <==> shared <= first_len && at + 6
                + rest <= data.len())
            &&& block.key_at(i) == data.subrange(4, 4 + first_len).take(shared) + data.subrange(
                at + 4,
                at + 4 + rest,
            )
            &&& block.value_start(i) == at + 6 + rest
            &&& block.value_end(i) == at + 6 + rest + value_len
            &&& block.value_at(i) == data.subrange(at + 6 + rest, at + 6 + rest + value_len)
        }),
{
}

} // verus!
