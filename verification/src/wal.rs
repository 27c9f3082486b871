//! The records of a write-ahead log: how writes are put into bytes and read back after a crash.
//!
//! A record is the length of the key, the key, the length of the value, the value and a checksum of
//! these four. The lengths take two bytes and the checksum four, high byte first. In what the
//! checksum is taken of, the bytes of the lengths stand in the order of the machine.

use crate::block::U16_SIZE;
use crate::buf::{
    advance, be16, be32, get_u16, get_u32, lemma_u16_at_be16, lemma_u32_at_be32, low16, low16_of,
    put_slice, put_u16, put_u32, u16_at, u32_at,
};
use crate::key::Entry;
use bytes::Bytes;
use crossbeam_skiplist::SkipMap;
use vstd::prelude::*;
use vstd::slice::slice_subrange;

verus! {

/// `bytes::Bytes`, a shared byte string.
#[verifier::external_type_specification]
#[verifier::external_body]
pub struct ExBytes(bytes::Bytes);

/// `crossbeam_skiplist::SkipMap`, an ordered map.
#[verifier::external_type_specification]
#[verifier::external_body]
#[verifier::reject_recursive_types(K)]
#[verifier::reject_recursive_types(V)]
pub struct ExSkipMap<K, V>(crossbeam_skiplist::SkipMap<K, V>);

/// The keys and values that a map holds.
pub uninterp spec fn skip_map_contents(m: SkipMap<Bytes, Bytes>) -> Map<Seq<u8>, Seq<u8>>;

/// `crossbeam_skiplist::SkipMap::insert` of copies of a key and a value, made by
/// `bytes::Bytes::copy_from_slice`: the map then holds the value for the key, in place of any it
/// held before. Keys are the same where their bytes are. The map is borrowed mutably, so that no
/// other thread changes it meanwhile.
#[verifier::external_body]
fn skip_map_insert(m: &mut SkipMap<Bytes, Bytes>, key: &[u8], value: &[u8])
    ensures
        skip_map_contents(*final(m)) == skip_map_contents(*old(m)).insert(key@, value@),
{
    m.insert(Bytes::copy_from_slice(key), Bytes::copy_from_slice(value));
}

/// The CRC-32 checksum of some bytes.
pub uninterp spec fn crc32(data: Seq<u8>) -> u32;

/// `crc32fast::hash`: the checksum of the bytes, the same for the same bytes.
#[verifier::external_body]
fn crc32_of(data: &[u8]) -> (r: u32)
    ensures
        r == crc32(data@),
{
    crc32fast::hash(data)
}

/// `u16::to_ne_bytes`: the two bytes of `n`, in one order or the other.
#[verifier::external_body]
fn native_bytes(n: u16) -> (r: [u8; 2])
    ensures
        r@ == ByteOrder::Big.bytes(n) || r@ == ByteOrder::Little.bytes(n),
{
    n.to_ne_bytes()
}

/// Whether `bytes` is what `u16::to_ne_bytes` returned for `n`.
pub closed spec fn machine_gives(n: u16, bytes: Seq<u8>) -> bool {
    exists|r: [u8; 2]| #[trigger] call_ensures(native_bytes, (n,), r) && r@ == bytes
}

/// The order of the bytes of a number.
#[derive(Debug, Clone, Copy, PartialEq, Eq, Structural)]
pub enum ByteOrder {
    /// The low byte first.
    Little,
    /// The high byte first.
    Big,
}

impl ByteOrder {
    /// The two bytes of `n` in this order.
    pub open spec fn bytes(self, n: u16) -> Seq<u8> {
        match self {
            ByteOrder::Big => be16(n),
            ByteOrder::Little => be16(n).reverse(),
        }
    }

    /// The order in which the two bytes of the number one stand.
    pub fn of_one(one: [u8; 2]) -> (r: ByteOrder)
        requires
            one@ == ByteOrder::Big.bytes(1) || one@ == ByteOrder::Little.bytes(1),
        ensures
            r.bytes(1) == one@,
            r is Little <==> one@[0] == 1,
    {
        if one[0] == 1 {
            ByteOrder::Little
        } else {
            ByteOrder::Big
        }
    }

    /// The order of the machine: that in which the machine gives the bytes of the number one.
    /// Which of the two it is, is not stated.
    pub fn native() -> (r: ByteOrder)
        ensures
            machine_gives(1, r.bytes(1)),
    {
        let one = native_bytes(1);
        let r = ByteOrder::of_one(one);
        assert(call_ensures(native_bytes, (1u16,), one));
        r
    }

    /// Appends the two bytes of `n`.
    fn put(self, buf: &mut Vec<u8>, n: u16)
        ensures
            final(buf)@ == old(buf)@ + self.bytes(n),
    {
        let high = (n / 256) as u8;
        let low = (n % 256) as u8;
        match self {
            ByteOrder::Big => {
                buf.push(high);
                buf.push(low);
            },
            ByteOrder::Little => {
                buf.push(low);
                buf.push(high);
            },
        }
        assert(buf@ =~= old(buf)@ + self.bytes(n));
    }
}

/// What the checksum of a record is taken of.
pub open spec fn checked_bytes(order: ByteOrder, e: Entry) -> Seq<u8> {
    order.bytes(low16(e.key.len())) + e.key + order.bytes(low16(e.value.len())) + e.value
}

/// The bytes of a record with the given checksum.
pub open spec fn record_bytes(e: Entry, checksum: u32) -> Seq<u8> {
    be16(low16(e.key.len())) + e.key + be16(low16(e.value.len())) + e.value + be32(checksum)
}

/// The bytes of the record of a write.
pub open spec fn record(order: ByteOrder, e: Entry) -> Seq<u8> {
    record_bytes(e, crc32(checked_bytes(order, e)))
}

/// The records of some writes, one after the other.
pub open spec fn log(order: ByteOrder, writes: Seq<Entry>) -> Seq<u8>
    decreases writes.len(),
{
    if writes.len() == 0 {
        Seq::empty()
    } else {
        record(order, writes[0]) + log(order, writes.drop_first())
    }
}

/// The length of the key of the record at the start of `s`.
pub open spec fn key_len(s: Seq<u8>) -> int {
    u16_at(s, 0) as int
}

/// The length of the value of the record at the start of `s`.
pub open spec fn value_len(s: Seq<u8>) -> int {
    u16_at(s, 2 + key_len(s)) as int
}

/// The length of the record at the start of `s`.
pub open spec fn record_len(s: Seq<u8>) -> int {
    8 + key_len(s) + value_len(s)
}

/// Whether `s` starts with a whole record, whatever its checksum.
pub open spec fn has_record(s: Seq<u8>) -> bool {
    &&& s.len() >= 2
    &&& s.len() >= 4 + key_len(s)
    &&& s.len() >= record_len(s)
}

/// The write of the record at the start of `s`.
pub open spec fn first_write(s: Seq<u8>) -> Entry {
    Entry {
        key: s.subrange(2, 2 + key_len(s)),
        value: s.subrange(4 + key_len(s), 4 + key_len(s) + value_len(s)),
    }
}

/// The checksum of the record at the start of `s`.
pub open spec fn first_checksum(s: Seq<u8>) -> u32 {
    u32_at(s, record_len(s) - 4)
}

/// How reading a log ends.
pub enum Outcome {
    /// All of it was read.
    Complete,
    /// The checksum of a record is not that of its bytes.
    ChecksumMismatch,
    /// The log ends inside a record.
    Truncated,
}

/// The writes that are read from a log, up to its end or to the first fault.
#[verifier::ext_equal]
pub struct Replay {
    pub writes: Seq<Entry>,
    pub outcome: Outcome,
}

/// What is read from the log `s`.
pub open spec fn replay(order: ByteOrder, s: Seq<u8>) -> Replay
    decreases s.len(),
{
    if s.len() == 0 {
        Replay { writes: Seq::empty(), outcome: Outcome::Complete }
    } else if !has_record(s) {
        Replay { writes: Seq::empty(), outcome: Outcome::Truncated }
    } else if first_checksum(s) != crc32(checked_bytes(order, first_write(s))) {
        Replay { writes: Seq::empty(), outcome: Outcome::ChecksumMismatch }
    } else {
        let rest = replay(order, s.skip(record_len(s)));
        Replay { writes: seq![first_write(s)] + rest.writes, outcome: rest.outcome }
    }
}

/// The map `m` after some writes, in their order.
pub open spec fn written(m: Map<Seq<u8>, Seq<u8>>, writes: Seq<Entry>) -> Map<Seq<u8>, Seq<u8>>
    decreases writes.len(),
{
    if writes.len() == 0 {
        m
    } else {
        written(m.insert(writes[0].key, writes[0].value), writes.drop_first())
    }
}

/// Whether the lengths of the write take two bytes each.
pub open spec fn fits_record(e: Entry) -> bool {
    e.key.len() < 0x1_0000 && e.value.len() < 0x1_0000
}

/// The record of a write is read back as the write, whatever follows it.
proof fn lemma_record_fields(e: Entry, checksum: u32, rest: Seq<u8>)
    requires
        fits_record(e),
    ensures
        ({
            let s = record_bytes(e, checksum) + rest;
            &&& has_record(s)
            &&& first_write(s) == e
            &&& first_checksum(s) == checksum
            &&& s.skip(record_len(s)) == rest
        }),
{
    let s = record_bytes(e, checksum) + rest;
    let k = e.key.len() as int;
    let v = e.value.len() as int;
    assert(s.subrange(0, 2) =~= be16(low16(e.key.len())));
    lemma_u16_at_be16(s, 0, low16(e.key.len()));
    assert(key_len(s) == k);
    assert(s.subrange(2 + k, 4 + k) =~= be16(low16(e.value.len())));
    lemma_u16_at_be16(s, 2 + k, low16(e.value.len()));
    assert(value_len(s) == v);
    assert(s.subrange(2, 2 + k) =~= e.key);
    assert(s.subrange(4 + k, 4 + k + v) =~= e.value);
    assert(s.subrange(4 + k + v, 8 + k + v) =~= be32(checksum));
    lemma_u32_at_be32(s, 4 + k + v, checksum);
    assert(s.skip(record_len(s)) =~= rest);
}

proof fn lemma_add_associative<A>(a: Seq<A>, b: Seq<A>, c: Seq<A>)
    ensures
        (a + b) + c == a + (b + c),
{
    assert((a + b) + c =~= a + (b + c));
}

/// Reading a log that starts with the record of a write gives the write and then what follows.
proof fn lemma_replay_record(order: ByteOrder, e: Entry, rest: Seq<u8>)
    requires
        fits_record(e),
    ensures
        replay(order, record(order, e) + rest).writes == seq![e] + replay(order, rest).writes,
        replay(order, record(order, e) + rest).outcome == replay(order, rest).outcome,
{
    lemma_record_fields(e, crc32(checked_bytes(order, e)), rest);
}

/// A log is read back as the writes that were put into it, and then what follows it is read. A
/// length that needs more than two bytes is cut off, so this is of writes whose lengths do not.
pub proof fn lemma_replay_log(order: ByteOrder, writes: Seq<Entry>, rest: Seq<u8>)
    requires
        forall|i: int| 0 <= i < writes.len() ==> fits_record(#[trigger] writes[i]),
    ensures
        replay(order, log(order, writes) + rest).writes == writes + replay(order, rest).writes,
        replay(order, log(order, writes) + rest).outcome == replay(order, rest).outcome,
    decreases writes.len(),
{
    if writes.len() == 0 {
        assert(log(order, writes) + rest =~= rest);
        assert(writes + replay(order, rest).writes =~= replay(order, rest).writes);
    } else {
        let e = writes[0];
        let tail = log(order, writes.drop_first()) + rest;
        lemma_replay_record(order, e, tail);
        lemma_replay_log(order, writes.drop_first(), rest);
        lemma_add_associative(record(order, e), log(order, writes.drop_first()), rest);
        lemma_add_associative(seq![e], writes.drop_first(), replay(order, rest).writes);
        assert(seq![e] + writes.drop_first() =~= writes);
    }
}

/// A log of some writes and no more is complete, and gives the writes.
pub proof fn lemma_replay_whole_log(order: ByteOrder, writes: Seq<Entry>)
    requires
        forall|i: int| 0 <= i < writes.len() ==> fits_record(#[trigger] writes[i]),
    ensures
        replay(order, log(order, writes)) == (Replay { writes, outcome: Outcome::Complete }),
{
    lemma_replay_log(order, writes, Seq::empty());
    assert(log(order, writes) + Seq::<u8>::empty() =~= log(order, writes));
    assert(writes + Seq::<Entry>::empty() =~= writes);
}

/// A write appended to a log stands behind the others.
pub proof fn lemma_log_push(order: ByteOrder, writes: Seq<Entry>, e: Entry)
    ensures
        log(order, writes.push(e)) == log(order, writes) + record(order, e),
    decreases writes.len(),
{
    if writes.len() == 0 {
        assert(writes.push(e).drop_first() =~= Seq::empty());
        assert(log(order, Seq::<Entry>::empty()) =~= Seq::empty());
        assert(log(order, writes.push(e)) =~= log(order, writes) + record(order, e));
    } else {
        assert(writes.push(e).drop_first() =~= writes.drop_first().push(e));
        lemma_log_push(order, writes.drop_first(), e);
        assert(log(order, writes.push(e)) =~= log(order, writes) + record(order, e));
    }
}

/// The bytes of a number in the two orders: one has the high byte first, the other the low byte.
pub proof fn lemma_byte_orders(n: u16)
    ensures
        ByteOrder::Big.bytes(n).len() == 2,
        ByteOrder::Big.bytes(n)[0] * 256 + ByteOrder::Big.bytes(n)[1] == n,
        ByteOrder::Little.bytes(n).len() == 2,
        ByteOrder::Little.bytes(n)[1] * 256 + ByteOrder::Little.bytes(n)[0] == n,
{
}

/// What is under the checksum: the lengths and all bytes of the key and of the value.
pub proof fn lemma_all_bytes_are_checked(order: ByteOrder, e: Entry)
    ensures
        ({
            let k = e.key.len() as int;
            let v = e.value.len() as int;
            let checked = checked_bytes(order, e);
            &&& checked.len() == 4 + k + v
            &&& checked.subrange(0, 2) == order.bytes((k % 0x1_0000) as u16)
            &&& checked.subrange(2, 2 + k) == e.key
            &&& checked.subrange(2 + k, 4 + k) == order.bytes((v % 0x1_0000) as u16)
            &&& checked.subrange(4 + k, 4 + k + v) == e.value
        }),
{
    let k = e.key.len() as int;
    let v = e.value.len() as int;
    let checked = checked_bytes(order, e);
    assert(checked.subrange(0, 2) =~= order.bytes(low16(e.key.len())));
    assert(checked.subrange(2, 2 + k) =~= e.key);
    assert(checked.subrange(2 + k, 4 + k) =~= order.bytes(low16(e.value.len())));
    assert(checked.subrange(4 + k, 4 + k + v) =~= e.value);
}

/// The bytes under the checksum determine the write: no two writes have the same ones, so that no
/// byte of a key or of a value can change unchecked.
pub proof fn lemma_checked_bytes_injective(order: ByteOrder, a: Entry, b: Entry)
    requires
        a.key.len() < 0x1_0000,
        a.value.len() < 0x1_0000,
        b.key.len() < 0x1_0000,
        b.value.len() < 0x1_0000,
        checked_bytes(order, a) == checked_bytes(order, b),
    ensures
        a == b,
{
    lemma_all_bytes_are_checked(order, a);
    lemma_all_bytes_are_checked(order, b);
    let s = checked_bytes(order, a);
    assert(s.skip(4 + a.key.len() as int) =~= s.subrange(4 + a.key.len() as int, s.len() as int));
    assert(s.skip(4 + b.key.len() as int) =~= s.subrange(4 + b.key.len() as int, s.len() as int));
    lemma_parts_determine_write(order, s, a, b);
}

proof fn lemma_parts_determine_write(order: ByteOrder, s: Seq<u8>, a: Entry, b: Entry)
    requires
        a.key.len() < 0x1_0000,
        b.key.len() < 0x1_0000,
        s.len() == 4 + a.key.len() + a.value.len(),
        s.len() == 4 + b.key.len() + b.value.len(),
        s.subrange(0, 2) == order.bytes((a.key.len() % 0x1_0000) as u16),
        s.subrange(0, 2) == order.bytes((b.key.len() % 0x1_0000) as u16),
        s.subrange(2, 2 + a.key.len() as int) == a.key,
        s.subrange(2, 2 + b.key.len() as int) == b.key,
        s.skip(4 + a.key.len() as int) == a.value,
        s.skip(4 + b.key.len() as int) == b.value,
    ensures
        a == b,
{
    lemma_order_injective(order, a.key.len() as u16, b.key.len() as u16);
}

proof fn lemma_order_injective(order: ByteOrder, m: u16, n: u16)
    requires
        order.bytes(m) == order.bytes(n),
    ensures
        m == n,
{
    lemma_byte_orders(m);
    lemma_byte_orders(n);
}

/// The layout of the record of a write: the length of the key, the key, the length of the value,
/// the value, and the checksum of the bytes under it.
pub proof fn lemma_record_layout(order: ByteOrder, e: Entry)
    ensures
        ({
            let k = e.key.len() as int;
            let v = e.value.len() as int;
            let r = record(order, e);
            &&& r.len() == 8 + k + v
            &&& r[0] * 256 + r[1] == k % 0x1_0000
            &&& r.subrange(2, 2 + k) == e.key
            &&& r[2 + k] * 256 + r[3 + k] == v % 0x1_0000
            &&& r.subrange(4 + k, 4 + k + v) == e.value
            &&& r[4 + k + v] * 0x100_0000 + r[5 + k + v] * 0x1_0000 + r[6 + k + v] * 0x100 + r[7 + k
                + v] == crc32(
                order.bytes((k % 0x1_0000) as u16) + e.key + order.bytes((v % 0x1_0000) as u16)
                    + e.value,
            )
            &&& forall|c: u32| #[trigger]
                record_bytes(e, c) == r.take(4 + k + v) + be32(c)
        }),
{
    let k = e.key.len() as int;
    let v = e.value.len() as int;
    let r = record(order, e);
    let under = order.bytes((k % 0x1_0000) as u16) + e.key + order.bytes((v % 0x1_0000) as u16)
        + e.value;
    lemma_all_bytes_are_checked(order, e);
    assert(checked_bytes(order, e) =~= under) by {
        let checked = checked_bytes(order, e);
        assert(checked =~= checked.subrange(0, 2) + checked.subrange(2, 2 + k) + checked.subrange(
            2 + k,
            4 + k,
        ) + checked.subrange(4 + k, 4 + k + v));
    }
    assert(r.subrange(2, 2 + k) =~= e.key);
    assert(r.subrange(4 + k, 4 + k + v) =~= e.value);
    assert forall|c: u32| #[trigger] record_bytes(e, c) == r.take(4 + k + v) + be32(c) by {
        assert(record_bytes(e, c) =~= r.take(4 + k + v) + be32(c));
    }
}

/// A log is empty or starts with the record of its first write.
pub proof fn lemma_log_starts(order: ByteOrder, e: Entry, rest: Seq<Entry>)
    ensures
        log(order, Seq::empty()) == Seq::<u8>::empty(),
        log(order, seq![e] + rest) == record(order, e) + log(order, rest),
{
    assert((seq![e] + rest).drop_first() =~= rest);
}

/// A whole record is read as its write and checksum, whatever these are and whatever follows.
pub proof fn lemma_record_is_read(s: Seq<u8>, e: Entry, checksum: u32, rest: Seq<u8>)
    requires
        e.key.len() < 0x1_0000,
        e.value.len() < 0x1_0000,
        s == be16(e.key.len() as u16) + e.key + be16(e.value.len() as u16) + e.value + be32(
            checksum,
        ) + rest,
    ensures
        has_record(s),
        first_write(s) == e,
        first_checksum(s) == checksum,
        record_len(s) == 8 + e.key.len() + e.value.len(),
        s.skip(record_len(s)) == rest,
{
    assert(low16(e.key.len()) == e.key.len() && low16(e.value.len()) == e.value.len());
    lemma_record_fields(e, checksum, rest);
    assert(s == record_bytes(e, checksum) + rest);
    assert(key_len(s) == first_write(s).key.len());
    assert(value_len(s) == first_write(s).value.len());
}

proof fn lemma_checked_bytes_of_short(order: ByteOrder, e: Entry)
    requires
        e.key.len() < 0x1_0000,
        e.value.len() < 0x1_0000,
    ensures
        checked_bytes(order, e) == order.bytes(e.key.len() as u16) + e.key + order.bytes(
            e.value.len() as u16,
        ) + e.value,
{
    assert(low16(e.key.len()) == e.key.len() as u16);
    assert(low16(e.value.len()) == e.value.len() as u16);
}

/// A record with any checksum but its own ends the reading of a log there, as a mismatch, with none
/// of its write; one with its own checksum gives its write, and then what follows is read.
pub proof fn lemma_wrong_checksum_is_found(
    order: ByteOrder,
    s: Seq<u8>,
    e: Entry,
    checksum: u32,
    rest: Seq<u8>,
    own: u32,
)
    requires
        e.key.len() < 0x1_0000,
        e.value.len() < 0x1_0000,
        s == be16(e.key.len() as u16) + e.key + be16(e.value.len() as u16) + e.value + be32(
            checksum,
        ) + rest,
        own == crc32(
            order.bytes(e.key.len() as u16) + e.key + order.bytes(e.value.len() as u16) + e.value,
        ),
    ensures
        checksum != own ==> replay(order, s).outcome is ChecksumMismatch,
        checksum != own ==> replay(order, s).writes.len() == 0,
        checksum == own ==> replay(order, s).outcome == replay(order, rest).outcome,
        checksum == own ==> replay(order, s).writes == seq![e] + replay(order, rest).writes,
{
    lemma_checked_bytes_of_short(order, e);
    lemma_record_is_read(s, e, checksum, rest);
    lemma_replay_step(order, s, rest, e, checksum);
}

/// Reading the record at the start of a log.
proof fn lemma_replay_step(order: ByteOrder, s: Seq<u8>, rest: Seq<u8>, e: Entry, checksum: u32)
    requires
        has_record(s),
        first_write(s) == e,
        first_checksum(s) == checksum,
        s.skip(record_len(s)) == rest,
    ensures
        ({
            let own = crc32(checked_bytes(order, e));
            let r = replay(order, s);
            &&& checksum != own ==> r.outcome is ChecksumMismatch && r.writes.len() == 0
            &&& checksum == own ==> r.outcome == replay(order, rest).outcome && r.writes == seq![e]
                + replay(order, rest).writes
        }),
{
}

/// A log that ends inside its first record is cut off, and nothing is read from it; an empty log is
/// complete.
pub proof fn lemma_torn_record_is_found(
    order: ByteOrder,
    key: Seq<u8>,
    value: Seq<u8>,
    checksum: u32,
    n: int,
)
    requires
        key.len() < 0x1_0000,
        value.len() < 0x1_0000,
        0 <= n < 8 + key.len() + value.len(),
    ensures
        ({
            let s = (be16(key.len() as u16) + key + be16(value.len() as u16) + value + be32(
                checksum,
            )).take(n);
            &&& !has_record(s)
            &&& replay(order, s).writes.len() == 0
            &&& n > 0 ==> replay(order, s).outcome is Truncated
            &&& n == 0 ==> replay(order, s).outcome is Complete
        }),
{
    let whole = be16(key.len() as u16) + key + be16(value.len() as u16) + value + be32(checksum);
    let s = whole.take(n);
    let k = key.len() as int;
    if n >= 2 {
        assert(s[0] == whole[0] && s[1] == whole[1]);
        assert(whole[0] == be16(key.len() as u16)[0] && whole[1] == be16(key.len() as u16)[1]);
        assert(key_len(s) == k);
        if n >= 4 + k {
            assert(s[2 + k] == be16(value.len() as u16)[0]);
            assert(s[3 + k] == be16(value.len() as u16)[1]);
            assert(value_len(s) == value.len());
        }
    }
}

/// Writing nothing changes nothing, and a write is done on what the writes before it left.
pub proof fn lemma_written_push(m: Map<Seq<u8>, Seq<u8>>, writes: Seq<Entry>, e: Entry)
    ensures
        written(m, Seq::empty()) == m,
        written(m, writes.push(e)) == written(m, writes).insert(e.key, e.value),
    decreases writes.len(),
{
    if writes.len() == 0 {
        assert(writes.push(e).drop_first() =~= Seq::empty());
        assert(written(m.insert(e.key, e.value), Seq::empty()) == m.insert(e.key, e.value));
    } else {
        assert(writes.push(e).drop_first() =~= writes.drop_first().push(e));
        lemma_written_push(
            m.insert(writes[0].key, writes[0].value),
            writes.drop_first(),
            e,
        );
    }
}

/// The writes of a log are read back, for all keys and values whose lengths take two bytes.
pub proof fn lemma_log_is_read_back(order: ByteOrder, writes: Seq<Entry>)
    requires
        forall|i: int|
            0 <= i < writes.len() ==> (#[trigger] writes[i]).key.len() < 0x1_0000
                && writes[i].value.len() < 0x1_0000,
    ensures
        replay(order, log(order, writes)).writes == writes,
        replay(order, log(order, writes)).outcome is Complete,
{
    assert forall|i: int| 0 <= i < writes.len() implies fits_record(#[trigger] writes[i]) by {}
    lemma_replay_whole_log(order, writes);
}

/// Of the writes to a key the last one counts; a key without a write keeps its value.
pub proof fn lemma_last_write_counts(m: Map<Seq<u8>, Seq<u8>>, writes: Seq<Entry>, i: int)
    requires
        0 <= i < writes.len(),
        forall|j: int| i < j < writes.len() ==> (#[trigger] writes[j]).key != writes[i].key,
    ensures
        written(m, writes).contains_key(writes[i].key),
        written(m, writes)[writes[i].key] == writes[i].value,
    decreases writes.len(),
{
    let first = m.insert(writes[0].key, writes[0].value);
    let rest = writes.drop_first();
    if i == 0 {
        assert forall|j: int| 0 <= j < rest.len() implies (#[trigger] rest[j]).key
            != writes[0].key by {
            assert(rest[j] == writes[j + 1]);
        }
        lemma_unwritten_key_stays(first, rest, writes[0].key);
    } else {
        assert forall|j: int| i - 1 < j < rest.len() implies (#[trigger] rest[j]).key != rest[i
            - 1].key by {
            assert(rest[j] == writes[j + 1]);
        }
        lemma_last_write_counts(first, rest, i - 1);
    }
}

/// A key that is not written keeps its value, or stays without one.
pub proof fn lemma_unwritten_key_stays(m: Map<Seq<u8>, Seq<u8>>, writes: Seq<Entry>, key: Seq<u8>)
    requires
        forall|j: int| 0 <= j < writes.len() ==> (#[trigger] writes[j]).key != key,
    ensures
        written(m, writes).contains_key(key) == m.contains_key(key),
        m.contains_key(key) ==> written(m, writes)[key] == m[key],
    decreases writes.len(),
{
    if writes.len() > 0 {
        let rest = writes.drop_first();
        assert forall|j: int| 0 <= j < rest.len() implies (#[trigger] rest[j]).key != key by {
            assert(rest[j] == writes[j + 1]);
        }
        lemma_unwritten_key_stays(m.insert(writes[0].key, writes[0].value), rest, key);
    }
}

/// Why a log cannot be read.
#[derive(Debug, Clone, Copy, PartialEq, Eq, Structural)]
pub enum WalError {
    /// The checksum of a record is not that of its bytes.
    ChecksumMismatch,
}

/// A record as it is read, before its checksum is tested, and the bytes behind it.
pub struct RawRecord<'a> {
    pub key: &'a [u8],
    pub value: &'a [u8],
    pub checksum: u32,
    pub rest: &'a [u8],
}

impl<'a> RawRecord<'a> {
    /// The write of the record.
    pub open spec fn write(self) -> Entry {
        Entry { key: self.key@, value: self.value@ }
    }

    /// Reads the record at the start of the bytes, if a whole one is there.
    pub fn read(bytes: &'a [u8]) -> (r: Option<RawRecord<'a>>)
        ensures
            r is Some == has_record(bytes@),
            r matches Some(raw) ==> raw.write() == first_write(bytes@) && raw.checksum
                == first_checksum(bytes@) && raw.rest@ == bytes@.skip(record_len(bytes@)),
            r matches Some(raw) ==> raw.key@ == first_write(bytes@).key && raw.value@
                == first_write(bytes@).value,
    {
        let mut buf = bytes;
        if buf.len() < 2 {
            return None;
        }
        let key_len = get_u16(&mut buf) as usize;
        if buf.len() < key_len + 2 {
            return None;
        }
        let key = slice_subrange(buf, 0, key_len);
        assert(key@ =~= first_write(bytes@).key);
        advance(&mut buf, key_len);
        assert(buf@ =~= bytes@.skip(2 + key_len));
        let value_len = get_u16(&mut buf) as usize;
        if buf.len() < value_len + 4 {
            return None;
        }
        let value = slice_subrange(buf, 0, value_len);
        assert(value@ =~= first_write(bytes@).value);
        advance(&mut buf, value_len);
        assert(buf@ =~= bytes@.skip(4 + key_len + value_len));
        let checksum = get_u32(&mut buf);
        assert(buf@ =~= bytes@.skip(record_len(bytes@)));
        Some(RawRecord { key, value, checksum, rest: buf })
    }

    /// Tests the checksum of the record against the one computed of its bytes.
    pub fn verify(&self, computed: u32) -> (r: Result<(), WalError>)
        ensures
            r is Ok <==> self.checksum == computed,
            r == Err::<(), WalError>(WalError::ChecksumMismatch) <==> self.checksum != computed,
    {
        if self.checksum != computed {
            return Err(WalError::ChecksumMismatch);
        }
        Ok(())
    }
}

/// What the checksum of a record is taken of.
pub fn checksum_input(order: ByteOrder, key: &[u8], value: &[u8]) -> (r: Vec<u8>)
    requires
        key@.len() + value@.len() + 4 <= isize::MAX,
    ensures
        r@ == checked_bytes(order, Entry { key: key@, value: value@ }),
{
    let mut vec: Vec<u8> = Vec::with_capacity(key.len() + value.len() + 2 * U16_SIZE);
    order.put(&mut vec, low16_of(key.len()));
    put_slice(&mut vec, key);
    order.put(&mut vec, low16_of(value.len()));
    put_slice(&mut vec, value);
    assert(vec@ =~= checked_bytes(order, Entry { key: key@, value: value@ }));
    vec
}

/// The bytes of a record with the given checksum.
pub fn encode_record(key: &[u8], value: &[u8], checksum: u32) -> (r: Vec<u8>)
    requires
        key@.len() + value@.len() + 8 <= isize::MAX,
    ensures
        r@ == record_bytes(Entry { key: key@, value: value@ }, checksum),
{
    let mut vec: Vec<u8> = Vec::with_capacity(key.len() + value.len() + 4 * U16_SIZE);
    put_u16(&mut vec, low16_of(key.len()));
    put_slice(&mut vec, key);
    put_u16(&mut vec, low16_of(value.len()));
    put_slice(&mut vec, value);
    put_u32(&mut vec, checksum);
    assert(vec@ =~= record_bytes(Entry { key: key@, value: value@ }, checksum));
    vec
}

/// Writes and reads the records of a log.
pub struct Wal {
    order: ByteOrder,
}

impl View for Wal {
    type V = ByteOrder;

    closed spec fn view(&self) -> ByteOrder {
        self.order
    }
}

impl Wal {
    /// A log on a machine with this order of bytes.
    pub fn create(order: ByteOrder) -> (r: Wal)
        ensures
            r@ == order,
    {
        Wal { order }
    }

    /// The bytes to append to the log for a write.
    pub fn put(&self, key: &[u8], value: &[u8]) -> (r: Vec<u8>)
        requires
            key@.len() + value@.len() + 8 <= isize::MAX,
        ensures
            r@ == record(self@, Entry { key: key@, value: value@ }),
    {
        let checksum = crc32_of(checksum_input(self.order, key, value).as_slice());
        encode_record(key, value, checksum)
    }

    /// Does the writes of a log on a map, in their order, up to the first record whose checksum is
    /// wrong. The log must not end inside a record before that.
    pub fn recover(&self, bytes: &[u8], skiplist: &mut SkipMap<Bytes, Bytes>) -> (r: Result<
        (),
        WalError,
    >)
        requires
            !(replay(self@, bytes@).outcome is Truncated),
        ensures
            skip_map_contents(*final(skiplist)) == written(
                skip_map_contents(*old(skiplist)),
                replay(self@, bytes@).writes,
            ),
            r is Ok <==> replay(self@, bytes@).outcome is Complete,
            r == Err::<(), WalError>(WalError::ChecksumMismatch) <==> replay(
                self@,
                bytes@,
            ).outcome is ChecksumMismatch,
    {
        let mut buf = bytes;
        while buf.len() > 0
            invariant
                !(replay(self@, buf@).outcome is Truncated),
                replay(self@, buf@).outcome == replay(self@, bytes@).outcome,
                written(skip_map_contents(*skiplist), replay(self@, buf@).writes) == written(
                    skip_map_contents(*old(skiplist)),
                    replay(self@, bytes@).writes,
                ),
            decreases buf@.len(),
        {
            let raw = match RawRecord::read(buf) {
                Some(raw) => raw,
                None => {
                    return Ok(());
                },
            };
            let computed = crc32_of(checksum_input(self.order, raw.key, raw.value).as_slice());
            match raw.verify(computed) {
                Ok(()) => {},
                Err(e) => {
                    return Err(e);
                },
            }
            skip_map_insert(skiplist, raw.key, raw.value);
            proof {
                let writes = replay(self@, buf@).writes;
                assert(writes.drop_first() =~= replay(self@, raw.rest@).writes);
                assert(writes[0] == raw.write());
            }
            buf = raw.rest;
        }
        Ok(())
    }

    /// Whether a log does not end inside a record before the first record whose checksum is wrong.
    pub fn is_whole(&self, bytes: &[u8]) -> (r: bool)
        ensures
            r == !(replay(self@, bytes@).outcome is Truncated),
    {
        let mut buf = bytes;
        while buf.len() > 0
            invariant
                replay(self@, buf@).outcome == replay(self@, bytes@).outcome,
            decreases buf@.len(),
        {
            match RawRecord::read(buf) {
                Some(raw) => {
                    let computed = crc32_of(
                        checksum_input(self.order, raw.key, raw.value).as_slice(),
                    );
                    if raw.checksum != computed {
                        return true;
                    }
                    buf = raw.rest;
                },
                None => {
                    return false;
                },
            }
        }
        true
    }

    /// Does the writes of a log on a map as `recover` does. Returns `None`, and leaves the map as
    /// it is, where the log ends inside a record.
    pub fn try_recover(&self, bytes: &[u8], skiplist: &mut SkipMap<Bytes, Bytes>) -> (r: Option<
        Result<(), WalError>,
    >)
        ensures
            r is None <==> replay(self@, bytes@).outcome is Truncated,
            (r matches Some(Ok(_))) <==> replay(self@, bytes@).outcome is Complete,
            r == Some(Err::<(), WalError>(WalError::ChecksumMismatch)) <==> replay(
                self@,
                bytes@,
            ).outcome is ChecksumMismatch,
            skip_map_contents(*final(skiplist)) == (if r is None {
                skip_map_contents(*old(skiplist))
            } else {
                written(skip_map_contents(*old(skiplist)), replay(self@, bytes@).writes)
            }),
    {
        if self.is_whole(bytes) {
            Some(self.recover(bytes, skiplist))
        } else {
            None
        }
    }
}

} // verus!
