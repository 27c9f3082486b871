use mini_lsm::block::builder::{compute_overlap, BlockBuilder};
use mini_lsm::block::iterator::BlockIterator;
use mini_lsm::block::Block;
use mini_lsm::key::{key_less, KeySlice, KeyVec};
use std::sync::Arc;

fn key(bytes: &[u8]) -> KeySlice<'_> {
    KeySlice::from_slice(bytes)
}

fn block_of(entries: &[(&[u8], &[u8])]) -> Arc<Block> {
    let mut builder = BlockBuilder::new(65535);
    for (k, v) in entries {
        assert!(builder.add(key(k), v));
    }
    Arc::new(builder.build())
}

fn entries_of(block: &Arc<Block>) -> Vec<(Vec<u8>, Vec<u8>)> {
    let mut r = Vec::new();
    let mut iter = BlockIterator::create_and_seek_to_first(block.clone());
    while iter.is_valid() {
        r.push((iter.key().raw_ref().to_vec(), iter.value().to_vec()));
        iter.next();
    }
    r
}

#[test]
fn overlap_is_the_common_prefix() {
    assert_eq!(compute_overlap(&key(b"apple"), &key(b"apply")), 4);
    assert_eq!(compute_overlap(&key(b"ab"), &key(b"abc")), 2);
    assert_eq!(compute_overlap(&key(b"abc"), &key(b"ab")), 2);
    assert_eq!(compute_overlap(&key(b"x"), &key(b"y")), 0);
    assert_eq!(compute_overlap(&key(b""), &key(b"y")), 0);
}

#[test]
fn keys_are_ordered_by_their_bytes() {
    assert!(key_less(b"a", b"b"));
    assert!(key_less(b"", b"a"));
    assert!(key_less(b"ab", b"abc"));
    assert!(!key_less(b"abc", b"ab"));
    assert!(!key_less(b"a", b"a"));
    assert!(key_less(&[0x7f], &[0x80]));
}

#[test]
fn block_bytes() {
    let block = block_of(&[(b"key1", b"v"), (b"key22", b"wx"), (b"l", b"")]);
    let mut expected: Vec<u8> = Vec::new();
    expected.extend([0, 0, 0, 4]);
    expected.extend(b"key1");
    expected.extend([0, 1]);
    expected.extend(b"v");
    expected.extend([0, 3, 0, 2]);
    expected.extend(b"22");
    expected.extend([0, 2]);
    expected.extend(b"wx");
    expected.extend([0, 0, 0, 1]);
    expected.extend(b"l");
    expected.extend([0, 0]);
    assert_eq!(block.data, expected);
    assert_eq!(block.offsets, vec![0, 11, 21]);
    assert_eq!(block.get_first_key().raw_ref(), b"key1");
}

#[test]
fn long_value_has_a_high_length_byte() {
    let value = vec![7u8; 0x1234];
    let block = block_of(&[(b"k", &value), (b"l", b"z")]);
    assert_eq!(&block.data[..7], &[0, 0, 0, 1, b'k', 0x12, 0x34]);
    assert_eq!(block.offsets, vec![0, 7 + 0x1234]);
}

#[test]
fn builder_reports_its_size_and_fills_up() {
    let mut builder = BlockBuilder::new(40);
    assert!(builder.is_empty());
    assert_eq!(builder.estimated_size(), 2);
    assert!(builder.add(key(b"aaaa"), b"1111"));
    assert!(!builder.is_empty());
    assert_eq!(builder.estimated_size(), 2 + 2 + 14);
    // 18 + 8 + 8 + 6 is just the size, and sharing bytes makes the block smaller.
    assert!(builder.add(key(b"aaaabbbb"), b"22222222"));
    assert_eq!(builder.estimated_size(), 18 + 2 + 6 + 4 + 8);
    assert!(!builder.add(key(b"b"), b""));
    assert_eq!(builder.estimated_size(), 38);
    let block = Arc::new(builder.build());
    assert_eq!(block.offsets.len(), 2);
}

#[test]
fn entry_one_byte_too_large_is_refused() {
    let mut builder = BlockBuilder::new(39);
    assert!(builder.add(key(b"aaaa"), b"1111"));
    assert!(!builder.add(key(b"aaaabbbb"), b"22222222"));
    assert!(builder.add(key(b"aaaabbbb"), b"2222222"));
}

#[test]
fn first_entry_is_taken_whatever_its_size() {
    let mut builder = BlockBuilder::new(1);
    assert!(builder.add(key(b"aaaa"), &[1; 100]));
    assert!(!builder.add(key(b"b"), b""));
    assert_eq!(entries_of(&Arc::new(builder.build())), vec![(b"aaaa".to_vec(), vec![1; 100])]);
}

#[test]
fn second_entry_may_exceed_the_size_by_an_offset() {
    let mut builder = BlockBuilder::new(26);
    assert!(builder.add(key(b"aaaa"), b"1111"));
    assert!(builder.add(key(b"b"), b"2"));
    assert_eq!(builder.estimated_size(), 28);
}

#[test]
fn what_was_added_is_read_back() {
    let mut entries: Vec<(Vec<u8>, Vec<u8>)> = Vec::new();
    for i in 0..200u32 {
        let k = format!("key_{:03}", i * 5).into_bytes();
        let v = vec![i as u8; (i % 17) as usize];
        entries.push((k, v));
    }
    let mut builder = BlockBuilder::new(60000);
    for (k, v) in &entries {
        assert!(builder.add(key(k), v));
    }
    assert_eq!(entries_of(&Arc::new(builder.build())), entries);
}

#[test]
fn keys_need_not_share_bytes_or_ascend() {
    let entries: Vec<(&[u8], &[u8])> = vec![(b"m", b"1"), (b"a", b"2"), (b"mm", b""), (b"m", b"3")];
    let got = entries_of(&block_of(&entries));
    let expected: Vec<(Vec<u8>, Vec<u8>)> =
        entries.iter().map(|(k, v)| (k.to_vec(), v.to_vec())).collect();
    assert_eq!(got, expected);
}

#[test]
fn seek_finds_the_first_key_not_below() {
    let mut names: Vec<Vec<u8>> = Vec::new();
    for i in 0..50u32 {
        names.push(format!("k{:02}", 2 * i).into_bytes());
    }
    let mut builder = BlockBuilder::new(60000);
    for n in &names {
        assert!(builder.add(key(n), n));
    }
    let block = Arc::new(builder.build());
    for i in 0..100u32 {
        let sought = format!("k{:02}", i).into_bytes();
        let iter = BlockIterator::create_and_seek_to_key(block.clone(), key(&sought));
        let first = names.iter().find(|n| **n >= sought);
        match first {
            Some(n) => {
                assert!(iter.is_valid());
                assert_eq!(iter.key().raw_ref(), n.as_slice());
                assert_eq!(iter.value(), n.as_slice());
            }
            None => assert!(!iter.is_valid()),
        }
    }
}

#[test]
fn seek_to_a_repeated_key_finds_the_first_of_them() {
    let block = block_of(&[(b"a", b"1"), (b"b", b"2"), (b"b", b"3"), (b"c", b"4")]);
    let mut iter = BlockIterator::create_and_seek_to_key(block, key(b"b"));
    assert_eq!(iter.value(), b"2");
    iter.next();
    assert_eq!(iter.value(), b"3");
    iter.seek_to_key(key(b"a"));
    assert_eq!(iter.value(), b"1");
}

#[test]
fn seek_past_the_end_and_back() {
    let block = block_of(&[(b"a", b"1"), (b"b", b"2")]);
    let mut iter = BlockIterator::create_and_seek_to_key(block, key(b"zz"));
    assert!(!iter.is_valid());
    iter.next();
    assert!(!iter.is_valid());
    iter.seek_to_first();
    assert_eq!(iter.key().raw_ref(), b"a");
    iter.seek_to_idx(1);
    assert_eq!(iter.key().raw_ref(), b"b");
    iter.seek_to_idx(2);
    assert!(!iter.is_valid());
}

#[test]
fn new_iterator_is_at_no_entry() {
    let iter = BlockIterator::new(block_of(&[(b"a", b"1")]));
    assert!(!iter.is_valid());
}

#[test]
fn lengths_keep_their_low_two_bytes() {
    let value = vec![9u8; 0x1_0003];
    let mut builder = BlockBuilder::new(10);
    assert!(builder.add(key(b"k"), &value));
    let block = Arc::new(builder.build());
    assert_eq!(&block.data[5..7], &[0, 3]);
    let iter = BlockIterator::create_and_seek_to_first(block);
    assert_eq!(iter.value(), &[9, 9, 9]);
}

#[test]
fn key_vec_operations() {
    let mut k = KeyVec::from_vec(b"ab".to_vec());
    k.append(b"cd");
    assert_eq!(k.raw_ref(), b"abcd");
    assert_eq!(k.len(), 4);
    assert_eq!(k.clone().raw_ref(), b"abcd");
    assert_eq!(k.as_key_slice().to_key_vec().raw_ref(), b"abcd");
    k.clear();
    assert!(k.is_empty());
    assert!(KeyVec::new().is_empty());
}
