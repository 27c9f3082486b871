use bytes::Bytes;
use crossbeam_skiplist::SkipMap;
use mini_lsm::wal::{checksum_input, encode_record, ByteOrder, RawRecord, Wal, WalError};
use std::hash::Hasher;

fn contents(map: &SkipMap<Bytes, Bytes>) -> Vec<(Vec<u8>, Vec<u8>)> {
    map.iter().map(|e| (e.key().to_vec(), e.value().to_vec())).collect()
}

fn native_wal() -> Wal {
    Wal::create(ByteOrder::native())
}

#[test]
fn native_order_is_that_of_the_machine() {
    let expected = if 1u16.to_ne_bytes() == [1, 0] { ByteOrder::Little } else { ByteOrder::Big };
    assert_eq!(ByteOrder::native(), expected);
}

#[test]
fn order_is_read_off_the_bytes_of_one() {
    assert_eq!(ByteOrder::of_one([1, 0]), ByteOrder::Little);
    assert_eq!(ByteOrder::of_one([0, 1]), ByteOrder::Big);
}

#[test]
fn record_layout() {
    let record = encode_record(b"key", b"value", 0x0102_0304);
    let mut expected = vec![0, 3];
    expected.extend(b"key");
    expected.extend([0, 5]);
    expected.extend(b"value");
    expected.extend([1, 2, 3, 4]);
    assert_eq!(record, expected);
}

#[test]
fn checksum_is_taken_of_lengths_in_machine_order() {
    assert_eq!(checksum_input(ByteOrder::Big, b"k", b"vw"), vec![0, 1, b'k', 0, 2, b'v', b'w']);
    assert_eq!(checksum_input(ByteOrder::Little, b"k", b"vw"), vec![1, 0, b'k', 2, 0, b'v', b'w']);
}

#[test]
fn put_ends_with_the_checksum() {
    let wal = Wal::create(ByteOrder::Little);
    let record = wal.put(b"k", b"vw");
    let crc = crc32fast::hash(&[1, 0, b'k', 2, 0, b'v', b'w']);
    assert_eq!(record, encode_record(b"k", b"vw", crc));
    assert_eq!(&record[7..], &crc.to_be_bytes());
}

#[test]
fn checksum_is_that_of_a_hasher_fed_piece_by_piece() {
    let key = b"some key";
    let value = vec![5u8; 300];
    let mut hasher = crc32fast::Hasher::new();
    hasher.write_u16(key.len() as u16);
    hasher.write(key);
    hasher.write_u16(value.len() as u16);
    hasher.write(&value);
    let record = native_wal().put(key, &value);
    assert_eq!(&record[record.len() - 4..], &hasher.finalize().to_be_bytes());
}

#[test]
fn checksum_of_known_bytes() {
    // The checksum of four zero bytes.
    let record = Wal::create(ByteOrder::Big).put(b"", b"");
    assert_eq!(record, vec![0, 0, 0, 0, 0x21, 0x44, 0xdf, 0x1c]);
}

#[test]
fn log_is_read_back() {
    let wal = native_wal();
    let mut log = Vec::new();
    log.extend(wal.put(b"b", b"1"));
    log.extend(wal.put(b"a", b""));
    log.extend(wal.put(b"b", b"22"));
    log.extend(wal.put(b"", b"x"));
    let mut map = SkipMap::new();
    assert_eq!(wal.recover(&log, &mut map), Ok(()));
    assert_eq!(
        contents(&map),
        vec![
            (b"".to_vec(), b"x".to_vec()),
            (b"a".to_vec(), b"".to_vec()),
            (b"b".to_vec(), b"22".to_vec()),
        ]
    );
}

#[test]
fn recovery_keeps_what_the_map_has() {
    let wal = native_wal();
    let mut map = SkipMap::new();
    map.insert(Bytes::from_static(b"old"), Bytes::from_static(b"1"));
    map.insert(Bytes::from_static(b"new"), Bytes::from_static(b"2"));
    assert_eq!(wal.recover(&wal.put(b"new", b"3"), &mut map), Ok(()));
    assert_eq!(
        contents(&map),
        vec![(b"new".to_vec(), b"3".to_vec()), (b"old".to_vec(), b"1".to_vec())]
    );
}

#[test]
fn empty_log_is_complete() {
    let mut map = SkipMap::new();
    assert_eq!(native_wal().recover(&[], &mut map), Ok(()));
    assert!(contents(&map).is_empty());
}

#[test]
fn wrong_checksum_ends_recovery() {
    let wal = native_wal();
    let mut log = wal.put(b"a", b"1");
    let start = log.len();
    log.extend(wal.put(b"b", b"2"));
    log.extend(wal.put(b"c", b"3"));
    log[start + 2] ^= 1;
    let mut map = SkipMap::new();
    assert_eq!(wal.recover(&log, &mut map), Err(WalError::ChecksumMismatch));
    assert_eq!(contents(&map), vec![(b"a".to_vec(), b"1".to_vec())]);
}

#[test]
fn other_byte_order_is_a_wrong_checksum() {
    let log = Wal::create(ByteOrder::Little).put(b"a", b"1");
    let mut map = SkipMap::new();
    let other = Wal::create(ByteOrder::Big);
    assert_eq!(other.recover(&log, &mut map), Err(WalError::ChecksumMismatch));
}

#[test]
fn torn_log_is_not_recovered() {
    let wal = native_wal();
    let whole = wal.put(b"a", b"1");
    let mut log = whole.clone();
    log.extend(wal.put(b"key", b"value"));
    for end in 0..=log.len() {
        let mut map = SkipMap::new();
        let r = wal.try_recover(&log[..end], &mut map);
        if end == 0 || end == whole.len() || end == log.len() {
            assert!(wal.is_whole(&log[..end]));
            assert_eq!(r, Some(Ok(())));
        } else {
            assert!(!wal.is_whole(&log[..end]));
            assert_eq!(r, None);
            assert!(contents(&map).is_empty());
        }
    }
}

#[test]
fn wrong_checksum_before_a_torn_record() {
    let wal = native_wal();
    let mut log = wal.put(b"a", b"1");
    let last = log.len() - 1;
    log[last] ^= 0x80;
    log.push(0);
    let mut map = SkipMap::new();
    assert_eq!(wal.try_recover(&log, &mut map), Some(Err(WalError::ChecksumMismatch)));
    assert!(contents(&map).is_empty());
}

#[test]
fn raw_record_is_read_whatever_its_checksum() {
    let mut bytes = encode_record(b"ab", b"c", 7);
    bytes.extend(b"rest");
    match RawRecord::read(&bytes) {
        Some(raw) => {
            assert_eq!(raw.key, b"ab");
            assert_eq!(raw.value, b"c");
            assert_eq!(raw.checksum, 7);
            assert_eq!(raw.rest, b"rest");
            assert_eq!(raw.verify(7), Ok(()));
            assert_eq!(raw.verify(8), Err(WalError::ChecksumMismatch));
        }
        None => panic!("a whole record is there"),
    }
    assert!(RawRecord::read(&bytes[..10]).is_none());
    assert!(RawRecord::read(&[0]).is_none());
    assert!(RawRecord::read(&[0xff, 0xff, 0, 0]).is_none());
}

#[test]
fn long_lengths_keep_their_low_two_bytes() {
    let value = vec![0u8; 0x1_0001];
    let record = encode_record(b"k", &value, 0);
    assert_eq!(&record[..5], &[0, 1, b'k', 0, 1]);
    assert_eq!(record.len(), 8 + 1 + 0x1_0001);
}

#[test]
fn last_write_of_a_key_counts() {
    let wal = native_wal();
    let mut log = Vec::new();
    for i in 0..20u8 {
        log.extend(wal.put(&[i % 3], &[i]));
    }
    let mut map = SkipMap::new();
    assert_eq!(wal.recover(&log, &mut map), Ok(()));
    assert_eq!(
        contents(&map),
        vec![(vec![0], vec![18]), (vec![1], vec![19]), (vec![2], vec![17])]
    );
}
