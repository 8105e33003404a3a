use std::sync::Arc;

use mini_lsm::iterators::{Error, StorageIterator};
use mini_lsm::lsm_iterator::{FusedIterator, LsmIterator};
use mini_lsm::mem_table::{KeyBound, MemTable, MemTableIterator};
use mini_lsm::merge_iterator::MergeIterator;
use mini_lsm::table::{BlockMeta, FileObject, SsTable};
use mini_lsm::table_builder::SsTableBuilder;
use mini_lsm::table_iterator::SsTableIterator;

// ---------------------------------------------------------------------
// MemTable
// ---------------------------------------------------------------------
#[test]
fn memtable_overwrite() {
    let mut mt = MemTable::create(0);
    mt.put(b"k", b"v1").unwrap();
    mt.put(b"k", b"v2").unwrap();
    assert_eq!(mt.get(b"k"), Some(b"v2".to_vec()));
}

#[test]
fn memtable_get_missing() {
    let mut mt = MemTable::create(0);
    mt.put(b"a", b"1").unwrap();
    assert_eq!(mt.get(b"b"), None);
}

#[test]
fn memtable_basics() {
    let mut mt = MemTable::create(7);
    assert_eq!(mt.id(), 7);
    assert!(mt.is_empty());
    assert_eq!(mt.approximate_size(), 0);
    mt.put(b"key", b"value").unwrap();
    assert!(!mt.is_empty());
    assert_eq!(mt.approximate_size(), 8);
    // Overwrite grows the estimate on purpose.
    mt.put(b"key", b"value").unwrap();
    assert_eq!(mt.approximate_size(), 16);
}

#[test]
fn memtable_testing_seams() {
    let mut mt = MemTable::create(0);
    mt.for_testing_put_slice(b"x", b"1").unwrap();
    assert_eq!(mt.for_testing_get_slice(b"x"), Some(b"1".to_vec()));
    let mut it = mt.for_testing_scan_slice(&KeyBound::Unbounded, &KeyBound::Unbounded);
    assert!(it.is_valid());
    assert_eq!(it.key(), b"x".to_vec());
    it.next().unwrap();
    assert!(!it.is_valid());
}

#[test]
fn memtable_scan_bounds() {
    let mut mt = MemTable::create(0);
    mt.put(b"a", b"1").unwrap();
    mt.put(b"b", b"2").unwrap();
    mt.put(b"c", b"3").unwrap();
    mt.put(b"d", b"4").unwrap();
    let mut it = mt.scan(
        &KeyBound::Excluded(b"a".to_vec()),
        &KeyBound::Included(b"c".to_vec()),
    );
    let mut seen: Vec<(Vec<u8>, Vec<u8>)> = Vec::new();
    while it.is_valid() {
        seen.push((it.key(), it.value()));
        it.next().unwrap();
    }
    assert_eq!(
        seen,
        vec![(b"b".to_vec(), b"2".to_vec()), (b"c".to_vec(), b"3".to_vec())]
    );
}

fn memtable_iter(pairs: &[(&[u8], &[u8])]) -> MemTableIterator {
    let mut mt = MemTable::create(0);
    for (k, v) in pairs {
        mt.put(k, v).unwrap();
    }
    mt.scan(&KeyBound::Unbounded, &KeyBound::Unbounded)
}

// ---------------------------------------------------------------------
// MergeIterator
// ---------------------------------------------------------------------
fn drain<I: StorageIterator>(mut it: I) -> Vec<(Vec<u8>, Vec<u8>)> {
    let mut out = Vec::new();
    while it.is_valid() {
        out.push((it.key(), it.value()));
        it.next().unwrap();
    }
    out
}

#[test]
fn merge_priority() {
    let a = memtable_iter(&[(b"a", b"A1"), (b"c", b"A3")]);
    let b = memtable_iter(&[(b"a", b"B1"), (b"b", b"B2")]);
    let merged = MergeIterator::create(vec![a, b]);
    assert_eq!(
        drain(merged),
        vec![
            (b"a".to_vec(), b"A1".to_vec()),
            (b"b".to_vec(), b"B2".to_vec()),
            (b"c".to_vec(), b"A3".to_vec()),
        ]
    );
}

#[test]
fn merge_tie_break_order() {
    // The same pairs spread differently over sources: the lower index wins
    // every duplicated key.
    let a = memtable_iter(&[(b"k1", b"top1"), (b"k2", b"top2")]);
    let b = memtable_iter(&[(b"k1", b"low1"), (b"k3", b"low3")]);
    let merged = MergeIterator::create(vec![a, b]);
    assert_eq!(
        drain(merged),
        vec![
            (b"k1".to_vec(), b"top1".to_vec()),
            (b"k2".to_vec(), b"top2".to_vec()),
            (b"k3".to_vec(), b"low3".to_vec()),
        ]
    );
}

#[test]
fn merge_of_empty_sources() {
    let a = memtable_iter(&[]);
    let b = memtable_iter(&[]);
    let merged = MergeIterator::create(vec![a, b]);
    assert!(!merged.is_valid());
}

#[test]
fn lsm_iterator_wraps_merge() {
    let a = memtable_iter(&[(b"a", b"1")]);
    let b = memtable_iter(&[(b"b", b"2")]);
    let merged = MergeIterator::create(vec![a, b]);
    let lsm = LsmIterator::new(merged).unwrap();
    assert_eq!(
        drain(lsm),
        vec![(b"a".to_vec(), b"1".to_vec()), (b"b".to_vec(), b"2".to_vec())]
    );
}

// ---------------------------------------------------------------------
// FusedIterator
// ---------------------------------------------------------------------
/// A source scripted to fail on its n-th advance.
struct FlakyIterator {
    items: Vec<(Vec<u8>, Vec<u8>)>,
    idx: usize,
    fail_on_call: usize,
    calls: usize,
}

impl StorageIterator for FlakyIterator {
    // The two specification items exist only for the verifier; nothing
    // ever calls them at run time.
    fn entries(&self) -> vstd::seq::Seq<(vstd::seq::Seq<u8>, vstd::seq::Seq<u8>)> {
        panic!()
    }

    fn inv(&self) -> bool {
        panic!()
    }

    fn infallible(&self) -> bool {
        panic!()
    }

    fn is_valid(&self) -> bool {
        self.idx < self.items.len()
    }

    fn key(&self) -> Vec<u8> {
        self.items[self.idx].0.clone()
    }

    fn value(&self) -> Vec<u8> {
        self.items[self.idx].1.clone()
    }

    fn next(&mut self) -> Result<(), Error> {
        self.calls += 1;
        if self.calls == self.fail_on_call {
            return Err(Error::IteratorErrored);
        }
        self.idx += 1;
        Ok(())
    }
}

#[test]
fn fused_error_is_absorbing() {
    let flaky = FlakyIterator {
        items: vec![
            (b"a".to_vec(), b"1".to_vec()),
            (b"b".to_vec(), b"2".to_vec()),
            (b"c".to_vec(), b"3".to_vec()),
        ],
        idx: 0,
        fail_on_call: 2,
        calls: 0,
    };
    let mut fused = FusedIterator::new(flaky);
    assert!(fused.is_valid());
    assert_eq!(fused.key(), b"a".to_vec());
    fused.next().unwrap();
    assert!(fused.is_valid());
    assert!(fused.next().is_err());
    assert!(!fused.is_valid());
    assert!(fused.next().is_err());
    assert!(fused.next().is_err());
    assert_eq!(fused.next(), Err(Error::IteratorErrored));
}

#[test]
fn fused_exhaustion_is_not_an_error() {
    let src = memtable_iter(&[(b"a", b"1")]);
    let mut fused = FusedIterator::new(src);
    fused.next().unwrap();
    assert!(!fused.is_valid());
    // Advancing an exhausted but unfailed iterator is a no-op success.
    assert!(fused.next().is_ok());
    assert!(!fused.is_valid());
}

// ---------------------------------------------------------------------
// FileObject
// ---------------------------------------------------------------------
#[test]
fn file_object_reads() {
    let f = FileObject::create(vec![1, 2, 3, 4, 5]);
    assert_eq!(f.size(), 5);
    assert_eq!(f.read(1, 3).unwrap(), vec![2, 3, 4]);
    assert_eq!(f.read(3, 3), Err(Error::ReadOutOfRange));
    assert_eq!(f.read(6, 0), Err(Error::ReadOutOfRange));
}

// ---------------------------------------------------------------------
// BlockMeta encode / decode
// ---------------------------------------------------------------------
#[test]
fn block_meta_round_trip() {
    let metas = vec![
        BlockMeta { offset: 0, first_key: b"aa".to_vec(), last_key: b"bb".to_vec() },
        BlockMeta { offset: 20, first_key: b"cc".to_vec(), last_key: b"dd".to_vec() },
    ];
    let mut buf: Vec<u8> = Vec::new();
    BlockMeta::encode_block_meta(&metas, &mut buf);
    let decoded = BlockMeta::decode_block_meta(&buf).unwrap();
    assert_eq!(decoded.len(), 2);
    assert_eq!(decoded[0].offset, 0);
    assert_eq!(decoded[0].first_key, b"aa".to_vec());
    assert_eq!(decoded[0].last_key, b"bb".to_vec());
    assert_eq!(decoded[1].offset, 20);
    assert_eq!(decoded[1].first_key, b"cc".to_vec());
    assert_eq!(decoded[1].last_key, b"dd".to_vec());
}

#[test]
fn block_meta_rejects_garbage() {
    assert!(BlockMeta::decode_block_meta(&[1, 2]).is_err());
    // A count of one with no record behind it.
    assert!(BlockMeta::decode_block_meta(&[0, 0, 0, 1]).is_err());
    // Trailing bytes after the declared records.
    let metas = vec![BlockMeta { offset: 0, first_key: b"a".to_vec(), last_key: b"a".to_vec() }];
    let mut buf: Vec<u8> = Vec::new();
    BlockMeta::encode_block_meta(&metas, &mut buf);
    buf.push(0);
    assert!(BlockMeta::decode_block_meta(&buf).is_err());
}

// ---------------------------------------------------------------------
// SsTable
// ---------------------------------------------------------------------
/// Four pairs sized so that exactly two entries fit per 64-byte block.
fn two_block_pairs() -> Vec<(Vec<u8>, Vec<u8>)> {
    vec![
        (b"key00001".to_vec(), b"value001".to_vec()),
        (b"key00002".to_vec(), b"value002".to_vec()),
        (b"key00003".to_vec(), b"value003".to_vec()),
        (b"key00004".to_vec(), b"value004".to_vec()),
    ]
}

fn build_two_block_table() -> SsTable {
    let mut builder = SsTableBuilder::new(64);
    for (k, v) in two_block_pairs() {
        builder.add(&k, &v);
    }
    builder.build(42)
}

#[test]
fn sst_scan() {
    let table = build_two_block_table();
    assert_eq!(table.num_of_blocks(), 2);
    assert_eq!(table.first_key().as_slice(), b"key00001");
    assert_eq!(table.last_key().as_slice(), b"key00004");
    assert_eq!(table.sst_id(), 42);
    assert_eq!(table.max_ts(), 0);
    let it = SsTableIterator::create_and_seek_to_first(Arc::new(table)).unwrap();
    let mut expected = Vec::new();
    for (k, v) in two_block_pairs() {
        expected.push((k, v));
    }
    let mut out = Vec::new();
    let mut it = it;
    while it.is_valid() {
        out.push((it.key(), it.value()));
        it.next().unwrap();
    }
    assert_eq!(out, expected);
}

#[test]
fn sst_round_trip_through_open() {
    let table = build_two_block_table();
    let bytes = table.file.read(0, table.table_size()).unwrap();
    let reopened = SsTable::open(42, FileObject::create(bytes)).unwrap();
    assert_eq!(reopened.num_of_blocks(), 2);
    assert_eq!(reopened.first_key().as_slice(), b"key00001");
    assert_eq!(reopened.last_key().as_slice(), b"key00004");
    let it = SsTableIterator::create_and_seek_to_first(Arc::new(reopened)).unwrap();
    assert_eq!(drain_sst(it).len(), 4);
}

fn drain_sst(mut it: SsTableIterator) -> Vec<(Vec<u8>, Vec<u8>)> {
    let mut out = Vec::new();
    while it.is_valid() {
        out.push((it.key(), it.value()));
        it.next().unwrap();
    }
    out
}

#[test]
fn sst_seek() {
    let table = Arc::new(build_two_block_table());
    let it =
        SsTableIterator::create_and_seek_to_key(Arc::clone(&table), b"key00003").unwrap();
    assert!(it.is_valid());
    assert_eq!(it.key(), b"key00003".to_vec());
    assert_eq!(it.value(), b"value003".to_vec());

    let it = SsTableIterator::create_and_seek_to_key(Arc::clone(&table), b"key00000").unwrap();
    assert!(it.is_valid());
    assert_eq!(it.key(), b"key00001".to_vec());
    assert_eq!(it.value(), b"value001".to_vec());

    let it = SsTableIterator::create_and_seek_to_key(Arc::clone(&table), b"key00005").unwrap();
    assert!(!it.is_valid());
}

#[test]
fn sst_seek_lands_between_blocks() {
    let table = Arc::new(build_two_block_table());
    // A key past block 0's last key but before block 1's first key.
    let mut it = SsTableIterator::create_and_seek_to_first(Arc::clone(&table)).unwrap();
    it.seek_to_key(b"key000025");
    assert!(it.is_valid());
    assert_eq!(it.key(), b"key00003".to_vec());
}

#[test]
fn sst_find_block_idx() {
    let table = build_two_block_table();
    assert_eq!(table.find_block_idx(b"key00000"), 0);
    assert_eq!(table.find_block_idx(b"key00001"), 0);
    assert_eq!(table.find_block_idx(b"key00002"), 0);
    assert_eq!(table.find_block_idx(b"key00003"), 1);
    assert_eq!(table.find_block_idx(b"key00009"), 1);
}

#[test]
fn sst_estimated_size_grows() {
    let mut builder = SsTableBuilder::new(64);
    assert_eq!(builder.estimated_size(), 0);
    for (k, v) in two_block_pairs() {
        builder.add(&k, &v);
    }
    // Only finalized blocks count; at least one block has been closed.
    assert!(builder.estimated_size() > 0);
}

#[test]
fn sst_open_rejects_malformed() {
    assert!(SsTable::open(0, FileObject::create(vec![])).is_err());
    assert!(SsTable::open(0, FileObject::create(vec![1, 2, 3])).is_err());
    // A footer pointing past the end of the file.
    assert!(SsTable::open(0, FileObject::create(vec![0xff, 0xff, 0xff, 0xff])).is_err());
    // An empty meta section.
    assert!(SsTable::open(0, FileObject::create(vec![0, 0, 0, 0, 0, 0, 0, 0])).is_err());
    // A corrupted copy of a real table.
    let table = build_two_block_table();
    let mut bytes = table.file.read(0, table.table_size()).unwrap();
    let len = bytes.len();
    bytes[len - 1] ^= 0xff;
    assert!(SsTable::open(0, FileObject::create(bytes)).is_err());
}

#[test]
fn sst_single_block_table() {
    let mut builder = SsTableBuilder::new(4096);
    builder.add(b"only", b"pair");
    let table = builder.build(1);
    assert_eq!(table.num_of_blocks(), 1);
    assert_eq!(table.first_key().as_slice(), b"only");
    assert_eq!(table.last_key().as_slice(), b"only");
    let it = SsTableIterator::create_and_seek_to_first(Arc::new(table)).unwrap();
    assert_eq!(drain_sst(it), vec![(b"only".to_vec(), b"pair".to_vec())]);
}

#[test]
fn sst_read_block_cached_matches() {
    let table = build_two_block_table();
    let a = table.read_block(0).unwrap();
    let b = table.read_block_cached(0).unwrap();
    assert_eq!(a.data, b.data);
    assert_eq!(a.offsets, b.offsets);
}
