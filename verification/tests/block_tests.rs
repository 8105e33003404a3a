use std::sync::Arc;

use mini_lsm::block::Block;
use mini_lsm::block_builder::BlockBuilder;
use mini_lsm::block_iterator::BlockIterator;
use mini_lsm::codec::{get_u16_at, get_u32_at, put_u16, put_u32};

#[test]
fn u16_round_trip() {
    let mut buf: Vec<u8> = Vec::new();
    put_u16(&mut buf, 0x1234);
    assert_eq!(buf, vec![0x12, 0x34]);
    assert_eq!(get_u16_at(&buf, 0), 0x1234);
}

#[test]
fn u32_round_trip() {
    let mut buf: Vec<u8> = Vec::new();
    put_u32(&mut buf, 0xdeadbeef);
    assert_eq!(buf, vec![0xde, 0xad, 0xbe, 0xef]);
    assert_eq!(get_u32_at(&buf, 0), 0xdeadbeef);
}

#[test]
fn key_comparisons() {
    assert!(mini_lsm::keys::key_lt(b"a", b"b"));
    assert!(mini_lsm::keys::key_lt(b"a", b"ab"));
    assert!(!mini_lsm::keys::key_lt(b"b", b"ab"));
    assert!(mini_lsm::keys::key_le(b"ab", b"ab"));
    assert!(mini_lsm::keys::key_eq(b"ab", b"ab"));
    assert!(!mini_lsm::keys::key_eq(b"ab", b"abc"));
    assert!(mini_lsm::keys::key_lt(b"", b"a"));
}

fn build_small_block() -> Block {
    let mut builder = BlockBuilder::new(4096);
    assert!(builder.add(b"apple", b"1"));
    assert!(builder.add(b"banana", b"22"));
    assert!(builder.add(b"cherry", b"333"));
    builder.build()
}

#[test]
fn block_round_trip() {
    let block = build_small_block();
    let encoded = block.encode();
    let decoded = Block::decode(&encoded);
    assert_eq!(decoded.data, block.data);
    assert_eq!(decoded.offsets, block.offsets);
}

#[test]
fn block_full() {
    let mut builder = BlockBuilder::new(16);
    assert!(builder.add(b"a", b"1"));
    assert!(!builder.add(b"b", b"2"));
    let block = builder.build();
    assert_eq!(block.offsets, vec![0u16]);
}

#[test]
fn single_oversize() {
    let mut builder = BlockBuilder::new(4);
    assert!(builder.add(b"longkey", b"v"));
    assert!(!builder.add(b"z", b"1"));
    assert!(!builder.add(b"zz", b"2"));
    let block = builder.build();
    assert_eq!(block.offsets.len(), 1);
}

#[test]
fn block_builder_is_empty() {
    let mut builder = BlockBuilder::new(64);
    assert!(builder.is_empty());
    assert!(builder.add(b"k", b"v"));
    assert!(!builder.is_empty());
}

#[test]
fn block_ordering() {
    let block = Arc::new(build_small_block());
    let mut iter = BlockIterator::create_and_seek_to_first(block);
    let mut prev: Option<Vec<u8>> = None;
    while iter.is_valid() {
        let k = iter.key().clone();
        if let Some(p) = &prev {
            assert!(mini_lsm::keys::key_le(p, &k));
        }
        prev = Some(k);
        iter.next();
    }
    assert!(prev.is_some());
}

#[test]
fn block_iteration_values() {
    let block = Arc::new(build_small_block());
    let mut iter = BlockIterator::create_and_seek_to_first(block);
    assert!(iter.is_valid());
    assert_eq!(iter.key().as_slice(), b"apple");
    assert_eq!(iter.value(), b"1".to_vec());
    iter.next();
    assert_eq!(iter.key().as_slice(), b"banana");
    assert_eq!(iter.value(), b"22".to_vec());
    iter.next();
    assert_eq!(iter.key().as_slice(), b"cherry");
    assert_eq!(iter.value(), b"333".to_vec());
    iter.next();
    assert!(!iter.is_valid());
}

#[test]
fn block_seek_to_key() {
    let block = Arc::new(build_small_block());
    let iter = BlockIterator::create_and_seek_to_key(Arc::clone(&block), b"banana");
    assert!(iter.is_valid());
    assert_eq!(iter.key().as_slice(), b"banana");

    let iter = BlockIterator::create_and_seek_to_key(Arc::clone(&block), b"b");
    assert!(iter.is_valid());
    assert_eq!(iter.key().as_slice(), b"banana");

    let iter = BlockIterator::create_and_seek_to_key(Arc::clone(&block), b"");
    assert!(iter.is_valid());
    assert_eq!(iter.key().as_slice(), b"apple");

    let iter = BlockIterator::create_and_seek_to_key(Arc::clone(&block), b"zzz");
    assert!(!iter.is_valid());
}

#[test]
fn block_seek_then_advance() {
    let block = Arc::new(build_small_block());
    let mut iter = BlockIterator::create_and_seek_to_key(block, b"banana");
    iter.next();
    assert!(iter.is_valid());
    assert_eq!(iter.key().as_slice(), b"cherry");
}
