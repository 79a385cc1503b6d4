use std::sync::Arc;

use mini_lsm_sst::block::Block;
use mini_lsm_sst::block_builder::BlockBuilder;
use mini_lsm_sst::block_iterator::BlockIterator;
use mini_lsm_sst::error::LsmError;

fn build_block(entries: &[(&[u8], &[u8])], target: usize) -> Block {
    let mut b = BlockBuilder::new(target);
    for (k, v) in entries {
        assert!(b.add(k, v));
    }
    b.build()
}

fn collect(mut it: BlockIterator) -> Vec<(Vec<u8>, Vec<u8>)> {
    let mut out = Vec::new();
    while it.is_valid() {
        out.push((it.key().to_vec(), it.value().to_vec()));
        it.next();
    }
    out
}

#[test]
fn single_block_three_entries() {
    let block = build_block(&[(b"a", b"1"), (b"b", b"22"), (b"c", b"333")], 4096);
    let enc = block.encode();
    // Entries of 6, 7 and 8 bytes (two length prefixes each), three offsets, the trailer.
    assert_eq!(enc.len(), 21 + 6 + 2);
    assert_eq!(block.offsets, vec![0u16, 6, 13]);
    assert_eq!(&enc[..6], &[0, 1, b'a', 0, 1, b'1']);
    assert_eq!(&enc[21..27], &[0, 0, 0, 6, 0, 13]);
    assert_eq!(&enc[27..], &[0x00, 0x03]);
    let decoded = Block::decode(&enc).unwrap();
    assert_eq!(decoded.data, block.data);
    assert_eq!(decoded.offsets, block.offsets);
    let decoded = Arc::new(decoded);
    assert_eq!(
        collect(BlockIterator::create_and_seek_to_first(decoded.clone())),
        vec![
            (b"a".to_vec(), b"1".to_vec()),
            (b"b".to_vec(), b"22".to_vec()),
            (b"c".to_vec(), b"333".to_vec())
        ]
    );
    let it = BlockIterator::create_and_seek_to_key(decoded.clone(), b"b");
    assert!(it.is_valid());
    assert_eq!(it.key(), b"b");
    assert_eq!(it.value(), b"22");
    let it = BlockIterator::create_and_seek_to_key(decoded.clone(), b"b0");
    assert_eq!(it.key(), b"c");
    assert_eq!(it.value(), b"333");
    let it = BlockIterator::create_and_seek_to_key(decoded, b"d");
    assert!(!it.is_valid());
}

#[test]
fn block_split_on_budget() {
    let mut blocks = Vec::new();
    let mut b = BlockBuilder::new(40);
    let keys: Vec<Vec<u8>> = (1..=10).map(|i| format!("k{}", i).into_bytes()).collect();
    let mut sorted = keys.clone();
    sorted.sort();
    for k in &sorted {
        if !b.add(k, b"vvv") {
            blocks.push(b.build());
            assert!(b.is_empty());
            assert!(b.add(k, b"vvv"));
        }
    }
    blocks.push(b.build());
    assert!(blocks.len() >= 2);
    let mut all = Vec::new();
    for block in blocks {
        assert!(block.encode().len() < 40);
        all.extend(collect(BlockIterator::create_and_seek_to_first(Arc::new(block))));
    }
    let want: Vec<(Vec<u8>, Vec<u8>)> = sorted.iter().map(|k| (k.clone(), b"vvv".to_vec())).collect();
    assert_eq!(all, want);
}

#[test]
fn budget_counts_offsets_and_trailer() {
    // Entries of 9 bytes: three make 27 + 6 + 2 = 35 < 40, a fourth 36 + 8 + 2 = 46.
    let mut b = BlockBuilder::new(40);
    assert!(b.add(b"k1", b"vvv"));
    assert!(b.add(b"k2", b"vvv"));
    assert!(b.add(b"k3", b"vvv"));
    assert!(!b.add(b"k4", b"vvv"));
    assert_eq!(b.build().encode().len(), 35);
}

#[test]
fn oversize_first_entry_is_accepted() {
    let mut b = BlockBuilder::new(10);
    assert!(b.is_empty());
    assert!(b.add(b"key", &[7u8; 100]));
    assert!(!b.is_empty());
    assert!(!b.add(b"kez", b""));
    assert_eq!(b.first_key(), b"key".to_vec());
    assert_eq!(b.last_key(), b"key".to_vec());
    let block = b.build();
    assert_eq!(block.offsets.len(), 1);
}

#[test]
fn empty_value_is_an_entry() {
    let block = build_block(&[(b"a", b""), (b"b", b"x")], 4096);
    let got = collect(BlockIterator::create_and_seek_to_first(Arc::new(block)));
    assert_eq!(got, vec![(b"a".to_vec(), vec![]), (b"b".to_vec(), b"x".to_vec())]);
}

#[test]
fn block_round_trip_many() {
    let entries: Vec<(Vec<u8>, Vec<u8>)> =
        (0..50).map(|i| (format!("key{:03}", i).into_bytes(), vec![i as u8; i % 7])).collect();
    let mut b = BlockBuilder::new(4096);
    for (k, v) in &entries {
        assert!(b.add(k, v));
    }
    let block = b.build();
    let decoded = Block::decode(&block.encode()).unwrap();
    assert_eq!(decoded.data, block.data);
    assert_eq!(decoded.offsets, block.offsets);
    assert_eq!(collect(BlockIterator::create_and_seek_to_first(Arc::new(decoded))), entries);
}

#[test]
fn block_seek_positions_at_first_not_below() {
    let entries: Vec<(Vec<u8>, Vec<u8>)> =
        (0..20).map(|i| (vec![b'a' + 2 * i as u8], vec![i as u8])).collect();
    let mut b = BlockBuilder::new(4096);
    for (k, v) in &entries {
        assert!(b.add(k, v));
    }
    let block = Arc::new(b.build());
    for probe in 0u8..50 {
        let target = [b'a' + probe];
        let it = BlockIterator::create_and_seek_to_key(block.clone(), &target);
        match entries.iter().position(|(k, _)| k.as_slice() >= &target[..]) {
            Some(i) => {
                assert!(it.is_valid());
                assert_eq!(it.key(), entries[i].0.as_slice());
            }
            None => assert!(!it.is_valid()),
        }
    }
}

#[test]
fn empty_block_iterator_is_invalid() {
    let block = BlockBuilder::new(64).build();
    let enc = block.encode();
    assert_eq!(enc, vec![0, 0]);
    let it = BlockIterator::create_and_seek_to_first(Arc::new(Block::decode(&enc).unwrap()));
    assert!(!it.is_valid());
}

#[test]
fn corrupt_block_is_refused() {
    assert_eq!(Block::decode(&[1]).err(), Some(LsmError::CorruptBlock));
    assert_eq!(Block::decode(&[0, 5]).err(), Some(LsmError::CorruptBlock));
    // One entry claimed at offset 0, but the data region is too short for its header.
    assert_eq!(Block::decode(&[9, 0, 0, 0, 1]).err(), Some(LsmError::CorruptBlock));
    // An entry whose value runs past the data region.
    assert_eq!(Block::decode(&[0, 1, b'a', 0, 9, 0, 0, 0, 1]).err(), Some(LsmError::CorruptBlock));
}
