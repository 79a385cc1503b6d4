use std::sync::Arc;

use mini_lsm_sst::block::Block;
use mini_lsm_sst::block_builder::BlockBuilder;
use mini_lsm_sst::bloom::Bloom;
use mini_lsm_sst::table::key_fingerprint;
use mini_lsm_sst::codec::put_u32;
use mini_lsm_sst::error::LsmError;
use mini_lsm_sst::iterators::StorageIterator;
use mini_lsm_sst::merge_iterator::MergeIterator;
use mini_lsm_sst::meta::BlockMeta;
use mini_lsm_sst::table::SsTable;
use mini_lsm_sst::table_builder::SsTableBuilder;
use mini_lsm_sst::table_iterator::SsTableIterator;

fn entries(n: usize) -> Vec<(Vec<u8>, Vec<u8>)> {
    (0..n)
        .map(|i| (format!("key_{:05}", i).into_bytes(), vec![(i % 251) as u8; 1 + i % 37]))
        .collect()
}

fn build_table(es: &[(Vec<u8>, Vec<u8>)], block_size: usize) -> SsTable {
    let mut b = SsTableBuilder::new(block_size);
    for (k, v) in es {
        b.add(k, v);
    }
    b.build(7).unwrap()
}

fn drain(it: &mut SsTableIterator) -> Vec<(Vec<u8>, Vec<u8>)> {
    let mut out = Vec::new();
    while it.is_valid() {
        out.push((it.key().to_vec(), it.value().to_vec()));
        it.next().unwrap();
    }
    out
}

/// A table file of hand-made blocks, each given as its entries.
fn file_of_blocks(blocks: &[Vec<(&[u8], &[u8])>]) -> Vec<u8> {
    let mut data = Vec::new();
    let mut metas = Vec::new();
    let mut hashes = Vec::new();
    for entries in blocks {
        let mut bb = BlockBuilder::new(4096);
        for (k, v) in entries {
            assert!(bb.add(k, v));
            hashes.push(key_fingerprint(k));
        }
        metas.push(BlockMeta {
            offset: data.len(),
            first_key: entries[0].0.to_vec(),
            last_key: entries[entries.len() - 1].0.to_vec(),
        });
        data.extend(bb.build().encode());
    }
    let meta_offset = data.len();
    BlockMeta::encode_block_meta(&metas, &mut data);
    put_u32(&mut data, meta_offset as u32);
    let bloom_offset = data.len();
    Bloom::build_from_key_hashes(&hashes, 10).encode(&mut data);
    put_u32(&mut data, bloom_offset as u32);
    data
}

#[test]
fn sst_find_block_idx() {
    let file = file_of_blocks(&[
        vec![(b"a", b"1"), (b"c", b"2")],
        vec![(b"d", b"3"), (b"m", b"4")],
        vec![(b"n", b"5"), (b"z", b"6")],
    ]);
    let t = SsTable::open(1, file).unwrap();
    assert_eq!(t.num_of_blocks(), 3);
    assert_eq!(t.find_block_idx(b"a"), 0);
    assert_eq!(t.find_block_idx(b"c"), 0);
    assert_eq!(t.find_block_idx(b"d"), 1);
    assert_eq!(t.find_block_idx(b"z"), 2);
    assert_eq!(t.find_block_idx(b"~"), 2);
    assert_eq!(t.first_key(), b"a");
    assert_eq!(t.last_key(), b"z");
    assert_eq!(t.sst_id(), 1);
}

#[test]
fn sst_full_cycle() {
    let es = entries(1000);
    let built = build_table(&es, 4096);
    assert!(built.num_of_blocks() > 1);
    let t = Arc::new(SsTable::open(3, built.file_bytes().to_vec()).unwrap());
    assert_eq!(t.table_size(), built.table_size());
    let mut it = SsTableIterator::create_and_seek_to_key(t.clone(), &es[500].0).unwrap();
    assert_eq!(it.key(), es[500].0.as_slice());
    let rest = drain(&mut it);
    assert_eq!(rest, es[500..].to_vec());
    assert!(!it.is_valid());
    assert!(it.next().is_ok());
    assert!(!it.is_valid());
}

#[test]
fn sst_iterates_all_entries_in_order() {
    let es = entries(300);
    let t = Arc::new(build_table(&es, 256));
    assert!(t.num_of_blocks() > 5);
    let mut it = SsTableIterator::create_and_seek_to_first(t.clone()).unwrap();
    assert_eq!(drain(&mut it), es);
    it.seek_to_first().unwrap();
    assert_eq!(it.key(), es[0].0.as_slice());
    for w in es.windows(2) {
        assert!(w[0].0 < w[1].0);
    }
}

#[test]
fn sst_seek_between_and_past_keys() {
    let es = entries(200);
    let t = Arc::new(build_table(&es, 128));
    let mut it = SsTableIterator::create_and_seek_to_first(t.clone()).unwrap();
    it.seek_to_key(b"key_00099x").unwrap();
    assert_eq!(it.key(), es[100].0.as_slice());
    it.seek_to_key(b"a").unwrap();
    assert_eq!(it.key(), es[0].0.as_slice());
    it.seek_to_key(b"zzz").unwrap();
    assert!(!it.is_valid());
    for (i, (k, _)) in es.iter().enumerate().step_by(17) {
        it.seek_to_key(k).unwrap();
        assert_eq!(it.key(), es[i].0.as_slice());
    }
}

#[test]
fn sst_empty_builder_gives_empty_table() {
    let t = Arc::new(SsTableBuilder::new(4096).build(0).unwrap());
    assert_eq!(t.num_of_blocks(), 1);
    let it = SsTableIterator::create_and_seek_to_first(t).unwrap();
    assert!(!it.is_valid());
}

#[test]
fn sst_estimated_size_grows_with_blocks() {
    let mut b = SsTableBuilder::new(64);
    assert_eq!(b.estimated_size(), 0);
    for (k, v) in entries(40) {
        b.add(&k, &v);
    }
    assert!(b.estimated_size() > 0);
}

#[test]
fn sst_may_contain_every_key() {
    let es = entries(500);
    let t = build_table(&es, 4096);
    for (k, _) in &es {
        assert!(t.may_contain(k));
    }
    let misses = (0..2000)
        .filter(|i| t.may_contain(format!("absent_{}", i).as_bytes()))
        .count();
    assert!(misses < 100, "false positives: {}", misses);
}

#[test]
fn sst_read_block_errors() {
    let t = build_table(&entries(100), 256);
    let n = t.num_of_blocks();
    assert!(t.read_block(n - 1).is_ok());
    assert_eq!(t.read_block(n).err(), Some(LsmError::NoSuchBlock));
    assert_eq!(t.read_block_cached(n).err(), Some(LsmError::NoSuchBlock));
    let b: Arc<Block> = t.read_block_cached(0).unwrap();
    assert!(!b.offsets.is_empty());
}

#[test]
fn sst_corrupt_footer_and_meta() {
    assert_eq!(SsTable::open(0, vec![0, 0, 0]).err(), Some(LsmError::CorruptFooter));
    assert_eq!(SsTable::open(0, vec![0, 0, 0, 0, 0, 0, 0, 0, 0, 0, 0, 255]).err(), Some(LsmError::CorruptFooter));
    let good = build_table(&entries(10), 4096).file_bytes().to_vec();
    let n = good.len();
    let bloom_offset = u32::from_be_bytes([good[n - 4], good[n - 3], good[n - 2], good[n - 1]]) as usize;
    // Point the meta index one byte further: its first record is cut.
    let mut bad = good.clone();
    let mo = u32::from_be_bytes([
        bad[bloom_offset - 4],
        bad[bloom_offset - 3],
        bad[bloom_offset - 2],
        bad[bloom_offset - 1],
    ]) + 1;
    bad[bloom_offset - 4..bloom_offset].copy_from_slice(&mo.to_be_bytes());
    assert_eq!(SsTable::open(0, bad).err(), Some(LsmError::CorruptMeta));
    // Damage the trailer of the only block.
    let mut bad = good.clone();
    let mo = u32::from_be_bytes([
        bad[bloom_offset - 4],
        bad[bloom_offset - 3],
        bad[bloom_offset - 2],
        bad[bloom_offset - 1],
    ]) as usize;
    bad[mo - 1] = 0xff;
    assert_eq!(SsTable::open(0, bad).err(), Some(LsmError::CorruptBlock));
    assert!(SsTable::open(0, good).is_ok());
}

#[test]
fn block_meta_round_trip() {
    let metas = vec![
        BlockMeta { offset: 0, first_key: b"a".to_vec(), last_key: b"c".to_vec() },
        BlockMeta { offset: 77, first_key: b"".to_vec(), last_key: b"zz".to_vec() },
        BlockMeta { offset: 70000, first_key: vec![1; 300], last_key: vec![2; 3] },
    ];
    let mut buf = vec![9u8];
    BlockMeta::encode_block_meta(&metas, &mut buf);
    assert_eq!(&buf[1..11], &[0, 0, 0, 0, 0, 1, b'a', 0, 1, b'c']);
    let back = BlockMeta::decode_block_meta(&buf[1..]).unwrap();
    assert_eq!(back.len(), 3);
    for (a, b) in back.iter().zip(metas.iter()) {
        assert_eq!(a.offset, b.offset);
        assert_eq!(a.first_key, b.first_key);
        assert_eq!(a.last_key, b.last_key);
    }
    assert_eq!(BlockMeta::decode_block_meta(&buf[1..buf.len() - 1]).err(), Some(LsmError::CorruptMeta));
    assert_eq!(BlockMeta::decode_block_meta(&[]).unwrap().len(), 0);
}

#[test]
fn sst_meta_only_keeps_bounds() {
    let t = SsTable::create_meta_only(9, 4096, b"aa".to_vec(), b"zz".to_vec());
    assert_eq!(t.sst_id(), 9);
    assert_eq!(t.table_size(), 4096);
    assert_eq!(t.first_key(), b"aa");
    assert_eq!(t.last_key(), b"zz");
    assert_eq!(t.num_of_blocks(), 0);
}

#[test]
fn sst_recorded_bounds_and_size() {
    let es = entries(64);
    let t = build_table(&es, 200);
    assert_eq!(t.first_key(), es[0].0.as_slice());
    assert_eq!(t.last_key(), es[63].0.as_slice());
    assert_eq!(t.table_size() as usize, t.file_bytes().len());
    assert_eq!(t.max_ts(), 0);
    let n = t.file_bytes().len();
    let bytes = t.file_bytes();
    let bloom_offset = u32::from_be_bytes([bytes[n - 4], bytes[n - 3], bytes[n - 2], bytes[n - 1]]) as usize;
    assert!(bloom_offset < n - 4);
}

#[test]
fn merge_over_tables() {
    let newer: Vec<(Vec<u8>, Vec<u8>)> = (0..50).step_by(2).map(|i| (format!("k{:03}", i).into_bytes(), b"new".to_vec())).collect();
    let older: Vec<(Vec<u8>, Vec<u8>)> = (0..50).map(|i| (format!("k{:03}", i).into_bytes(), b"old".to_vec())).collect();
    let t0 = Arc::new(build_table(&newer, 64));
    let t1 = Arc::new(build_table(&older, 64));
    let mut m = MergeIterator::create(vec![
        Box::new(SsTableIterator::create_and_seek_to_first(t0).unwrap()),
        Box::new(SsTableIterator::create_and_seek_to_first(t1).unwrap()),
    ]);
    let mut n = 0;
    while m.is_valid() {
        let k = m.key().to_vec();
        let want: &[u8] = if n % 2 == 0 { b"new" } else { b"old" };
        assert_eq!(k, format!("k{:03}", n).into_bytes());
        assert_eq!(m.value(), want);
        m.next().unwrap();
        n += 1;
    }
    assert_eq!(n, 50);
}

#[test]
fn key_fingerprint_depends_on_the_bytes() {
    let a = key_fingerprint(b"hello world");
    assert_eq!(a, key_fingerprint(b"hello world"));
    assert_ne!(a, key_fingerprint(b"hello worle"));
    // Keys of every length up to 100 bytes, all bytes 0xff, hash without fault.
    for n in 0..100 {
        let _ = key_fingerprint(&vec![0xffu8; n]);
    }
    let _ = key_fingerprint(&[0xff, 0xff, 0xff, 0xff, 0x00]);
}
