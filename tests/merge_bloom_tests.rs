use std::sync::Arc;

use mini_lsm_sst::block_builder::BlockBuilder;
use mini_lsm_sst::block_iterator::BlockIterator;
use mini_lsm_sst::bloom::Bloom;
use mini_lsm_sst::table::key_fingerprint;
use mini_lsm_sst::iterators::StorageIterator;
use mini_lsm_sst::merge_iterator::MergeIterator;

fn stream(entries: &[(&[u8], &[u8])]) -> Box<BlockIterator> {
    let mut b = BlockBuilder::new(4096);
    for (k, v) in entries {
        assert!(b.add(k, v));
    }
    Box::new(BlockIterator::create_and_seek_to_first(Arc::new(b.build())))
}

fn drain(m: &mut MergeIterator<BlockIterator>) -> Vec<(Vec<u8>, Vec<u8>)> {
    let mut out = Vec::new();
    while m.is_valid() {
        out.push((m.key().to_vec(), m.value().to_vec()));
        m.next().unwrap();
    }
    out
}

#[test]
fn merge_iterator_shadowing() {
    let s0 = stream(&[(b"a", b"A0"), (b"b", b"B0")]);
    let s1 = stream(&[(b"a", b"A1"), (b"c", b"C1")]);
    let mut m = MergeIterator::create(vec![s0, s1]);
    assert_eq!(m.num_active_iterators(), 2);
    assert_eq!(
        drain(&mut m),
        vec![
            (b"a".to_vec(), b"A0".to_vec()),
            (b"b".to_vec(), b"B0".to_vec()),
            (b"c".to_vec(), b"C1".to_vec())
        ]
    );
    assert_eq!(m.num_active_iterators(), 0);
}

#[test]
fn merge_iterator_prefers_smaller_index_anywhere() {
    let s0 = stream(&[(b"b", b"x0"), (b"d", b"y0")]);
    let s1 = stream(&[(b"a", b"a1"), (b"b", b"x1")]);
    let s2 = stream(&[(b"b", b"x2"), (b"d", b"y2"), (b"e", b"e2")]);
    let mut m = MergeIterator::create(vec![s2, s1, s0]);
    assert_eq!(
        drain(&mut m),
        vec![
            (b"a".to_vec(), b"a1".to_vec()),
            (b"b".to_vec(), b"x2".to_vec()),
            (b"d".to_vec(), b"y2".to_vec()),
            (b"e".to_vec(), b"e2".to_vec())
        ]
    );
}

#[test]
fn merge_iterator_skips_empty_streams() {
    let empty = Box::new(BlockIterator::create_and_seek_to_first(Arc::new(BlockBuilder::new(64).build())));
    let s1 = stream(&[(b"k", b"v")]);
    let mut m = MergeIterator::create(vec![empty, s1]);
    assert_eq!(drain(&mut m), vec![(b"k".to_vec(), b"v".to_vec())]);
    let none: Vec<Box<BlockIterator>> = Vec::new();
    assert!(!MergeIterator::create(none).is_valid());
}

/// A small deterministic generator of pseudo-random bytes.
struct Lcg(u64);

impl Lcg {
    fn next_u64(&mut self) -> u64 {
        self.0 = self.0.wrapping_mul(6364136223846793005).wrapping_add(1442695040888963407);
        self.0 >> 11
    }

    fn key(&mut self) -> Vec<u8> {
        let a = self.next_u64().to_le_bytes();
        let b = self.next_u64().to_le_bytes();
        [a, b].concat()
    }
}

#[test]
fn bloom_round_trip_false_positive_rate() {
    let mut rng = Lcg(42);
    let keys: Vec<Vec<u8>> = (0..10_000).map(|_| rng.key()).collect();
    let hashes: Vec<u32> = keys.iter().map(|k| key_fingerprint(k)).collect();
    let bloom = Bloom::build_from_key_hashes(&hashes, 10);
    assert_eq!(bloom.k, 7);
    for h in &hashes {
        assert!(bloom.may_contain(*h));
    }
    let mut buf = Vec::new();
    bloom.encode(&mut buf);
    let back = Bloom::decode(&buf).unwrap();
    assert_eq!(back.filter, bloom.filter);
    assert_eq!(back.k, bloom.k);
    let mut fp = 0usize;
    let trials = 100_000usize;
    for _ in 0..trials {
        let k = rng.key();
        if back.may_contain(key_fingerprint(&k)) {
            fp += 1;
        }
    }
    assert!((fp as f64) / (trials as f64) < 0.02, "false positive rate {}", fp);
}

#[test]
fn bloom_probe_count_and_size() {
    assert_eq!(Bloom::build_from_key_hashes(&[1, 2, 3], 1).k, 1);
    assert_eq!(Bloom::build_from_key_hashes(&[1, 2, 3], 0).k, 1);
    assert_eq!(Bloom::build_from_key_hashes(&[1, 2, 3], 44).k, 30);
    assert_eq!(Bloom::build_from_key_hashes(&[1, 2, 3], 100).k, 30);
    // Fewer than 64 bits asked: 64 bits are used.
    assert_eq!(Bloom::build_from_key_hashes(&[1], 10).filter.len(), 8);
    assert_eq!(Bloom::build_from_key_hashes(&[0; 100], 10).filter.len(), 125);
    let empty = Bloom::build_from_key_hashes(&[], 10);
    assert!(!empty.may_contain(12345));
    assert!(Bloom::decode(&[5]).is_err());
}

#[test]
fn merge_of_merges() {
    let inner0 = MergeIterator::create(vec![stream(&[(b"a", b"1"), (b"d", b"4")]), stream(&[(b"a", b"x"), (b"b", b"2")])]);
    let inner1 = MergeIterator::create(vec![stream(&[(b"b", b"y"), (b"c", b"3")])]);
    let mut outer = MergeIterator::create(vec![Box::new(inner0), Box::new(inner1)]);
    let mut got = Vec::new();
    while StorageIterator::is_valid(&outer) {
        got.push((StorageIterator::key(&outer).to_vec(), StorageIterator::value(&outer).to_vec()));
        StorageIterator::next(&mut outer).unwrap();
    }
    assert_eq!(
        got,
        vec![
            (b"a".to_vec(), b"1".to_vec()),
            (b"b".to_vec(), b"2".to_vec()),
            (b"c".to_vec(), b"3".to_vec()),
            (b"d".to_vec(), b"4".to_vec())
        ]
    );
    assert!(StorageIterator::next(&mut outer).is_ok());
    assert!(!StorageIterator::is_valid(&outer));
}
