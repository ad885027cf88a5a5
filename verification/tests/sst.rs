//! SST builder, reader and bidirectional iterator tests.

use rand::Rng;
use kvcore::sstable::{SsTable, SsTableBuilder, FileObject, BlockCache};
use kvcore::sst_iter::{SsTableIter, KeyBound};

fn key_of(idx: usize) -> Vec<u8> {
    format!("key_{:03}", idx * 5).into_bytes()
}

fn value_of(idx: usize) -> Vec<u8> {
    format!("value_{:010}", idx).into_bytes()
}

fn num_of_keys() -> usize {
    100
}

fn generate_sst() -> SsTable {
    let mut builder = SsTableBuilder::new(128);
    for idx in 0..num_of_keys() {
        let key = key_of(idx);
        let value = value_of(idx);
        builder.add(&key[..], &value[..]);
    }
    builder.build(0, None)
}

#[test]
fn test_sst_build_single_key() {
    let mut builder = SsTableBuilder::new(16);
    builder.add(b"233", b"233333");
    builder.build(0, None);
}

#[test]
fn test_sst_build_two_blocks() {
    let mut builder = SsTableBuilder::new(16);
    builder.add(b"11", b"11");
    builder.add(b"22", b"22");
    builder.add(b"33", b"11");
    builder.add(b"44", b"22");
    builder.add(b"55", b"11");
    builder.add(b"66", b"22");
    assert!(builder.meta.len() >= 2);
    builder.build(0, None);
}

#[test]
fn test_sst_build_all() {
    generate_sst();
}

#[test]
fn test_sst_decode() {
    let sst = generate_sst();
    let meta = sst.block_metas().clone();
    let image = sst.file_object().bytes().to_vec();
    let new_sst = SsTable::open(0, None, FileObject::create(image)).unwrap();
    assert_eq!(new_sst.block_metas(), &meta);
}

#[test]
fn test_sst_iter() {
    let sst = generate_sst();
    let mut iter = SsTableIter::new(sst).unwrap();
    let mut i = 0;
    while let Some((key, value)) = iter.try_next().unwrap() {
        assert_eq!(
            &key[..],
            key_of(i),
            "expected key: {:?}, actual key: {:?}",
            key_of(i),
            &key[..]
        );
        assert_eq!(
            &value[..],
            value_of(i),
            "expected value: {:?}, actual value: {:?}",
            value_of(i),
            &value[..]
        );
        i += 1;
    }
    assert_eq!(i, num_of_keys());
}

#[test]
fn test_sst_iter_rev() {
    let sst = generate_sst();
    let mut iter = SsTableIter::new(sst).unwrap();
    let mut i = num_of_keys();
    while let Some((key, value)) = iter.try_next_back().unwrap() {
        i -= 1;
        assert_eq!(
            &key[..],
            key_of(i),
            "expected key: {:?}, actual key: {:?}",
            key_of(i),
            &key[..]
        );
        assert_eq!(
            &value[..],
            value_of(i),
            "expected value: {:?}, actual value: {:?}",
            value_of(i),
            &value[..]
        );
    }
    assert_eq!(i, 0);
}

#[test]
fn test_sst_iter_intersection() {
    let sst = generate_sst();
    let mut iter = SsTableIter::new(sst).unwrap();
    for i in 0..(num_of_keys() / 2) {
        let (key, value) = iter.try_next().unwrap().unwrap();
        assert_eq!(
            &key[..],
            key_of(i),
            "expected key: {:?}, actual key: {:?}",
            key_of(i),
            &key[..]
        );
        assert_eq!(
            &value[..],
            value_of(i),
            "expected value: {:?}, actual value: {:?}",
            value_of(i),
            &value[..]
        );

        let (back_key, back_value) = iter.try_next_back().unwrap().unwrap();
        assert_eq!(
            &back_key[..],
            key_of(num_of_keys() - i - 1),
            "expected key: {:?}, actual key: {:?}",
            key_of(num_of_keys() - i - 1),
            &back_key[..]
        );
        assert_eq!(
            &back_value[..],
            value_of(num_of_keys() - i - 1),
            "expected value: {:?}, actual value: {:?}",
            value_of(num_of_keys() - i - 1),
            &back_value[..]
        );
    }
    assert!(!iter.is_valid());
}

#[test]
fn test_sst_iter_intersection_random() {
    let sst = generate_sst();
    let mut iter = SsTableIter::new(sst).unwrap();
    let mut forward = 0;
    let mut backward = 0;
    for _ in 0..num_of_keys() {
        match rand::thread_rng().gen_range(0..=1) {
            1 => {
                let (key, value) = iter.try_next().unwrap().unwrap();
                assert_eq!(
                    &key[..],
                    key_of(forward),
                    "expected key: {:?}, actual key: {:?}",
                    key_of(forward),
                    &key[..]
                );
                assert_eq!(
                    &value[..],
                    value_of(forward),
                    "expected value: {:?}, actual value: {:?}",
                    value_of(forward),
                    &value[..]
                );
                forward += 1;
            }

            0 => {
                let (back_key, back_value) = iter.try_next_back().unwrap().unwrap();
                assert_eq!(
                    &back_key[..],
                    key_of(num_of_keys() - backward - 1),
                    "expected key: {:?}, actual key: {:?}",
                    key_of(num_of_keys() - backward - 1),
                    &back_key[..]
                );
                assert_eq!(
                    &back_value[..],
                    value_of(num_of_keys() - backward - 1),
                    "expected value: {:?}, actual value: {:?}",
                    value_of(num_of_keys() - backward - 1),
                    &back_value[..]
                );
                backward += 1;
            }

            _ => {
                assert!(false)
            }
        }
    }
    assert!(!iter.is_valid());
}

#[test]
fn test_sst_seek_key_iter() {
    let sst = generate_sst();
    let mut iter = SsTableIter::create_and_seek_to_key(sst, &key_of(0), true).unwrap();
    for offset in 1..=5 {
        for i in 0..num_of_keys() {
            let (key, value) = iter.try_next().unwrap().unwrap();
            assert_eq!(
                key,
                key_of(i),
                "expected key: {:?}, actual key: {:?}",
                key_of(i),
                key
            );
            assert_eq!(
                value,
                value_of(i),
                "expected value: {:?}, actual value: {:?}",
                value_of(i),
                value
            );
            iter.front_seek_to_key(&format!("key_{:03}", i * 5 + offset).into_bytes(), true)
                .unwrap();
        }
        iter.front_seek_to_key(b"k", true).unwrap();
    }
}

#[test]
fn test_sst_seek_exact_and_between() {
    let sst = generate_sst();
    let mut iter = SsTableIter::create_and_seek_to_key(sst, b"key_000", true).unwrap();
    let (key, value) = iter.try_next().unwrap().unwrap();
    assert_eq!(key, b"key_000".to_vec());
    assert_eq!(value, b"value_0000000000".to_vec());
    iter.front_seek_to_key(b"key_007", true).unwrap();
    let (key, value) = iter.try_next().unwrap().unwrap();
    assert_eq!(key, b"key_010".to_vec());
    assert_eq!(value, b"value_0000000002".to_vec());
    iter.front_seek_to_key(b"k", true).unwrap();
    let (key, _) = iter.try_next().unwrap().unwrap();
    assert_eq!(key, b"key_000".to_vec());
}

#[test]
fn test_sst_seek_exclusive_and_past_end() {
    let sst = generate_sst();
    let mut iter = SsTableIter::create_and_seek_to_key(sst, b"key_000", false).unwrap();
    let (key, _) = iter.try_next().unwrap().unwrap();
    assert_eq!(key, b"key_005".to_vec());
    iter.front_seek_to_key(b"zzz", true).unwrap();
    assert!(!iter.is_valid());
    assert_eq!(iter.try_next().unwrap(), None);
}

#[test]
fn test_sst_range_bounds() {
    let sst = generate_sst();
    let mut iter = SsTableIter::create(
        sst,
        KeyBound::Included(b"key_010".to_vec()),
        KeyBound::Excluded(b"key_030".to_vec()),
    )
    .unwrap();
    let mut seen = Vec::new();
    while let Some((key, _)) = iter.try_next().unwrap() {
        seen.push(key);
    }
    assert_eq!(
        seen,
        vec![
            b"key_010".to_vec(),
            b"key_015".to_vec(),
            b"key_020".to_vec(),
            b"key_025".to_vec()
        ]
    );
}

#[test]
fn test_sst_block_cache_transparency() {
    let mut builder = SsTableBuilder::new(16);
    builder.add(b"11", b"11");
    builder.add(b"22", b"22");
    builder.add(b"33", b"11");
    builder.add(b"44", b"22");
    let mut with_cache = builder.build(7, Some(BlockCache::new()));

    let mut builder2 = SsTableBuilder::new(16);
    builder2.add(b"11", b"11");
    builder2.add(b"22", b"22");
    builder2.add(b"33", b"11");
    builder2.add(b"44", b"22");
    let plain = builder2.build(8, None);

    assert_eq!(with_cache.num_of_blocks(), plain.num_of_blocks());
    for i in 0..plain.num_of_blocks() {
        let a = plain.read_block(i).unwrap();
        // Twice through the cache: a miss that populates, then a hit.
        let b = with_cache.read_block_cached(i).unwrap();
        let c = with_cache.read_block_cached(i).unwrap();
        assert_eq!(a.len(), b.len());
        assert_eq!(b.len(), c.len());
        for j in 0..a.len() {
            assert_eq!(a.entry_at(j), b.entry_at(j));
            assert_eq!(b.entry_at(j), c.entry_at(j));
        }
    }
}

#[test]
fn test_sst_open_corrupt_file() {
    let r = SsTable::open(0, None, FileObject::create(vec![1, 2, 3]));
    assert!(matches!(r, Err(kvcore::error::Error::CorruptSstable)));
}

#[test]
fn test_sst_back_seek() {
    let sst = generate_sst();
    let mut iter = SsTableIter::create_and_back_seek_to_key(sst, b"key_012", true).unwrap();
    let (key, _) = iter.try_next_back().unwrap().unwrap();
    assert_eq!(key, b"key_010".to_vec());
    iter.back_seek_to_key(b"key_010", false).unwrap();
    let (key, _) = iter.try_next_back().unwrap().unwrap();
    assert_eq!(key, b"key_005".to_vec());
    iter.back_seek_to_key(b"a", true).unwrap();
    assert!(!iter.is_valid());
    assert_eq!(iter.try_next_back().unwrap(), None);
}

#[test]
fn test_sst_iter_entry_accessors() {
    let sst = generate_sst();
    let mut iter = SsTableIter::new(sst).unwrap();
    assert_eq!(iter.front_entry(), None);
    assert_eq!(iter.back_entry(), None);
    let first = iter.try_next().unwrap().unwrap();
    let last = iter.try_next_back().unwrap().unwrap();
    assert_eq!(iter.front_entry(), Some(first));
    assert_eq!(iter.back_entry(), Some(last));
}

#[test]
fn test_block_cache_clean_query() {
    let mut cache = BlockCache::new();
    assert!(cache.is_clean_for(7));
    let block = kvcore::block::Block::decode(&[]).unwrap();
    cache.insert(7, 0, block);
    assert!(!cache.is_clean_for(7));
    assert!(cache.is_clean_for(8));
}
