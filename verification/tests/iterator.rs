use kip_db::{BlockCache, DataBlock, KvPair, SSTable, SSTableIter, Seek};

fn big_endian_u64(i: u64) -> Vec<u8> {
    let mut out = Vec::new();
    let mut sh = 64;
    while sh > 0 {
        sh -= 8;
        out.push((i >> sh) as u8);
    }
    out
}

fn sample_key(i: u64) -> Vec<u8> {
    let mut key = b"KipDB-".to_vec();
    key.append(&mut big_endian_u64(i));
    key
}

#[test]
fn test_iterator() {
    let value =
        b"What you are you do not see, what you see is your shadow.".to_vec();
    let mut vec_data: Vec<(Vec<u8>, Option<Vec<u8>>)> = Vec::new();

    let times: u64 = 2333;

    for i in 0..times {
        vec_data.push((sample_key(i), Some(value.clone())));
    }

    let mut pairs: Vec<KvPair> = Vec::new();
    for (k, v) in vec_data.iter() {
        pairs.push(KvPair { key: k.clone(), value: v.clone() });
    }
    let ss_table = SSTable::create_for_mem_table(1, &pairs, 64).unwrap();
    let mut cache = BlockCache::new(1024, 16);

    let mut iterator = SSTableIter::new(&ss_table, &mut cache).unwrap();

    for i in 0..times as usize {
        let e = iterator.next_err(&mut cache).unwrap();
        assert_eq!(e.key, vec_data[i].0);
        assert_eq!(e.value, vec_data[i].1);
    }

    for i in (0..times as usize - 1).rev() {
        let e = iterator.prev_err(&mut cache).unwrap();
        assert_eq!(e.key, vec_data[i].0);
        assert_eq!(e.value, vec_data[i].1);
    }

    let e = iterator
        .seek(&Seek::Backward(vec_data[114].0.clone()), &mut cache)
        .unwrap();
    assert_eq!(e.key, vec_data[114].0);
    assert_eq!(e.value, vec_data[114].1);

    let e = iterator
        .seek(&Seek::Forward(vec_data[514].0.clone()), &mut cache)
        .unwrap();
    assert_eq!(e.key, vec_data[514].0);
    assert_eq!(e.value, vec_data[514].1);

    let e = iterator.seek(&Seek::First, &mut cache).unwrap();
    assert_eq!(e.key, vec_data[0].0);
    assert_eq!(e.value, vec_data[0].1);

    let e = iterator.seek(&Seek::Last, &mut cache).unwrap();
    assert_eq!(e.key, vec_data[(times - 1) as usize].0);
    assert_eq!(e.value, vec_data[(times - 1) as usize].1);
}

#[test]
fn seek_between_and_past_keys() {
    // Keys 10, 20, 30, ... so that seeks between keys are exercised.
    let mut pairs: Vec<KvPair> = Vec::new();
    for i in 1..=30u64 {
        pairs.push(KvPair { key: sample_key(i * 10), value: Some(vec![i as u8]) });
    }
    let table = SSTable::create_for_mem_table(7, &pairs, 4).unwrap();
    let mut cache = BlockCache::new(8, 4);
    let mut it = SSTableIter::new(&table, &mut cache).unwrap();

    // Forward from a key between 100 and 110 lands on 110.
    let e = it.seek(&Seek::Forward(sample_key(105)), &mut cache).unwrap();
    assert_eq!(e.key, sample_key(110));
    // Backward from the same key lands on 100.
    let e = it.seek(&Seek::Backward(sample_key(105)), &mut cache).unwrap();
    assert_eq!(e.key, sample_key(100));
    // Forward past the greatest key is exhaustion.
    assert!(it.seek(&Seek::Forward(sample_key(999)), &mut cache).is_err());
    // Backward before the least key is exhaustion.
    assert!(it.seek(&Seek::Backward(sample_key(1)), &mut cache).is_err());
    // Forward before the least key lands on the least key.
    let e = it.seek(&Seek::Forward(sample_key(1)), &mut cache).unwrap();
    assert_eq!(e.key, sample_key(10));
    // Backward past the greatest key lands on the greatest key.
    let e = it.seek(&Seek::Backward(sample_key(999)), &mut cache).unwrap();
    assert_eq!(e.key, sample_key(300));
}

#[test]
fn iteration_exhausts_with_out_of_bounds() {
    let pairs = vec![
        KvPair { key: b"a".to_vec(), value: Some(b"1".to_vec()) },
        KvPair { key: b"b".to_vec(), value: None },
    ];
    let table = SSTable::create_for_mem_table(3, &pairs, 1).unwrap();
    let mut cache = BlockCache::new(4, 2);
    let mut it = SSTableIter::new(&table, &mut cache).unwrap();
    assert!(!it.is_valid());
    assert_eq!(it.len(), 2);
    assert_eq!(it.next_err(&mut cache).unwrap().key, b"a".to_vec());
    assert!(it.is_valid());
    let e = it.next_err(&mut cache).unwrap();
    assert_eq!(e.key, b"b".to_vec());
    assert_eq!(e.value, None);
    assert!(it.next_err(&mut cache).is_err());
    assert!(!it.is_valid());
    // Walking back after forward exhaustion resumes at the last entry.
    assert_eq!(it.prev_err(&mut cache).unwrap().key, b"b".to_vec());
}

#[test]
fn block_image_round_trip() {
    let pairs = vec![
        KvPair { key: b"one".to_vec(), value: Some(b"1".to_vec()) },
        KvPair { key: b"two".to_vec(), value: None },
    ];
    let block = DataBlock { entries: pairs };
    let bytes = block.encode().unwrap();
    let back = DataBlock::decode(&bytes).unwrap();
    assert_eq!(back.entries.len(), 2);
    assert_eq!(back.entries[0].key, b"one".to_vec());
    assert_eq!(back.entries[0].value, Some(b"1".to_vec()));
    assert_eq!(back.entries[1].key, b"two".to_vec());
    assert_eq!(back.entries[1].value, None);
    // An unordered image is refused.
    let unordered = DataBlock {
        entries: vec![
            KvPair { key: b"two".to_vec(), value: None },
            KvPair { key: b"one".to_vec(), value: Some(b"1".to_vec()) },
        ],
    };
    let bad = unordered.encode().unwrap();
    assert!(DataBlock::decode(&bad).is_err());
}

#[test]
fn table_image_round_trip() {
    let mut pairs: Vec<KvPair> = Vec::new();
    for i in 0u8..9 {
        pairs.push(KvPair { key: vec![i], value: Some(vec![i, i]) });
    }
    let table = SSTable::create_for_mem_table(4, &pairs, 3).unwrap();
    let bytes = table.encode().unwrap();
    let back = SSTable::decode(4, &bytes, 3).unwrap();
    assert_eq!(back.len(), 9);
    assert_eq!(back.gen(), 4);
    for i in 0u8..9 {
        assert_eq!(back.get(&vec![i]), Some(Some(vec![i, i])));
    }
}

#[test]
fn empty_table_is_refused() {
    let pairs: Vec<KvPair> = Vec::new();
    assert!(SSTable::create_for_mem_table(1, &pairs, 8).is_err());
}

#[test]
fn table_metadata() {
    let pairs = vec![
        KvPair { key: b"alpha".to_vec(), value: Some(b"1".to_vec()) },
        KvPair { key: b"beta".to_vec(), value: Some(b"2".to_vec()) },
        KvPair { key: b"gamma".to_vec(), value: Some(b"3".to_vec()) },
    ];
    let table = SSTable::create_for_mem_table(9, &pairs, 2).unwrap();
    assert_eq!(table.len(), 3);
    assert_eq!(table.gen(), 9);
    let (min, max) = table.key_range();
    assert_eq!(min, b"alpha".to_vec());
    assert_eq!(max, b"gamma".to_vec());
    assert_eq!(table.get(&b"beta".to_vec()), Some(Some(b"2".to_vec())));
    assert_eq!(table.get(&b"delta".to_vec()), None);
}
