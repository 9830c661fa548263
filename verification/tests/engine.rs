use kip_db::{
    value_from_option, BlockCache, CommandData, CommandOption, KVStore, KvPair, KvsError,
    LsmStore, SSTable, SSTableIter, Seek,
};

#[test]
fn set_get_remove() {
    let mut store = LsmStore::with_config(1024 * 1024, 64);
    assert!(store.set(&b"k1".to_vec(), b"v1".to_vec()).is_ok());
    assert!(store.set(&b"k2".to_vec(), b"v2".to_vec()).is_ok());
    assert_eq!(store.get(&b"k1".to_vec()).unwrap(), Some(b"v1".to_vec()));
    assert_eq!(store.get(&b"k2".to_vec()).unwrap(), Some(b"v2".to_vec()));
    assert_eq!(store.get(&b"k3".to_vec()).unwrap(), None);
    assert!(store.set(&b"k1".to_vec(), b"v1b".to_vec()).is_ok());
    assert_eq!(store.get(&b"k1".to_vec()).unwrap(), Some(b"v1b".to_vec()));
    assert!(store.remove(&b"k1".to_vec()).is_ok());
    assert_eq!(store.get(&b"k1".to_vec()).unwrap(), None);
    assert!(store.flush().is_ok());
    assert!(store.shut_down().is_ok());
}

#[test]
fn log_replay_equivalence() {
    let mut store = LsmStore::with_config(1024 * 1024, 64);
    store.set(&b"a".to_vec(), b"1".to_vec()).unwrap();
    store.set(&b"b".to_vec(), b"2".to_vec()).unwrap();
    store.remove(&b"a".to_vec()).unwrap();
    store.set(&b"c".to_vec(), b"3".to_vec()).unwrap();

    // Closing and reopening: replay of the durable log rebuilds the state.
    let segments = vec![store.log_bytes()];
    let reopened = LsmStore::open(segments).unwrap();

    for key in [b"a".to_vec(), b"b".to_vec(), b"c".to_vec(), b"d".to_vec()] {
        assert_eq!(store.get(&key).unwrap(), reopened.get(&key).unwrap());
    }
    assert_eq!(reopened.get(&b"a".to_vec()).unwrap(), None);
    assert_eq!(reopened.get(&b"b".to_vec()).unwrap(), Some(b"2".to_vec()));
    assert_eq!(reopened.get(&b"c".to_vec()).unwrap(), Some(b"3".to_vec()));
}

#[test]
fn tombstone_shadows_older_table() {
    // A zero threshold freezes the buffer into a table before every write,
    // so the older value of `k` ends up inside a sorted table.
    let mut store = LsmStore::with_config(0, 4);
    store.set(&b"k".to_vec(), b"old".to_vec()).unwrap();
    store.set(&b"other".to_vec(), b"x".to_vec()).unwrap();
    assert_eq!(store.get(&b"k".to_vec()).unwrap(), Some(b"old".to_vec()));
    store.remove(&b"k".to_vec()).unwrap();
    assert_eq!(store.get(&b"k".to_vec()).unwrap(), None);
    assert_eq!(store.get(&b"other".to_vec()).unwrap(), Some(b"x".to_vec()));
}

#[test]
fn reads_fall_through_to_tables() {
    let mut store = LsmStore::with_config(0, 2);
    for i in 0u8..20 {
        store.set(&vec![i], vec![i, i]).unwrap();
    }
    for i in 0u8..20 {
        assert_eq!(store.get(&vec![i]).unwrap(), Some(vec![i, i]));
    }
}

#[test]
fn apply_dispatches_commands() {
    let mut store = LsmStore::with_config(1024 * 1024, 64);
    let set = CommandData::set(b"k".to_vec(), b"v".to_vec());
    assert!(matches!(set.apply(&mut store), Ok(CommandOption::Empty)));
    let get = CommandData::get(b"k".to_vec());
    match get.apply(&mut store) {
        Ok(CommandOption::Value(v)) => assert_eq!(v, b"v".to_vec()),
        _ => panic!("get should answer with the value"),
    }
    let rm = CommandData::remove(b"k".to_vec());
    assert!(matches!(rm.apply(&mut store), Ok(CommandOption::Empty)));
    let get2 = CommandData::get(b"k".to_vec());
    assert!(matches!(get2.apply(&mut store), Ok(CommandOption::Empty)));
}

#[test]
fn response_shape_mismatch() {
    // The empty response to a get means the key is absent.
    assert_eq!(value_from_option(CommandOption::Empty), Ok(None));
    assert_eq!(
        value_from_option(CommandOption::Value(b"v".to_vec())),
        Ok(Some(b"v".to_vec()))
    );
    assert_eq!(
        value_from_option(CommandOption::SizeOfDisk(9)),
        Err(KvsError::NotMatchCmd)
    );
    assert_eq!(
        value_from_option(CommandOption::Error(KvsError::IOError)),
        Err(KvsError::NotMatchCmd)
    );
}

#[test]
fn tables_survive_shutdown() {
    // A tiny threshold freezes the buffer into tables as writes arrive.
    let mut store = LsmStore::with_config(0, 2);
    for i in 0u8..12 {
        store.set(&vec![i], vec![i, i]).unwrap();
    }
    store.remove(&vec![3u8]).unwrap();

    // Persist: the active log plus every frozen table's byte image.
    let log = store.log_bytes();
    let mut saved: Vec<(u64, Vec<u8>)> = Vec::new();
    for i in 0..store.tables_count() {
        saved.push((store.table_gen(i), store.export_table(i).unwrap()));
    }
    assert!(!saved.is_empty());

    // Reopen: replay the log, then attach the decoded tables newest-first.
    let mut reopened = LsmStore::open(vec![log]).unwrap();
    for (gen, bytes) in saved.iter() {
        let table = SSTable::decode(*gen, bytes, 2).unwrap();
        reopened.attach_table(table);
    }

    for i in 0u8..12 {
        assert_eq!(store.get(&vec![i]).unwrap(), reopened.get(&vec![i]).unwrap());
        if i == 3 {
            assert_eq!(reopened.get(&vec![i]).unwrap(), None);
        } else {
            assert_eq!(reopened.get(&vec![i]).unwrap(), Some(vec![i, i]));
        }
    }
}

#[test]
fn cache_hit_returns_same_block() {
    let mut pairs: Vec<KvPair> = Vec::new();
    for i in 0u8..10 {
        pairs.push(KvPair { key: vec![i], value: Some(vec![i]) });
    }
    let table = SSTable::create_for_mem_table(5, &pairs, 3).unwrap();
    let mut cache = BlockCache::new(2, 2);
    let mut it = SSTableIter::new(&table, &mut cache).unwrap();
    // Walk the whole table twice through the same cache: hits and evictions.
    for _ in 0..2 {
        let first = it.seek(&Seek::First, &mut cache).unwrap();
        assert_eq!(first.key, vec![0u8]);
        for i in 1u8..10 {
            assert_eq!(it.next_err(&mut cache).unwrap().key, vec![i]);
        }
        assert!(it.next_err(&mut cache).is_err());
    }
}
