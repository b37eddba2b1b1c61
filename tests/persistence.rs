use collab_core::collab_log::{
    append, compact_to_snapshot, create, is_exist, load, load_updates, next_clock, CollabLogError,
    CollabPersistenceConfig,
};
use collab_core::keys::{clock_from_key, make_doc_update_key, Clock};
use collab_core::kv::{compare_bytes, KVEntry, KVStore, MemKv};

#[test]
fn id_test() {
    let mut db = MemKv::new();
    db.insert(&[0, 0, 0, 0, 0, 0, 0, 0], &[0, 1, 1]).unwrap();
    db.insert(&[0, 0, 0, 0, 0, 0, 0, 1], &[0, 1, 2]).unwrap();
    db.insert(&[0, 0, 0, 0, 0, 0, 0, 2], &[0, 1, 3]).unwrap();
    db.insert(&[0, 0, 0, 0, 0, 0, 0, 3], &[0, 1, 4]).unwrap();
    db.insert(&[0, 1, 0, 0, 0, 0, 0, 4], &[0, 1, 5]).unwrap();
    db.insert(&[0, 1, 0, 0, 0, 0, 0, 5], &[0, 1, 6]).unwrap();

    let given_key: &[u8; 8] = &[0, 0, 0, 0, 0, 0, 0, 1];
    let last_entry_prior = db
        .next_back_entry(given_key)
        .expect("No entry found prior to the given key")
        .unwrap();
    assert_eq!(last_entry_prior.value(), &[0, 1, 1]);

    let given_key: &[u8; 2] = &[0, 1];
    let last_entry_prior = db
        .next_back_entry(given_key)
        .expect("No entry found prior to the given key")
        .unwrap();
    println!("{:?}", last_entry_prior.value());
}

#[test]
fn key_range_test() {
    let mut db = MemKv::new();
    let next = |db: &MemKv| {
        let given_key: &[u8; 2] = &[0, 2];
        let val = db
            .next_back_entry(given_key)
            .expect("No entry found prior to the given key")
            .unwrap();
        u64::from_be_bytes(val.value().try_into().unwrap())
    };

    db.insert(&[0, 0, 0, 0, 0, 0, 0, 0], &(1 as u64).to_be_bytes()).unwrap();
    assert_eq!(next(&db), 1);

    db.insert(&[0, 0, 0, 0, 0, 0, 1, 1], &(2 as u64).to_be_bytes()).unwrap();
    assert_eq!(next(&db), 2);

    db.insert(&[0, 0, 0, 0, 0, 0, 1, 2], &(3 as u64).to_be_bytes()).unwrap();
    assert_eq!(next(&db), 3);

    db.insert(&[0, 0, 1, 0, 0, 0, 1, 2], &(4 as u64).to_be_bytes()).unwrap();
    assert_eq!(next(&db), 4);
}

#[test]
fn range_key_test() {
    let mut db = MemKv::new();
    db.insert(&[0, 0, 0, 0, 0, 0, 0, 0], &[0, 1, 1]).unwrap();
    db.insert(&[0, 0, 0, 0, 0, 0, 0, 1], &[0, 1, 2]).unwrap();
    db.insert(&[0, 0, 0, 0, 0, 0, 0, 2], &[0, 1, 3]).unwrap();

    db.insert(&[0, 0, 1, 0, 0, 0, 0, 0], &[0, 2, 1]).unwrap();
    db.insert(&[0, 0, 1, 0, 0, 0, 0, 1], &[0, 2, 2]).unwrap();
    db.insert(&[0, 0, 1, 0, 0, 0, 0, 2], &[0, 2, 3]).unwrap();

    db.insert(&[0, 0, 2, 0, 0, 0, 0, 0], &[0, 3, 1]).unwrap();
    db.insert(&[0, 0, 2, 0, 0, 0, 0, 1], &[0, 3, 2]).unwrap();
    db.insert(&[0, 0, 2, 0, 0, 0, 0, 2], &[0, 3, 3]).unwrap();

    db.insert(&[0, 1, 0, 0, 0, 0, 0, 3], &[0, 1, 4]).unwrap();
    db.insert(&[0, 1, 0, 0, 0, 0, 0, 4], &[0, 1, 5]).unwrap();
    db.insert(&[0, 1, 0, 0, 0, 0, 0, 5], &[0, 1, 6]).unwrap();

    let given_key: &[u8; 8] = &[0, 0, 0, 0, 0, 0, 0, u8::MAX];
    let entries = db.range(None, given_key).unwrap();
    let mut iter = entries.iter();
    assert_eq!(iter.next().unwrap().value(), &[0, 1, 1]);
    assert_eq!(iter.next().unwrap().value(), &[0, 1, 2]);
    assert_eq!(iter.next().unwrap().value(), &[0, 1, 3]);
    assert!(iter.next().is_none());

    let start: &[u8; 8] = &[0, 0, 1, 0, 0, 0, 0, 0];
    let given_key: &[u8; 8] = &[0, 0, 1, 0, 0, 0, 0, u8::MAX];
    let entries = db.range(Some(start), given_key).unwrap();
    let mut iter = entries.iter();
    assert_eq!(iter.next().unwrap().value(), &[0, 2, 1]);
    assert_eq!(iter.next().unwrap().value(), &[0, 2, 2]);
    assert_eq!(iter.next().unwrap().value(), &[0, 2, 3]);
    assert!(iter.next().is_none());

    let given_key: &[u8; 2] = &[0, 1];
    let last_entry_prior = db
        .next_back_entry(given_key)
        .expect("No entry found prior to the given key")
        .unwrap();
    assert_eq!(last_entry_prior.value(), &[0, 3, 3]);

    let start: &[u8; 8] = &[0, 1, 0, 0, 0, 0, 0, 3];
    let given_key: &[u8; 8] = &[0, 1, 0, 0, 0, 0, 0, u8::MAX];
    let entries = db.range(Some(start), given_key).unwrap();
    let mut iter = entries.iter();
    assert_eq!(iter.next().unwrap().value(), &[0, 1, 4]);
    assert_eq!(iter.next().unwrap().value(), &[0, 1, 5]);
    assert_eq!(iter.next().unwrap().value(), &[0, 1, 6]);
    assert!(iter.next().is_none());
}

#[test]
fn next_back_entry_on_empty_prefix_is_none() {
    let mut db = MemKv::new();
    db.insert(&[5, 0], &[1]).unwrap();
    assert!(db.next_back_entry(&[4, 255]).unwrap().is_none());
    assert!(db.next_back_entry(&[5, 0]).unwrap().is_none());
    assert_eq!(db.next_back_entry(&[5, 0, 0]).unwrap().unwrap().value(), &[1]);
}

#[test]
fn next_clock_of_new_object_is_zero() {
    let mut db = MemKv::new();
    assert_eq!(next_clock(&db, 1, b"doc").unwrap(), 0);
    append(&mut db, 1, b"other", &[9]).unwrap();
    assert_eq!(next_clock(&db, 1, b"doc").unwrap(), 0);
    assert_eq!(next_clock(&db, 2, b"other").unwrap(), 0);
}

#[test]
fn appends_get_dense_clocks() {
    let mut db = MemKv::new();
    let c0: Clock = append(&mut db, 7, b"doc", &[1]).unwrap();
    let c1: Clock = append(&mut db, 7, b"doc", &[2]).unwrap();
    let c2: Clock = append(&mut db, 7, b"doc", &[3]).unwrap();
    assert_eq!((c0, c1, c2), (0, 1, 2));
    assert_eq!(next_clock(&db, 7, b"doc").unwrap(), 3);
}

#[test]
fn load_returns_appends_in_order() {
    let mut db = MemKv::new();
    let updates: Vec<Vec<u8>> = (0..300u32).map(|i| i.to_be_bytes().to_vec()).collect();
    for u in &updates {
        append(&mut db, -3, b"doc_1", u).unwrap();
        append(&mut db, -3, b"doc_2", &[0]).unwrap();
    }
    assert_eq!(load(&db, -3, b"doc_1"), updates);
    assert_eq!(load(&db, -3, b"doc_2").len(), 300);
    assert!(load(&db, -3, b"doc_3").is_empty());
}

#[test]
fn update_keys_sort_by_clock() {
    let k1 = make_doc_update_key(1, b"doc", 255);
    let k2 = make_doc_update_key(1, b"doc", 256);
    assert!(compare_bytes(&k1, &k2) < 0);
    assert_eq!(clock_from_key(&k2), 256);
    assert_eq!(&k1[0..8], &1u64.to_be_bytes());
    assert_eq!(&k1[8..16], &3u64.to_be_bytes());
    assert_eq!(&k1[16..19], b"doc");
    assert_eq!(k1[19], 0);
    assert_eq!(&k1[20..], &255u64.to_be_bytes());
}

#[test]
fn create_fails_when_object_exists() {
    let mut db = MemKv::new();
    assert!(!is_exist(&db, 1, b"doc"));
    create(&mut db, 1, b"doc", &[1, 2]).unwrap();
    assert!(is_exist(&db, 1, b"doc"));
    assert!(matches!(create(&mut db, 1, b"doc", &[3]), Err(CollabLogError::AlreadyExists)));
    assert_eq!(load(&db, 1, b"doc"), vec![vec![1, 2]]);
    assert_eq!(append(&mut db, 1, b"doc", &[4]).unwrap(), 1);
}

#[test]
fn remove_and_remove_range() {
    let mut db = MemKv::new();
    for i in 0..5u8 {
        db.insert(&[1, i], &[i]).unwrap();
    }
    KVStore::remove(&mut db, &[1, 2]).unwrap();
    assert_eq!(db.len(), 4);
    assert!(db.get(&[1, 2]).is_none());
    db.remove_range(&[1, 1], &[1, 4]).unwrap();
    let all = db.range(None, &[2]).unwrap();
    let keys: Vec<Vec<u8>> = all.iter().map(|e| e.key().to_vec()).collect();
    assert_eq!(keys, vec![vec![1, 0], vec![1, 4]]);
    db.insert(&[1, 4], &[9]).unwrap();
    assert_eq!(db.get(&[1, 4]), Some(vec![9]));
}

#[test]
fn single_thread_test() {
    let mut db = MemKv::new();
    for i in 0..100 {
        let oid = format!("doc_{}", i);
        create(&mut db, 1, oid.as_bytes(), &[]).unwrap();
        let update = format!("Hello, world! {}", i);
        append(&mut db, 1, oid.as_bytes(), update.as_bytes()).unwrap();
    }
    for i in 0..100 {
        let oid = format!("doc_{}", i);
        let updates = load(&db, 1, oid.as_bytes());
        let text = String::from_utf8(updates.concat()).unwrap();
        assert_eq!(text, format!("Hello, world! {}", i));
    }
}

#[test]
fn append_fails_when_clock_is_exhausted() {
    let mut db = MemKv::new();
    let key = make_doc_update_key(1, b"doc", u64::MAX);
    db.insert(&key, &[1]).unwrap();
    assert!(matches!(next_clock(&db, 1, b"doc"), Err(CollabLogError::ClockExhausted)));
    assert!(matches!(append(&mut db, 1, b"doc", &[2]), Err(CollabLogError::ClockExhausted)));
    assert_eq!(db.len(), 1);
}

#[test]
fn snapshot_replaces_compacted_updates() {
    let mut db = MemKv::new();
    for u in 0..5u8 {
        append(&mut db, 1, b"doc", &[u]).unwrap();
    }
    append(&mut db, 1, b"other", &[9]).unwrap();
    compact_to_snapshot(&mut db, 1, b"doc", b"S", 2);
    assert_eq!(load(&db, 1, b"doc"), vec![b"S".to_vec(), vec![3], vec![4]]);
    assert_eq!(load_updates(&db, 1, b"doc"), vec![vec![3], vec![4]]);
    assert_eq!(load(&db, 1, b"other"), vec![vec![9]]);
    assert_eq!(append(&mut db, 1, b"doc", &[5]).unwrap(), 5);
    compact_to_snapshot(&mut db, 1, b"doc", b"T", 5);
    assert_eq!(load(&db, 1, b"doc"), vec![b"T".to_vec()]);
    assert_eq!(append(&mut db, 1, b"doc", &[6]).unwrap(), 6);
    assert_eq!(load(&db, 1, b"doc"), vec![b"T".to_vec(), vec![6]]);
    assert!(is_exist(&db, 1, b"doc"));
}

#[test]
fn snapshot_cadence() {
    let c = CollabPersistenceConfig::new();
    assert_eq!(c.snapshot_per_update, 20);
    assert!(!c.should_snapshot(19));
    assert!(c.should_snapshot(20));
    let c = c.snapshot_per_update(0);
    assert!(!c.should_snapshot(1000));
}
