use kvs::KvStore;
use kvs::KvsError;

fn empty_store() -> KvStore {
    KvStore::new()
}

#[test]
fn set_then_get_round_trip() {
    let mut store = empty_store();
    store.set("key01".to_owned(), "value01".to_owned()).unwrap();
    assert_eq!(store.get("key01".to_owned()).unwrap(), Some("value01".to_owned()));
}

#[test]
fn get_missing_key_is_none() {
    let mut store = empty_store();
    store.set("key01".to_owned(), "value01".to_owned()).unwrap();
    assert_eq!(store.get("key02".to_owned()).unwrap(), None);
}

#[test]
fn overwrite_last_write_wins() {
    let mut store = empty_store();
    store.set("key01".to_owned(), "a".to_owned()).unwrap();
    store.set("key01".to_owned(), "b".to_owned()).unwrap();
    assert_eq!(store.get("key01".to_owned()).unwrap(), Some("b".to_owned()));
}

#[test]
fn tombstone_removes_and_second_remove_fails() {
    let mut store = empty_store();
    store.set("key01".to_owned(), "value01".to_owned()).unwrap();
    store.remove("key01".to_owned()).unwrap();
    assert_eq!(store.get("key01".to_owned()).unwrap(), None);
    assert_eq!(store.remove("key01".to_owned()), Err(KvsError::KeyNotFoundError));
}

#[test]
fn remove_missing_key_fails() {
    let mut store = empty_store();
    assert_eq!(store.remove("never-set".to_owned()), Err(KvsError::KeyNotFoundError));
}

#[test]
fn unicode_value_round_trip() {
    let mut store = empty_store();
    store.set("greeting".to_owned(), "h\u{e9}llo w\u{f6}rld \u{1f600}".to_owned()).unwrap();
    assert_eq!(
        store.get("greeting".to_owned()).unwrap(),
        Some("h\u{e9}llo w\u{f6}rld \u{1f600}".to_owned())
    );
}

#[test]
fn escaped_characters_round_trip() {
    let mut store = empty_store();
    let key = "ke\"y\\with\nescapes".to_owned();
    let value = "va\nl\"ue\\".to_owned();
    store.set(key.clone(), value.clone()).unwrap();
    assert_eq!(store.get(key).unwrap(), Some(value));
}

#[test]
fn durability_across_reopen() {
    let mut store = empty_store();
    store.set("a".to_owned(), "1".to_owned()).unwrap();
    store.set("b".to_owned(), "2".to_owned()).unwrap();
    store.set("a".to_owned(), "3".to_owned()).unwrap();
    store.set("c".to_owned(), "4".to_owned()).unwrap();
    store.remove("b".to_owned()).unwrap();
    let file = store.log_bytes().clone();
    let mut reopened = KvStore::open(file).expect("the written log replays");
    assert_eq!(reopened.get("a".to_owned()).unwrap(), Some("3".to_owned()));
    assert_eq!(reopened.get("b".to_owned()).unwrap(), None);
    assert_eq!(reopened.get("c".to_owned()).unwrap(), Some("4".to_owned()));
}

#[test]
fn reopen_tolerates_get_records() {
    // a `Get` may travel over the wire but is also accepted in a log replay
    let bytes = b"{\"Set\":{\"key\":\"a\",\"value\":\"1\"}}\n{\"Get\":{\"key\":\"a\"}}\n".to_vec();
    let mut store = KvStore::open(bytes).unwrap();
    assert_eq!(store.get("a".to_owned()).unwrap(), Some("1".to_owned()));
}

#[test]
fn open_rejects_garbage_record() {
    assert_eq!(
        KvStore::open(b"not a record\n".to_vec()).err(),
        Some(KvsError::Corruption)
    );
}

#[test]
fn open_rejects_unterminated_record() {
    assert_eq!(
        KvStore::open(b"{\"Set\":{\"key\":\"a\",\"value\":\"1\"}}".to_vec()).err(),
        Some(KvsError::Corruption)
    );
}

#[test]
fn compaction_preserves_live_state_and_shrinks_log() {
    let mut store = empty_store();
    let filler = "x".repeat(100);
    for iter in 0..50 {
        for key_id in 0..100 {
            let key = format!("key{}", key_id);
            let value = format!("{}-{}-{}", filler, key_id, iter);
            store.set(key, value).unwrap();
        }
    }
    assert!(!store.take_rewritten(), "the dead bytes stay under the threshold here");
    let size_before = store.log_bytes().len();
    store.compact().unwrap();
    assert!(store.take_rewritten());
    assert_eq!(store.uncompacted_bytes(), 0);
    let size_after = store.log_bytes().len();
    assert!(size_after < size_before);
    for key_id in 0..100 {
        let key = format!("key{}", key_id);
        let expected = format!("{}-{}-{}", filler, key_id, 49);
        assert_eq!(store.get(key).unwrap(), Some(expected));
    }
}

#[test]
fn compaction_triggers_past_threshold() {
    let mut store = empty_store();
    let filler = "y".repeat(4000);
    let mut rewritten = false;
    for iter in 0..300 {
        store.set("big".to_owned(), format!("{}-{}", filler, iter)).unwrap();
        if store.take_rewritten() {
            rewritten = true;
        }
    }
    assert!(rewritten, "overwriting one large key past the threshold compacts the log");
    assert_eq!(store.get("big".to_owned()).unwrap(), Some(format!("{}-{}", filler, 299)));
}

#[test]
fn compacted_log_reopens_to_same_state() {
    let mut store = empty_store();
    for key_id in 0..20 {
        store.set(format!("k{}", key_id), format!("v{}", key_id)).unwrap();
        store.set(format!("k{}", key_id), format!("w{}", key_id)).unwrap();
    }
    store.remove("k3".to_owned()).unwrap();
    store.compact().unwrap();
    let mut reopened = KvStore::open(store.log_bytes().clone()).unwrap();
    for key_id in 0..20 {
        let expected = if key_id == 3 { None } else { Some(format!("w{}", key_id)) };
        assert_eq!(reopened.get(format!("k{}", key_id)).unwrap(), expected);
    }
}

#[test]
fn log_grows_by_one_record_per_set() {
    let mut store = empty_store();
    store.set("a".to_owned(), "1".to_owned()).unwrap();
    let expected = b"{\"Set\":{\"key\":\"a\",\"value\":\"1\"}}\n".to_vec();
    assert_eq!(store.log_bytes().clone(), expected);
    assert_eq!(store.position(), expected.len() as u64);
    store.remove("a".to_owned()).unwrap();
    let mut expected2 = expected.clone();
    expected2.extend_from_slice(b"{\"Rm\":{\"key\":\"a\"}}\n");
    assert_eq!(store.log_bytes().clone(), expected2);
}

#[test]
fn my_test() -> Result<(), KvsError> {
    let mut store = KvStore::open(Vec::new())?;
    for iter in 0..28 {
        for key_id in 0..1000 {
            let key = format!("key{}", key_id);
            let value = format!("{}", iter);
            store.set(key, value)?;
        }
    }
    Ok(())
}

#[test]
fn dead_bytes_accounting() {
    let mut store = empty_store();
    store.set("a".to_owned(), "1".to_owned()).unwrap();
    assert_eq!(store.uncompacted_bytes(), 0);
    let first = store.log_bytes().len();
    store.set("a".to_owned(), "22".to_owned()).unwrap();
    assert_eq!(store.uncompacted_bytes(), first as u64);
    store.remove("a".to_owned()).unwrap();
    // the superseded records and the tombstone itself are all dead now
    assert_eq!(store.uncompacted_bytes(), store.log_bytes().len() as u64);
}
