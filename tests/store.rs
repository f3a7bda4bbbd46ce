use kvs::{Error, KvStore};

fn fresh() -> KvStore {
    KvStore::open(Vec::new())
}

#[test]
fn overwrite_remove_and_missing_key_scenario() {
    let mut store = fresh();
    store.set("a".to_owned(), "1".to_owned()).unwrap();
    store.set("a".to_owned(), "2".to_owned()).unwrap();
    assert_eq!(store.get("a".to_owned()), Ok(Some("2".to_owned())));
    store.set("b".to_owned(), "x".to_owned()).unwrap();
    assert_eq!(store.remove("b".to_owned()), Ok("x".to_owned()));
    assert_eq!(store.get("b".to_owned()), Ok(None));
    assert_eq!(store.remove("b".to_owned()), Err(Error::KeyNotFound("b".to_owned())));
}

#[test]
fn get_after_last_set_ignores_other_keys() {
    let mut store = fresh();
    store.set("k".to_owned(), "v1".to_owned()).unwrap();
    store.set("other".to_owned(), "o".to_owned()).unwrap();
    store.set("k".to_owned(), "v2".to_owned()).unwrap();
    store.set("third".to_owned(), "t".to_owned()).unwrap();
    store.remove("other".to_owned()).unwrap();
    assert_eq!(store.get("k".to_owned()), Ok(Some("v2".to_owned())));
    assert_eq!(store.get("third".to_owned()), Ok(Some("t".to_owned())));
}

#[test]
fn get_of_never_set_key_is_empty() {
    let mut store = fresh();
    assert_eq!(store.get("nothing".to_owned()), Ok(None));
    store.set("a".to_owned(), "1".to_owned()).unwrap();
    assert_eq!(store.get("nothing".to_owned()), Ok(None));
}

#[test]
fn get_after_remove_is_empty_until_set_again() {
    let mut store = fresh();
    store.set("a".to_owned(), "1".to_owned()).unwrap();
    assert_eq!(store.remove("a".to_owned()), Ok("1".to_owned()));
    assert_eq!(store.get("a".to_owned()), Ok(None));
    store.set("a".to_owned(), "3".to_owned()).unwrap();
    assert_eq!(store.get("a".to_owned()), Ok(Some("3".to_owned())));
}

#[test]
fn remove_of_never_set_key_fails_and_writes_nothing() {
    let mut store = fresh();
    store.set("a".to_owned(), "1".to_owned()).unwrap();
    let before = store.log_bytes().to_vec();
    assert_eq!(store.remove("zz".to_owned()), Err(Error::KeyNotFound("zz".to_owned())));
    assert_eq!(store.log_bytes(), &before[..]);
}

#[test]
fn remove_returns_last_set_value() {
    let mut store = fresh();
    store.set("a".to_owned(), "first".to_owned()).unwrap();
    store.set("a".to_owned(), "second".to_owned()).unwrap();
    assert_eq!(store.remove("a".to_owned()), Ok("second".to_owned()));
    assert_eq!(store.get("a".to_owned()), Ok(None));
}

#[test]
fn reopen_reproduces_every_key() {
    let mut store = fresh();
    store.set("a".to_owned(), "1".to_owned()).unwrap();
    store.set("b".to_owned(), "2".to_owned()).unwrap();
    store.set("a".to_owned(), "3".to_owned()).unwrap();
    store.remove("b".to_owned()).unwrap();
    store.set("c".to_owned(), "4".to_owned()).unwrap();
    store.set("b".to_owned(), "5".to_owned()).unwrap();
    store.remove("c".to_owned()).unwrap();
    let reopened = KvStore::open(store.log_bytes().to_vec());
    for key in ["a", "b", "c", "d"] {
        assert_eq!(reopened.get(key.to_owned()), store.get(key.to_owned()));
    }
    assert_eq!(reopened.get("a".to_owned()), Ok(Some("3".to_owned())));
    assert_eq!(reopened.get("b".to_owned()), Ok(Some("5".to_owned())));
    assert_eq!(reopened.get("c".to_owned()), Ok(None));
}

#[test]
fn reopened_store_keeps_working() {
    let mut store = fresh();
    store.set("a".to_owned(), "1".to_owned()).unwrap();
    let mut reopened = KvStore::open(store.log_bytes().to_vec());
    reopened.set("b".to_owned(), "2".to_owned()).unwrap();
    assert_eq!(reopened.remove("a".to_owned()), Ok("1".to_owned()));
    let again = KvStore::open(reopened.log_bytes().to_vec());
    assert_eq!(again.get("a".to_owned()), Ok(None));
    assert_eq!(again.get("b".to_owned()), Ok(Some("2".to_owned())));
}

#[test]
fn replay_stops_at_a_torn_tail() {
    let mut store = fresh();
    store.set("a".to_owned(), "1".to_owned()).unwrap();
    let mut bytes = store.log_bytes().to_vec();
    let whole = bytes.len();
    store.set("b".to_owned(), "2".to_owned()).unwrap();
    bytes.extend_from_slice(&store.log_bytes()[whole..whole + 5]);
    let reopened = KvStore::open(bytes);
    assert_eq!(reopened.get("a".to_owned()), Ok(Some("1".to_owned())));
    assert_eq!(reopened.get("b".to_owned()), Ok(None));
}

#[test]
fn replay_stops_at_a_corrupt_record() {
    let mut store = fresh();
    store.set("a".to_owned(), "1".to_owned()).unwrap();
    let mut bytes = store.log_bytes().to_vec();
    bytes.extend_from_slice(&[0, 4, 1, 0, 0, 0]);
    let reopened = KvStore::open(bytes);
    assert_eq!(reopened.get("a".to_owned()), Ok(Some("1".to_owned())));
}

#[test]
fn set_of_oversized_value_fails_and_changes_nothing() {
    let mut store = fresh();
    store.set("a".to_owned(), "1".to_owned()).unwrap();
    let before = store.log_bytes().to_vec();
    let big = "x".repeat(65535);
    assert_eq!(store.set("a".to_owned(), big), Err(Error::RecordTooLarge));
    assert_eq!(store.log_bytes(), &before[..]);
    assert_eq!(store.get("a".to_owned()), Ok(Some("1".to_owned())));
}

#[test]
fn set_of_largest_record_succeeds() {
    let mut store = fresh();
    // 4 tag bytes, 8 + 1 for the key and 8 for the value's length.
    let value = "y".repeat(65535 - 21);
    store.set("k".to_owned(), value.clone()).unwrap();
    assert_eq!(store.log_bytes().len(), 2 + 65535);
    assert_eq!(&store.log_bytes()[..2], &[0xff, 0xff]);
    assert_eq!(store.get("k".to_owned()), Ok(Some(value)));
}

#[test]
fn set_appends_exactly_one_framed_record() {
    let mut store = fresh();
    store.set("a".to_owned(), "1".to_owned()).unwrap();
    let expected: Vec<u8> = vec![
        0, 22, // length, big-endian
        0, 0, 0, 0, // tag
        1, 0, 0, 0, 0, 0, 0, 0, b'a', // key
        1, 0, 0, 0, 0, 0, 0, 0, b'1', // value
    ];
    assert_eq!(store.log_bytes(), &expected[..]);
}

#[test]
fn unicode_keys_and_values_round_trip() {
    let mut store = fresh();
    store.set("clé".to_owned(), "värde ✓".to_owned()).unwrap();
    store.set("".to_owned(), "empty key".to_owned()).unwrap();
    let reopened = KvStore::open(store.log_bytes().to_vec());
    assert_eq!(reopened.get("clé".to_owned()), Ok(Some("värde ✓".to_owned())));
    assert_eq!(reopened.get("".to_owned()), Ok(Some("empty key".to_owned())));
}
