use kvs::index::Index;
use kvs::log::Log;
use kvs::{encode, Command, Error};

fn put(key: &str, value: &str) -> Command {
    Command::Put { key: key.to_owned(), value: value.to_owned() }
}

#[test]
fn append_returns_record_offsets() {
    let mut log = Log::from_bytes(Vec::new());
    let first = encode(&put("a", "1"));
    let second = encode(&Command::Remove { key: "a".to_owned() });
    assert_eq!(log.append(&first), Ok(0));
    assert_eq!(log.append(&second), Ok(2 + first.len() as u64));
    assert_eq!(log.len(), 4 + first.len() + second.len());
}

#[test]
fn append_writes_length_high_byte_first() {
    let mut log = Log::from_bytes(Vec::new());
    let payload = vec![7u8; 300];
    log.append(&payload).unwrap();
    assert_eq!(&log.as_bytes()[..2], &[1, 44]);
    assert_eq!(&log.as_bytes()[2..], &payload[..]);
}

#[test]
fn append_rejects_oversized_payload() {
    let mut log = Log::from_bytes(vec![1, 2, 3]);
    assert_eq!(log.append(&vec![0u8; 65536]), Err(Error::RecordTooLarge));
    assert_eq!(log.as_bytes(), &[1, 2, 3]);
}

#[test]
fn read_at_returns_command_and_next_offset() {
    let mut log = Log::from_bytes(Vec::new());
    let a = encode(&put("a", "1"));
    log.append(&a).unwrap();
    let off = log.append(&encode(&put("b", "22"))).unwrap();
    assert_eq!(log.read_at(0), Ok((put("a", "1"), off)));
    assert_eq!(log.read_at(off), Ok((put("b", "22"), log.len() as u64)));
}

#[test]
fn read_at_past_end_is_io_error() {
    let mut log = Log::from_bytes(Vec::new());
    log.append(&encode(&put("a", "1"))).unwrap();
    assert!(matches!(log.read_at(log.len() as u64), Err(Error::Io(_))));
    assert!(matches!(log.read_at(u64::MAX), Err(Error::Io(_))));
    let cut = Log::from_bytes(log.as_bytes()[..log.len() - 1].to_vec());
    assert!(matches!(cut.read_at(0), Err(Error::Io(_))));
}

#[test]
fn read_at_corrupt_payload_is_corrupt_record() {
    let log = Log::from_bytes(vec![0, 3, 9, 9, 9]);
    assert_eq!(log.read_at(0), Err(Error::CorruptRecord));
}

#[test]
fn records_lists_every_record_with_its_offset() {
    let mut log = Log::from_bytes(Vec::new());
    let o1 = log.append(&encode(&put("a", "1"))).unwrap();
    let o2 = log.append(&encode(&Command::Remove { key: "a".to_owned() })).unwrap();
    let records = log.records();
    assert_eq!(
        records,
        vec![(put("a", "1"), o1), (Command::Remove { key: "a".to_owned() }, o2)]
    );
}

#[test]
fn rebuild_twice_gives_the_same_index() {
    let mut log = Log::from_bytes(Vec::new());
    log.append(&encode(&put("a", "1"))).unwrap();
    let b = log.append(&encode(&put("b", "2"))).unwrap();
    log.append(&encode(&Command::Remove { key: "a".to_owned() })).unwrap();
    let c = log.append(&encode(&put("c", "3"))).unwrap();
    let records = log.records();
    let first = Index::rebuild(&records);
    let second = Index::rebuild(&records);
    for key in ["a", "b", "c", "d"] {
        assert_eq!(first.lookup(&key.to_owned()), second.lookup(&key.to_owned()));
    }
    assert_eq!(first.lookup(&"a".to_owned()), None);
    assert_eq!(first.lookup(&"b".to_owned()), Some(b));
    assert_eq!(first.lookup(&"c".to_owned()), Some(c));
}

#[test]
fn index_insert_overwrites_and_remove_drops() {
    let mut index = Index::new();
    index.insert("k".to_owned(), 5);
    index.insert("j".to_owned(), 9);
    index.insert("k".to_owned(), 7);
    assert_eq!(index.lookup(&"k".to_owned()), Some(7));
    index.remove(&"k".to_owned());
    assert_eq!(index.lookup(&"k".to_owned()), None);
    assert_eq!(index.lookup(&"j".to_owned()), Some(9));
}
