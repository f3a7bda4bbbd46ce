use kvs::{decode, encode, Command, Error};

fn put(key: &str, value: &str) -> Command {
    Command::Put { key: key.to_owned(), value: value.to_owned() }
}

#[test]
fn encode_put_exact_bytes() {
    let expected: Vec<u8> = vec![
        0, 0, 0, 0, 1, 0, 0, 0, 0, 0, 0, 0, b'a', 2, 0, 0, 0, 0, 0, 0, 0, b'b', b'c',
    ];
    assert_eq!(encode(&put("a", "bc")), expected);
}

#[test]
fn encode_remove_exact_bytes() {
    let expected: Vec<u8> = vec![2, 0, 0, 0, 3, 0, 0, 0, 0, 0, 0, 0, b'k', b'e', b'y'];
    assert_eq!(encode(&Command::Remove { key: "key".to_owned() }), expected);
}

#[test]
fn encoding_matches_bincode_layout() {
    let ours = encode(&put("key", "välue"));
    let theirs = bincode::serialize(&(0u32, "key", "välue")).unwrap();
    assert_eq!(ours, theirs);
    let ours = encode(&Command::Remove { key: "key".to_owned() });
    let theirs = bincode::serialize(&(2u32, "key")).unwrap();
    assert_eq!(ours, theirs);
}

#[test]
fn decode_inverts_encode() {
    let commands = vec![
        put("a", "1"),
        put("", ""),
        put("ключ", "значение ✓"),
        Command::Remove { key: "a".to_owned() },
        Command::Remove { key: String::new() },
    ];
    for c in commands {
        assert_eq!(decode(&encode(&c)), Ok(c.clone()));
    }
}

#[test]
fn decode_rejects_short_input() {
    assert_eq!(decode(&[]), Err(Error::CorruptRecord));
    assert_eq!(decode(&[0, 0, 0]), Err(Error::CorruptRecord));
}

#[test]
fn decode_rejects_unknown_tag() {
    let mut bytes = encode(&Command::Remove { key: "a".to_owned() });
    bytes[0] = 1;
    assert_eq!(decode(&bytes), Err(Error::CorruptRecord));
    bytes[0] = 7;
    assert_eq!(decode(&bytes), Err(Error::CorruptRecord));
}

#[test]
fn decode_rejects_trailing_bytes() {
    let mut bytes = encode(&put("a", "1"));
    bytes.push(0);
    assert_eq!(decode(&bytes), Err(Error::CorruptRecord));
}

#[test]
fn decode_rejects_truncated_input() {
    let bytes = encode(&put("a", "1"));
    assert_eq!(decode(&bytes[..bytes.len() - 1]), Err(Error::CorruptRecord));
}

#[test]
fn decode_rejects_invalid_utf8() {
    let mut bytes = encode(&put("a", "1"));
    bytes[12] = 0xff;
    assert_eq!(decode(&bytes), Err(Error::CorruptRecord));
}

#[test]
fn decode_rejects_overlong_length() {
    let mut bytes = encode(&Command::Remove { key: "a".to_owned() });
    bytes[11] = 0x80;
    assert_eq!(decode(&bytes), Err(Error::CorruptRecord));
}
