//! Binary encoding of the commands stored in the log.
//!
//! A command is a little-endian `u32` tag followed by its strings, each
//! written as a little-endian `u64` byte count and its UTF-8 bytes.
use vstd::bytes::*;
use vstd::prelude::*;
use vstd::slice::*;
use vstd::utf8::*;

use crate::error::Error;

verus! {

/// Tag of a `Put` command.
pub const PUT_TAG: u32 = 0;

/// Tag of a `Remove` command. Tag 1 is reserved and never written.
pub const REMOVE_TAG: u32 = 2;

/// An operation recorded in the log.
#[derive(Debug, Clone, PartialEq, Eq)]
pub enum Command {
    Put { key: String, value: String },
    Remove { key: String },
}

/// The mathematical value of a [`Command`].
pub enum CommandModel {
    Put { key: Seq<char>, value: Seq<char> },
    Remove { key: Seq<char> },
}

impl CommandModel {
    pub open spec fn key(self) -> Seq<char> {
        match self {
            CommandModel::Put { key, .. } => key,
            CommandModel::Remove { key } => key,
        }
    }
}

impl View for Command {
    type V = CommandModel;

    open spec fn view(&self) -> CommandModel {
        match self {
            Command::Put { key, value } => CommandModel::Put { key: key@, value: value@ },
            Command::Remove { key } => CommandModel::Remove { key: key@ },
        }
    }
}

/// A string as it is written: its UTF-8 byte count, then the bytes.
pub open spec fn str_bytes(s: Seq<char>) -> Seq<u8> {
    spec_u64_to_le_bytes(encode_utf8(s).len() as u64) + encode_utf8(s)
}

/// The bytes that encode a command.
pub open spec fn encode_spec(c: CommandModel) -> Seq<u8> {
    match c {
        CommandModel::Put { key, value } => spec_u32_to_le_bytes(PUT_TAG) + str_bytes(key)
            + str_bytes(value),
        CommandModel::Remove { key } => spec_u32_to_le_bytes(REMOVE_TAG) + str_bytes(key),
    }
}

/// The command that `b` encodes, if it encodes one.
pub open spec fn decode_spec(b: Seq<u8>) -> Option<CommandModel> {
    if exists|c: CommandModel| encode_spec(c) == b {
        Some(choose|c: CommandModel| encode_spec(c) == b)
    } else {
        None
    }
}

fn push_str(out: &mut Vec<u8>, s: &str)
    ensures
        final(out)@ == old(out)@ + str_bytes(s@),
{
    let b = s.as_bytes();
    let mut count = u64_to_le_bytes(b.len() as u64);
    out.append(&mut count);
    let mut body = slice_to_vec(b);
    out.append(&mut body);
    assert(final(out)@ =~= old(out)@ + str_bytes(s@));
}

/// Encodes a command.
pub fn encode(c: &Command) -> (r: Vec<u8>)
    ensures
        r@ == encode_spec(c@),
{
    match c {
        Command::Put { key, value } => {
            let mut out = u32_to_le_bytes(PUT_TAG);
            push_str(&mut out, key.as_str());
            push_str(&mut out, value.as_str());
            assert(out@ =~= encode_spec(c@));
            out
        },
        Command::Remove { key } => {
            let mut out = u32_to_le_bytes(REMOVE_TAG);
            push_str(&mut out, key.as_str());
            out
        },
    }
}

/// Relies on `std::str::from_utf8`: it accepts exactly the valid UTF-8
/// byte sequences, and the string it gives holds the characters they encode.
#[verifier::external_body]
fn utf8_string(b: &[u8]) -> (r: Option<String>)
    ensures
        r is Some <==> valid_utf8(b@),
        r matches Some(s) ==> s@ == decode_utf8(b@),
{
    match std::str::from_utf8(b) {
        Ok(s) => Some(s.to_owned()),
        Err(_) => None,
    }
}

/// Two strings written one after the other can be read back in one way only.
pub proof fn lemma_str_bytes_unique(s1: Seq<char>, s2: Seq<char>, r1: Seq<u8>, r2: Seq<u8>)
    requires
        str_bytes(s1) + r1 == str_bytes(s2) + r2,
        (str_bytes(s1) + r1).len() <= u64::MAX,
    ensures
        s1 == s2,
        r1 == r2,
{
    lemma_auto_spec_u64_to_from_le_bytes();
    let x = str_bytes(s1) + r1;
    let n1 = encode_utf8(s1).len() as int;
    let n2 = encode_utf8(s2).len() as int;
    assert(x.subrange(0, 8) =~= spec_u64_to_le_bytes(n1 as u64));
    assert(x.subrange(0, 8) =~= spec_u64_to_le_bytes(n2 as u64));
    assert(n1 == n2);
    assert(x.subrange(8, 8 + n1) =~= encode_utf8(s1));
    assert(x.subrange(8, 8 + n2) =~= encode_utf8(s2));
    encode_utf8_decode_utf8(s1);
    encode_utf8_decode_utf8(s2);
    assert(r1 =~= x.subrange(8 + n1, x.len() as int));
    assert(r2 =~= x.subrange(8 + n2, x.len() as int));
}

/// Distinct commands have distinct encodings.
pub proof fn lemma_encode_injective(c1: CommandModel, c2: CommandModel)
    requires
        encode_spec(c1) == encode_spec(c2),
        encode_spec(c1).len() <= u64::MAX,
    ensures
        c1 == c2,
{
    lemma_auto_spec_u32_to_from_le_bytes();
    let x = encode_spec(c1);
    let t1 = if c1 is Put { PUT_TAG } else { REMOVE_TAG };
    let t2 = if c2 is Put { PUT_TAG } else { REMOVE_TAG };
    assert(x.subrange(0, 4) =~= spec_u32_to_le_bytes(t1));
    assert(x.subrange(0, 4) =~= spec_u32_to_le_bytes(t2));
    assert(t1 == t2);
    let tail = x.subrange(4, x.len() as int);
    match c1 {
        CommandModel::Put { key: k1, value: v1 } => {
            let k2 = c2->Put_key;
            let v2 = c2->Put_value;
            assert(tail =~= str_bytes(k1) + str_bytes(v1));
            assert(tail =~= str_bytes(k2) + str_bytes(v2));
            lemma_str_bytes_unique(k1, k2, str_bytes(v1), str_bytes(v2));
            assert(str_bytes(v1) =~= str_bytes(v1) + Seq::<u8>::empty());
            assert(str_bytes(v2) =~= str_bytes(v2) + Seq::<u8>::empty());
            lemma_str_bytes_unique(v1, v2, Seq::empty(), Seq::empty());
        },
        CommandModel::Remove { key: k1 } => {
            let k2 = c2->Remove_key;
            assert(tail =~= str_bytes(k1) + Seq::<u8>::empty());
            assert(tail =~= str_bytes(k2) + Seq::<u8>::empty());
            lemma_str_bytes_unique(k1, k2, Seq::empty(), Seq::empty());
        },
    }
}

/// Decoding gives back the command that was encoded.
pub proof fn lemma_decode_encode(c: CommandModel)
    requires
        encode_spec(c).len() <= u64::MAX,
    ensures
        decode_spec(encode_spec(c)) == Some(c),
{
    let b = encode_spec(c);
    assert(exists|d: CommandModel| encode_spec(d) == b);
    let d = choose|d: CommandModel| encode_spec(d) == b;
    lemma_encode_injective(c, d);
}

/// Reads a string that starts at `pos`, with the position just past it.
fn read_str(b: &[u8], pos: usize) -> (r: Option<(String, usize)>)
    requires
        pos <= b@.len(),
    ensures
        match r {
            Some((s, end)) => pos <= end <= b@.len() && b@.subrange(pos as int, end as int)
                == str_bytes(s@),
            None => forall|s: Seq<char>, rest: Seq<u8>|
                b@.subrange(pos as int, b@.len() as int) != #[trigger] (str_bytes(s) + rest),
        },
{
    proof {
        lemma_auto_spec_u64_to_from_le_bytes();
    }
    let ghost tail = b@.subrange(pos as int, b@.len() as int);
    if b.len() - pos < 8 {
        assert forall|s: Seq<char>, rest: Seq<u8>| tail != #[trigger] (str_bytes(s) + rest) by {
            if tail == str_bytes(s) + rest {
                assert(tail.len() >= 8);
            }
        }
        return None;
    }
    let count = u64_from_le_bytes(slice_subrange(b, pos, pos + 8));
    if count > (b.len() - pos - 8) as u64 {
        assert forall|s: Seq<char>, rest: Seq<u8>| tail != #[trigger] (str_bytes(s) + rest) by {
            if tail == str_bytes(s) + rest {
                let n = encode_utf8(s).len() as int;
                assert(tail.subrange(0, 8) =~= b@.subrange(pos as int, pos + 8));
                assert(tail.subrange(0, 8) =~= spec_u64_to_le_bytes(n as u64));
            }
        }
        return None;
    }
    let end = pos + 8 + count as usize;
    let body = slice_subrange(b, pos + 8, end);
    match utf8_string(body) {
        Some(s) => {
            proof {
                decode_utf8_encode_utf8(body@);
                assert(b@.subrange(pos as int, end as int) =~= b@.subrange(pos as int, pos + 8)
                    + body@);
            }
            Some((s, end))
        },
        None => {
            assert forall|s: Seq<char>, rest: Seq<u8>| tail != #[trigger] (str_bytes(s) + rest) by {
                if tail == str_bytes(s) + rest {
                    let n = encode_utf8(s).len() as int;
                    assert(tail.subrange(0, 8) =~= b@.subrange(pos as int, pos + 8));
                    assert(tail.subrange(0, 8) =~= spec_u64_to_le_bytes(n as u64));
                    assert(tail.subrange(8, 8 + n) =~= encode_utf8(s));
                    assert(tail.subrange(8, 8 + n) =~= body@);
                    encode_utf8_valid_utf8(s);
                }
            }
            None
        },
    }
}

/// What the encoding of `c` holds after its tag.
proof fn lemma_encoding_parts(b: Seq<u8>, c: CommandModel)
    requires
        encode_spec(c) == b,
    ensures
        b.len() >= 4,
        spec_u32_from_le_bytes(b.subrange(0, 4)) == (if c is Put { PUT_TAG } else { REMOVE_TAG }),
        c matches CommandModel::Put { key, value } ==> b.subrange(4, b.len() as int) == str_bytes(
            key,
        ) + str_bytes(value),
        c matches CommandModel::Remove { key } ==> b.subrange(4, b.len() as int) == str_bytes(key)
            + Seq::<u8>::empty(),
{
    lemma_auto_spec_u32_to_from_le_bytes();
    match c {
        CommandModel::Put { key, value } => {
            assert(b.subrange(0, 4) =~= spec_u32_to_le_bytes(PUT_TAG));
            assert(b.subrange(4, b.len() as int) =~= str_bytes(key) + str_bytes(value));
        },
        CommandModel::Remove { key } => {
            assert(b.subrange(0, 4) =~= spec_u32_to_le_bytes(REMOVE_TAG));
            assert(b.subrange(4, b.len() as int) =~= str_bytes(key) + Seq::<u8>::empty());
        },
    }
}

/// Decodes a command; fails with `CorruptRecord` unless `b` is exactly the
/// encoding of a command.
pub fn decode(b: &[u8]) -> (r: Result<Command, Error>)
    ensures
        match r {
            Ok(c) => decode_spec(b@) == Some(c@),
            Err(e) => e == Error::CorruptRecord && decode_spec(b@) is None,
        },
{
    if b.len() < 4 {
        assert forall|c: CommandModel| encode_spec(c) != b@ by {
            if encode_spec(c) == b@ {
                lemma_encoding_parts(b@, c);
            }
        }
        return Err(Error::CorruptRecord);
    }
    let tag = u32_from_le_bytes(slice_subrange(b, 0, 4));
    let ghost tail = b@.subrange(4, b@.len() as int);
    let ghost len = b@.len() as int;
    if tag == PUT_TAG {
        match read_str(b, 4) {
            Some((key, p)) => {
                assert(tail =~= b@.subrange(4, p as int) + b@.subrange(p as int, len));
                match read_str(b, p) {
                    Some((value, q)) => {
                        assert(b@.subrange(p as int, len) =~= b@.subrange(p as int, q as int)
                            + b@.subrange(q as int, len));
                        if q == b.len() {
                            let c = Command::Put { key, value };
                            proof {
                                lemma_auto_spec_u32_to_from_le_bytes();
                                assert(b@.subrange(0, 4) == spec_u32_to_le_bytes(PUT_TAG));
                                assert(b@ =~= b@.subrange(0, 4) + tail);
                                assert(b@ =~= encode_spec(c@));
                                lemma_decode_encode(c@);
                            }
                            return Ok(c);
                        }
                        assert forall|c: CommandModel| encode_spec(c) != b@ by {
                            if encode_spec(c) == b@ {
                                lemma_encoding_parts(b@, c);
                                let k = c->Put_key;
                                let v = c->Put_value;
                                lemma_str_bytes_unique(
                                    key@,
                                    k,
                                    b@.subrange(p as int, len),
                                    str_bytes(v),
                                );
                                assert(str_bytes(v) =~= str_bytes(v) + Seq::<u8>::empty());
                                lemma_str_bytes_unique(
                                    value@,
                                    v,
                                    b@.subrange(q as int, len),
                                    Seq::empty(),
                                );
                            }
                        }
                    },
                    None => {
                        assert forall|c: CommandModel| encode_spec(c) != b@ by {
                            if encode_spec(c) == b@ {
                                lemma_encoding_parts(b@, c);
                                let k = c->Put_key;
                                let v = c->Put_value;
                                lemma_str_bytes_unique(
                                    key@,
                                    k,
                                    b@.subrange(p as int, len),
                                    str_bytes(v),
                                );
                                assert(str_bytes(v) + Seq::<u8>::empty() =~= str_bytes(v));
                                assert(b@.subrange(p as int, len) != str_bytes(v)
                                    + Seq::<u8>::empty());
                            }
                        }
                    },
                }
            },
            None => {
                assert forall|c: CommandModel| encode_spec(c) != b@ by {
                    if encode_spec(c) == b@ {
                        lemma_encoding_parts(b@, c);
                        let k = c->Put_key;
                                let v = c->Put_value;
                        assert(tail != str_bytes(k) + str_bytes(v));
                    }
                }
            },
        }
    } else if tag == REMOVE_TAG {
        match read_str(b, 4) {
            Some((key, p)) => {
                assert(tail =~= b@.subrange(4, p as int) + b@.subrange(p as int, len));
                if p == b.len() {
                    let c = Command::Remove { key };
                    proof {
                        lemma_auto_spec_u32_to_from_le_bytes();
                        assert(b@.subrange(0, 4) == spec_u32_to_le_bytes(REMOVE_TAG));
                        assert(b@ =~= b@.subrange(0, 4) + tail);
                        assert(b@ =~= encode_spec(c@));
                        lemma_decode_encode(c@);
                    }
                    return Ok(c);
                }
                assert forall|c: CommandModel| encode_spec(c) != b@ by {
                    if encode_spec(c) == b@ {
                        lemma_encoding_parts(b@, c);
                        let k = c->Remove_key;
                        lemma_str_bytes_unique(
                            key@,
                            k,
                            b@.subrange(p as int, len),
                            Seq::empty(),
                        );
                    }
                }
            },
            None => {
                assert forall|c: CommandModel| encode_spec(c) != b@ by {
                    if encode_spec(c) == b@ {
                        lemma_encoding_parts(b@, c);
                        let k = c->Remove_key;
                        assert(tail != str_bytes(k) + Seq::<u8>::empty());
                    }
                }
            },
        }
    } else {
        assert forall|c: CommandModel| encode_spec(c) != b@ by {
            if encode_spec(c) == b@ {
                lemma_encoding_parts(b@, c);
            }
        }
    }
    Err(Error::CorruptRecord)
}

} // verus!
