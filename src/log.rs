//! The append-only log: a sequence of records, each a two-byte big-endian
//! payload length followed by the encoded command.
use byteorder::{BigEndian, ByteOrder};
use vstd::prelude::*;
use vstd::slice::*;

use crate::codec::{decode, decode_spec, encode_spec, lemma_decode_encode, Command, CommandModel};
use crate::error::Error;

verus! {

/// The largest payload that the two-byte length prefix can describe.
pub const MAX_PAYLOAD: usize = 65535;

/// The number that two bytes give when read high byte first.
pub open spec fn be_u16(hi: u8, lo: u8) -> int {
    hi as int * 256 + lo as int
}

/// The two bytes that hold `n` high byte first.
pub open spec fn be_u16_bytes(n: int) -> Seq<u8> {
    seq![(n / 256) as u8, (n % 256) as u8]
}

/// A payload as it is written to the log.
pub open spec fn frame(payload: Seq<u8>) -> Seq<u8> {
    be_u16_bytes(payload.len() as int) + payload
}

/// The payload length that the record at `off` announces.
pub open spec fn payload_len(log: Seq<u8>, off: int) -> int {
    be_u16(log[off], log[off + 1])
}

/// The offset just past the record at `off`.
pub open spec fn next_offset(log: Seq<u8>, off: int) -> int {
    off + 2 + payload_len(log, off)
}

/// The log holds the whole record that starts at `off`.
pub open spec fn record_in_bounds(log: Seq<u8>, off: int) -> bool {
    0 <= off && off + 2 <= log.len() && next_offset(log, off) <= log.len()
}

/// The payload of the record at `off`.
pub open spec fn payload_at(log: Seq<u8>, off: int) -> Seq<u8> {
    log.subrange(off + 2, next_offset(log, off))
}

/// The command that the record at `off` holds, if it is whole and decodes.
pub open spec fn record_at(log: Seq<u8>, off: int) -> Option<CommandModel> {
    if record_in_bounds(log, off) {
        decode_spec(payload_at(log, off))
    } else {
        None
    }
}

/// The records that a scan from `off` reads, each with its offset. The scan
/// stops at the first record that is cut short or does not decode.
pub open spec fn records_from(log: Seq<u8>, off: int) -> Seq<(CommandModel, int)>
    decreases log.len() - off,
{
    if record_at(log, off) is Some {
        seq![(record_at(log, off)->0, off)] + records_from(log, next_offset(log, off))
    } else {
        Seq::empty()
    }
}

/// The offset at which a scan from `off` stops.
pub open spec fn scan_end(log: Seq<u8>, off: int) -> int
    decreases log.len() - off,
{
    if record_at(log, off) is Some {
        scan_end(log, next_offset(log, off))
    } else {
        off
    }
}

/// A scan from the start reads the whole log: no torn or corrupt tail.
pub open spec fn is_clean(log: Seq<u8>) -> bool {
    scan_end(log, 0) == log.len()
}

/// Room is left for a record with a payload of `n` bytes.
pub open spec fn can_append(log: Seq<u8>, n: int) -> bool {
    n <= MAX_PAYLOAD && log.len() + 2 + n <= usize::MAX
}

/// Relies on `byteorder`'s `BigEndian::read_u16`: the first two bytes of
/// `b`, high byte first.
#[verifier::external_body]
fn read_be_u16(b: &[u8]) -> (r: u16)
    requires
        b@.len() >= 2,
    ensures
        r as int == be_u16(b@[0], b@[1]),
{
    <BigEndian as ByteOrder>::read_u16(b)
}

/// Relies on `byteorder`'s `BigEndian::write_u16`: `n` as two bytes, high
/// byte first.
#[verifier::external_body]
fn write_be_u16(n: u16) -> (r: Vec<u8>)
    ensures
        r@ == be_u16_bytes(n as int),
{
    let mut buf = vec![0u8; 2];
    <BigEndian as ByteOrder>::write_u16(&mut buf, n);
    buf
}

/// A record written at the end of a log is read back from there, and what
/// stood before it reads as it did.
pub proof fn lemma_frame_read(log: Seq<u8>, payload: Seq<u8>)
    requires
        payload.len() <= MAX_PAYLOAD,
    ensures
        record_in_bounds(log + frame(payload), log.len() as int),
        payload_at(log + frame(payload), log.len() as int) == payload,
        next_offset(log + frame(payload), log.len() as int) == (log + frame(payload)).len(),
        record_at(log + frame(payload), log.len() as int) == decode_spec(payload),
{
    let n = payload.len() as int;
    let l2 = log + frame(payload);
    let off = log.len() as int;
    assert(l2[off] == (n / 256) as u8);
    assert(l2[off + 1] == (n % 256) as u8);
    assert(be_u16((n / 256) as u8, (n % 256) as u8) == n);
    assert(payload_at(l2, off) =~= payload);
}

/// A command appended to a log, when its encoding fits the length prefix, is
/// read back from the offset where its record begins.
pub proof fn lemma_record_round_trip(log: Seq<u8>, c: CommandModel)
    requires
        encode_spec(c).len() <= MAX_PAYLOAD,
    ensures
        record_at(log + frame(encode_spec(c)), log.len() as int) == Some(c),
        next_offset(log + frame(encode_spec(c)), log.len() as int) == log.len() + 2 + encode_spec(
            c,
        ).len(),
{
    lemma_decode_encode(c);
    lemma_frame_read(log, encode_spec(c));
}

/// Appending leaves every whole record before the end as it was.
pub proof fn lemma_record_prefix(log: Seq<u8>, tail: Seq<u8>, off: int)
    requires
        record_in_bounds(log, off),
    ensures
        record_in_bounds(log + tail, off),
        next_offset(log + tail, off) == next_offset(log, off),
        record_at(log + tail, off) == record_at(log, off),
{
    assert(payload_at(log + tail, off) =~= payload_at(log, off));
}

/// Appending a decodable record to a clean log adds it to what a scan reads,
/// and the log stays clean.
pub proof fn lemma_records_append(log: Seq<u8>, payload: Seq<u8>, off: int)
    requires
        payload.len() <= MAX_PAYLOAD,
        decode_spec(payload) is Some,
        0 <= off <= log.len(),
        scan_end(log, off) == log.len(),
    ensures
        records_from(log + frame(payload), off) == records_from(log, off) + seq![
            (decode_spec(payload)->0, log.len() as int),
        ],
        scan_end(log + frame(payload), off) == (log + frame(payload)).len(),
    decreases log.len() - off,
{
    let l2 = log + frame(payload);
    lemma_frame_read(log, payload);
    if off == log.len() {
        assert(record_at(l2, l2.len() as int) is None);
        assert(records_from(l2, l2.len() as int) =~= Seq::<(CommandModel, int)>::empty());
        assert(scan_end(l2, l2.len() as int) == l2.len());
        assert(records_from(log, off) =~= Seq::<(CommandModel, int)>::empty());
        assert(records_from(l2, off) =~= seq![(decode_spec(payload)->0, log.len() as int)]);
    } else {
        assert(record_at(log, off) is Some);
        lemma_record_prefix(log, frame(payload), off);
        lemma_records_append(log, payload, next_offset(log, off));
        assert(records_from(l2, off) =~= records_from(log, off) + seq![
            (decode_spec(payload)->0, log.len() as int),
        ]);
    }
}

/// The log's bytes, which only ever grow at the end.
pub struct Log {
    bytes: Vec<u8>,
}

impl View for Log {
    type V = Seq<u8>;

    closed spec fn view(&self) -> Seq<u8> {
        self.bytes@
    }
}

impl Log {
    /// A log that holds `bytes`, as read from storage.
    pub fn from_bytes(bytes: Vec<u8>) -> (r: Log)
        ensures
            r@ == bytes@,
            r@.len() <= usize::MAX,
    {
        assert(bytes.len() == bytes@.len());
        Log { bytes }
    }

    /// The log's bytes.
    pub fn as_bytes(&self) -> (r: &[u8])
        ensures
            r@ == self@,
    {
        self.bytes.as_slice()
    }

    /// The log's length in bytes.
    pub fn len(&self) -> (r: usize)
        ensures
            r == self@.len(),
    {
        self.bytes.len()
    }

    /// Appends `payload` as a record and returns the offset where the record
    /// begins. Fails, leaving the log as it was, with `RecordTooLarge` when
    /// the payload does not fit the length prefix, and with `Io` when the log
    /// has no room left.
    pub fn append(&mut self, payload: &[u8]) -> (r: Result<u64, Error>)
        ensures
            r is Ok <==> can_append(old(self)@, payload@.len() as int),
            match r {
                Ok(off) => off == old(self)@.len() && final(self)@ == old(self)@ + frame(payload@),
                Err(e) => final(self)@ == old(self)@ && (if payload@.len() > MAX_PAYLOAD {
                    e == Error::RecordTooLarge
                } else {
                    e is Io
                }),
            },
    {
        if payload.len() > MAX_PAYLOAD {
            return Err(Error::RecordTooLarge);
        }
        if self.bytes.len() > usize::MAX - 2 - payload.len() {
            return Err(Error::Io("the log has no room left".to_owned()));
        }
        let off = self.bytes.len() as u64;
        let mut prefix = write_be_u16(payload.len() as u16);
        let mut body = slice_to_vec(payload);
        self.bytes.append(&mut prefix);
        self.bytes.append(&mut body);
        assert(self.bytes@ =~= old(self)@ + frame(payload@));
        Ok(off)
    }

    /// Reads the record at `offset` and returns its command with the offset
    /// just past it. Fails with `Io` when the log ends before the record
    /// does, and with `CorruptRecord` when its payload does not decode.
    pub fn read_at(&self, offset: u64) -> (r: Result<(Command, u64), Error>)
        ensures
            match r {
                Ok((c, next)) => record_at(self@, offset as int) == Some(c@) && next
                    == next_offset(self@, offset as int),
                Err(e) => record_at(self@, offset as int) is None && (if record_in_bounds(
                    self@,
                    offset as int,
                ) {
                    e == Error::CorruptRecord
                } else {
                    e is Io
                }),
            },
    {
        let len = self.bytes.len();
        if offset > len as u64 || (len as u64) - offset < 2 {
            return Err(Error::Io("unexpected end of log".to_owned()));
        }
        let start = offset as usize;
        let n = read_be_u16(slice_subrange(self.bytes.as_slice(), start, start + 2)) as usize;
        if len - start - 2 < n {
            return Err(Error::Io("unexpected end of log".to_owned()));
        }
        let payload = slice_subrange(self.bytes.as_slice(), start + 2, start + 2 + n);
        assert(payload@ =~= payload_at(self@, offset as int));
        match decode(payload) {
            Ok(c) => Ok((c, (start + 2 + n) as u64)),
            Err(e) => Err(e),
        }
    }

    /// Every record that a scan from the start reads, each with its offset.
    pub fn records(&self) -> (r: Vec<(Command, u64)>)
        ensures
            out_view(r@) == records_from(self@, 0),
    {
        let mut out: Vec<(Command, u64)> = Vec::new();
        let mut off: u64 = 0;
        loop
            invariant
                off <= self@.len(),
                records_from(self@, 0) == out_view(out@) + records_from(self@, off as int),
            ensures
                records_from(self@, 0) == out_view(out@),
            decreases self@.len() - off,
        {
            match self.read_at(off) {
                Ok((c, next)) => {
                    proof {
                        assert(out_view(out@.push((c, off))) =~= out_view(out@) + seq![
                            (c@, off as int),
                        ]);
                        assert(records_from(self@, off as int) =~= seq![(c@, off as int)]
                            + records_from(self@, next as int));
                    }
                    out.push((c, off));
                    off = next;
                },
                Err(_) => {
                    assert(out_view(out@) + records_from(self@, off as int) =~= out_view(out@));
                    break;
                },
            }
        }
        out
    }
}

/// The values of a list of commands with their offsets.
pub open spec fn out_view(v: Seq<(Command, u64)>) -> Seq<(CommandModel, int)> {
    v.map_values(|p: (Command, u64)| (p.0@, p.1 as int))
}

} // verus!
