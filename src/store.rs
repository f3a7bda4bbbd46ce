//! The store: the log and its index, behind `open`, `set`, `get` and
//! `remove`.
use vstd::prelude::*;

use crate::codec::{encode, encode_spec, lemma_decode_encode, Command, CommandModel};
use crate::error::Error;
use crate::index::{apply_record, index_of, replay, Index};
use crate::log::{
    can_append, frame, is_clean, lemma_frame_read, lemma_record_prefix, lemma_records_append,
    record_at, records_from, Log, MAX_PAYLOAD,
};

verus! {

/// Every entry of `index` addresses a `Put` record of `log` for its key.
pub open spec fn points_to_puts(log: Seq<u8>, index: Map<Seq<char>, u64>) -> bool {
    forall|k: Seq<char>|
        #[trigger] index.contains_key(k) ==> (record_at(log, index[k] as int) matches Some(
            CommandModel::Put { key, .. },
        ) && key == k)
}

/// The value that the record at `off` sets.
pub open spec fn value_at(log: Seq<u8>, off: int) -> Seq<char> {
    record_at(log, off)->0->Put_value
}

/// What a store over `log` with `index` holds: each indexed key with the
/// value of the record that the index points at.
pub open spec fn contents(log: Seq<u8>, index: Map<Seq<char>, u64>) -> Map<Seq<char>, Seq<char>> {
    Map::new(|k: Seq<char>| index.contains_key(k), |k: Seq<char>| value_at(log, index[k] as int))
}

/// What a store opened over `log` holds.
pub open spec fn state_of(log: Seq<u8>) -> Map<Seq<char>, Seq<char>> {
    contents(log, index_of(log))
}

/// The entries after one command.
pub open spec fn apply_command(m: Map<Seq<char>, Seq<char>>, c: CommandModel) -> Map<
    Seq<char>,
    Seq<char>,
> {
    match c {
        CommandModel::Put { key, value } => m.insert(key, value),
        CommandModel::Remove { key } => m.remove(key),
    }
}

/// The entries after the commands `cs`, in order, starting from `m`.
pub open spec fn apply_commands(m: Map<Seq<char>, Seq<char>>, cs: Seq<CommandModel>) -> Map<
    Seq<char>,
    Seq<char>,
>
    decreases cs.len(),
{
    if cs.len() == 0 {
        m
    } else {
        apply_command(apply_commands(m, cs.drop_last()), cs.last())
    }
}

/// Each record that a scan reads stands whole at its offset.
proof fn lemma_records_at(log: Seq<u8>, off: int)
    ensures
        forall|i: int|
            0 <= i < records_from(log, off).len() ==> 0 <= (#[trigger] records_from(
                log,
                off,
            )[i]).1 < log.len() && record_at(log, records_from(log, off)[i].1) == Some(
                records_from(log, off)[i].0,
            ),
    decreases log.len() - off,
{
    if record_at(log, off) is Some {
        lemma_records_at(log, crate::log::next_offset(log, off));
    }
}

/// Replaying records that stand at their offsets keeps every entry pointing
/// at a `Put` record for its key.
proof fn lemma_replay_points(log: Seq<u8>, m: Map<Seq<char>, u64>, rs: Seq<(CommandModel, int)>)
    requires
        points_to_puts(log, m),
        forall|i: int|
            0 <= i < rs.len() ==> 0 <= (#[trigger] rs[i]).1 < log.len() && record_at(log, rs[i].1)
                == Some(rs[i].0),
        log.len() <= u64::MAX,
    ensures
        points_to_puts(log, replay(m, rs)),
    decreases rs.len(),
{
    if rs.len() > 0 {
        let init = rs.drop_last();
        assert forall|i: int| 0 <= i < init.len() implies 0 <= (#[trigger] init[i]).1 < log.len()
            && record_at(log, init[i].1) == Some(init[i].0) by {
            assert(init[i] == rs[i]);
        }
        lemma_replay_points(log, m, init);
        assert(rs[rs.len() - 1] == rs.last());
    }
}

/// The index that a full replay builds points every key at a `Put` record
/// for it.
proof fn lemma_index_points(log: Seq<u8>)
    requires
        log.len() <= u64::MAX,
    ensures
        points_to_puts(log, index_of(log)),
{
    lemma_records_at(log, 0);
    lemma_replay_points(log, Map::empty(), records_from(log, 0));
}

/// After the most recent `Put` of a key, with no later command on that key,
/// the key holds the value of that `Put`.
pub proof fn lemma_get_after_last_set(
    m: Map<Seq<char>, Seq<char>>,
    cs: Seq<CommandModel>,
    i: int,
    key: Seq<char>,
    value: Seq<char>,
)
    requires
        0 <= i < cs.len(),
        cs[i] == (CommandModel::Put { key, value }),
        forall|j: int| i < j < cs.len() ==> (#[trigger] cs[j]).key() != key,
    ensures
        apply_commands(m, cs).contains_key(key),
        apply_commands(m, cs)[key] == value,
    decreases cs.len(),
{
    if i < cs.len() - 1 {
        let init = cs.drop_last();
        assert forall|j: int| i < j < init.len() implies (#[trigger] init[j]).key() != key by {
            assert(init[j] == cs[j]);
        }
        assert(cs[cs.len() - 1] == cs.last());
        lemma_get_after_last_set(m, init, i, key, value);
    }
}

/// From an empty store, a key that no `Put` names holds nothing.
pub proof fn lemma_never_set_absent(cs: Seq<CommandModel>, key: Seq<char>)
    requires
        forall|j: int| 0 <= j < cs.len() && (#[trigger] cs[j]) is Put ==> cs[j].key() != key,
    ensures
        !apply_commands(Map::empty(), cs).contains_key(key),
    decreases cs.len(),
{
    if cs.len() > 0 {
        let init = cs.drop_last();
        assert forall|j: int| 0 <= j < init.len() && (#[trigger] init[j]) is Put implies init[j].key()
            != key by {
            assert(init[j] == cs[j]);
        }
        assert(cs[cs.len() - 1] == cs.last());
        lemma_never_set_absent(init, key);
    }
}

/// After a `Remove` of a key with no later `Put` of it, the key holds nothing.
pub proof fn lemma_removed_absent(
    m: Map<Seq<char>, Seq<char>>,
    cs: Seq<CommandModel>,
    i: int,
    key: Seq<char>,
)
    requires
        0 <= i < cs.len(),
        cs[i] == (CommandModel::Remove { key }),
        forall|j: int| i < j < cs.len() && (#[trigger] cs[j]) is Put ==> cs[j].key() != key,
    ensures
        !apply_commands(m, cs).contains_key(key),
    decreases cs.len(),
{
    if i < cs.len() - 1 {
        let init = cs.drop_last();
        assert forall|j: int| i < j < init.len() && (#[trigger] init[j]) is Put implies init[j].key()
            != key by {
            assert(init[j] == cs[j]);
        }
        assert(cs[cs.len() - 1] == cs.last());
        lemma_removed_absent(m, init, i, key);
    }
}

/// A key-value store over an append-only log.
pub struct KvStore {
    log: Log,
    index: Index,
    clean: Ghost<bool>,
}

impl View for KvStore {
    type V = Map<Seq<char>, Seq<char>>;

    closed spec fn view(&self) -> Map<Seq<char>, Seq<char>> {
        contents(self.log@, self.index@)
    }
}

impl KvStore {
    /// The bytes of the store's log.
    pub closed spec fn log_view(&self) -> Seq<u8> {
        self.log@
    }

    /// The log was clean when the store was opened, so that every record
    /// appended since is read again by a replay.
    pub closed spec fn replays_whole(&self) -> bool {
        self.clean@
    }

    /// The index points every key at a `Put` record for it, and while the log
    /// stays clean it is what a replay builds.
    pub closed spec fn wf(&self) -> bool {
        &&& self.index.wf()
        &&& self.log@.len() <= usize::MAX
        &&& points_to_puts(self.log@, self.index@)
        &&& self.clean@ ==> is_clean(self.log@) && self.index@ == index_of(self.log@)
    }

    /// Opens a store over the bytes of an existing log (empty for a new one)
    /// and rebuilds its index by replaying the log.
    pub fn open(bytes: Vec<u8>) -> (r: KvStore)
        ensures
            r.wf(),
            r.log_view() == bytes@,
            r.replays_whole() == is_clean(bytes@),
            r@ == state_of(bytes@),
            bytes@.len() == 0 ==> r@ == Map::<Seq<char>, Seq<char>>::empty(),
    {
        let log = Log::from_bytes(bytes);
        let records = log.records();
        let index = Index::rebuild(&records);
        proof {
            lemma_index_points(log@);
        }
        let r = KvStore { log, index, clean: Ghost(is_clean(bytes@)) };
        assert(r@ =~= state_of(bytes@));
        proof {
            if bytes@.len() == 0 {
                assert(records_from(log@, 0) =~= Seq::<(CommandModel, int)>::empty());
                assert(r@ =~= Map::<Seq<char>, Seq<char>>::empty());
            }
        }
        r
    }

    /// The bytes of the store's log, to be kept in storage.
    pub fn log_bytes(&self) -> (r: &[u8])
        ensures
            r@ == self.log_view(),
    {
        self.log.as_bytes()
    }

    /// Sets `key` to `value` by appending a `Put` record and pointing the
    /// index at it. Fails, changing nothing, when the record is too large or
    /// the log has no room.
    pub fn set(&mut self, key: String, value: String) -> (r: Result<(), Error>)
        requires
            old(self).wf(),
        ensures
            final(self).wf(),
            r is Ok <==> can_append(
                old(self).log_view(),
                encode_spec(CommandModel::Put { key: key@, value: value@ }).len() as int,
            ),
            r is Ok ==> final(self)@ == old(self)@.insert(key@, value@) && final(self).log_view()
                == old(self).log_view() + frame(
                encode_spec(CommandModel::Put { key: key@, value: value@ }),
            ),
            r matches Err(e) ==> final(self)@ == old(self)@ && final(self).log_view() == old(
                self,
            ).log_view() && (if encode_spec(CommandModel::Put { key: key@, value: value@ }).len()
                > MAX_PAYLOAD {
                e == Error::RecordTooLarge
            } else {
                e is Io
            }),
            final(self).replays_whole() == old(self).replays_whole(),
    {
        let c = Command::Put { key: key.clone(), value };
        let payload = encode(&c);
        let ghost old_log = self.log@;
        let ghost old_index = self.index@;
        match self.log.append(payload.as_slice()) {
            Ok(off) => {
                let ghost k = key@;
                self.index.insert(key, off);
                proof {
                    self.lemma_after_append(old_log, old_index, payload@, c@, off);
                    assert(self@ =~= contents(old_log, old_index).insert(k, c@->Put_value));
                }
                Ok(())
            },
            Err(e) => Err(e),
        }
    }

    /// What holds once a record for `c` was appended at `off` and the index
    /// updated for it.
    proof fn lemma_after_append(
        &self,
        old_log: Seq<u8>,
        old_index: Map<Seq<char>, u64>,
        payload: Seq<u8>,
        c: CommandModel,
        off: u64,
    )
        requires
            self.index.wf(),
            old_log.len() <= usize::MAX,
            can_append(old_log, payload.len() as int),
            points_to_puts(old_log, old_index),
            self.clean@ ==> is_clean(old_log) && old_index == index_of(old_log),
            payload == encode_spec(c),
            payload.len() <= MAX_PAYLOAD,
            off == old_log.len(),
            self.log@ == old_log + frame(payload),
            self.index@ == apply_record(old_index, (c, off as int)),
        ensures
            self.wf(),
            forall|k: Seq<char>|
                #[trigger] old_index.contains_key(k) && k != c.key() ==> value_at(
                    self.log@,
                    old_index[k] as int,
                ) == value_at(old_log, old_index[k] as int),
            c is Put ==> value_at(self.log@, off as int) == c->Put_value,
    {
        lemma_decode_encode(c);
        lemma_frame_read(old_log, payload);
        assert forall|k: Seq<char>| #[trigger] old_index.contains_key(k) implies record_at(
            self.log@,
            old_index[k] as int,
        ) == record_at(old_log, old_index[k] as int) by {
            lemma_record_prefix(old_log, frame(payload), old_index[k] as int);
        }
        assert(record_at(self.log@, off as int) == Some(c));
        assert(points_to_puts(self.log@, self.index@));
        if self.clean@ {
            lemma_records_append(old_log, payload, 0);
            let rs = records_from(old_log, 0);
            assert((rs + seq![(c, off as int)]).drop_last() =~= rs);
            assert((rs + seq![(c, off as int)]).last() == (c, off as int));
            assert(self.index@ == index_of(self.log@));
        }
    }

    /// The value that `key` holds, or `None` when it holds none.
    pub fn get(&self, key: String) -> (r: Result<Option<String>, Error>)
        requires
            self.wf(),
        ensures
            r is Ok,
            r matches Ok(o) ==> (o is Some <==> self@.contains_key(key@)),
            r matches Ok(Some(v)) ==> v@ == self@[key@],
    {
        match self.index.lookup(&key) {
            None => Ok(None),
            Some(off) => match self.log.read_at(off) {
                Ok((Command::Put { key: k, value }, _)) => {
                    if k == key {
                        Ok(Some(value))
                    } else {
                        Err(Error::CorruptIndex)
                    }
                },
                Ok(_) => Err(Error::CorruptIndex),
                Err(e) => Err(e),
            },
        }
    }

    /// Removes `key` and returns the value it held, appending a `Remove`
    /// record. Fails with `KeyNotFound` when the key holds nothing, and with
    /// `Io` when the log has no room; either way nothing changes.
    pub fn remove(&mut self, key: String) -> (r: Result<String, Error>)
        requires
            old(self).wf(),
        ensures
            final(self).wf(),
            !old(self)@.contains_key(key@) ==> r == Err::<String, Error>(Error::KeyNotFound(key)),
            old(self)@.contains_key(key@) ==> (r is Ok <==> can_append(
                old(self).log_view(),
                encode_spec(CommandModel::Remove { key: key@ }).len() as int,
            )),
            r matches Ok(v) ==> v@ == old(self)@[key@] && final(self)@ == old(self)@.remove(key@)
                && final(self).log_view() == old(self).log_view() + frame(
                encode_spec(CommandModel::Remove { key: key@ }),
            ),
            r is Err ==> final(self)@ == old(self)@ && final(self).log_view() == old(
                self,
            ).log_view(),
            old(self)@.contains_key(key@) && r is Err ==> r matches Err(Error::Io(_)),
            final(self).replays_whole() == old(self).replays_whole(),
    {
        let off = match self.index.lookup(&key) {
            None => {
                return Err(Error::KeyNotFound(key));
            },
            Some(off) => off,
        };
        let value = match self.log.read_at(off) {
            Ok((Command::Put { key: k, value }, _)) => {
                if k == key {
                    value
                } else {
                    return Err(Error::CorruptIndex);
                }
            },
            Ok(_) => {
                return Err(Error::CorruptIndex);
            },
            Err(e) => {
                return Err(e);
            },
        };
        let c = Command::Remove { key: key.clone() };
        let payload = encode(&c);
        let ghost old_log = self.log@;
        let ghost old_index = self.index@;
        proof {
            let put = record_at(old_log, off as int)->0;
            vstd::bytes::lemma_auto_spec_u64_to_from_le_bytes();
            vstd::bytes::lemma_auto_spec_u32_to_from_le_bytes();
            assert(encode_spec(put) == crate::log::payload_at(old_log, off as int));
            assert(payload@.len() < encode_spec(put).len());
        }
        match self.log.append(payload.as_slice()) {
            Ok(_) => {},
            Err(e) => {
                return Err(e);
            },
        }
        let ghost k = key@;
        self.index.remove(&key);
        proof {
            self.lemma_after_append(old_log, old_index, payload@, c@, old_log.len() as u64);
            assert(self@ =~= contents(old_log, old_index).remove(k));
        }
        Ok(value)
    }
}

/// A store opened again over the log that a store wrote holds the same
/// entries, provided the log had no torn or corrupt tail when it was opened.
pub proof fn lemma_reopen(s: KvStore)
    requires
        s.wf(),
        s.replays_whole(),
    ensures
        is_clean(s.log_view()),
        state_of(s.log_view()) == s@,
{
}

} // verus!
