//! The in-memory index from each live key to the offset of its latest `Put`
//! record, and the replay that rebuilds it from the log.
use vstd::prelude::*;

use crate::codec::{Command, CommandModel};
use crate::log::{out_view, records_from};

verus! {

/// The index after one record at its offset: a `Put` points its key at the
/// record, a `Remove` drops its key.
pub open spec fn apply_record(m: Map<Seq<char>, u64>, r: (CommandModel, int)) -> Map<
    Seq<char>,
    u64,
> {
    match r.0 {
        CommandModel::Put { key, .. } => m.insert(key, r.1 as u64),
        CommandModel::Remove { key } => m.remove(key),
    }
}

/// The index after the records `rs`, in order, starting from `m`.
pub open spec fn replay(m: Map<Seq<char>, u64>, rs: Seq<(CommandModel, int)>) -> Map<
    Seq<char>,
    u64,
>
    decreases rs.len(),
{
    if rs.len() == 0 {
        m
    } else {
        apply_record(replay(m, rs.drop_last()), rs.last())
    }
}

/// The index that a full replay of `log` builds.
pub open spec fn index_of(log: Seq<u8>) -> Map<Seq<char>, u64> {
    replay(Map::empty(), records_from(log, 0))
}

/// Some record of `rs` names `k`.
pub open spec fn touches(rs: Seq<(CommandModel, int)>, k: Seq<char>) -> bool {
    exists|i: int| 0 <= i < rs.len() && (#[trigger] rs[i]).0.key() == k
}

/// `a` and `b` hold the same entry for `k`, or neither holds one.
pub open spec fn agree_at(a: Map<Seq<char>, u64>, b: Map<Seq<char>, u64>, k: Seq<char>) -> bool {
    a.contains_key(k) == b.contains_key(k) && (a.contains_key(k) ==> a[k] == b[k])
}

/// A key that no record names keeps what it had; a key that some record
/// names ends the same whatever the starting index.
pub proof fn lemma_replay_frame(
    m1: Map<Seq<char>, u64>,
    m2: Map<Seq<char>, u64>,
    rs: Seq<(CommandModel, int)>,
    k: Seq<char>,
)
    ensures
        !touches(rs, k) ==> agree_at(replay(m1, rs), m1, k),
        touches(rs, k) ==> agree_at(replay(m1, rs), replay(m2, rs), k),
    decreases rs.len(),
{
    if rs.len() > 0 {
        let init = rs.drop_last();
        lemma_replay_frame(m1, m2, init, k);
        if rs.last().0.key() != k {
            if touches(rs, k) {
                let i = choose|i: int| 0 <= i < rs.len() && (#[trigger] rs[i]).0.key() == k;
                assert(init[i] == rs[i]);
            }
            if touches(init, k) {
                let i = choose|i: int| 0 <= i < init.len() && (#[trigger] init[i]).0.key() == k;
                assert(rs[i] == init[i]);
            }
        } else {
            assert(rs[rs.len() - 1].0.key() == k);
        }
    }
}

/// Replaying the same records a second time changes nothing.
pub proof fn lemma_replay_idempotent(m: Map<Seq<char>, u64>, rs: Seq<(CommandModel, int)>)
    ensures
        replay(replay(m, rs), rs) == replay(m, rs),
{
    let once = replay(m, rs);
    let twice = replay(once, rs);
    assert forall|k: Seq<char>| #[trigger] twice.contains_key(k) == once.contains_key(k) by {
        lemma_replay_frame(once, m, rs, k);
    }
    assert forall|k: Seq<char>| twice.contains_key(k) implies #[trigger] twice[k] == once[k] by {
        lemma_replay_frame(once, m, rs, k);
    }
    assert(twice =~= once);
}

/// The index: each live key with the offset of its latest `Put` record.
pub struct Index {
    entries: Vec<(String, u64)>,
    map: Ghost<Map<Seq<char>, u64>>,
}

impl View for Index {
    type V = Map<Seq<char>, u64>;

    closed spec fn view(&self) -> Map<Seq<char>, u64> {
        self.map@
    }
}

impl Index {
    /// No two entries share a key, and the entries are exactly the map.
    pub closed spec fn wf(&self) -> bool {
        &&& forall|i: int, j: int|
            0 <= i < j < self.entries@.len() ==> (#[trigger] self.entries@[i]).0@ != (
            #[trigger] self.entries@[j]).0@
        &&& forall|i: int|
            0 <= i < self.entries@.len() ==> self.map@.contains_key(
                (#[trigger] self.entries@[i]).0@,
            ) && self.map@[self.entries@[i].0@] == self.entries@[i].1
        &&& forall|k: Seq<char>|
            #[trigger] self.map@.contains_key(k) ==> exists|i: int|
                0 <= i < self.entries@.len() && (#[trigger] self.entries@[i]).0@ == k
    }

    /// An empty index.
    pub fn new() -> (r: Index)
        ensures
            r.wf(),
            r@ == Map::<Seq<char>, u64>::empty(),
    {
        Index { entries: Vec::new(), map: Ghost(Map::empty()) }
    }

    /// The position of `key` among the entries.
    fn find(&self, key: &String) -> (r: Option<usize>)
        requires
            self.wf(),
        ensures
            match r {
                Some(i) => i < self.entries@.len() && self.entries@[i as int].0@ == key@,
                None => !self@.contains_key(key@),
            },
    {
        let mut i: usize = 0;
        while i < self.entries.len()
            invariant
                i <= self.entries@.len(),
                forall|j: int| 0 <= j < i ==> (#[trigger] self.entries@[j]).0@ != key@,
            decreases self.entries@.len() - i,
        {
            if self.entries[i].0 == *key {
                return Some(i);
            }
            i = i + 1;
        }
        None
    }

    /// The offset recorded for `key`.
    pub fn lookup(&self, key: &String) -> (r: Option<u64>)
        requires
            self.wf(),
        ensures
            r is Some <==> self@.contains_key(key@),
            r matches Some(off) ==> self@[key@] == off,
    {
        match self.find(key) {
            Some(i) => Some(self.entries[i].1),
            None => None,
        }
    }

    /// Points `key` at `off`.
    pub fn insert(&mut self, key: String, off: u64)
        requires
            old(self).wf(),
        ensures
            final(self).wf(),
            final(self)@ == old(self)@.insert(key@, off),
    {
        let ghost k = key@;
        let ghost m = self.map@.insert(k, off);
        match self.find(&key) {
            Some(i) => {
                self.entries[i] = (key, off);
            },
            None => {
                self.entries.push((key, off));
            },
        }
        self.map = Ghost(m);
        assert forall|j: int| #![trigger self.entries@[j]] 0 <= j < self.entries@.len() implies m.contains_key(self.entries@[j].0@) && m[self.entries@[j].0@] == self.entries@[j].1 by {
            if self.entries@[j].0@ != k {
                assert(j < old(self).entries@.len() && self.entries@[j] == old(self).entries@[j]);
            }
        }
        assert forall|q: Seq<char>| #[trigger] m.contains_key(q) implies exists|i: int|
            0 <= i < self.entries@.len() && (#[trigger] self.entries@[i]).0@ == q by {
            if q != k {
                let i = choose|i: int|
                    0 <= i < old(self).entries@.len() && (#[trigger] old(self).entries@[i]).0@ == q;
                assert(self.entries@[i] == old(self).entries@[i]);
            } else {
                let i = if self.entries@.len() > old(self).entries@.len() {
                    old(self).entries@.len() as int
                } else {
                    choose|i: int| 0 <= i < self.entries@.len() && self.entries@[i].0@ == k
                };
                assert(self.entries@[i].0@ == k);
            }
        }
    }

    /// Drops `key`.
    pub fn remove(&mut self, key: &String)
        requires
            old(self).wf(),
        ensures
            final(self).wf(),
            final(self)@ == old(self)@.remove(key@),
    {
        let ghost k = key@;
        let ghost m = self.map@.remove(k);
        match self.find(key) {
            Some(i) => {
                self.entries.remove(i);
                self.map = Ghost(m);
                assert forall|j: int| #![trigger self.entries@[j]]
                    0 <= j < self.entries@.len() implies self.entries@[j].0@ != k by {
                    if j < i {
                        assert(self.entries@[j] == old(self).entries@[j]);
                    } else {
                        assert(self.entries@[j] == old(self).entries@[j + 1]);
                    }
                }
                assert forall|q: Seq<char>| #[trigger] m.contains_key(q) implies exists|j: int|
                    0 <= j < self.entries@.len() && (#[trigger] self.entries@[j]).0@ == q by {
                    let j = choose|j: int|
                        0 <= j < old(self).entries@.len() && (#[trigger] old(
                            self,
                        ).entries@[j]).0@ == q;
                    if j < i {
                        assert(self.entries@[j] == old(self).entries@[j]);
                    } else {
                        assert(j != i);
                        assert(self.entries@[j - 1] == old(self).entries@[j]);
                    }
                }
            },
            None => {
                assert(m =~= self.map@);
            },
        }
    }

    /// Builds the index by applying `records` in order to an empty index.
    pub fn rebuild(records: &Vec<(Command, u64)>) -> (r: Index)
        ensures
            r.wf(),
            r@ == replay(Map::empty(), out_view(records@)),
    {
        let mut index = Index::new();
        let mut i: usize = 0;
        while i < records.len()
            invariant
                i <= records@.len(),
                index.wf(),
                index@ == replay(Map::empty(), out_view(records@).take(i as int)),
            decreases records@.len() - i,
        {
            let ghost before = out_view(records@).take(i as int);
            assert(out_view(records@).take(i + 1).drop_last() =~= before);
            match &records[i].0 {
                Command::Put { key, .. } => index.insert(key.clone(), records[i].1),
                Command::Remove { key } => index.remove(key),
            }
            i = i + 1;
        }
        assert(out_view(records@).take(i as int) =~= out_view(records@));
        index
    }
}

} // verus!
