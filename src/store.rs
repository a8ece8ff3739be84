//! The log-structured engine: a command log and an index from each live key
//! to the ordinal (1-based) of its latest `Set` record.
//!
//! The engine keeps the log's records in memory and tells its caller, through
//! [`KvStore::take_write`], which bytes the log file must receive to hold the
//! same records.

use vstd::prelude::*;
use vstd::hash_map::StringHashMap;
use crate::cli::{Action, Command, RmCmd, SetCmd};
use crate::codec::{
    all_records, commands, encode_record, is_record, lemma_log_bytes_concat,
    lemma_parse_log_bytes, log_bytes, parse_log, NEWLINE,
};
use crate::error::DbError;

verus! {

/// `set` compacts the log first when the index holds more keys than this.
pub const COMPACTION_THRESHOLD: usize = 500;

/// What one command does to the contents of a store.
pub open spec fn apply_command(m: Map<Seq<char>, Seq<char>>, c: Command) -> Map<Seq<char>, Seq<char>> {
    match c {
        Command::SetKey { key, value } => m.insert(key, value),
        Command::Remove { key } => m.remove(key),
        Command::Get { .. } => m,
    }
}

/// The contents that replaying the records `rs` in order leaves.
pub open spec fn replay_state(rs: Seq<Command>) -> Map<Seq<char>, Seq<char>>
    decreases rs.len(),
{
    if rs.len() == 0 {
        Map::empty()
    } else {
        apply_command(replay_state(rs.drop_last()), rs.last())
    }
}

/// The value stored under `k`, if any.
pub open spec fn lookup(m: Map<Seq<char>, Seq<char>>, k: Seq<char>) -> Option<Seq<char>> {
    if m.contains_key(k) {
        Some(m[k])
    } else {
        None
    }
}

/// The text of an optional string.
pub open spec fn text_of(o: Option<String>) -> Option<Seq<char>> {
    match o {
        Some(s) => Some(s@),
        None => None,
    }
}

/// For each key whose latest record is a `Set`, the ordinal (1-based) of that record.
pub open spec fn latest_ordinals(rs: Seq<Command>) -> Map<Seq<char>, nat>
    decreases rs.len(),
{
    if rs.len() == 0 {
        Map::empty()
    } else {
        let m = latest_ordinals(rs.drop_last());
        match rs.last() {
            Command::SetKey { key, .. } => m.insert(key, rs.len()),
            Command::Remove { key } => m.remove(key),
            Command::Get { .. } => m,
        }
    }
}

/// Compaction keeps the record at position `i`: it is the latest `Set` of its key.
pub open spec fn keeps(rs: Seq<Command>, i: int) -> bool {
    match rs[i] {
        Command::SetKey { key, .. } => latest_ordinals(rs).contains_key(key)
            && latest_ordinals(rs)[key] == i + 1,
        _ => false,
    }
}

/// The records among the first `n` that compaction keeps, in order.
pub open spec fn compacted_prefix(rs: Seq<Command>, n: int) -> Seq<Command>
    decreases n,
{
    if n <= 0 {
        Seq::empty()
    } else {
        compacted_prefix(rs, n - 1) + if keeps(rs, n - 1) {
            seq![rs[n - 1]]
        } else {
            Seq::empty()
        }
    }
}

/// The compacted log: the latest `Set` record of each key that the records
/// leave present, in the order in which they stand in the log.
pub open spec fn compacted(rs: Seq<Command>) -> Seq<Command> {
    compacted_prefix(rs, rs.len() as int)
}

/// The index maps exactly the keys that the records leave present, each to
/// the ordinal of their latest record, a `Set` that holds the current value.
pub open spec fn index_matches(index: Map<Seq<char>, usize>, rs: Seq<Command>) -> bool {
    &&& forall|k: Seq<char>|
        #![trigger index.contains_key(k)]
        index.contains_key(k) ==> latest_ordinals(rs).contains_key(k) && latest_ordinals(rs)[k]
            == index[k] as nat
    &&& forall|k: Seq<char>|
        #![trigger latest_ordinals(rs).contains_key(k)]
        latest_ordinals(rs).contains_key(k) ==> index.contains_key(k)
    &&& forall|k: Seq<char>|
        #![trigger index.contains_key(k)]
        #![trigger replay_state(rs).contains_key(k)]
        index.contains_key(k) <==> replay_state(rs).contains_key(k)
    &&& forall|k: Seq<char>|
        #![trigger index.contains_key(k)]
        index.contains_key(k) ==> 1 <= index[k] <= rs.len() && rs[index[k] - 1]
            == Command::SetKey { key: k, value: replay_state(rs)[k] }
}

/// What the log file must receive to hold the engine's records.
#[derive(Debug)]
pub enum LogWrite {
    /// Append these bytes to the file.
    Append(Vec<u8>),
    /// Replace the file's contents with these bytes.
    Rewrite(Vec<u8>),
}

/// The log-structured key-value engine.
pub struct KvStore {
    index: StringHashMap<usize>,
    log: Vec<Action>,
    synced: usize,
    rewrite: bool,
}

proof fn lemma_replay_finite(rs: Seq<Command>)
    ensures
        replay_state(rs).dom().finite(),
    decreases rs.len(),
{
    if rs.len() > 0 {
        lemma_replay_finite(rs.drop_last());
    }
}

proof fn lemma_replay_size(rs: Seq<Command>)
    ensures
        replay_state(rs).dom().finite(),
        replay_state(rs).len() <= rs.len(),
    decreases rs.len(),
{
    if rs.len() > 0 {
        lemma_replay_size(rs.drop_last());
        let m = replay_state(rs.drop_last());
        match rs.last() {
            Command::SetKey { key, value } => {
                if m.contains_key(key) {
                    assert(m.insert(key, value).dom() =~= m.dom());
                } else {
                    assert(m.insert(key, value).dom() =~= m.dom().insert(key));
                }
            },
            Command::Remove { key } => {
                if m.contains_key(key) {
                    assert(m.remove(key).dom() =~= m.dom().remove(key));
                } else {
                    assert(m.remove(key).dom() =~= m.dom());
                }
            },
            Command::Get { .. } => {},
        }
    }
}

proof fn lemma_compacted_prefix_sets(rs: Seq<Command>, n: int)
    ensures
        forall|i: int| 0 <= i < compacted_prefix(rs, n).len() ==> #[trigger] compacted_prefix(rs, n)[i] is SetKey,
    decreases n,
{
    if n > 0 {
        lemma_compacted_prefix_sets(rs, n - 1);
        let p = compacted_prefix(rs, n - 1);
        let q = compacted_prefix(rs, n);
        assert forall|i: int| 0 <= i < q.len() implies #[trigger] q[i] is SetKey by {
            if i < p.len() {
                assert(q[i] == p[i]);
            } else {
                assert(keeps(rs, n - 1));
                assert(q[i] == rs[n - 1]);
            }
        }
    }
}

/// Every record of a compacted log is a `Set` record.
pub proof fn lemma_compacted_all_sets(rs: Seq<Command>)
    ensures
        forall|i: int| 0 <= i < compacted(rs).len() ==> #[trigger] compacted(rs)[i] is SetKey,
{
    lemma_compacted_prefix_sets(rs, rs.len() as int);
}

proof fn lemma_index_set(index: Map<Seq<char>, usize>, rs: Seq<Command>, k: Seq<char>, v: Seq<char>)
    requires
        index_matches(index, rs),
        rs.len() < usize::MAX,
    ensures
        index_matches(
            index.insert(k, (rs.len() + 1) as usize),
            rs.push(Command::SetKey { key: k, value: v }),
        ),
{
    let rs2 = rs.push(Command::SetKey { key: k, value: v });
    assert(rs2.drop_last() =~= rs);
    assert(latest_ordinals(rs2) == latest_ordinals(rs).insert(k, rs2.len()));
    let index2 = index.insert(k, (rs.len() + 1) as usize);
    assert forall|k2: Seq<char>| #[trigger] index2.contains_key(k2) implies 1 <= index2[k2]
        <= rs2.len() && rs2[index2[k2] - 1] == Command::SetKey {
        key: k2,
        value: replay_state(rs2)[k2],
    } by {
        if k2 != k {
            assert(rs2[index[k2] - 1] == rs[index[k2] - 1]);
        }
    }
}

proof fn lemma_index_remove(index: Map<Seq<char>, usize>, rs: Seq<Command>, k: Seq<char>)
    requires
        index_matches(index, rs),
    ensures
        index_matches(index.remove(k), rs.push(Command::Remove { key: k })),
{
    let rs2 = rs.push(Command::Remove { key: k });
    assert(rs2.drop_last() =~= rs);
    assert(latest_ordinals(rs2) == latest_ordinals(rs).remove(k));
    let index2 = index.remove(k);
    assert forall|k2: Seq<char>| #[trigger] index2.contains_key(k2) implies 1 <= index2[k2]
        <= rs2.len() && rs2[index2[k2] - 1] == Command::SetKey {
        key: k2,
        value: replay_state(rs2)[k2],
    } by {
        assert(rs2[index[k2] - 1] == rs[index[k2] - 1]);
    }
}

proof fn lemma_commands_push(v: Seq<Action>, a: Action)
    ensures
        commands(v.push(a)) == commands(v).push(a@),
{
    assert(commands(v.push(a)) =~= commands(v).push(a@));
}

impl View for KvStore {
    type V = Map<Seq<char>, Seq<char>>;

    /// The contents of the store: what its log leaves when replayed.
    closed spec fn view(&self) -> Map<Seq<char>, Seq<char>> {
        replay_state(self.records())
    }
}

impl KvStore {
    /// The records of the log, in order.
    pub closed spec fn records(&self) -> Seq<Command> {
        commands(self.log@)
    }

    /// How many of the leading records the log file was last told of.
    pub closed spec fn synced_len(&self) -> nat {
        self.synced as nat
    }

    /// The log was rewritten since the file was last told of it.
    pub closed spec fn needs_rewrite(&self) -> bool {
        self.rewrite
    }

    /// The records that the log file was last told of.
    pub open spec fn synced_records(&self) -> Seq<Command> {
        self.records().subrange(0, self.synced_len() as int)
    }

    /// The records that the log file has not been told of yet.
    pub open spec fn pending_records(&self) -> Seq<Command> {
        self.records().subrange(self.synced_len() as int, self.records().len() as int)
    }

    /// The engine's invariant.
    pub closed spec fn wf(&self) -> bool {
        &&& all_records(self.records())
        &&& self.synced <= self.log@.len()
        &&& index_matches(self.index@, self.records())
    }

    /// The contents are what the records leave, and the index has one entry per key.
    proof fn lemma_view(&self)
        requires
            self.wf(),
        ensures
            self@ == replay_state(self.records()),
            self@.dom().finite(),
            self.index@.dom() == self@.dom(),
            self@.len() <= self.records().len(),
    {
        lemma_replay_size(self.records());
        assert(self.index@.dom() =~= self@.dom());
    }

    /// An empty engine over an empty log.
    pub fn new() -> (s: KvStore)
        ensures
            s.wf(),
            s@ == Map::<Seq<char>, Seq<char>>::empty(),
            s.records() == Seq::<Command>::empty(),
            s.synced_len() == 0,
            !s.needs_rewrite(),
    {
        let s = KvStore { index: StringHashMap::new(), log: Vec::new(), synced: 0, rewrite: false };
        assert(s.records() =~= Seq::<Command>::empty());
        s
    }

    /// Opens the engine over a log file's contents: replays its records in
    /// order to rebuild the index. Fails with `Parse` exactly when the contents
    /// are not a sequence of records, each ended by a newline.
    pub fn open(contents: &[u8]) -> (r: Result<KvStore, DbError>)
        ensures
            match r {
                Ok(s) => {
                    &&& s.wf()
                    &&& log_bytes(s.records()) == contents@
                    &&& s@ == replay_state(s.records())
                    &&& s.synced_len() == s.records().len()
                    &&& !s.needs_rewrite()
                },
                Err(e) => e is Parse && forall|rs: Seq<Command>|
                    all_records(rs) ==> log_bytes(rs) != contents@,
            },
    {
        let log = match parse_log(contents) {
            Some(v) => v,
            None => return Err(DbError::Parse),
        };
        let mut index: StringHashMap<usize> = StringHashMap::new();
        let n = log.len();
        let mut i: usize = 0;
        assert(commands(log@).subrange(0, 0) =~= Seq::<Command>::empty());
        while i < n
            invariant
                n == log@.len(),
                0 <= i <= n,
                all_records(commands(log@)),
                index_matches(index@, commands(log@).subrange(0, i as int)),
            decreases n - i,
        {
            let ghost rs = commands(log@).subrange(0, i as int);
            assert(commands(log@).subrange(0, i + 1) =~= rs.push(log@[i as int]@));
            assert(is_record(commands(log@)[i as int]));
            match &log[i] {
                Action::SetKey(c) => {
                    proof {
                        lemma_index_set(index@, rs, c.key@, c.value@);
                    }
                    index.insert(c.key.clone(), i + 1);
                },
                Action::Remove(c) => {
                    proof {
                        lemma_index_remove(index@, rs, c.key@);
                    }
                    index.remove(c.key.as_str());
                },
                Action::Get(_) => {},
            }
            i = i + 1;
        }
        assert(commands(log@).subrange(0, n as int) =~= commands(log@));
        Ok(KvStore { index, log, synced: n, rewrite: false })
    }

    /// The number of records in the log.
    pub fn log_len(&self) -> (n: usize)
        ensures
            n == self.records().len(),
    {
        self.log.len()
    }

    /// The number of keys in the index, which is the number of keys the store holds.
    pub fn index_len(&self) -> (n: usize)
        requires
            self.wf(),
        ensures
            n == self@.len(),
            n <= self.records().len(),
    {
        proof {
            self.lemma_view();
        }
        self.index.len()
    }

    /// Looks `key` up: the value of its latest `Set` record, read from the log.
    pub fn get(&self, key: String) -> (r: Result<Option<String>, DbError>)
        requires
            self.wf(),
        ensures
            r matches Ok(o) && text_of(o) == lookup(self@, key@),
    {
        match self.index.get(key.as_str()) {
            None => Ok(None),
            Some(ord) => {
                let ord = *ord;
                assert(self.records()[ord - 1] == self.log@[ord - 1]@);
                match &self.log[ord - 1] {
                    Action::SetKey(c) => Ok(Some(c.value.clone())),
                    _ => Err(DbError::OffsetError),
                }
            },
        }
    }

    /// Stores `value` under `key`: appends a `Set` record and points the index
    /// at it. When the index holds more than `COMPACTION_THRESHOLD` keys, the
    /// log is compacted first.
    pub fn set(&mut self, key: String, value: String) -> (r: Result<(), DbError>)
        requires
            old(self).wf(),
        ensures
            r is Ok,
            final(self).wf(),
            final(self)@ == old(self)@.insert(key@, value@),
            old(self)@.len() > COMPACTION_THRESHOLD ==> {
                &&& final(self).records() == compacted(old(self).records()).push(
                    Command::SetKey { key: key@, value: value@ },
                )
                &&& replay_state(compacted(old(self).records())) == old(self)@
                &&& compacted(old(self).records()).len() == old(self)@.len()
                &&& final(self).records().len() <= old(self).records().len() + 1
                &&& final(self).needs_rewrite()
            },
            old(self)@.len() <= COMPACTION_THRESHOLD ==> {
                &&& final(self).records() == old(self).records().push(
                    Command::SetKey { key: key@, value: value@ },
                )
                &&& final(self).synced_len() == old(self).synced_len()
                &&& final(self).needs_rewrite() == old(self).needs_rewrite()
            },
    {
        proof {
            self.lemma_view();
        }
        if self.index.len() > COMPACTION_THRESHOLD {
            self.compact();
        }
        let ghost before = self.records();
        let a = Action::SetKey(SetCmd { key: key.clone(), value });
        proof {
            lemma_commands_push(self.log@, a);
        }
        self.log.push(a);
        let ord = self.log.len();
        proof {
            lemma_index_set(self.index@, before, key@, value@);
        }
        self.index.insert(key, ord);
        Ok(())
    }

    /// Removes `key`: appends a `Remove` record and drops the key from the
    /// index. `KeyNotFound`, with nothing changed, where the store does not
    /// hold the key.
    pub fn remove(&mut self, key: String) -> (r: Result<(), DbError>)
        requires
            old(self).wf(),
        ensures
            final(self).wf(),
            r is Ok <==> old(self)@.contains_key(key@),
            r is Ok ==> {
                &&& final(self)@ == old(self)@.remove(key@)
                &&& final(self).records() == old(self).records().push(Command::Remove { key: key@ })
                &&& final(self).synced_len() == old(self).synced_len()
                &&& final(self).needs_rewrite() == old(self).needs_rewrite()
            },
            r matches Err(e) ==> e is KeyNotFound && *final(self) == *old(self),
    {
        if !self.index.contains_key(key.as_str()) {
            return Err(DbError::KeyNotFound);
        }
        proof {
            lemma_index_remove(self.index@, self.records(), key@);
        }
        let a = Action::Remove(RmCmd { key: key.clone() });
        proof {
            lemma_commands_push(self.log@, a);
        }
        self.log.push(a);
        self.index.remove(key.as_str());
        Ok(())
    }

    /// Rewrites the log to hold one `Set` record for each key that the store
    /// holds, in the order of their latest records, and rebuilds the index
    /// over it. The contents do not change; the log does not grow.
    pub fn compact(&mut self)
        requires
            old(self).wf(),
        ensures
            final(self).wf(),
            final(self)@ == old(self)@,
            final(self).records().len() <= old(self).records().len(),
            final(self).records().len() == final(self)@.len(),
            final(self).records() == compacted(old(self).records()),
            final(self).needs_rewrite(),
            final(self).synced_len() == 0,
    {
        proof {
            self.lemma_view();
        }
        let ghost rs = self.records();
        let ghost idx = self.index@;
        let n = self.log.len();
        let mut new_log: Vec<Action> = Vec::new();
        let mut new_index: StringHashMap<usize> = StringHashMap::new();
        let mut i: usize = 0;
        assert(commands(new_log@) =~= Seq::<Command>::empty());
        assert(new_index@.dom() =~= Set::<Seq<char>>::empty());
        while i < n
            invariant
                0 <= i <= n,
                n == rs.len(),
                rs == commands(self.log@),
                idx == self.index@,
                all_records(rs),
                index_matches(idx, rs),
                all_records(commands(new_log@)),
                index_matches(new_index@, commands(new_log@)),
                forall|k: Seq<char>|
                    #![trigger new_index@.contains_key(k)]
                    new_index@.contains_key(k) <==> (idx.contains_key(k) && idx[k] <= i),
                forall|k: Seq<char>|
                    #![trigger new_index@.contains_key(k)]
                    new_index@.contains_key(k) ==> replay_state(commands(new_log@))[k]
                        == replay_state(rs)[k],
                new_log@.len() <= i,
                new_index@.dom().finite(),
                new_index@.len() == new_log@.len(),
                commands(new_log@) == compacted_prefix(rs, i as int),
            decreases n - i,
        {
            let ghost nrs = commands(new_log@);
            assert(rs[i as int] == self.log@[i as int]@);
            assert(compacted_prefix(rs, i + 1) == compacted_prefix(rs, i as int) + if keeps(rs, i as int) {
                seq![rs[i as int]]
            } else {
                Seq::<Command>::empty()
            });
            let mut kept = false;
            if let Action::SetKey(c) = &self.log[i] {
                if let Some(p) = self.index.get(c.key.as_str()) {
                    if *p == i + 1 {
                        let ghost k = c.key@;
                        let ghost v = c.value@;
                        assert(!new_index@.contains_key(k));
                        assert(v == replay_state(rs)[k]);
                        proof {
                            lemma_index_set(new_index@, nrs, k, v);
                            assert(nrs.push(Command::SetKey { key: k, value: v }).drop_last() =~= nrs);
                        }
                        let a = Action::SetKey(SetCmd { key: c.key.clone(), value: c.value.clone() });
                        proof {
                            lemma_commands_push(new_log@, a);
                            assert(keeps(rs, i as int));
                        }
                        new_log.push(a);
                        let ghost dom_before = new_index@.dom();
                        new_index.insert(c.key.clone(), new_log.len());
                        kept = true;
                        proof {
                            assert(new_index@.dom() =~= dom_before.insert(k));
                            assert forall|k2: Seq<char>|
                                #[trigger] new_index@.contains_key(k2) implies replay_state(
                                commands(new_log@),
                            )[k2] == replay_state(rs)[k2] by {
                                assert(commands(new_log@).drop_last() =~= nrs);
                            }
                            assert forall|k2: Seq<char>|
                                idx.contains_key(k2) && idx[k2] <= i + 1 implies #[trigger] new_index@.contains_key(k2) by {
                                if idx.contains_key(k2) && idx[k2] == i + 1 {
                                    assert(rs[idx[k2] - 1] == rs[i as int]);
                                }
                            }
                        }
                    }
                }
            }
            if !kept {
                assert(!keeps(rs, i as int));
                assert(nrs + Seq::<Command>::empty() =~= nrs);
                assert forall|k2: Seq<char>| idx.contains_key(k2) implies #[trigger] idx[k2] != i
                    + 1 by {
                    if idx[k2] == i + 1 {
                        assert(rs[idx[k2] - 1] == rs[i as int]);
                    }
                }
            }
            i = i + 1;
        }
        proof {
            let nrs = commands(new_log@);
            lemma_replay_finite(nrs);
            assert(replay_state(nrs) =~= replay_state(rs)) by {
                assert forall|k: Seq<char>| #[trigger] replay_state(nrs).contains_key(k)
                    <==> replay_state(rs).contains_key(k) by {
                    if replay_state(rs).contains_key(k) {
                        assert(idx.contains_key(k));
                        assert(new_index@.contains_key(k));
                    }
                    if replay_state(nrs).contains_key(k) {
                        assert(new_index@.contains_key(k));
                    }
                }
                assert forall|k: Seq<char>| #[trigger] replay_state(nrs).contains_key(k)
                    implies replay_state(nrs)[k] == replay_state(rs)[k] by {
                    assert(new_index@.contains_key(k));
                }
            }
            assert(new_index@.dom() =~= replay_state(nrs).dom());
        }
        self.log = new_log;
        self.index = new_index;
        self.synced = 0;
        self.rewrite = true;
    }

    /// The log bytes of the records `from..to`.
    fn encode_range(&self, from: usize, to: usize) -> (out: Vec<u8>)
        requires
            self.wf(),
            from <= to <= self.records().len(),
        ensures
            out@ == log_bytes(self.records().subrange(from as int, to as int)),
    {
        let mut out: Vec<u8> = Vec::new();
        let mut i: usize = from;
        assert(self.records().subrange(from as int, from as int) =~= Seq::<Command>::empty());
        while i < to
            invariant
                self.wf(),
                from <= i <= to <= self.records().len(),
                out@ == log_bytes(self.records().subrange(from as int, i as int)),
            decreases to - i,
        {
            let ghost rs = self.records();
            assert(rs[i as int] == self.log@[i as int]@);
            assert(is_record(rs[i as int]));
            let mut line = encode_record(&self.log[i]);
            out.append(&mut line);
            out.push(NEWLINE);
            proof {
                let p = rs.subrange(from as int, i + 1);
                assert(p.drop_last() =~= rs.subrange(from as int, i as int));
                assert(p.last() == rs[i as int]);
            }
            i = i + 1;
        }
        out
    }

    /// Hands out what the log file must receive to hold the engine's records:
    /// the records added since the last call, or the whole log after a
    /// compaction. Afterwards the file counts as up to date.
    pub fn take_write(&mut self) -> (w: LogWrite)
        requires
            old(self).wf(),
        ensures
            final(self).wf(),
            final(self)@ == old(self)@,
            final(self).records() == old(self).records(),
            final(self).synced_len() == final(self).records().len(),
            !final(self).needs_rewrite(),
            match w {
                LogWrite::Rewrite(b) => old(self).needs_rewrite() && b@ == log_bytes(
                    old(self).records(),
                ),
                LogWrite::Append(b) => !old(self).needs_rewrite() && b@ == log_bytes(
                    old(self).pending_records(),
                ),
            },
    {
        let n = self.log.len();
        let w = if self.rewrite {
            let b = self.encode_range(0, n);
            assert(self.records().subrange(0, n as int) =~= self.records());
            LogWrite::Rewrite(b)
        } else {
            LogWrite::Append(self.encode_range(self.synced, n))
        };
        self.synced = n;
        self.rewrite = false;
        w
    }
}

/// After `set(k, v)`, `get(k)` finds `v`, whatever the store held before.
pub proof fn lemma_get_after_set(before: Map<Seq<char>, Seq<char>>, k: Seq<char>, v: Seq<char>)
    ensures
        lookup(before.insert(k, v), k) == Some(v),
{
}

/// After `remove(k)`, `get(k)` finds nothing.
pub proof fn lemma_get_after_remove(before: Map<Seq<char>, Seq<char>>, k: Seq<char>)
    ensures
        lookup(before.remove(k), k) is None,
{
}

/// The contents of a store are what its records leave, and it holds no more
/// keys than its log holds records.
pub proof fn lemma_contents_of_log(s: KvStore)
    requires
        s.wf(),
    ensures
        s@ == replay_state(s.records()),
        s@.len() <= s.records().len(),
{
    s.lemma_view();
}

/// The log of a store is made of records only, so `open` accepts its bytes.
pub proof fn lemma_log_is_records(s: KvStore)
    requires
        s.wf(),
    ensures
        all_records(s.records()),
{
}

/// Reopening gives the same store: an engine opened over the log file of
/// another holds the same contents, so every `get` answers alike.
pub proof fn lemma_reopen_same_contents(s: KvStore, t: KvStore)
    requires
        s.wf(),
        t.wf(),
        log_bytes(t.records()) == log_bytes(s.records()),
    ensures
        t@ == s@,
{
    lemma_parse_log_bytes(s.records());
    lemma_parse_log_bytes(t.records());
}

/// A file that holds the records it was last told of holds the whole log
/// once the pending bytes are appended.
pub proof fn lemma_append_completes_log(s: KvStore)
    requires
        s.wf(),
    ensures
        log_bytes(s.synced_records()) + log_bytes(s.pending_records()) == log_bytes(s.records()),
{
    let rs = s.records();
    lemma_log_bytes_concat(s.synced_records(), s.pending_records());
    assert(s.synced_records() + s.pending_records() =~= rs);
}

/// Restart after the file was kept up to date. The file held the records it
/// was last told of (or anything, where the log was compacted since), then
/// received the bytes that `take_write` handed out; an engine opened over the
/// result holds the same contents as the engine that handed them out.
pub proof fn lemma_restart_after_sync(s: KvStore, file: Seq<u8>, t: KvStore)
    requires
        s.wf(),
        t.wf(),
        !s.needs_rewrite() ==> file == log_bytes(s.synced_records()),
        log_bytes(t.records()) == (if s.needs_rewrite() {
            log_bytes(s.records())
        } else {
            file + log_bytes(s.pending_records())
        }),
    ensures
        t@ == s@,
{
    lemma_append_completes_log(s);
    lemma_reopen_same_contents(s, t);
}

} // verus!
