//! The store: the index of live keys, the size of the log and the bytes that
//! compaction can reclaim, kept equal to what the records of the log
//! determine. The caller owns the log file: it hands in the bytes it read and
//! writes out the frames it is given.
use vstd::prelude::*;
use crate::bytes::{lemma_u64_le_of_le_u64, push_u64_le, read_u64_le};
use crate::codec::{CommandView, EngineCommand, frame_bytes, lemma_frame_at, lemma_record_bytes_injective, record_bytes};
use crate::error::EngineError;
use crate::log::{
    compacted_records, distinct_sets, garbage_of, has_key, lemma_distinct_sets, set_value, index_of, key_index, lemma_index_of,
    lemma_key_index, lemma_compacted_len, live_frame_len, lemma_log_bytes_prefix, lemma_log_bytes_take, log_bytes, set_frame_at,
    starts_with_frame, state_of, unique_keys,
};

verus! {

/// The amount of reclaimable bytes at which a write is followed by compaction.
pub const COMPACTION_THRESHOLD_BYTES: u64 = 1048576;

/// The in-memory side of a log-structured store.
///
/// The index is a `Vec` of (key, offset, frame length), searched from the
/// end: vstd's specification of `HashMap` holds only for key types with a key
/// model, which it gives for integers and not for `String`, so a `HashMap`
/// keyed by `String` would leave every lookup unproved.
pub struct KvStore {
    index: Vec<(String, u64, u64)>,
    cur_offset: u64,
    garbage: u64,
    records: Ghost<Seq<CommandView>>,
}

/// The entries of an index as keys and offsets.
pub open spec fn index_view(index: Seq<(String, u64, u64)>) -> Seq<(Seq<char>, nat)> {
    index.map_values(|e: (String, u64, u64)| (e.0@, e.1 as nat))
}

/// Each entry of `index` holds the length of the frame of its key's value
/// in `st`.
pub open spec fn lengths_match(index: Seq<(String, u64, u64)>, st: Map<Seq<char>, Seq<char>>) -> bool {
    forall|j: int| 0 <= j < index.len() ==> #[trigger] index[j].2 as nat == live_frame_len(st, index[j].0@)
}

/// A write that the store has framed: the caller appends `frame` to the log,
/// flushes it, and then hands the write to `KvStore::commit`.
pub struct PendingWrite {
    pub command: EngineCommand,
    pub frame: Vec<u8>,
}

impl PendingWrite {
    /// The frame is the frame of the command.
    pub open spec fn wf(&self) -> bool {
        self.frame@ == frame_bytes(self.command@)
    }
}

/// A log rewritten by compaction, with its index: the caller writes the bytes
/// to a new file, puts it in place of the log, and hands this to
/// `KvStore::install`.
pub struct Compacted {
    log: Vec<u8>,
    index: Vec<(String, u64, u64)>,
    records: Ghost<Seq<CommandView>>,
}

impl Compacted {
    /// The records of the new log.
    pub closed spec fn records(&self) -> Seq<CommandView> {
        self.records@
    }

    /// The bytes and the index are those of the records, and nothing is
    /// left to reclaim.
    pub closed spec fn wf(&self) -> bool {
        &&& self.log@ == log_bytes(self.records@)
        &&& index_view(self.index@) == index_of(self.records@)
        &&& lengths_match(self.index@, state_of(self.records@))
        &&& garbage_of(self.records@) == 0
    }

    /// The bytes of the new log.
    pub fn bytes(&self) -> (r: &[u8])
        requires
            self.wf(),
        ensures
            r@ == log_bytes(self.records()),
    {
        self.log.as_slice()
    }
}

/// Appends the bytes of `src` to `out`.
fn extend_bytes(out: &mut Vec<u8>, src: &[u8])
    ensures
        final(out)@ == old(out)@ + src@,
{
    let mut i: usize = 0;
    while i < src.len()
        invariant
            i <= src@.len(),
            out@ == old(out)@ + src@.subrange(0, i as int),
        decreases src@.len() - i,
    {
        out.push(src[i]);
        i = i + 1;
        assert(out@ =~= old(out)@ + src@.subrange(0, i as int));
    }
    assert(src@.subrange(0, i as int) =~= src@);
}

/// The last position of `key` in `index`, if any.
fn find(index: &Vec<(String, u64, u64)>, key: &String) -> (r: Option<usize>)
    ensures
        r matches Some(j) ==> j as int == key_index(index_view(index@), key@),
        r is None ==> key_index(index_view(index@), key@) == -1,
{
    let ghost ix = index_view(index@);
    proof {
        lemma_key_index(ix, key@);
    }
    let mut i: usize = index.len();
    while i > 0
        invariant
            i <= index@.len(),
            ix == index_view(index@),
            forall|j: int| i <= j < ix.len() ==> ix[j].0 != key@,
            -1 <= key_index(ix, key@) < ix.len(),
            key_index(ix, key@) >= 0 ==> ix[key_index(ix, key@)].0 == key@,
            key_index(ix, key@) == -1 <==> forall|j: int| 0 <= j < ix.len() ==> ix[j].0 != key@,
            forall|j: int| key_index(ix, key@) < j < ix.len() ==> ix[j].0 != key@,
        decreases i,
    {
        assert(ix[i - 1].0 == index@[i - 1].0@);
        if index[i - 1].0 == *key {
            return Some(i - 1);
        }
        i = i - 1;
    }
    None
}

/// The record read at `pos` while replaying the bytes of a log is that log's
/// next record.
proof fn lemma_replay_step(log: Seq<u8>, pos: int, old_recs: Seq<CommandView>, c: CommandView)
    requires
        0 <= pos <= log.len(),
        log.len() <= u64::MAX,
        log_bytes(old_recs) == log.subrange(0, pos),
        pos + frame_bytes(c).len() <= log.len(),
        log.subrange(pos, pos + frame_bytes(c).len()) == frame_bytes(c),
        forall|recs: Seq<CommandView>|
            log == #[trigger] log_bytes(recs) ==> old_recs.len() <= recs.len() && old_recs == recs.take(
                old_recs.len() as int,
            ),
    ensures
        forall|recs: Seq<CommandView>|
            log == #[trigger] log_bytes(recs) ==> old_recs.len() < recs.len() && recs[old_recs.len() as int]
                == c,
{
    assert forall|recs: Seq<CommandView>| log == #[trigger] log_bytes(recs) implies old_recs.len() < recs.len()
        && recs[old_recs.len() as int] == c by {
        let m = old_recs.len() as int;
        if m == recs.len() {
            assert(recs.take(m) =~= recs);
            assert(log.subrange(0, pos) =~= log);
        }
        lemma_log_bytes_prefix(recs, m + 1);
        lemma_log_bytes_take(recs, m);
        let f = frame_bytes(recs[m]);
        assert(recs.take(m) == old_recs);
        assert(log_bytes(recs.take(m + 1)).len() == pos + f.len());
        assert(log_bytes(recs.take(m + 1)) =~= log.subrange(0, pos + f.len()));
        assert(log_bytes(recs.take(m)).len() == pos);
        assert(log_bytes(recs.take(m + 1)).subrange(pos, pos + f.len()) =~= f);
        assert(log.subrange(pos, pos + f.len()) =~= log_bytes(recs.take(m + 1)).subrange(pos, pos + f.len()));
        lemma_frame_at(log, pos, recs[m]);
        lemma_frame_at(log, pos, c);
        lemma_record_bytes_injective(c, recs[m]);
    }
}

/// `b` is the encoding of a `SET` of `k`.
pub open spec fn is_set_of(b: Seq<u8>, k: Seq<char>) -> bool {
    exists|v: Seq<char>| b == record_bytes(CommandView::SetRecord { key: k, value: v })
}

/// The views of the encoded records handed to compaction.
pub open spec fn body_views(bodies: Seq<Vec<u8>>) -> Seq<Seq<u8>> {
    bodies.map_values(|b: Vec<u8>| b@)
}

/// The records of a compacted log so far: `SET`s of distinct keys, those of
/// the index `ix` in its order, whose encodings are the first of `bs`.
pub open spec fn compact_inv(ix: Seq<(Seq<char>, nat)>, bs: Seq<Seq<u8>>, recs: Seq<CommandView>) -> bool {
    &&& distinct_sets(recs)
    &&& recs.len() <= ix.len()
    &&& recs.len() <= bs.len()
    &&& forall|i: int|
        0 <= i < recs.len() ==> #[trigger] recs[i] == (CommandView::SetRecord {
            key: ix[i].0,
            value: set_value(recs[i]),
        }) && bs[i] == record_bytes(recs[i])
}

/// One more record of a compacted log.
proof fn lemma_compact_step(ix: Seq<(Seq<char>, nat)>, bs: Seq<Seq<u8>>, recs: Seq<CommandView>, c: CommandView)
    requires
        unique_keys(ix),
        compact_inv(ix, bs, recs),
        recs.len() < ix.len(),
        recs.len() < bs.len(),
        c == (CommandView::SetRecord { key: ix[recs.len() as int].0, value: set_value(c) }),
        bs[recs.len() as int] == record_bytes(c),
    ensures
        compact_inv(ix, bs, recs.push(c)),
        index_of(recs.push(c)) == index_of(recs).push((c.key(), log_bytes(recs).len())),
{
    let s = recs.push(c);
    lemma_distinct_sets(recs);
    lemma_key_index(index_of(recs), c.key());
    assert forall|i: int| 0 <= i < index_of(recs).len() implies index_of(recs)[i].0 != c.key() by {
        assert(index_of(recs)[i].0 == recs[i].key());
        assert(recs[i] == (CommandView::SetRecord { key: ix[i].0, value: set_value(recs[i]) }));
    }
    assert(s.drop_last() == recs);
    assert forall|i: int| 0 <= i < s.len() implies #[trigger] s[i] is SetRecord by {
        if i < recs.len() {
            assert(s[i] == recs[i]);
        }
    }
    assert forall|a: int, b: int| 0 <= a < s.len() && 0 <= b < s.len() && a != b implies s[a].key()
        != s[b].key() by {
        if a < recs.len() {
            assert(s[a] == recs[a]);
            assert(recs[a] == (CommandView::SetRecord { key: ix[a].0, value: set_value(recs[a]) }));
        }
        if b < recs.len() {
            assert(s[b] == recs[b]);
            assert(recs[b] == (CommandView::SetRecord { key: ix[b].0, value: set_value(recs[b]) }));
        }
    }
    assert forall|i: int| 0 <= i < s.len() implies #[trigger] s[i] == (CommandView::SetRecord {
        key: ix[i].0,
        value: set_value(s[i]),
    }) && bs[i] == record_bytes(s[i]) by {
        if i < recs.len() {
            assert(s[i] == recs[i]);
        }
    }
}

/// A complete compacted log: every encoded record was a `SET` of its key, and
/// where they were those of the live values, the log is `compacted_records`.
proof fn lemma_compact_done(ix: Seq<(Seq<char>, nat)>, bs: Seq<Seq<u8>>, recs: Seq<CommandView>, old_recs: Seq<CommandView>)
    requires
        compact_inv(ix, bs, recs),
        recs.len() == bs.len(),
        bs.len() == ix.len(),
        ix == index_of(old_recs),
        forall|i: int| 0 <= i < bs.len() ==> bs[i].len() <= u64::MAX,
    ensures
        forall|i: int| 0 <= i < bs.len() ==> is_set_of(#[trigger] bs[i], ix[i].0),
        (forall|i: int| 0 <= i < bs.len() ==> #[trigger] bs[i] == record_bytes(compacted_records(old_recs)[i]))
            ==> recs == compacted_records(old_recs),
{
    assert forall|i: int| 0 <= i < bs.len() implies is_set_of(#[trigger] bs[i], ix[i].0) by {
        assert(recs[i] == (CommandView::SetRecord { key: ix[i].0, value: set_value(recs[i]) }));
        assert(bs[i] == record_bytes(CommandView::SetRecord { key: ix[i].0, value: set_value(recs[i]) }));
    }
    if forall|i: int| 0 <= i < bs.len() ==> #[trigger] bs[i] == record_bytes(compacted_records(old_recs)[i]) {
        assert forall|i: int| 0 <= i < recs.len() implies recs[i] == compacted_records(old_recs)[i] by {
            assert(bs[i] == record_bytes(compacted_records(old_recs)[i]));
            lemma_record_bytes_injective(recs[i], compacted_records(old_recs)[i]);
        }
        assert(recs =~= compacted_records(old_recs));
    }
}

impl KvStore {
    /// The records of the log, oldest first.
    pub closed spec fn records(&self) -> Seq<CommandView> {
        self.records@
    }

    /// The mapping that the store holds.
    pub open spec fn state(&self) -> Map<Seq<char>, Seq<char>> {
        state_of(self.records())
    }

    /// The bytes of the log.
    pub open spec fn log(&self) -> Seq<u8> {
        log_bytes(self.records())
    }

    /// The index: each live key with the offset of its latest `SET` frame.
    pub open spec fn index(&self) -> Seq<(Seq<char>, nat)> {
        index_of(self.records())
    }

    /// The reclaimable bytes as counted.
    pub open spec fn garbage(&self) -> nat {
        garbage_of(self.records())
    }

    /// The fields agree with the records of the log.
    pub closed spec fn wf(&self) -> bool {
        &&& index_view(self.index@) == index_of(self.records@)
        &&& lengths_match(self.index@, state_of(self.records@))
        &&& self.cur_offset as nat == log_bytes(self.records@).len()
        &&& self.garbage as nat == garbage_of(self.records@)
    }

    /// A store over an empty log.
    pub fn new() -> (r: KvStore)
        ensures
            r.wf(),
            r.records() == Seq::<CommandView>::empty(),
    {
        let r = KvStore { index: Vec::new(), cur_offset: 0, garbage: 0, records: Ghost(Seq::empty()) };
        assert(index_view(r.index@) =~= Seq::<(Seq<char>, nat)>::empty());
        r
    }

    /// The size of the log in bytes: the offset of the next frame.
    pub fn log_len(&self) -> (r: u64)
        requires
            self.wf(),
        ensures
            r == self.log().len(),
    {
        self.cur_offset
    }

    /// The reclaimable bytes as counted.
    pub fn garbage_bytes(&self) -> (r: u64)
        requires
            self.wf(),
        ensures
            r == self.garbage(),
    {
        self.garbage
    }

    /// Replays a log: reads its frames from the start and stops at its end or
    /// at the first bytes that are not a well-formed frame. The caller cuts
    /// the file to `log_len()` bytes.
    #[verifier::spinoff_prover]
    pub fn open(log: &[u8]) -> (r: KvStore)
        ensures
            r.wf(),
            r.log().len() <= log@.len(),
            r.log() == log@.subrange(0, r.log().len() as int),
            !starts_with_frame(log@.subrange(r.log().len() as int, log@.len() as int)),
            forall|recs: Seq<CommandView>| log@ == log_bytes(recs) ==> r.records() == recs,
    {
        let mut store = KvStore::new();
        let mut pos: usize = 0;
        let ghost len = log.len();
        assert(usize::MAX as int == 0xffff_ffff || usize::MAX as int == 0xffff_ffff_ffff_ffff);
        assert(log@.subrange(0, 0) =~= Seq::<u8>::empty());
        loop
            invariant
                store.wf(),
                len == log@.len(),
                log@.len() <= u64::MAX,
                pos as nat == store.log().len(),
                pos <= log@.len(),
                store.log() == log@.subrange(0, pos as int),
                forall|recs: Seq<CommandView>|
                    log@ == #[trigger] log_bytes(recs) ==> store.records().len() <= recs.len()
                        && store.records() == recs.take(store.records().len() as int),
            ensures
                store.wf(),
                pos as nat == store.log().len(),
                pos <= log@.len(),
                store.log() == log@.subrange(0, pos as int),
                !starts_with_frame(log@.subrange(pos as int, log@.len() as int)),
                forall|recs: Seq<CommandView>|
                    log@ == #[trigger] log_bytes(recs) ==> store.records().len() <= recs.len()
                        && store.records() == recs.take(store.records().len() as int),
            decreases log@.len() - pos,
        {
            let ghost rest = log@.subrange(pos as int, log@.len() as int);
            if log.len() - pos < 8 {
                proof {
                    if starts_with_frame(rest) {
                        let c = choose|c: CommandView|
                            frame_bytes(c).len() <= rest.len() && rest.subrange(0, frame_bytes(c).len() as int)
                                == #[trigger] frame_bytes(c);
                        lemma_frame_at(rest, 0, c);
                    }
                }
                break;
            }
            let n = read_u64_le(log, pos);
            if n > (log.len() - pos - 8) as u64 {
                proof {
                    if starts_with_frame(rest) {
                        let c = choose|c: CommandView|
                            frame_bytes(c).len() <= rest.len() && rest.subrange(0, frame_bytes(c).len() as int)
                                == #[trigger] frame_bytes(c);
                        lemma_frame_at(rest, 0, c);
                        assert(rest.subrange(0, 8) =~= log@.subrange(pos as int, pos + 8));
                    }
                }
                break;
            }
            let end = pos + 8 + n as usize;
            let body = &log[pos + 8..end];
            let cmd = match EngineCommand::decode(body) {
                Ok(c) => c,
                Err(_) => {
                    proof {
                        if starts_with_frame(rest) {
                            let c = choose|c: CommandView|
                                frame_bytes(c).len() <= rest.len() && rest.subrange(
                                    0,
                                    frame_bytes(c).len() as int,
                                ) == #[trigger] frame_bytes(c);
                            lemma_frame_at(rest, 0, c);
                            assert(rest.subrange(0, 8) =~= log@.subrange(pos as int, pos + 8));
                            assert(rest.subrange(8, 8 + record_bytes(c).len() as int) =~= body@);
                        }
                    }
                    break;
                },
            };
            let ghost old_recs = store.records();
            let ghost c = cmd@;
            proof {
                lemma_u64_le_of_le_u64(log@.subrange(pos as int, pos + 8));
                assert(frame_bytes(c) =~= log@.subrange(pos as int, end as int));
                lemma_replay_step(log@, pos as int, old_recs, c);
            }
            store.apply(cmd, 8 + n);
            pos = end;
            proof {
                assert(store.records().drop_last() == old_recs);
                assert(log@.subrange(0, pos as int) =~= log@.subrange(0, pos - 8 - n) + frame_bytes(c));
                assert forall|recs: Seq<CommandView>|
                    log@ == #[trigger] log_bytes(recs) implies store.records().len() <= recs.len()
                        && store.records() == recs.take(store.records().len() as int) by {
                    assert(store.records() =~= recs.take(store.records().len() as int));
                }
            }
        }
        proof {
            assert forall|recs: Seq<CommandView>| log@ == log_bytes(recs) implies store.records() == recs by {
                let m = store.records().len() as int;
                if m < recs.len() {
                    lemma_log_bytes_prefix(recs, m + 1);
                    lemma_log_bytes_take(recs, m);
                    let f = frame_bytes(recs[m]);
                    let rest = log@.subrange(pos as int, log@.len() as int);
                    assert(log_bytes(recs.take(m)) == store.log());
                    assert(log_bytes(recs.take(m + 1)).len() == pos + f.len());
                    assert(f.len() <= rest.len());
                    assert(log_bytes(recs.take(m + 1)) =~= log@.subrange(0, pos + f.len()));
                    assert(rest.subrange(0, f.len() as int) =~= log@.subrange(0, pos + f.len()).subrange(pos as int, pos + f.len()));
                    assert(frame_bytes(recs[m]).len() <= rest.len() && rest.subrange(0, frame_bytes(recs[m]).len() as int) == frame_bytes(recs[m]));
                    assert(starts_with_frame(rest));
                }
                assert(recs.take(m) =~= recs);
            }
        }
        store
    }

    /// The frame of `SET{key, value}`, to be written before `commit`.
    pub fn set(&self, key: String, value: String) -> (r: Result<PendingWrite, EngineError>)
        ensures
            r is Ok,
            r matches Ok(w) ==> w.wf() && w.command@ == (CommandView::SetRecord { key: key@, value: value@ }),
            r matches Err(e) ==> e is BincodeError,
    {
        let command = EngineCommand::SetCommand { key, value };
        let frame = command.frame()?;
        Ok(PendingWrite { command, frame })
    }

    /// The frame of `RM{key}`, to be written before `commit`; `KeyNotFound`
    /// where the key has no value, and then nothing is to be written.
    pub fn remove(&self, key: String) -> (r: Result<PendingWrite, EngineError>)
        requires
            self.wf(),
        ensures
            !self.state().contains_key(key@) <==> r matches Err(EngineError::KeyNotFound),
            self.state().contains_key(key@) ==> r is Ok,
            r matches Ok(w) ==> w.wf() && w.command@ == (CommandView::RmRecord { key: key@ }),
            r matches Err(e) ==> e is KeyNotFound || e is BincodeError,
    {
        proof {
            lemma_index_of(self.records@);
            lemma_key_index(self.index(), key@);
        }
        if find(&self.index, &key).is_none() {
            return Err(EngineError::KeyNotFound);
        }
        let command = EngineCommand::RmCommand { key };
        let frame = command.frame()?;
        Ok(PendingWrite { command, frame })
    }

    /// Takes a write whose frame the caller has appended to the log and
    /// flushed into account; true where compaction is now due.
    pub fn commit(&mut self, w: PendingWrite) -> (compact: bool)
        requires
            old(self).wf(),
            w.wf(),
            old(self).log().len() + w.frame@.len() <= u64::MAX,
        ensures
            final(self).wf(),
            final(self).records() == old(self).records().push(w.command@),
            final(self).log() == old(self).log() + w.frame@,
            compact == (final(self).garbage() >= COMPACTION_THRESHOLD_BYTES),
    {
        let frame_len = w.frame.len() as u64;
        self.apply(w.command, frame_len);
        assert(self.records().drop_last() == old(self).records());
        self.garbage >= COMPACTION_THRESHOLD_BYTES
    }

    /// The offset of the frame that holds the value of `key`, if it has one.
    pub fn locate(&self, key: &String) -> (r: Option<u64>)
        requires
            self.wf(),
        ensures
            r is Some <==> self.state().contains_key(key@),
            r matches Some(o) ==> set_frame_at(self.log(), o as nat, key@, self.state()[key@]),
    {
        proof {
            lemma_index_of(self.records@);
            lemma_key_index(self.index(), key@);
        }
        match find(&self.index, key) {
            Some(j) => {
                assert(index_view(self.index@)[j as int].1 == self.index@[j as int].1 as nat);
                Some(self.index[j].1)
            },
            None => None,
        }
    }

    /// The value in the encoded record `body` read for `key`: an error where
    /// it is not a `SET` of that key, for the index points only at such.
    pub fn read_value(key: &String, body: &[u8]) -> (r: Result<String, EngineError>)
        ensures
            r matches Ok(v) ==> body@ == record_bytes(CommandView::SetRecord { key: key@, value: v@ }),
            is_set_of(body@, key@) ==> r is Ok,
            r matches Err(e) ==> e is UnexpectedResult,
    {
        proof {
            if exists|v: Seq<char>| body@ == record_bytes(CommandView::SetRecord { key: key@, value: v }) {
                let v = choose|v: Seq<char>| body@ == record_bytes(CommandView::SetRecord { key: key@, value: v });
                assert(exists|c: CommandView| record_bytes(c) == body@) by {
                    assert(record_bytes(CommandView::SetRecord { key: key@, value: v }) == body@);
                }
                assert(body@.len() == body.len());
                assert(usize::MAX as int == 0xffff_ffff || usize::MAX as int == 0xffff_ffff_ffff_ffff);
            }
        }
        match EngineCommand::decode(body) {
            Ok(EngineCommand::SetCommand { key: k, value }) => {
                proof {
                    if exists|v: Seq<char>| body@ == record_bytes(CommandView::SetRecord { key: key@, value: v }) {
                        let v = choose|v: Seq<char>| body@ == record_bytes(CommandView::SetRecord { key: key@, value: v });
                        lemma_record_bytes_injective(CommandView::SetRecord { key: k@, value: value@ }, CommandView::SetRecord { key: key@, value: v });
                    }
                }
                if k == *key {
                    Ok(value)
                } else {
                    Err(EngineError::UnexpectedResult)
                }
            },
            Ok(EngineCommand::RmCommand { key: k }) => {
                proof {
                    if exists|v: Seq<char>| body@ == record_bytes(CommandView::SetRecord { key: key@, value: v }) {
                        let v = choose|v: Seq<char>| body@ == record_bytes(CommandView::SetRecord { key: key@, value: v });
                        lemma_record_bytes_injective(CommandView::RmRecord { key: k@ }, CommandView::SetRecord { key: key@, value: v });
                    }
                }
                Err(EngineError::UnexpectedResult)
            },
            Err(_) => Err(EngineError::UnexpectedResult),
        }
    }

    /// The offsets of the frames of the live keys, in the order of the index:
    /// compaction reads the encoded records there.
    pub fn live_offsets(&self) -> (r: Vec<u64>)
        requires
            self.wf(),
        ensures
            r@.len() == self.index().len(),
            forall|j: int| 0 <= j < r@.len() ==> r@[j] as nat == #[trigger] self.index()[j].1,
    {
        let mut r: Vec<u64> = Vec::new();
        let mut j: usize = 0;
        while j < self.index.len()
            invariant
                self.wf(),
                j <= self.index@.len(),
                r@.len() == j,
                forall|i: int| 0 <= i < j ==> r@[i] as nat == #[trigger] self.index()[i].1,
            decreases self.index@.len() - j,
        {
            assert(index_view(self.index@)[j as int].1 == self.index@[j as int].1 as nat);
            r.push(self.index[j].1);
            j = j + 1;
        }
        r
    }

    /// Rewrites the log from the encoded records of the live keys, read at
    /// `live_offsets()`, one for each key in the order of the index; an
    /// error where one of them is not a `SET` of its key.
    pub fn compact(&self, bodies: &Vec<Vec<u8>>) -> (r: Result<Compacted, EngineError>)
        requires
            self.wf(),
        ensures
            r is Ok <==> bodies@.len() == self.index().len() && forall|j: int|
                0 <= j < bodies@.len() ==> is_set_of(#[trigger] body_views(bodies@)[j], self.index()[j].0),
            r matches Ok(c) ==> c.wf() && c.records().len() == bodies@.len() && forall|j: int|
                0 <= j < bodies@.len() ==> #[trigger] c.records()[j] == (CommandView::SetRecord {
                    key: self.index()[j].0,
                    value: set_value(c.records()[j]),
                }) && body_views(bodies@)[j] == record_bytes(c.records()[j]),
            bodies@.len() == self.index().len() && (forall|j: int|
                0 <= j < bodies@.len() ==> #[trigger] body_views(bodies@)[j] == record_bytes(
                    compacted_records(self.records())[j],
                )) ==> (r matches Ok(c) && c.records() == compacted_records(self.records())),
            r matches Err(e) ==> e is UnexpectedResult,
    {
        let ghost bs = body_views(bodies@);
        let r = self.rewrite(bodies);
        proof {
            lemma_index_of(self.records@);
            if r is Ok {
                lemma_compact_done(self.index(), bs, r->Ok_0.records(), self.records@);
            }
        }
        r
    }

    /// The compacted log built from `bodies`, as far as they are `SET`s of
    /// the keys of the index.
    #[verifier::spinoff_prover]
    fn rewrite(&self, bodies: &Vec<Vec<u8>>) -> (r: Result<Compacted, EngineError>)
        requires
            self.wf(),
        ensures
            r matches Ok(c) ==> c.wf() && compact_inv(self.index(), body_views(bodies@), c.records())
                && c.records().len() == bodies@.len() && bodies@.len() == self.index().len(),
            r is Err ==> bodies@.len() != self.index().len() || exists|j: int|
                0 <= j < bodies@.len() && !is_set_of(#[trigger] body_views(bodies@)[j], self.index()[j].0),
            r matches Err(e) ==> e is UnexpectedResult,
            forall|i: int| 0 <= i < bodies@.len() ==> (#[trigger] body_views(bodies@)[i]).len() <= u64::MAX,
    {
        let ghost ix = self.index();
        proof {
            lemma_index_of(self.records@);
            assert forall|i: int| 0 <= i < bodies@.len() implies body_views(bodies@)[i].len() <= u64::MAX by {
                assert(body_views(bodies@)[i].len() == bodies@[i].len());
                assert(usize::MAX as int == 0xffff_ffff || usize::MAX as int == 0xffff_ffff_ffff_ffff);
            }
        }
        let n = self.index.len();
        if bodies.len() != n {
            return Err(EngineError::UnexpectedResult);
        }
        let mut out: Vec<u8> = Vec::new();
        let mut index: Vec<(String, u64, u64)> = Vec::new();
        let ghost mut recs: Seq<CommandView> = Seq::empty();
        let ghost bs = body_views(bodies@);
        let mut j: usize = 0;
        assert(index_view(index@) =~= Seq::<(Seq<char>, nat)>::empty());
        while j < n
            invariant
                self.wf(),
                ix == self.index(),
                ix == index_view(self.index@),
                unique_keys(ix),
                n == ix.len(),
                bodies@.len() == n,
                j <= n,
                recs.len() == j,
                out@ == log_bytes(recs),
                index_view(index@) == index_of(recs),
                bs == body_views(bodies@),
                compact_inv(ix, bs, recs),
                forall|i: int| 0 <= i < bodies@.len() ==> (#[trigger] body_views(bodies@)[i]).len() <= u64::MAX,
                index@.len() == recs.len(),
                forall|i: int| 0 <= i < index@.len() ==> #[trigger] index@[i].2 as nat == frame_bytes(recs[i]).len(),
            decreases n - j,
        {
            let body = bodies[j].as_slice();
            assert(ix[j as int].0 == self.index@[j as int].0@);
            let value = match KvStore::read_value(&self.index[j].0, body) {
                Ok(v) => v,
                Err(e) => {
                    assert(bs[j as int] == bodies@[j as int]@);
                    assert(!is_set_of(bs[j as int], ix[j as int].0));
                    return Err(e);
                },
            };
            let key = self.index[j].0.clone();
            let ghost c = CommandView::SetRecord { key: key@, value: value@ };
            let o = out.len() as u64;
            assert(usize::MAX as int == 0xffff_ffff || usize::MAX as int == 0xffff_ffff_ffff_ffff);
            push_u64_le(&mut out, body.len() as u64);
            extend_bytes(&mut out, body);
            let flen = (out.len() - o as usize) as u64;
            index.push((key, o, flen));
            proof {
                let old_recs = recs;
                lemma_compact_step(ix, bs, recs, c);
                recs = recs.push(c);
                assert(recs.drop_last() == old_recs);
                assert(out@ =~= log_bytes(recs));
                assert(index_view(index@) =~= index_of(recs));
                assert forall|i: int| 0 <= i < index@.len() implies #[trigger] index@[i].2 as nat == frame_bytes(
                    recs[i],
                ).len() by {
                    if i < old_recs.len() {
                        assert(recs[i] == old_recs[i]);
                    }
                }
            }
            j = j + 1;
        }
        proof {
            lemma_distinct_sets(recs);
            assert forall|i: int| 0 <= i < index@.len() implies #[trigger] index@[i].2 as nat == live_frame_len(
                state_of(recs),
                index@[i].0@,
            ) by {
                assert(index_view(index@)[i].0 == index@[i].0@);
                assert(recs[i] is SetRecord);
                assert(state_of(recs)[recs[i].key()] == set_value(recs[i]));
                assert(recs[i] == (CommandView::SetRecord { key: recs[i].key(), value: set_value(recs[i]) }));
            }
        }
        Ok(Compacted { log: out, index, records: Ghost(recs) })
    }

    /// Puts the compacted log in place of the log; the caller has put its
    /// bytes in place of the log file.
    pub fn install(&mut self, c: Compacted)
        requires
            c.wf(),
        ensures
            final(self).wf(),
            final(self).records() == c.records(),
    {
        assert(usize::MAX as int == 0xffff_ffff || usize::MAX as int == 0xffff_ffff_ffff_ffff);
        self.cur_offset = c.log.len() as u64;
        self.index = c.index;
        self.garbage = 0;
        self.records = c.records;
    }

    /// Takes one more record of the log, of `frame_len` bytes, into account.
    fn apply(&mut self, cmd: EngineCommand, frame_len: u64)
        requires
            old(self).wf(),
            frame_len == frame_bytes(cmd@).len(),
            old(self).cur_offset + frame_len <= u64::MAX,
        ensures
            final(self).wf(),
            final(self).records() == old(self).records().push(cmd@),
    {
        let ghost old_recs = self.records@;
        let ghost old_index = self.index@;
        let ghost c = cmd@;
        let ghost recs = old_recs.push(c);
        let ghost st0 = state_of(old_recs);
        let ghost st = state_of(recs);
        proof {
            lemma_index_of(old_recs);
            lemma_index_of(recs);
            assert(recs.drop_last() == old_recs);
            lemma_key_index(index_of(old_recs), c.key());
            lemma_compacted_len(recs);
            assert(log_bytes(recs).len() == log_bytes(old_recs).len() + frame_len);
        }
        let o = self.cur_offset;
        match cmd {
            EngineCommand::SetCommand { key, value } => {
                match find(&self.index, &key) {
                    Some(j) => {
                        assert(index_view(old_index)[j as int].0 == old_index[j as int].0@);
                        let old_len = self.index[j].2;
                        self.index.set(j, (key, o, frame_len));
                        self.garbage = self.garbage + old_len;
                    },
                    None => {
                        self.index.push((key, o, frame_len));
                    },
                }
            },
            EngineCommand::RmCommand { key } => {
                match find(&self.index, &key) {
                    Some(j) => {
                        assert(index_view(old_index)[j as int].0 == old_index[j as int].0@);
                        let old_len = self.index[j].2;
                        self.index.remove(j);
                        self.garbage = self.garbage + old_len + frame_len;
                    },
                    None => {
                        self.garbage = self.garbage + frame_len;
                    },
                }
            },
        }
        self.cur_offset = o + frame_len;
        self.records = Ghost(recs);
        proof {
            let ix0 = index_of(old_recs);
            assert forall|i: int| 0 <= i < old_index.len() && old_index[i].0@ != c.key() implies st[old_index[i].0@]
                == st0[old_index[i].0@] by {
                assert(index_view(old_index)[i].0 == old_index[i].0@);
                assert(has_key(ix0, old_index[i].0@));
            }
            assert forall|i: int| 0 <= i < old_index.len() implies (#[trigger] old_index[i]).0@ != c.key() || i
                == key_index(ix0, c.key()) by {
                assert(index_view(old_index)[i].0 == old_index[i].0@);
            }
            assert forall|i: int| 0 <= i < self.index@.len() implies #[trigger] self.index@[i].2 as nat
                == live_frame_len(st, self.index@[i].0@) by {
                let j = key_index(ix0, c.key());
                if c is SetRecord {
                    if j >= 0 && i != j {
                        assert(self.index@[i] == old_index[i]);
                    } else if j < 0 && i < old_index.len() {
                        assert(self.index@[i] == old_index[i]);
                    }
                } else if j >= 0 {
                    if i < j {
                        assert(self.index@[i] == old_index[i]);
                    } else {
                        assert(self.index@[i] == old_index[i + 1]);
                    }
                } else {
                    assert(self.index@[i] == old_index[i]);
                }
            }
        }
        assert(index_view(self.index@) =~= index_of(recs));
    }
}

} // verus!
