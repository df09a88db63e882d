//! The log as a sequence of records, and what it determines: its bytes, the
//! mapping it stores, the index of the latest `SET` frame of each live key
//! and the bytes that compaction can reclaim.
use vstd::prelude::*;
use crate::codec::{CommandView, frame_bytes};

verus! {

/// The bytes of a log that holds `recs` in order.
pub open spec fn log_bytes(recs: Seq<CommandView>) -> Seq<u8>
    decreases recs.len(),
{
    if recs.len() == 0 {
        Seq::empty()
    } else {
        log_bytes(recs.drop_last()) + frame_bytes(recs.last())
    }
}

/// The mapping `m` after the record `c`.
pub open spec fn apply(m: Map<Seq<char>, Seq<char>>, c: CommandView) -> Map<Seq<char>, Seq<char>> {
    match c {
        CommandView::SetRecord { key, value } => m.insert(key, value),
        CommandView::RmRecord { key } => m.remove(key),
    }
}

/// The mapping that the records `recs` leave, from the empty one.
pub open spec fn state_of(recs: Seq<CommandView>) -> Map<Seq<char>, Seq<char>>
    decreases recs.len(),
{
    if recs.len() == 0 {
        Map::empty()
    } else {
        apply(state_of(recs.drop_last()), recs.last())
    }
}

/// The position of the last entry of `ix` with key `k`, or -1.
pub open spec fn key_index(ix: Seq<(Seq<char>, nat)>, k: Seq<char>) -> int
    decreases ix.len(),
{
    if ix.len() == 0 {
        -1
    } else if ix.last().0 == k {
        ix.len() - 1
    } else {
        key_index(ix.drop_last(), k)
    }
}

/// The index after `c`, written at offset `o`: a `SET` points its key at `o`,
/// a new key going last; an `RM` takes its key out.
pub open spec fn index_step(ix: Seq<(Seq<char>, nat)>, c: CommandView, o: nat) -> Seq<(Seq<char>, nat)> {
    let j = key_index(ix, c.key());
    match c {
        CommandView::SetRecord { key, .. } => if j >= 0 {
            ix.update(j, (key, o))
        } else {
            ix.push((key, o))
        },
        CommandView::RmRecord { .. } => if j >= 0 {
            ix.remove(j)
        } else {
            ix
        },
    }
}

/// The index of the log `recs`: each live key with the offset of its latest
/// `SET` frame, in the order in which the keys came.
pub open spec fn index_of(recs: Seq<CommandView>) -> Seq<(Seq<char>, nat)>
    decreases recs.len(),
{
    if recs.len() == 0 {
        Seq::empty()
    } else {
        index_step(index_of(recs.drop_last()), recs.last(), log_bytes(recs.drop_last()).len())
    }
}

/// The frame of the value that `st` holds for `k`.
pub open spec fn live_frame_len(st: Map<Seq<char>, Seq<char>>, k: Seq<char>) -> nat {
    frame_bytes(CommandView::SetRecord { key: k, value: st[k] }).len()
}

/// The bytes that the record `c` makes reclaimable, after the index `ix` and
/// the mapping `st`: a `SET` that replaces a value frees the frame of that
/// value; an `RM` frees its own frame and, where the key had a value, the
/// frame of that value.
pub open spec fn garbage_step(ix: Seq<(Seq<char>, nat)>, st: Map<Seq<char>, Seq<char>>, c: CommandView) -> nat {
    match c {
        CommandView::SetRecord { key, .. } => if key_index(ix, key) >= 0 {
            live_frame_len(st, key)
        } else {
            0
        },
        CommandView::RmRecord { key } => if key_index(ix, key) >= 0 {
            live_frame_len(st, key) + frame_bytes(c).len()
        } else {
            frame_bytes(c).len()
        },
    }
}

/// The reclaimable bytes of the log `recs`, as the store counts them.
pub open spec fn garbage_of(recs: Seq<CommandView>) -> nat
    decreases recs.len(),
{
    if recs.len() == 0 {
        0
    } else {
        garbage_of(recs.drop_last()) + garbage_step(
            index_of(recs.drop_last()),
            state_of(recs.drop_last()),
            recs.last(),
        )
    }
}

/// No key occurs twice in `ix`.
pub open spec fn unique_keys(ix: Seq<(Seq<char>, nat)>) -> bool {
    forall|i: int, j: int| 0 <= i < ix.len() && 0 <= j < ix.len() && i != j ==> ix[i].0 != ix[j].0
}

/// `key_index` finds the only entry with the key, if there is one.
pub proof fn lemma_key_index(ix: Seq<(Seq<char>, nat)>, k: Seq<char>)
    ensures
        -1 <= key_index(ix, k) < ix.len(),
        key_index(ix, k) >= 0 ==> ix[key_index(ix, k)].0 == k,
        key_index(ix, k) == -1 <==> forall|j: int| 0 <= j < ix.len() ==> ix[j].0 != k,
        forall|j: int| key_index(ix, k) < j < ix.len() ==> ix[j].0 != k,
    decreases ix.len(),
{
    if ix.len() > 0 {
        lemma_key_index(ix.drop_last(), k);
        if ix.last().0 != k {
            assert forall|j: int| 0 <= j < ix.len() - 1 implies ix[j] == ix.drop_last()[j] by {}
        }
    }
}

/// The bytes of a log grow by one frame per record.
pub proof fn lemma_log_bytes_take(recs: Seq<CommandView>, m: int)
    requires
        0 <= m < recs.len(),
    ensures
        log_bytes(recs.take(m + 1)) == log_bytes(recs.take(m)) + frame_bytes(recs[m]),
{
    assert(recs.take(m + 1).drop_last() =~= recs.take(m));
}

/// The bytes of the first `m` records begin the bytes of the log.
pub proof fn lemma_log_bytes_prefix(recs: Seq<CommandView>, m: int)
    requires
        0 <= m <= recs.len(),
    ensures
        log_bytes(recs.take(m)).len() <= log_bytes(recs).len(),
        log_bytes(recs).subrange(0, log_bytes(recs.take(m)).len() as int) == log_bytes(recs.take(m)),
    decreases recs.len() - m,
{
    if m == recs.len() {
        assert(recs.take(m) =~= recs);
    } else {
        lemma_log_bytes_prefix(recs, m + 1);
        lemma_log_bytes_take(recs, m);
        let a = log_bytes(recs.take(m));
        let b = log_bytes(recs.take(m + 1));
        assert(b.subrange(0, a.len() as int) =~= a);
        assert(log_bytes(recs).subrange(0, a.len() as int) =~= b.subrange(0, a.len() as int));
    }
}

/// `k` is the key of some entry of `ix`.
pub open spec fn has_key(ix: Seq<(Seq<char>, nat)>, k: Seq<char>) -> bool {
    exists|j: int| 0 <= j < ix.len() && ix[j].0 == k
}

/// The frame of `SET{k, v}` stands at offset `o` of `log`.
pub open spec fn set_frame_at(log: Seq<u8>, o: nat, k: Seq<char>, v: Seq<char>) -> bool {
    let f = frame_bytes(CommandView::SetRecord { key: k, value: v });
    &&& o + f.len() <= log.len()
    &&& log.subrange(o as int, (o + f.len()) as int) == f
}

/// What the index of a log says of it: its keys are unique and are the live
/// keys, and each points at the `SET` frame of its current value.
pub open spec fn index_matches(recs: Seq<CommandView>) -> bool {
    let ix = index_of(recs);
    let st = state_of(recs);
    &&& unique_keys(ix)
    &&& forall|k: Seq<char>| #[trigger] st.contains_key(k) <==> has_key(ix, k)
    &&& forall|j: int|
        0 <= j < ix.len() ==> set_frame_at(log_bytes(recs), #[trigger] ix[j].1, ix[j].0, st[ix[j].0])
}

/// The index of every log matches it.
#[verifier::spinoff_prover]
#[verifier::rlimit(40)]
pub proof fn lemma_index_of(recs: Seq<CommandView>)
    ensures
        index_matches(recs),
    decreases recs.len(),
{
    if recs.len() > 0 {
        let prev = recs.drop_last();
        lemma_index_of(prev);
        let ix0 = index_of(prev);
        let st0 = state_of(prev);
        let c = recs.last();
        let lp = log_bytes(prev);
        let o = lp.len();
        let log = log_bytes(recs);
        let ix = index_of(recs);
        let st = state_of(recs);
        assert(log == lp + frame_bytes(c));
        let key = c.key();
        lemma_key_index(ix0, key);
        let j = key_index(ix0, key);
        // entries kept from before still point at their frames
        assert forall|i: int| 0 <= i < ix0.len() && ix0[i].0 != key implies set_frame_at(
            log,
            ix0[i].1,
            ix0[i].0,
            st[ix0[i].0],
        ) by {
            let f = frame_bytes(CommandView::SetRecord { key: ix0[i].0, value: st0[ix0[i].0] });
            assert(set_frame_at(lp, ix0[i].1, ix0[i].0, st0[ix0[i].0]));
            assert(log.subrange(ix0[i].1 as int, (ix0[i].1 + f.len()) as int) =~= lp.subrange(
                ix0[i].1 as int,
                (ix0[i].1 + f.len()) as int,
            ));
            assert(st0.contains_key(ix0[i].0));
            assert(st[ix0[i].0] == st0[ix0[i].0]);
        }
        match c {
            CommandView::SetRecord { key: k, value: v } => {
                assert(log.subrange(o as int, (o + frame_bytes(c).len()) as int) =~= frame_bytes(c));
                if j >= 0 {
                    assert(ix == ix0.update(j, (key, o)));
                    assert forall|kk: Seq<char>| #[trigger] st.contains_key(kk) <==> has_key(ix, kk) by {
                        if st.contains_key(kk) && kk != key {
                            let i = choose|i: int| 0 <= i < ix0.len() && ix0[i].0 == kk;
                            assert(ix[i].0 == kk);
                        }
                        if has_key(ix, kk) {
                            let i = choose|i: int| 0 <= i < ix.len() && ix[i].0 == kk;
                            if i != j {
                                assert(ix0[i].0 == kk);
                            }
                        }
                        if kk == key {
                            assert(ix[j].0 == kk);
                        }
                    }
                    assert forall|i: int| 0 <= i < ix.len() implies set_frame_at(
                        log,
                        #[trigger] ix[i].1,
                        ix[i].0,
                        st[ix[i].0],
                    ) by {
                        if i != j {
                            assert(ix[i] == ix0[i]);
                        }
                    }
                } else {
                    assert(ix == ix0.push((key, o)));
                    assert forall|kk: Seq<char>| #[trigger] st.contains_key(kk) <==> has_key(ix, kk) by {
                        if st.contains_key(kk) && kk != key {
                            let i = choose|i: int| 0 <= i < ix0.len() && ix0[i].0 == kk;
                            assert(ix[i].0 == kk);
                        }
                        if has_key(ix, kk) {
                            let i = choose|i: int| 0 <= i < ix.len() && ix[i].0 == kk;
                            if i < ix0.len() {
                                assert(ix0[i].0 == kk);
                            }
                        }
                        if kk == key {
                            assert(ix[ix0.len() as int].0 == kk);
                        }
                    }
                    assert forall|i: int| 0 <= i < ix.len() implies set_frame_at(
                        log,
                        #[trigger] ix[i].1,
                        ix[i].0,
                        st[ix[i].0],
                    ) by {
                        if i < ix0.len() {
                            assert(ix[i] == ix0[i]);
                        }
                    }
                }
            },
            CommandView::RmRecord { .. } => {
                if j >= 0 {
                    assert(ix == ix0.remove(j));
                    assert forall|kk: Seq<char>| #[trigger] st.contains_key(kk) <==> has_key(ix, kk) by {
                        if st.contains_key(kk) {
                            let i = choose|i: int| 0 <= i < ix0.len() && ix0[i].0 == kk;
                            assert(i != j);
                            if i < j {
                                assert(ix[i].0 == kk);
                            } else {
                                assert(ix[i - 1].0 == kk);
                            }
                        }
                        if has_key(ix, kk) {
                            let i = choose|i: int| 0 <= i < ix.len() && ix[i].0 == kk;
                            if i < j {
                                assert(ix0[i].0 == kk);
                            } else {
                                assert(ix0[i + 1].0 == kk);
                            }
                        }
                    }
                    assert forall|i: int| 0 <= i < ix.len() implies set_frame_at(
                        log,
                        #[trigger] ix[i].1,
                        ix[i].0,
                        st[ix[i].0],
                    ) by {
                        if i < j {
                            assert(ix[i] == ix0[i]);
                        } else {
                            assert(ix[i] == ix0[i + 1]);
                        }
                    }
                } else {
                    assert(st =~= st0);
                    assert(ix == ix0);
                }
            },
        }
    }
}

/// `b` begins with a well-formed frame.
pub open spec fn starts_with_frame(b: Seq<u8>) -> bool {
    exists|c: CommandView|
        frame_bytes(c).len() <= b.len() && b.subrange(0, frame_bytes(c).len() as int) == #[trigger] frame_bytes(c)
}

/// The log that compaction writes for `recs`: one `SET` of each live key with
/// its value, in the order of the index.
pub open spec fn compacted_records(recs: Seq<CommandView>) -> Seq<CommandView> {
    index_of(recs).map_values(
        |e: (Seq<char>, nat)| CommandView::SetRecord { key: e.0, value: state_of(recs)[e.0] },
    )
}

/// `s` holds only `SET` records, no two of one key.
pub open spec fn distinct_sets(s: Seq<CommandView>) -> bool {
    &&& forall|i: int| 0 <= i < s.len() ==> #[trigger] s[i] is SetRecord
    &&& forall|i: int, j: int| 0 <= i < s.len() && 0 <= j < s.len() && i != j ==> s[i].key() != s[j].key()
}

/// The value of a `SET` record.
pub open spec fn set_value(c: CommandView) -> Seq<char> {
    match c {
        CommandView::SetRecord { value, .. } => value,
        CommandView::RmRecord { .. } => Seq::empty(),
    }
}

/// A log of `SET`s of distinct keys stores each of them, indexes them in
/// their order and has nothing to reclaim.
pub proof fn lemma_distinct_sets(s: Seq<CommandView>)
    requires
        distinct_sets(s),
    ensures
        forall|k: Seq<char>| #[trigger] state_of(s).contains_key(k) <==> exists|i: int| 0 <= i < s.len() && s[i].key() == k,
        forall|i: int| 0 <= i < s.len() ==> state_of(s)[#[trigger] s[i].key()] == set_value(s[i]),
        index_of(s).len() == s.len(),
        forall|i: int| 0 <= i < s.len() ==> #[trigger] index_of(s)[i].0 == s[i].key(),
        garbage_of(s) == 0,
    decreases s.len(),
{
    if s.len() > 0 {
        let p = s.drop_last();
        assert(distinct_sets(p)) by {
            assert forall|i: int| 0 <= i < p.len() implies #[trigger] p[i] is SetRecord by {
                assert(p[i] == s[i]);
            }
        }
        lemma_distinct_sets(p);
        let c = s.last();
        let ix0 = index_of(p);
        lemma_key_index(ix0, c.key());
        assert(key_index(ix0, c.key()) == -1) by {
            assert forall|j: int| 0 <= j < ix0.len() implies ix0[j].0 != c.key() by {
                assert(ix0[j].0 == p[j].key());
                assert(p[j] == s[j]);
            }
        }
        assert(s[s.len() - 1] is SetRecord);
        assert(index_of(s) == ix0.push((c.key(), log_bytes(p).len())));
        assert forall|k: Seq<char>| #[trigger] state_of(s).contains_key(k) <==> exists|i: int| 0 <= i < s.len() && s[i].key() == k by {
            if state_of(s).contains_key(k) && k != c.key() {
                let i = choose|i: int| 0 <= i < p.len() && p[i].key() == k;
                assert(s[i] == p[i]);
            }
            if exists|i: int| 0 <= i < s.len() && s[i].key() == k {
                let i = choose|i: int| 0 <= i < s.len() && s[i].key() == k;
                if i < p.len() {
                    assert(s[i] == p[i]);
                }
            }
        }
        assert forall|i: int| 0 <= i < s.len() implies state_of(s)[#[trigger] s[i].key()] == set_value(s[i]) by {
            if i < p.len() {
                assert(s[i] == p[i]);
                assert(state_of(p)[p[i].key()] == set_value(p[i]));
            }
        }
        assert forall|i: int| 0 <= i < s.len() implies #[trigger] index_of(s)[i].0 == s[i].key() by {
            if i < p.len() {
                assert(s[i] == p[i]);
                assert(index_of(p)[i].0 == p[i].key());
            }
        }
    }
}

/// The compacted log holds `SET`s of distinct keys, those of the index.
pub proof fn lemma_compacted_distinct(recs: Seq<CommandView>)
    ensures
        distinct_sets(compacted_records(recs)),
        compacted_records(recs).len() == index_of(recs).len(),
{
    lemma_index_of(recs);
}

/// Replacing one record changes the size of a log by the difference of the
/// two frames.
pub proof fn lemma_log_len_update(s: Seq<CommandView>, j: int, c: CommandView)
    requires
        0 <= j < s.len(),
    ensures
        log_bytes(s.update(j, c)).len() + frame_bytes(s[j]).len() == log_bytes(s).len() + frame_bytes(c).len(),
    decreases s.len(),
{
    let t = s.update(j, c);
    if j == s.len() - 1 {
        assert(t.drop_last() =~= s.drop_last());
    } else {
        assert(t.drop_last() =~= s.drop_last().update(j, c));
        lemma_log_len_update(s.drop_last(), j, c);
    }
}

/// Dropping one record shrinks a log by its frame.
pub proof fn lemma_log_len_remove(s: Seq<CommandView>, j: int)
    requires
        0 <= j < s.len(),
    ensures
        log_bytes(s.remove(j)).len() + frame_bytes(s[j]).len() == log_bytes(s).len(),
    decreases s.len(),
{
    let t = s.remove(j);
    if j == s.len() - 1 {
        assert(t =~= s.drop_last());
    } else {
        assert(t.drop_last() =~= s.drop_last().remove(j));
        assert(t.last() == s.last());
        lemma_log_len_remove(s.drop_last(), j);
    }
}

/// The log is the compacted log plus the reclaimable bytes, as counted.
pub proof fn lemma_compacted_len(recs: Seq<CommandView>)
    ensures
        log_bytes(compacted_records(recs)).len() + garbage_of(recs) == log_bytes(recs).len(),
    decreases recs.len(),
{
    if recs.len() > 0 {
        let prev = recs.drop_last();
        lemma_compacted_len(prev);
        lemma_index_of(prev);
        lemma_index_of(recs);
        let c = recs.last();
        let key = c.key();
        let ix0 = index_of(prev);
        let ix = index_of(recs);
        let st0 = state_of(prev);
        let st = state_of(recs);
        let s0 = compacted_records(prev);
        let s = compacted_records(recs);
        lemma_key_index(ix0, key);
        let j = key_index(ix0, key);
        assert(log_bytes(recs).len() == log_bytes(prev).len() + frame_bytes(c).len());
        // an entry of another key keeps its value
        assert forall|i: int| 0 <= i < ix0.len() && ix0[i].0 != key implies st[ix0[i].0] == st0[ix0[i].0] by {}
        match c {
            CommandView::SetRecord { .. } => {
                if j >= 0 {
                    assert(s =~= s0.update(j, c)) by {
                        assert forall|i: int| 0 <= i < s.len() implies s[i] == s0.update(j, c)[i] by {
                            if i != j {
                                assert(ix0[i].0 != key);
                            }
                        }
                    }
                    lemma_log_len_update(s0, j, c);
                } else {
                    assert(s =~= s0.push(c)) by {
                        assert forall|i: int| 0 <= i < s.len() implies s[i] == s0.push(c)[i] by {
                            if i < ix0.len() {
                                assert(ix0[i].0 != key);
                            }
                        }
                    }
                    assert(s0.push(c).drop_last() == s0);
                }
            },
            CommandView::RmRecord { .. } => {
                if j >= 0 {
                    assert(s =~= s0.remove(j)) by {
                        assert forall|i: int| 0 <= i < s.len() implies s[i] == s0.remove(j)[i] by {
                            if i < j {
                                assert(ix0[i].0 != key);
                            } else {
                                assert(ix0[i + 1].0 != key);
                            }
                        }
                    }
                    lemma_log_len_remove(s0, j);
                } else {
                    assert(st =~= st0);
                    assert(s =~= s0);
                }
            },
        }
    }
}

} // verus!
