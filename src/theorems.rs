//! What holds of the store across several operations.
use vstd::prelude::*;
use crate::codec::CommandView;
use crate::engine::COMPACTION_THRESHOLD_BYTES;
use crate::log::{
    compacted_records, garbage_of, has_key, index_of, lemma_compacted_distinct, lemma_compacted_len,
    lemma_distinct_sets, lemma_index_of, log_bytes, set_value, state_of,
};

verus! {

/// Compaction keeps the value of every key, leaves nothing to reclaim, and
/// does not make the log larger.
pub proof fn compaction_preserves_state(recs: Seq<CommandView>)
    ensures
        state_of(compacted_records(recs)) == state_of(recs),
        garbage_of(compacted_records(recs)) == 0,
        log_bytes(compacted_records(recs)).len() <= log_bytes(recs).len(),
{
    lemma_compacted_len(recs);
    let s = compacted_records(recs);
    let ix = index_of(recs);
    let st = state_of(recs);
    lemma_index_of(recs);
    lemma_compacted_distinct(recs);
    lemma_distinct_sets(s);
    assert forall|k: Seq<char>| state_of(s).contains_key(k) <==> st.contains_key(k) by {
        if state_of(s).contains_key(k) {
            let i = choose|i: int| 0 <= i < s.len() && s[i].key() == k;
            assert(ix[i].0 == k);
            assert(has_key(ix, k));
        }
        if st.contains_key(k) {
            assert(has_key(ix, k));
            let i = choose|i: int| 0 <= i < ix.len() && ix[i].0 == k;
            assert(s[i].key() == k);
        }
    }
    assert forall|k: Seq<char>| state_of(s).contains_key(k) implies state_of(s)[k] == st[k] by {
        let i = choose|i: int| 0 <= i < s.len() && s[i].key() == k;
        assert(state_of(s)[s[i].key()] == st[ix[i].0]);
    }
    assert(state_of(s) =~= st);
}

/// The reclaimable bytes as counted are exactly those that compaction
/// frees: the log is the compacted log plus them. After a write that left
/// them under the threshold, or a compaction, the log exceeds the frames of
/// the live values by less than the threshold.
pub proof fn log_is_live_plus_garbage(recs: Seq<CommandView>)
    ensures
        log_bytes(recs).len() == log_bytes(compacted_records(recs)).len() + garbage_of(recs),
{
    lemma_compacted_len(recs);
}

/// A log whose reclaimable bytes are under the compaction threshold, as
/// `KvStore::commit` leaves it unless it asks for compaction, exceeds the
/// frames of the live values by less than the threshold.
pub proof fn space_bound(recs: Seq<CommandView>)
    requires
        garbage_of(recs) < COMPACTION_THRESHOLD_BYTES,
    ensures
        log_bytes(recs).len() < log_bytes(compacted_records(recs)).len() + COMPACTION_THRESHOLD_BYTES,
{
    lemma_compacted_len(recs);
}

/// Compacting a compacted log gives the same log, byte for byte.
pub proof fn compaction_idempotent(recs: Seq<CommandView>)
    ensures
        compacted_records(compacted_records(recs)) == compacted_records(recs),
        log_bytes(compacted_records(compacted_records(recs))) == log_bytes(compacted_records(recs)),
{
    let s = compacted_records(recs);
    lemma_compacted_distinct(recs);
    lemma_distinct_sets(s);
    compaction_preserves_state(recs);
    let t = compacted_records(s);
    assert forall|i: int| 0 <= i < s.len() implies t[i] == s[i] by {
        assert(index_of(s)[i].0 == s[i].key());
    }
    assert(t =~= s);
}

/// The position of the last record of `recs` on key `k`, or -1.
pub open spec fn last_on(recs: Seq<CommandView>, k: Seq<char>) -> int
    decreases recs.len(),
{
    if recs.len() == 0 {
        -1
    } else if recs.last().key() == k {
        recs.len() - 1
    } else {
        last_on(recs.drop_last(), k)
    }
}

/// Every key has the value that the last operation on it wrote: none where
/// that was a remove or where there was none. With `KvStore::open`, which
/// gives back the records of a log from its bytes, this is what a reopened
/// store holds.
pub proof fn last_write_wins(recs: Seq<CommandView>, k: Seq<char>)
    ensures
        -1 <= last_on(recs, k) < recs.len(),
        last_on(recs, k) == -1 ==> !state_of(recs).contains_key(k),
        last_on(recs, k) >= 0 ==> (recs[last_on(recs, k)] is RmRecord <==> !state_of(recs).contains_key(k)),
        last_on(recs, k) >= 0 && recs[last_on(recs, k)] is SetRecord ==> state_of(recs)[k] == set_value(
            recs[last_on(recs, k)],
        ),
    decreases recs.len(),
{
    if recs.len() > 0 {
        last_write_wins(recs.drop_last(), k);
        if recs.last().key() != k {
            let i = last_on(recs.drop_last(), k);
            if i >= 0 {
                assert(recs[i] == recs.drop_last()[i]);
            }
        }
    }
}

/// A second `set` of a key replaces the first.
pub proof fn overwrite(recs: Seq<CommandView>, k: Seq<char>, v1: Seq<char>, v2: Seq<char>)
    ensures
        state_of(
            recs.push(CommandView::SetRecord { key: k, value: v1 }).push(
                CommandView::SetRecord { key: k, value: v2 },
            ),
        ).get(k) == Some(v2),
{
    let r1 = recs.push(CommandView::SetRecord { key: k, value: v1 });
    let r2 = r1.push(CommandView::SetRecord { key: k, value: v2 });
    assert(r2.drop_last() == r1);
}

/// A key that was set and then removed has no value.
pub proof fn tombstone(recs: Seq<CommandView>, k: Seq<char>, v: Seq<char>)
    ensures
        !state_of(
            recs.push(CommandView::SetRecord { key: k, value: v }).push(CommandView::RmRecord { key: k }),
        ).contains_key(k),
{
    let r1 = recs.push(CommandView::SetRecord { key: k, value: v });
    let r2 = r1.push(CommandView::RmRecord { key: k });
    assert(r2.drop_last() == r1);
}

} // verus!
