//! The cache's guarantees, stated and proved once over the update model.
//!
//! Each law here is a statement about the spec functions that the cache's
//! method contracts use, so what a caller learns from a contract can be
//! combined with these proofs without re-reading any implementation.

use vstd::prelude::*;

use crate::cache::{
    key_index, lemma_key_index_first, spec_add_runs, spec_cycle_records, spec_insert,
    spec_outcome, spec_rehydrate_from, spec_stale, unique_keys, CacheView,
};
use crate::codec::{lemma_parse_encode, spec_encode};
use crate::fetch::{lemma_new_runs_membership, spec_new_runs};
use crate::record::RecordView;

verus! {

/// Merging a batch reduced to its per-archive outcomes.
pub open spec fn spec_merge_outcomes(recs: Seq<RecordView>, items: Seq<Option<RecordView>>) -> Seq<
    RecordView,
>
    decreases items.len(),
{
    if items.len() == 0 {
        recs
    } else {
        let next = match items[0] {
            Some(v) => spec_insert(recs, v),
            None => recs,
        };
        spec_merge_outcomes(next, items.drop_first())
    }
}

/// An update cycle merges exactly the per-archive outcomes of its batch:
/// what each archive contributes depends only on whether its payload was a
/// valid record.
pub proof fn lemma_cycle_as_outcomes(recs: Seq<RecordView>, batch: Seq<(u64, Seq<u8>)>)
    ensures
        spec_cycle_records(recs, batch) == spec_merge_outcomes(
            recs,
            batch.map_values(|it: (u64, Seq<u8>)| spec_outcome(it.1)),
        ),
    decreases batch.len(),
{
    let items = batch.map_values(|it: (u64, Seq<u8>)| spec_outcome(it.1));
    if batch.len() > 0 {
        let next = match spec_outcome(batch[0].1) {
            Some(v) => spec_insert(recs, v),
            None => recs,
        };
        lemma_cycle_as_outcomes(next, batch.drop_first());
        assert(batch.drop_first().map_values(|it: (u64, Seq<u8>)| spec_outcome(it.1))
            =~= items.drop_first());
    }
}

/// Run identifiers accumulate exactly: after a cycle the processed set
/// holds an identifier iff it was processed before or belongs to the batch.
pub proof fn lemma_add_runs_contains(runs: Seq<u64>, batch: Seq<(u64, Seq<u8>)>, id: u64)
    ensures
        spec_add_runs(runs, batch).contains(id) <==> (runs.contains(id) || exists|k: int|
            0 <= k < batch.len() && (#[trigger] batch[k]).0 == id),
    decreases batch.len(),
{
    if batch.len() > 0 {
        let next = if runs.contains(batch[0].0) {
            runs
        } else {
            runs.push(batch[0].0)
        };
        lemma_add_runs_contains(next, batch.drop_first(), id);
        if !runs.contains(batch[0].0) {
            assert(next.contains(id) <==> (runs.contains(id) || batch[0].0 == id)) by {
                if next.contains(id) {
                    let k = choose|k: int| 0 <= k < next.len() && next[k] == id;
                    if k < runs.len() {
                        assert(runs[k] == id);
                    }
                } else {
                    if runs.contains(id) {
                        let k = choose|k: int| 0 <= k < runs.len() && runs[k] == id;
                        assert(next[k] == id);
                    }
                    assert(next[runs.len() as int] == batch[0].0);
                }
            }
        }
        assert forall|k: int| 0 <= k < batch.drop_first().len() implies batch.drop_first()[k]
            == batch[k + 1] by {}
        if exists|k: int| 0 <= k < batch.len() && (#[trigger] batch[k]).0 == id {
            let k = choose|k: int| 0 <= k < batch.len() && (#[trigger] batch[k]).0 == id;
            if k > 0 {
                assert(batch.drop_first()[k - 1].0 == id);
            }
        }
        if exists|k: int|
            0 <= k < batch.drop_first().len() && (#[trigger] batch.drop_first()[k]).0 == id {
            let k = choose|k: int|
                0 <= k < batch.drop_first().len() && (#[trigger] batch.drop_first()[k]).0 == id;
            assert(batch[k + 1].0 == id);
        }
    }
}

/// Run deduplication: once a run's identifier has gone through a cycle, no
/// later listing selects it again, so its fetch/extract/parse path runs at
/// most once across consecutive cycles.
pub proof fn lemma_run_dedup(
    runs: Seq<u64>,
    batch: Seq<(u64, Seq<u8>)>,
    listed: Seq<u64>,
    k: int,
)
    requires
        0 <= k < batch.len(),
    ensures
        !spec_new_runs(listed, spec_add_runs(runs, batch)).contains(batch[k].0),
{
    lemma_add_runs_contains(runs, batch, batch[k].0);
    lemma_new_runs_membership(listed, spec_add_runs(runs, batch), batch[k].0);
}

/// Malformed payload isolation: of two archives in one batch, one yielding
/// a valid record and one rejected, exactly the valid one is merged.
pub proof fn lemma_malformed_isolation(recs: Seq<RecordView>, v: RecordView)
    ensures
        spec_merge_outcomes(recs, seq![Some(v), None]) == spec_insert(recs, v),
{
    let items = seq![Some(v), None::<RecordView>];
    let s1 = spec_insert(recs, v);
    assert(items[0] == Some(v));
    assert(items.drop_first() =~= seq![None::<RecordView>]);
    assert(items.drop_first().drop_first() =~= Seq::<Option<RecordView>>::empty());
    assert(spec_merge_outcomes(recs, items) == spec_merge_outcomes(s1, items.drop_first()));
    assert(spec_merge_outcomes(s1, items.drop_first()) == spec_merge_outcomes(
        s1,
        items.drop_first().drop_first(),
    ));
    assert(spec_merge_outcomes(s1, Seq::<Option<RecordView>>::empty()) == s1);
}

/// Two records with one key find the same first merge position.
proof fn lemma_key_index_same(s: Seq<RecordView>, v1: RecordView, v2: RecordView)
    requires
        v1.same_key(v2),
    ensures
        key_index(s, v1) == key_index(s, v2),
    decreases s.len(),
{
    if s.len() > 0 && !s[0].same_key(v1) {
        lemma_key_index_same(s.drop_first(), v1, v2);
    }
}

/// Last write wins: merging two records with the same `(name, date)` key
/// in one cycle leaves exactly the later one in the record set.
pub proof fn lemma_last_write_wins(recs: Seq<RecordView>, v1: RecordView, v2: RecordView)
    requires
        v1.same_key(v2),
    ensures
        spec_merge_outcomes(recs, seq![Some(v1), Some(v2)]) == spec_insert(recs, v2),
{
    let items = seq![Some(v1), Some(v2)];
    let s1 = spec_insert(recs, v1);
    let s2 = spec_insert(s1, v2);
    assert(items[0] == Some(v1));
    assert(items.drop_first() =~= seq![Some(v2)]);
    assert(items.drop_first()[0] == Some(v2));
    assert(items.drop_first().drop_first() =~= Seq::<Option<RecordView>>::empty());
    assert(spec_merge_outcomes(recs, items) == spec_merge_outcomes(s1, items.drop_first()));
    assert(spec_merge_outcomes(s1, items.drop_first()) == spec_merge_outcomes(
        s2,
        items.drop_first().drop_first(),
    ));
    assert(spec_merge_outcomes(s2, Seq::<Option<RecordView>>::empty()) == s2);
    lemma_key_index_first(recs, v1);
    lemma_key_index_first(recs, v2);
    lemma_key_index_same(recs, v1, v2);
    let ki = key_index(recs, v1);
    if ki >= 0 {
        assert(key_index(s1, v2) == ki) by {
            lemma_key_index_first(s1, v2);
            assert(s1[ki].same_key(v2));
            let ki2 = key_index(s1, v2);
            if ki2 < 0 {
                assert(s1[ki].same_key(v2));
            } else if ki2 < ki {
                assert(s1[ki2] == recs[ki2]);
                assert(!recs[ki2].same_key(v2));
            }
        }
        assert(spec_insert(s1, v2) =~= recs.update(ki, v2));
    } else {
        assert(key_index(s1, v2) == recs.len()) by {
            lemma_key_index_first(s1, v2);
            assert(s1[recs.len() as int].same_key(v2));
            let ki2 = key_index(s1, v2);
            if ki2 < 0 {
                assert(s1[recs.len() as int].same_key(v2));
            } else if ki2 < recs.len() {
                assert(s1[ki2] == recs[ki2]);
                assert(!recs[ki2].same_key(v2));
            }
        }
        assert(spec_insert(s1, v2) =~= recs.push(v2));
    }
}

/// Idempotent rehydration, generalized over an already-merged prefix:
/// feeding the encodings of well-formed records with pairwise distinct
/// keys into rehydration appends exactly those records.
proof fn lemma_rehydrate_encodes(acc: Seq<RecordView>, vs: Seq<RecordView>)
    requires
        forall|i: int| 0 <= i < vs.len() ==> (#[trigger] vs[i]).wf(),
        unique_keys(acc + vs),
    ensures
        spec_rehydrate_from(acc, vs.map_values(|v: RecordView| spec_encode(v))) == acc + vs,
    decreases vs.len(),
{
    let files = vs.map_values(|v: RecordView| spec_encode(v));
    if vs.len() == 0 {
        assert(acc + vs =~= acc);
    } else {
        let v0 = vs[0];
        lemma_parse_encode(v0);
        assert(files[0] == spec_encode(v0));
        lemma_key_index_first(acc, v0);
        assert(key_index(acc, v0) < 0) by {
            let ki = key_index(acc, v0);
            if ki >= 0 {
                assert((acc + vs)[ki].same_key((acc + vs)[acc.len() as int]));
            }
        }
        let acc2 = acc.push(v0);
        assert(spec_insert(acc, v0) == acc2);
        assert(acc2 + vs.drop_first() =~= acc + vs);
        assert(files.drop_first() =~= vs.drop_first().map_values(
            |v: RecordView| spec_encode(v),
        ));
        assert forall|i: int| 0 <= i < vs.drop_first().len() implies (#[trigger] vs.drop_first()[i]).wf() by {
            assert(vs.drop_first()[i] == vs[i + 1]);
        }
        lemma_rehydrate_encodes(acc2, vs.drop_first());
    }
}

/// Idempotent rehydration: a cache constructed over the persisted
/// encodings of N well-formed records with pairwise distinct keys holds
/// exactly those N records, before any network call is made.
pub proof fn lemma_rehydration_idempotent(vs: Seq<RecordView>)
    requires
        forall|i: int| 0 <= i < vs.len() ==> (#[trigger] vs[i]).wf(),
        unique_keys(vs),
    ensures
        spec_rehydrate_from(Seq::empty(), vs.map_values(|v: RecordView| spec_encode(v))) == vs,
{
    assert(unique_keys(Seq::<RecordView>::empty() + vs)) by {
        assert(Seq::<RecordView>::empty() + vs =~= vs);
    }
    lemma_rehydrate_encodes(Seq::empty(), vs);
    assert(Seq::<RecordView>::empty() + vs =~= vs);
}

/// Merging one record never loses a key already present.
proof fn lemma_insert_keeps_keys(s: Seq<RecordView>, v: RecordView, i: int)
    requires
        0 <= i < s.len(),
    ensures
        exists|j: int| 0 <= j < spec_insert(s, v).len() && (#[trigger] spec_insert(s, v)[j]).same_key(s[i]),
{
    lemma_key_index_first(s, v);
    let ki = key_index(s, v);
    if ki >= 0 && ki == i {
        assert(spec_insert(s, v)[i].same_key(s[i]));
    } else {
        assert(spec_insert(s, v)[i] == s[i]);
        assert(spec_insert(s, v)[i].same_key(s[i]));
    }
}

/// Snapshot keys are monotone: every `(name, date)` key a snapshot holds
/// is still held after any later update cycle — a cycle may overwrite a
/// key with a newer record, never drop it.
pub proof fn lemma_cycle_keeps_keys(recs: Seq<RecordView>, batch: Seq<(u64, Seq<u8>)>, i: int)
    requires
        0 <= i < recs.len(),
    ensures
        exists|j: int|
            0 <= j < spec_cycle_records(recs, batch).len() && (#[trigger] spec_cycle_records(
                recs,
                batch,
            )[j]).same_key(recs[i]),
    decreases batch.len(),
{
    if batch.len() == 0 {
        assert(spec_cycle_records(recs, batch)[i].same_key(recs[i]));
    } else {
        let next = match spec_outcome(batch[0].1) {
            Some(v) => spec_insert(recs, v),
            None => recs,
        };
        let j1: int = match spec_outcome(batch[0].1) {
            Some(v) => {
                lemma_insert_keeps_keys(recs, v, i);
                choose|j: int| 0 <= j < next.len() && (#[trigger] next[j]).same_key(recs[i])
            },
            None => {
                assert(next[i].same_key(recs[i]));
                i
            },
        };
        lemma_cycle_keeps_keys(next, batch.drop_first(), j1);
        let fin = spec_cycle_records(next, batch.drop_first());
        let j2 = choose|j: int| 0 <= j < fin.len() && (#[trigger] fin[j]).same_key(next[j1]);
        assert(fin[j2].same_key(recs[i]));
        assert(spec_cycle_records(recs, batch) == fin);
    }
}

/// Pinned mode: a pinned cache is never stale, whatever the clock says, so
/// no read of it ever triggers an update cycle.
pub proof fn lemma_pinned_never_stale(v: CacheView, now_secs: u64)
    requires
        v.pinned,
    ensures
        !spec_stale(v, now_secs),
{
}

} // verus!
