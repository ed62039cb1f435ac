//! The cache core: invalidation, run deduplication and the update cycle.
//!
//! The cache accumulates validated records keyed by `(name, date)` and
//! tracks which upstream runs were already handled. Network work belongs to
//! the embedding program; the verified state machine here decides when the
//! cache is stale, which listed runs are new, what a batch of downloaded
//! archives does to the record set, and which files persist the outcome.
//!
//! An update cycle behaves as one transaction: the upstream listing and
//! downloads happen first (`is_invalidated`, `fetch::new_runs`, then the
//! embedding program's network calls); only after every download has
//! succeeded is `apply_cycle` called, so a failed upstream call leaves
//! `records` and `processed` untouched. A run is marked processed at the
//! same point its outcome — a merged record or a rejected payload — is
//! final, even when the payload is rejected, so a permanently broken
//! artifact is never retried.

use vstd::prelude::*;

use crate::archive::{zip_payload, Archive};
use crate::codec::{spec_encode, spec_file_name, spec_parse_record};
use crate::fetch::runs_contain;
use crate::record::{RecordView, TestsuiteResult};

verus! {

/// Default time-to-live of a successful refresh: 24 hours.
pub const DEFAULT_TTL_SECS: u64 = 86400;

/// The mathematical image of the cache state.
#[verifier::ext_equal]
pub ghost struct CacheView {
    /// Accumulated records, unique by `(name, date)` key, in merge order.
    pub records: Seq<RecordView>,
    /// Identifiers of the runs already handled, without duplicates.
    pub processed: Seq<u64>,
    /// Completion time of the last successful update cycle, as seconds
    /// since the epoch; zero when no cycle has completed.
    pub last_refresh: u64,
    /// Seconds a successful refresh stays fresh.
    pub ttl_secs: u64,
    /// A pinned cache serves only what it was constructed with and never
    /// becomes stale.
    pub pinned: bool,
}

/// Cache for CI runs.
pub struct Cache {
    records: Vec<TestsuiteResult>,
    processed: Vec<u64>,
    last_refresh: u64,
    ttl_secs: u64,
    pinned: bool,
}

/// The record views of a sequence of records.
pub open spec fn views_of(s: Seq<TestsuiteResult>) -> Seq<RecordView> {
    s.map_values(|t: TestsuiteResult| t@)
}

/// The `(id, bytes)` views of a downloaded batch.
pub open spec fn batch_views(s: Seq<(u64, Archive)>) -> Seq<(u64, Seq<u8>)> {
    s.map_values(|p: (u64, Archive)| (p.0, p.1@))
}

/// No two records share a `(name, date)` key.
pub open spec fn unique_keys(s: Seq<RecordView>) -> bool {
    forall|i: int, j: int| 0 <= i < j < s.len() ==> !(#[trigger] s[i]).same_key(#[trigger] s[j])
}

/// No run identifier occurs twice.
pub open spec fn unique_runs(s: Seq<u64>) -> bool {
    forall|i: int, j: int| 0 <= i < j < s.len() ==> #[trigger] s[i] != #[trigger] s[j]
}

impl View for Cache {
    type V = CacheView;

    closed spec fn view(&self) -> CacheView {
        CacheView {
            records: views_of(self.records@),
            processed: self.processed@,
            last_refresh: self.last_refresh,
            ttl_secs: self.ttl_secs,
            pinned: self.pinned,
        }
    }
}

/// The cache is stale when it is not pinned and the last successful
/// refresh lies more than one time-to-live in the past.
pub open spec fn spec_stale(v: CacheView, now_secs: u64) -> bool {
    !v.pinned && now_secs > v.last_refresh + v.ttl_secs
}

/// Index of the first record sharing `v`'s key, or -1 if there is none.
pub open spec fn key_index(s: Seq<RecordView>, v: RecordView) -> int
    decreases s.len(),
{
    if s.len() == 0 {
        -1
    } else if s[0].same_key(v) {
        0
    } else {
        let r = key_index(s.drop_first(), v);
        if r < 0 {
            -1
        } else {
            r + 1
        }
    }
}

/// Merge one record: replace the record sharing its key, or append it.
pub open spec fn spec_insert(s: Seq<RecordView>, v: RecordView) -> Seq<RecordView> {
    if key_index(s, v) >= 0 {
        s.update(key_index(s, v), v)
    } else {
        s.push(v)
    }
}

/// What one downloaded archive yields: a record view, or nothing when the
/// archive cannot be read or its payload is not a valid record.
pub open spec fn spec_outcome(bytes: Seq<u8>) -> Option<RecordView> {
    match zip_payload(bytes) {
        Some(payload) => spec_parse_record(payload),
        None => None,
    }
}

/// The record set after an update cycle merges a batch, in batch order.
pub open spec fn spec_cycle_records(recs: Seq<RecordView>, batch: Seq<(u64, Seq<u8>)>) -> Seq<
    RecordView,
>
    decreases batch.len(),
{
    if batch.len() == 0 {
        recs
    } else {
        let next = match spec_outcome(batch[0].1) {
            Some(v) => spec_insert(recs, v),
            None => recs,
        };
        spec_cycle_records(next, batch.drop_first())
    }
}

/// The processed-run set after an update cycle: every batch identifier is
/// added exactly once, whether or not its payload yielded a record.
pub open spec fn spec_add_runs(runs: Seq<u64>, batch: Seq<(u64, Seq<u8>)>) -> Seq<u64>
    decreases batch.len(),
{
    if batch.len() == 0 {
        runs
    } else {
        let next = if runs.contains(batch[0].0) {
            runs
        } else {
            runs.push(batch[0].0)
        };
        spec_add_runs(next, batch.drop_first())
    }
}

/// The files an update cycle persists: one per merged record, in batch
/// order, named from the record's key.
pub open spec fn spec_writes(batch: Seq<(u64, Seq<u8>)>) -> Seq<(Seq<char>, Seq<u8>)>
    decreases batch.len(),
{
    if batch.len() == 0 {
        Seq::empty()
    } else {
        let rest = spec_writes(batch.drop_first());
        match spec_outcome(batch[0].1) {
            Some(v) => seq![(spec_file_name(v), spec_encode(v))] + rest,
            None => rest,
        }
    }
}

/// The record set seeded from a persistence directory: each file parsed
/// independently and merged in directory order; unreadable files skipped.
pub open spec fn spec_rehydrate_from(acc: Seq<RecordView>, files: Seq<Seq<u8>>) -> Seq<RecordView>
    decreases files.len(),
{
    if files.len() == 0 {
        acc
    } else {
        let next = match spec_parse_record(files[0]) {
            Some(v) => spec_insert(acc, v),
            None => acc,
        };
        spec_rehydrate_from(next, files.drop_first())
    }
}

/// The byte views of a list of file contents.
pub open spec fn file_views(files: Seq<Vec<u8>>) -> Seq<Seq<u8>> {
    files.map_values(|f: Vec<u8>| f@)
}

/// `key_index` finds exactly the first record sharing the key.
pub proof fn lemma_key_index_first(s: Seq<RecordView>, v: RecordView)
    ensures
        key_index(s, v) == -1 ==> forall|i: int| 0 <= i < s.len() ==> !(#[trigger] s[i]).same_key(
            v,
        ),
        key_index(s, v) >= 0 ==> 0 <= key_index(s, v) < s.len() && s[key_index(s, v)].same_key(v)
            && forall|i: int| 0 <= i < key_index(s, v) ==> !(#[trigger] s[i]).same_key(v),
    decreases s.len(),
{
    if s.len() > 0 && !s[0].same_key(v) {
        lemma_key_index_first(s.drop_first(), v);
        let r = key_index(s.drop_first(), v);
        assert forall|i: int| 1 <= i < s.len() implies s.drop_first()[i - 1] == s[i] by {}
        if r < 0 {
            assert forall|i: int| 0 <= i < s.len() implies !(#[trigger] s[i]).same_key(v) by {
                if i >= 1 {
                    assert(!s.drop_first()[i - 1].same_key(v));
                }
            }
        }
    }
}

/// Merging preserves key uniqueness.
pub proof fn lemma_insert_unique(s: Seq<RecordView>, v: RecordView)
    requires
        unique_keys(s),
    ensures
        unique_keys(spec_insert(s, v)),
{
    lemma_key_index_first(s, v);
    let ki = key_index(s, v);
    let s2 = spec_insert(s, v);
    if ki >= 0 {
        assert forall|i: int, j: int| 0 <= i < j < s2.len() implies !(#[trigger] s2[i]).same_key(
            #[trigger] s2[j],
        ) by {
            if i == ki {
                assert(!s[i].same_key(s[j]));
            } else if j == ki {
                assert(!s[i].same_key(s[j]));
            }
        }
    } else {
        assert forall|i: int, j: int| 0 <= i < j < s2.len() implies !(#[trigger] s2[i]).same_key(
            #[trigger] s2[j],
        ) by {
            if j == s.len() {
                assert(!s[i].same_key(v));
            }
        }
    }
}

/// Merge one record into the accumulated set, last write winning.
fn insert_into(records: &mut Vec<TestsuiteResult>, rec: TestsuiteResult)
    requires
        unique_keys(views_of(old(records)@)),
    ensures
        views_of(final(records)@) == spec_insert(views_of(old(records)@), rec@),
        unique_keys(views_of(final(records)@)),
{
    let ghost s = views_of(records@);
    let mut i: usize = 0;
    while i < records.len()
        invariant
            0 <= i <= records@.len(),
            records@ == old(records)@,
            s == views_of(records@),
            unique_keys(s),
            forall|k: int| 0 <= k < i ==> !(#[trigger] s[k]).same_key(rec@),
        decreases records@.len() - i,
    {
        if records[i].has_same_key(&rec) {
            proof {
                lemma_key_index_first(s, rec@);
                assert(s[i as int] == records@[i as int]@);
                assert(s[i as int].same_key(rec@));
                assert(key_index(s, rec@) == i);
                lemma_insert_unique(s, rec@);
            }
            records.remove(i);
            records.insert(i, rec);
            proof {
                assert(views_of(records@) =~= spec_insert(s, rec@));
            }
            return ;
        }
        i += 1;
    }
    proof {
        lemma_key_index_first(s, rec@);
        lemma_insert_unique(s, rec@);
        assert(key_index(s, rec@) < 0) by {
            if key_index(s, rec@) >= 0 {
                assert(s[key_index(s, rec@)].same_key(rec@));
            }
        }
    }
    records.push(rec);
    proof {
        assert(views_of(records@) =~= spec_insert(s, rec@));
    }
}

impl Cache {
    /// The cache's structural invariant: unique record keys, unique runs.
    pub open spec fn wf(&self) -> bool {
        unique_keys(self@.records) && unique_runs(self@.processed)
    }

    /// Build a cache, seeding the record set from the given file contents.
    ///
    /// Each file is parsed independently; one that is not a canonical
    /// record encoding is skipped, so a corrupted on-disk file cannot
    /// prevent startup. No run is considered processed yet, and
    /// `last_refresh` starts at the epoch, so the very first read of an
    /// unpinned cache triggers a fetch.
    pub fn new(ttl_secs: Option<u64>, pinned: bool, files: &Vec<Vec<u8>>) -> (r: Cache)
        ensures
            r.wf(),
            r@.records == spec_rehydrate_from(Seq::empty(), file_views(files@)),
            r@.processed == Seq::<u64>::empty(),
            r@.last_refresh == 0,
            r@.ttl_secs == (match ttl_secs {
                Some(t) => t,
                None => DEFAULT_TTL_SECS,
            }),
            r@.pinned == pinned,
    {
        let mut records: Vec<TestsuiteResult> = Vec::new();
        let ghost fv = file_views(files@);
        let mut i: usize = 0;
        proof {
            assert(views_of(records@) =~= Seq::<RecordView>::empty());
            assert(fv.skip(0) =~= fv);
        }
        while i < files.len()
            invariant
                0 <= i <= files@.len(),
                fv == file_views(files@),
                unique_keys(views_of(records@)),
                spec_rehydrate_from(Seq::empty(), fv) == spec_rehydrate_from(
                    views_of(records@),
                    fv.skip(i as int),
                ),
            decreases files@.len() - i,
        {
            proof {
                assert(fv.skip(i as int)[0] == fv[i as int]);
                assert(fv.skip(i as int).drop_first() =~= fv.skip(i as int + 1));
            }
            match TestsuiteResult::from_bytes(files[i].as_slice()) {
                Ok(rec) => {
                    insert_into(&mut records, rec);
                },
                Err(_) => {},
            }
            i += 1;
        }
        proof {
            assert(fv.skip(files@.len() as int) =~= Seq::<Seq<u8>>::empty());
        }
        let ttl = match ttl_secs {
            Some(t) => t,
            None => DEFAULT_TTL_SECS,
        };
        Cache { records, processed: Vec::new(), last_refresh: 0, ttl_secs: ttl, pinned }
    }

    /// Whether the cached data is stale and an update cycle is due.
    ///
    /// A pinned cache is never stale. Otherwise the cache is stale exactly
    /// when more than one time-to-live has elapsed since the last
    /// successful refresh; a clock that reads earlier than the last
    /// refresh counts as fresh.
    pub fn is_invalidated(&self, now_secs: u64) -> (r: bool)
        ensures
            r == spec_stale(self@, now_secs),
    {
        if self.pinned {
            false
        } else if now_secs <= self.last_refresh {
            false
        } else {
            now_secs - self.last_refresh > self.ttl_secs
        }
    }

    /// A copy of the accumulated record set.
    ///
    /// The copy leaves the cache untouched and is unaffected by later
    /// updates.
    pub fn data(&self) -> (r: Vec<TestsuiteResult>)
        ensures
            views_of(r@) == self@.records,
            r@.len() == self@.records.len(),
    {
        let mut out: Vec<TestsuiteResult> = Vec::new();
        let mut i: usize = 0;
        proof {
            assert(views_of(out@) =~= self@.records.take(0));
        }
        while i < self.records.len()
            invariant
                0 <= i <= self.records@.len(),
                views_of(self.records@) == self@.records,
                views_of(out@) == self@.records.take(i as int),
            decreases self.records@.len() - i,
        {
            let ghost prev = out@;
            out.push(self.records[i].duplicate());
            proof {
                assert(out@ =~= prev.push(self.records@[i as int]));
                assert(views_of(out@) =~= views_of(prev).push(self.records@[i as int]@));
                assert(views_of(out@) =~= self@.records.take(i + 1 as int));
            }
            i += 1;
        }
        proof {
            assert(self@.records.take(self.records@.len() as int) =~= self@.records);
        }
        out
    }

    /// A copy of the identifiers of the runs already handled.
    pub fn processed_runs(&self) -> (r: Vec<u64>)
        ensures
            r@ == self@.processed,
    {
        let mut out: Vec<u64> = Vec::new();
        let mut i: usize = 0;
        proof {
            assert(out@ =~= self@.processed.take(0));
        }
        while i < self.processed.len()
            invariant
                0 <= i <= self.processed@.len(),
                self.processed@ == self@.processed,
                out@ == self@.processed.take(i as int),
            decreases self.processed@.len() - i,
        {
            out.push(self.processed[i]);
            proof {
                assert(out@ =~= self@.processed.take(i + 1 as int));
            }
            i += 1;
        }
        proof {
            assert(self@.processed.take(self.processed@.len() as int) =~= self@.processed);
        }
        out
    }

    /// The listed runs that have not been processed yet, in listing order.
    pub fn new_runs(&self, listed: &Vec<u64>) -> (r: Vec<u64>)
        ensures
            r@ == crate::fetch::spec_new_runs(listed@, self@.processed),
            forall|k: int| 0 <= k < r@.len() ==> !self@.processed.contains(#[trigger] r@[k]),
    {
        crate::fetch::new_runs(listed, &self.processed)
    }

    /// Apply one downloaded batch as a completed update cycle.
    ///
    /// Each archive's outcome is merged in batch order (last write wins on
    /// a repeated key), every batch run is marked processed whether or not
    /// its payload was usable, and the refresh clock advances to
    /// `now_secs`. The embedding program calls this only after every
    /// network call of the cycle has succeeded; a failed listing or
    /// download never reaches the cache state.
    pub fn apply_cycle(&mut self, now_secs: u64, batch: &Vec<(u64, Archive)>)
        requires
            old(self).wf(),
        ensures
            final(self).wf(),
            final(self)@.records == spec_cycle_records(old(self)@.records, batch_views(batch@)),
            final(self)@.processed == spec_add_runs(old(self)@.processed, batch_views(batch@)),
            final(self)@.last_refresh == now_secs,
            final(self)@.ttl_secs == old(self)@.ttl_secs,
            final(self)@.pinned == old(self)@.pinned,
    {
        let ghost bv = batch_views(batch@);
        let ghost recs0 = self@.records;
        let ghost runs0 = self@.processed;
        let mut i: usize = 0;
        proof {
            assert(bv.skip(0) =~= bv);
        }
        while i < batch.len()
            invariant
                0 <= i <= batch@.len(),
                bv == batch_views(batch@),
                unique_keys(views_of(self.records@)),
                unique_runs(self.processed@),
                spec_cycle_records(recs0, bv) == spec_cycle_records(
                    views_of(self.records@),
                    bv.skip(i as int),
                ),
                spec_add_runs(runs0, bv) == spec_add_runs(self.processed@, bv.skip(i as int)),
                self.last_refresh == old(self)@.last_refresh,
                self.ttl_secs == old(self)@.ttl_secs,
                self.pinned == old(self)@.pinned,
            decreases batch@.len() - i,
        {
            proof {
                assert(bv.skip(i as int)[0] == bv[i as int]);
                assert(bv.skip(i as int).drop_first() =~= bv.skip(i as int + 1));
            }
            let id = batch[i].0;
            match crate::archive::extract_json(&batch[i].1) {
                Ok(payload) => {
                    match TestsuiteResult::from_bytes(payload.as_slice()) {
                        Ok(rec) => {
                            insert_into(&mut self.records, rec);
                        },
                        Err(_) => {},
                    }
                },
                Err(_) => {},
            }
            if !runs_contain(&self.processed, id) {
                self.processed.push(id);
            }
            i += 1;
        }
        proof {
            assert(bv.skip(batch@.len() as int) =~= Seq::<(u64, Seq<u8>)>::empty());
        }
        self.last_refresh = now_secs;
    }
}

/// The files a batch asks the disk store to write, in batch order: one
/// `(file name, contents)` pair per archive whose payload is a valid
/// record.
///
/// The embedding program writes these before calling `apply_cycle`, so
/// that a disk failure aborts the cycle without touching cache state.
pub fn plan_writes(batch: &Vec<(u64, Archive)>) -> (r: Vec<(String, Vec<u8>)>)
    ensures
        r@.map_values(|w: (String, Vec<u8>)| (w.0@, w.1@)) == spec_writes(batch_views(batch@)),
{
    let ghost bv = batch_views(batch@);
    let ghost wv = |w: (String, Vec<u8>)| (w.0@, w.1@);
    let mut out: Vec<(String, Vec<u8>)> = Vec::new();
    let mut i: usize = 0;
    proof {
        assert(bv.skip(0) =~= bv);
        assert(out@.map_values(wv) + spec_writes(bv) =~= spec_writes(bv));
    }
    while i < batch.len()
        invariant
            0 <= i <= batch@.len(),
            bv == batch_views(batch@),
            spec_writes(bv) == out@.map_values(wv) + spec_writes(bv.skip(i as int)),
            wv == (|w: (String, Vec<u8>)| (w.0@, w.1@)),
        decreases batch@.len() - i,
    {
        proof {
            assert(bv.skip(i as int)[0] == bv[i as int]);
            assert(bv.skip(i as int).drop_first() =~= bv.skip(i as int + 1));
        }
        match crate::archive::extract_json(&batch[i].1) {
            Ok(payload) => {
                match TestsuiteResult::from_bytes(payload.as_slice()) {
                    Ok(rec) => {
                        let ghost prev = out@;
                        let name = rec.file_name();
                        let contents = rec.to_bytes();
                        out.push((name, contents));
                        proof {
                            assert(out@.map_values(wv) =~= prev.map_values(wv) + seq![
                                (spec_file_name(rec@), spec_encode(rec@)),
                            ]);
                            vstd::seq_lib::lemma_concat_associative(
                                prev.map_values(wv),
                                seq![(spec_file_name(rec@), spec_encode(rec@))],
                                spec_writes(bv.skip(i as int + 1)),
                            );
                        }
                    },
                    Err(_) => {},
                }
            },
            Err(_) => {},
        }
        i += 1;
    }
    proof {
        assert(bv.skip(batch@.len() as int) =~= Seq::<(u64, Seq<u8>)>::empty());
        assert(out@.map_values(wv) + Seq::<(Seq<char>, Seq<u8>)>::empty() =~= out@.map_values(wv));
    }
    out
}

} // verus!
