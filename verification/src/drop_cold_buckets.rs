//! Time-based retention: dropping the cold leaves whose newest event is older than a cutoff.

use std::sync::Arc;

use vstd::prelude::*;

use crate::action::TransactionAction;
use crate::cold_move::paths_of;
use crate::cold_paths::leaf_paths;
use crate::commit::{
    bucket_index_path, bucket_index_path_of, describe_root, describes, needs_v4_message, no_rows,
    replace_commit, replaces, require_v4, root_and_index, root_path, root_path_of, RootCommit,
};
use crate::compact_cold_tier::{BucketIndexWrite, CommitStart};
use crate::error::{Error, ErrorKind};
use crate::manifest::{
    alive_max_ts, alive_times, file_max_ts_spec, live_time, FormatVersion, ManifestEntry, ManifestFile,
    RootManifestEntry, RootManifestMetadata,
};
use crate::max_ts::{
    known, known_time, law_stored_times_are_file_times, read_back, says_file_times, times_to_store,
    MaxTsMap,
};
use crate::outside::{fresh_id, is_time_ordered, now_millis};
use crate::path_set::Properties;
use crate::seqs::stands_at;
use crate::table::{copy_text, copy_texts, text_view, RowRange, TableMetadata};
use crate::text::{decimal, decimal_of, join, joined, signed_decimal, signed_decimal_of, texts};

verus! {

/// Whether a leaf is kept: its newest event is not older than the cutoff, or its time is unknown.
pub open spec fn keeps(max_ts: Option<i64>, cutoff_micros: i64) -> bool {
    max_ts is None || max_ts->0 >= cutoff_micros
}

/// Whether a leaf is kept. To drop one whose time is unknown could not be undone, so it is kept.
pub fn keep_leaf(max_ts: Option<i64>, cutoff_micros: i64) -> (r: bool)
    ensures
        r == keeps(max_ts, cutoff_micros),
{
    match max_ts {
        Some(t) => t >= cutoff_micros,
        None => true,
    }
}

/// Retention by the timestamp field `ts_field_id`.
pub struct DropColdBucketsAction {
    pub ts_field_id: i32,
    pub cutoff_micros: i64,
    pub commit_id: u128,
}

impl TransactionAction for DropColdBucketsAction {
    fn action_name(&self) -> (r: &'static str)
        ensures
            r@ == "drop_cold_buckets"@,
    {
        "drop_cold_buckets"
    }
}

/// The leaves whose times say that they are kept, or those whose times say that they are not.
pub open spec fn leaves_kept(
    leaves: Seq<ManifestFile>,
    times: Seq<Option<i64>>,
    cutoff_micros: i64,
    kept: bool,
) -> Seq<ManifestFile>
    decreases leaves.len(),
{
    if leaves.len() == 0 {
        Seq::empty()
    } else {
        let rest = leaves_kept(leaves.drop_last(), times.drop_last(), cutoff_micros, kept);
        if keeps(times.last(), cutoff_micros) == kept {
            rest.push(leaves.last())
        } else {
            rest
        }
    }
}

/// Cold leaves by what becomes of them.
pub struct Retention {
    pub kept: Vec<ManifestFile>,
    pub dropped: Vec<ManifestFile>,
}

/// The time of a leaf: the stored one, or else that of its files, `load` giving its entries. A leaf
/// with a live file of unknown time has none.
pub open spec fn leaf_time(
    leaf: ManifestFile,
    ts_field_id: i32,
    stored: Map<Seq<char>, Option<i64>>,
    load: spec_fn(ManifestFile) -> Seq<ManifestEntry>,
) -> Option<i64> {
    match known(stored, leaf.manifest_path@) {
        Some(t) => Some(t),
        None => live_time(load(leaf), ts_field_id),
    }
}

/// The times of `leaves`, one by one.
pub open spec fn leaf_times(
    leaves: Seq<ManifestFile>,
    ts_field_id: i32,
    stored: Map<Seq<char>, Option<i64>>,
    load: spec_fn(ManifestFile) -> Seq<ManifestEntry>,
) -> Seq<Option<i64>> {
    leaves.map_values(|l: ManifestFile| leaf_time(l, ts_field_id, stored, load))
}

/// Cold leaves whose times are looked up, and read where they are not stored.
pub struct RetentionScan {
    leaves: Vec<ManifestFile>,
    times: Vec<Option<i64>>,
    next: usize,
}

impl RetentionScan {
    /// The leaves.
    pub closed spec fn leaves(&self) -> Seq<ManifestFile> {
        self.leaves@
    }

    /// How many leaves have their times.
    pub closed spec fn seen(&self) -> nat {
        self.next as nat
    }

    /// Whether there is room for the time of each leaf.
    pub closed spec fn wf(&self) -> bool {
        self.times@.len() == self.leaves@.len() && self.next <= self.leaves@.len()
    }

    /// What the times of the leaves come to.
    pub closed spec fn outcome(
        &self,
        ts_field_id: i32,
        load: spec_fn(ManifestFile) -> Seq<ManifestEntry>,
    ) -> Seq<Option<i64>> {
        Seq::new(
            self.leaves@.len(),
            |i: int|
                if i < self.next || self.times@[i] is Some {
                    self.times@[i]
                } else {
                    live_time(load(self.leaves@[i]), ts_field_id)
                },
        )
    }

    /// Passes the leaves whose times are stored, up to one that has to be read.
    pub fn advance(&mut self) -> (more: bool)
        requires
            old(self).wf(),
        ensures
            final(self).wf(),
            final(self).leaves() == old(self).leaves(),
            more == (final(self).seen() < final(self).leaves().len()),
            forall|ts_field_id: i32, load: spec_fn(ManifestFile) -> Seq<ManifestEntry>| #[trigger]
                final(self).outcome(ts_field_id, load) == old(self).outcome(ts_field_id, load),
    {
        let ghost start = *self;
        while self.next < self.leaves.len() && self.times[self.next].is_some()
            invariant
                self.wf(),
                self.leaves@ == start.leaves@,
                self.times@ == start.times@,
                start.next <= self.next,
                forall|i: int|
                    start.next <= i < self.next ==> (#[trigger] self.times@[i]) is Some,
            decreases self.leaves@.len() - self.next,
        {
            self.next = self.next + 1;
        }
        assert forall|ts_field_id: i32, load: spec_fn(ManifestFile) -> Seq<ManifestEntry>| #[trigger]
            self.outcome(ts_field_id, load) == start.outcome(ts_field_id, load) by {
            assert(self.outcome(ts_field_id, load) =~= start.outcome(ts_field_id, load));
        }
        self.next < self.leaves.len()
    }

    /// The leaf whose entries are asked for.
    pub fn next_leaf(&self) -> (r: Option<&ManifestFile>)
        requires
            self.wf(),
        ensures
            match r {
                Some(leaf) => self.seen() < self.leaves().len() && *leaf
                    == self.leaves()[self.seen() as int],
                None => self.seen() == self.leaves().len(),
            },
    {
        if self.next < self.leaves.len() {
            Some(&self.leaves[self.next])
        } else {
            None
        }
    }

    /// Takes in the entries of the next leaf, whose time is not stored.
    pub fn add_leaf(&mut self, action: &DropColdBucketsAction, entries: &[ManifestEntry])
        requires
            old(self).wf(),
            old(self).seen() < old(self).leaves().len(),
        ensures
            final(self).wf(),
            final(self).leaves() == old(self).leaves(),
            final(self).seen() == old(self).seen() + 1,
            forall|load: spec_fn(ManifestFile) -> Seq<ManifestEntry>|
                load(old(self).leaves()[old(self).seen() as int]) == entries@
                    ==> #[trigger] final(self).outcome(action.ts_field_id, load) == old(
                    self,
                ).outcome(action.ts_field_id, load),
    {
        let ghost start = *self;
        if self.times[self.next].is_none() {
            let time = alive_max_ts(entries, action.ts_field_id);
            self.times.set(self.next, time);
        }
        if self.next < self.leaves.len() {
            self.next = self.next + 1;
        }
        assert forall|load: spec_fn(ManifestFile) -> Seq<ManifestEntry>|
            load(start.leaves()[start.seen() as int]) == entries@ implies #[trigger] self.outcome(
            action.ts_field_id,
            load,
        ) == start.outcome(action.ts_field_id, load) by {
            assert(self.outcome(action.ts_field_id, load) =~= start.outcome(
                action.ts_field_id,
                load,
            ));
        }
    }

    /// The leaves by what becomes of them, once each has its time.
    pub fn finish(self, action: &DropColdBucketsAction) -> (r: Retention)
        requires
            self.wf(),
            self.seen() == self.leaves().len(),
        ensures
            forall|ts_field_id: i32, load: spec_fn(ManifestFile) -> Seq<ManifestEntry>|
                r.kept@ == leaves_kept(
                    self.leaves(),
                    #[trigger] self.outcome(ts_field_id, load),
                    action.cutoff_micros,
                    true,
                ) && r.dropped@ == leaves_kept(
                    self.leaves(),
                    self.outcome(ts_field_id, load),
                    action.cutoff_micros,
                    false,
                ),
    {
        proof {
            assert forall|ts_field_id: i32, load: spec_fn(ManifestFile) -> Seq<ManifestEntry>|
                #[trigger] self.outcome(ts_field_id, load) == self.times@ by {
                assert(self.outcome(ts_field_id, load) =~= self.times@);
            }
        }
        action.split_leaves(self.leaves, self.times.as_slice())
    }
}

/// What retention commits: a bucket index of the leaves that are kept, where there are any, and
/// the root that names it.
pub struct RetentionCommit {
    pub index: Option<BucketIndexWrite>,
    pub root: RootCommit,
}

/// The summary of retention's snapshot.
pub open spec fn retention_summary(
    dropped: Seq<ManifestFile>,
    kept: nat,
    cutoff_micros: i64,
) -> Map<Seq<char>, Seq<char>> {
    Map::empty().insert("retention-leaves-dropped"@, decimal(dropped.len())).insert(
        "retention-leaves-kept"@,
        decimal(kept),
    ).insert("retention-cutoff-micros"@, signed_decimal(cutoff_micros as int)).insert(
        "retention-dropped-leaf-paths"@,
        joined(leaf_paths(dropped), ","@),
    )
}

impl DropColdBucketsAction {
    /// Retention by the field `ts_field_id`: leaves whose newest value of it is below
    /// `cutoff_micros` go.
    pub fn new(ts_field_id: i32, cutoff_micros: i64) -> (r: Self)
        ensures
            r.ts_field_id == ts_field_id,
            r.cutoff_micros == cutoff_micros,
            is_time_ordered(r.commit_id),
    {
        DropColdBucketsAction { ts_field_id, cutoff_micros, commit_id: fresh_id() }
    }

    /// Whether there is anything to do on `table`.
    pub fn start_commit(&self, table: &TableMetadata) -> (r: Result<CommitStart, Error>)
        ensures
            r is Err <==> table.effective_version() != FormatVersion::V4,
            r is Err ==> r->Err_0.says(
                ErrorKind::FeatureUnsupported,
                needs_v4_message("drop_cold_buckets"@, table.effective_version()),
            ),
            r is Ok ==> (r->Ok_0 == CommitStart::Nothing <==> table.current() is None),
    {
        if let Err(e) = require_v4(table, "drop_cold_buckets") {
            return Err(e);
        }
        if table.current_snapshot().is_none() {
            return Ok(CommitStart::Nothing);
        }
        Ok(CommitStart::Proceed)
    }

    /// Starts on the cold leaves `leaves`, `stored` being the times that are stored for them.
    pub fn scan(&self, leaves: Vec<ManifestFile>, stored: &MaxTsMap) -> (r: RetentionScan)
        ensures
            r.wf(),
            r.leaves() == leaves@,
            r.seen() == 0,
            forall|load: spec_fn(ManifestFile) -> Seq<ManifestEntry>| #[trigger]
                r.outcome(self.ts_field_id, load) == leaf_times(
                    leaves@,
                    self.ts_field_id,
                    stored@,
                    load,
                ),
    {
        let mut times: Vec<Option<i64>> = Vec::with_capacity(leaves.len());
        let mut i: usize = 0;
        while i < leaves.len()
            invariant
                i <= leaves@.len(),
                times@.len() == i,
                forall|k: int|
                    0 <= k < i ==> #[trigger] times@[k] == known(
                        stored@,
                        leaves@[k].manifest_path@,
                    ),
            decreases leaves@.len() - i,
        {
            times.push(known_time(stored, &leaves[i]));
            i = i + 1;
        }
        let r = RetentionScan { leaves, times, next: 0 };
        assert forall|load: spec_fn(ManifestFile) -> Seq<ManifestEntry>| #[trigger]
            r.outcome(self.ts_field_id, load) == leaf_times(
            leaves@,
            self.ts_field_id,
            stored@,
            load,
        ) by {
            assert(r.outcome(self.ts_field_id, load) =~= leaf_times(
                leaves@,
                self.ts_field_id,
                stored@,
                load,
            ));
        }
        r
    }

    /// Parts `leaves` by their times, one for each leaf, stored or read.
    pub fn split_leaves(&self, leaves: Vec<ManifestFile>, times: &[Option<i64>]) -> (r: Retention)
        requires
            times@.len() == leaves@.len(),
        ensures
            r.kept@ == leaves_kept(leaves@, times@, self.cutoff_micros, true),
            r.dropped@ == leaves_kept(leaves@, times@, self.cutoff_micros, false),
    {
        let ghost all = leaves@;
        let mut kept: Vec<ManifestFile> = Vec::new();
        let mut dropped: Vec<ManifestFile> = Vec::new();
        let mut i: usize = 0;
        for leaf in iter: leaves
            invariant
                iter.seq() == all,
                i == iter.index(),
                times@.len() == all.len(),
                kept@ == leaves_kept(
                    all.take(i as int),
                    times@.take(i as int),
                    self.cutoff_micros,
                    true,
                ),
                dropped@ == leaves_kept(
                    all.take(i as int),
                    times@.take(i as int),
                    self.cutoff_micros,
                    false,
                ),
        {
            proof {
                assert(all.take(i + 1).drop_last() =~= all.take(i as int));
                assert(times@.take(i + 1).drop_last() =~= times@.take(i as int));
                assert(all.take(i + 1).last() == leaf);
                assert(times@.take(i + 1).last() == times@[i as int]);
            }
            if keep_leaf(times[i], self.cutoff_micros) {
                kept.push(leaf);
            } else {
                dropped.push(leaf);
            }
            i = i + 1;
        }
        assert(all.take(all.len() as int) =~= all);
        assert(times@.take(all.len() as int) =~= times@);
        Retention { kept, dropped }
    }

    /// Whether `r` commits the retention of `kept` and the drop of `dropped`. The new root stands
    /// alone, lists the entries `entries` of the old one and carries its tombstones.
    pub open spec fn commits(
        &self,
        r: RetentionCommit,
        table: TableMetadata,
        removed_paths: Seq<Seq<char>>,
        entries: Seq<RootManifestEntry>,
        kept: Seq<ManifestFile>,
        dropped: Seq<ManifestFile>,
        snapshot_id: i64,
        timestamp_ms: i64,
    ) -> bool {
        let index_path = if kept.len() == 0 {
            None
        } else {
            Some(bucket_index_path(table.location@, snapshot_id, self.commit_id))
        };
        &&& match r.index {
            None => kept.len() == 0,
            Some(index) => {
                &&& kept.len() > 0
                &&& Some(index.path@) == index_path
                &&& index.leaves@ == kept
                &&& describes(index.metadata, table, snapshot_id, None, None, 0, Seq::empty())
            },
        }
        &&& r.root.entries@ == entries
        &&& r.root.root_path@ == root_path(table.location@, snapshot_id, self.commit_id)
        &&& describes(
            r.root.root_metadata,
            table,
            snapshot_id,
            index_path,
            None,
            0,
            removed_paths,
        )
        &&& replaces(
            r.root.commit.updates(),
            r.root.commit.requirements(),
            table,
            snapshot_id,
            r.root.root_path@,
            retention_summary(dropped, kept.len(), self.cutoff_micros),
            timestamp_ms,
            no_rows(table),
        )
        &&& texts(r.root.commit.manifest_paths()) == root_and_index(r.root.root_path@, index_path)
        &&& r.root.commit.root_entries() is None
    }

    /// The commit of a retention at the time `timestamp_ms`; `None` where nothing is dropped.
    pub fn commit_at(
        &self,
        table: &TableMetadata,
        root_metadata: &RootManifestMetadata,
        root_entries: Vec<RootManifestEntry>,
        retention: Retention,
        snapshot_id: i64,
        timestamp_ms: i64,
    ) -> (r: Option<RetentionCommit>)
        requires
            table.has_next_sequence_number(),
        ensures
            r is None <==> retention.dropped@.len() == 0,
            r is Some ==> self.commits(
                r->0,
                *table,
                texts(root_metadata.removed_paths@),
                root_entries@,
                retention.kept@,
                retention.dropped@,
                snapshot_id,
                timestamp_ms,
            ),
    {
        if retention.dropped.len() == 0 {
            return None;
        }
        let ghost kept = retention.kept@;
        let kept_count: usize = retention.kept.len();
        let dropped_paths = paths_of(retention.dropped.as_slice());
        let mut summary = Properties::new();
        summary.insert(
            "retention-leaves-dropped".to_owned(),
            decimal_of(retention.dropped.len() as u64),
        );
        summary.insert("retention-leaves-kept".to_owned(), decimal_of(kept_count as u64));
        summary.insert(
            "retention-cutoff-micros".to_owned(),
            signed_decimal_of(self.cutoff_micros),
        );
        summary.insert(
            "retention-dropped-leaf-paths".to_owned(),
            join(dropped_paths.as_slice(), ","),
        );
        let (path, index): (Option<String>, Option<BucketIndexWrite>) = if kept_count == 0 {
            (None, None)
        } else {
            let path = bucket_index_path_of(table.location.as_str(), snapshot_id, self.commit_id);
            let none: Vec<String> = Vec::new();
            assert(texts(none@) =~= Seq::<Seq<char>>::empty());
            let metadata = describe_root(table, snapshot_id, None, None, 0, none);
            (
                Some(path.clone()),
                Some(BucketIndexWrite { path, metadata, leaves: retention.kept }),
            )
        };
        let new_metadata = describe_root(
            table,
            snapshot_id,
            copy_text(&path),
            None,
            0,
            copy_texts(&root_metadata.removed_paths),
        );
        let root = root_path_of(table.location.as_str(), snapshot_id, self.commit_id);
        let commit = replace_commit(
            table,
            snapshot_id,
            root.clone(),
            summary,
            timestamp_ms,
            Some(RowRange { first_row_id: table.next_row_id, added_rows: 0 }),
        );
        let mut paths: Vec<String> = Vec::new();
        paths.push(root.clone());
        let ghost index_path = text_view(path);
        if let Some(p) = path {
            paths.push(p);
        }
        assert(texts(paths@) =~= root_and_index(root@, index_path));
        Some(
            RetentionCommit {
                index,
                root: RootCommit {
                    root_path: root,
                    root_metadata: new_metadata,
                    entries: Arc::new(root_entries),
                    commit: commit.with_manifest_paths(paths),
                },
            },
        )
    }

    /// The commit of a retention, now; `None` where nothing is dropped.
    pub fn commit(
        &self,
        table: &TableMetadata,
        root_metadata: &RootManifestMetadata,
        root_entries: Vec<RootManifestEntry>,
        retention: Retention,
        snapshot_id: i64,
    ) -> (r: Option<RetentionCommit>)
        requires
            table.has_next_sequence_number(),
        ensures
            r is None <==> retention.dropped@.len() == 0,
            r is Some ==> exists|timestamp_ms: i64| #[trigger]
                self.commits(
                    r->0,
                    *table,
                    texts(root_metadata.removed_paths@),
                    root_entries@,
                    retention.kept@,
                    retention.dropped@,
                    snapshot_id,
                    timestamp_ms,
                ),
    {
        let timestamp_ms: i64 = now_millis();
        self.commit_at(
            table,
            root_metadata,
            root_entries,
            retention,
            snapshot_id,
            timestamp_ms,
        )
    }
}

/// Retention parts the leaves: each is kept or dropped, and none is both lost and kept.
pub proof fn law_retention_parts_the_leaves(
    leaves: Seq<ManifestFile>,
    times: Seq<Option<i64>>,
    cutoff_micros: i64,
)
    requires
        leaves.len() == times.len(),
    ensures
        leaves_kept(leaves, times, cutoff_micros, true).len() + leaves_kept(
            leaves,
            times,
            cutoff_micros,
            false,
        ).len() == leaves.len(),
        leaves_kept(leaves, times, cutoff_micros, true).to_multiset().add(
            leaves_kept(leaves, times, cutoff_micros, false).to_multiset(),
        ) == leaves.to_multiset(),
    decreases leaves.len(),
{
    broadcast use vstd::seq_lib::group_to_multiset_ensures;

    let kept = leaves_kept(leaves, times, cutoff_micros, true);
    let dropped = leaves_kept(leaves, times, cutoff_micros, false);
    if leaves.len() > 0 {
        law_retention_parts_the_leaves(leaves.drop_last(), times.drop_last(), cutoff_micros);
        assert(leaves.drop_last().push(leaves.last()) =~= leaves);
    }
    assert(kept.to_multiset().add(dropped.to_multiset()) =~= leaves.to_multiset());
}

/// Stored times change what is read, not what is dropped: where they are the times of files, the
/// leaves have the same times as without any.
pub proof fn law_stored_times_change_nothing(
    leaves: Seq<ManifestFile>,
    ts_field_id: i32,
    stored: Map<Seq<char>, Option<i64>>,
    load: spec_fn(ManifestFile) -> Seq<ManifestEntry>,
)
    requires
        says_file_times(stored, leaves, ts_field_id, load),
    ensures
        leaf_times(leaves, ts_field_id, stored, load) == leaf_times(
            leaves,
            ts_field_id,
            Map::empty(),
            load,
        ),
{
    assert(leaf_times(leaves, ts_field_id, stored, load) =~= leaf_times(
        leaves,
        ts_field_id,
        Map::empty(),
        load,
    ));
}

/// Retention keeps and drops the same leaves with the times that a fold stored for its bucket index
/// and with none.
pub proof fn law_folded_times_change_nothing(
    leaves: Seq<ManifestFile>,
    ts_field_id: i32,
    stored: Map<Seq<char>, Option<i64>>,
    read: Map<Seq<char>, Option<i64>>,
    read_hot: Map<Seq<char>, Option<i64>>,
    load: spec_fn(ManifestFile) -> Seq<ManifestEntry>,
    cutoff_micros: i64,
    kept: bool,
)
    requires
        forall|i: int, j: int|
            0 <= i < j < leaves.len() ==> leaves[i].manifest_path@ != leaves[j].manifest_path@,
        says_file_times(stored, leaves, ts_field_id, load),
        says_file_times(read, leaves, ts_field_id, load),
        says_file_times(read_hot, leaves, ts_field_id, load),
    ensures
        ({
            let written = read_back(times_to_store(leaves, stored, read, read_hot));
            leaves_kept(
                leaves,
                leaf_times(leaves, ts_field_id, written, load),
                cutoff_micros,
                kept,
            ) == leaves_kept(
                leaves,
                leaf_times(leaves, ts_field_id, Map::empty(), load),
                cutoff_micros,
                kept,
            )
        }),
{
    law_stored_times_are_file_times(leaves, stored, read, read_hot, ts_field_id, load);
    let written = read_back(times_to_store(leaves, stored, read, read_hot));
    law_stored_times_change_nothing(leaves, ts_field_id, written, load);
}

/// A leaf with a live file of unknown time is kept, where no time is stored for it.
pub proof fn law_unbounded_leaves_are_kept(
    leaf: ManifestFile,
    ts_field_id: i32,
    stored: Map<Seq<char>, Option<i64>>,
    load: spec_fn(ManifestFile) -> Seq<ManifestEntry>,
    cutoff_micros: i64,
    i: int,
)
    requires
        known(stored, leaf.manifest_path@) is None,
        0 <= i < load(leaf).len(),
        load(leaf)[i].alive(),
        file_max_ts_spec(*load(leaf)[i].data_file, ts_field_id) is None,
    ensures
        keeps(leaf_time(leaf, ts_field_id, stored, load), cutoff_micros),
{
    lemma_alive_time_is_listed(load(leaf), ts_field_id, i);
}

spec fn time_of(e: ManifestEntry, ts_field_id: i32) -> Option<i64> {
    file_max_ts_spec(*e.data_file, ts_field_id)
}

proof fn lemma_alive_time_is_listed(entries: Seq<ManifestEntry>, ts_field_id: i32, i: int)
    requires
        0 <= i < entries.len(),
        entries[i].alive(),
    ensures
        alive_times(entries, ts_field_id).contains(time_of(entries[i], ts_field_id)),
    decreases entries.len(),
{
    let rest = entries.drop_last();
    let times = alive_times(entries, ts_field_id);
    let fewer = alive_times(rest, ts_field_id);
    let time = time_of(entries[i], ts_field_id);
    if i < rest.len() {
        assert(rest[i] == entries[i]);
        lemma_alive_time_is_listed(rest, ts_field_id, i);
        let k = choose|k: int| 0 <= k < fewer.len() && fewer[k] == time;
        assert(times[k] == time);
    } else {
        assert(times[fewer.len() as int] == time);
    }
}

/// A leaf that is dropped has a known time, and it is older than the cutoff.
pub proof fn law_only_expired_leaves_are_dropped(
    leaves: Seq<ManifestFile>,
    times: Seq<Option<i64>>,
    cutoff_micros: i64,
    k: int,
)
    requires
        leaves.len() == times.len(),
        0 <= k < leaves_kept(leaves, times, cutoff_micros, false).len(),
    ensures
        exists|i: int|
            0 <= i < leaves.len() && #[trigger] leaves[i] == leaves_kept(
                leaves,
                times,
                cutoff_micros,
                false,
            )[k] && times[i] is Some && times[i]->0 < cutoff_micros,
    decreases leaves.len(),
{
    let rest = leaves_kept(leaves.drop_last(), times.drop_last(), cutoff_micros, false);
    if k < rest.len() {
        law_only_expired_leaves_are_dropped(
            leaves.drop_last(),
            times.drop_last(),
            cutoff_micros,
            k,
        );
        let i = choose|i: int|
            0 <= i < leaves.drop_last().len() && #[trigger] leaves.drop_last()[i] == rest[k]
                && times.drop_last()[i] is Some && times.drop_last()[i]->0 < cutoff_micros;
        assert(leaves[i] == rest[k]);
    } else {
        assert(leaves[leaves.len() - 1] == leaves.last());
        assert(times[leaves.len() - 1] == times.last());
    }
}

/// A leaf is kept where its time is not known or not before the cutoff: at the cutoff it stays.
pub proof fn law_leaf_at_the_cutoff_is_kept(time: Option<i64>, cutoff_micros: i64)
    ensures
        keeps(time, cutoff_micros) <==> !(time is Some && time->0 < cutoff_micros),
{
}

/// The leaves that are kept, or those that are not, stand in the order of the list, each as often
/// as it is listed.
pub proof fn law_retention_keeps_the_order(
    leaves: Seq<ManifestFile>,
    times: Seq<Option<i64>>,
    cutoff_micros: i64,
    kept: bool,
) -> (places: Seq<int>)
    requires
        leaves.len() == times.len(),
    ensures
        stands_at(leaves_kept(leaves, times, cutoff_micros, kept), leaves, places),
        forall|i: int|
            0 <= i < leaves.len() ==> (places.contains(i) <==> kept == ((#[trigger] times[i]) is None
                || times[i]->0 >= cutoff_micros)),
    decreases leaves.len(),
{
    if leaves.len() == 0 {
        Seq::empty()
    } else {
        let head = leaves.drop_last();
        let last = leaves.len() - 1;
        let before = law_retention_keeps_the_order(head, times.drop_last(), cutoff_micros, kept);
        let places = if kept == (times[last] is None || times[last]->0 >= cutoff_micros) {
            before.push(last)
        } else {
            before
        };
        assert forall|i: int| 0 <= i < leaves.len() implies (places.contains(i) <==> kept == ((
        #[trigger] times[i]) is None || times[i]->0 >= cutoff_micros)) by {
            if i < last {
                assert(times.drop_last()[i] == times[i]);
                if before.contains(i) {
                    let k = choose|k: int| 0 <= k < before.len() && before[k] == i;
                    assert(places[k] == i);
                }
                if places.contains(i) {
                    let k = choose|k: int| 0 <= k < places.len() && places[k] == i;
                    assert(before[k] == i);
                }
            } else if places.len() > before.len() {
                assert(places[before.len() as int] == i);
            } else if places.contains(i) {
                let k = choose|k: int| 0 <= k < places.len() && places[k] == i;
                assert(before[k] == i);
            }
        }
        places
    }
}

/// A leaf's time is the stored one where there is one, and the one of its live files otherwise.
pub proof fn law_stored_time_spares_the_read(
    leaf: ManifestFile,
    ts_field_id: i32,
    stored: Map<Seq<char>, Option<i64>>,
    load: spec_fn(ManifestFile) -> Seq<ManifestEntry>,
)
    ensures
        stored.contains_key(leaf.manifest_path@) && stored[leaf.manifest_path@] is Some
            ==> leaf_time(leaf, ts_field_id, stored, load) == stored[leaf.manifest_path@],
        !(stored.contains_key(leaf.manifest_path@) && stored[leaf.manifest_path@] is Some)
            ==> leaf_time(leaf, ts_field_id, stored, load) == live_time(load(leaf), ts_field_id),
{
}

/// The summary of a retention says what was dropped, what was kept, and the cutoff.
pub proof fn law_retention_summary_says_what_went(
    dropped: Seq<ManifestFile>,
    kept: nat,
    cutoff_micros: i64,
)
    ensures
        ({
            let m = retention_summary(dropped, kept, cutoff_micros);
            &&& m["retention-leaves-dropped"@] == decimal(dropped.len())
            &&& m["retention-leaves-kept"@] == decimal(kept)
            &&& m["retention-cutoff-micros"@] == signed_decimal(cutoff_micros as int)
            &&& m["retention-dropped-leaf-paths"@] == joined(leaf_paths(dropped), ","@)
            &&& m.contains_key("retention-leaves-dropped"@)
            &&& m.contains_key("retention-leaves-kept"@)
            &&& m.contains_key("retention-cutoff-micros"@)
            &&& m.contains_key("retention-dropped-leaf-paths"@)
        }),
        forall|i: int|
            0 <= i < dropped.len() ==> leaf_paths(dropped)[i] == (
            #[trigger] dropped[i]).manifest_path@,
        leaf_paths(dropped).len() == dropped.len(),
{
    reveal_strlit("retention-leaves-dropped");
    reveal_strlit("retention-leaves-kept");
    reveal_strlit("retention-cutoff-micros");
    reveal_strlit("retention-dropped-leaf-paths");
    assert("retention-leaves-dropped"@.len() != "retention-leaves-kept"@.len());
    assert("retention-leaves-dropped"@.len() != "retention-cutoff-micros"@.len());
    assert("retention-leaves-dropped"@.len() != "retention-dropped-leaf-paths"@.len());
    assert("retention-leaves-kept"@.len() != "retention-cutoff-micros"@.len());
    assert("retention-leaves-kept"@.len() != "retention-dropped-leaf-paths"@.len());
    assert("retention-cutoff-micros"@.len() != "retention-dropped-leaf-paths"@.len());
}

/// A retention commits a flat root over the leaves that are kept: the index lists just them, and
/// where none is kept there is no index. What the root lists and what it removes stay as they were.
pub proof fn law_retention_indexes_what_is_kept(
    action: DropColdBucketsAction,
    r: RetentionCommit,
    table: TableMetadata,
    removed_paths: Seq<Seq<char>>,
    entries: Seq<RootManifestEntry>,
    kept: Seq<ManifestFile>,
    dropped: Seq<ManifestFile>,
    snapshot_id: i64,
    timestamp_ms: i64,
)
    requires
        action.commits(
            r,
            table,
            removed_paths,
            entries,
            kept,
            dropped,
            snapshot_id,
            timestamp_ms,
        ),
    ensures
        r.index is None <==> kept.len() == 0,
        r.index is Some ==> r.index->0.leaves@ == kept && r.root.root_metadata.bucket_index_path
            is Some && r.root.root_metadata.bucket_index_path->0@ == r.index->0.path@
            && r.index->0.metadata.snapshot_id == snapshot_id,
        r.index is None ==> r.root.root_metadata.bucket_index_path is None,
        r.root.entries@ == entries,
        r.root.root_metadata.prev_root_path is None,
        r.root.root_metadata.chain_depth == 0,
        texts(r.root.root_metadata.removed_paths@) == removed_paths,
        texts(r.root.commit.manifest_paths()).contains(r.root.root_path@),
        r.index is Some ==> texts(r.root.commit.manifest_paths()).contains(r.index->0.path@),
{
    let paths = texts(r.root.commit.manifest_paths());
    assert(paths[0] == r.root.root_path@);
    if r.index is Some {
        assert(paths[1] == r.index->0.path@);
    }
}

} // verus!
