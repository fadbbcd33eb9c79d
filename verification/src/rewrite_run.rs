//! A whole rewrite of a table's manifests: they are read once, and what they were rewritten to is
//! committed, as often as it takes.

use std::collections::VecDeque;
use std::sync::Arc;

use vstd::prelude::*;

use crate::action::ActionCommit;
use crate::cold_paths::leaf_paths;
use crate::commit::replaces;
use crate::error::{Error, ErrorKind};
use crate::listing::{
    all_alive, group_listings, lemma_group_listings_add, lemma_group_listings_push,
    lemma_listings_add, lemma_listings_push, lemma_restamped_list_alike, listings,
};
use crate::manifest::{DataFile, ManifestContentType, ManifestEntry, ManifestFile};
use crate::outside::{is_time_ordered, now_millis};
use crate::path_set::{lemma_push_to_set, PathSet};
use crate::rebalance_root_manifest::spec_not_found_message;
use crate::rewrite_manifests::{
    buffered, buffered_total, chunks, collected, collected_all, cut, filled, fills, flushes,
    flushes_all, has_specs, law_rewrite_summary_says_what_was_done, left_over, lemma_total_grows, manifest_list_path, manifest_list_path_of,
    of_content, rewrite_at_once_summary, rewrite_summary, specs_in_order, split_manifests,
    BufferView, FlushView, ManifestCompaction, ManifestFlush, RewriteCounts, RewriteManifestsAction,
};
use crate::seqs::{lemma_filter_places, lemma_filter_push, lemma_take_push, stands_at};
use crate::table::{TableMetadata, TableUpdate};
use crate::text::decimal;

verus! {

/// `list`, to be shared.
pub open spec fn shared_manifests(list: Seq<ManifestFile>) -> Seq<Arc<ManifestFile>> {
    list.map_values(|mf: ManifestFile| Arc::new(mf))
}

fn push_shared(list: &mut Vec<Arc<ManifestFile>>, more: Vec<ManifestFile>)
    ensures
        final(list)@ == old(list)@ + shared_manifests(more@),
{
    let ghost start = list@;
    let ghost given = more@;
    let ghost all = shared_manifests(more@);
    assert(start + all.take(0) =~= start);
    for mf in iter: more
        invariant
            iter.seq() == given,
            all == shared_manifests(given),
            list@ == start + all.take(iter.index() as int),
    {
        proof {
            lemma_take_push(all, iter.index() as int);
        }
        list.push(Arc::new(mf));
        assert(list@ =~= start + all.take(iter.index() + 1));
    }
    assert(all.take(given.len() as int) =~= all);
}

/// What a rewrite started from.
pub struct RewriteStart {
    /// The paths of all manifests.
    pub paths: PathSet,
    /// How many manifests there were.
    pub manifests: usize,
    /// How many of them were data manifests.
    pub data_manifests: usize,
}

impl RewriteStart {
    /// Whether this is where a rewrite of the manifests `list` starts.
    pub open spec fn is_of(&self, list: Seq<ManifestFile>) -> bool {
        &&& self.paths@ == leaf_paths(list).to_set()
        &&& self.manifests == list.len()
        &&& self.data_manifests == of_content(list, ManifestContentType::Data).len()
    }
}

/// What a rewrite has come to.
pub struct ReadView {
    /// The entries that are collected.
    pub buffers: BufferView,
    /// The manifests that were full.
    pub full: Seq<FlushView>,
}

/// What a rewrite comes to once a manifest is read, of which `entries` could be.
pub open spec fn read_one(
    v: ReadView,
    entries: Option<Seq<ManifestEntry>>,
    limit: Option<usize>,
) -> ReadView {
    match entries {
        Some(e) => ReadView {
            buffers: collected_all(v.buffers, e, limit, e.len()),
            full: v.full + filled(v.buffers, e, limit, e.len()),
        },
        None => v,
    }
}

/// What a rewrite comes to once all of `pending` are read, `load` giving what can be read of each.
pub open spec fn read_all(
    v: ReadView,
    pending: Seq<ManifestFile>,
    load: spec_fn(ManifestFile) -> Option<Seq<ManifestEntry>>,
    limit: Option<usize>,
) -> ReadView
    decreases pending.len(),
{
    if pending.len() == 0 {
        v
    } else {
        read_all(read_one(v, load(pending[0]), limit), pending.skip(1), load, limit)
    }
}

/// A rewrite that has read nothing yet.
pub open spec fn nothing_read() -> ReadView {
    ReadView {
        buffers: BufferView { order: Seq::empty(), buffers: Map::empty() },
        full: Seq::empty(),
    }
}

/// The manifests of a whole rewrite, whose data manifests come to `v`: those that were full, and
/// those that hold what is collected in the end.
pub open spec fn all_flushes(v: ReadView, target: int) -> Seq<FlushView> {
    v.full + left_over(v.buffers, target, v.buffers.order.len())
}

/// A rewrite that reads the data manifests, one by one.
pub struct Rewrite {
    start: RewriteStart,
    snapshot_id: i64,
    pending: VecDeque<ManifestFile>,
    deletes: Vec<Arc<ManifestFile>>,
    compacted: Vec<Arc<ManifestFile>>,
    compaction: ManifestCompaction,
    full: Ghost<Seq<FlushView>>,
}

/// Manifests that were rewritten, to be committed.
pub struct Rewritten {
    pub start: RewriteStart,
    pub snapshot_id: i64,
    pub commit_id: u128,
    /// The data manifests that were written.
    pub compacted: Vec<Arc<ManifestFile>>,
    /// The delete manifests, which stay as they are.
    pub deletes: Vec<Arc<ManifestFile>>,
}

/// An attempt at committing rewritten manifests.
pub struct RewriteAttempt {
    /// The path of the manifest list to write.
    pub manifest_list: String,
    /// What the manifest list holds.
    pub manifests: Vec<Arc<ManifestFile>>,
    pub commit: ActionCommit,
}

fn paths_of_list(list: &[ManifestFile]) -> (r: PathSet)
    ensures
        r@ == leaf_paths(list@).to_set(),
{
    let mut r = PathSet::new();
    let mut i: usize = 0;
    assert(leaf_paths(list@).take(0).to_set() =~= Set::<Seq<char>>::empty());
    while i < list.len()
        invariant
            i <= list@.len(),
            r@ == leaf_paths(list@).take(i as int).to_set(),
        decreases list@.len() - i,
    {
        r.insert(list[i].manifest_path.clone());
        proof {
            lemma_take_push(leaf_paths(list@), i as int);
            lemma_push_to_set(leaf_paths(list@).take(i as int), list@[i as int].manifest_path@);
        }
        i = i + 1;
    }
    assert(leaf_paths(list@).take(i as int) =~= leaf_paths(list@));
    r
}

impl Rewrite {
    /// What the rewrite started from.
    pub closed spec fn start(&self) -> RewriteStart {
        self.start
    }

    /// The id of the new snapshot.
    pub closed spec fn snapshot_id(&self) -> i64 {
        self.snapshot_id
    }

    /// The data manifests still to be read.
    pub closed spec fn pending(&self) -> Seq<ManifestFile> {
        self.pending@
    }

    /// The delete manifests.
    pub closed spec fn deletes(&self) -> Seq<Arc<ManifestFile>> {
        self.deletes@
    }

    /// The manifests that were written so far.
    pub closed spec fn compacted(&self) -> Seq<Arc<ManifestFile>> {
        self.compacted@
    }

    /// The id that the manifests are named by.
    pub closed spec fn id(&self) -> u128 {
        self.compaction.id()
    }

    /// How many manifests are named so far.
    pub closed spec fn written(&self) -> u64 {
        self.compaction.written()
    }

    /// The entries that are collected.
    pub closed spec fn buffers(&self) -> BufferView {
        self.compaction@
    }

    /// The manifests that were full so far.
    pub closed spec fn full(&self) -> Seq<FlushView> {
        self.full@
    }

    /// What the rewrite comes to, `load` giving what can be read of a manifest, and `limit` being how
    /// many entries fill one.
    pub open spec fn outcome(
        &self,
        load: spec_fn(ManifestFile) -> Option<Seq<ManifestEntry>>,
        limit: Option<usize>,
    ) -> ReadView {
        read_all(
            ReadView { buffers: self.buffers(), full: self.full() },
            self.pending(),
            load,
            limit,
        )
    }

    /// Whether no partition spec came up twice.
    pub closed spec fn wf(&self) -> bool {
        self.compaction.wf()
    }

    /// Whether nothing but what is read and collected differs from `other`.
    pub open spec fn follows(&self, other: Rewrite) -> bool {
        &&& self.start() == other.start()
        &&& self.snapshot_id() == other.snapshot_id()
        &&& self.deletes() == other.deletes()
        &&& self.id() == other.id()
    }

    /// Starts a rewrite of the manifests `list` for the snapshot `snapshot_id`.
    pub fn new(list: Vec<ManifestFile>, snapshot_id: i64) -> (r: Self)
        ensures
            r.wf(),
            r.start().is_of(list@),
            r.snapshot_id() == snapshot_id,
            r.pending() == of_content(list@, ManifestContentType::Data),
            r.deletes() == shared_manifests(of_content(list@, ManifestContentType::Deletes)),
            r.compacted() == Seq::<Arc<ManifestFile>>::empty(),
            r.buffers() == nothing_read().buffers,
            r.full() == Seq::<FlushView>::empty(),
            is_time_ordered(r.id()),
            r.written() == 0,
    {
        let ghost given = list@;
        let paths = paths_of_list(list.as_slice());
        let manifests: usize = list.len();
        let parts = split_manifests(list);
        let data_manifests: usize = parts.data.len();
        let ghost data = parts.data@;
        let mut pending: VecDeque<ManifestFile> = VecDeque::with_capacity(data_manifests);
        for mf in iter: parts.data
            invariant
                iter.seq() == data,
                pending@ == data.take(iter.index() as int),
        {
            proof {
                lemma_take_push(data, iter.index() as int);
            }
            pending.push_back(mf);
        }
        assert(data.take(data.len() as int) =~= data);
        let mut deletes: Vec<Arc<ManifestFile>> = Vec::new();
        push_shared(&mut deletes, parts.deletes);
        assert(deletes@ =~= shared_manifests(of_content(given, ManifestContentType::Deletes)));
        Rewrite {
            start: RewriteStart { paths, manifests, data_manifests },
            snapshot_id,
            pending,
            deletes,
            compacted: Vec::new(),
            compaction: ManifestCompaction::new(),
            full: Ghost(Seq::empty()),
        }
    }

    /// The data manifest whose entries are asked for.
    pub fn next_manifest(&self) -> (r: Option<&ManifestFile>)
        ensures
            match r {
                Some(mf) => self.pending().len() > 0 && *mf == self.pending()[0],
                None => self.pending().len() == 0,
            },
    {
        if self.pending.len() == 0 {
            None
        } else {
            Some(&self.pending[0])
        }
    }

    /// Whether the manifests for `n` more entries can be numbered.
    pub fn can_take(&self, n: usize) -> (r: bool)
        ensures
            r == (self.written() + n <= u64::MAX),
    {
        self.compaction.can_take(n)
    }

    /// Takes in the entries of the next manifest, and returns the manifests to write that are full
    /// now, where a manifest holds `limit` entries. Fails where the table lacks the partition spec
    /// of one.
    pub fn add_next(
        &mut self,
        entries: &[ManifestEntry],
        table: &TableMetadata,
        limit: Option<usize>,
    ) -> (r: Result<Vec<ManifestFlush>, Error>)
        requires
            old(self).wf(),
            old(self).pending().len() > 0,
            old(self).written() + entries@.len() <= u64::MAX,
        ensures
            final(self).wf(),
            final(self).follows(*old(self)),
            final(self).pending() == old(self).pending().skip(1),
            final(self).compacted() == old(self).compacted(),
            ({
                let full = filled(old(self).buffers(), entries@, limit, entries@.len());
                &&& r is Ok <==> has_specs(full, *table)
                &&& r is Err ==> exists|i: int|
                    0 <= i < full.len() && table.spec_by_id((#[trigger] full[i]).spec_id) is None
                        && r->Err_0.says(
                        ErrorKind::DataInvalid,
                        spec_not_found_message(full[i].spec_id),
                    )
                &&& r is Ok ==> {
                    &&& flushes_all(
                        r->Ok_0@,
                        full,
                        *table,
                        old(self).id(),
                        old(self).written() as int,
                    )
                    &&& final(self).buffers() == collected_all(
                        old(self).buffers(),
                        entries@,
                        limit,
                        entries@.len(),
                    )
                    &&& final(self).full() == old(self).full() + full
                    &&& final(self).written() == old(self).written() + full.len()
                }
            }),
            forall|load: spec_fn(ManifestFile) -> Option<Seq<ManifestEntry>>|
                r is Ok && load(old(self).pending()[0]) == Some(entries@)
                    ==> #[trigger] final(self).outcome(load, limit) == old(self).outcome(
                    load,
                    limit,
                ),
    {
        let ghost before = self.pending@;
        assert(before.subrange(1, before.len() as int) =~= before.skip(1));
        let ghost full = filled(self.buffers(), entries@, limit, entries@.len());
        let next = self.pending.pop_front();
        proof {
            self.full@ = self.full@ + full;
        }
        self.compaction.add_manifest(entries, table, limit)
    }

    /// Takes in that the next manifest cannot be read for `error`: it is left out, with what it
    /// lists, or the rewrite fails with the error.
    pub fn skip_next(&mut self, action: &RewriteManifestsAction, error: Error) -> (r: Result<
        (),
        Error,
    >)
        requires
            old(self).wf(),
            old(self).pending().len() > 0,
        ensures
            final(self).wf(),
            final(self).follows(*old(self)),
            final(self).pending() == old(self).pending().skip(1),
            final(self).compacted() == old(self).compacted(),
            final(self).buffers() == old(self).buffers(),
            final(self).full() == old(self).full(),
            final(self).written() == old(self).written(),
            forall|
                load: spec_fn(ManifestFile) -> Option<Seq<ManifestEntry>>,
                limit: Option<usize>,
            |
                load(old(self).pending()[0]) is None ==> #[trigger] final(self).outcome(load, limit)
                    == old(self).outcome(load, limit),
            r == if action.skip_missing_manifests {
                Ok::<(), Error>(())
            } else {
                Err(error)
            },
    {
        let ghost before = self.pending@;
        assert(before.subrange(1, before.len() as int) =~= before.skip(1));
        let next = self.pending.pop_front();
        action.unreadable(error)
    }

    /// Takes in manifests that were written.
    pub fn add_written(&mut self, written: Vec<ManifestFile>)
        ensures
            final(self).follows(*old(self)),
            final(self).wf() == old(self).wf(),
            final(self).pending() == old(self).pending(),
            final(self).buffers() == old(self).buffers(),
            final(self).full() == old(self).full(),
            final(self).written() == old(self).written(),
            final(self).compacted() == old(self).compacted() + shared_manifests(written@),
    {
        push_shared(&mut self.compacted, written);
    }

    /// Whether what is still collected can be cut into manifests of `target` entries.
    pub fn can_finish(&self, target: usize) -> (r: bool)
        requires
            self.wf(),
        ensures
            r == ((target > 0 || buffered_total(self.buffers(), self.buffers().order.len()) == 0)
                && self.written() + buffered_total(self.buffers(), self.buffers().order.len())
                <= u64::MAX),
    {
        self.compaction.can_finish(target)
    }

    /// What was rewritten so far, and the manifests to write for what is still collected. Fails
    /// where the table lacks the partition spec of one.
    pub fn finish(self, table: &TableMetadata, target: usize) -> (r: Result<
        (Rewritten, Vec<ManifestFlush>),
        Error,
    >)
        requires
            self.wf(),
            self.pending().len() == 0,
            target > 0 || buffered_total(self.buffers(), self.buffers().order.len()) == 0,
            self.written() + buffered_total(self.buffers(), self.buffers().order.len()) <= u64::MAX,
        ensures
            ({
                let fs = left_over(self.buffers(), target as int, self.buffers().order.len());
                &&& r is Ok <==> has_specs(fs, *table)
                &&& r is Err ==> exists|i: int|
                    0 <= i < fs.len() && table.spec_by_id((#[trigger] fs[i]).spec_id) is None
                        && r->Err_0.says(
                        ErrorKind::DataInvalid,
                        spec_not_found_message(fs[i].spec_id),
                    )
                &&& r is Ok ==> {
                    &&& flushes_all(r->Ok_0.1@, fs, *table, self.id(), self.written() as int)
                    &&& r->Ok_0.0.start == self.start()
                    &&& r->Ok_0.0.snapshot_id == self.snapshot_id()
                    &&& r->Ok_0.0.commit_id == self.id()
                    &&& r->Ok_0.0.compacted@ == self.compacted()
                    &&& r->Ok_0.0.deletes@ == self.deletes()
                }
            }),
    {
        let fits = self.compaction.can_finish(target);
        assert(fits);
        let commit_id: u128 = self.compaction.commit_id();
        match self.compaction.finish(table, target) {
            Ok(ws) => Ok(
                (
                    Rewritten {
                        start: self.start,
                        snapshot_id: self.snapshot_id,
                        commit_id,
                        compacted: self.compacted,
                        deletes: self.deletes,
                    },
                    ws,
                ),
            ),
            Err(e) => Err(e),
        }
    }

    /// The same in a rewrite that is committed within a transaction.
    pub fn finish_at_once(self, table: &TableMetadata, target: usize) -> (r: Result<
        (Rewritten, Vec<ManifestFlush>),
        Error,
    >)
        requires
            self.wf(),
            self.pending().len() == 0,
            target > 0 || buffered_total(self.buffers(), self.buffers().order.len()) == 0,
            self.written() + buffered_total(self.buffers(), self.buffers().order.len()) <= u64::MAX,
        ensures
            ({
                let fs = left_over(self.buffers(), target as int, self.buffers().order.len());
                &&& r is Ok <==> has_specs(fs, *table)
                &&& r is Err ==> exists|i: int|
                    0 <= i < fs.len() && table.spec_by_id((#[trigger] fs[i]).spec_id) is None
                        && r->Err_0.says(
                        ErrorKind::DataInvalid,
                        spec_not_found_message(fs[i].spec_id) + " in table metadata"@,
                    )
                &&& r is Ok ==> {
                    &&& flushes_all(r->Ok_0.1@, fs, *table, self.id(), self.written() as int)
                    &&& r->Ok_0.0.start == self.start()
                    &&& r->Ok_0.0.snapshot_id == self.snapshot_id()
                    &&& r->Ok_0.0.commit_id == self.id()
                    &&& r->Ok_0.0.compacted@ == self.compacted()
                    &&& r->Ok_0.0.deletes@ == self.deletes()
                }
            }),
    {
        let fits = self.compaction.can_finish(target);
        assert(fits);
        let commit_id: u128 = self.compaction.commit_id();
        match self.compaction.finish_at_once(table, target) {
            Ok(ws) => Ok(
                (
                    Rewritten {
                        start: self.start,
                        snapshot_id: self.snapshot_id,
                        commit_id,
                        compacted: self.compacted,
                        deletes: self.deletes,
                    },
                    ws,
                ),
            ),
            Err(e) => Err(e),
        }
    }
}

/// The manifests of `fresh` whose paths are not in `starting`, in their order.
pub open spec fn since_start(fresh: Seq<Arc<ManifestFile>>, starting: Set<Seq<char>>) -> Seq<
    Arc<ManifestFile>,
> {
    fresh.filter(|mf: Arc<ManifestFile>| !starting.contains(mf.manifest_path@))
}

impl Rewritten {
    /// Takes in manifests that were written.
    pub fn add_written(&mut self, written: Vec<ManifestFile>)
        ensures
            final(self).compacted@ == old(self).compacted@ + shared_manifests(written@),
            final(self).start == old(self).start,
            final(self).snapshot_id == old(self).snapshot_id,
            final(self).commit_id == old(self).commit_id,
            final(self).deletes == old(self).deletes,
    {
        push_shared(&mut self.compacted, written);
    }

    /// Whether `r` is attempt number `attempt` at committing on top of `table`, whose manifests are
    /// `fresh` now: what was added since the start is kept beside what was rewritten.
    pub open spec fn attempted(
        &self,
        r: RewriteAttempt,
        table: TableMetadata,
        fresh: Seq<ManifestFile>,
        attempt: u32,
        timestamp_ms: i64,
    ) -> bool {
        &&& r.manifest_list@ == manifest_list_path(
            table.location@,
            self.snapshot_id,
            self.commit_id,
        )
        &&& r.manifests@ == self.compacted@ + since_start(
            shared_manifests(fresh),
            self.start.paths@,
        ) + self.deletes@
        &&& replaces(
            r.commit.updates(),
            r.commit.requirements(),
            table,
            self.snapshot_id,
            r.manifest_list@,
            rewrite_summary(
                (RewriteCounts {
                    data_manifests: self.start.data_manifests,
                    new_manifests: self.compacted@.len() as usize,
                    starting_manifests: self.start.manifests,
                    fresh_manifests: fresh.len() as usize,
                    attempt,
                }),
            ),
            timestamp_ms,
            None,
        )
        &&& r.commit.manifest_paths() == Seq::<String>::empty()
        &&& r.commit.root_entries() is None
    }

    /// Attempt number `attempt` at committing on top of `table`, whose manifests are `fresh` now,
    /// at the time `timestamp_ms`.
    pub fn attempt_at(
        &self,
        action: &RewriteManifestsAction,
        table: &TableMetadata,
        fresh: Vec<ManifestFile>,
        attempt: u32,
        timestamp_ms: i64,
    ) -> (r: RewriteAttempt)
        requires
            table.has_next_sequence_number(),
        ensures
            self.attempted(r, *table, fresh@, attempt, timestamp_ms),
    {
        let ghost given = fresh@;
        let ghost all = shared_manifests(given);
        let starting = &self.start.paths;
        let ghost is_new = |mf: Arc<ManifestFile>| !starting@.contains(mf.manifest_path@);
        let fresh_manifests: usize = fresh.len();
        let manifest_list = manifest_list_path_of(
            table.location.as_str(),
            self.snapshot_id,
            self.commit_id,
        );
        let mut manifests: Vec<Arc<ManifestFile>> = copy_shared(&self.compacted);
        let ghost head = self.compacted@;
        assert(head + all.take(0).filter(is_new) =~= head) by {
            reveal(Seq::filter);
        }
        for mf in iter: fresh
            invariant
                iter.seq() == given,
                all == shared_manifests(given),
                is_new == (|mf: Arc<ManifestFile>| !starting@.contains(mf.manifest_path@)),
                manifests@ == head + all.take(iter.index() as int).filter(is_new),
        {
            proof {
                let seen = all.take(iter.index() as int);
                lemma_take_push(all, iter.index() as int);
                lemma_filter_push(seen, all[iter.index() as int], is_new);
                assert(head + seen.filter(is_new).push(all[iter.index() as int]) =~= (head
                    + seen.filter(is_new)).push(all[iter.index() as int]));
            }
            if !starting.contains(mf.manifest_path.as_str()) {
                manifests.push(Arc::new(mf));
            }
        }
        assert(all.take(given.len() as int) =~= all);
        let mut rest: Vec<Arc<ManifestFile>> = copy_shared(&self.deletes);
        manifests.append(&mut rest);
        let counts = RewriteCounts {
            data_manifests: self.start.data_manifests,
            new_manifests: self.compacted.len(),
            starting_manifests: self.start.manifests,
            fresh_manifests,
            attempt,
        };
        let commit = action.commit_at(
            table,
            manifest_list.clone(),
            &counts,
            self.snapshot_id,
            timestamp_ms,
        );
        RewriteAttempt { manifest_list, manifests, commit }
    }

    /// Attempt number `attempt` at committing on top of `table`, whose manifests are `fresh` now.
    pub fn attempt(
        &self,
        action: &RewriteManifestsAction,
        table: &TableMetadata,
        fresh: Vec<ManifestFile>,
        attempt: u32,
    ) -> (r: RewriteAttempt)
        requires
            table.has_next_sequence_number(),
        ensures
            exists|timestamp_ms: i64| #[trigger]
                self.attempted(r, *table, fresh@, attempt, timestamp_ms),
    {
        let timestamp_ms: i64 = now_millis();
        self.attempt_at(action, table, fresh, attempt, timestamp_ms)
    }

    /// Whether `r` commits what was rewritten within a transaction on `table`.
    pub open spec fn committed_at_once(
        &self,
        r: RewriteAttempt,
        table: TableMetadata,
        timestamp_ms: i64,
    ) -> bool {
        &&& r.manifest_list@ == manifest_list_path(
            table.location@,
            self.snapshot_id,
            self.commit_id,
        )
        &&& r.manifests@ == self.compacted@ + self.deletes@
        &&& replaces(
            r.commit.updates(),
            r.commit.requirements(),
            table,
            self.snapshot_id,
            r.manifest_list@,
            rewrite_at_once_summary(
                self.start.data_manifests as nat,
                self.compacted@.len(),
                self.start.manifests as nat,
            ),
            timestamp_ms,
            None,
        )
        &&& r.commit.manifest_paths() == Seq::<String>::empty()
        &&& r.commit.root_entries() is None
    }

    /// The commit of what was rewritten, within a transaction on `table`, at the time
    /// `timestamp_ms`.
    pub fn commit_at_once_at(
        &self,
        action: &RewriteManifestsAction,
        table: &TableMetadata,
        timestamp_ms: i64,
    ) -> (r: RewriteAttempt)
        requires
            table.has_next_sequence_number(),
        ensures
            self.committed_at_once(r, *table, timestamp_ms),
    {
        let manifest_list = manifest_list_path_of(
            table.location.as_str(),
            self.snapshot_id,
            self.commit_id,
        );
        let mut manifests: Vec<Arc<ManifestFile>> = copy_shared(&self.compacted);
        let mut rest: Vec<Arc<ManifestFile>> = copy_shared(&self.deletes);
        manifests.append(&mut rest);
        let commit = action.commit_at_once_at(
            table,
            manifest_list.clone(),
            self.start.data_manifests,
            self.compacted.len(),
            self.start.manifests,
            self.snapshot_id,
            timestamp_ms,
        );
        RewriteAttempt { manifest_list, manifests, commit }
    }

    /// The commit of what was rewritten, within a transaction on `table`, now.
    pub fn commit_at_once(&self, action: &RewriteManifestsAction, table: &TableMetadata) -> (r:
        RewriteAttempt)
        requires
            table.has_next_sequence_number(),
        ensures
            exists|timestamp_ms: i64| #[trigger]
                self.committed_at_once(r, *table, timestamp_ms),
    {
        let timestamp_ms: i64 = now_millis();
        self.commit_at_once_at(action, table, timestamp_ms)
    }
}

fn copy_shared(list: &Vec<Arc<ManifestFile>>) -> (r: Vec<Arc<ManifestFile>>)
    ensures
        r@ == list@,
{
    let mut r: Vec<Arc<ManifestFile>> = Vec::with_capacity(list.len());
    let mut i: usize = 0;
    while i < list.len()
        invariant
            i <= list@.len(),
            r@ == list@.take(i as int),
        decreases list@.len() - i,
    {
        proof {
            lemma_take_push(list@, i as int);
        }
        r.push(list[i].clone());
        i = i + 1;
    }
    assert(list@.take(i as int) =~= list@);
    r
}

/// A concurrent append is not lost: a manifest that was added since the rewrite started is in the
/// new snapshot, whatever the attempt.
pub proof fn law_added_manifests_are_kept(
    w: Rewritten,
    r: RewriteAttempt,
    table: TableMetadata,
    fresh: Seq<ManifestFile>,
    attempt: u32,
    timestamp_ms: i64,
    i: int,
)
    requires
        w.attempted(r, table, fresh, attempt, timestamp_ms),
        0 <= i < fresh.len(),
        !w.start.paths@.contains(fresh[i].manifest_path@),
    ensures
        r.manifests@.contains(Arc::new(fresh[i])),
{
    let starting = w.start.paths@;
    let is_new = |mf: Arc<ManifestFile>| !starting.contains(mf.manifest_path@);
    let all = shared_manifests(fresh);
    assert(all[i].manifest_path@ == fresh[i].manifest_path@);
    all.lemma_filter_contains(is_new, i);
    let added = since_start(all, starting);
    let k = choose|k: int| 0 <= k < added.len() && added[k] == all[i];
    assert(r.manifests@[w.compacted@.len() + k] == all[i]);
}

/// How often what is collected for the first `n` specs lists the file `file` live.
spec fn buffered_listings(v: BufferView, n: nat, file: Arc<DataFile>) -> nat
    decreases n,
{
    if n == 0 {
        0
    } else {
        buffered_listings(v, (n - 1) as nat, file) + listings(buffered(v, v.order[n - 1]), file)
    }
}

/// The entries of each of `fs`.
pub open spec fn flush_entries(fs: Seq<FlushView>) -> Seq<Seq<ManifestEntry>> {
    fs.map_values(|f: FlushView| f.entries)
}

/// How often the manifests `pending` list the file `file` live, of those that can be read.
pub open spec fn readable_listings(
    pending: Seq<ManifestFile>,
    load: spec_fn(ManifestFile) -> Option<Seq<ManifestEntry>>,
    file: Arc<DataFile>,
) -> nat
    decreases pending.len(),
{
    if pending.len() == 0 {
        0
    } else {
        (match load(pending[0]) {
            Some(entries) => listings(entries, file),
            None => 0,
        }) + readable_listings(pending.skip(1), load, file)
    }
}

/// Whether no spec came up twice, each that something is collected for has come up, and nothing
/// but live entries is collected or was.
spec fn well_read(v: ReadView) -> bool {
    &&& v.buffers.order.no_duplicates()
    &&& specs_in_order(v.buffers)
    &&& forall|id: i32| all_alive(#[trigger] buffered(v.buffers, id))
    &&& forall|k: int| 0 <= k < v.full.len() ==> all_alive((#[trigger] v.full[k]).entries)
}

/// How often what was read lists the file `file` live.
spec fn read_listings(v: ReadView, file: Arc<DataFile>) -> nat {
    group_listings(flush_entries(v.full), file) + buffered_listings(
        v.buffers,
        v.buffers.order.len(),
        file,
    )
}

proof fn lemma_same_buffers(v: BufferView, w: BufferView, n: nat, file: Arc<DataFile>)
    requires
        n <= v.order.len(),
        n <= w.order.len(),
        forall|i: int|
            0 <= i < n ==> w.order[i] == v.order[i] && buffered(w, v.order[i]) == buffered(
                v,
                #[trigger] v.order[i],
            ),
    ensures
        buffered_listings(w, n, file) == buffered_listings(v, n, file),
    decreases n,
{
    if n > 0 {
        lemma_same_buffers(v, w, (n - 1) as nat, file);
        assert(w.order[n - 1] == v.order[n - 1]);
    }
}

proof fn lemma_one_buffer(v: BufferView, w: BufferView, k: int, n: nat, file: Arc<DataFile>)
    requires
        w.order == v.order,
        v.order.no_duplicates(),
        0 <= k < n <= v.order.len(),
        forall|id: i32| id != v.order[k] ==> #[trigger] buffered(w, id) == buffered(v, id),
    ensures
        buffered_listings(w, n, file) + listings(buffered(v, v.order[k]), file)
            == buffered_listings(v, n, file) + listings(buffered(w, v.order[k]), file),
    decreases n,
{
    if k == n - 1 {
        assert forall|i: int| 0 <= i < n - 1 implies w.order[i] == v.order[i] && buffered(
            w,
            v.order[i],
        ) == buffered(v, #[trigger] v.order[i]) by {
            assert(v.order[i] != v.order[k]);
        }
        lemma_same_buffers(v, w, (n - 1) as nat, file);
    } else {
        lemma_one_buffer(v, w, k, (n - 1) as nat, file);
        assert(v.order[n - 1] != v.order[k]);
        assert(buffered(w, v.order[n - 1]) == buffered(v, v.order[n - 1]));
    }
}

/// What was read once the live entry `e` is.
spec fn read_entry(v: ReadView, e: ManifestEntry, limit: Option<usize>) -> ReadView {
    let id = e.data_file.partition_spec_id;
    let b = buffered(v.buffers, id).push(e);
    ReadView {
        buffers: collected(v.buffers, e, limit),
        full: if fills(b.len(), limit) {
            v.full.push(FlushView { spec_id: id, entries: b })
        } else {
            v.full
        },
    }
}

proof fn lemma_read_entry(
    v: ReadView,
    e: ManifestEntry,
    limit: Option<usize>,
    file: Arc<DataFile>,
)
    requires
        well_read(v),
        e.alive(),
    ensures
        well_read(read_entry(v, e, limit)),
        read_listings(read_entry(v, e, limit), file) == read_listings(v, file) + (if e.data_file
            == file {
            1nat
        } else {
            0
        }),
{
    let id = e.data_file.partition_spec_id;
    let old_b = buffered(v.buffers, id);
    let b = old_b.push(e);
    let after = read_entry(v, e, limit);
    let w = after.buffers;
    let order = v.buffers.order;
    assert(all_alive(old_b));
    assert(all_alive(b));
    assert forall|other: i32| all_alive(#[trigger] buffered(w, other)) by {
        assert(all_alive(buffered(v.buffers, other)));
    }
    // The same entries, under an order that has the spec.
    let mid = BufferView { order: w.order, buffers: v.buffers.buffers };
    assert forall|other: i32| #[trigger] buffered(mid, other) == buffered(v.buffers, other) by {}
    if !order.contains(id) {
        assert(old_b.len() == 0);
        assert(w.order.last() == id);
        lemma_same_buffers(v.buffers, mid, order.len(), file);
        assert(buffered_listings(mid, w.order.len(), file) == buffered_listings(
            mid,
            order.len(),
            file,
        ));
    } else {
        lemma_same_buffers(v.buffers, mid, order.len(), file);
    }
    assert(w.order.contains(id)) by {
        if !order.contains(id) {
            assert(w.order[order.len() as int] == id);
        }
    }
    let k = choose|k: int| 0 <= k < w.order.len() && w.order[k] == id;
    assert forall|other: i32| other != id implies #[trigger] buffered(w, other) == buffered(
        mid,
        other,
    ) by {}
    lemma_one_buffer(mid, w, k, w.order.len(), file);
    lemma_listings_push(old_b, e, file);
    assert forall|other: i32| (#[trigger] buffered(w, other)).len() > 0 implies w.order.contains(
        other,
    ) by {
        if other != id {
            assert(buffered(v.buffers, other).len() > 0);
            let i = choose|i: int| 0 <= i < order.len() && order[i] == other;
            assert(w.order[i] == other);
        }
    }
    if fills(b.len(), limit) {
        let f = FlushView { spec_id: id, entries: b };
        assert(flush_entries(v.full.push(f)) =~= flush_entries(v.full).push(b));
        lemma_group_listings_push(flush_entries(v.full), b, file);
        assert(buffered(w, id).len() == 0);
    } else {
        assert(buffered(w, id) == b);
    }
}

proof fn lemma_read_entries(
    v: ReadView,
    entries: Seq<ManifestEntry>,
    limit: Option<usize>,
    n: nat,
    file: Arc<DataFile>,
)
    requires
        well_read(v),
        n <= entries.len(),
    ensures
        ({
            let after = ReadView {
                buffers: collected_all(v.buffers, entries, limit, n),
                full: v.full + filled(v.buffers, entries, limit, n),
            };
            &&& well_read(after)
            &&& read_listings(after, file) == read_listings(v, file) + listings(
                entries.take(n as int),
                file,
            )
        }),
    decreases n,
{
    let full = filled(v.buffers, entries, limit, n);
    if n == 0 {
        assert(v.full + full =~= v.full);
        assert(entries.take(0) =~= Seq::<ManifestEntry>::empty());
    } else {
        let e = entries[n - 1];
        let m = (n - 1) as nat;
        let before = ReadView {
            buffers: collected_all(v.buffers, entries, limit, m),
            full: v.full + filled(v.buffers, entries, limit, m),
        };
        lemma_read_entries(v, entries, limit, m, file);
        assert(entries.take(n as int).drop_last() =~= entries.take(n - 1));
        if e.alive() {
            lemma_read_entry(before, e, limit, file);
            assert(read_entry(before, e, limit).full =~= v.full + full);
        }
    }
}

proof fn lemma_read_all(
    v: ReadView,
    pending: Seq<ManifestFile>,
    load: spec_fn(ManifestFile) -> Option<Seq<ManifestEntry>>,
    limit: Option<usize>,
    file: Arc<DataFile>,
)
    requires
        well_read(v),
    ensures
        well_read(read_all(v, pending, load, limit)),
        read_listings(read_all(v, pending, load, limit), file) == read_listings(v, file)
            + readable_listings(pending, load, file),
    decreases pending.len(),
{
    if pending.len() > 0 {
        if let Some(entries) = load(pending[0]) {
            lemma_read_entries(v, entries, limit, entries.len(), file);
            assert(entries.take(entries.len() as int) =~= entries);
        }
        lemma_read_all(
            read_one(v, load(pending[0]), limit),
            pending.skip(1),
            load,
            limit,
            file,
        );
    }
}

proof fn lemma_chunks_list_alike(s: Seq<ManifestEntry>, n: int, file: Arc<DataFile>)
    requires
        n > 0,
        all_alive(s),
    ensures
        group_listings(chunks(s, n), file) == listings(s, file),
        forall|k: int| 0 <= k < chunks(s, n).len() ==> all_alive(#[trigger] chunks(s, n)[k]),
    decreases s.len(),
{
    if s.len() == 0 {
    } else if s.len() <= n {
        lemma_group_listings_push(Seq::empty(), s, file);
        assert(Seq::<Seq<ManifestEntry>>::empty().push(s) =~= seq![s]);
    } else {
        let head = s.take(n);
        let tail = s.skip(n);
        lemma_chunks_list_alike(tail, n, file);
        lemma_group_listings_add(seq![head], chunks(tail, n), file);
        lemma_group_listings_push(Seq::empty(), head, file);
        assert(Seq::<Seq<ManifestEntry>>::empty().push(head) =~= seq![head]);
        assert(head + tail =~= s);
        lemma_listings_add(head, tail, file);
        assert forall|k: int| 0 <= k < chunks(s, n).len() implies all_alive(
            #[trigger] chunks(s, n)[k],
        ) by {
            if k == 0 {
                assert(chunks(s, n)[0] == head);
            } else {
                assert(chunks(s, n)[k] == chunks(tail, n)[k - 1]);
            }
        }
    }
}

proof fn lemma_left_over_lists_alike(v: BufferView, target: int, n: nat, file: Arc<DataFile>)
    requires
        n <= v.order.len(),
        target > 0 || buffered_total(v, v.order.len()) == 0,
        forall|id: i32| all_alive(#[trigger] buffered(v, id)),
    ensures
        group_listings(flush_entries(left_over(v, target, n)), file) == buffered_listings(
            v,
            n,
            file,
        ),
        forall|k: int|
            0 <= k < left_over(v, target, n).len() ==> all_alive(
                (#[trigger] left_over(v, target, n)[k]).entries,
            ),
    decreases n,
{
    if n == 0 {
        assert(flush_entries(left_over(v, target, 0)) =~= Seq::<Seq<ManifestEntry>>::empty());
    } else {
        let m = (n - 1) as nat;
        let id = v.order[n - 1];
        let b = buffered(v, id);
        let before = left_over(v, target, m);
        let more = cut(id, b, target);
        lemma_left_over_lists_alike(v, target, m, file);
        assert(all_alive(b));
        if target > 0 {
            lemma_chunks_list_alike(b, target, file);
        } else {
            lemma_total_grows(v, n, v.order.len());
            assert(b.len() == 0);
        }
        assert(flush_entries(more) =~= chunks(b, target));
        assert(flush_entries(before + more) =~= flush_entries(before) + flush_entries(more));
        lemma_group_listings_add(flush_entries(before), flush_entries(more), file);
        assert forall|k: int| 0 <= k < left_over(v, target, n).len() implies all_alive(
            (#[trigger] left_over(v, target, n)[k]).entries,
        ) by {
            if k >= before.len() {
                assert(left_over(v, target, n)[k].entries == chunks(b, target)[k - before.len()]);
            } else {
                assert(left_over(v, target, n)[k] == before[k]);
            }
        }
    }
}

proof fn lemma_flushes_list_alike(
    ws: Seq<ManifestFlush>,
    fs: Seq<FlushView>,
    table: TableMetadata,
    commit_id: u128,
    first: int,
    n: int,
    file: Arc<DataFile>,
)
    requires
        flushes_all(ws, fs, table, commit_id, first),
        forall|k: int| 0 <= k < fs.len() ==> all_alive((#[trigger] fs[k]).entries),
        0 <= n <= ws.len(),
    ensures
        group_listings(written_entries(ws).take(n), file) == group_listings(
            flush_entries(fs).take(n),
            file,
        ),
    decreases n,
{
    let written = written_entries(ws);
    let asked = flush_entries(fs);
    if n == 0 {
        assert(written.take(0) =~= asked.take(0));
    } else {
        lemma_flushes_list_alike(ws, fs, table, commit_id, first, n - 1, file);
        assert(written.take(n).drop_last() =~= written.take(n - 1));
        assert(asked.take(n).drop_last() =~= asked.take(n - 1));
        assert(flushes(ws[n - 1], fs[n - 1], table, commit_id, first + n - 1));
        assert(all_alive(fs[n - 1].entries));
        lemma_restamped_list_alike(fs[n - 1].entries, file);
    }
}

/// The entries of each of the manifests `ws`.
pub open spec fn written_entries(ws: Seq<ManifestFlush>) -> Seq<Seq<ManifestEntry>> {
    ws.map_values(|w: ManifestFlush| w.entries@)
}

/// A whole rewrite lists every file exactly as often as before: in the manifests `ws` that it
/// writes, from the first that was full to the last that holds what is left over, each file is live
/// as often as in the data manifests of `list`, of those that can be read.
pub proof fn law_rewrite_keeps_every_file(
    list: Seq<ManifestFile>,
    load: spec_fn(ManifestFile) -> Option<Seq<ManifestEntry>>,
    limit: Option<usize>,
    target: int,
    ws: Seq<ManifestFlush>,
    table: TableMetadata,
    commit_id: u128,
    file: Arc<DataFile>,
)
    requires
        ({
            let data = of_content(list, ManifestContentType::Data);
            let end = read_all(nothing_read(), data, load, limit);
            &&& target > 0 || buffered_total(end.buffers, end.buffers.order.len()) == 0
            &&& flushes_all(ws, all_flushes(end, target), table, commit_id, 0)
        }),
    ensures
        group_listings(written_entries(ws), file) == readable_listings(
            of_content(list, ManifestContentType::Data),
            load,
            file,
        ),
{
    let data = of_content(list, ManifestContentType::Data);
    let start = nothing_read();
    let end = read_all(start, data, load, limit);
    let fs = all_flushes(end, target);
    let rest = left_over(end.buffers, target, end.buffers.order.len());
    assert forall|id: i32| all_alive(#[trigger] buffered(start.buffers, id)) by {}
    assert(flush_entries(start.full) =~= Seq::<Seq<ManifestEntry>>::empty());
    lemma_read_all(start, data, load, limit, file);
    lemma_left_over_lists_alike(end.buffers, target, end.buffers.order.len(), file);
    assert(flush_entries(fs) =~= flush_entries(end.full) + flush_entries(rest));
    lemma_group_listings_add(flush_entries(end.full), flush_entries(rest), file);
    assert forall|k: int| 0 <= k < fs.len() implies all_alive((#[trigger] fs[k]).entries) by {
        if k < end.full.len() {
            assert(fs[k] == end.full[k]);
        } else {
            assert(fs[k] == rest[k - end.full.len()]);
        }
    }
    lemma_flushes_list_alike(ws, fs, table, commit_id, 0, ws.len() as int, file);
    assert(written_entries(ws).take(ws.len() as int) =~= written_entries(ws));
    assert(flush_entries(fs).take(ws.len() as int) =~= flush_entries(fs));
}

/// The manifests that are handed out step by step are those of the whole rewrite, numbered as one.
pub proof fn law_steps_make_one_rewrite(
    a: Seq<ManifestFlush>,
    fs: Seq<FlushView>,
    b: Seq<ManifestFlush>,
    more: Seq<FlushView>,
    table: TableMetadata,
    commit_id: u128,
    first: int,
)
    requires
        flushes_all(a, fs, table, commit_id, first),
        flushes_all(b, more, table, commit_id, first + fs.len()),
    ensures
        flushes_all(a + b, fs + more, table, commit_id, first),
{
    let all = a + b;
    assert forall|i: int| 0 <= i < all.len() implies flushes(
        #[trigger] all[i],
        (fs + more)[i],
        table,
        commit_id,
        first + i,
    ) by {
        if i < a.len() {
            assert(all[i] == a[i]);
        } else {
            assert(all[i] == b[i - a.len()]);
        }
    }
}

/// What came since a rewrite began are the manifests whose paths were not there then, in their
/// order.
pub proof fn law_only_new_paths_came_since(fresh: Seq<Arc<ManifestFile>>, starting: Set<Seq<char>>) -> (places:
    Seq<int>)
    ensures
        stands_at(since_start(fresh, starting), fresh, places),
        forall|i: int|
            0 <= i < fresh.len() ==> (places.contains(i) <==> !starting.contains(
                (#[trigger] fresh[i]).manifest_path@,
            )),
{
    let keep = |mf: Arc<ManifestFile>| !starting.contains(mf.manifest_path@);
    lemma_filter_places(fresh, keep)
}

/// An attempt lists what the rewrite wrote, what came since it began, and the delete manifests that
/// were there, and nothing else: no manifest that the rewrite replaced is listed again.
pub proof fn law_attempt_lists_nothing_else(
    w: Rewritten,
    r: RewriteAttempt,
    table: TableMetadata,
    fresh: Seq<ManifestFile>,
    attempt: u32,
    timestamp_ms: i64,
    k: int,
)
    requires
        w.attempted(r, table, fresh, attempt, timestamp_ms),
        0 <= k < r.manifests@.len(),
    ensures
        ({
            let mf = r.manifests@[k];
            ||| w.compacted@.contains(mf)
            ||| w.deletes@.contains(mf)
            ||| !w.start.paths@.contains(mf.manifest_path@) && fresh.contains(*mf)
        }),
        forall|i: int| 0 <= i < w.compacted@.len() ==> r.manifests@[i] == #[trigger] w.compacted@[i],
        forall|i: int|
            0 <= i < w.deletes@.len() ==> r.manifests@.contains(#[trigger] w.deletes@[i]),
{
    let all = shared_manifests(fresh);
    let since = since_start(all, w.start.paths@);
    let places = law_only_new_paths_came_since(all, w.start.paths@);
    let mf = r.manifests@[k];
    let a = w.compacted@.len();
    let b = since.len();
    if k < a {
        assert(w.compacted@[k] == mf);
    } else if k < a + b {
        let n = k - a;
        assert(since[n] == mf);
        assert(places.contains(places[n]));
        assert(all[places[n]] == mf);
        assert(fresh[places[n]] == *mf);
    } else {
        assert(w.deletes@[k - a - b] == mf);
    }
    assert forall|i: int| 0 <= i < w.deletes@.len() implies r.manifests@.contains(
        #[trigger] w.deletes@[i],
    ) by {
        assert(r.manifests@[a + b + i] == w.deletes@[i]);
    }
}

/// A rewrite that is committed at once lists what it wrote and the delete manifests that were
/// there.
pub proof fn law_commit_at_once_lists_nothing_else(
    w: Rewritten,
    r: RewriteAttempt,
    table: TableMetadata,
    timestamp_ms: i64,
    k: int,
)
    requires
        w.committed_at_once(r, table, timestamp_ms),
    ensures
        r.manifests@.len() == w.compacted@.len() + w.deletes@.len(),
        0 <= k < w.compacted@.len() ==> r.manifests@[k] == w.compacted@[k],
        0 <= k < w.deletes@.len() ==> r.manifests@[w.compacted@.len() + k] == w.deletes@[k],
{
}

/// A manifest that cannot be read adds nothing to a rewrite, and one that can adds just its live
/// entries.
pub proof fn law_unread_manifests_add_nothing(
    v: ReadView,
    entries: Option<Seq<ManifestEntry>>,
    limit: Option<usize>,
)
    ensures
        entries is None ==> read_one(v, entries, limit) == v,
        entries is Some && (forall|i: int|
            0 <= i < entries->0.len() ==> (#[trigger] entries->0[i]).status is Deleted)
            ==> read_one(v, entries, limit) == v,
{
    if entries is Some && (forall|i: int|
        0 <= i < entries->0.len() ==> (#[trigger] entries->0[i]).status is Deleted) {
        lemma_dead_entries_add_nothing(v.buffers, entries->0, limit, entries->0.len());
        assert(v.full + Seq::<FlushView>::empty() =~= v.full);
    }
}

proof fn lemma_dead_entries_add_nothing(
    v: BufferView,
    entries: Seq<ManifestEntry>,
    limit: Option<usize>,
    n: nat,
)
    requires
        n <= entries.len(),
        forall|i: int| 0 <= i < entries.len() ==> (#[trigger] entries[i]).status is Deleted,
    ensures
        collected_all(v, entries, limit, n) == v,
        filled(v, entries, limit, n) == Seq::<FlushView>::empty(),
    decreases n,
{
    if n > 0 {
        lemma_dead_entries_add_nothing(v, entries, limit, (n - 1) as nat);
        assert(entries[n - 1].status is Deleted);
    }
}

/// A rewrite remembers the list that it started from: how many manifests it had, how many of them
/// were data manifests, and their paths.
pub proof fn law_start_remembers_the_list(
    start: RewriteStart,
    list: Seq<ManifestFile>,
    path: Seq<char>,
)
    requires
        start.is_of(list),
    ensures
        start.manifests == list.len(),
        start.data_manifests == list.filter(
            |mf: ManifestFile| mf.content == ManifestContentType::Data,
        ).len(),
        start.paths@.contains(path) <==> exists|i: int|
            0 <= i < list.len() && (#[trigger] list[i]).manifest_path@ == path,
{
    let paths = leaf_paths(list);
    if paths.contains(path) {
        let i = choose|i: int| 0 <= i < paths.len() && paths[i] == path;
        assert(list[i].manifest_path@ == path);
    }
    if exists|i: int| 0 <= i < list.len() && (#[trigger] list[i]).manifest_path@ == path {
        let i = choose|i: int| 0 <= i < list.len() && (#[trigger] list[i]).manifest_path@ == path;
        assert(paths[i] == path);
    }
}

/// A rewrite reads the manifests one by one, from left to right, and each of them.
pub proof fn law_rewrite_reads_each_manifest_once(
    v: ReadView,
    mf: ManifestFile,
    rest: Seq<ManifestFile>,
    load: spec_fn(ManifestFile) -> Option<Seq<ManifestEntry>>,
    limit: Option<usize>,
)
    ensures
        read_all(v, Seq::empty(), load, limit) == v,
        read_all(v, seq![mf] + rest, load, limit) == read_all(
            read_one(v, load(mf), limit),
            rest,
            load,
            limit,
        ),
        nothing_read().full.len() == 0,
        nothing_read().buffers.order.len() == 0,
        forall|id: i32| (#[trigger] buffered(nothing_read().buffers, id)).len() == 0,
{
    assert((seq![mf] + rest).skip(1) =~= rest);
}

/// A rewrite is committed with its manifest list: the snapshot names the list, which stands at the
/// path of the snapshot and the commit, adds no rows, and leaves no manifest to be cleaned up.
pub proof fn law_rewrite_commits_its_list(
    w: Rewritten,
    r: RewriteAttempt,
    table: TableMetadata,
    fresh: Seq<ManifestFile>,
    attempt: u32,
    timestamp_ms: i64,
)
    requires
        w.attempted(r, table, fresh, attempt, timestamp_ms) || w.committed_at_once(
            r,
            table,
            timestamp_ms,
        ),
    ensures
        r.manifest_list@ == manifest_list_path(table.location@, w.snapshot_id, w.commit_id),
        r.commit.updates()[0] matches TableUpdate::AddSnapshot { snapshot } && {
            &&& snapshot.manifest_list@ == r.manifest_list@
            &&& snapshot.snapshot_id == w.snapshot_id
            &&& snapshot.timestamp_ms == timestamp_ms
            &&& snapshot.parent_snapshot_id == table.current_snapshot_id
            &&& snapshot.row_range is None
            &&& snapshot.summary.operation is Replace
        },
        r.commit.manifest_paths().len() == 0,
        r.commit.root_entries() is None,
{
}

/// The summary of an attempt counts what the rewrite started from, what it wrote, and what came
/// since.
pub proof fn law_attempt_counts_what_came(
    w: Rewritten,
    r: RewriteAttempt,
    table: TableMetadata,
    fresh: Seq<ManifestFile>,
    attempt: u32,
    timestamp_ms: i64,
)
    requires
        w.attempted(r, table, fresh, attempt, timestamp_ms),
    ensures
        r.commit.updates()[0] matches TableUpdate::AddSnapshot { snapshot } && {
            let m = snapshot.summary.additional_properties@;
            &&& m["rewritten-data-manifests-count"@] == decimal(w.start.data_manifests as nat)
            &&& w.compacted@.len() <= usize::MAX ==> m["new-data-manifests-count"@] == decimal(
                w.compacted@.len(),
            )
            &&& fresh.len() <= usize::MAX && fresh.len() >= w.start.manifests
                ==> m["new-manifests-since-rewrite"@] == decimal(
                (fresh.len() - w.start.manifests) as nat,
            )
            &&& m["attempt"@] == decimal(attempt as nat)
        },
{
    law_rewrite_summary_says_what_was_done(
        RewriteCounts {
            data_manifests: w.start.data_manifests,
            new_manifests: w.compacted@.len() as usize,
            starting_manifests: w.start.manifests,
            fresh_manifests: fresh.len() as usize,
            attempt,
        },
    );
}

} // verus!
