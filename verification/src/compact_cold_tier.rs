//! Compacting the cold tier: replacing data files that were merged away by the files they were
//! merged into, within the leaves of the bucket index.

use std::collections::VecDeque;
use std::sync::Arc;

use vstd::prelude::*;
use vstd::string::StringExecFns;

use crate::action::TransactionAction;
use crate::cluster::{
    law_clustering_keeps_every_entry, law_written_manifests_hold_the_entries,
    write_entries_clustered, writes_entries, written, ManifestWrite, WriteSetting,
};
use crate::commit::{
    bucket_index_path, bucket_index_path_of, describe_root, describes, is_root_commit,
    needs_v4_message, require_v4, root_commit, writes_delta, writes_delta_root, Attempt, RootCommit,
};
use crate::error::{Error, ErrorKind};
use crate::manifest::{
    all_pinned, carried, existing_entry, pins, share, shared, DataFile, FormatVersion, ManifestEntry,
    ManifestFile, RootManifestEntry, RootManifestMetadata,
};
use crate::outside::{fresh_id, is_time_ordered, now_millis};
use crate::partition::{bound_bytes, bound_bytes_of, FieldKind, Literal, Struct, StructType};
use crate::path_set::{PathSet, Properties};
use crate::seqs::{
    lemma_filter_from, lemma_filter_places, lemma_filter_push, lemma_take_push, stands_at,
};
use crate::table::{copy_text, copy_texts, same_optional_text, text_view, TableMetadata};
use crate::text::{decimal, decimal_of, same_bytes, same_ignoring_case, texts};

verus! {

/// Why a leaf has to be read, or need not be.
#[derive(Clone, Copy, Debug, PartialEq, Eq, Structural)]
pub enum LeafKeepReason {
    /// The leaf is pinned to a partition that may be one of those asked for.
    Matched,
    /// The summary does not pin the leaf to one partition, so nothing rules it out.
    Unprunable,
    /// The leaf is pinned to a partition that is none of those asked for.
    Pruned,
}

/// Whether a leaf's summary pins it to one partition: it has a summary of the spec's arity whose
/// bounds are there and equal in every field.
pub open spec fn tight(leaf: ManifestFile, partition_type: StructType) -> bool {
    leaf.summary() matches Some(summary) && summary.len() == partition_type.fields@.len()
        && all_pinned(summary)
}

/// The bytes that stand for the field `i` of a partition tuple in a summary, where the value is
/// primitive, of a primitive field, and has such bytes.
pub open spec fn field_bytes(target: Struct, partition_type: StructType, i: int) -> Option<Seq<u8>> {
    match target.fields@[i] {
        Some(Literal::Primitive(p)) => if partition_type.fields@[i] == FieldKind::Primitive {
            bound_bytes(p)
        } else {
            None
        },
        _ => None,
    }
}

/// Whether a tight leaf provably holds no file of the partition `target`: some field has another
/// value, and no field ahead of it is beyond comparison.
pub open spec fn ruled_out(leaf: ManifestFile, target: Struct, partition_type: StructType) -> bool {
    &&& target.fields@.len() == partition_type.fields@.len()
    &&& exists|i: int|
        0 <= i < target.fields@.len() && differs_at(leaf, target, partition_type, i)
}

/// Whether the field `i` of a tight leaf has another value than `target`, all fields up to it
/// being comparable.
pub open spec fn differs_at(leaf: ManifestFile, target: Struct, partition_type: StructType, i: int) -> bool {
    &&& forall|j: int| 0 <= j <= i ==> (#[trigger] field_bytes(target, partition_type, j)) is Some
    &&& field_bytes(target, partition_type, i) != Some(pins(leaf.summary()->0)[i])
}

/// The tuples behind references.
pub open spec fn behind(targets: Seq<&Struct>) -> Seq<Struct> {
    targets.map_values(|t: &Struct| *t)
}

/// Why a leaf has to be read for `targets`, or need not be.
pub open spec fn keep_reason(leaf: ManifestFile, targets: Seq<Struct>, partition_type: StructType) -> LeafKeepReason {
    if targets.len() == 0 || !tight(leaf, partition_type) {
        LeafKeepReason::Unprunable
    } else if forall|k: int|
        0 <= k < targets.len() ==> ruled_out(leaf, #[trigger] targets[k], partition_type) {
        LeafKeepReason::Pruned
    } else {
        LeafKeepReason::Matched
    }
}

/// Whether a leaf's summary pins it to one partition.
pub fn leaf_is_tight(leaf: &ManifestFile, partition_type: &StructType) -> (r: bool)
    ensures
        r == tight(*leaf, *partition_type),
{
    match &leaf.partitions {
        None => false,
        Some(summary) => {
            if summary.len() != partition_type.fields.len() {
                return false;
            }
            let mut i: usize = 0;
            while i < summary.len()
                invariant
                    i <= summary@.len(),
                    leaf.summary() == Some(summary@),
                    forall|k: int| 0 <= k < i ==> (#[trigger] summary@[k]).pinned_spec() is Some,
                decreases summary@.len() - i,
            {
                if summary[i].pinned().is_none() {
                    return false;
                }
                i = i + 1;
            }
            true
        },
    }
}

/// Whether a tight leaf provably holds no file of the partition `target`.
fn is_ruled_out(leaf: &ManifestFile, target: &Struct, partition_type: &StructType) -> (r: bool)
    requires
        tight(*leaf, *partition_type),
    ensures
        r == ruled_out(*leaf, *target, *partition_type),
{
    if target.fields.len() != partition_type.fields.len() {
        return false;
    }
    match &leaf.partitions {
        None => false,
        Some(summary) => {
            let mut i: usize = 0;
            while i < target.fields.len()
                invariant
                    i <= target.fields@.len(),
                    target.fields@.len() == partition_type.fields@.len(),
                    summary@.len() == partition_type.fields@.len(),
                    leaf.summary() == Some(summary@),
                    all_pinned(summary@),
                    forall|j: int|
                        0 <= j < i ==> #[trigger] field_bytes(*target, *partition_type, j) == Some(
                            pins(summary@)[j],
                        ),
                decreases target.fields@.len() - i,
            {
                let encoded: Option<Vec<u8>> = match &target.fields[i] {
                    Some(Literal::Primitive(p)) => if partition_type.fields[i]
                        == FieldKind::Primitive {
                        bound_bytes_of(p)
                    } else {
                        None
                    },
                    _ => None,
                };
                assert(pins(summary@)[i as int] == summary@[i as int].pinned_spec()->0);
                match (encoded, summary[i].pinned()) {
                    (Some(bytes), Some(pin)) => {
                        assert(field_bytes(*target, *partition_type, i as int) == Some(bytes@));
                        if !same_bytes(&bytes, pin) {
                            assert(differs_at(*leaf, *target, *partition_type, i as int));
                            return true;
                        }
                    },
                    _ => {
                        assert(summary@[i as int].pinned_spec() is Some);
                        assert(field_bytes(*target, *partition_type, i as int) is None);
                        assert forall|k: int| 0 <= k < target.fields@.len() implies !differs_at(
                            *leaf,
                            *target,
                            *partition_type,
                            k,
                        ) by {
                            if k >= i {
                                assert(field_bytes(*target, *partition_type, i as int) is None);
                            }
                        }
                        return false;
                    },
                }
                i = i + 1;
            }
            false
        },
    }
}

/// Why a leaf has to be read for the partitions `targets`, or need not be. Decided by its summary
/// alone; every doubt is a reason to read it.
pub fn leaf_keep_reason(leaf: &ManifestFile, targets: &[&Struct], partition_type: &StructType) -> (r:
    LeafKeepReason)
    ensures
        r == keep_reason(*leaf, behind(targets@), *partition_type),
{
    if targets.len() == 0 || !leaf_is_tight(leaf, partition_type) {
        return LeafKeepReason::Unprunable;
    }
    let mut k: usize = 0;
    while k < targets.len()
        invariant
            k <= targets@.len(),
            targets@.len() > 0,
            tight(*leaf, *partition_type),
            forall|j: int|
                0 <= j < k ==> ruled_out(*leaf, #[trigger] behind(targets@)[j], *partition_type),
        decreases targets@.len() - k,
    {
        assert(behind(targets@)[k as int] == *targets@[k as int]);
        if !is_ruled_out(leaf, targets[k], partition_type) {
            return LeafKeepReason::Matched;
        }
        k = k + 1;
    }
    LeafKeepReason::Pruned
}

/// Whether a leaf may hold a file of one of the partitions `targets`.
pub fn leaf_may_hold_partitions(
    leaf: &ManifestFile,
    targets: &[&Struct],
    partition_type: &StructType,
) -> (r: bool)
    ensures
        r == (keep_reason(*leaf, behind(targets@), *partition_type) != LeafKeepReason::Pruned),
{
    leaf_keep_reason(leaf, targets, partition_type) != LeafKeepReason::Pruned
}

/// A leaf whose summary pins it to the partition of a target, by the bytes that stand for the
/// target's values, is never pruned: pruning loses no file of a partition asked for.
pub proof fn law_prune_is_sound(
    leaf: ManifestFile,
    targets: Seq<Struct>,
    partition_type: StructType,
    k: int,
)
    requires
        0 <= k < targets.len(),
        tight(leaf, partition_type) ==> forall|i: int|
            0 <= i < partition_type.fields@.len() ==> (#[trigger] field_bytes(
                targets[k],
                partition_type,
                i,
            ) matches Some(b) ==> b == pins(leaf.summary()->0)[i]),
    ensures
        keep_reason(leaf, targets, partition_type) != LeafKeepReason::Pruned,
{
    if keep_reason(leaf, targets, partition_type) == LeafKeepReason::Pruned {
        assert(ruled_out(leaf, targets[k], partition_type));
        let i = choose|i: int|
            0 <= i < targets[k].fields@.len() && differs_at(leaf, targets[k], partition_type, i);
        assert(field_bytes(targets[k], partition_type, i) is Some);
    }
}

/// Only a tight leaf is ever pruned or matched; tightness does not depend on what is asked for.
pub proof fn law_only_tight_leaves_are_decided(
    leaf: ManifestFile,
    targets: Seq<Struct>,
    partition_type: StructType,
)
    ensures
        keep_reason(leaf, targets, partition_type) == LeafKeepReason::Unprunable <==> (
        targets.len() == 0 || !tight(leaf, partition_type)),
{
}

/// The files of `files` whose paths are not in `removed`.
pub open spec fn without(files: Seq<Arc<DataFile>>, removed: Set<Seq<char>>) -> Seq<Arc<DataFile>> {
    files.filter(|f: Arc<DataFile>| !removed.contains(f.file_path@))
}

/// Whether a path of `files` is in `removed`.
pub open spec fn any_removed(files: Seq<Arc<DataFile>>, removed: Set<Seq<char>>) -> bool {
    exists|i: int| 0 <= i < files.len() && removed.contains((#[trigger] files[i]).file_path@)
}

/// The files of a leaf that remain when those in `removed` go, and whether any goes.
pub fn apply_removals(files: Vec<Arc<DataFile>>, removed: &PathSet) -> (r: (Vec<Arc<DataFile>>, bool))
    ensures
        r.0@ == without(files@, removed@),
        r.1 == any_removed(files@, removed@),
{
    let ghost all = files@;
    let ghost keep = |f: Arc<DataFile>| !removed@.contains(f.file_path@);
    let mut survivors: Vec<Arc<DataFile>> = Vec::with_capacity(files.len());
    let mut affected = false;
    for f in iter: files
        invariant
            iter.seq() == all,
            keep == (|f: Arc<DataFile>| !removed@.contains(f.file_path@)),
            survivors@ == all.take(iter.index() as int).filter(keep),
            affected == any_removed(all.take(iter.index() as int), removed@),
    {
        proof {
            let head = all.take(iter.index() as int);
            lemma_take_push(all, iter.index() as int);
            lemma_filter_push(head, f, keep);
            let more = head.push(f);
            assert(more[head.len() as int] == f);
            assert(forall|i: int| 0 <= i < head.len() ==> more[i] == head[i]);
            if any_removed(head, removed@) {
                let i = choose|i: int| 0 <= i < head.len() && removed@.contains(head[i].file_path@);
                assert(more[i] == head[i]);
            }
        }
        if removed.contains(f.file_path.as_str()) {
            affected = true;
        } else {
            survivors.push(f);
        }
    }
    assert(all.take(all.len() as int) =~= all);
    (survivors, affected)
}

/// The files of a manifest that are live and not in `tombstoned`.
pub open spec fn live_files(entries: Seq<ManifestEntry>, tombstoned: Set<Seq<char>>) -> Seq<
    Arc<DataFile>,
>
    decreases entries.len(),
{
    if entries.len() == 0 {
        Seq::empty()
    } else if entries.last().kept_by(tombstoned) {
        live_files(entries.drop_last(), tombstoned).push(entries.last().data_file)
    } else {
        live_files(entries.drop_last(), tombstoned)
    }
}

fn live_files_of(entries: &[ManifestEntry], tombstoned: &PathSet) -> (r: Vec<Arc<DataFile>>)
    ensures
        r@ == live_files(entries@, tombstoned@),
{
    let mut r: Vec<Arc<DataFile>> = Vec::new();
    let mut i: usize = 0;
    while i < entries.len()
        invariant
            i <= entries@.len(),
            r@ == live_files(entries@.take(i as int), tombstoned@),
        decreases entries@.len() - i,
    {
        proof {
            lemma_take_push(entries@, i as int);
            assert(entries@.take(i + 1).drop_last() =~= entries@.take(i as int));
        }
        if entries[i].is_alive_and_kept(tombstoned) {
            r.push(entries[i].data_file.clone());
        }
        i = i + 1;
    }
    assert(entries@.take(i as int) =~= entries@);
    r
}

/// The entries under which `files` are carried over.
pub open spec fn carried_all(files: Seq<Arc<DataFile>>) -> Seq<ManifestEntry> {
    files.map_values(|f: Arc<DataFile>| carried(f))
}

/// What a scan of the cold leaves has found.
pub struct ScanView {
    /// The leaves that stay as they are.
    pub kept: Seq<ManifestFile>,
    /// The entries that remain of the leaves that do not.
    pub survivors: Seq<ManifestEntry>,
    /// Whether any leaf does not.
    pub affected: bool,
}

/// What a scan has found once `leaf` with the entries `entries` is read.
pub open spec fn scanned(
    v: ScanView,
    leaf: ManifestFile,
    entries: Seq<ManifestEntry>,
    tombstoned: Set<Seq<char>>,
    removed: Set<Seq<char>>,
) -> ScanView {
    let files = live_files(entries, tombstoned);
    if any_removed(files, removed) {
        ScanView {
            kept: v.kept,
            survivors: v.survivors + carried_all(without(files, removed)),
            affected: true,
        }
    } else {
        ScanView { kept: v.kept.push(leaf), survivors: v.survivors, affected: v.affected }
    }
}

/// What a scan has found once all of `leaves` are read, `loads` being their entries.
pub open spec fn scanned_all(
    v: ScanView,
    leaves: Seq<ManifestFile>,
    loads: Seq<Seq<ManifestEntry>>,
    tombstoned: Set<Seq<char>>,
    removed: Set<Seq<char>>,
) -> ScanView
    decreases leaves.len(),
{
    if leaves.len() == 0 || loads.len() == 0 {
        v
    } else {
        scanned_all(
            scanned(v, leaves[0], loads[0], tombstoned, removed),
            leaves.skip(1),
            loads.skip(1),
            tombstoned,
            removed,
        )
    }
}

/// The entries of each of `leaves`.
pub open spec fn loads_of(
    leaves: Seq<ManifestFile>,
    load: spec_fn(ManifestFile) -> Seq<ManifestEntry>,
) -> Seq<Seq<ManifestEntry>> {
    leaves.map_values(|l: ManifestFile| load(l))
}

/// A scan of the cold leaves: those that a compaction may touch are read one by one.
pub struct ColdScan {
    pending: VecDeque<ManifestFile>,
    kept: Vec<ManifestFile>,
    survivors: Vec<ManifestEntry>,
    any_affected: bool,
}

impl View for ColdScan {
    type V = ScanView;

    closed spec fn view(&self) -> ScanView {
        ScanView { kept: self.kept@, survivors: self.survivors@, affected: self.any_affected }
    }
}

impl ColdScan {
    /// The leaves still to be read.
    pub closed spec fn pending(&self) -> Seq<ManifestFile> {
        self.pending@
    }

    /// The next leaf to read.
    pub fn next_leaf(&self) -> (r: Option<&ManifestFile>)
        ensures
            match r {
                Some(leaf) => self.pending().len() > 0 && *leaf == self.pending()[0],
                None => self.pending().len() == 0,
            },
    {
        if self.pending.len() == 0 {
            None
        } else {
            Some(&self.pending[0])
        }
    }

    /// The leaf to read at the place `i` among those that are left.
    pub fn leaf(&self, i: usize) -> (r: Option<&ManifestFile>)
        ensures
            match r {
                Some(leaf) => i < self.pending().len() && *leaf == self.pending()[i as int],
                None => i >= self.pending().len(),
            },
    {
        if i < self.pending.len() {
            Some(&self.pending[i])
        } else {
            None
        }
    }

    /// How many entries are left of the leaves that lost a file.
    pub fn survivors_len(&self) -> (r: usize)
        ensures
            r == self@.survivors.len(),
    {
        self.survivors.len()
    }

    /// Takes in the entries of the next leaf: a leaf that lists a removed file is dissolved into
    /// its remaining files, any other stays as it is.
    pub fn add_leaf(&mut self, entries: &[ManifestEntry], tombstoned: &PathSet, removed: &PathSet)
        requires
            old(self).pending().len() > 0,
        ensures
            final(self).pending() == old(self).pending().skip(1),
            final(self)@ == scanned(
                old(self)@,
                old(self).pending()[0],
                entries@,
                tombstoned@,
                removed@,
            ),
            forall|loads: Seq<Seq<ManifestEntry>>|
                loads.len() > 0 && loads[0] == entries@ ==> #[trigger] scanned_all(
                    old(self)@,
                    old(self).pending(),
                    loads,
                    tombstoned@,
                    removed@,
                ) == scanned_all(
                    final(self)@,
                    final(self).pending(),
                    loads.skip(1),
                    tombstoned@,
                    removed@,
                ),
    {
        let ghost before = *self;
        assert(self.pending@.subrange(1, self.pending@.len() as int) =~= self.pending@.skip(1));
        if let Some(leaf) = self.pending.pop_front() {
            let files = live_files_of(entries, tombstoned);
            let (left, affected) = apply_removals(files, removed);
            if affected {
                self.any_affected = true;
                let ghost start = self.survivors@;
                let ghost all = left@;
                assert(start + carried_all(all).take(0) =~= start);
                for f in iter: left
                    invariant
                        iter.seq() == all,
                        self.survivors@ == start + carried_all(all).take(iter.index() as int),
                        self.pending@ == before.pending@.skip(1),
                        self.kept == before.kept,
                        self.any_affected,
                {
                    let ghost file = f;
                    self.survivors.push(existing_entry(f));
                    assert(carried_all(all).take(iter.index() + 1) =~= carried_all(all).take(
                        iter.index() as int,
                    ).push(carried(file)));
                    assert(self.survivors@ =~= start + carried_all(all).take(iter.index() + 1));
                }
                assert(carried_all(all).take(all.len() as int) =~= carried_all(all));
            } else {
                self.kept.push(leaf);
            }
        }
    }
}

/// The leaves of `leaves` for which `reason` is as asked.
pub open spec fn leaves_pruned(
    leaves: Seq<ManifestFile>,
    targets: Seq<Struct>,
    partition_type: StructType,
    pruned: bool,
) -> Seq<ManifestFile> {
    leaves.filter(
        |l: ManifestFile|
            (keep_reason(l, targets, partition_type) == LeafKeepReason::Pruned) == pruned,
    )
}

/// The partitions of `files`.
pub open spec fn partitions_of(files: Seq<Arc<DataFile>>) -> Seq<Struct> {
    files.map_values(|f: Arc<DataFile>| f.partition)
}

/// What a compaction has prepared: leaves and a bucket index that were written under names of
/// their own, and stay valid when an attempt at the commit is lost.
pub struct PreparedCompaction {
    /// The new bucket index; none where the cold tier is empty now.
    pub new_bucket_index_path: Option<String>,
    /// The bucket index that the table's root named when this was prepared.
    pub prep_bucket_index_path: Option<String>,
    pub snapshot_id: i64,
    pub root_entries: Arc<Vec<RootManifestEntry>>,
    pub ancestor_removed_paths: Vec<String>,
    pub any_affected: bool,
}

/// The leaves that a compaction writes, beside those that stay as they are.
pub struct ColdRewrite {
    pub kept: Vec<ManifestFile>,
    pub writes: Vec<ManifestWrite>,
    pub any_affected: bool,
}

/// A bucket index to write.
pub struct BucketIndexWrite {
    pub path: String,
    pub metadata: RootManifestMetadata,
    pub leaves: Vec<ManifestFile>,
}

/// Replaces data files that were merged away within the cold tier.
pub struct CompactColdTierAction {
    pub removed: PathSet,
    pub added: Vec<Arc<DataFile>>,
    pub commit_id: u128,
    pub snapshot_id_override: Option<i64>,
}

/// What an attempt at a commit begins with.
#[derive(Clone, Copy, Debug, PartialEq, Eq, Structural)]
pub enum CommitStart {
    /// There is nothing to commit.
    Nothing,
    Proceed,
}

/// What is said where removed paths are in no leaf.
pub open spec fn nothing_matched_message(removed: nat, added: nat) -> Seq<char> {
    "compact_cold_tier: "@ + decimal(removed)
        + " removal path(s) matched no cold-leaf entries — refusing to add "@ + decimal(added)
        + " file(s) alone (would duplicate rows if inputs are still hot)"@
}

/// The summary of a compaction's snapshot.
pub open spec fn compaction_summary(removed: nat, added: nat, leaves_after: nat) -> Map<
    Seq<char>,
    Seq<char>,
> {
    Map::empty().insert("cold-compact-removed"@, decimal(removed)).insert(
        "cold-compact-added"@,
        decimal(added),
    ).insert("cold-compact-leaves-after"@, decimal(leaves_after))
}

/// The leaf count that a compaction's summary gives: a rough one, by what was added and what the
/// root lists.
pub open spec fn leaves_after(prep: PreparedCompaction, added: nat) -> nat {
    if prep.new_bucket_index_path is Some {
        added + prep.root_entries@.len()
    } else {
        0
    }
}

/// Whether something prepared earlier can be used again: the table's root still names the bucket
/// index that it was prepared from, and the next root only adds to the one beneath. A root that
/// stands alone would list entries of old.
pub open spec fn reusable(
    prep_bucket_index: Option<Seq<char>>,
    table: TableMetadata,
    head: RootManifestMetadata,
    max_chain_depth: u32,
) -> bool {
    text_view(head.bucket_index_path) == prep_bucket_index && writes_delta(
        table,
        head.chain_depth,
        max_chain_depth,
    )
}

/// Whether something prepared earlier can be used again.
pub fn can_reuse(
    prep_bucket_index: &Option<String>,
    table: &TableMetadata,
    head: &RootManifestMetadata,
    max_chain_depth: u32,
) -> (r: bool)
    ensures
        r == reusable(text_view(*prep_bucket_index), *table, *head, max_chain_depth),
{
    same_optional_text(&head.bucket_index_path, prep_bucket_index) && writes_delta_root(
        table,
        head.chain_depth,
        max_chain_depth,
    )
}

impl TransactionAction for CompactColdTierAction {
    fn action_name(&self) -> (r: &'static str)
        ensures
            r@ == "compact_cold_tier"@,
    {
        "compact_cold_tier"
    }
}

impl Default for CompactColdTierAction {
    fn default() -> (r: Self)
        ensures
            r.removed@ == Set::<Seq<char>>::empty(),
            r.added@ == Seq::<Arc<DataFile>>::empty(),
            r.snapshot_id_override is None,
            is_time_ordered(r.commit_id),
    {
        CompactColdTierAction::new()
    }
}

impl CompactColdTierAction {
    /// A compaction that removes and adds nothing yet, under a fresh id.
    pub fn new() -> (r: Self)
        ensures
            r.removed@ == Set::<Seq<char>>::empty(),
            r.added@ == Seq::<Arc<DataFile>>::empty(),
            r.snapshot_id_override is None,
            is_time_ordered(r.commit_id),
    {
        CompactColdTierAction {
            removed: PathSet::new(),
            added: Vec::new(),
            commit_id: fresh_id(),
            snapshot_id_override: None,
        }
    }

    /// Also removes the files at `paths`.
    pub fn remove_files(self, paths: Vec<String>) -> (r: Self)
        ensures
            r.removed@ == self.removed@.union(texts(paths@).to_set()),
            r.added == self.added,
            r.commit_id == self.commit_id,
            r.snapshot_id_override == self.snapshot_id_override,
    {
        let mut r = self;
        let ghost start = r.removed@;
        let ghost all = paths@;
        assert(start.union(texts(all).take(0).to_set()) =~= start);
        for path in iter: paths
            invariant
                iter.seq() == all,
                r.removed@ == start.union(texts(all).take(iter.index() as int).to_set()),
                r.added == self.added,
                r.commit_id == self.commit_id,
                r.snapshot_id_override == self.snapshot_id_override,
        {
            let ghost before = r.removed@;
            let ghost p = path@;
            r.removed.insert(path);
            proof {
                let head = texts(all).take(iter.index() as int);
                lemma_take_push(texts(all), iter.index() as int);
                crate::path_set::lemma_push_to_set(head, p);
                assert(start.union(head.push(p).to_set()) =~= before.insert(p));
            }
        }
        assert(texts(all).take(all.len() as int) =~= texts(all));
        r
    }

    /// Also adds `files`, which are written already.
    pub fn add_files(self, files: Vec<DataFile>) -> (r: Self)
        ensures
            r.added@ == self.added@ + shared(files@),
            r.removed == self.removed,
            r.commit_id == self.commit_id,
            r.snapshot_id_override == self.snapshot_id_override,
    {
        let mut r = self;
        let mut more = share(files);
        r.added.append(&mut more);
        r
    }

    /// Gives the new snapshot the id `snapshot_id`.
    pub fn with_snapshot_id(self, snapshot_id: i64) -> (r: Self)
        ensures
            r.snapshot_id_override == Some(snapshot_id),
            r.removed == self.removed,
            r.added == self.added,
            r.commit_id == self.commit_id,
    {
        let mut r = self;
        r.snapshot_id_override = Some(snapshot_id);
        r
    }

    /// Whether there is anything to do on `table`.
    pub fn start_commit(&self, table: &TableMetadata) -> (r: Result<CommitStart, Error>)
        ensures
            r is Err <==> table.effective_version() != FormatVersion::V4,
            r is Err ==> r->Err_0.says(
                ErrorKind::FeatureUnsupported,
                needs_v4_message("compact_cold_tier"@, table.effective_version()),
            ),
            r is Ok ==> (r->Ok_0 == CommitStart::Nothing <==> (self.removed@.is_empty()
                && self.added@.len() == 0) || table.current() is None),
    {
        if let Err(e) = require_v4(table, "compact_cold_tier") {
            return Err(e);
        }
        if self.removed.is_empty() && self.added.len() == 0 {
            return Ok(CommitStart::Nothing);
        }
        if table.current_snapshot().is_none() {
            return Ok(CommitStart::Nothing);
        }
        Ok(CommitStart::Proceed)
    }

    /// Starts a scan of the cold tier's leaves: those that a summary pins to a partition of no
    /// added file stay as they are, unread.
    pub fn start_scan(&self, leaves: Vec<ManifestFile>, partition_type: &StructType) -> (r: ColdScan)
        ensures
            r@.kept == leaves_pruned(leaves@, partitions_of(self.added@), *partition_type, true),
            r.pending() == leaves_pruned(
                leaves@,
                partitions_of(self.added@),
                *partition_type,
                false,
            ),
            r@.survivors == Seq::<ManifestEntry>::empty(),
            !r@.affected,
    {
        let mut targets: Vec<&Struct> = Vec::with_capacity(self.added.len());
        let mut i: usize = 0;
        while i < self.added.len()
            invariant
                i <= self.added@.len(),
                behind(targets@) == partitions_of(self.added@).take(i as int),
            decreases self.added@.len() - i,
        {
            let ghost before = targets@;
            targets.push(&self.added[i].partition);
            proof {
                lemma_take_push(partitions_of(self.added@), i as int);
                assert(behind(targets@) =~= behind(before).push(self.added@[i as int].partition));
            }
            i = i + 1;
        }
        assert(partitions_of(self.added@).take(i as int) =~= partitions_of(self.added@));
        let ghost all = leaves@;
        let ghost asked = partitions_of(self.added@);
        let ghost stays = |l: ManifestFile|
            (keep_reason(l, asked, *partition_type) == LeafKeepReason::Pruned) == true;
        let ghost read = |l: ManifestFile|
            (keep_reason(l, asked, *partition_type) == LeafKeepReason::Pruned) == false;
        let mut kept: Vec<ManifestFile> = Vec::new();
        let mut pending: VecDeque<ManifestFile> = VecDeque::new();
        for leaf in iter: leaves
            invariant
                iter.seq() == all,
                behind(targets@) == asked,
                stays == (|l: ManifestFile|
                    (keep_reason(l, asked, *partition_type) == LeafKeepReason::Pruned) == true),
                read == (|l: ManifestFile|
                    (keep_reason(l, asked, *partition_type) == LeafKeepReason::Pruned) == false),
                kept@ == all.take(iter.index() as int).filter(stays),
                pending@ == all.take(iter.index() as int).filter(read),
        {
            proof {
                lemma_take_push(all, iter.index() as int);
                lemma_filter_push(all.take(iter.index() as int), leaf, stays);
                lemma_filter_push(all.take(iter.index() as int), leaf, read);
            }
            if leaf_may_hold_partitions(&leaf, targets.as_slice(), partition_type) {
                pending.push_back(leaf);
            } else {
                kept.push(leaf);
            }
        }
        assert(all.take(all.len() as int) =~= all);
        ColdScan { pending, kept, survivors: Vec::new(), any_affected: false }
    }

    /// Whether `rewrite` is what a scan that came to `scan` leads to: the leaves that stay as they are
    /// stay, and what remains of the others is written by partition, with the added files.
    pub open spec fn rewrites(
        &self,
        rewrite: ColdRewrite,
        scan: ScanView,
        table: TableMetadata,
        first: int,
    ) -> bool {
        &&& rewrite.kept@ == scan.kept
        &&& rewrite.any_affected == scan.affected
        &&& writes_entries(
            rewrite.writes@,
            (WriteSetting {
                location: table.location@,
                commit_id: self.commit_id,
                version: table.format_version,
            }),
            first,
            table.default_spec.spec_id,
            false,
            scan.survivors + carried_all(self.added@),
            true,
        )
    }

    /// What a whole scan of `leaves` comes to, `load` giving the entries of a leaf: those that a
    /// summary rules out stay unread, and all others are read.
    pub open spec fn scan_outcome(
        &self,
        leaves: Seq<ManifestFile>,
        partition_type: StructType,
        load: spec_fn(ManifestFile) -> Seq<ManifestEntry>,
        tombstoned: Set<Seq<char>>,
    ) -> ScanView {
        let asked = partitions_of(self.added@);
        let pending = leaves_pruned(leaves, asked, partition_type, false);
        scanned_all(
            ScanView {
                kept: leaves_pruned(leaves, asked, partition_type, true),
                survivors: Seq::empty(),
                affected: false,
            },
            pending,
            loads_of(pending, load),
            tombstoned,
            self.removed@,
        )
    }

    /// The leaves to write, once every leaf that a scan asks for is read: what remains of the
    /// leaves that lost a file, and the added files, by partition. `None` where no leaf lost a
    /// file and none is added. To add files alone while removals are asked for is refused: if the
    /// files to remove are not in the cold tier, their rows would be there twice. The leaves are
    /// numbered on from `counter`, so that work prepared anew writes over no leaf of before.
    pub fn plan_rewrite(&self, scan: ColdScan, table: &TableMetadata, counter: &mut u64) -> (r:
        Result<Option<ColdRewrite>, Error>)
        requires
            scan.pending().len() == 0,
            *old(counter) + scan@.survivors.len() + self.added@.len() <= u64::MAX,
        ensures
            r is Err <==> !scan@.affected && self.added@.len() > 0 && !self.removed@.is_empty(),
            r is Err ==> r->Err_0.says(
                ErrorKind::Unexpected,
                nothing_matched_message(self.removed@.len(), self.added@.len()),
            ),
            r is Ok ==> (r->Ok_0 is None <==> !scan@.affected && self.added@.len() == 0),
            match r {
                Ok(Some(rewrite)) => {
                    &&& self.rewrites(rewrite, scan@, *table, *old(counter) as int)
                    &&& *final(counter) == *old(counter) + rewrite.writes@.len()
                },
                _ => *final(counter) == *old(counter),
            },
    {
        if !scan.any_affected && self.added.len() == 0 {
            return Ok(None);
        }
        if !scan.any_affected && !self.removed.is_empty() {
            let mut message = "compact_cold_tier: ".to_owned();
            message.append(decimal_of(self.removed.len() as u64).as_str());
            message.append(" removal path(s) matched no cold-leaf entries — refusing to add ");
            message.append(decimal_of(self.added.len() as u64).as_str());
            message.append(" file(s) alone (would duplicate rows if inputs are still hot)");
            return Err(Error::new(ErrorKind::Unexpected, message));
        }
        let mut entries = scan.survivors;
        let ghost start = entries@;
        let ghost all = carried_all(self.added@);
        assert(start + all.take(0) =~= start);
        let mut i: usize = 0;
        while i < self.added.len()
            invariant
                i <= self.added@.len(),
                all == carried_all(self.added@),
                entries@ == start + all.take(i as int),
            decreases self.added@.len() - i,
        {
            entries.push(existing_entry(self.added[i].clone()));
            proof {
                lemma_take_push(all, i as int);
                assert(entries@ =~= start + all.take(i + 1));
            }
            i = i + 1;
        }
        assert(all.take(i as int) =~= all);
        let writes = write_entries_clustered(
            table.location.as_str(),
            self.commit_id,
            table.format_version,
            counter,
            table.default_spec.spec_id,
            false,
            entries,
            true,
        );
        Ok(Some(ColdRewrite { kept: scan.kept, writes, any_affected: scan.any_affected }))
    }

    /// The id of the new snapshot: the one asked for, or else `generated`.
    pub fn snapshot_id(&self, generated: i64) -> (r: i64)
        ensures
            r == match self.snapshot_id_override {
                Some(id) => id,
                None => generated,
            },
    {
        match self.snapshot_id_override {
            Some(id) => id,
            None => generated,
        }
    }

    /// The bucket index of the leaves that stay and of `new_leaves`, which are written by now, and
    /// what the commit needs to know of it. Without a leaf there is no index.
    pub fn finish_prepare(
        &self,
        table: &TableMetadata,
        rewrite: ColdRewrite,
        new_leaves: Vec<ManifestFile>,
        snapshot_id: i64,
        root_metadata: &RootManifestMetadata,
        root_entries: Vec<RootManifestEntry>,
    ) -> (r: (PreparedCompaction, Option<BucketIndexWrite>))
        requires
            table.has_next_sequence_number(),
        ensures
            r.0.prep_bucket_index_path == root_metadata.bucket_index_path,
            r.0.snapshot_id == snapshot_id,
            r.0.root_entries@ == root_entries@,
            r.0.ancestor_removed_paths@ == root_metadata.removed_paths@,
            r.0.any_affected == rewrite.any_affected,
            r.1 is None <==> rewrite.kept@.len() == 0 && new_leaves@.len() == 0,
            r.1 is None ==> r.0.new_bucket_index_path is None,
            r.1 matches Some(index) ==> {
                &&& index.leaves@ == rewrite.kept@ + new_leaves@
                &&& index.path@ == bucket_index_path(table.location@, snapshot_id, self.commit_id)
                &&& r.0.new_bucket_index_path == Some(index.path)
                &&& describes(index.metadata, *table, snapshot_id, None, None, 0, Seq::empty())
            },
    {
        let mut leaves = rewrite.kept;
        let mut fresh = new_leaves;
        leaves.append(&mut fresh);
        let (path, index): (Option<String>, Option<BucketIndexWrite>) = if leaves.len() == 0 {
            (None, None)
        } else {
            let path = bucket_index_path_of(table.location.as_str(), snapshot_id, self.commit_id);
            let none: Vec<String> = Vec::new();
            assert(texts(none@) =~= Seq::<Seq<char>>::empty());
            let metadata = describe_root(table, snapshot_id, None, None, 0, none);
            (Some(path.clone()), Some(BucketIndexWrite { path, metadata, leaves }))
        };
        (
            PreparedCompaction {
                new_bucket_index_path: path,
                prep_bucket_index_path: copy_text(&root_metadata.bucket_index_path),
                snapshot_id,
                root_entries: Arc::new(root_entries),
                ancestor_removed_paths: copy_texts(&root_metadata.removed_paths),
                any_affected: rewrite.any_affected,
            },
            index,
        )
    }

    /// Whether `rc` commits what was prepared, on top of `table`. The rewritten leaves lack the
    /// removed files, so a root that only adds to the one beneath tombstones nothing.
    pub open spec fn commits(
        &self,
        rc: RootCommit,
        table: TableMetadata,
        prep: PreparedCompaction,
        chain_depth: u32,
        max_chain_depth: u32,
        attempt_id: u128,
        timestamp_ms: i64,
    ) -> bool {
        table.current() matches Some(current) && is_root_commit(
            rc,
            table,
            current.manifest_list@,
            (Attempt {
                snapshot_id: prep.snapshot_id,
                commit_id: self.commit_id,
                attempt_id,
                timestamp_ms,
            }),
            text_view(prep.new_bucket_index_path),
            chain_depth,
            max_chain_depth,
            Seq::empty(),
            texts(prep.ancestor_removed_paths@),
            prep.root_entries@,
            compaction_summary(
                self.removed@.len(),
                self.added@.len(),
                leaves_after(prep, self.added@.len()),
            ),
        )
    }

    /// The root and the commit of an attempt with the id `attempt_id` at the time `timestamp_ms`,
    /// the table's root being `chain_depth` deep in its chain.
    pub fn finalize_at(
        &self,
        table: &TableMetadata,
        prep: &PreparedCompaction,
        chain_depth: u32,
        max_chain_depth: u32,
        attempt_id: u128,
        timestamp_ms: i64,
    ) -> (r: Result<RootCommit, Error>)
        requires
            table.has_next_sequence_number(),
            self.added@.len() + prep.root_entries@.len() <= u64::MAX,
        ensures
            r is Err <==> table.current() is None,
            r is Err ==> r->Err_0.says(
                ErrorKind::Unexpected,
                "compact_cold_tier: table has no current snapshot at finalize"@,
            ),
            r is Ok ==> self.commits(
                r->Ok_0,
                *table,
                *prep,
                chain_depth,
                max_chain_depth,
                attempt_id,
                timestamp_ms,
            ),
    {
        match table.current_snapshot() {
            None => Err(
                Error::new(
                    ErrorKind::Unexpected,
                    "compact_cold_tier: table has no current snapshot at finalize".to_owned(),
                ),
            ),
            Some(current) => {
                let after: u64 = if prep.new_bucket_index_path.is_some() {
                    self.added.len() as u64 + prep.root_entries.len() as u64
                } else {
                    0
                };
                let mut summary = Properties::new();
                summary.insert(
                    "cold-compact-removed".to_owned(),
                    decimal_of(self.removed.len() as u64),
                );
                summary.insert(
                    "cold-compact-added".to_owned(),
                    decimal_of(self.added.len() as u64),
                );
                summary.insert("cold-compact-leaves-after".to_owned(), decimal_of(after));
                let attempt = Attempt {
                    snapshot_id: prep.snapshot_id,
                    commit_id: self.commit_id,
                    attempt_id,
                    timestamp_ms,
                };
                let none: Vec<String> = Vec::new();
                assert(texts(none@) =~= Seq::<Seq<char>>::empty());
                Ok(
                    root_commit(
                        table,
                        current.manifest_list.as_str(),
                        &attempt,
                        &prep.new_bucket_index_path,
                        chain_depth,
                        max_chain_depth,
                        none.as_slice(),
                        &prep.ancestor_removed_paths,
                        &prep.root_entries,
                        summary,
                    ),
                )
            },
        }
    }

    /// The root and the commit of an attempt under a fresh id, now.
    pub fn finalize(
        &self,
        table: &TableMetadata,
        prep: &PreparedCompaction,
        chain_depth: u32,
        max_chain_depth: u32,
    ) -> (r: Result<RootCommit, Error>)
        requires
            table.has_next_sequence_number(),
            self.added@.len() + prep.root_entries@.len() <= u64::MAX,
        ensures
            r is Err <==> table.current() is None,
            r is Err ==> r->Err_0.says(
                ErrorKind::Unexpected,
                "compact_cold_tier: table has no current snapshot at finalize"@,
            ),
            r is Ok ==> exists|attempt_id: u128, timestamp_ms: i64|
                is_time_ordered(attempt_id) && #[trigger] self.commits(
                    r->Ok_0,
                    *table,
                    *prep,
                    chain_depth,
                    max_chain_depth,
                    attempt_id,
                    timestamp_ms,
                ),
    {
        let attempt_id: u128 = fresh_id();
        let timestamp_ms: i64 = now_millis();
        self.finalize_at(table, prep, chain_depth, max_chain_depth, attempt_id, timestamp_ms)
    }
}

proof fn lemma_live_files_members(entries: Seq<ManifestEntry>, tombstoned: Set<Seq<char>>)
    ensures
        forall|k: int|
            0 <= k < live_files(entries, tombstoned).len() ==> !tombstoned.contains(
                (#[trigger] live_files(entries, tombstoned)[k]).file_path@,
            ),
        forall|i: int|
            0 <= i < entries.len() && (#[trigger] entries[i]).kept_by(tombstoned) ==> live_files(
                entries,
                tombstoned,
            ).contains(entries[i].data_file),
    decreases entries.len(),
{
    if entries.len() > 0 {
        let rest = entries.drop_last();
        lemma_live_files_members(rest, tombstoned);
        let some = live_files(rest, tombstoned);
        let all = live_files(entries, tombstoned);
        assert forall|i: int| 0 <= i < entries.len() && (#[trigger] entries[i]).kept_by(
            tombstoned,
        ) implies all.contains(entries[i].data_file) by {
            if i < rest.len() {
                assert(rest[i] == entries[i]);
                let k = choose|k: int| 0 <= k < some.len() && some[k] == entries[i].data_file;
                assert(all[k] == some[k]);
            } else {
                assert(all[some.len() as int] == entries[i].data_file);
            }
        }
    }
}

/// A compaction loses no live file that it was not told to remove: whatever a leaf lists that is
/// live, not tombstoned and not to be removed is still listed after the leaf is read, by the leaf
/// or by an entry that is written anew.
pub proof fn law_scan_loses_no_file(
    v: ScanView,
    leaf: ManifestFile,
    entries: Seq<ManifestEntry>,
    tombstoned: Set<Seq<char>>,
    removed: Set<Seq<char>>,
    i: int,
)
    requires
        0 <= i < entries.len(),
        entries[i].kept_by(tombstoned),
        !removed.contains(entries[i].data_file.file_path@),
    ensures
        ({
            let after = scanned(v, leaf, entries, tombstoned, removed);
            ||| after.kept == v.kept.push(leaf)
            ||| after.survivors.contains(carried(entries[i].data_file))
        }),
{
    let files = live_files(entries, tombstoned);
    lemma_live_files_members(entries, tombstoned);
    if any_removed(files, removed) {
        let keep = |f: Arc<DataFile>| !removed.contains(f.file_path@);
        let k = choose|k: int| 0 <= k < files.len() && files[k] == entries[i].data_file;
        files.lemma_filter_contains(keep, k);
        let left = without(files, removed);
        assert(left.contains(entries[i].data_file));
        let m = choose|m: int| 0 <= m < left.len() && left[m] == entries[i].data_file;
        let after = v.survivors + carried_all(left);
        assert(after[v.survivors.len() + m] == carried(entries[i].data_file));
    }
}

/// Nothing that a compaction writes anew is a removed or a tombstoned file.
pub proof fn law_scan_revives_nothing(
    v: ScanView,
    leaf: ManifestFile,
    entries: Seq<ManifestEntry>,
    tombstoned: Set<Seq<char>>,
    removed: Set<Seq<char>>,
)
    requires
        forall|k: int|
            0 <= k < v.survivors.len() ==> !removed.contains(
                (#[trigger] v.survivors[k]).data_file.file_path@,
            ) && !tombstoned.contains(v.survivors[k].data_file.file_path@),
    ensures
        ({
            let after = scanned(v, leaf, entries, tombstoned, removed).survivors;
            forall|k: int|
                0 <= k < after.len() ==> !removed.contains(
                    (#[trigger] after[k]).data_file.file_path@,
                ) && !tombstoned.contains(after[k].data_file.file_path@)
        }),
{
    let files = live_files(entries, tombstoned);
    lemma_live_files_members(entries, tombstoned);
    let keep = |f: Arc<DataFile>| !removed.contains(f.file_path@);
    let left = without(files, removed);
    let after = scanned(v, leaf, entries, tombstoned, removed).survivors;
    assert forall|k: int| 0 <= k < after.len() implies !removed.contains(
        (#[trigger] after[k]).data_file.file_path@,
    ) && !tombstoned.contains(after[k].data_file.file_path@) by {
        if k < v.survivors.len() {
            assert(after[k] == v.survivors[k]);
        } else {
            let m = k - v.survivors.len();
            assert(after[k] == carried(left[m]));
            files.lemma_filter_pred(keep, m);
            lemma_filter_from(files, keep, m);
        }
    }
}

proof fn lemma_scan_grows(
    v: ScanView,
    leaves: Seq<ManifestFile>,
    load: spec_fn(ManifestFile) -> Seq<ManifestEntry>,
    tombstoned: Set<Seq<char>>,
    removed: Set<Seq<char>>,
)
    ensures
        ({
            let end = scanned_all(v, leaves, loads_of(leaves, load), tombstoned, removed);
            &&& v.kept.is_prefix_of(end.kept)
            &&& v.survivors.is_prefix_of(end.survivors)
        }),
    decreases leaves.len(),
{
    if leaves.len() > 0 {
        let next = scanned(v, leaves[0], load(leaves[0]), tombstoned, removed);
        assert(loads_of(leaves, load).skip(1) =~= loads_of(leaves.skip(1), load));
        lemma_scan_grows(next, leaves.skip(1), load, tombstoned, removed);
    }
}

proof fn lemma_scan_all_loses_no_file(
    v: ScanView,
    leaves: Seq<ManifestFile>,
    load: spec_fn(ManifestFile) -> Seq<ManifestEntry>,
    tombstoned: Set<Seq<char>>,
    removed: Set<Seq<char>>,
    l: int,
    i: int,
)
    requires
        0 <= l < leaves.len(),
        0 <= i < load(leaves[l]).len(),
        load(leaves[l])[i].kept_by(tombstoned),
        !removed.contains(load(leaves[l])[i].data_file.file_path@),
    ensures
        ({
            let end = scanned_all(v, leaves, loads_of(leaves, load), tombstoned, removed);
            ||| end.kept.contains(leaves[l])
            ||| end.survivors.contains(carried(load(leaves[l])[i].data_file))
        }),
    decreases leaves.len(),
{
    let next = scanned(v, leaves[0], load(leaves[0]), tombstoned, removed);
    let rest = leaves.skip(1);
    let end = scanned_all(next, rest, loads_of(rest, load), tombstoned, removed);
    assert(loads_of(leaves, load).skip(1) =~= loads_of(rest, load));
    if l > 0 {
        assert(rest[l - 1] == leaves[l]);
        lemma_scan_all_loses_no_file(next, rest, load, tombstoned, removed, l - 1, i);
    } else {
        law_scan_loses_no_file(v, leaves[0], load(leaves[0]), tombstoned, removed, i);
        lemma_scan_grows(next, rest, load, tombstoned, removed);
        if next.kept == v.kept.push(leaves[0]) {
            let k = v.kept.len() as int;
            assert(next.kept[k] == leaves[0]);
            assert(end.kept[k] == next.kept[k]);
        } else {
            let x = carried(load(leaves[0])[i].data_file);
            let k = choose|k: int| 0 <= k < next.survivors.len() && next.survivors[k] == x;
            assert(end.survivors[k] == next.survivors[k]);
        }
    }
}

/// A whole compaction loses no live file that it was not told to remove: what a cold leaf lists
/// that is live, not tombstoned and not to be removed is still listed, by the leaf, read or not, or
/// by one that is written anew.
pub proof fn law_compaction_loses_no_file(
    action: CompactColdTierAction,
    rewrite: ColdRewrite,
    table: TableMetadata,
    first: int,
    leaves: Seq<ManifestFile>,
    partition_type: StructType,
    load: spec_fn(ManifestFile) -> Seq<ManifestEntry>,
    tombstoned: Set<Seq<char>>,
    l: int,
    i: int,
)
    requires
        action.rewrites(
            rewrite,
            action.scan_outcome(leaves, partition_type, load, tombstoned),
            table,
            first,
        ),
        0 <= l < leaves.len(),
        0 <= i < load(leaves[l]).len(),
        load(leaves[l])[i].kept_by(tombstoned),
        !action.removed@.contains(load(leaves[l])[i].data_file.file_path@),
    ensures
        rewrite.kept@.contains(leaves[l]) || exists|w: int|
            0 <= w < rewrite.writes@.len() && (#[trigger] rewrite.writes@[w]).entries@.contains(
                carried(load(leaves[l])[i].data_file),
            ),
{
    let leaf = leaves[l];
    let asked = partitions_of(action.added@);
    let stays = |l: ManifestFile|
        (keep_reason(l, asked, partition_type) == LeafKeepReason::Pruned) == true;
    let read = |l: ManifestFile|
        (keep_reason(l, asked, partition_type) == LeafKeepReason::Pruned) == false;
    let kept = leaves_pruned(leaves, asked, partition_type, true);
    let pending = leaves_pruned(leaves, asked, partition_type, false);
    let start = ScanView { kept, survivors: Seq::empty(), affected: false };
    let end = action.scan_outcome(leaves, partition_type, load, tombstoned);
    if keep_reason(leaf, asked, partition_type) == LeafKeepReason::Pruned {
        leaves.lemma_filter_contains(stays, l);
        lemma_scan_grows(start, pending, load, tombstoned, action.removed@);
        let k = choose|k: int| 0 <= k < kept.len() && kept[k] == leaf;
        assert(end.kept[k] == leaf);
    } else {
        leaves.lemma_filter_contains(read, l);
        let p = choose|p: int| 0 <= p < pending.len() && pending[p] == leaf;
        lemma_scan_all_loses_no_file(start, pending, load, tombstoned, action.removed@, p, i);
        if !end.kept.contains(leaf) {
            let x = carried(load(leaf)[i].data_file);
            lemma_written_lists(action, rewrite, end, table, first, x);
        }
    }
}

proof fn lemma_written_lists(
    action: CompactColdTierAction,
    rewrite: ColdRewrite,
    scan: ScanView,
    table: TableMetadata,
    first: int,
    x: ManifestEntry,
)
    requires
        action.rewrites(rewrite, scan, table, first),
        scan.survivors.contains(x) || carried_all(action.added@).contains(x),
    ensures
        exists|w: int|
            0 <= w < rewrite.writes@.len() && (#[trigger] rewrite.writes@[w]).entries@.contains(x),
{
    let added = carried_all(action.added@);
    let all = scan.survivors + added;
    if scan.survivors.contains(x) {
        let k = choose|k: int| 0 <= k < scan.survivors.len() && scan.survivors[k] == x;
        assert(all[k] == x);
    } else {
        let k = choose|k: int| 0 <= k < added.len() && added[k] == x;
        assert(all[scan.survivors.len() + k] == x);
    }
    law_clustering_keeps_every_entry(written(rewrite.writes@), all, x);
    let w = choose|w: int|
        0 <= w < written(rewrite.writes@).len() && (#[trigger] written(
            rewrite.writes@,
        )[w]).contains(x);
    assert(rewrite.writes@[w].entries@.contains(x));
}

/// Every added file is listed by a leaf that is written anew.
pub proof fn law_compaction_lists_what_is_added(
    action: CompactColdTierAction,
    rewrite: ColdRewrite,
    scan: ScanView,
    table: TableMetadata,
    first: int,
    a: int,
)
    requires
        action.rewrites(rewrite, scan, table, first),
        0 <= a < action.added@.len(),
    ensures
        exists|w: int|
            0 <= w < rewrite.writes@.len() && (#[trigger] rewrite.writes@[w]).entries@.contains(
                carried(action.added@[a]),
            ),
{
    assert(carried_all(action.added@)[a] == carried(action.added@[a]));
    lemma_written_lists(action, rewrite, scan, table, first, carried(action.added@[a]));
}

proof fn lemma_scan_removes_files(
    v: ScanView,
    leaves: Seq<ManifestFile>,
    load: spec_fn(ManifestFile) -> Seq<ManifestEntry>,
    tombstoned: Set<Seq<char>>,
    removed: Set<Seq<char>>,
)
    requires
        forall|k: int|
            0 <= k < v.survivors.len() ==> !removed.contains(
                (#[trigger] v.survivors[k]).data_file.file_path@,
            ) && !tombstoned.contains(v.survivors[k].data_file.file_path@),
    ensures
        ({
            let end = scanned_all(v, leaves, loads_of(leaves, load), tombstoned, removed);
            &&& forall|k: int|
                0 <= k < end.survivors.len() ==> !removed.contains(
                    (#[trigger] end.survivors[k]).data_file.file_path@,
                ) && !tombstoned.contains(end.survivors[k].data_file.file_path@)
            &&& forall|k: int|
                v.kept.len() <= k < end.kept.len() ==> !any_removed(
                    live_files(load(#[trigger] end.kept[k]), tombstoned),
                    removed,
                )
        }),
    decreases leaves.len(),
{
    if leaves.len() > 0 {
        let next = scanned(v, leaves[0], load(leaves[0]), tombstoned, removed);
        let rest = leaves.skip(1);
        let end = scanned_all(next, rest, loads_of(rest, load), tombstoned, removed);
        assert(loads_of(leaves, load).skip(1) =~= loads_of(rest, load));
        law_scan_revives_nothing(v, leaves[0], load(leaves[0]), tombstoned, removed);
        lemma_scan_removes_files(next, rest, load, tombstoned, removed);
        lemma_scan_grows(next, rest, load, tombstoned, removed);
        assert forall|k: int| v.kept.len() <= k < end.kept.len() implies !any_removed(
            live_files(load(#[trigger] end.kept[k]), tombstoned),
            removed,
        ) by {
            if k < next.kept.len() {
                assert(end.kept[k] == next.kept[k]);
                assert(next.kept[k] == leaves[0]);
            }
        }
    }
}

/// A whole compaction removes what it was told to, as far as it was read: of the leaves that were
/// read, one that stays lists no removed file live, and what is written anew is no removed and no
/// tombstoned file, unless it is added.
pub proof fn law_compaction_removes_the_files(
    action: CompactColdTierAction,
    leaves: Seq<ManifestFile>,
    partition_type: StructType,
    load: spec_fn(ManifestFile) -> Seq<ManifestEntry>,
    tombstoned: Set<Seq<char>>,
)
    ensures
        ({
            let end = action.scan_outcome(leaves, partition_type, load, tombstoned);
            let unread = leaves_pruned(leaves, partitions_of(action.added@), partition_type, true);
            &&& unread.is_prefix_of(end.kept)
            &&& forall|k: int|
                unread.len() <= k < end.kept.len() ==> !any_removed(
                    live_files(load(#[trigger] end.kept[k]), tombstoned),
                    action.removed@,
                )
            &&& forall|k: int|
                0 <= k < end.survivors.len() ==> !action.removed@.contains(
                    (#[trigger] end.survivors[k]).data_file.file_path@,
                ) && !tombstoned.contains(end.survivors[k].data_file.file_path@)
        }),
{
    let asked = partitions_of(action.added@);
    let pending = leaves_pruned(leaves, asked, partition_type, false);
    let start = ScanView {
        kept: leaves_pruned(leaves, asked, partition_type, true),
        survivors: Seq::empty(),
        affected: false,
    };
    lemma_scan_grows(start, pending, load, tombstoned, action.removed@);
    lemma_scan_removes_files(start, pending, load, tombstoned, action.removed@);
}

/// A leaf is passed over unread just where some partition is asked for, its summary pins every
/// field of the partition type, and each partition that is asked for differs from the pinned
/// values: it has as many fields, and in one of them, with none ahead of it that cannot be encoded,
/// another value.
pub proof fn law_pruned_leaf_holds_other_values(
    leaf: ManifestFile,
    targets: Seq<Struct>,
    partition_type: StructType,
)
    ensures
        keep_reason(leaf, targets, partition_type) is Pruned <==> {
            &&& targets.len() > 0
            &&& leaf.partitions is Some
            &&& leaf.partitions->0@.len() == partition_type.fields@.len()
            &&& forall|i: int|
                0 <= i < leaf.partitions->0@.len() ==> {
                    let f = #[trigger] leaf.partitions->0@[i];
                    f.lower_bound is Some && f.upper_bound is Some && f.lower_bound->0@
                        == f.upper_bound->0@
                }
            &&& forall|k: int|
                0 <= k < targets.len() ==> {
                    &&& (#[trigger] targets[k]).fields@.len() == partition_type.fields@.len()
                    &&& exists|i: int|
                        0 <= i < targets[k].fields@.len() && (forall|j: int|
                            0 <= j <= i ==> (#[trigger] field_bytes(targets[k], partition_type, j))
                                is Some) && field_bytes(targets[k], partition_type, i)->0
                            != (#[trigger] leaf.partitions->0@[i]).lower_bound->0@
                }
        },
{
    if leaf.partitions is Some {
        let parts = leaf.partitions->0@;
        if forall|i: int|
            0 <= i < parts.len() ==> {
                let f = #[trigger] parts[i];
                f.lower_bound is Some && f.upper_bound is Some && f.lower_bound->0@
                    == f.upper_bound->0@
            } {
            assert forall|i: int| 0 <= i < parts.len() implies (
            #[trigger] parts[i]).pinned_spec() is Some by {}
        }
        if all_pinned(parts) {
            assert forall|i: int| 0 <= i < parts.len() implies {
                let f = #[trigger] parts[i];
                f.lower_bound is Some && f.upper_bound is Some && f.lower_bound->0@
                    == f.upper_bound->0@
            } by {
                assert(parts[i].pinned_spec() is Some);
            }
            assert(forall|i: int|
                0 <= i < parts.len() ==> pins(parts)[i] == (#[trigger] parts[i]).lower_bound->0@);
        }
        if tight(leaf, partition_type) {
            assert forall|k: int| 0 <= k < targets.len() implies (ruled_out(
                leaf,
                #[trigger] targets[k],
                partition_type,
            ) <==> {
                &&& targets[k].fields@.len() == partition_type.fields@.len()
                &&& exists|i: int|
                    0 <= i < targets[k].fields@.len() && (forall|j: int|
                        0 <= j <= i ==> (#[trigger] field_bytes(targets[k], partition_type, j))
                            is Some) && field_bytes(targets[k], partition_type, i)->0 != (
                    #[trigger] parts[i]).lower_bound->0@
            }) by {
                let t = targets[k];
                if ruled_out(leaf, t, partition_type) {
                    let i = choose|i: int|
                        0 <= i < t.fields@.len() && differs_at(leaf, t, partition_type, i);
                    assert(field_bytes(t, partition_type, i) is Some);
                    assert(parts[i].lower_bound->0@ == pins(parts)[i]);
                }
                if t.fields@.len() == partition_type.fields@.len() && exists|i: int|
                    0 <= i < t.fields@.len() && (forall|j: int|
                        0 <= j <= i ==> (#[trigger] field_bytes(t, partition_type, j)) is Some)
                        && field_bytes(t, partition_type, i)->0 != (
                    #[trigger] parts[i]).lower_bound->0@ {
                    let i = choose|i: int|
                        0 <= i < t.fields@.len() && (forall|j: int|
                            0 <= j <= i ==> (#[trigger] field_bytes(t, partition_type, j)) is Some)
                            && field_bytes(t, partition_type, i)->0 != (
                        #[trigger] parts[i]).lower_bound->0@;
                    assert(field_bytes(t, partition_type, i) is Some);
                    assert(differs_at(leaf, t, partition_type, i));
                }
            }
        }
    }
}

/// A value of a partition is encoded where its field is primitive and it is neither null nor
/// nested.
pub proof fn law_only_primitive_values_are_encoded(
    target: Struct,
    partition_type: StructType,
    i: int,
)
    ensures
        field_bytes(target, partition_type, i) is Some ==> partition_type.fields@[i] is Primitive
            && target.fields@[i] is Some && target.fields@[i]->0 is Primitive && field_bytes(
            target,
            partition_type,
            i,
        ) == bound_bytes(target.fields@[i]->0->Primitive_0),
        partition_type.fields@[i] is Primitive && target.fields@[i] is Some
            && target.fields@[i]->0 is Primitive ==> field_bytes(target, partition_type, i)
            == bound_bytes(target.fields@[i]->0->Primitive_0),
{
}

/// Every leaf is either passed over or read, each list in the order of the leaves.
pub proof fn law_every_leaf_is_read_or_passed_over(
    leaves: Seq<ManifestFile>,
    targets: Seq<Struct>,
    partition_type: StructType,
    pruned: bool,
) -> (places: Seq<int>)
    ensures
        stands_at(leaves_pruned(leaves, targets, partition_type, pruned), leaves, places),
        forall|i: int|
            0 <= i < leaves.len() ==> (places.contains(i) <==> pruned == (keep_reason(
                #[trigger] leaves[i],
                targets,
                partition_type,
            ) is Pruned)),
{
    let keep = |l: ManifestFile|
        (keep_reason(l, targets, partition_type) == LeafKeepReason::Pruned) == pruned;
    lemma_filter_places(leaves, keep)
}

/// The live files of a leaf are the files of its entries that were not deleted and whose paths are
/// not tombstoned, in their order.
pub proof fn law_live_files_are_those_of_live_entries(
    entries: Seq<ManifestEntry>,
    tombstoned: Set<Seq<char>>,
) -> (places: Seq<int>)
    ensures
        places.len() == live_files(entries, tombstoned).len(),
        forall|k: int|
            0 <= k < places.len() ==> 0 <= #[trigger] places[k] < entries.len() && live_files(
                entries,
                tombstoned,
            )[k] == entries[places[k]].data_file,
        forall|j: int, k: int|
            0 <= j < k < places.len() ==> #[trigger] places[j] < #[trigger] places[k],
        forall|i: int|
            0 <= i < entries.len() ==> (places.contains(i) <==> ((#[trigger] entries[i]).status
                is Existing || entries[i].status is Added) && !tombstoned.contains(
                entries[i].data_file.file_path@,
            )),
    decreases entries.len(),
{
    if entries.len() == 0 {
        Seq::empty()
    } else {
        let head = entries.drop_last();
        let last = entries.len() - 1;
        let e = entries[last];
        let before = law_live_files_are_those_of_live_entries(head, tombstoned);
        let places = if (e.status is Existing || e.status is Added) && !tombstoned.contains(
            e.data_file.file_path@,
        ) {
            before.push(last)
        } else {
            before
        };
        assert forall|i: int| 0 <= i < entries.len() implies (places.contains(i) <==> ((
        #[trigger] entries[i]).status is Existing || entries[i].status is Added)
            && !tombstoned.contains(entries[i].data_file.file_path@)) by {
            if i < last {
                assert(head[i] == entries[i]);
                if before.contains(i) {
                    let k = choose|k: int| 0 <= k < before.len() && before[k] == i;
                    assert(places[k] == i);
                }
                if places.contains(i) {
                    let k = choose|k: int| 0 <= k < places.len() && places[k] == i;
                    assert(before[k] == i);
                }
            } else if places.len() > before.len() {
                assert(places[before.len() as int] == i);
            } else if places.contains(i) {
                let k = choose|k: int| 0 <= k < places.len() && places[k] == i;
                assert(before[k] == i);
            }
        }
        places
    }
}

/// A leaf is taken apart just where one of its live files is to be removed, and then gives up just
/// its live files that are not; every other leaf stays as it is.
pub proof fn law_scan_takes_apart_only_affected_leaves(
    v: ScanView,
    leaf: ManifestFile,
    entries: Seq<ManifestEntry>,
    tombstoned: Set<Seq<char>>,
    removed: Set<Seq<char>>,
    file: Arc<DataFile>,
)
    ensures
        ({
            let after = scanned(v, leaf, entries, tombstoned, removed);
            let hit = exists|i: int|
                0 <= i < entries.len() && ((#[trigger] entries[i]).status is Existing
                    || entries[i].status is Added) && !tombstoned.contains(
                    entries[i].data_file.file_path@,
                ) && removed.contains(entries[i].data_file.file_path@);
            &&& !hit ==> after.kept == v.kept.push(leaf) && after.survivors == v.survivors
                && after.affected == v.affected
            &&& hit ==> {
                &&& after.kept == v.kept
                &&& after.affected
                &&& v.survivors.is_prefix_of(after.survivors)
                &&& forall|k: int|
                    v.survivors.len() <= k < after.survivors.len() ==> {
                        let x = #[trigger] after.survivors[k];
                        x.status is Existing && x.snapshot_id is None && x.sequence_number is None
                            && x.file_sequence_number is None && !tombstoned.contains(
                            x.data_file.file_path@,
                        ) && !removed.contains(x.data_file.file_path@)
                    }
                &&& (exists|k: int|
                    v.survivors.len() <= k < after.survivors.len() && (
                    #[trigger] after.survivors[k]).data_file == file) <==> (exists|i: int|
                    0 <= i < entries.len() && ((#[trigger] entries[i]).status is Existing
                        || entries[i].status is Added) && entries[i].data_file == file
                        && !tombstoned.contains(file.file_path@) && !removed.contains(
                        file.file_path@,
                    ))
            }
        }),
{
    let after = scanned(v, leaf, entries, tombstoned, removed);
    let files = live_files(entries, tombstoned);
    let places = law_live_files_are_those_of_live_entries(entries, tombstoned);
    let hit = exists|i: int|
        0 <= i < entries.len() && ((#[trigger] entries[i]).status is Existing || entries[i].status
            is Added) && !tombstoned.contains(entries[i].data_file.file_path@) && removed.contains(
            entries[i].data_file.file_path@,
        );
    if any_removed(files, removed) {
        let k = choose|k: int|
            0 <= k < files.len() && removed.contains((#[trigger] files[k]).file_path@);
        assert(places.contains(places[k]));
        assert(entries[places[k]].data_file == files[k]);
        assert(hit);
    }
    if hit {
        let i = choose|i: int|
            0 <= i < entries.len() && ((#[trigger] entries[i]).status is Existing
                || entries[i].status is Added) && !tombstoned.contains(
                entries[i].data_file.file_path@,
            ) && removed.contains(entries[i].data_file.file_path@);
        assert(places.contains(i));
        let k = choose|k: int| 0 <= k < places.len() && places[k] == i;
        assert(removed.contains(files[k].file_path@));
        assert(any_removed(files, removed));
        let keep = |f: Arc<DataFile>| !removed.contains(f.file_path@);
        let left = without(files, removed);
        let kept_places = lemma_filter_places(files, keep);
        assert(left == files.filter(keep));
        assert(v.survivors =~= after.survivors.take(v.survivors.len() as int));
        assert forall|m: int| v.survivors.len() <= m < after.survivors.len() implies {
            let x = #[trigger] after.survivors[m];
            x.status is Existing && x.snapshot_id is None && x.sequence_number is None
                && x.file_sequence_number is None && !tombstoned.contains(x.data_file.file_path@)
                && !removed.contains(x.data_file.file_path@)
        } by {
            let n = m - v.survivors.len();
            assert(after.survivors[m] == carried(left[n]));
            assert(kept_places.contains(kept_places[n]));
            let at = kept_places[n];
            assert(files[at] == left[n]);
            assert(places.contains(places[at]));
            assert(entries[places[at]].data_file == files[at]);
        }
        if exists|m: int|
            v.survivors.len() <= m < after.survivors.len() && (
            #[trigger] after.survivors[m]).data_file == file {
            let m = choose|m: int|
                v.survivors.len() <= m < after.survivors.len() && (
                #[trigger] after.survivors[m]).data_file == file;
            let n = m - v.survivors.len();
            assert(after.survivors[m] == carried(left[n]));
            assert(kept_places.contains(kept_places[n]));
            let at = kept_places[n];
            assert(files[at] == left[n]);
            assert(places.contains(places[at]));
            assert(entries[places[at]].data_file == file);
        }
        if exists|j: int|
            0 <= j < entries.len() && ((#[trigger] entries[j]).status is Existing
                || entries[j].status is Added) && entries[j].data_file == file
                && !tombstoned.contains(file.file_path@) && !removed.contains(file.file_path@) {
            let j = choose|j: int|
                0 <= j < entries.len() && ((#[trigger] entries[j]).status is Existing
                    || entries[j].status is Added) && entries[j].data_file == file
                    && !tombstoned.contains(file.file_path@) && !removed.contains(file.file_path@);
            assert(places.contains(j));
            let at = choose|at: int| 0 <= at < places.len() && places[at] == j;
            assert(files[at] == file);
            assert(kept_places.contains(at));
            let n = choose|n: int| 0 <= n < kept_places.len() && kept_places[n] == at;
            assert(left[n] == file);
            assert(after.survivors[v.survivors.len() + n] == carried(file));
        }
    }
}

/// A compaction writes data manifests of the default spec, each of one partition, that hold what
/// survives and what is added, and nothing else.
pub proof fn law_compaction_writes_tight_data(
    action: CompactColdTierAction,
    rewrite: ColdRewrite,
    scan: ScanView,
    table: TableMetadata,
    first: int,
    w: int,
    k: int,
)
    requires
        action.rewrites(rewrite, scan, table, first),
        0 <= w < rewrite.writes@.len(),
        0 <= k < rewrite.writes@[w].entries@.len(),
    ensures
        ({
            let manifest = rewrite.writes@[w];
            let x = manifest.entries@[k];
            &&& manifest.spec_id == table.default_spec.spec_id
            &&& manifest.kind is V1 || manifest.kind is V2Data || manifest.kind is V3Data
            &&& x.data_file.partition@ == manifest.entries@[0].data_file.partition@
            &&& scan.survivors.contains(x) || (x.status is Existing && exists|a: int|
                0 <= a < action.added@.len() && #[trigger] action.added@[a] == x.data_file)
        }),
        rewrite.kept@ == scan.kept,
        rewrite.any_affected == scan.affected,
{
    let setting = WriteSetting {
        location: table.location@,
        commit_id: action.commit_id,
        version: table.format_version,
    };
    let all = scan.survivors + carried_all(action.added@);
    law_written_manifests_hold_the_entries(
        rewrite.writes@,
        setting,
        first,
        table.default_spec.spec_id,
        false,
        all,
        true,
    );
    let manifest = rewrite.writes@[w];
    let x = manifest.entries@[k];
    assert(manifest.entries@[0].data_file.partition@ == x.data_file.partition@);
    assert(all.contains(x));
    let i = choose|i: int| 0 <= i < all.len() && all[i] == x;
    if i < scan.survivors.len() {
        assert(scan.survivors[i] == x);
    } else {
        assert(x == carried(action.added@[i - scan.survivors.len()]));
    }
}

/// The summary of a compaction says how many files went and came, and how many leaves are left.
pub proof fn law_compaction_summary_says_what_went(removed: nat, added: nat, leaves: nat)
    ensures
        ({
            let m = compaction_summary(removed, added, leaves);
            &&& m.contains_key("cold-compact-removed"@)
            &&& m.contains_key("cold-compact-added"@)
            &&& m.contains_key("cold-compact-leaves-after"@)
            &&& m["cold-compact-removed"@] == decimal(removed)
            &&& m["cold-compact-added"@] == decimal(added)
            &&& m["cold-compact-leaves-after"@] == decimal(leaves)
        }),
{
    reveal_strlit("cold-compact-removed");
    reveal_strlit("cold-compact-added");
    reveal_strlit("cold-compact-leaves-after");
    assert("cold-compact-removed"@.len() != "cold-compact-added"@.len());
    assert("cold-compact-removed"@.len() != "cold-compact-leaves-after"@.len());
    assert("cold-compact-added"@.len() != "cold-compact-leaves-after"@.len());
}

/// What was prepared is used again just where the head still has the bucket index that it was
/// prepared on, the table asks for deltas, and the chain has room for one.
pub proof fn law_prepared_work_is_reused_on_its_index(
    prep_bucket_index: Option<Seq<char>>,
    table: TableMetadata,
    head: RootManifestMetadata,
    max_chain_depth: u32,
)
    ensures
        reusable(prep_bucket_index, table, head, max_chain_depth) <==> {
            &&& prep_bucket_index is None <==> head.bucket_index_path is None
            &&& prep_bucket_index is Some ==> head.bucket_index_path->0@ == prep_bucket_index->0
            &&& table.properties@.contains_key("root-manifest.incremental"@) && same_ignoring_case(
                table.properties@["root-manifest.incremental"@],
                "true"@,
            )
            &&& head.chain_depth < max_chain_depth
        },
{
}

/// The leaves that are left are the files that were added and what the root lists, where there is a
/// new bucket index, and none otherwise.
pub proof fn law_leaves_are_counted_in_a_new_index(prep: PreparedCompaction, added: nat)
    ensures
        prep.new_bucket_index_path is Some ==> leaves_after(prep, added) == added
            + prep.root_entries@.len(),
        prep.new_bucket_index_path is None ==> leaves_after(prep, added) == 0,
{
}

/// A scan takes its leaves one by one, from left to right.
pub proof fn law_scan_takes_each_leaf_once(
    v: ScanView,
    leaf: ManifestFile,
    entries: Seq<ManifestEntry>,
    leaves: Seq<ManifestFile>,
    loads: Seq<Seq<ManifestEntry>>,
    tombstoned: Set<Seq<char>>,
    removed: Set<Seq<char>>,
)
    ensures
        scanned_all(v, Seq::empty(), loads, tombstoned, removed) == v,
        scanned_all(v, seq![leaf] + leaves, seq![entries] + loads, tombstoned, removed)
            == scanned_all(
            scanned(v, leaf, entries, tombstoned, removed),
            leaves,
            loads,
            tombstoned,
            removed,
        ),
{
    assert((seq![leaf] + leaves).skip(1) =~= leaves);
    assert((seq![entries] + loads).skip(1) =~= loads);
}

} // verus!
