//! Moving closed nodes and files into the cold tier's bucket index.

use std::collections::VecDeque;
use std::sync::Arc;

use vstd::prelude::*;

use crate::cluster::{
    law_written_manifests_hold_the_entries, write_entries_clustered, writes_entries, ManifestWrite,
    WriteSetting,
};
use crate::commit::{bucket_index_path, bucket_index_path_of, describe_root, describes};
use crate::compact_cold_tier::{carried_all, BucketIndexWrite};
use crate::fold::{is_unresolved, unresolved, ClosedRef, FoldSetting};
use crate::graduate_buckets::{
    batch_size, consolidates, dedupe_leaves_by_path, first_by_path, fold_batch_size,
    fold_surviving_entries, fold_would_consolidate,
    law_removed_files_are_found_among_the_live, law_survivors_are_exact, lists_removed,
    plan_graduated_node, surviving, GraduatedNodePlan,
};
use crate::manifest::{
    carried, existing_entry, DataFile, FormatVersion, ManifestContentType, ManifestEntry, ManifestFile,
    RootManifestEntry,
};
use crate::max_ts::{
    entry_views, maxts_sidecar, times_to_store, MaxTsMap, MaxTsWrite,
    MAXTS_SIDECAR_FORMAT_V1,
};
use crate::order::{is_stable_sort, law_stable_sort_is_by_key, stable_sort};
use crate::path_set::PathSet;
use crate::seqs::{
    lemma_filter_from, lemma_filter_places, lemma_filter_push, lemma_take_push, stands_at,
};
use crate::table::TableMetadata;
use crate::text::texts;

verus! {

/// The manifests of `refs`.
pub open spec fn closed_manifests(refs: Seq<ClosedRef>) -> Seq<ManifestFile> {
    refs.map_values(|r: ClosedRef| r.manifest_file)
}

/// The times of `refs`.
pub open spec fn closed_times(refs: Seq<ClosedRef>) -> Seq<i64> {
    refs.map_values(|r: ClosedRef| r.max_ts)
}

/// The manifests of `refs` as entries of a hot root.
pub open spec fn hot_entries(refs: Seq<ClosedRef>) -> Seq<RootManifestEntry> {
    refs.map_values(
        |r: ClosedRef| RootManifestEntry::ManifestRef { manifest_file: r.manifest_file, mdv: None },
    )
}

/// Whether `graduated` are the manifests of `closed` that move and `deferred` the entries that stay
/// hot for now: all move, or, where they are more than a bound, the coldest up to the bound.
pub open spec fn is_capped(
    closed: Seq<ClosedRef>,
    max_graduate: Option<usize>,
    graduated: Seq<ManifestFile>,
    deferred: Seq<RootManifestEntry>,
) -> bool {
    if max_graduate is None || closed.len() <= max_graduate->0 {
        graduated == closed_manifests(closed) && deferred.len() == 0
    } else {
        exists|sorted: Seq<ClosedRef>| #[trigger]
            is_stable_sort(closed, closed_times(closed), sorted) && graduated == closed_manifests(
                sorted.take(max_graduate->0 as int),
            ) && deferred == hot_entries(sorted.skip(max_graduate->0 as int))
    }
}

fn manifests_of(refs: Vec<ClosedRef>) -> (r: Vec<ManifestFile>)
    ensures
        r@ == closed_manifests(refs@),
{
    let ghost all = refs@;
    let mut r: Vec<ManifestFile> = Vec::with_capacity(refs.len());
    for c in iter: refs
        invariant
            iter.seq() == all,
            r@ == closed_manifests(all).take(iter.index() as int),
    {
        proof {
            lemma_take_push(closed_manifests(all), iter.index() as int);
        }
        r.push(c.manifest_file);
    }
    assert(closed_manifests(all).take(all.len() as int) =~= closed_manifests(all));
    r
}

/// Bounds how many closed manifests move at once: the coldest move first, and the others stay hot.
pub fn cap_graduation(
    closed: Vec<ClosedRef>,
    max_graduate: Option<usize>,
    kept: &mut Vec<RootManifestEntry>,
) -> (graduated: Vec<ManifestFile>)
    ensures
        exists|deferred: Seq<RootManifestEntry>| #[trigger]
            is_capped(closed@, max_graduate, graduated@, deferred) && final(kept)@ == old(kept)@
                + deferred,
{
    let ghost all = closed@;
    let ghost start = kept@;
    if let Some(cap) = max_graduate {
        if closed.len() > cap {
            let mut keys: Vec<i64> = Vec::with_capacity(closed.len());
            let mut i: usize = 0;
            while i < closed.len()
                invariant
                    i <= closed@.len(),
                    keys@ == closed_times(closed@).take(i as int),
                decreases closed@.len() - i,
            {
                keys.push(closed[i].max_ts);
                proof {
                    lemma_take_push(closed_times(closed@), i as int);
                }
                i = i + 1;
            }
            assert(closed_times(closed@).take(i as int) =~= closed_times(closed@));
            let mut moving = stable_sort(closed, &keys);
            let ghost sorted = moving@;
            let staying = moving.split_off(cap);
            assert(moving@ =~= sorted.take(cap as int));
            assert(staying@ =~= sorted.skip(cap as int));
            let ghost back = hot_entries(staying@);
            let ghost rest = staying@;
            assert(start + back.take(0) =~= start);
            for c in iter: staying
                invariant
                    iter.seq() == rest,
                    back == hot_entries(rest),
                    kept@ == start + back.take(iter.index() as int),
            {
                proof {
                    lemma_take_push(back, iter.index() as int);
                }
                kept.push(
                    RootManifestEntry::ManifestRef { manifest_file: c.manifest_file, mdv: None },
                );
                assert(kept@ =~= start + back.take(iter.index() + 1));
            }
            assert(back.take(rest.len() as int) =~= back);
            let graduated = manifests_of(moving);
            assert(is_capped(all, max_graduate, graduated@, back));
            return graduated;
        }
    }
    let graduated = manifests_of(closed);
    assert(is_capped(all, max_graduate, graduated@, Seq::empty()));
    assert(kept@ =~= start + Seq::<RootManifestEntry>::empty());
    graduated
}

/// A bound on graduation only defers: every closed manifest moves now or stays hot.
pub proof fn law_cap_only_defers(
    closed: Seq<ClosedRef>,
    max_graduate: Option<usize>,
    graduated: Seq<ManifestFile>,
    deferred: Seq<RootManifestEntry>,
    i: int,
)
    requires
        is_capped(closed, max_graduate, graduated, deferred),
        closed.len() <= usize::MAX,
        0 <= i < closed.len(),
    ensures
        graduated.len() + deferred.len() == closed.len(),
        max_graduate is Some ==> graduated.len() <= max_graduate->0,
        graduated.contains(closed[i].manifest_file) || deferred.contains(
            (RootManifestEntry::ManifestRef { manifest_file: closed[i].manifest_file, mdv: None }),
        ),
{
    if max_graduate is None || closed.len() <= max_graduate->0 {
        assert(graduated[i] == closed[i].manifest_file);
    } else {
        let cap = max_graduate->0 as int;
        let sorted = choose|sorted: Seq<ClosedRef>| #[trigger]
            is_stable_sort(closed, closed_times(closed), sorted) && graduated == closed_manifests(
                sorted.take(cap),
            ) && deferred == hot_entries(sorted.skip(cap));
        crate::order::law_stable_sort_keeps_every_item(
            closed,
            closed_times(closed),
            sorted,
            closed[i],
        );
        assert(closed.contains(closed[i]));
        let k = choose|k: int| 0 <= k < sorted.len() && sorted[k] == closed[i];
        if k < cap {
            assert(graduated[k] == closed[i].manifest_file);
        } else {
            assert(deferred[k - cap] == (RootManifestEntry::ManifestRef {
                manifest_file: closed[i].manifest_file,
                mdv: None,
            }));
        }
    }
}

/// Whether a fold changes nothing: no node or file is closed, and nothing was dropped.
pub fn nothing_to_fold(
    graduated: &[ManifestFile],
    files: &[Arc<DataFile>],
    ttl_dropped_paths: &[String],
) -> (r: bool)
    ensures
        r == (graduated@.len() == 0 && files@.len() == 0 && ttl_dropped_paths@.len() == 0),
{
    graduated.len() == 0 && files.len() == 0 && ttl_dropped_paths.len() == 0
}

/// Whether the times of all of `leaves`, of which there are some, are had without reading them: they
/// are stored, or summaries give them.
pub open spec fn covers_all(
    leaves: Seq<ManifestFile>,
    stored: Map<Seq<char>, Option<i64>>,
    s: FoldSetting,
) -> bool {
    leaves.len() > 0 && forall|i: int|
        0 <= i < leaves.len() ==> !unresolved(#[trigger] leaves[i], s, stored)
}

/// The times to store beside the bucket index that a fold leaves unchanged: none where no leaf has
/// to be read for its time.
pub fn warm_sidecar(
    leaves: &[ManifestFile],
    stored: &MaxTsMap,
    read: &MaxTsMap,
    read_hot: &MaxTsMap,
    setting: &FoldSetting,
) -> (r: Option<MaxTsWrite>)
    ensures
        r is None <==> covers_all(leaves@, stored@, *setting),
        r is Some ==> r->0.format_version == MAXTS_SIDECAR_FORMAT_V1 && r->0.ts_field_id
            == setting.ts_field_id && entry_views(r->0.entries@) == times_to_store(
            leaves@,
            stored@,
            read@,
            read_hot@,
        ),
{
    let mut covered = leaves.len() > 0;
    let mut i: usize = 0;
    while i < leaves.len()
        invariant
            i <= leaves@.len(),
            covered == (leaves@.len() > 0 && forall|k: int|
                0 <= k < i ==> !unresolved(#[trigger] leaves@[k], *setting, stored@)),
        decreases leaves@.len() - i,
    {
        if is_unresolved(&leaves[i], setting, stored) {
            covered = false;
        }
        i = i + 1;
    }
    if covered {
        None
    } else {
        Some(maxts_sidecar(leaves, stored, read, read_hot, setting.ts_field_id))
    }
}

/// Whether a node can be folded into new leaves of the spec `spec_id`: it lists data files, and is
/// of that spec.
pub open spec fn foldable(mf: ManifestFile, spec_id: i32) -> bool {
    mf.content == ManifestContentType::Data && mf.partition_spec_id == spec_id
}

/// The nodes that can be folded, or those that cannot.
pub open spec fn nodes_foldable(nodes: Seq<ManifestFile>, spec_id: i32, can: bool) -> Seq<ManifestFile> {
    nodes.filter(|mf: ManifestFile| foldable(mf, spec_id) == can)
}

/// Where a move into the cold tier stands.
pub struct MoveView {
    /// The cold leaves so far.
    pub leaves: Seq<ManifestFile>,
    /// The entries of closed files, to be written first.
    pub files: Seq<ManifestEntry>,
    /// The nodes that move as they are, behind the leaves of the closed files.
    pub moving: Seq<ManifestFile>,
    /// The nodes whose entries are asked for.
    pub nodes: Seq<ManifestFile>,
    /// How many of those, from the first on, are folded into new leaves.
    pub to_fold: nat,
    /// The entries to be folded.
    pub folded: Seq<ManifestEntry>,
}

/// Whether the nodes `graduated` are folded: folding is on, and worth the rewrite.
pub open spec fn folds(graduated: Seq<ManifestFile>, fold_leaves: Option<usize>) -> bool {
    fold_leaves is Some && consolidates(graduated)
}

/// How a move of the nodes `graduated` and the closed files `files` begins. Where nodes are folded,
/// the others are those that cannot be and those past the batch. What is not folded moves as it is,
/// unless files are pending removal; then each node has to be looked into.
pub open spec fn move_start(
    cold: Seq<ManifestFile>,
    graduated: Seq<ManifestFile>,
    files: Seq<Arc<DataFile>>,
    fold_leaves: Option<usize>,
    spec_id: i32,
    any_removed: bool,
) -> MoveView {
    if folds(graduated, fold_leaves) {
        let can = nodes_foldable(graduated, spec_id, true);
        let batch = batch_size(fold_leaves, can.len());
        let others = nodes_foldable(graduated, spec_id, false) + can.skip(batch as int);
        MoveView {
            leaves: if any_removed {
                cold
            } else {
                cold + others
            },
            files: Seq::empty(),
            moving: Seq::empty(),
            nodes: if any_removed {
                can.take(batch as int) + others
            } else {
                can.take(batch as int)
            },
            to_fold: batch,
            folded: carried_all(files),
        }
    } else {
        MoveView {
            leaves: cold,
            files: carried_all(files),
            moving: if any_removed {
                Seq::empty()
            } else {
                graduated
            },
            nodes: if any_removed {
                graduated
            } else {
                Seq::empty()
            },
            to_fold: 0,
            folded: Seq::empty(),
        }
    }
}

/// What could be read of a node.
pub open spec fn listed(entries: Option<&[ManifestEntry]>) -> Option<Seq<ManifestEntry>> {
    match entries {
        Some(e) => Some(e@),
        None => None,
    }
}

/// Where a move stands once its next node is taken, of which `entries` could be read while the
/// files in `removed` are pending removal. A node that could not be read moves as it is, and so
/// does one of which no file is to go, unless it is folded.
pub open spec fn node_taken(
    v: MoveView,
    entries: Option<Seq<ManifestEntry>>,
    removed: Set<Seq<char>>,
) -> MoveView {
    let node = v.nodes[0];
    let rest = MoveView {
        nodes: v.nodes.skip(1),
        to_fold: if v.to_fold > 0 {
            (v.to_fold - 1) as nat
        } else {
            0
        },
        ..v
    };
    match entries {
        None => MoveView { leaves: v.leaves.push(node), ..rest },
        Some(e) => if v.to_fold > 0 {
            MoveView { folded: v.folded + surviving(e, removed), ..rest }
        } else if !lists_removed(e, removed) {
            MoveView { leaves: v.leaves.push(node), ..rest }
        } else {
            rest
        },
    }
}

/// What is written anew of the next node of a move: what survives of it, where some of its files
/// are to go and it is not folded.
pub open spec fn node_written(
    v: MoveView,
    entries: Option<Seq<ManifestEntry>>,
    removed: Set<Seq<char>>,
) -> Seq<ManifestEntry> {
    match entries {
        Some(e) => if v.to_fold == 0 && lists_removed(e, removed) {
            surviving(e, removed)
        } else {
            Seq::empty()
        },
        None => Seq::empty(),
    }
}

/// Where a move stands once all of its nodes are taken, `list` saying what can be read of each.
pub open spec fn nodes_taken(
    v: MoveView,
    list: spec_fn(ManifestFile) -> Option<Seq<ManifestEntry>>,
    removed: Set<Seq<char>>,
) -> MoveView
    decreases v.nodes.len(),
{
    if v.nodes.len() == 0 {
        v
    } else {
        nodes_taken(node_taken(v, list(v.nodes[0]), removed), list, removed)
    }
}

/// What is written anew of all the nodes of a move.
pub open spec fn nodes_written(
    v: MoveView,
    list: spec_fn(ManifestFile) -> Option<Seq<ManifestEntry>>,
    removed: Set<Seq<char>>,
) -> Seq<ManifestEntry>
    decreases v.nodes.len(),
{
    if v.nodes.len() == 0 {
        Seq::empty()
    } else {
        node_written(v, list(v.nodes[0]), removed) + nodes_written(
            node_taken(v, list(v.nodes[0]), removed),
            list,
            removed,
        )
    }
}

/// A move into the cold tier, step by step.
pub struct ColdMove {
    leaves: Vec<ManifestFile>,
    files: Vec<ManifestEntry>,
    moving: Vec<ManifestFile>,
    nodes: VecDeque<ManifestFile>,
    to_fold: usize,
    folded: Vec<ManifestEntry>,
    inline_leaves: usize,
    counter: u64,
}

impl View for ColdMove {
    type V = MoveView;

    closed spec fn view(&self) -> MoveView {
        MoveView {
            leaves: self.leaves@,
            files: self.files@,
            moving: self.moving@,
            nodes: self.nodes@,
            to_fold: self.to_fold as nat,
            folded: self.folded@,
        }
    }
}

fn queue(nodes: Vec<ManifestFile>) -> (r: VecDeque<ManifestFile>)
    ensures
        r@ == nodes@,
{
    let ghost all = nodes@;
    let mut r: VecDeque<ManifestFile> = VecDeque::with_capacity(nodes.len());
    for mf in iter: nodes
        invariant
            iter.seq() == all,
            r@ == all.take(iter.index() as int),
    {
        proof {
            lemma_take_push(all, iter.index() as int);
        }
        r.push_back(mf);
    }
    assert(all.take(all.len() as int) =~= all);
    r
}

fn carry_all(files: Vec<Arc<DataFile>>) -> (r: Vec<ManifestEntry>)
    ensures
        r@ == carried_all(files@),
{
    let ghost all = files@;
    let mut r: Vec<ManifestEntry> = Vec::with_capacity(files.len());
    for f in iter: files
        invariant
            iter.seq() == all,
            r@ == carried_all(all).take(iter.index() as int),
    {
        proof {
            lemma_take_push(carried_all(all), iter.index() as int);
        }
        r.push(existing_entry(f));
    }
    assert(carried_all(all).take(all.len() as int) =~= carried_all(all));
    r
}

/// Where the manifests of a move are written.
pub struct MoveTarget {
    pub location: String,
    pub commit_id: u128,
    pub version: FormatVersion,
    pub spec_id: i32,
}

impl MoveTarget {
    /// What the manifests have in common.
    pub open spec fn setting(&self) -> WriteSetting {
        WriteSetting {
            location: self.location@,
            commit_id: self.commit_id,
            version: self.version,
        }
    }

    /// Whether `ws` write `entries` by partition, numbered from `first`.
    pub open spec fn written_by(
        &self,
        ws: Seq<ManifestWrite>,
        first: u64,
        entries: Seq<ManifestEntry>,
    ) -> bool {
        writes_entries(ws, self.setting(), first as int, self.spec_id, false, entries, true)
    }

    /// Whether `ws` write `entries`, which remain of the node `node`, by partition, numbered from
    /// `first`: what is left of a node keeps its partition spec and its content.
    pub open spec fn written_for(
        &self,
        node: ManifestFile,
        ws: Seq<ManifestWrite>,
        first: u64,
        entries: Seq<ManifestEntry>,
    ) -> bool {
        writes_entries(
            ws,
            self.setting(),
            first as int,
            node.partition_spec_id,
            node.content == ManifestContentType::Deletes,
            entries,
            true,
        )
    }
}

impl ColdMove {
    /// The number of the next manifest to write.
    pub closed spec fn counter(&self) -> u64 {
        self.counter
    }

    /// How many leaves the closed files were written to on their own.
    pub closed spec fn inline_count(&self) -> usize {
        self.inline_leaves
    }

    /// Begins a move of the nodes `graduated` and the closed files `files` behind the cold leaves
    /// `cold`.
    pub fn new(
        cold: Vec<ManifestFile>,
        graduated: Vec<ManifestFile>,
        files: Vec<Arc<DataFile>>,
        fold_leaves: Option<usize>,
        spec_id: i32,
        any_removed: bool,
        counter: u64,
    ) -> (r: Self)
        ensures
            r@ == move_start(cold@, graduated@, files@, fold_leaves, spec_id, any_removed),
            r.counter() == counter,
            r.inline_count() == 0,
    {
        let entries = carry_all(files);
        let ghost all = graduated@;
        let fold = fold_leaves.is_some() && fold_would_consolidate(graduated.as_slice());
        let mut leaves = cold;
        if fold {
            let ghost yes = |mf: ManifestFile| foldable(mf, spec_id) == true;
            let ghost no = |mf: ManifestFile| foldable(mf, spec_id) == false;
            let mut can: Vec<ManifestFile> = Vec::new();
            let mut others: Vec<ManifestFile> = Vec::new();
            for mf in iter: graduated
                invariant
                    iter.seq() == all,
                    yes == (|mf: ManifestFile| foldable(mf, spec_id) == true),
                    no == (|mf: ManifestFile| foldable(mf, spec_id) == false),
                    can@ == all.take(iter.index() as int).filter(yes),
                    others@ == all.take(iter.index() as int).filter(no),
            {
                proof {
                    let head = all.take(iter.index() as int);
                    lemma_take_push(all, iter.index() as int);
                    lemma_filter_push(head, mf, yes);
                    lemma_filter_push(head, mf, no);
                }
                if mf.content == ManifestContentType::Data && mf.partition_spec_id == spec_id {
                    can.push(mf);
                } else {
                    others.push(mf);
                }
            }
            assert(all.take(all.len() as int) =~= all);
            let ghost foldables = can@;
            let batch: usize = fold_batch_size(fold_leaves, can.len());
            let mut past = can.split_off(batch);
            assert(can@ =~= foldables.take(batch as int));
            assert(past@ =~= foldables.skip(batch as int));
            others.append(&mut past);
            if any_removed {
                can.append(&mut others);
            } else {
                leaves.append(&mut others);
            }
            ColdMove {
                leaves,
                files: Vec::new(),
                moving: Vec::new(),
                nodes: queue(can),
                to_fold: batch,
                folded: entries,
                inline_leaves: 0,
                counter,
            }
        } else {
            let none: Vec<ManifestFile> = Vec::new();
            let (moving, nodes) = if any_removed {
                (none, graduated)
            } else {
                (graduated, none)
            };
            ColdMove {
                leaves,
                files: entries,
                moving,
                nodes: queue(nodes),
                to_fold: 0,
                folded: Vec::new(),
                inline_leaves: 0,
                counter,
            }
        }
    }

    /// The manifests that the closed files are written to on their own.
    pub fn file_writes(&mut self, target: &MoveTarget) -> (ws: Vec<ManifestWrite>)
        requires
            old(self).counter() + old(self)@.files.len() <= u64::MAX,
        ensures
            target.written_by(ws@, old(self).counter(), old(self)@.files),
            final(self).counter() == old(self).counter() + ws@.len(),
            final(self)@ == (MoveView { files: Seq::empty(), ..old(self)@ }),
            final(self).inline_count() == old(self).inline_count(),
    {
        let mut entries: Vec<ManifestEntry> = Vec::new();
        std::mem::swap(&mut entries, &mut self.files);
        write_entries_clustered(
            target.location.as_str(),
            target.commit_id,
            target.version,
            &mut self.counter,
            target.spec_id,
            false,
            entries,
            true,
        )
    }

    /// How many entries of closed files are still to be written on their own.
    pub fn files_left(&self) -> (r: usize)
        ensures
            r == self@.files.len(),
    {
        self.files.len()
    }

    /// How many entries are folded so far.
    pub fn folded_left(&self) -> (r: usize)
        ensures
            r == self@.folded.len(),
    {
        self.folded.len()
    }

    /// The number of the next manifest to write.
    pub fn next_number(&self) -> (r: u64)
        ensures
            r == self.counter(),
    {
        self.counter
    }

    /// Takes in the leaves of the closed files, and moves the nodes that move as they are.
    pub fn add_file_leaves(&mut self, new_leaves: Vec<ManifestFile>)
        ensures
            final(self)@ == (MoveView {
                leaves: old(self)@.leaves + new_leaves@ + old(self)@.moving,
                moving: Seq::empty(),
                ..old(self)@
            }),
            final(self).inline_count() == new_leaves@.len(),
            final(self).counter() == old(self).counter(),
    {
        self.inline_leaves = new_leaves.len();
        let mut fresh = new_leaves;
        self.leaves.append(&mut fresh);
        self.leaves.append(&mut self.moving);
    }

    /// The node whose entries are asked for.
    pub fn next_node(&self) -> (r: Option<&ManifestFile>)
        ensures
            match r {
                Some(mf) => self@.nodes.len() > 0 && *mf == self@.nodes[0],
                None => self@.nodes.len() == 0,
            },
    {
        if self.nodes.len() == 0 {
            None
        } else {
            Some(&self.nodes[0])
        }
    }

    /// Takes in the entries of the next node, or that they could not be read. A node that could
    /// not be read moves as it is, and so does one of which no file is to go. What survives of the
    /// others is folded, or written to the manifests that are returned.
    pub fn add_node(
        &mut self,
        entries: Option<&[ManifestEntry]>,
        removed: &PathSet,
        target: &MoveTarget,
    ) -> (ws: Vec<ManifestWrite>)
        requires
            old(self)@.nodes.len() > 0,
            entries is Some ==> old(self).counter() + surviving(entries->0@, removed@).len()
                <= u64::MAX,
        ensures
            final(self).inline_count() == old(self).inline_count(),
            final(self).counter() == old(self).counter() + ws@.len(),
            final(self)@ == node_taken(old(self)@, listed(entries), removed@),
            target.written_for(
                old(self)@.nodes[0],
                ws@,
                old(self).counter(),
                node_written(old(self)@, listed(entries), removed@),
            ),
            node_written(old(self)@, listed(entries), removed@).len() == 0 ==> ws@.len() == 0,
    {
        let ghost before = *self;
        assert(before.nodes@.subrange(1, before.nodes@.len() as int) =~= before.nodes@.skip(1));
        let none: Vec<ManifestWrite> = Vec::new();
        assert(crate::cluster::written(none@) =~= Seq::empty());
        let folds = self.to_fold > 0;
        if folds {
            self.to_fold = self.to_fold - 1;
        }
        if let Some(node) = self.nodes.pop_front() {
            match entries {
                None => {
                    self.leaves.push(node);
                },
                Some(listed) => {
                    if folds {
                        let mut left = fold_surviving_entries(listed, removed);
                        self.folded.append(&mut left);
                    } else {
                        match plan_graduated_node(listed, removed) {
                            GraduatedNodePlan::ByReference => {
                                self.leaves.push(node);
                            },
                            GraduatedNodePlan::Skip => {},
                            GraduatedNodePlan::Materialize(left) => {
                                return write_entries_clustered(
                                    target.location.as_str(),
                                    target.commit_id,
                                    target.version,
                                    &mut self.counter,
                                    node.partition_spec_id,
                                    node.content == ManifestContentType::Deletes,
                                    left,
                                    true,
                                );
                            },
                        }
                    }
                },
            }
        }
        none
    }

    /// The manifests that `entries`, which remain of the leaf `leaf`, are written to.
    pub fn writes_for(
        &mut self,
        leaf: &ManifestFile,
        entries: Vec<ManifestEntry>,
        target: &MoveTarget,
    ) -> (ws: Vec<ManifestWrite>)
        requires
            old(self).counter() + entries@.len() <= u64::MAX,
        ensures
            target.written_for(*leaf, ws@, old(self).counter(), entries@),
            final(self).counter() == old(self).counter() + ws@.len(),
            final(self)@ == old(self)@,
            final(self).inline_count() == old(self).inline_count(),
    {
        write_entries_clustered(
            target.location.as_str(),
            target.commit_id,
            target.version,
            &mut self.counter,
            leaf.partition_spec_id,
            leaf.content == ManifestContentType::Deletes,
            entries,
            true,
        )
    }

    /// Takes in leaves that were written for a node, or for what was folded.
    pub fn add_leaves(&mut self, new_leaves: Vec<ManifestFile>)
        ensures
            final(self)@ == (MoveView { leaves: old(self)@.leaves + new_leaves@, ..old(self)@ }),
            final(self).inline_count() == old(self).inline_count(),
            final(self).counter() == old(self).counter(),
    {
        let mut fresh = new_leaves;
        self.leaves.append(&mut fresh);
    }

    /// The manifests that what was folded is written to, one for each partition.
    pub fn folded_writes(&mut self, target: &MoveTarget) -> (ws: Vec<ManifestWrite>)
        requires
            old(self).counter() + old(self)@.folded.len() <= u64::MAX,
        ensures
            target.written_by(ws@, old(self).counter(), old(self)@.folded),
            final(self).counter() == old(self).counter() + ws@.len(),
            final(self)@ == (MoveView { folded: Seq::empty(), ..old(self)@ }),
            final(self).inline_count() == old(self).inline_count(),
    {
        let mut entries: Vec<ManifestEntry> = Vec::new();
        std::mem::swap(&mut entries, &mut self.folded);
        write_entries_clustered(
            target.location.as_str(),
            target.commit_id,
            target.version,
            &mut self.counter,
            target.spec_id,
            false,
            entries,
            true,
        )
    }
}

/// What a fold that changed something has come to.
pub struct FoldOutcome {
    pub bucket_index_path: String,
    pub nodes_moved: usize,
    pub inline_leaves: usize,
    pub cold_leaves_total: usize,
    /// The paths of what was dropped for being past retention.
    pub ttl_dropped_paths: Vec<String>,
    /// The paths of the manifests that left the hot root; they stay live in the cold tier.
    pub graduated_ref_paths: Vec<String>,
}

/// What a fold writes at its end.
pub struct FoldFinish {
    pub index: BucketIndexWrite,
    pub sidecar: MaxTsWrite,
    pub outcome: FoldOutcome,
}

/// The paths of the manifests `graduated`.
pub fn paths_of(graduated: &[ManifestFile]) -> (r: Vec<String>)
    ensures
        texts(r@) == crate::cold_paths::leaf_paths(graduated@),
        r@.len() == graduated@.len(),
{
    let mut r: Vec<String> = Vec::with_capacity(graduated.len());
    let mut i: usize = 0;
    assert(texts(r@) =~= crate::cold_paths::leaf_paths(graduated@).take(0));
    while i < graduated.len()
        invariant
            i <= graduated@.len(),
            r@.len() == i,
            texts(r@) == crate::cold_paths::leaf_paths(graduated@).take(i as int),
        decreases graduated@.len() - i,
    {
        let ghost before = r@;
        r.push(graduated[i].manifest_path.clone());
        proof {
            lemma_take_push(crate::cold_paths::leaf_paths(graduated@), i as int);
            assert(texts(r@) =~= texts(before).push(graduated@[i as int].manifest_path@));
        }
        i = i + 1;
    }
    assert(crate::cold_paths::leaf_paths(graduated@).take(i as int)
        =~= crate::cold_paths::leaf_paths(graduated@));
    r
}

/// The bucket index, the stored times and the outcome of a move that is at its end. No leaf stands
/// in the index twice.
pub fn finish_fold(
    done: ColdMove,
    table: &TableMetadata,
    setting: &FoldSetting,
    stored: &MaxTsMap,
    read: &MaxTsMap,
    read_hot: &MaxTsMap,
    snapshot_id: i64,
    commit_id: u128,
    graduated_ref_paths: Vec<String>,
    ttl_dropped_paths: Vec<String>,
) -> (r: FoldFinish)
    requires
        table.has_next_sequence_number(),
        done@.nodes.len() == 0,
        done@.moving.len() == 0,
        done@.files.len() == 0,
        done@.folded.len() == 0,
    ensures
        r.index.leaves@ == first_by_path(done@.leaves),
        r.index.path@ == bucket_index_path(table.location@, snapshot_id, commit_id),
        describes(r.index.metadata, *table, snapshot_id, None, None, 0, Seq::empty()),
        r.sidecar.format_version == MAXTS_SIDECAR_FORMAT_V1,
        r.sidecar.ts_field_id == setting.ts_field_id,
        entry_views(r.sidecar.entries@) == times_to_store(
            r.index.leaves@,
            stored@,
            read@,
            read_hot@,
        ),
        r.outcome.bucket_index_path@ == r.index.path@,
        r.outcome.nodes_moved == graduated_ref_paths@.len(),
        r.outcome.inline_leaves == done.inline_count(),
        r.outcome.cold_leaves_total == r.index.leaves@.len(),
        r.outcome.ttl_dropped_paths == ttl_dropped_paths,
        r.outcome.graduated_ref_paths == graduated_ref_paths,
{
    let mut leaves = done.leaves;
    dedupe_leaves_by_path(&mut leaves);
    let path = bucket_index_path_of(table.location.as_str(), snapshot_id, commit_id);
    let none: Vec<String> = Vec::new();
    assert(texts(none@) =~= Seq::<Seq<char>>::empty());
    let metadata = describe_root(table, snapshot_id, None, None, 0, none);
    let sidecar = maxts_sidecar(leaves.as_slice(), stored, read, read_hot, setting.ts_field_id);
    let outcome = FoldOutcome {
        bucket_index_path: path.clone(),
        nodes_moved: graduated_ref_paths.len(),
        inline_leaves: done.inline_leaves,
        cold_leaves_total: leaves.len(),
        ttl_dropped_paths,
        graduated_ref_paths,
    };
    FoldFinish { index: BucketIndexWrite { path, metadata, leaves }, sidecar, outcome }
}

proof fn lemma_move_grows(
    v: MoveView,
    list: spec_fn(ManifestFile) -> Option<Seq<ManifestEntry>>,
    removed: Set<Seq<char>>,
)
    ensures
        v.leaves.is_prefix_of(nodes_taken(v, list, removed).leaves),
        v.folded.is_prefix_of(nodes_taken(v, list, removed).folded),
        nodes_taken(v, list, removed).moving == v.moving,
        nodes_taken(v, list, removed).files == v.files,
    decreases v.nodes.len(),
{
    if v.nodes.len() > 0 {
        lemma_move_grows(node_taken(v, list(v.nodes[0]), removed), list, removed);
    }
}

/// No live file of a node is lost on its way into the cold tier, unless it is to go: its node moves
/// as it is, or the file is folded, or it is written anew.
pub proof fn law_move_loses_no_file(
    v: MoveView,
    list: spec_fn(ManifestFile) -> Option<Seq<ManifestEntry>>,
    removed: Set<Seq<char>>,
    n: int,
    i: int,
)
    requires
        0 <= n < v.nodes.len(),
        list(v.nodes[n]) is Some,
        0 <= i < list(v.nodes[n])->0.len(),
        list(v.nodes[n])->0[i].alive(),
        !removed.contains(list(v.nodes[n])->0[i].data_file.file_path@),
    ensures
        ({
            let file = list(v.nodes[n])->0[i].data_file;
            ||| nodes_taken(v, list, removed).leaves.contains(v.nodes[n])
            ||| nodes_taken(v, list, removed).folded.contains(carried(file))
            ||| nodes_written(v, list, removed).contains(carried(file))
        }),
    decreases v.nodes.len(),
{
    let entries = list(v.nodes[n])->0;
    let file = entries[i].data_file;
    let next = node_taken(v, list(v.nodes[0]), removed);
    let after = nodes_taken(next, list, removed);
    let later = nodes_written(next, list, removed);
    let now = node_written(v, list(v.nodes[0]), removed);
    if n > 0 {
        assert(next.nodes[n - 1] == v.nodes[n]);
        law_move_loses_no_file(next, list, removed, n - 1, i);
        if later.contains(carried(file)) {
            let k = choose|k: int| 0 <= k < later.len() && later[k] == carried(file);
            assert((now + later)[now.len() + k] == carried(file));
        }
    } else {
        lemma_move_grows(next, list, removed);
        law_survivors_are_exact(entries, removed, file);
        let left = surviving(entries, removed);
        let k = choose|k: int| 0 <= k < left.len() && left[k] == carried(file);
        if v.to_fold > 0 {
            assert(next.folded[v.folded.len() + k] == carried(file));
            assert(after.folded[v.folded.len() + k] == carried(file));
        } else if lists_removed(entries, removed) {
            assert((now + later)[k] == carried(file));
        } else {
            assert(next.leaves[v.leaves.len() as int] == v.nodes[0]);
            assert(after.leaves[v.leaves.len() as int] == v.nodes[0]);
        }
    }
}

/// A file that is to go never reaches the cold tier through a node that is looked into: it is
/// neither folded nor written anew, and a node that lists it moves as it is only where it could not
/// be read.
pub proof fn law_move_brings_no_removed_file(
    v: MoveView,
    list: spec_fn(ManifestFile) -> Option<Seq<ManifestEntry>>,
    removed: Set<Seq<char>>,
)
    ensures
        forall|e: ManifestEntry| #[trigger]
            nodes_written(v, list, removed).contains(e) ==> !removed.contains(
                e.data_file.file_path@,
            ),
        forall|e: ManifestEntry| #[trigger]
            nodes_taken(v, list, removed).folded.contains(e) ==> v.folded.contains(e)
                || !removed.contains(e.data_file.file_path@),
        forall|k: int|
            v.leaves.len() <= k < nodes_taken(v, list, removed).leaves.len() ==> {
                let mf = #[trigger] nodes_taken(v, list, removed).leaves[k];
                list(mf) is None || !lists_removed(list(mf)->0, removed)
            },
    decreases v.nodes.len(),
{
    if v.nodes.len() > 0 {
        let node = v.nodes[0];
        let next = node_taken(v, list(node), removed);
        let now = node_written(v, list(node), removed);
        let later = nodes_written(next, list, removed);
        law_move_brings_no_removed_file(next, list, removed);
        assert forall|e: ManifestEntry| list(node) is Some && #[trigger] surviving(
            list(node)->0,
            removed,
        ).contains(e) implies !removed.contains(e.data_file.file_path@) by {
            let left = surviving(list(node)->0, removed);
            let k = choose|k: int| 0 <= k < left.len() && left[k] == e;
            assert(e == carried(e.data_file));
            law_survivors_are_exact(list(node)->0, removed, e.data_file);
        }
        assert forall|e: ManifestEntry| #[trigger]
            nodes_written(v, list, removed).contains(e) implies !removed.contains(
            e.data_file.file_path@,
        ) by {
            let k = choose|k: int| 0 <= k < (now + later).len() && (now + later)[k] == e;
            if k < now.len() {
                assert(now.contains(now[k]));
                assert(surviving(list(node)->0, removed).contains(e));
            } else {
                assert(later[k - now.len()] == e);
                assert(later.contains(e));
            }
        }
        assert forall|e: ManifestEntry| #[trigger]
            nodes_taken(v, list, removed).folded.contains(e) implies v.folded.contains(e)
            || !removed.contains(e.data_file.file_path@) by {
            assert(nodes_taken(next, list, removed).folded.contains(e));
            if next.folded.contains(e) && list(node) is Some {
                let left = surviving(list(node)->0, removed);
                let k = choose|k: int| 0 <= k < next.folded.len() && next.folded[k] == e;
                if k < v.folded.len() {
                    assert(v.folded[k] == e);
                } else {
                    assert(left[k - v.folded.len()] == e);
                    assert(left.contains(e));
                }
            }
        }
        lemma_move_grows(next, list, removed);
        assert forall|k: int|
            v.leaves.len() <= k < nodes_taken(v, list, removed).leaves.len() implies ({
            let mf = #[trigger] nodes_taken(v, list, removed).leaves[k];
            list(mf) is None || !lists_removed(list(mf)->0, removed)
        }) by {
            let end = nodes_taken(next, list, removed);
            if k < next.leaves.len() {
                assert(end.leaves[k] == next.leaves[k]);
                assert(next.leaves[k] == node);
            } else {
                assert(end.leaves[k] == nodes_taken(v, list, removed).leaves[k]);
            }
        }
    }
}

/// A file that is to go never reaches the cold tier with a graduation: no leaf that is added lists
/// it, unless its node could not be read, and no entry of a node that is folded or written anew is
/// of it.
pub proof fn law_graduation_brings_no_removed_file(
    cold: Seq<ManifestFile>,
    graduated: Seq<ManifestFile>,
    files: Seq<Arc<DataFile>>,
    fold_leaves: Option<usize>,
    spec_id: i32,
    list: spec_fn(ManifestFile) -> Option<Seq<ManifestEntry>>,
    removed: Set<Seq<char>>,
)
    ensures
        ({
            let start = move_start(
                cold,
                graduated,
                files,
                fold_leaves,
                spec_id,
                !removed.is_empty(),
            );
            let end = nodes_taken(start, list, removed);
            &&& cold.is_prefix_of(end.leaves)
            &&& forall|k: int|
                cold.len() <= k < end.leaves.len() ==> list(#[trigger] end.leaves[k]) is None
                    || !lists_removed(list(end.leaves[k])->0, removed)
            &&& forall|k: int|
                0 <= k < end.moving.len() ==> list(#[trigger] end.moving[k]) is None
                    || !lists_removed(list(end.moving[k])->0, removed)
            &&& forall|e: ManifestEntry| #[trigger]
                end.folded.contains(e) ==> carried_all(files).contains(e) || !removed.contains(
                    e.data_file.file_path@,
                )
            &&& forall|e: ManifestEntry| #[trigger]
                nodes_written(start, list, removed).contains(e) ==> !removed.contains(
                    e.data_file.file_path@,
                )
        }),
{
    let start = move_start(cold, graduated, files, fold_leaves, spec_id, !removed.is_empty());
    let end = nodes_taken(start, list, removed);
    law_move_brings_no_removed_file(start, list, removed);
    lemma_move_grows(start, list, removed);
    assert(cold.is_prefix_of(start.leaves));
    assert forall|k: int| cold.len() <= k < end.leaves.len() implies list(
        #[trigger] end.leaves[k],
    ) is None || !lists_removed(list(end.leaves[k])->0, removed) by {
        if k < start.leaves.len() {
            assert(removed.is_empty());
        } else {
            assert(nodes_taken(start, list, removed).leaves[k] == end.leaves[k]);
        }
    }
    assert forall|k: int| 0 <= k < end.moving.len() implies list(#[trigger] end.moving[k]) is None
        || !lists_removed(list(end.moving[k])->0, removed) by {
        assert(removed.is_empty());
    }
    assert forall|e: ManifestEntry| #[trigger] end.folded.contains(e) implies carried_all(
        files,
    ).contains(e) || !removed.contains(e.data_file.file_path@) by {
        if start.folded.contains(e) {
            assert(start.folded.len() > 0);
        }
    }
}

/// Whether the manifest `mf` lists the file `file` live.
pub open spec fn lists_live(
    list: spec_fn(ManifestFile) -> Option<Seq<ManifestEntry>>,
    mf: ManifestFile,
    file: Arc<DataFile>,
) -> bool {
    list(mf) is Some && exists|i: int|
        0 <= i < list(mf)->0.len() && (#[trigger] list(mf)->0[i]).alive()
            && list(mf)->0[i].data_file == file
}

/// Whether one of `nodes` lists the file `file` live.
pub open spec fn any_lists_live(
    list: spec_fn(ManifestFile) -> Option<Seq<ManifestEntry>>,
    nodes: Seq<ManifestFile>,
    file: Arc<DataFile>,
) -> bool {
    exists|n: int| 0 <= n < nodes.len() && lists_live(list, #[trigger] nodes[n], file)
}

/// Whether the file `file` is on its way into the cold tier, `old` leaves having been there before:
/// a leaf that was added lists it, or will, or it is written, or a node that is still to be taken
/// lists it and it is not to go.
pub open spec fn under_way(
    v: MoveView,
    written: Seq<ManifestEntry>,
    old: nat,
    list: spec_fn(ManifestFile) -> Option<Seq<ManifestEntry>>,
    removed: Set<Seq<char>>,
    file: Arc<DataFile>,
) -> bool {
    ||| any_lists_live(list, v.leaves.skip(old as int), file)
    ||| any_lists_live(list, v.moving, file)
    ||| v.files.contains(carried(file))
    ||| v.folded.contains(carried(file))
    ||| written.contains(carried(file))
    ||| any_lists_live(list, v.nodes, file) && !removed.contains(file.file_path@)
}

proof fn lemma_any_push(
    list: spec_fn(ManifestFile) -> Option<Seq<ManifestEntry>>,
    nodes: Seq<ManifestFile>,
    mf: ManifestFile,
    file: Arc<DataFile>,
)
    ensures
        any_lists_live(list, nodes.push(mf), file) == (any_lists_live(list, nodes, file)
            || lists_live(list, mf, file)),
{
    let longer = nodes.push(mf);
    if any_lists_live(list, nodes, file) {
        let n = choose|n: int| 0 <= n < nodes.len() && lists_live(list, #[trigger] nodes[n], file);
        assert(lists_live(list, longer[n], file));
    }
    if lists_live(list, mf, file) {
        assert(lists_live(list, longer[nodes.len() as int], file));
    }
    if any_lists_live(list, longer, file) {
        let n = choose|n: int| 0 <= n < longer.len() && lists_live(list, #[trigger] longer[n], file);
        if n < nodes.len() {
            assert(lists_live(list, nodes[n], file));
        }
    }
}

proof fn lemma_any_add(
    list: spec_fn(ManifestFile) -> Option<Seq<ManifestEntry>>,
    a: Seq<ManifestFile>,
    b: Seq<ManifestFile>,
    file: Arc<DataFile>,
)
    ensures
        any_lists_live(list, a + b, file) == (any_lists_live(list, a, file) || any_lists_live(
            list,
            b,
            file,
        )),
    decreases b.len(),
{
    if b.len() == 0 {
        assert(a + b =~= a);
    } else {
        lemma_any_add(list, a, b.drop_last(), file);
        lemma_any_push(list, a + b.drop_last(), b.last(), file);
        lemma_any_push(list, b.drop_last(), b.last(), file);
        assert((a + b.drop_last()).push(b.last()) =~= a + b);
        assert(b.drop_last().push(b.last()) =~= b);
    }
}

proof fn lemma_contains_add(a: Seq<ManifestEntry>, b: Seq<ManifestEntry>, e: ManifestEntry)
    ensures
        (a + b).contains(e) == (a.contains(e) || b.contains(e)),
{
    if a.contains(e) {
        let k = choose|k: int| 0 <= k < a.len() && a[k] == e;
        assert((a + b)[k] == e);
    }
    if b.contains(e) {
        let k = choose|k: int| 0 <= k < b.len() && b[k] == e;
        assert((a + b)[a.len() + k] == e);
    }
    if (a + b).contains(e) {
        let k = choose|k: int| 0 <= k < (a + b).len() && (a + b)[k] == e;
        if k < a.len() {
            assert(a[k] == e);
        } else {
            assert(b[k - a.len()] == e);
        }
    }
}

proof fn lemma_under_way_is_kept(
    v: MoveView,
    written: Seq<ManifestEntry>,
    old: nat,
    list: spec_fn(ManifestFile) -> Option<Seq<ManifestEntry>>,
    removed: Set<Seq<char>>,
    file: Arc<DataFile>,
)
    requires
        old <= v.leaves.len(),
        forall|n: int| 0 <= n < v.nodes.len() ==> list(#[trigger] v.nodes[n]) is Some,
    ensures
        under_way(v, written, old, list, removed, file) == under_way(
            nodes_taken(v, list, removed),
            written + nodes_written(v, list, removed),
            old,
            list,
            removed,
            file,
        ),
    decreases v.nodes.len(),
{
    if v.nodes.len() == 0 {
        assert(written + nodes_written(v, list, removed) =~= written);
    } else {
        let node = v.nodes[0];
        let e = list(node)->0;
        let next = node_taken(v, list(node), removed);
        let now = node_written(v, list(node), removed);
        let left = surviving(e, removed);
        assert(list(v.nodes[0]) is Some);
        assert forall|n: int| 0 <= n < next.nodes.len() implies list(
            #[trigger] next.nodes[n],
        ) is Some by {
            assert(next.nodes[n] == v.nodes[n + 1]);
        }
        lemma_under_way_is_kept(next, written + now, old, list, removed, file);
        assert((written + now) + nodes_written(next, list, removed) =~= written + nodes_written(
            v,
            list,
            removed,
        ));
        law_survivors_are_exact(e, removed, file);
        assert(left.contains(carried(file)) == (!removed.contains(file.file_path@) && lists_live(
            list,
            node,
            file,
        )));
        assert(seq![node] + v.nodes.skip(1) =~= v.nodes);
        lemma_any_add(list, seq![node], v.nodes.skip(1), file);
        lemma_any_push(list, Seq::empty(), node, file);
        assert(Seq::<ManifestFile>::empty().push(node) =~= seq![node]);
        assert(!any_lists_live(list, Seq::<ManifestFile>::empty(), file));
        lemma_contains_add(written, now, carried(file));
        lemma_contains_add(v.folded, left, carried(file));
        assert(v.leaves.push(node).skip(old as int) =~= v.leaves.skip(old as int).push(node));
        lemma_any_push(list, v.leaves.skip(old as int), node, file);
        if !lists_removed(e, removed) && lists_live(list, node, file) {
            let i = choose|i: int|
                0 <= i < list(node)->0.len() && (#[trigger] list(node)->0[i]).alive()
                    && list(node)->0[i].data_file == file;
            assert(e[i].alive());
        }
    }
}

/// What enters the cold tier does not depend on how many nodes are folded, or whether any are: it
/// is the closed files, and the live files of the graduating nodes that are not to go, where the
/// nodes can be read.
pub proof fn law_folding_changes_no_file(
    cold: Seq<ManifestFile>,
    graduated: Seq<ManifestFile>,
    files: Seq<Arc<DataFile>>,
    fold_leaves: Option<usize>,
    spec_id: i32,
    list: spec_fn(ManifestFile) -> Option<Seq<ManifestEntry>>,
    removed: Set<Seq<char>>,
    file: Arc<DataFile>,
)
    requires
        forall|n: int| 0 <= n < graduated.len() ==> list(#[trigger] graduated[n]) is Some,
    ensures
        ({
            let start = move_start(
                cold,
                graduated,
                files,
                fold_leaves,
                spec_id,
                !removed.is_empty(),
            );
            let end = nodes_taken(start, list, removed);
            let written = nodes_written(start, list, removed);
            under_way(end, written, cold.len(), list, removed, file) <==> files.contains(file)
                || any_lists_live(list, graduated, file) && !removed.contains(file.file_path@)
        }),
{
    let start = move_start(cold, graduated, files, fold_leaves, spec_id, !removed.is_empty());
    let none = Seq::<ManifestEntry>::empty();
    let no_node = Seq::<ManifestFile>::empty();
    let can = nodes_foldable(graduated, spec_id, true);
    let cannot = nodes_foldable(graduated, spec_id, false);
    let batch = batch_size(fold_leaves, can.len()) as int;
    lemma_parts_list_alike(graduated, spec_id, list, file);
    lemma_any_add(list, can.take(batch), can.skip(batch), file);
    assert(can.take(batch) + can.skip(batch) =~= can);
    lemma_any_add(list, cannot, can.skip(batch), file);
    lemma_any_add(list, can.take(batch), cannot + can.skip(batch), file);
    assert(!any_lists_live(list, no_node, file));
    assert(cold.skip(cold.len() as int) =~= no_node);
    assert((cold + (cannot + can.skip(batch))).skip(cold.len() as int) =~= cannot + can.skip(
        batch,
    ));
    assert(carried_all(files).contains(carried(file)) == files.contains(file)) by {
        if files.contains(file) {
            let k = choose|k: int| 0 <= k < files.len() && files[k] == file;
            assert(carried_all(files)[k] == carried(file));
        }
        if carried_all(files).contains(carried(file)) {
            let k = choose|k: int|
                0 <= k < carried_all(files).len() && carried_all(files)[k] == carried(file);
            assert(carried(files[k]).data_file == file);
        }
    }
    assert(!none.contains(carried(file)));
    assert(under_way(start, none, cold.len(), list, removed, file) == (files.contains(file)
        || any_lists_live(list, graduated, file) && !removed.contains(file.file_path@)));
    assert forall|n: int| 0 <= n < start.nodes.len() implies list(
        #[trigger] start.nodes[n],
    ) is Some by {
        lemma_nodes_are_graduated(cold, graduated, files, fold_leaves, spec_id, !removed.is_empty(), n);
    }
    lemma_under_way_is_kept(start, none, cold.len(), list, removed, file);
    assert(none + nodes_written(start, list, removed) =~= nodes_written(start, list, removed));
}

proof fn lemma_nodes_are_graduated(
    cold: Seq<ManifestFile>,
    graduated: Seq<ManifestFile>,
    files: Seq<Arc<DataFile>>,
    fold_leaves: Option<usize>,
    spec_id: i32,
    any_removed: bool,
    n: int,
)
    requires
        0 <= n < move_start(cold, graduated, files, fold_leaves, spec_id, any_removed).nodes.len(),
    ensures
        exists|k: int|
            0 <= k < graduated.len() && #[trigger] graduated[k] == move_start(
                cold,
                graduated,
                files,
                fold_leaves,
                spec_id,
                any_removed,
            ).nodes[n],
{
    let nodes = move_start(cold, graduated, files, fold_leaves, spec_id, any_removed).nodes;
    if folds(graduated, fold_leaves) {
        let yes = |mf: ManifestFile| foldable(mf, spec_id) == true;
        let no = |mf: ManifestFile| foldable(mf, spec_id) == false;
        let can = graduated.filter(yes);
        let cannot = graduated.filter(no);
        let batch = batch_size(fold_leaves, can.len()) as int;
        if n < batch {
            assert(nodes[n] == can[n]);
            lemma_filter_from(graduated, yes, n);
        } else if n < batch + cannot.len() {
            assert(nodes[n] == cannot[n - batch]);
            lemma_filter_from(graduated, no, n - batch);
        } else {
            let j = n - cannot.len();
            assert(nodes[n] == can[j]);
            lemma_filter_from(graduated, yes, j);
        }
    } else {
        assert(graduated[n] == nodes[n]);
    }
}

proof fn lemma_parts_list_alike(
    nodes: Seq<ManifestFile>,
    spec_id: i32,
    list: spec_fn(ManifestFile) -> Option<Seq<ManifestEntry>>,
    file: Arc<DataFile>,
)
    ensures
        any_lists_live(list, nodes, file) == (any_lists_live(
            list,
            nodes_foldable(nodes, spec_id, true),
            file,
        ) || any_lists_live(list, nodes_foldable(nodes, spec_id, false), file)),
    decreases nodes.len(),
{
    let yes = |mf: ManifestFile| foldable(mf, spec_id) == true;
    let no = |mf: ManifestFile| foldable(mf, spec_id) == false;
    reveal(Seq::filter);
    if nodes.len() > 0 {
        let rest = nodes.drop_last();
        let last = nodes.last();
        lemma_parts_list_alike(rest, spec_id, list, file);
        lemma_any_push(list, rest, last, file);
        assert(rest.push(last) =~= nodes);
        lemma_any_push(list, rest.filter(yes), last, file);
        lemma_any_push(list, rest.filter(no), last, file);
        lemma_filter_push(rest, last, yes);
        lemma_filter_push(rest, last, no);
    }
}

/// Folding bounds how many nodes are folded, never how many graduate: every node moves in the same
/// pass, as it is or by its entries.
pub proof fn law_fold_does_not_bound_graduation(
    cold: Seq<ManifestFile>,
    graduated: Seq<ManifestFile>,
    files: Seq<Arc<DataFile>>,
    fold_leaves: Option<usize>,
    spec_id: i32,
    any_removed: bool,
)
    ensures
        ({
            let v = move_start(cold, graduated, files, fold_leaves, spec_id, any_removed);
            &&& v.leaves.len() - cold.len() + v.moving.len() + v.nodes.len() == graduated.len()
            &&& v.to_fold <= v.nodes.len()
            &&& v.to_fold > 0 ==> v.to_fold <= fold_leaves->0
            &&& v.files.len() + v.folded.len() == files.len()
        }),
{
    if folds(graduated, fold_leaves) {
        lemma_parts_add_up(graduated, spec_id);
    }
}

proof fn lemma_parts_add_up(nodes: Seq<ManifestFile>, spec_id: i32)
    ensures
        nodes_foldable(nodes, spec_id, true).len() + nodes_foldable(nodes, spec_id, false).len()
            == nodes.len(),
    decreases nodes.len(),
{
    reveal(Seq::filter);
    if nodes.len() > 0 {
        lemma_parts_add_up(nodes.drop_last(), spec_id);
    }
}

/// The coldest nodes graduate first. Where there are no more closed nodes than may graduate, all
/// do, in their order. Otherwise they stand by rising time, nodes of one time in their order: the
/// first ones graduate, as many as may, and the others go back to the root as they were.
pub proof fn law_coldest_nodes_graduate_first(
    closed: Seq<ClosedRef>,
    max_graduate: Option<usize>,
    graduated: Seq<ManifestFile>,
    deferred: Seq<RootManifestEntry>,
) -> (order: Seq<usize>)
    requires
        is_capped(closed, max_graduate, graduated, deferred),
        closed.len() <= usize::MAX,
    ensures
        max_graduate is None || closed.len() <= max_graduate->0 ==> deferred.len() == 0
            && graduated.len() == closed.len() && forall|k: int|
            0 <= k < closed.len() ==> graduated[k] == (#[trigger] closed[k]).manifest_file,
        max_graduate is Some && closed.len() > max_graduate->0 ==> {
            &&& order.len() == closed.len()
            &&& graduated.len() == max_graduate->0
            &&& deferred.len() == closed.len() - max_graduate->0
            &&& forall|p: usize| p < closed.len() ==> #[trigger] order.contains(p)
            &&& forall|k: int| 0 <= k < order.len() ==> #[trigger] order[k] < closed.len()
            &&& forall|j: int, k: int|
                0 <= j < k < order.len() ==> closed[#[trigger] order[j] as int].max_ts <= closed[
                #[trigger] order[k] as int].max_ts && (closed[order[j] as int].max_ts
                    == closed[order[k] as int].max_ts ==> order[j] < order[k])
            &&& forall|k: int|
                0 <= k < graduated.len() ==> #[trigger] graduated[k]
                    == closed[order[k] as int].manifest_file
            &&& forall|k: int|
                0 <= k < deferred.len() ==> #[trigger] deferred[k]
                    == (RootManifestEntry::ManifestRef {
                    manifest_file: closed[order[max_graduate->0 + k] as int].manifest_file,
                    mdv: None,
                })
        },
{
    if max_graduate is None || closed.len() <= max_graduate->0 {
        Seq::empty()
    } else {
        let cap = max_graduate->0 as int;
        let sorted = choose|sorted: Seq<ClosedRef>| #[trigger]
            is_stable_sort(closed, closed_times(closed), sorted) && graduated == closed_manifests(
                sorted.take(cap),
            ) && deferred == hot_entries(sorted.skip(cap));
        let order = law_stable_sort_is_by_key(closed, closed_times(closed), sorted);
        assert forall|j: int, k: int| 0 <= j < k < order.len() implies closed[
        #[trigger] order[j] as int].max_ts <= closed[#[trigger] order[k] as int].max_ts && (
        closed[order[j] as int].max_ts == closed[order[k] as int].max_ts ==> order[j]
            < order[k]) by {
            assert(closed_times(closed)[order[j] as int] == closed[order[j] as int].max_ts);
            assert(closed_times(closed)[order[k] as int] == closed[order[k] as int].max_ts);
        }
        assert forall|k: int| 0 <= k < graduated.len() implies #[trigger] graduated[k]
            == closed[order[k] as int].manifest_file by {
            assert(sorted.take(cap)[k] == sorted[k]);
            assert(sorted[k] == closed[order[k] as int]);
        }
        assert forall|k: int| 0 <= k < deferred.len() implies #[trigger] deferred[k]
            == (RootManifestEntry::ManifestRef {
            manifest_file: closed[order[cap + k] as int].manifest_file,
            mdv: None,
        }) by {
            assert(sorted.skip(cap)[k] == sorted[cap + k]);
            assert(sorted[cap + k] == closed[order[cap + k] as int]);
        }
        order
    }
}

/// Only data manifests of the spec are folded; the nodes that are folded, or those that are not,
/// stand in their order.
pub proof fn law_only_data_of_the_spec_is_foldable(nodes: Seq<ManifestFile>, spec_id: i32, can: bool) -> (places:
    Seq<int>)
    ensures
        stands_at(nodes_foldable(nodes, spec_id, can), nodes, places),
        forall|i: int|
            0 <= i < nodes.len() ==> (places.contains(i) <==> can == ((#[trigger] nodes[i]).content
                is Data && nodes[i].partition_spec_id == spec_id)),
{
    let keep = |mf: ManifestFile| foldable(mf, spec_id) == can;
    lemma_filter_places(nodes, keep)
}

/// A move starts with the cold leaves as they are. Where folding is not asked for or does not pay,
/// nothing is folded: the nodes move as they are, or are read first where some path is removed.
/// Where it does, the nodes that are folded are data manifests of the spec, as many as asked for,
/// and every other node goes on as a leaf, or is read first where some path is removed.
pub proof fn law_move_starts_from_the_cold_leaves(
    cold: Seq<ManifestFile>,
    graduated: Seq<ManifestFile>,
    files: Seq<Arc<DataFile>>,
    fold_leaves: Option<usize>,
    spec_id: i32,
    any_removed: bool,
    k: int,
)
    ensures
        ({
            let v = move_start(cold, graduated, files, fold_leaves, spec_id, any_removed);
            &&& cold.is_prefix_of(v.leaves)
            &&& fold_leaves is None || !consolidates(graduated) ==> {
                &&& v.to_fold == 0
                &&& v.folded.len() == 0
                &&& v.leaves == cold
                &&& v.files == carried_all(files)
                &&& any_removed ==> v.nodes == graduated && v.moving.len() == 0
                &&& !any_removed ==> v.moving == graduated && v.nodes.len() == 0
            }
            &&& fold_leaves is Some && consolidates(graduated) ==> {
                &&& v.files.len() == 0
                &&& v.moving.len() == 0
                &&& v.folded == carried_all(files)
                &&& v.to_fold <= fold_leaves->0
                &&& any_removed ==> v.leaves == cold
                &&& !any_removed ==> v.nodes.len() == v.to_fold
                &&& 0 <= k < v.to_fold ==> v.nodes[k].content is Data
                    && v.nodes[k].partition_spec_id == spec_id && graduated.contains(v.nodes[k])
            }
        }),
{
    let v = move_start(cold, graduated, files, fold_leaves, spec_id, any_removed);
    assert(cold =~= v.leaves.take(cold.len() as int));
    if folds(graduated, fold_leaves) && 0 <= k < v.to_fold {
        let can = nodes_foldable(graduated, spec_id, true);
        let places = law_only_data_of_the_spec_is_foldable(graduated, spec_id, true);
        assert(v.nodes[k] == can[k]);
        assert(places.contains(places[k]));
        assert(graduated[places[k]] == can[k]);
    }
}

/// A node whose entries are not known moves as it is, and so does one that is not folded and lists
/// no removed file; one that is folded gives its survivors to the fold; any other gives them to
/// manifests of its own.
pub proof fn law_node_moves_folds_or_is_rewritten(
    v: MoveView,
    entries: Option<Seq<ManifestEntry>>,
    removed: Set<Seq<char>>,
)
    requires
        v.nodes.len() > 0,
    ensures
        ({
            let after = node_taken(v, entries, removed);
            let written = node_written(v, entries, removed);
            let node = v.nodes[0];
            let hit = entries is Some && exists|i: int|
                0 <= i < entries->0.len() && ((#[trigger] entries->0[i]).status is Existing
                    || entries->0[i].status is Added) && removed.contains(
                    entries->0[i].data_file.file_path@,
                );
            &&& after.nodes == v.nodes.skip(1)
            &&& after.files == v.files
            &&& after.moving == v.moving
            &&& after.to_fold == if v.to_fold > 0 {
                v.to_fold - 1
            } else {
                0
            }
            &&& entries is None || (v.to_fold == 0 && !hit) ==> after.leaves == v.leaves.push(node)
                && after.folded == v.folded && written.len() == 0
            &&& entries is Some && v.to_fold > 0 ==> after.leaves == v.leaves && after.folded
                == v.folded + surviving(entries->0, removed) && written.len() == 0
            &&& entries is Some && v.to_fold == 0 && hit ==> after.leaves == v.leaves
                && after.folded == v.folded && written == surviving(entries->0, removed)
        }),
{
    if entries is Some {
        law_removed_files_are_found_among_the_live(entries->0, removed);
    }
}

/// A node that is rewritten is written in its kind: under its own spec, for deletes just where it
/// held deletes, and each manifest of one partition.
pub proof fn law_node_is_rewritten_in_kind(
    target: MoveTarget,
    node: ManifestFile,
    ws: Seq<ManifestWrite>,
    first: u64,
    entries: Seq<ManifestEntry>,
    w: int,
    k: int,
)
    requires
        target.written_for(node, ws, first, entries),
        0 <= w < ws.len(),
        0 <= k < ws[w].entries@.len(),
    ensures
        ws[w].spec_id == node.partition_spec_id,
        target.version !is V1 ==> ((ws[w].kind is V2Deletes || ws[w].kind is V3Deletes)
            <==> node.content is Deletes),
        target.version is V1 <==> ws[w].kind is V1,
        entries.contains(ws[w].entries@[k]),
        ws[w].entries@[k].data_file.partition@ == ws[w].entries@[0].data_file.partition@,
{
    law_written_manifests_hold_the_entries(
        ws,
        target.setting(),
        first as int,
        node.partition_spec_id,
        node.content == ManifestContentType::Deletes,
        entries,
        true,
    );
    assert(ws[w].entries@[0].data_file.partition@ == ws[w].entries@[k].data_file.partition@);
}

/// Times are known for all leaves just where there is a leaf and each is in the store or dated by
/// its summary.
pub proof fn law_all_leaves_are_dated(
    leaves: Seq<ManifestFile>,
    stored: Map<Seq<char>, Option<i64>>,
    s: FoldSetting,
)
    ensures
        covers_all(leaves, stored, s) <==> leaves.len() > 0 && forall|i: int|
            0 <= i < leaves.len() ==> {
                let p = (#[trigger] leaves[i]).manifest_path@;
                (stored.contains_key(p) && stored[p] is Some) || crate::manifest::ref_max_ts(
                    leaves[i],
                    *s.spec,
                    s.ts_field_id,
                ) is Some
            },
{
    if covers_all(leaves, stored, s) {
        assert forall|i: int| 0 <= i < leaves.len() implies {
            let p = (#[trigger] leaves[i]).manifest_path@;
            (stored.contains_key(p) && stored[p] is Some) || crate::manifest::ref_max_ts(
                leaves[i],
                *s.spec,
                s.ts_field_id,
            ) is Some
        } by {
            assert(!unresolved(leaves[i], s, stored));
        }
    }
}

/// What is closed inline, or folded, is written as data of the target's spec, each manifest of one
/// partition.
pub proof fn law_closed_files_are_written_as_data(
    target: MoveTarget,
    ws: Seq<ManifestWrite>,
    first: u64,
    entries: Seq<ManifestEntry>,
    w: int,
    k: int,
)
    requires
        target.written_by(ws, first, entries),
        0 <= w < ws.len(),
        0 <= k < ws[w].entries@.len(),
    ensures
        ws[w].spec_id == target.spec_id,
        ws[w].kind is V1 || ws[w].kind is V2Data || ws[w].kind is V3Data,
        entries.contains(ws[w].entries@[k]),
        ws[w].entries@[k].data_file.partition@ == ws[w].entries@[0].data_file.partition@,
{
    law_written_manifests_hold_the_entries(
        ws,
        target.setting(),
        first as int,
        target.spec_id,
        false,
        entries,
        true,
    );
    assert(ws[w].entries@[0].data_file.partition@ == ws[w].entries@[k].data_file.partition@);
}

/// A move takes its nodes one by one, from left to right, until none is left.
pub proof fn law_move_takes_each_node_once(
    v: MoveView,
    list: spec_fn(ManifestFile) -> Option<Seq<ManifestEntry>>,
    removed: Set<Seq<char>>,
)
    ensures
        v.nodes.len() == 0 ==> nodes_taken(v, list, removed) == v && nodes_written(
            v,
            list,
            removed,
        ).len() == 0,
        v.nodes.len() > 0 ==> nodes_taken(v, list, removed) == nodes_taken(
            node_taken(v, list(v.nodes[0]), removed),
            list,
            removed,
        ) && nodes_written(v, list, removed) == node_written(v, list(v.nodes[0]), removed)
            + nodes_written(node_taken(v, list(v.nodes[0]), removed), list, removed),
        nodes_taken(v, list, removed).nodes.len() == 0,
    decreases v.nodes.len(),
{
    if v.nodes.len() > 0 {
        law_move_takes_each_node_once(node_taken(v, list(v.nodes[0]), removed), list, removed);
    }
}

} // verus!
