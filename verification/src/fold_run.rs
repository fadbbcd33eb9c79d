//! A whole fold: the retention of cold leaves, the classification of a root's entries and the move
//! of what is closed, one after the other.

use std::sync::Arc;

use vstd::prelude::*;

use crate::cluster::{law_clustering_keeps_every_entry, written, ManifestWrite};
use crate::cold_move::{
    cap_graduation, covers_all, finish_fold, is_capped, law_cap_only_defers, listed, move_start,
    node_taken, node_written, nothing_to_fold, paths_of, warm_sidecar, ColdMove, FoldFinish,
    MoveTarget, MoveView,
};
use crate::cold_paths::leaf_paths;
use crate::commit::{bucket_index_path, describes};
use crate::fold::{
    asks, classified, classified_one, classify_prefetch, entry_time, first_tombstones, has_mdv,
    is_prefetch, is_rest, law_every_entry_is_accounted_for, law_part_loses_no_file, left_behind,
    lemma_pruned_one_bounded, passed, pruned, pruned_one, resolve_leaves, rest_views, time_keys,
    timed, ttl_prefetch, unresolved_refs, ClassView, Classification, FoldSetting, LeafRest,
    PruneView, RestView, TimedLeaf, TtlPrune,
};
use crate::graduate_buckets::{
    first_by_path, fold_surviving_entries, law_survivors_are_exact, surviving,
};
use crate::manifest::{carried, DataFile, ManifestEntry, ManifestFile, RootManifestEntry};
use crate::max_ts::{
    entry_views, times_to_store, MaxTsMap, MaxTsWrite, RefTimes, RefTimesView,
    MAXTS_SIDECAR_FORMAT_V1,
};
use crate::order::is_stable_sort;
use crate::path_set::PathSet;
use crate::seqs::lemma_take_push;
use crate::table::TableMetadata;
use crate::text::texts;

verus! {

/// What a fold is asked to do.
pub struct FoldOrder {
    pub setting: FoldSetting,
    /// No more manifests than this leave the hot root at once.
    pub max_graduate: Option<usize>,
    /// Nodes are folded into new leaves, no more than this at once.
    pub fold_leaves: Option<usize>,
    /// The files that are pending removal.
    pub removed: PathSet,
    /// The path of the bucket index that the cold leaves stand in.
    pub carried_bucket_index_path: Option<String>,
    pub snapshot_id: i64,
    pub commit_id: u128,
    /// The number of the next manifest to write.
    pub counter: u64,
}

/// A fold at its start.
pub struct Fold {
    order: FoldOrder,
    entries: Vec<RootManifestEntry>,
    cold: Vec<ManifestFile>,
    stored: MaxTsMap,
}

/// A fold that goes through the cold leaves, for those past retention.
pub struct FoldPrune {
    order: FoldOrder,
    entries: Vec<RootManifestEntry>,
    stored: MaxTsMap,
    read: MaxTsMap,
    prune: TtlPrune,
}

/// A fold that goes through the entries of the root.
pub struct FoldClassify {
    order: FoldOrder,
    cold: Vec<ManifestFile>,
    rests: Vec<LeafRest>,
    stored: MaxTsMap,
    read: MaxTsMap,
    fetched: RefTimes,
    classification: Classification,
}

/// A fold that moves what is closed into the cold tier.
pub struct FoldMove {
    order: FoldOrder,
    kept: Vec<RootManifestEntry>,
    graduated_ref_paths: Vec<String>,
    rests: Vec<LeafRest>,
    dropped_paths: Vec<String>,
    stored: MaxTsMap,
    read: MaxTsMap,
    fetched: RefTimes,
    target: MoveTarget,
    moving: ColdMove,
}

/// How a fold goes on once the root's entries are classified.
pub enum FoldClosed {
    /// Nothing is closed, and nothing was dropped. The times to store beside the bucket index, if
    /// some are missing there.
    Idle { kept: Vec<RootManifestEntry>, sidecar: Option<MaxTsWrite> },
    /// There is something to move, or something was dropped.
    Moving(FoldMove),
}

/// What a fold has come to.
pub struct FoldDone {
    pub kept: Vec<RootManifestEntry>,
    pub finish: FoldFinish,
    /// The number of the next manifest to write.
    pub counter: u64,
}

/// `leaves`, of which no time was asked for.
pub open spec fn untimed(leaves: Seq<ManifestFile>) -> Seq<TimedLeaf> {
    leaves.map_values(|l: ManifestFile| TimedLeaf { leaf: l, max_ts: None })
}

fn leave_untimed(leaves: Vec<ManifestFile>) -> (r: Vec<TimedLeaf>)
    ensures
        r@ == untimed(leaves@),
{
    let ghost all = leaves@;
    let mut r: Vec<TimedLeaf> = Vec::with_capacity(leaves.len());
    for leaf in iter: leaves
        invariant
            iter.seq() == all,
            r@ == untimed(all).take(iter.index() as int),
    {
        proof {
            lemma_take_push(untimed(all), iter.index() as int);
        }
        r.push(TimedLeaf { leaf, max_ts: None });
    }
    assert(untimed(all).take(all.len() as int) =~= untimed(all));
    r
}

impl Fold {
    /// What is asked for.
    pub closed spec fn order(&self) -> FoldOrder {
        self.order
    }

    /// The entries of the root.
    pub closed spec fn entries(&self) -> Seq<RootManifestEntry> {
        self.entries@
    }

    /// The cold leaves.
    pub closed spec fn cold(&self) -> Seq<ManifestFile> {
        self.cold@
    }

    /// The times that are stored beside the bucket index.
    pub closed spec fn stored(&self) -> Map<Seq<char>, Option<i64>> {
        self.stored@
    }

    /// A fold of the root's entries `entries` into the cold leaves `cold`.
    pub fn new(
        order: FoldOrder,
        entries: Vec<RootManifestEntry>,
        cold: Vec<ManifestFile>,
        stored: MaxTsMap,
    ) -> (r: Self)
        ensures
            r.order() == order,
            r.entries() == entries@,
            r.cold() == cold@,
            r.stored() == stored@,
    {
        Fold { order, entries, cold, stored }
    }

    /// The cold leaves to read for their times, by place. Without a retention no time is needed.
    pub fn leaves_to_read(&self) -> (r: Vec<usize>)
        ensures
            self.order().setting.retention_cutoff_micros is None ==> r@.len() == 0,
            self.order().setting.retention_cutoff_micros is Some ==> is_prefetch(
                r@,
                self.cold(),
                self.order().setting,
                self.stored(),
            ),
            forall|i: int| 0 <= i < r@.len() ==> (#[trigger] r@[i]) < self.cold().len(),
    {
        if self.order.setting.retention_cutoff_micros.is_none() {
            return Vec::new();
        }
        ttl_prefetch(self.cold.as_slice(), &self.order.setting, &self.stored)
    }

    /// The cold leaf at the place `i`.
    pub fn leaf(&self, i: usize) -> (r: Option<&ManifestFile>)
        ensures
            match r {
                Some(leaf) => i < self.cold().len() && *leaf == self.cold()[i as int],
                None => i >= self.cold().len(),
            },
    {
        if i < self.cold.len() {
            Some(&self.cold[i])
        } else {
            None
        }
    }

    /// Goes on to the retention, `fetched` being the times that were read. Without a retention the
    /// leaves keep their order; with one, the coldest come first.
    pub fn prune(self, fetched: MaxTsMap) -> (r: FoldPrune)
        ensures
            r.within_bound(),
            r.order() == self.order(),
            r.entries() == self.entries(),
            r.stored() == self.stored(),
            r.read() == fetched@,
            r@ == (PruneView {
                surviving: Seq::empty(),
                rests: Seq::empty(),
                dropped: Seq::empty(),
            }),
            ({
                let setting = self.order().setting;
                let all = timed(self.cold(), setting, self.stored(), fetched@);
                if setting.retention_cutoff_micros is None {
                    r.pending() == untimed(self.cold())
                } else {
                    is_stable_sort(all, time_keys(all), r.pending())
                }
            }),
    {
        if self.order.setting.retention_cutoff_micros.is_none() {
            FoldPrune {
                order: self.order,
                entries: self.entries,
                stored: self.stored,
                read: fetched,
                prune: TtlPrune::new(leave_untimed(self.cold)),
            }
        } else {
            let leaves = resolve_leaves(self.cold, &self.order.setting, &self.stored, &fetched);
            FoldPrune {
                order: self.order,
                entries: self.entries,
                stored: self.stored,
                read: fetched,
                prune: TtlPrune::new(leaves),
            }
        }
    }
}

impl View for FoldPrune {
    type V = PruneView;

    closed spec fn view(&self) -> PruneView {
        self.prune@
    }
}

impl FoldPrune {
    /// What is asked for.
    pub closed spec fn order(&self) -> FoldOrder {
        self.order
    }

    /// The entries of the root.
    pub closed spec fn entries(&self) -> Seq<RootManifestEntry> {
        self.entries@
    }

    /// The times that are stored beside the bucket index.
    pub closed spec fn stored(&self) -> Map<Seq<char>, Option<i64>> {
        self.stored@
    }

    /// The times that were read of cold leaves.
    pub closed spec fn read(&self) -> Map<Seq<char>, Option<i64>> {
        self.read@
    }

    /// The leaves still to be seen.
    pub closed spec fn pending(&self) -> Seq<TimedLeaf> {
        self.prune.pending()
    }

    /// What the retention comes to, `load` giving the entries of a leaf.
    pub open spec fn outcome(&self, load: spec_fn(ManifestFile) -> Seq<ManifestEntry>) -> PruneView {
        pruned(self@, self.pending(), self.order().setting, load)
    }

    /// Whether no more paths are dropped than are allowed at once, and something is, where a leaf
    /// went in part.
    pub open spec fn within_bound(&self) -> bool {
        &&& self@.dropped.len() <= self.order().setting.max_ttl_drop_files
        &&& self@.rests.len() > 0 ==> self@.dropped.len() > 0
    }

    /// Whether nothing but the retention's own state differs from `other`.
    pub open spec fn follows(&self, other: FoldPrune) -> bool {
        &&& self.order() == other.order()
        &&& self.entries() == other.entries()
        &&& self.stored() == other.stored()
        &&& self.read() == other.read()
    }

    /// Passes the leaves that stay whatever they list, up to one that may go; its entries are asked
    /// for.
    pub fn advance(&mut self) -> (more: bool)
        requires
            old(self).within_bound(),
        ensures
            final(self).within_bound(),
            final(self).follows(*old(self)),
            more == (final(self).pending().len() > 0),
            more ==> final(self).order().setting.may_go(
                final(self).pending()[0].max_ts,
                final(self)@.dropped.len(),
            ),
            is_rest(final(self).pending(), old(self).pending()),
            final(self)@.surviving == old(self)@.surviving + passed(
                old(self).pending(),
                final(self).pending(),
            ),
            final(self)@.rests == old(self)@.rests,
            final(self)@.dropped == old(self)@.dropped,
            forall|load: spec_fn(ManifestFile) -> Seq<ManifestEntry>| #[trigger]
                final(self).outcome(load) == old(self).outcome(load),
    {
        let ghost start = *self;
        let more = self.prune.advance(&self.order.setting);
        assert forall|load: spec_fn(ManifestFile) -> Seq<ManifestEntry>| #[trigger]
            self.outcome(load) == start.outcome(load) by {
            assert(self.prune.outcome(self.order.setting, load) == start.prune.outcome(
                start.order.setting,
                load,
            ));
        }
        more
    }

    /// The leaf whose entries are asked for.
    pub fn next_leaf(&self) -> (r: Option<&ManifestFile>)
        ensures
            match r {
                Some(leaf) => self.pending().len() > 0 && *leaf == self.pending()[0].leaf,
                None => self.pending().len() == 0,
            },
    {
        self.prune.next_leaf()
    }

    /// Takes in the entries of the next leaf: it goes, if there is room for all of its paths, and in
    /// part, if there never is.
    pub fn take_next(&mut self, entries: &[ManifestEntry])
        requires
            old(self).within_bound(),
            old(self).pending().len() > 0,
        ensures
            final(self).within_bound(),
            final(self).follows(*old(self)),
            final(self).pending() == old(self).pending().skip(1),
            final(self)@ == pruned_one(
                old(self)@,
                old(self).pending()[0],
                old(self).order().setting,
                entries@,
            ),
            forall|load: spec_fn(ManifestFile) -> Seq<ManifestEntry>|
                load(old(self).pending()[0].leaf) == entries@ ==> #[trigger] final(self).outcome(
                    load,
                ) == old(self).outcome(load),
    {
        let ghost start = *self;
        self.prune.take_next(&self.order.setting, entries);
        proof {
            lemma_pruned_one_bounded(
                start@,
                start.pending()[0],
                start.order().setting,
                entries@,
            );
        }
        assert forall|load: spec_fn(ManifestFile) -> Seq<ManifestEntry>|
            load(start.pending()[0].leaf) == entries@ implies #[trigger] self.outcome(load)
            == start.outcome(load) by {
            assert(self.prune.outcome(self.order.setting, load) == start.prune.outcome(
                start.order.setting,
                load,
            ));
        }
    }

    /// The manifests of the root to read for their times, by place.
    pub fn refs_to_read(&self) -> (r: Vec<usize>)
        ensures
            r@ == unresolved_refs(self.entries(), self.order().setting, self.entries().len()),
    {
        classify_prefetch(self.entries.as_slice(), &self.order.setting)
    }

    /// The entry of the root at the place `i`.
    pub fn entry(&self, i: usize) -> (r: Option<&RootManifestEntry>)
        ensures
            match r {
                Some(e) => i < self.entries().len() && *e == self.entries()[i as int],
                None => i >= self.entries().len(),
            },
    {
        if i < self.entries.len() {
            Some(&self.entries[i])
        } else {
            None
        }
    }

    /// Goes on to the classification, once no leaf is left to be seen; `fetched` are the times that
    /// were read of the root's manifests.
    pub fn classify(self, fetched: RefTimes) -> (r: FoldClassify)
        requires
            self.within_bound(),
            self.pending().len() == 0,
        ensures
            r.within_bound(),
            r.order() == self.order(),
            r.cold() == self@.surviving,
            r.rests() == self@.rests,
            r.stored() == self.stored(),
            r.read() == self.read(),
            r.fetched() == fetched@,
            r.pending() == self.entries(),
            r@.kept == Seq::<RootManifestEntry>::empty(),
            r@.closed_refs.len() == 0,
            r@.closed_files.len() == 0,
            r@.dropped == self@.dropped,
    {
        let done = self.prune.finish();
        FoldClassify {
            order: self.order,
            cold: done.surviving,
            rests: done.rests,
            stored: self.stored,
            read: self.read,
            fetched,
            classification: Classification::new(self.entries, done.dropped_paths),
        }
    }
}

impl View for FoldClassify {
    type V = ClassView;

    closed spec fn view(&self) -> ClassView {
        self.classification@
    }
}

/// Whether `r` is how a fold goes on when its classification came to `c`, of which the manifests
/// `graduated` move and the entries `deferred` stay hot for now.
pub open spec fn goes_on(
    r: FoldClosed,
    from: FoldClassify,
    table: TableMetadata,
    graduated: Seq<ManifestFile>,
    deferred: Seq<RootManifestEntry>,
) -> bool {
    let order = from.order();
    let c = from@;
    let idle = graduated.len() == 0 && c.closed_files.len() == 0 && c.dropped.len() == 0;
    &&& is_capped(c.closed_refs, order.max_graduate, graduated, deferred)
    &&& match r {
        FoldClosed::Idle { kept, sidecar } => {
            &&& idle
            &&& from.rests().len() == 0
            &&& kept@ == c.kept + deferred
            &&& sidecar is Some <==> order.carried_bucket_index_path is Some && !covers_all(
                from.cold(),
                from.stored(),
                order.setting,
            )
            &&& sidecar is Some ==> stores_times(
                sidecar->0,
                from.cold(),
                from.stored(),
                from.read(),
                from.fetched().whole,
                order.setting,
            )
        },
        FoldClosed::Moving(m) => {
            &&& !idle
            &&& m.order() == order
            &&& m.kept() == c.kept + deferred
            &&& m.graduated_paths() == leaf_paths(graduated)
            &&& m.rests() == from.rests()
            &&& m.dropped() == c.dropped
            &&& m.stored() == from.stored()
            &&& m.read() == from.read()
            &&& m.fetched() == from.fetched()
            &&& m.is_for(table)
            &&& m@ == move_start(
                from.cold(),
                graduated,
                c.closed_files,
                order.fold_leaves,
                order.setting.spec.spec_id,
                !order.removed@.is_empty(),
            )
            &&& m.counter() == order.counter
            &&& m.inline_count() == 0
        },
    }
}

/// Whether `w` stores the times of `leaves`, as far as they are stored already or were read.
pub open spec fn stores_times(
    w: MaxTsWrite,
    leaves: Seq<ManifestFile>,
    stored: Map<Seq<char>, Option<i64>>,
    read: Map<Seq<char>, Option<i64>>,
    read_hot: Map<Seq<char>, Option<i64>>,
    s: FoldSetting,
) -> bool {
    &&& w.format_version == MAXTS_SIDECAR_FORMAT_V1
    &&& w.ts_field_id == s.ts_field_id
    &&& entry_views(w.entries@) == times_to_store(leaves, stored, read, read_hot)
}

impl FoldClassify {
    /// What is asked for.
    pub closed spec fn order(&self) -> FoldOrder {
        self.order
    }

    /// The cold leaves that stay.
    pub closed spec fn cold(&self) -> Seq<ManifestFile> {
        self.cold@
    }

    /// What is left of the cold leaves that went in part.
    pub closed spec fn rests(&self) -> Seq<RestView> {
        rest_views(self.rests@)
    }

    /// The times that are stored beside the bucket index.
    pub closed spec fn stored(&self) -> Map<Seq<char>, Option<i64>> {
        self.stored@
    }

    /// The times that were read of cold leaves.
    pub closed spec fn read(&self) -> Map<Seq<char>, Option<i64>> {
        self.read@
    }

    /// The times that were read of the root's manifests.
    pub closed spec fn fetched(&self) -> RefTimesView {
        self.fetched@
    }

    /// The entries still to be seen.
    pub closed spec fn pending(&self) -> Seq<RootManifestEntry> {
        self.classification.pending()
    }

    /// What the classification comes to, `load` giving the entries of a manifest.
    pub open spec fn outcome(&self, load: spec_fn(ManifestFile) -> Seq<ManifestEntry>) -> ClassView {
        classified(self@, self.pending(), self.order().setting, self.fetched(), load)
    }

    /// Whether no more paths are dropped than are allowed at once, and something is, where a leaf
    /// went in part.
    pub open spec fn within_bound(&self) -> bool {
        &&& self@.dropped.len() <= self.order().setting.max_ttl_drop_files
        &&& self.rests().len() > 0 ==> self@.dropped.len() > 0
    }

    /// Whether nothing but the classification's own state differs from `other`.
    pub open spec fn follows(&self, other: FoldClassify) -> bool {
        &&& self.order() == other.order()
        &&& self.cold() == other.cold()
        &&& self.rests() == other.rests()
        &&& self.stored() == other.stored()
        &&& self.read() == other.read()
        &&& self.fetched() == other.fetched()
    }

    /// Whether the next entry is a manifest that may be dropped.
    pub open spec fn next_asks(&self) -> bool {
        &&& self.pending().len() > 0
        &&& asks(self.pending()[0], self.order().setting, self.fetched(), self@.dropped.len())
    }

    /// Sees the entries up to a manifest that may go; its entries are asked for.
    pub fn advance(&mut self) -> (more: bool)
        requires
            old(self).within_bound(),
        ensures
            final(self).within_bound(),
            final(self).follows(*old(self)),
            more == (final(self).pending().len() > 0),
            more ==> final(self).next_asks(),
            is_rest(final(self).pending(), old(self).pending()),
            forall|load: spec_fn(ManifestFile) -> Seq<ManifestEntry>| #[trigger]
                final(self).outcome(load) == old(self).outcome(load),
    {
        let ghost start = *self;
        let more = self.classification.advance(&self.order.setting, &self.fetched);
        assert forall|load: spec_fn(ManifestFile) -> Seq<ManifestEntry>| #[trigger]
            self.outcome(load) == start.outcome(load) by {
            assert(self.classification.outcome(self.order.setting, self.fetched@, load)
                == start.classification.outcome(start.order.setting, start.fetched@, load));
        }
        more
    }

    /// The manifest whose entries are asked for.
    pub fn next_manifest(&self) -> (r: Option<&ManifestFile>)
        ensures
            match r {
                Some(mf) => self.pending().len() > 0 && self.pending()[0] is ManifestRef && *mf
                    == self.pending()[0]->ManifestRef_manifest_file,
                None => self.pending().len() == 0 || self.pending()[0] is Inline,
            },
    {
        self.classification.next_manifest()
    }

    /// Takes in the entries of the next manifest: it goes, if there is room for all of its paths, and
    /// else it stays or moves as if it were not past retention.
    pub fn take_next(&mut self, entries: &[ManifestEntry])
        requires
            old(self).within_bound(),
            old(self).next_asks(),
        ensures
            final(self).within_bound(),
            final(self).follows(*old(self)),
            final(self).pending() == old(self).pending().skip(1),
            forall|load: spec_fn(ManifestFile) -> Seq<ManifestEntry>|
                load(old(self).pending()[0]->ManifestRef_manifest_file) == entries@
                    ==> final(self)@ == #[trigger] classified_one(
                    old(self)@,
                    old(self).pending()[0],
                    old(self).order().setting,
                    old(self).fetched(),
                    load,
                ),
            forall|load: spec_fn(ManifestFile) -> Seq<ManifestEntry>|
                load(old(self).pending()[0]->ManifestRef_manifest_file) == entries@
                    ==> #[trigger] final(self).outcome(load) == old(self).outcome(load),
    {
        let ghost start = *self;
        let ghost same = |mf: ManifestFile| entries@;
        self.classification.take_next(&self.order.setting, &self.fetched, entries);
        assert(self@ == classified_one(
            start@,
            start.pending()[0],
            start.order().setting,
            start.fetched(),
            same,
        ));
        assert forall|load: spec_fn(ManifestFile) -> Seq<ManifestEntry>|
            load(start.pending()[0]->ManifestRef_manifest_file) == entries@ implies #[trigger] self.outcome(
            load,
        ) == start.outcome(load) by {
            assert(self.classification.outcome(self.order.setting, self.fetched@, load)
                == start.classification.outcome(start.order.setting, start.fetched@, load));
        }
    }

    /// Goes on to the move, once no entry is left to be seen; where there is nothing to do, only
    /// missing times are stored.
    pub fn close(self, table: &TableMetadata) -> (r: FoldClosed)
        requires
            self.within_bound(),
            self.pending().len() == 0,
        ensures
            exists|graduated: Seq<ManifestFile>, deferred: Seq<RootManifestEntry>| #[trigger]
                goes_on(r, self, *table, graduated, deferred),
            r matches FoldClosed::Moving(m) ==> m.within_bound(),
    {
        let ghost from = self;
        let done = self.classification.finish();
        let mut kept = done.kept;
        let ghost start = kept@;
        let graduated = cap_graduation(done.closed_refs, self.order.max_graduate, &mut kept);
        let ghost moving_nodes = graduated@;
        let ghost deferred = choose|deferred: Seq<RootManifestEntry>| #[trigger]
            is_capped(from@.closed_refs, from.order.max_graduate, graduated@, deferred) && kept@
                == start + deferred;
        if nothing_to_fold(
            graduated.as_slice(),
            done.closed_files.as_slice(),
            done.dropped_paths.as_slice(),
        ) {
            let sidecar = if self.order.carried_bucket_index_path.is_some() {
                warm_sidecar(
                    self.cold.as_slice(),
                    &self.stored,
                    &self.read,
                    &self.fetched.whole,
                    &self.order.setting,
                )
            } else {
                None
            };
            let r = FoldClosed::Idle { kept, sidecar };
            assert(goes_on(r, from, *table, moving_nodes, deferred));
            return r;
        }
        let spec_id: i32 = self.order.setting.spec.spec_id;
        let graduated_ref_paths = paths_of(graduated.as_slice());
        let target = MoveTarget {
            location: table.location.clone(),
            commit_id: self.order.commit_id,
            version: table.format_version,
            spec_id,
        };
        let moving = ColdMove::new(
            self.cold,
            graduated,
            done.closed_files,
            self.order.fold_leaves,
            spec_id,
            !self.order.removed.is_empty(),
            self.order.counter,
        );
        let r = FoldClosed::Moving(
            FoldMove {
                order: self.order,
                kept,
                graduated_ref_paths,
                rests: self.rests,
                dropped_paths: done.dropped_paths,
                stored: self.stored,
                read: self.read,
                fetched: self.fetched,
                target,
                moving,
            },
        );
        assert(goes_on(r, from, *table, moving_nodes, deferred));
        r
    }
}

/// The entries that stay in the hot root.
pub open spec fn kept_by(r: FoldClosed) -> Seq<RootManifestEntry> {
    match r {
        FoldClosed::Idle { kept, .. } => kept@,
        FoldClosed::Moving(m) => m.kept(),
    }
}

/// A fold accounts for every entry of the root: the entry stays hot, or its manifest graduates, or
/// its file is among those that move, or it is past retention and its path is among those that go.
pub proof fn law_fold_accounts_for_every_entry(
    r: FoldClosed,
    from: FoldClassify,
    table: TableMetadata,
    graduated: Seq<ManifestFile>,
    deferred: Seq<RootManifestEntry>,
    start: ClassView,
    entries: Seq<RootManifestEntry>,
    load: spec_fn(ManifestFile) -> Seq<ManifestEntry>,
    i: int,
)
    requires
        goes_on(r, from, table, graduated, deferred),
        from@ == classified(start, entries, from.order().setting, from.fetched(), load),
        from@.closed_refs.len() <= usize::MAX,
        0 <= i < entries.len(),
    ensures
        kept_by(r).contains(entries[i]) || match entries[i] {
            RootManifestEntry::ManifestRef { manifest_file, .. } => {
                ||| graduated.contains(manifest_file)
                ||| from.order().setting.expired(
                    entry_time(entries[i], from.order().setting, from.fetched()),
                ) && from@.dropped.contains(manifest_file.manifest_path@)
            },
            RootManifestEntry::Inline(me) => {
                ||| from@.closed_files.contains(me.data_file)
                ||| from.order().setting.expired(
                    entry_time(entries[i], from.order().setting, from.fetched()),
                ) && from@.dropped.contains(me.data_file.file_path@)
            },
        },
{
    let e = entries[i];
    let c = from@;
    law_every_entry_is_accounted_for(
        start,
        entries,
        from.order().setting,
        from.fetched(),
        load,
        i,
    );
    let kept = kept_by(r);
    assert(kept == c.kept + deferred);
    if c.kept.contains(e) {
        let k = choose|k: int| 0 <= k < c.kept.len() && c.kept[k] == e;
        assert(kept[k] == e);
    } else if e is ManifestRef && !has_mdv(e) && exists|k: int|
        0 <= k < c.closed_refs.len() && (#[trigger] c.closed_refs[k]).manifest_file
            == e->ManifestRef_manifest_file {
        let k = choose|k: int|
            0 <= k < c.closed_refs.len() && (#[trigger] c.closed_refs[k]).manifest_file
                == e->ManifestRef_manifest_file;
        law_cap_only_defers(c.closed_refs, from.order().max_graduate, graduated, deferred, k);
        if deferred.contains(e) {
            let j = choose|j: int| 0 <= j < deferred.len() && deferred[j] == e;
            assert(kept[c.kept.len() + j] == e);
        }
    }
}

/// A cold leaf that goes in part loses no live file but those that are dropped or pending removal:
/// the path of each is among those that go, or a manifest that is written anew lists it.
pub proof fn law_parted_leaf_loses_no_file(
    leaf: ManifestFile,
    entries: Seq<ManifestEntry>,
    n: nat,
    removed: Set<Seq<char>>,
    target: MoveTarget,
    ws: Seq<ManifestWrite>,
    first: u64,
    i: int,
)
    requires
        target.written_for(leaf, ws, first, surviving(left_behind(entries, n), removed)),
        0 <= i < entries.len(),
        entries[i].alive(),
        !removed.contains(entries[i].data_file.file_path@),
    ensures
        first_tombstones(entries, n).contains(entries[i].data_file.file_path@) || exists|w: int|
            0 <= w < ws.len() && (#[trigger] ws[w]).entries@.contains(
                carried(entries[i].data_file),
            ),
{
    let file = entries[i].data_file;
    let left = left_behind(entries, n);
    law_part_loses_no_file(entries, n, i);
    if left.contains(carried(file)) {
        let k = choose|k: int| 0 <= k < left.len() && left[k] == carried(file);
        assert(left[k].alive() && left[k].data_file == file);
        law_survivors_are_exact(left, removed, file);
        law_clustering_keeps_every_entry(
            written(ws),
            surviving(left, removed),
            carried(file),
        );
        let w = choose|w: int|
            0 <= w < written(ws).len() && (#[trigger] written(ws)[w]).contains(carried(file));
        assert(ws[w].entries@.contains(carried(file)));
    }
}

/// Nothing that is pending removal is written anew of a cold leaf that goes in part.
pub proof fn law_parted_leaf_brings_no_removed_file(
    leaf: ManifestFile,
    left: Seq<ManifestEntry>,
    removed: Set<Seq<char>>,
    target: MoveTarget,
    ws: Seq<ManifestWrite>,
    first: u64,
    w: int,
    file: Arc<DataFile>,
)
    requires
        target.written_for(leaf, ws, first, surviving(left, removed)),
        0 <= w < ws.len(),
        ws[w].entries@.contains(carried(file)),
    ensures
        !removed.contains(file.file_path@),
{
    law_survivors_are_exact(left, removed, file);
    assert(written(ws)[w].contains(carried(file)));
    law_clustering_keeps_every_entry(written(ws), surviving(left, removed), carried(file));
}

impl View for FoldMove {
    type V = MoveView;

    closed spec fn view(&self) -> MoveView {
        self.moving@
    }
}

impl FoldMove {
    /// What is asked for.
    pub closed spec fn order(&self) -> FoldOrder {
        self.order
    }

    /// The entries that stay in the hot root.
    pub closed spec fn kept(&self) -> Seq<RootManifestEntry> {
        self.kept@
    }

    /// The paths of the manifests that leave the hot root.
    pub closed spec fn graduated_paths(&self) -> Seq<Seq<char>> {
        texts(self.graduated_ref_paths@)
    }

    /// What is left of the cold leaves that went in part, to be written anew.
    pub closed spec fn rests(&self) -> Seq<RestView> {
        rest_views(self.rests@)
    }

    /// The paths of what was dropped for being past retention.
    pub closed spec fn dropped(&self) -> Seq<Seq<char>> {
        texts(self.dropped_paths@)
    }

    /// The times that are stored beside the bucket index.
    pub closed spec fn stored(&self) -> Map<Seq<char>, Option<i64>> {
        self.stored@
    }

    /// The times that were read of cold leaves.
    pub closed spec fn read(&self) -> Map<Seq<char>, Option<i64>> {
        self.read@
    }

    /// The times that were read of the root's manifests.
    pub closed spec fn fetched(&self) -> RefTimesView {
        self.fetched@
    }

    /// Whether no more paths are dropped than are allowed at once.
    pub open spec fn within_bound(&self) -> bool {
        self.dropped().len() <= self.order().setting.max_ttl_drop_files
    }

    /// Where manifests are written.
    pub closed spec fn target(&self) -> MoveTarget {
        self.target
    }

    /// The number of the next manifest to write.
    pub closed spec fn counter(&self) -> u64 {
        self.moving.counter()
    }

    /// How many leaves the closed files were written to on their own.
    pub closed spec fn inline_count(&self) -> usize {
        self.moving.inline_count()
    }

    /// Whether manifests are written for `table`.
    pub open spec fn is_for(&self, table: TableMetadata) -> bool {
        &&& self.target().location@ == table.location@
        &&& self.target().commit_id == self.order().commit_id
        &&& self.target().version == table.format_version
        &&& self.target().spec_id == self.order().setting.spec.spec_id
    }

    /// Whether nothing but the move's own state differs from `other`.
    pub open spec fn follows(&self, other: FoldMove) -> bool {
        &&& self.order() == other.order()
        &&& self.kept() == other.kept()
        &&& self.graduated_paths() == other.graduated_paths()
        &&& self.rests() == other.rests()
        &&& self.dropped() == other.dropped()
        &&& self.stored() == other.stored()
        &&& self.read() == other.read()
        &&& self.fetched() == other.fetched()
        &&& self.target() == other.target()
    }

    /// How many entries are left of the next leaf that went in part.
    pub fn next_rest_len(&self) -> (r: Option<usize>)
        ensures
            match r {
                Some(n) => self.rests().len() > 0 && n == self.rests()[0].entries.len(),
                None => self.rests().len() == 0,
            },
    {
        if self.rests.len() == 0 {
            None
        } else {
            Some(self.rests[0].entries.len())
        }
    }

    /// The manifests that what is left of the next leaf that went in part is written to, without the
    /// files that are pending removal.
    pub fn rest_writes(&mut self) -> (ws: Vec<ManifestWrite>)
        requires
            old(self).rests().len() > 0,
            old(self).counter() + surviving(
                old(self).rests()[0].entries,
                old(self).order().removed@,
            ).len() <= u64::MAX,
        ensures
            final(self).order() == old(self).order(),
            final(self).kept() == old(self).kept(),
            final(self).graduated_paths() == old(self).graduated_paths(),
            final(self).rests() == old(self).rests().skip(1),
            final(self).dropped() == old(self).dropped(),
            final(self).stored() == old(self).stored(),
            final(self).read() == old(self).read(),
            final(self).fetched() == old(self).fetched(),
            final(self).target() == old(self).target(),
            old(self).target().written_for(
                old(self).rests()[0].leaf,
                ws@,
                old(self).counter(),
                surviving(old(self).rests()[0].entries, old(self).order().removed@),
            ),
            final(self).counter() == old(self).counter() + ws@.len(),
            final(self)@ == old(self)@,
            final(self).inline_count() == old(self).inline_count(),
    {
        let ghost before = *self;
        let rest = self.rests.remove(0);
        assert(rest_views(self.rests@) =~= rest_views(before.rests@).skip(1));
        let left = fold_surviving_entries(rest.entries.as_slice(), &self.order.removed);
        self.moving.writes_for(&rest.leaf, left, &self.target)
    }

    /// The manifests that the closed files are written to on their own.
    pub fn file_writes(&mut self) -> (ws: Vec<ManifestWrite>)
        requires
            old(self).counter() + old(self)@.files.len() <= u64::MAX,
        ensures
            final(self).follows(*old(self)),
            old(self).target().written_by(ws@, old(self).counter(), old(self)@.files),
            final(self).counter() == old(self).counter() + ws@.len(),
            final(self)@ == (MoveView { files: Seq::empty(), ..old(self)@ }),
            final(self).inline_count() == old(self).inline_count(),
    {
        self.moving.file_writes(&self.target)
    }

    /// How many manifests can still be numbered.
    pub fn numbers_left(&self) -> (r: u64)
        ensures
            r == u64::MAX - self.counter(),
    {
        u64::MAX - self.moving.next_number()
    }

    /// The number of the next manifest to write.
    pub fn next_number(&self) -> (r: u64)
        ensures
            r == self.counter(),
    {
        self.moving.next_number()
    }

    /// How many entries of closed files are still to be written on their own.
    pub fn files_left(&self) -> (r: usize)
        ensures
            r == self@.files.len(),
    {
        self.moving.files_left()
    }

    /// How many entries are folded so far.
    pub fn folded_left(&self) -> (r: usize)
        ensures
            r == self@.folded.len(),
    {
        self.moving.folded_left()
    }

    /// Takes in the leaves of the closed files, and moves the nodes that move as they are.
    pub fn add_file_leaves(&mut self, new_leaves: Vec<ManifestFile>)
        ensures
            final(self).follows(*old(self)),
            final(self)@ == (MoveView {
                leaves: old(self)@.leaves + new_leaves@ + old(self)@.moving,
                moving: Seq::empty(),
                ..old(self)@
            }),
            final(self).inline_count() == new_leaves@.len(),
            final(self).counter() == old(self).counter(),
    {
        self.moving.add_file_leaves(new_leaves);
    }

    /// The node whose entries are asked for.
    pub fn next_node(&self) -> (r: Option<&ManifestFile>)
        ensures
            match r {
                Some(mf) => self@.nodes.len() > 0 && *mf == self@.nodes[0],
                None => self@.nodes.len() == 0,
            },
    {
        self.moving.next_node()
    }

    /// Takes in the entries of the next node, or that they could not be read. The manifests that
    /// are returned are to be written for it.
    pub fn add_node(&mut self, entries: Option<&[ManifestEntry]>) -> (ws: Vec<ManifestWrite>)
        requires
            old(self)@.nodes.len() > 0,
            entries is Some ==> old(self).counter() + surviving(
                entries->0@,
                old(self).order().removed@,
            ).len() <= u64::MAX,
        ensures
            final(self).follows(*old(self)),
            final(self).inline_count() == old(self).inline_count(),
            final(self).counter() == old(self).counter() + ws@.len(),
            final(self)@ == node_taken(old(self)@, listed(entries), old(self).order().removed@),
            old(self).target().written_for(
                old(self)@.nodes[0],
                ws@,
                old(self).counter(),
                node_written(old(self)@, listed(entries), old(self).order().removed@),
            ),
    {
        self.moving.add_node(entries, &self.order.removed, &self.target)
    }

    /// Takes in leaves that were written for a node, or for what was folded.
    pub fn add_leaves(&mut self, new_leaves: Vec<ManifestFile>)
        ensures
            final(self).follows(*old(self)),
            final(self)@ == (MoveView { leaves: old(self)@.leaves + new_leaves@, ..old(self)@ }),
            final(self).inline_count() == old(self).inline_count(),
            final(self).counter() == old(self).counter(),
    {
        self.moving.add_leaves(new_leaves);
    }

    /// The manifests that what was folded is written to, one for each partition.
    pub fn folded_writes(&mut self) -> (ws: Vec<ManifestWrite>)
        requires
            old(self).counter() + old(self)@.folded.len() <= u64::MAX,
        ensures
            final(self).follows(*old(self)),
            old(self).target().written_by(ws@, old(self).counter(), old(self)@.folded),
            final(self).counter() == old(self).counter() + ws@.len(),
            final(self)@ == (MoveView { folded: Seq::empty(), ..old(self)@ }),
            final(self).inline_count() == old(self).inline_count(),
    {
        self.moving.folded_writes(&self.target)
    }

    /// What the fold has come to, once everything has moved.
    pub fn finish(self, table: &TableMetadata) -> (r: FoldDone)
        requires
            table.has_next_sequence_number(),
            self.within_bound(),
            self.rests().len() == 0,
            self@.nodes.len() == 0,
            self@.moving.len() == 0,
            self@.files.len() == 0,
            self@.folded.len() == 0,
        ensures
            r.kept@ == self.kept(),
            r.counter == self.counter(),
            ({
                let index = r.finish.index;
                let outcome = r.finish.outcome;
                &&& index.leaves@ == first_by_path(self@.leaves)
                &&& index.path@ == bucket_index_path(
                    table.location@,
                    self.order().snapshot_id,
                    self.order().commit_id,
                )
                &&& describes(
                    index.metadata,
                    *table,
                    self.order().snapshot_id,
                    None,
                    None,
                    0,
                    Seq::empty(),
                )
                &&& stores_times(
                    r.finish.sidecar,
                    index.leaves@,
                    self.stored(),
                    self.read(),
                    self.fetched().whole,
                    self.order().setting,
                )
                &&& outcome.bucket_index_path@ == index.path@
                &&& outcome.nodes_moved == self.graduated_paths().len()
                &&& outcome.inline_leaves == self.inline_count()
                &&& outcome.cold_leaves_total == index.leaves@.len()
                &&& texts(outcome.ttl_dropped_paths@) == self.dropped()
                &&& outcome.ttl_dropped_paths@.len() <= self.order().setting.max_ttl_drop_files
                &&& texts(outcome.graduated_ref_paths@) == self.graduated_paths()
            }),
    {
        let counter: u64 = self.moving.next_number();
        let finish = finish_fold(
            self.moving,
            table,
            &self.order.setting,
            &self.stored,
            &self.read,
            &self.fetched.whole,
            self.order.snapshot_id,
            self.order.commit_id,
            self.graduated_ref_paths,
            self.dropped_paths,
        );
        FoldDone { kept: self.kept, finish, counter }
    }
}

/// A fold is idle just where nothing graduates, no file is closed and nothing is dropped. Either
/// way the root keeps what stays hot, and behind it what may not graduate yet. An idle fold writes
/// the times of the cold leaves where there is a bucket index and some leaf is not dated.
pub proof fn law_fold_is_idle_only_without_work(
    r: FoldClosed,
    from: FoldClassify,
    table: TableMetadata,
    graduated: Seq<ManifestFile>,
    deferred: Seq<RootManifestEntry>,
)
    requires
        goes_on(r, from, table, graduated, deferred),
    ensures
        r is Idle <==> graduated.len() == 0 && from@.closed_files.len() == 0 && from@.dropped.len()
            == 0,
        kept_by(r) == from@.kept + deferred,
        r matches FoldClosed::Idle { kept, sidecar } ==> {
            &&& from.rests().len() == 0
            &&& sidecar is Some <==> from.order().carried_bucket_index_path is Some && !covers_all(
                from.cold(),
                from.stored(),
                from.order().setting,
            )
            &&& sidecar is Some ==> sidecar->0.format_version == 1 && sidecar->0.ts_field_id
                == from.order().setting.ts_field_id && entry_views(sidecar->0.entries@)
                == times_to_store(
                from.cold(),
                from.stored(),
                from.read(),
                from.fetched().whole,
            )
        },
        r matches FoldClosed::Moving(m) ==> {
            &&& m.dropped() == from@.dropped
            &&& m.graduated_paths().len() == graduated.len()
            &&& forall|i: int|
                0 <= i < graduated.len() ==> m.graduated_paths()[i] == (
                #[trigger] graduated[i]).manifest_path@
            &&& m.rests() == from.rests()
            &&& m.target().location@ == table.location@
            &&& m.target().commit_id == from.order().commit_id
            &&& m.target().version == table.format_version
            &&& m.target().spec_id == from.order().setting.spec.spec_id
            &&& m.counter() == from.order().counter
            &&& m@ == move_start(
                from.cold(),
                graduated,
                from@.closed_files,
                from.order().fold_leaves,
                from.order().setting.spec.spec_id,
                exists|p: Seq<char>| from.order().removed@.contains(p),
            )
        },
{
    if let FoldClosed::Moving(m) = r {
        let removed = from.order().removed@;
        if exists|p: Seq<char>| removed.contains(p) {
            assert(!removed.is_empty());
        } else {
            assert(removed =~= Set::<Seq<char>>::empty());
        }
    }
}

/// The next entry has to be read just where there is one, it is a reference without a delete vector
/// that is past retention, and there is room for a path.
pub proof fn law_next_entry_is_read_when_it_may_go(from: FoldClassify)
    ensures
        from.next_asks() <==> from.pending().len() > 0 && from.pending()[0] is ManifestRef
            && from.pending()[0]->ManifestRef_mdv is None && {
            let s = from.order().setting;
            let time = entry_time(from.pending()[0], s, from.fetched());
            time is Some && s.retention_cutoff_micros is Some && time->0
                < s.retention_cutoff_micros->0 && from@.dropped.len() < s.max_ttl_drop_files
        },
{
}

} // verus!
