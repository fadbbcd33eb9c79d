//! Folding the closed part of a hot root into the cold tier, and dropping what is past retention.
//!
//! A fold reads manifests and writes others along the way. What it decides stands here, as steps
//! that ask for a manifest, take it in, and say what to write.

use std::collections::VecDeque;
use std::sync::Arc;

use vstd::prelude::*;

use crate::graduate_buckets::{file_tombstones, push_data_file_and_sidecar};
use crate::manifest::{
    carried, existing_entry, file_max_ts, file_max_ts_spec, ref_max_event_micros, ref_max_ts,
    DataFile, ManifestEntry, ManifestFile, RootManifestEntry,
};
use crate::max_ts::{known, known_time, MaxTsMap, RefTimes, RefTimesView};
use crate::order::{is_stable_sort, law_stable_sort_is_by_key, stable_sort};
use crate::partition::PartitionSpec;
use crate::seqs::lemma_take_push;
use crate::text::texts;

verus! {

/// How many leaves one fold reads for their times.
pub const MAX_TTL_PREFETCH_LEAVES: usize = 256;

/// What a fold goes by.
pub struct FoldSetting {
    /// The table's default partition spec.
    pub spec: Arc<PartitionSpec>,
    pub ts_field_id: i32,
    /// What is older than this is closed.
    pub cutoff_micros: i64,
    /// What is older than this is dropped, where there is a retention.
    pub retention_cutoff_micros: Option<i64>,
    /// No more paths than this are dropped at once.
    pub max_ttl_drop_files: usize,
}

impl FoldSetting {
    /// The time that a manifest's summary gives.
    pub open spec fn summary_time(&self, mf: ManifestFile) -> Option<i64> {
        ref_max_ts(mf, *self.spec, self.ts_field_id)
    }

    fn summary_time_of(&self, mf: &ManifestFile) -> (r: Option<i64>)
        ensures
            r == self.summary_time(*mf),
    {
        ref_max_event_micros(mf, &self.spec, self.ts_field_id)
    }

    /// Whether a time is past retention.
    pub open spec fn expired(&self, time: Option<i64>) -> bool {
        time is Some && self.retention_cutoff_micros is Some && time->0
            < self.retention_cutoff_micros->0
    }

    /// Whether something of the time `time` may be dropped, `dropped` paths being dropped already:
    /// there is room for a path at least.
    pub open spec fn may_go(&self, time: Option<i64>, dropped: nat) -> bool {
        self.expired(time) && dropped < self.max_ttl_drop_files
    }

    /// Whether something of the time `time` that takes `paths` paths with it is dropped, `dropped`
    /// paths being dropped already.
    pub open spec fn must_go(&self, time: Option<i64>, dropped: nat, paths: nat) -> bool {
        self.expired(time) && dropped + paths <= self.max_ttl_drop_files
    }

    fn may_go_now(&self, time: Option<i64>, dropped: usize) -> (r: bool)
        ensures
            r == self.may_go(time, dropped as nat),
    {
        match (time, self.retention_cutoff_micros) {
            (Some(t), Some(cutoff)) => t < cutoff && dropped < self.max_ttl_drop_files,
            _ => false,
        }
    }

    fn must_go_now(&self, time: Option<i64>, dropped: usize, paths: u128) -> (r: bool)
        requires
            paths <= 0x2_0000_0000_0000_0000,
        ensures
            r == self.must_go(time, dropped as nat, paths as nat),
    {
        match (time, self.retention_cutoff_micros) {
            (Some(t), Some(cutoff)) => t < cutoff && dropped as u128 + paths
                <= self.max_ttl_drop_files as u128,
            _ => false,
        }
    }

    /// Whether some files of a leaf of the time `time` that takes `paths` paths with it are dropped,
    /// `dropped` paths being dropped already: the leaf is too large to go at once in any fold, and
    /// there is room for one file and its sidecar.
    pub open spec fn goes_in_part(&self, time: Option<i64>, dropped: nat, paths: nat) -> bool {
        &&& self.expired(time)
        &&& paths > self.max_ttl_drop_files
        &&& dropped + 2 <= self.max_ttl_drop_files
    }

    /// Whether the path of a leaf that goes in part is named too: where there is room for it beside
    /// one file. Else the manifest is just listed no longer.
    pub open spec fn names_leaf(&self, dropped: nat) -> bool {
        dropped + 3 <= self.max_ttl_drop_files
    }

    /// How many files of a leaf that goes in part are dropped, each with its sidecar.
    pub open spec fn part_size(&self, dropped: nat) -> nat {
        if self.names_leaf(dropped) {
            ((self.max_ttl_drop_files - dropped - 1) / 2) as nat
        } else {
            1
        }
    }

    fn goes_in_part_now(&self, time: Option<i64>, dropped: usize, paths: u128) -> (r: bool)
        ensures
            r == self.goes_in_part(time, dropped as nat, paths as nat),
    {
        match (time, self.retention_cutoff_micros) {
            (Some(t), Some(cutoff)) => t < cutoff && paths > self.max_ttl_drop_files as u128
                && dropped <= self.max_ttl_drop_files && self.max_ttl_drop_files - dropped >= 2,
            _ => false,
        }
    }

    /// Whether something of the time `time` is closed.
    pub open spec fn closed(&self, time: Option<i64>) -> bool {
        time is Some && time->0 < self.cutoff_micros
    }
}

/// Whether a cold leaf has to be read for its time: neither the stored times nor its summary give
/// one.
pub open spec fn unresolved(leaf: ManifestFile, s: FoldSetting, stored: Map<Seq<char>, Option<i64>>) -> bool {
    known(stored, leaf.manifest_path@) is None && s.summary_time(leaf) is None
}

/// Whether a cold leaf has to be read for its time.
pub fn is_unresolved(leaf: &ManifestFile, setting: &FoldSetting, stored: &MaxTsMap) -> (r: bool)
    ensures
        r == unresolved(*leaf, *setting, stored@),
{
    known_time(stored, leaf).is_none() && setting.summary_time_of(leaf).is_none()
}

/// The places of the unresolved leaves among the first `n`.
pub open spec fn unresolved_places(
    leaves: Seq<ManifestFile>,
    s: FoldSetting,
    stored: Map<Seq<char>, Option<i64>>,
    n: nat,
) -> Seq<usize>
    decreases n,
{
    if n == 0 {
        Seq::empty()
    } else {
        let rest = unresolved_places(leaves, s, stored, (n - 1) as nat);
        if unresolved(leaves[n - 1], s, stored) {
            rest.push((n - 1) as usize)
        } else {
            rest
        }
    }
}

/// The sequence numbers of the leaves at `places`.
pub open spec fn sequence_numbers(leaves: Seq<ManifestFile>, places: Seq<usize>) -> Seq<i64> {
    places.map_values(|p: usize| leaves[p as int].sequence_number)
}

/// Whether `places` are those of the leaves to read for their times: all that are unresolved, or,
/// where they are too many, the oldest of them by sequence number.
pub open spec fn is_prefetch(
    places: Seq<usize>,
    leaves: Seq<ManifestFile>,
    s: FoldSetting,
    stored: Map<Seq<char>, Option<i64>>,
) -> bool {
    let needed = unresolved_places(leaves, s, stored, leaves.len());
    if needed.len() <= MAX_TTL_PREFETCH_LEAVES {
        places == needed
    } else {
        exists|sorted: Seq<usize>| #[trigger]
            is_stable_sort(needed, sequence_numbers(leaves, needed), sorted) && places
                == sorted.take(MAX_TTL_PREFETCH_LEAVES as int)
    }
}

/// The cold leaves to read for their times, by place.
pub fn ttl_prefetch(leaves: &[ManifestFile], setting: &FoldSetting, stored: &MaxTsMap) -> (r: Vec<
    usize,
>)
    ensures
        is_prefetch(r@, leaves@, *setting, stored@),
        forall|i: int| 0 <= i < r@.len() ==> (#[trigger] r@[i]) < leaves@.len(),
{
    let mut needed: Vec<usize> = Vec::new();
    let mut i: usize = 0;
    while i < leaves.len()
        invariant
            i <= leaves@.len(),
            needed@ == unresolved_places(leaves@, *setting, stored@, i as nat),
            forall|k: int| 0 <= k < needed@.len() ==> (#[trigger] needed@[k]) < i,
        decreases leaves@.len() - i,
    {
        if is_unresolved(&leaves[i], setting, stored) {
            needed.push(i);
        }
        i = i + 1;
    }
    if needed.len() <= MAX_TTL_PREFETCH_LEAVES {
        return needed;
    }
    let mut keys: Vec<i64> = Vec::with_capacity(needed.len());
    let mut k: usize = 0;
    while k < needed.len()
        invariant
            k <= needed@.len(),
            forall|k: int| 0 <= k < needed@.len() ==> (#[trigger] needed@[k]) < leaves@.len(),
            keys@ == sequence_numbers(leaves@, needed@).take(k as int),
        decreases needed@.len() - k,
    {
        keys.push(leaves[needed[k]].sequence_number);
        proof {
            lemma_take_push(sequence_numbers(leaves@, needed@), k as int);
        }
        k = k + 1;
    }
    assert(sequence_numbers(leaves@, needed@).take(k as int) =~= sequence_numbers(
        leaves@,
        needed@,
    ));
    let ghost all = needed@;
    let mut sorted = stable_sort(needed, &keys);
    let ghost whole = sorted@;
    proof {
        assert forall|i: int| 0 <= i < whole.len() implies (#[trigger] whole[i]) < leaves@.len() by {
            crate::order::law_stable_sort_keeps_every_item(all, keys@, whole, whole[i]);
            assert(whole.contains(whole[i]));
            let m = choose|m: int| 0 <= m < all.len() && all[m] == whole[i];
            assert(all[m] < leaves@.len());
        }
    }
    sorted.truncate(MAX_TTL_PREFETCH_LEAVES);
    assert(sorted@ =~= whole.take(MAX_TTL_PREFETCH_LEAVES as int));
    sorted
}

/// The time of a cold leaf: the stored one, or else the one of its summary, or else the one that
/// was read from it.
pub open spec fn leaf_time(
    leaf: ManifestFile,
    s: FoldSetting,
    stored: Map<Seq<char>, Option<i64>>,
    fetched: Map<Seq<char>, Option<i64>>,
) -> Option<i64> {
    match known(stored, leaf.manifest_path@) {
        Some(t) => Some(t),
        None => match s.summary_time(leaf) {
            Some(t) => Some(t),
            None => known(fetched, leaf.manifest_path@),
        },
    }
}

/// A cold leaf with its time.
pub struct TimedLeaf {
    pub leaf: ManifestFile,
    pub max_ts: Option<i64>,
}

/// `leaves` with their times.
pub open spec fn timed(
    leaves: Seq<ManifestFile>,
    s: FoldSetting,
    stored: Map<Seq<char>, Option<i64>>,
    fetched: Map<Seq<char>, Option<i64>>,
) -> Seq<TimedLeaf> {
    leaves.map_values(
        |l: ManifestFile| TimedLeaf { leaf: l, max_ts: leaf_time(l, s, stored, fetched) },
    )
}

/// What leaves are sorted by: their times, those without one last.
pub open spec fn time_keys(leaves: Seq<TimedLeaf>) -> Seq<i64> {
    leaves.map_values(
        |l: TimedLeaf|
            match l.max_ts {
                Some(t) => t,
                None => i64::MAX,
            },
    )
}

/// Works out the times of the cold leaves and puts the coldest first.
pub fn resolve_leaves(
    leaves: Vec<ManifestFile>,
    setting: &FoldSetting,
    stored: &MaxTsMap,
    fetched: &MaxTsMap,
) -> (r: Vec<TimedLeaf>)
    ensures
        is_stable_sort(
            timed(leaves@, *setting, stored@, fetched@),
            time_keys(timed(leaves@, *setting, stored@, fetched@)),
            r@,
        ),
        r@.len() == leaves@.len(),
{
    let ghost given = leaves@;
    let ghost all = timed(leaves@, *setting, stored@, fetched@);
    let mut keys: Vec<i64> = Vec::with_capacity(leaves.len());
    let mut resolved: Vec<TimedLeaf> = Vec::with_capacity(leaves.len());
    for leaf in iter: leaves
        invariant
            iter.seq() == given,
            all == timed(given, *setting, stored@, fetched@),
            resolved@ == all.take(iter.index() as int),
            keys@ == time_keys(all).take(iter.index() as int),
    {
        let time: Option<i64> = match known_time(stored, &leaf) {
            Some(t) => Some(t),
            None => match setting.summary_time_of(&leaf) {
                Some(t) => Some(t),
                None => known_time(fetched, &leaf),
            },
        };
        proof {
            let n = iter.index() as int;
            lemma_take_push(all, n);
            lemma_take_push(time_keys(all), n);
            assert(all[n] == (TimedLeaf { leaf, max_ts: time }));
        }
        keys.push(
            match time {
                Some(t) => t,
                None => i64::MAX,
            },
        );
        resolved.push(TimedLeaf { leaf, max_ts: time });
    }
    assert(all.take(given.len() as int) =~= all);
    assert(time_keys(all).take(given.len() as int) =~= time_keys(all));
    stable_sort(resolved, &keys)
}

/// The paths that go with the live files of a manifest.
pub open spec fn tombstones(entries: Seq<ManifestEntry>) -> Seq<Seq<char>>
    decreases entries.len(),
{
    if entries.len() == 0 {
        Seq::empty()
    } else if entries.last().alive() {
        tombstones(entries.drop_last()) + file_tombstones(entries.last().data_file.file_path@)
    } else {
        tombstones(entries.drop_last())
    }
}

/// The paths that go with a manifest: those of its live files, and its own.
pub open spec fn manifest_tombstones(mf: ManifestFile, entries: Seq<ManifestEntry>) -> Seq<Seq<char>> {
    tombstones(entries).push(mf.manifest_path@)
}

fn push_manifest(paths: &mut Vec<String>, mf: &ManifestFile, entries: &[ManifestEntry])
    ensures
        texts(final(paths)@) == texts(old(paths)@) + manifest_tombstones(*mf, entries@),
{
    let ghost start = texts(paths@);
    let mut i: usize = 0;
    assert(start + tombstones(entries@.take(0)) =~= start);
    while i < entries.len()
        invariant
            i <= entries@.len(),
            texts(paths@) == start + tombstones(entries@.take(i as int)),
        decreases entries@.len() - i,
    {
        proof {
            lemma_take_push(entries@, i as int);
            assert(entries@.take(i + 1).drop_last() =~= entries@.take(i as int));
        }
        if entries[i].is_alive() {
            push_data_file_and_sidecar(paths, entries[i].data_file.file_path.as_str());
            assert(texts(paths@) =~= start + tombstones(entries@.take(i + 1)));
        }
        i = i + 1;
    }
    assert(entries@.take(i as int) =~= entries@);
    let ghost before = paths@;
    paths.push(mf.manifest_path.clone());
    assert(texts(paths@) =~= texts(before).push(mf.manifest_path@));
    assert(texts(paths@) =~= start + manifest_tombstones(*mf, entries@));
}

/// How many paths go with a manifest.
fn count_manifest_paths(entries: &[ManifestEntry]) -> (r: u128)
    ensures
        r == tombstones(entries@).len() + 1,
        r <= 0x2_0000_0000_0000_0000,
{
    let mut n: u128 = 0;
    let mut i: usize = 0;
    while i < entries.len()
        invariant
            i <= entries@.len(),
            n == tombstones(entries@.take(i as int)).len(),
            n <= 2 * i,
        decreases entries@.len() - i,
    {
        proof {
            lemma_take_push(entries@, i as int);
            assert(entries@.take(i + 1).drop_last() =~= entries@.take(i as int));
        }
        if entries[i].is_alive() {
            n = n + 2;
        }
        i = i + 1;
    }
    assert(entries@.take(i as int) =~= entries@);
    n + 1
}

/// How many live files a manifest lists.
pub open spec fn live_count(entries: Seq<ManifestEntry>) -> nat
    decreases entries.len(),
{
    if entries.len() == 0 {
        0
    } else if entries.last().alive() {
        live_count(entries.drop_last()) + 1
    } else {
        live_count(entries.drop_last())
    }
}

/// The paths that go with the first `n` live files of a manifest.
pub open spec fn first_tombstones(entries: Seq<ManifestEntry>, n: nat) -> Seq<Seq<char>>
    decreases entries.len(),
{
    if entries.len() == 0 {
        Seq::empty()
    } else {
        let rest = first_tombstones(entries.drop_last(), n);
        if entries.last().alive() && live_count(entries.drop_last()) < n {
            rest + file_tombstones(entries.last().data_file.file_path@)
        } else {
            rest
        }
    }
}

/// What is left of a manifest without its first `n` live files, to be written anew.
pub open spec fn left_behind(entries: Seq<ManifestEntry>, n: nat) -> Seq<ManifestEntry>
    decreases entries.len(),
{
    if entries.len() == 0 {
        Seq::empty()
    } else {
        let rest = left_behind(entries.drop_last(), n);
        if entries.last().alive() && live_count(entries.drop_last()) >= n {
            rest.push(carried(entries.last().data_file))
        } else {
            rest
        }
    }
}

/// The paths that go with a leaf of which only the first `n` live files go.
pub open spec fn part_tombstones(
    mf: ManifestFile,
    entries: Seq<ManifestEntry>,
    n: nat,
    named: bool,
) -> Seq<Seq<char>> {
    if named {
        first_tombstones(entries, n).push(mf.manifest_path@)
    } else {
        first_tombstones(entries, n)
    }
}

proof fn lemma_part_sizes(entries: Seq<ManifestEntry>, n: nat)
    ensures
        tombstones(entries).len() == 2 * live_count(entries),
        first_tombstones(entries, n).len() == 2 * (if live_count(entries) < n {
            live_count(entries)
        } else {
            n
        }),
        left_behind(entries, n).len() == (if live_count(entries) < n {
            0
        } else {
            live_count(entries) - n
        }),
    decreases entries.len(),
{
    if entries.len() > 0 {
        lemma_part_sizes(entries.drop_last(), n);
    }
}

/// A leaf that goes in part loses no live file but those that are dropped: each is among what is
/// left behind, or its path is among those that go.
pub proof fn law_part_loses_no_file(entries: Seq<ManifestEntry>, n: nat, i: int)
    requires
        0 <= i < entries.len(),
        entries[i].alive(),
    ensures
        left_behind(entries, n).contains(carried(entries[i].data_file)) || first_tombstones(
            entries,
            n,
        ).contains(entries[i].data_file.file_path@),
    decreases entries.len(),
{
    let head = entries.drop_last();
    let left = left_behind(entries, n);
    let gone = first_tombstones(entries, n);
    if i < head.len() {
        law_part_loses_no_file(head, n, i);
        assert(head[i] == entries[i]);
        let x = carried(entries[i].data_file);
        let path = entries[i].data_file.file_path@;
        if left_behind(head, n).contains(x) {
            let k = choose|k: int| 0 <= k < left_behind(head, n).len() && left_behind(head, n)[k] == x;
            assert(left[k] == x);
        } else {
            let k = choose|k: int|
                0 <= k < first_tombstones(head, n).len() && first_tombstones(head, n)[k] == path;
            assert(gone[k] == path);
        }
    } else if live_count(head) >= n {
        assert(left[left.len() - 1] == carried(entries[i].data_file));
    } else {
        assert(gone[gone.len() - 1] == entries[i].data_file.file_path@);
    }
}

/// Drops the first `n` live files of a leaf, and gives what is left of it.
fn push_part(
    paths: &mut Vec<String>,
    mf: &ManifestFile,
    entries: &[ManifestEntry],
    n: usize,
    named: bool,
) -> (left: Vec<ManifestEntry>)
    ensures
        texts(final(paths)@) == texts(old(paths)@) + part_tombstones(
            *mf,
            entries@,
            n as nat,
            named,
        ),
        left@ == left_behind(entries@, n as nat),
{
    let ghost start = texts(paths@);
    let mut left: Vec<ManifestEntry> = Vec::new();
    let mut live: usize = 0;
    let mut i: usize = 0;
    assert(start + first_tombstones(entries@.take(0), n as nat) =~= start);
    while i < entries.len()
        invariant
            i <= entries@.len(),
            live <= i,
            live == live_count(entries@.take(i as int)),
            texts(paths@) == start + first_tombstones(entries@.take(i as int), n as nat),
            left@ == left_behind(entries@.take(i as int), n as nat),
        decreases entries@.len() - i,
    {
        proof {
            lemma_take_push(entries@, i as int);
            assert(entries@.take(i + 1).drop_last() =~= entries@.take(i as int));
        }
        if entries[i].is_alive() {
            if live < n {
                push_data_file_and_sidecar(paths, entries[i].data_file.file_path.as_str());
                assert(texts(paths@) =~= start + first_tombstones(entries@.take(i + 1), n as nat));
            } else {
                left.push(existing_entry(entries[i].data_file.clone()));
            }
            live = live + 1;
        }
        i = i + 1;
    }
    assert(entries@.take(i as int) =~= entries@);
    if named {
        let ghost before = paths@;
        paths.push(mf.manifest_path.clone());
        assert(texts(paths@) =~= texts(before).push(mf.manifest_path@));
        assert(texts(paths@) =~= start + part_tombstones(*mf, entries@, n as nat, named));
    }
    left
}

/// What is left of a cold leaf that went in part.
pub struct LeafRest {
    pub leaf: ManifestFile,
    pub entries: Vec<ManifestEntry>,
}

/// What is left of a cold leaf that went in part, by its entries.
pub struct RestView {
    pub leaf: ManifestFile,
    pub entries: Seq<ManifestEntry>,
}

/// What is left of leaves, by their entries.
pub open spec fn rest_views(rests: Seq<LeafRest>) -> Seq<RestView> {
    rests.map_values(|r: LeafRest| RestView { leaf: r.leaf, entries: r.entries@ })
}

/// Whether `left` are the last of `all`.
pub open spec fn is_rest<T>(left: Seq<T>, all: Seq<T>) -> bool {
    left.len() <= all.len() && left == all.skip(all.len() - left.len())
}

/// The leaves of `all` that are passed once only `left` are to be seen.
pub open spec fn passed(all: Seq<TimedLeaf>, left: Seq<TimedLeaf>) -> Seq<ManifestFile> {
    all.take(all.len() - left.len()).map_values(|l: TimedLeaf| l.leaf)
}

/// What a retention of cold leaves has come to.
pub struct PruneView {
    pub surviving: Seq<ManifestFile>,
    /// What is left of the leaves that went in part.
    pub rests: Seq<RestView>,
    pub dropped: Seq<Seq<char>>,
}

/// What a retention comes to once `next` with the entries `entries` is seen: a leaf past retention
/// goes with its live files, if there is room for all of its paths. One that there is never room
/// for goes in part: as many of its files as fit, the rest of it being left to be written anew.
pub open spec fn pruned_one(
    v: PruneView,
    next: TimedLeaf,
    s: FoldSetting,
    entries: Seq<ManifestEntry>,
) -> PruneView {
    let paths = manifest_tombstones(next.leaf, entries);
    let done = v.dropped.len();
    if s.must_go(next.max_ts, done, paths.len()) {
        PruneView { dropped: v.dropped + paths, ..v }
    } else if s.goes_in_part(next.max_ts, done, paths.len()) {
        let n = s.part_size(done);
        PruneView {
            rests: v.rests.push(RestView { leaf: next.leaf, entries: left_behind(entries, n) }),
            dropped: v.dropped + part_tombstones(next.leaf, entries, n, s.names_leaf(done)),
            ..v
        }
    } else {
        PruneView { surviving: v.surviving.push(next.leaf), ..v }
    }
}

/// What a retention comes to once all of `pending` are seen, `load` giving the entries of a leaf.
pub open spec fn pruned(
    v: PruneView,
    pending: Seq<TimedLeaf>,
    s: FoldSetting,
    load: spec_fn(ManifestFile) -> Seq<ManifestEntry>,
) -> PruneView
    decreases pending.len(),
{
    if pending.len() == 0 {
        v
    } else {
        pruned(pruned_one(v, pending[0], s, load(pending[0].leaf)), pending.skip(1), s, load)
    }
}

/// A retention of cold leaves, leaf by leaf.
pub struct TtlPrune {
    pending: VecDeque<TimedLeaf>,
    surviving: Vec<ManifestFile>,
    rests: Vec<LeafRest>,
    dropped_paths: Vec<String>,
}

impl View for TtlPrune {
    type V = PruneView;

    closed spec fn view(&self) -> PruneView {
        PruneView {
            surviving: self.surviving@,
            rests: rest_views(self.rests@),
            dropped: texts(self.dropped_paths@),
        }
    }
}

/// The cold leaves by what became of them.
pub struct Pruned {
    pub surviving: Vec<ManifestFile>,
    /// What is left of the leaves that went in part.
    pub rests: Vec<LeafRest>,
    pub dropped_paths: Vec<String>,
}

impl View for Pruned {
    type V = PruneView;

    open spec fn view(&self) -> PruneView {
        PruneView {
            surviving: self.surviving@,
            rests: rest_views(self.rests@),
            dropped: texts(self.dropped_paths@),
        }
    }
}

impl TtlPrune {
    /// The leaves still to be seen.
    pub closed spec fn pending(&self) -> Seq<TimedLeaf> {
        self.pending@
    }

    /// What the retention comes to, `load` giving the entries of a leaf.
    pub open spec fn outcome(
        &self,
        s: FoldSetting,
        load: spec_fn(ManifestFile) -> Seq<ManifestEntry>,
    ) -> PruneView {
        pruned(self@, self.pending(), s, load)
    }

    /// Starts a retention over `leaves`, the first first.
    pub fn new(leaves: Vec<TimedLeaf>) -> (r: Self)
        ensures
            r.pending() == leaves@,
            r@ == (PruneView {
                surviving: Seq::empty(),
                rests: Seq::empty(),
                dropped: Seq::empty(),
            }),
    {
        let ghost all = leaves@;
        let mut pending: VecDeque<TimedLeaf> = VecDeque::with_capacity(leaves.len());
        for leaf in iter: leaves
            invariant
                iter.seq() == all,
                pending@ == all.take(iter.index() as int),
        {
            proof {
                lemma_take_push(all, iter.index() as int);
            }
            pending.push_back(leaf);
        }
        assert(all.take(all.len() as int) =~= all);
        let r = TtlPrune {
            pending,
            surviving: Vec::new(),
            rests: Vec::new(),
            dropped_paths: Vec::new(),
        };
        assert(texts(r.dropped_paths@) =~= Seq::<Seq<char>>::empty());
        assert(rest_views(r.rests@) =~= Seq::<RestView>::empty());
        r
    }

    /// Passes the leaves that stay whatever they list, up to one that may go; its entries are asked
    /// for.
    pub fn advance(&mut self, setting: &FoldSetting) -> (more: bool)
        ensures
            more == (final(self).pending().len() > 0),
            more ==> setting.may_go(final(self).pending()[0].max_ts, final(self)@.dropped.len()),
            is_rest(final(self).pending(), old(self).pending()),
            final(self)@.surviving == old(self)@.surviving + passed(
                old(self).pending(),
                final(self).pending(),
            ),
            final(self)@.rests == old(self)@.rests,
            final(self)@.dropped == old(self)@.dropped,
            forall|load: spec_fn(ManifestFile) -> Seq<ManifestEntry>| #[trigger]
                final(self).outcome(*setting, load) == old(self).outcome(*setting, load),
    {
        let ghost start = *self;
        assert(start.pending@.skip(0) =~= start.pending@);
        assert(start@.surviving + passed(start.pending(), start.pending()) =~= start@.surviving);
        while self.pending.len() > 0
            invariant
                start == *old(self),
                self@.surviving == start@.surviving + passed(start.pending(), self.pending()),
                self@.rests == start@.rests,
                self@.dropped == start@.dropped,
                is_rest(self.pending(), start.pending()),
                forall|load: spec_fn(ManifestFile) -> Seq<ManifestEntry>| #[trigger]
                    self.outcome(*setting, load) == start.outcome(*setting, load),
            decreases self.pending@.len(),
        {
            if setting.may_go_now(self.pending[0].max_ts, self.dropped_paths.len()) {
                return true;
            }
            let ghost before = *self;
            assert(before.pending@.subrange(1, before.pending@.len() as int)
                =~= before.pending@.skip(1));
            if let Some(next) = self.pending.pop_front() {
                self.surviving.push(next.leaf);
            }
            proof {
                let n = start.pending().len() - before.pending().len();
                assert(self.pending() =~= start.pending().skip(n + 1));
                assert(start.pending()[n] == before.pending()[0]);
                assert(passed(start.pending(), self.pending()) =~= passed(
                    start.pending(),
                    before.pending(),
                ).push(before.pending()[0].leaf));
                assert(self@.surviving =~= start@.surviving + passed(
                    start.pending(),
                    self.pending(),
                ));
            }
            assert forall|load: spec_fn(ManifestFile) -> Seq<ManifestEntry>| #[trigger]
                self.outcome(*setting, load) == start.outcome(*setting, load) by {
                assert(before.outcome(*setting, load) == start.outcome(*setting, load));
                let next = before.pending()[0];
                assert(manifest_tombstones(next.leaf, load(next.leaf)).len() >= 1);
                assert(self@ == pruned_one(before@, next, *setting, load(next.leaf)));
            }
        }
        false
    }

    /// The leaf whose entries are asked for.
    pub fn next_leaf(&self) -> (r: Option<&ManifestFile>)
        ensures
            match r {
                Some(leaf) => self.pending().len() > 0 && *leaf == self.pending()[0].leaf,
                None => self.pending().len() == 0,
            },
    {
        if self.pending.len() == 0 {
            None
        } else {
            Some(&self.pending[0].leaf)
        }
    }

    /// Takes in the entries of the next leaf: it goes, if there is room for all of its paths, and in
    /// part, if there never is.
    pub fn take_next(&mut self, setting: &FoldSetting, entries: &[ManifestEntry])
        requires
            old(self).pending().len() > 0,
        ensures
            final(self).pending() == old(self).pending().skip(1),
            final(self)@ == pruned_one(old(self)@, old(self).pending()[0], *setting, entries@),
            forall|load: spec_fn(ManifestFile) -> Seq<ManifestEntry>|
                load(old(self).pending()[0].leaf) == entries@ ==> #[trigger] final(self).outcome(
                    *setting,
                    load,
                ) == old(self).outcome(*setting, load),
    {
        let ghost before = *self;
        assert(before.pending@.subrange(1, before.pending@.len() as int) =~= before.pending@.skip(
            1,
        ));
        let paths: u128 = count_manifest_paths(entries);
        if let Some(next) = self.pending.pop_front() {
            let done: usize = self.dropped_paths.len();
            if setting.must_go_now(next.max_ts, done, paths) {
                push_manifest(&mut self.dropped_paths, &next.leaf, entries);
            } else if setting.goes_in_part_now(next.max_ts, done, paths) {
                let room: usize = setting.max_ttl_drop_files - done;
                let named = room >= 3;
                let n: usize = if named {
                    (room - 1) / 2
                } else {
                    1
                };
                let left = push_part(&mut self.dropped_paths, &next.leaf, entries, n, named);
                let ghost rests = self.rests@;
                self.rests.push(LeafRest { leaf: next.leaf, entries: left });
                assert(rest_views(self.rests@) =~= rest_views(rests).push(
                    RestView { leaf: next.leaf, entries: left@ },
                ));
            } else {
                self.surviving.push(next.leaf);
            }
        }
    }

    /// The leaves that stay, what is left of others, and the paths that go, once no leaf is left to
    /// be seen.
    pub fn finish(self) -> (r: Pruned)
        requires
            self.pending().len() == 0,
        ensures
            r@ == self@,
            forall|s: FoldSetting, load: spec_fn(ManifestFile) -> Seq<ManifestEntry>|
                r@ == #[trigger] self.outcome(s, load),
    {
        Pruned {
            surviving: self.surviving,
            rests: self.rests,
            dropped_paths: self.dropped_paths,
        }
    }
}

proof fn lemma_pruned_grows(
    v: PruneView,
    pending: Seq<TimedLeaf>,
    s: FoldSetting,
    load: spec_fn(ManifestFile) -> Seq<ManifestEntry>,
)
    ensures
        v.surviving.is_prefix_of(pruned(v, pending, s, load).surviving),
        v.rests.is_prefix_of(pruned(v, pending, s, load).rests),
        v.dropped.is_prefix_of(pruned(v, pending, s, load).dropped),
    decreases pending.len(),
{
    if pending.len() > 0 {
        let after = pruned_one(v, pending[0], s, load(pending[0].leaf));
        lemma_pruned_grows(after, pending.skip(1), s, load);
    }
}

/// Retention drops no cold leaf but an expired one: every leaf survives, or it is past retention
/// and its path is among those that go, or what is left of it is to be written anew.
pub proof fn law_only_expired_leaves_go(
    v: PruneView,
    pending: Seq<TimedLeaf>,
    s: FoldSetting,
    load: spec_fn(ManifestFile) -> Seq<ManifestEntry>,
    i: int,
)
    requires
        0 <= i < pending.len(),
    ensures
        ({
            let end = pruned(v, pending, s, load);
            let leaf = pending[i].leaf;
            ||| end.surviving.contains(leaf)
            ||| s.expired(pending[i].max_ts) && end.dropped.contains(leaf.manifest_path@)
            ||| s.expired(pending[i].max_ts) && exists|k: int, n: nat|
                #![trigger end.rests[k], left_behind(load(leaf), n)]
                0 <= k < end.rests.len() && end.rests[k] == (RestView {
                    leaf,
                    entries: left_behind(load(leaf), n),
                })
        }),
    decreases pending.len(),
{
    let next = pending[0];
    let rest = pending.skip(1);
    let after = pruned_one(v, next, s, load(next.leaf));
    let end = pruned(after, rest, s, load);
    if i > 0 {
        assert(rest[i - 1] == pending[i]);
        law_only_expired_leaves_go(after, rest, s, load, i - 1);
    } else {
        lemma_pruned_grows(after, rest, s, load);
        let paths = manifest_tombstones(next.leaf, load(next.leaf));
        if s.must_go(next.max_ts, v.dropped.len(), paths.len()) {
            let k = after.dropped.len() - 1;
            assert(after.dropped[k] == next.leaf.manifest_path@);
            assert(end.dropped[k] == after.dropped[k]);
        } else if s.goes_in_part(next.max_ts, v.dropped.len(), paths.len()) {
            let k = v.rests.len() as int;
            let n = s.part_size(v.dropped.len());
            assert(after.rests[k] == (RestView {
                leaf: next.leaf,
                entries: left_behind(load(next.leaf), n),
            }));
            assert(end.rests[k] == after.rests[k]);
        } else {
            let k = v.surviving.len() as int;
            assert(after.surviving[k] == next.leaf);
            assert(end.surviving[k] == after.surviving[k]);
        }
    }
}

/// What is past retention goes in the end, however large: an expired leaf that a retention comes to
/// while nothing is dropped yet does not stay as it is. It goes at once, or at least one of its
/// files goes and the others are left, so that fewer are left to each later fold. Room for one file
/// and its sidecar is all that is asked for.
pub proof fn law_expired_leaves_get_smaller(
    v: PruneView,
    next: TimedLeaf,
    s: FoldSetting,
    entries: Seq<ManifestEntry>,
)
    requires
        v.dropped.len() == 0,
        s.expired(next.max_ts),
        s.max_ttl_drop_files >= 2,
    ensures
        ({
            let after = pruned_one(v, next, s, entries);
            &&& after.surviving == v.surviving
            &&& after.dropped.len() > 0
            &&& after.rests == v.rests || {
                &&& after.rests.len() == v.rests.len() + 1
                &&& after.rests.last().leaf == next.leaf
                &&& after.rests.last().entries.len() < live_count(entries)
            }
        }),
{
    lemma_part_sizes(entries, s.part_size(0));
}

/// A leaf that is seen keeps the bound, and leaves something behind only where something goes.
pub proof fn lemma_pruned_one_bounded(
    v: PruneView,
    next: TimedLeaf,
    s: FoldSetting,
    entries: Seq<ManifestEntry>,
)
    requires
        v.dropped.len() <= s.max_ttl_drop_files,
        v.rests.len() > 0 ==> v.dropped.len() > 0,
    ensures
        ({
            let after = pruned_one(v, next, s, entries);
            &&& after.dropped.len() <= s.max_ttl_drop_files
            &&& after.rests.len() > 0 ==> after.dropped.len() > 0
        }),
{
    lemma_part_sizes(entries, s.part_size(v.dropped.len()));
}

/// Retention of cold leaves drops no more paths than are allowed at once.
pub proof fn law_pruned_paths_are_bounded(
    v: PruneView,
    pending: Seq<TimedLeaf>,
    s: FoldSetting,
    load: spec_fn(ManifestFile) -> Seq<ManifestEntry>,
)
    requires
        v.dropped.len() <= s.max_ttl_drop_files,
    ensures
        pruned(v, pending, s, load).dropped.len() <= s.max_ttl_drop_files,
    decreases pending.len(),
{
    if pending.len() > 0 {
        lemma_part_sizes(load(pending[0].leaf), s.part_size(v.dropped.len()));
        law_pruned_paths_are_bounded(
            pruned_one(v, pending[0], s, load(pending[0].leaf)),
            pending.skip(1),
            s,
            load,
        );
    }
}

/// Whether the time of a root's manifest has to be read from it: it has no delete vector, and its
/// summary does not give one.
pub open spec fn ref_unresolved(e: RootManifestEntry, s: FoldSetting) -> bool {
    e matches RootManifestEntry::ManifestRef { manifest_file, mdv } && mdv is None
        && s.summary_time(manifest_file) is None
}

/// The places of the unresolved manifests among the first `n` entries.
pub open spec fn unresolved_refs(entries: Seq<RootManifestEntry>, s: FoldSetting, n: nat) -> Seq<usize>
    decreases n,
{
    if n == 0 {
        Seq::empty()
    } else {
        let rest = unresolved_refs(entries, s, (n - 1) as nat);
        if ref_unresolved(entries[n - 1], s) {
            rest.push((n - 1) as usize)
        } else {
            rest
        }
    }
}

/// The manifests of a root to read for their times, by place.
pub fn classify_prefetch(entries: &[RootManifestEntry], setting: &FoldSetting) -> (r: Vec<usize>)
    ensures
        r@ == unresolved_refs(entries@, *setting, entries@.len()),
{
    let mut r: Vec<usize> = Vec::new();
    let mut i: usize = 0;
    while i < entries.len()
        invariant
            i <= entries@.len(),
            r@ == unresolved_refs(entries@, *setting, i as nat),
        decreases entries@.len() - i,
    {
        if let RootManifestEntry::ManifestRef { manifest_file, mdv } = &entries[i] {
            if mdv.is_none() && setting.summary_time_of(manifest_file).is_none() {
                r.push(i);
            }
        }
        i = i + 1;
    }
    r
}

/// The time that an entry of a root is past retention by: of a manifest the one of its summary, or
/// else the one that was read from it, where each of its live files has one; of a file its own.
pub open spec fn entry_time(
    e: RootManifestEntry,
    s: FoldSetting,
    fetched: RefTimesView,
) -> Option<i64> {
    match e {
        RootManifestEntry::ManifestRef { manifest_file, .. } => match s.summary_time(manifest_file) {
            Some(t) => Some(t),
            None => known(fetched.whole, manifest_file.manifest_path@),
        },
        RootManifestEntry::Inline(me) => file_max_ts_spec(*me.data_file, s.ts_field_id),
    }
}

/// The time that an entry of a root is closed by: of a manifest the one of its summary, or else the
/// newest that was read of its live files; of a file its own.
pub open spec fn close_time(
    e: RootManifestEntry,
    s: FoldSetting,
    fetched: RefTimesView,
) -> Option<i64> {
    match e {
        RootManifestEntry::ManifestRef { manifest_file, .. } => match s.summary_time(manifest_file) {
            Some(t) => Some(t),
            None => known(fetched.newest, manifest_file.manifest_path@),
        },
        RootManifestEntry::Inline(me) => file_max_ts_spec(*me.data_file, s.ts_field_id),
    }
}

/// What becomes of a root's entry.
#[derive(Clone, Copy, Debug, PartialEq, Eq, Structural)]
pub enum Fate {
    /// It stays in the hot root.
    Kept,
    /// It is closed and moves to the cold tier.
    Closed,
    /// It is past retention and goes.
    Dropped,
}

/// Whether an entry is a manifest with a delete vector.
pub open spec fn has_mdv(e: RootManifestEntry) -> bool {
    e matches RootManifestEntry::ManifestRef { mdv, .. } && mdv is Some
}

/// The paths that go with an entry.
pub open spec fn entry_tombstones(
    e: RootManifestEntry,
    load: spec_fn(ManifestFile) -> Seq<ManifestEntry>,
) -> Seq<Seq<char>> {
    match e {
        RootManifestEntry::ManifestRef { manifest_file, .. } => manifest_tombstones(
            manifest_file,
            load(manifest_file),
        ),
        RootManifestEntry::Inline(me) => file_tombstones(me.data_file.file_path@),
    }
}

/// What becomes of a root's entry, `dropped` paths being dropped already, and `load` giving the
/// entries of a manifest. A manifest with a delete vector stays for now; past retention goes before
/// closed, if there is room for all of the entry's paths.
pub open spec fn fate(
    e: RootManifestEntry,
    s: FoldSetting,
    fetched: RefTimesView,
    dropped: nat,
    load: spec_fn(ManifestFile) -> Seq<ManifestEntry>,
) -> Fate {
    let time = entry_time(e, s, fetched);
    if has_mdv(e) {
        Fate::Kept
    } else if s.must_go(time, dropped, entry_tombstones(e, load).len()) {
        Fate::Dropped
    } else if s.closed(close_time(e, s, fetched)) {
        Fate::Closed
    } else {
        Fate::Kept
    }
}

/// Whether an entry is a manifest that may be dropped, so that its entries are asked for.
pub open spec fn asks(
    e: RootManifestEntry,
    s: FoldSetting,
    fetched: RefTimesView,
    dropped: nat,
) -> bool {
    e is ManifestRef && !has_mdv(e) && s.may_go(entry_time(e, s, fetched), dropped)
}

/// A closed manifest with its time.
pub struct ClosedRef {
    pub manifest_file: ManifestFile,
    pub max_ts: i64,
}

/// What a classification has come to.
pub struct ClassView {
    pub kept: Seq<RootManifestEntry>,
    pub closed_refs: Seq<ClosedRef>,
    pub closed_files: Seq<Arc<DataFile>>,
    pub dropped: Seq<Seq<char>>,
}

/// What a classification comes to once `e` is seen.
pub open spec fn classified_one(
    v: ClassView,
    e: RootManifestEntry,
    s: FoldSetting,
    fetched: RefTimesView,
    load: spec_fn(ManifestFile) -> Seq<ManifestEntry>,
) -> ClassView {
    match fate(e, s, fetched, v.dropped.len(), load) {
        Fate::Kept => ClassView { kept: v.kept.push(e), ..v },
        Fate::Dropped => ClassView { dropped: v.dropped + entry_tombstones(e, load), ..v },
        Fate::Closed => match e {
            RootManifestEntry::ManifestRef { manifest_file, .. } => ClassView {
                closed_refs: v.closed_refs.push(
                    ClosedRef { manifest_file, max_ts: close_time(e, s, fetched)->0 },
                ),
                ..v
            },
            RootManifestEntry::Inline(me) => ClassView {
                closed_files: v.closed_files.push(me.data_file),
                ..v
            },
        },
    }
}

/// What a classification comes to once all of `pending` are seen.
pub open spec fn classified(
    v: ClassView,
    pending: Seq<RootManifestEntry>,
    s: FoldSetting,
    fetched: RefTimesView,
    load: spec_fn(ManifestFile) -> Seq<ManifestEntry>,
) -> ClassView
    decreases pending.len(),
{
    if pending.len() == 0 {
        v
    } else {
        classified(
            classified_one(v, pending[0], s, fetched, load),
            pending.skip(1),
            s,
            fetched,
            load,
        )
    }
}

/// A classification of a root's entries, entry by entry.
pub struct Classification {
    pending: VecDeque<RootManifestEntry>,
    kept: Vec<RootManifestEntry>,
    closed_refs: Vec<ClosedRef>,
    closed_files: Vec<Arc<DataFile>>,
    dropped_paths: Vec<String>,
}

/// A root's entries by what becomes of them.
pub struct Classified {
    pub kept: Vec<RootManifestEntry>,
    pub closed_refs: Vec<ClosedRef>,
    pub closed_files: Vec<Arc<DataFile>>,
    pub dropped_paths: Vec<String>,
}

impl View for Classification {
    type V = ClassView;

    closed spec fn view(&self) -> ClassView {
        ClassView {
            kept: self.kept@,
            closed_refs: self.closed_refs@,
            closed_files: self.closed_files@,
            dropped: texts(self.dropped_paths@),
        }
    }
}

impl View for Classified {
    type V = ClassView;

    open spec fn view(&self) -> ClassView {
        ClassView {
            kept: self.kept@,
            closed_refs: self.closed_refs@,
            closed_files: self.closed_files@,
            dropped: texts(self.dropped_paths@),
        }
    }
}

impl Classification {
    /// The entries still to be seen.
    pub closed spec fn pending(&self) -> Seq<RootManifestEntry> {
        self.pending@
    }

    /// What the classification comes to, `load` giving the entries of a manifest.
    pub open spec fn outcome(
        &self,
        s: FoldSetting,
        fetched: RefTimesView,
        load: spec_fn(ManifestFile) -> Seq<ManifestEntry>,
    ) -> ClassView {
        classified(self@, self.pending(), s, fetched, load)
    }

    /// Starts a classification of `entries`, the paths in `dropped_paths` being dropped already.
    pub fn new(entries: Vec<RootManifestEntry>, dropped_paths: Vec<String>) -> (r: Self)
        ensures
            r.pending() == entries@,
            r@.kept == Seq::<RootManifestEntry>::empty(),
            r@.closed_refs == Seq::<ClosedRef>::empty(),
            r@.closed_files == Seq::<Arc<DataFile>>::empty(),
            r@.dropped == texts(dropped_paths@),
    {
        let ghost all = entries@;
        let mut pending: VecDeque<RootManifestEntry> = VecDeque::with_capacity(entries.len());
        for e in iter: entries
            invariant
                iter.seq() == all,
                pending@ == all.take(iter.index() as int),
        {
            proof {
                lemma_take_push(all, iter.index() as int);
            }
            pending.push_back(e);
        }
        assert(all.take(all.len() as int) =~= all);
        Classification {
            pending,
            kept: Vec::new(),
            closed_refs: Vec::new(),
            closed_files: Vec::new(),
            dropped_paths,
        }
    }

    /// The time of the next entry.
    fn next_time(&self, setting: &FoldSetting, fetched: &RefTimes) -> (r: Option<i64>)
        requires
            self.pending@.len() > 0,
        ensures
            r == entry_time(self.pending@[0], *setting, fetched@),
    {
        match &self.pending[0] {
            RootManifestEntry::ManifestRef { manifest_file, .. } => match setting.summary_time_of(
                manifest_file,
            ) {
                Some(t) => Some(t),
                None => known_time(&fetched.whole, manifest_file),
            },
            RootManifestEntry::Inline(me) => file_max_ts(&me.data_file, setting.ts_field_id),
        }
    }

    /// The time that the next entry is closed by.
    fn next_close_time(&self, setting: &FoldSetting, fetched: &RefTimes) -> (r: Option<i64>)
        requires
            self.pending@.len() > 0,
        ensures
            r == close_time(self.pending@[0], *setting, fetched@),
    {
        match &self.pending[0] {
            RootManifestEntry::ManifestRef { manifest_file, .. } => match setting.summary_time_of(
                manifest_file,
            ) {
                Some(t) => Some(t),
                None => known_time(&fetched.newest, manifest_file),
            },
            RootManifestEntry::Inline(me) => file_max_ts(&me.data_file, setting.ts_field_id),
        }
    }

    /// Sees the next entry, which goes if `goes` says so; `entries` are those of a manifest.
    fn pass_next(
        &mut self,
        setting: &FoldSetting,
        time: Option<i64>,
        goes: bool,
        entries: &[ManifestEntry],
        Ghost(fetched): Ghost<RefTimesView>,
        Ghost(load): Ghost<spec_fn(ManifestFile) -> Seq<ManifestEntry>>,
    )
        requires
            old(self).pending().len() > 0,
            time == close_time(old(self).pending()[0], *setting, fetched),
            goes == (fate(
                old(self).pending()[0],
                *setting,
                fetched,
                old(self)@.dropped.len(),
                load,
            ) == Fate::Dropped),
            old(self).pending()[0] is ManifestRef && goes ==> entries@ == load(
                old(self).pending()[0]->ManifestRef_manifest_file,
            ),
        ensures
            final(self).pending() == old(self).pending().skip(1),
            final(self)@ == classified_one(
                old(self)@,
                old(self).pending()[0],
                *setting,
                fetched,
                load,
            ),
    {
        let ghost before = *self;
        assert(before.pending@.subrange(1, before.pending@.len() as int) =~= before.pending@.skip(
            1,
        ));
        let closed: Option<i64> = match time {
            Some(t) => if t < setting.cutoff_micros {
                Some(t)
            } else {
                None
            },
            None => None,
        };
        if let Some(entry) = self.pending.pop_front() {
            match entry {
                RootManifestEntry::ManifestRef { manifest_file, mdv } => if goes {
                    push_manifest(&mut self.dropped_paths, &manifest_file, entries);
                } else {
                    match (mdv, closed) {
                        (None, Some(t)) => {
                            self.closed_refs.push(ClosedRef { manifest_file, max_ts: t });
                        },
                        (mdv, _) => {
                            self.kept.push(RootManifestEntry::ManifestRef { manifest_file, mdv });
                        },
                    }
                },
                RootManifestEntry::Inline(me) => {
                    if goes {
                        push_data_file_and_sidecar(
                            &mut self.dropped_paths,
                            me.data_file.file_path.as_str(),
                        );
                    } else if closed.is_some() {
                        self.closed_files.push(me.data_file);
                    } else {
                        self.kept.push(RootManifestEntry::Inline(me));
                    }
                },
            }
        }
    }

    /// Whether the next entry is a manifest that may be dropped.
    fn next_asks(&self, setting: &FoldSetting, fetched: &RefTimes, time: Option<i64>) -> (r: bool)
        requires
            self.pending@.len() > 0,
            time == entry_time(self.pending@[0], *setting, fetched@),
        ensures
            r == asks(self.pending@[0], *setting, fetched@, self@.dropped.len()),
    {
        match &self.pending[0] {
            RootManifestEntry::ManifestRef { mdv, .. } => mdv.is_none() && setting.may_go_now(
                time,
                self.dropped_paths.len(),
            ),
            RootManifestEntry::Inline(_) => false,
        }
    }

    /// Sees the entries up to a manifest that may go; its entries are asked for.
    pub fn advance(&mut self, setting: &FoldSetting, fetched: &RefTimes) -> (more: bool)
        ensures
            more == (final(self).pending().len() > 0),
            more ==> asks(
                final(self).pending()[0],
                *setting,
                fetched@,
                final(self)@.dropped.len(),
            ),
            is_rest(final(self).pending(), old(self).pending()),
            old(self)@.dropped.is_prefix_of(final(self)@.dropped),
            old(self)@.dropped.len() <= setting.max_ttl_drop_files ==> final(self)@.dropped.len()
                <= setting.max_ttl_drop_files,
            forall|load: spec_fn(ManifestFile) -> Seq<ManifestEntry>| #[trigger]
                final(self).outcome(*setting, fetched@, load) == old(self).outcome(
                    *setting,
                    fetched@,
                    load,
                ),
    {
        let ghost start = *self;
        let none: Vec<ManifestEntry> = Vec::new();
        assert(start.pending@.skip(0) =~= start.pending@);
        while self.pending.len() > 0
            invariant
                start == *old(self),
                is_rest(self.pending(), start.pending()),
                start@.dropped.is_prefix_of(self@.dropped),
                start@.dropped.len() <= setting.max_ttl_drop_files ==> self@.dropped.len()
                    <= setting.max_ttl_drop_files,
                forall|load: spec_fn(ManifestFile) -> Seq<ManifestEntry>| #[trigger]
                    self.outcome(*setting, fetched@, load) == start.outcome(
                        *setting,
                        fetched@,
                        load,
                    ),
            decreases self.pending@.len(),
        {
            let time = self.next_time(setting, fetched);
            if self.next_asks(setting, fetched, time) {
                return true;
            }
            let goes = match &self.pending[0] {
                RootManifestEntry::ManifestRef { .. } => false,
                RootManifestEntry::Inline(_) => setting.must_go_now(
                    time,
                    self.dropped_paths.len(),
                    2,
                ),
            };
            let close = self.next_close_time(setting, fetched);
            let ghost before = *self;
            let ghost any = |mf: ManifestFile| Seq::<ManifestEntry>::empty();
            let ghost e = before.pending()[0];
            assert forall|load: spec_fn(ManifestFile) -> Seq<ManifestEntry>| goes == (
            #[trigger] fate(e, *setting, fetched@, before@.dropped.len(), load)
                == Fate::Dropped) by {
                assert(entry_tombstones(e, load).len() >= 1);
                if e is Inline {
                    assert(entry_tombstones(e, load).len() == 2);
                }
            }
            self.pass_next(
                setting,
                close,
                goes,
                none.as_slice(),
                Ghost(fetched@),
                Ghost(any),
            );
            proof {
                let n = start.pending().len() - before.pending().len();
                assert(self.pending() =~= start.pending().skip(n + 1));
            }
            assert forall|load: spec_fn(ManifestFile) -> Seq<ManifestEntry>| #[trigger]
                self.outcome(*setting, fetched@, load) == start.outcome(
                    *setting,
                    fetched@,
                    load,
                ) by {
                assert(before.outcome(*setting, fetched@, load) == start.outcome(
                    *setting,
                    fetched@,
                    load,
                ));
                assert(goes == (fate(e, *setting, fetched@, before@.dropped.len(), load)
                    == Fate::Dropped));
                assert(goes == (fate(e, *setting, fetched@, before@.dropped.len(), any)
                    == Fate::Dropped));
                assert(self@ == classified_one(before@, e, *setting, fetched@, load));
            }
        }
        false
    }

    /// The manifest whose entries are asked for.
    pub fn next_manifest(&self) -> (r: Option<&ManifestFile>)
        ensures
            match r {
                Some(mf) => self.pending().len() > 0 && self.pending()[0] is ManifestRef && *mf
                    == self.pending()[0]->ManifestRef_manifest_file,
                None => self.pending().len() == 0 || self.pending()[0] is Inline,
            },
    {
        if self.pending.len() == 0 {
            return None;
        }
        match &self.pending[0] {
            RootManifestEntry::ManifestRef { manifest_file, .. } => Some(manifest_file),
            RootManifestEntry::Inline(_) => None,
        }
    }

    /// Takes in the entries of the next manifest: it goes, if there is room for all of its paths, and
    /// else it stays or moves as if it were not past retention.
    pub fn take_next(&mut self, setting: &FoldSetting, fetched: &RefTimes, entries: &[ManifestEntry])
        requires
            old(self).pending().len() > 0,
            asks(old(self).pending()[0], *setting, fetched@, old(self)@.dropped.len()),
        ensures
            final(self).pending() == old(self).pending().skip(1),
            forall|load: spec_fn(ManifestFile) -> Seq<ManifestEntry>|
                load(old(self).pending()[0]->ManifestRef_manifest_file) == entries@
                    ==> final(self)@ == #[trigger] classified_one(
                    old(self)@,
                    old(self).pending()[0],
                    *setting,
                    fetched@,
                    load,
                ),
            forall|load: spec_fn(ManifestFile) -> Seq<ManifestEntry>|
                load(old(self).pending()[0]->ManifestRef_manifest_file) == entries@
                    ==> #[trigger] final(self).outcome(*setting, fetched@, load) == old(
                    self,
                ).outcome(*setting, fetched@, load),
    {
        let ghost before = *self;
        let ghost e = before.pending()[0];
        let ghost same = |mf: ManifestFile| entries@;
        let time = self.next_time(setting, fetched);
        let paths: u128 = count_manifest_paths(entries);
        let goes = setting.must_go_now(time, self.dropped_paths.len(), paths);
        let close = self.next_close_time(setting, fetched);
        self.pass_next(setting, close, goes, entries, Ghost(fetched@), Ghost(same));
        assert forall|load: spec_fn(ManifestFile) -> Seq<ManifestEntry>|
            load(e->ManifestRef_manifest_file) == entries@ implies self@
            == #[trigger] classified_one(before@, e, *setting, fetched@, load) by {
            assert(entry_tombstones(e, load) == entry_tombstones(e, same));
        }
        assert forall|load: spec_fn(ManifestFile) -> Seq<ManifestEntry>|
            load(e->ManifestRef_manifest_file) == entries@ implies #[trigger] self.outcome(
            *setting,
            fetched@,
            load,
        ) == before.outcome(*setting, fetched@, load) by {
            assert(self@ == classified_one(before@, e, *setting, fetched@, load));
        }
    }

    /// The entries by what becomes of them, once none is left to be seen.
    pub fn finish(self) -> (r: Classified)
        requires
            self.pending().len() == 0,
        ensures
            r@ == self@,
            forall|
                s: FoldSetting,
                fetched: RefTimesView,
                load: spec_fn(ManifestFile) -> Seq<ManifestEntry>,
            | r@ == #[trigger] self.outcome(s, fetched, load),
    {
        Classified {
            kept: self.kept,
            closed_refs: self.closed_refs,
            closed_files: self.closed_files,
            dropped_paths: self.dropped_paths,
        }
    }
}

/// An entry of a root stays, moves or goes by its times: without one, or with a delete vector, it
/// stays; what moves is older than the cutoff, and what goes is past retention.
pub proof fn law_fate_goes_by_time(
    e: RootManifestEntry,
    s: FoldSetting,
    fetched: RefTimesView,
    dropped: nat,
    load: spec_fn(ManifestFile) -> Seq<ManifestEntry>,
)
    ensures
        entry_time(e, s, fetched) is None && close_time(e, s, fetched) is None ==> fate(
            e,
            s,
            fetched,
            dropped,
            load,
        ) == Fate::Kept,
        has_mdv(e) ==> fate(e, s, fetched, dropped, load) == Fate::Kept,
        fate(e, s, fetched, dropped, load) == Fate::Closed ==> s.closed(close_time(e, s, fetched)),
        fate(e, s, fetched, dropped, load) == Fate::Dropped ==> s.expired(
            entry_time(e, s, fetched),
        ) && dropped + entry_tombstones(e, load).len() <= s.max_ttl_drop_files,
        s.retention_cutoff_micros is None ==> fate(e, s, fetched, dropped, load) != Fate::Dropped,
{
}

/// Without a retention nothing is lost: every entry of the root stays or moves, and no path is
/// dropped.
pub proof fn law_classification_loses_nothing(
    v: ClassView,
    pending: Seq<RootManifestEntry>,
    s: FoldSetting,
    fetched: RefTimesView,
    load: spec_fn(ManifestFile) -> Seq<ManifestEntry>,
)
    requires
        s.retention_cutoff_micros is None,
    ensures
        ({
            let after = classified(v, pending, s, fetched, load);
            &&& after.dropped == v.dropped
            &&& after.kept.len() + after.closed_refs.len() + after.closed_files.len()
                == v.kept.len() + v.closed_refs.len() + v.closed_files.len() + pending.len()
        }),
    decreases pending.len(),
{
    if pending.len() > 0 {
        law_fate_goes_by_time(pending[0], s, fetched, v.dropped.len(), load);
        law_classification_loses_nothing(
            classified_one(v, pending[0], s, fetched, load),
            pending.skip(1),
            s,
            fetched,
            load,
        );
    }
}

/// A classification drops no more paths than are allowed at once.
pub proof fn law_dropped_paths_are_bounded(
    v: ClassView,
    pending: Seq<RootManifestEntry>,
    s: FoldSetting,
    fetched: RefTimesView,
    load: spec_fn(ManifestFile) -> Seq<ManifestEntry>,
)
    requires
        v.dropped.len() <= s.max_ttl_drop_files,
    ensures
        classified(v, pending, s, fetched, load).dropped.len() <= s.max_ttl_drop_files,
    decreases pending.len(),
{
    if pending.len() > 0 {
        law_dropped_paths_are_bounded(
            classified_one(v, pending[0], s, fetched, load),
            pending.skip(1),
            s,
            fetched,
            load,
        );
    }
}

/// Whether what became of the entry `e` shows in `after`: it is kept, its manifest or file is among
/// what is closed, or its paths are among those that go.
pub open spec fn accounted_for(
    e: RootManifestEntry,
    after: ClassView,
    s: FoldSetting,
    fetched: RefTimesView,
) -> bool {
    ||| after.kept.contains(e)
    ||| match e {
        RootManifestEntry::ManifestRef { manifest_file, .. } => {
            ||| !has_mdv(e) && exists|i: int|
                0 <= i < after.closed_refs.len() && (#[trigger] after.closed_refs[i]).manifest_file
                    == manifest_file
            ||| s.expired(entry_time(e, s, fetched)) && after.dropped.contains(
                manifest_file.manifest_path@,
            )
        },
        RootManifestEntry::Inline(me) => {
            ||| after.closed_files.contains(me.data_file)
            ||| s.expired(entry_time(e, s, fetched)) && after.dropped.contains(
                me.data_file.file_path@,
            )
        },
    }
}

proof fn lemma_classified_grows(
    v: ClassView,
    pending: Seq<RootManifestEntry>,
    s: FoldSetting,
    fetched: RefTimesView,
    load: spec_fn(ManifestFile) -> Seq<ManifestEntry>,
)
    ensures
        ({
            let after = classified(v, pending, s, fetched, load);
            &&& v.kept.is_prefix_of(after.kept)
            &&& v.closed_refs.is_prefix_of(after.closed_refs)
            &&& v.closed_files.is_prefix_of(after.closed_files)
            &&& v.dropped.is_prefix_of(after.dropped)
        }),
    decreases pending.len(),
{
    if pending.len() > 0 {
        let next = classified_one(v, pending[0], s, fetched, load);
        lemma_classified_grows(next, pending.skip(1), s, fetched, load);
    }
}

/// Every entry of a root is accounted for by its classification.
pub proof fn law_every_entry_is_accounted_for(
    v: ClassView,
    pending: Seq<RootManifestEntry>,
    s: FoldSetting,
    fetched: RefTimesView,
    load: spec_fn(ManifestFile) -> Seq<ManifestEntry>,
    i: int,
)
    requires
        0 <= i < pending.len(),
    ensures
        accounted_for(pending[i], classified(v, pending, s, fetched, load), s, fetched),
    decreases pending.len(),
{
    let e = pending[0];
    let next = classified_one(v, e, s, fetched, load);
    let rest = pending.skip(1);
    let after = classified(next, rest, s, fetched, load);
    if i > 0 {
        law_every_entry_is_accounted_for(next, rest, s, fetched, load, i - 1);
        assert(rest[i - 1] == pending[i]);
    } else {
        lemma_classified_grows(next, rest, s, fetched, load);
        match fate(e, s, fetched, v.dropped.len(), load) {
            Fate::Kept => {
                assert(next.kept[v.kept.len() as int] == e);
                assert(after.kept[v.kept.len() as int] == e);
            },
            Fate::Closed => match e {
                RootManifestEntry::ManifestRef { manifest_file, .. } => {
                    let k = v.closed_refs.len() as int;
                    assert(next.closed_refs[k].manifest_file == manifest_file);
                    assert(after.closed_refs[k] == next.closed_refs[k]);
                },
                RootManifestEntry::Inline(me) => {
                    let k = v.closed_files.len() as int;
                    assert(next.closed_files[k] == me.data_file);
                    assert(after.closed_files[k] == next.closed_files[k]);
                },
            },
            Fate::Dropped => {
                let k = next.dropped.len() - 1;
                assert(after.dropped[k] == next.dropped[k]);
                match e {
                    RootManifestEntry::ManifestRef { manifest_file, .. } => {
                        assert(next.dropped[k] == manifest_file.manifest_path@);
                    },
                    RootManifestEntry::Inline(me) => {
                        assert(next.dropped[k] == me.data_file.file_path@);
                    },
                }
            },
        }
    }
}

/// Retention and closing go by time alone, and a time at the cutoff is not past it: what has no
/// time is neither dropped nor closed, and without a retention nothing is dropped.
pub proof fn law_cutoffs_leave_what_is_at_them(s: FoldSetting, t: i64, dropped: nat, paths: nat)
    ensures
        !s.expired(None) && !s.closed(None),
        s.closed(Some(t)) <==> t < s.cutoff_micros,
        s.retention_cutoff_micros is None ==> !s.expired(Some(t)),
        s.retention_cutoff_micros is Some ==> (s.expired(Some(t)) <==> t
            < s.retention_cutoff_micros->0),
        s.may_go(Some(t), dropped) <==> s.expired(Some(t)) && dropped + 1 <= s.max_ttl_drop_files,
        s.must_go(Some(t), dropped, paths) <==> s.expired(Some(t)) && dropped + paths
            <= s.max_ttl_drop_files,
        s.goes_in_part(Some(t), dropped, paths) <==> s.expired(Some(t)) && paths
            > s.max_ttl_drop_files && dropped + 2 <= s.max_ttl_drop_files,
        !s.may_go(None, dropped) && !s.must_go(None, dropped, paths) && !s.goes_in_part(
            None,
            dropped,
            paths,
        ),
{
}

/// A leaf that goes in part takes up the room there is and no more: at least one file goes, the
/// paths of what goes fit, and one file more would not.
pub proof fn law_part_fills_the_room(s: FoldSetting, dropped: nat)
    requires
        dropped + 2 <= s.max_ttl_drop_files,
    ensures
        s.part_size(dropped) >= 1,
        s.names_leaf(dropped) <==> dropped + 3 <= s.max_ttl_drop_files,
        s.names_leaf(dropped) ==> dropped + 2 * s.part_size(dropped) + 1 <= s.max_ttl_drop_files
            && dropped + 2 * (s.part_size(dropped) + 1) + 1 > s.max_ttl_drop_files,
        !s.names_leaf(dropped) ==> dropped + 2 * s.part_size(dropped) == s.max_ttl_drop_files,
{
}

/// A part splits a leaf: the paths of a leaf are those that go with its first files, and behind
/// them those that would go with what is left.
pub proof fn law_part_splits_the_leaf(entries: Seq<ManifestEntry>, n: nat)
    ensures
        tombstones(entries) == first_tombstones(entries, n) + tombstones(left_behind(entries, n)),
        first_tombstones(entries, 0).len() == 0,
        live_count(entries) <= n ==> left_behind(entries, n).len() == 0,
        live_count(entries) >= n ==> left_behind(entries, n).len() == live_count(entries) - n,
    decreases entries.len(),
{
    lemma_part_sizes(entries, n);
    lemma_part_sizes(entries, 0);
    if entries.len() == 0 {
        assert(tombstones(entries) =~= first_tombstones(entries, n) + tombstones(
            left_behind(entries, n),
        ));
    } else {
        let head = entries.drop_last();
        law_part_splits_the_leaf(head, n);
        lemma_part_sizes(head, n);
        let left = left_behind(entries, n);
        if entries.last().alive() {
            if live_count(head) >= n {
                assert(left.drop_last() =~= left_behind(head, n));
                assert(left.last() == carried(entries.last().data_file));
                assert(tombstones(entries) =~= first_tombstones(entries, n) + tombstones(left));
            } else {
                assert(left.len() == 0);
                assert(tombstones(left) =~= Seq::<Seq<char>>::empty());
                assert(left_behind(head, n).len() == 0);
                assert(tombstones(left_behind(head, n)) =~= Seq::<Seq<char>>::empty());
                assert(tombstones(entries) =~= first_tombstones(entries, n) + tombstones(left));
            }
        }
    }
}

/// What is left of a leaf are live entries of its last live files.
pub proof fn law_what_is_left_was_live(entries: Seq<ManifestEntry>, n: nat, k: int)
    requires
        0 <= k < left_behind(entries, n).len(),
    ensures
        left_behind(entries, n)[k].status is Existing,
        exists|i: int|
            0 <= i < entries.len() && ((#[trigger] entries[i]).status is Existing
                || entries[i].status is Added) && entries[i].data_file == left_behind(
                entries,
                n,
            )[k].data_file && live_count(entries.take(i)) == n + k,
    decreases entries.len(),
{
    let head = entries.drop_last();
    let rest = left_behind(head, n);
    lemma_part_sizes(head, n);
    if k < rest.len() {
        law_what_is_left_was_live(head, n, k);
        let i = choose|i: int|
            0 <= i < head.len() && ((#[trigger] head[i]).status is Existing || head[i].status
                is Added) && head[i].data_file == rest[k].data_file && live_count(head.take(i))
                == n + k;
        assert(entries[i] == head[i]);
        assert(entries.take(i) =~= head.take(i));
    } else {
        let i = entries.len() - 1;
        assert(entries[i] == entries.last());
        assert(entries.take(i) =~= head);
    }
}

/// A manifest that goes takes with it the paths of its live files, their sidecars, and its own
/// path, and no other.
pub proof fn law_manifest_goes_with_its_live_files(
    mf: ManifestFile,
    entries: Seq<ManifestEntry>,
    path: Seq<char>,
)
    ensures
        tombstones(entries).contains(path) <==> exists|i: int|
            0 <= i < entries.len() && ((#[trigger] entries[i]).status is Existing
                || entries[i].status is Added) && (path == entries[i].data_file.file_path@ || path
                == entries[i].data_file.file_path@ + ".stats"@),
        manifest_tombstones(mf, entries).contains(path) <==> path == mf.manifest_path@
            || tombstones(entries).contains(path),
        manifest_tombstones(mf, entries).len() == 2 * live_count(entries) + 1,
    decreases entries.len(),
{
    lemma_part_sizes(entries, 0);
    let all = manifest_tombstones(mf, entries);
    assert(all[all.len() - 1] == mf.manifest_path@);
    if tombstones(entries).contains(path) {
        let k = choose|k: int| 0 <= k < tombstones(entries).len() && tombstones(entries)[k] == path;
        assert(all[k] == path);
    }
    if entries.len() > 0 {
        let head = entries.drop_last();
        let before = tombstones(head);
        let after = tombstones(entries);
        let own = file_tombstones(entries.last().data_file.file_path@);
        law_manifest_goes_with_its_live_files(mf, head, path);
        assert(entries[entries.len() - 1] == entries.last());
        if before.contains(path) {
            let k = choose|k: int| 0 <= k < before.len() && before[k] == path;
            assert(after[k] == path);
            let i = choose|i: int|
                0 <= i < head.len() && ((#[trigger] head[i]).status is Existing || head[i].status
                    is Added) && (path == head[i].data_file.file_path@ || path
                    == head[i].data_file.file_path@ + ".stats"@);
            assert(entries[i] == head[i]);
        } else {
            if after.contains(path) {
                let k = choose|k: int| 0 <= k < after.len() && after[k] == path;
                if k < before.len() {
                    assert(before[k] == path);
                } else {
                    assert(own[k - before.len()] == path);
                }
            }
            if exists|i: int|
                0 <= i < entries.len() && ((#[trigger] entries[i]).status is Existing
                    || entries[i].status is Added) && (path == entries[i].data_file.file_path@
                    || path == entries[i].data_file.file_path@ + ".stats"@) {
                let i = choose|i: int|
                    0 <= i < entries.len() && ((#[trigger] entries[i]).status is Existing
                        || entries[i].status is Added) && (path == entries[i].data_file.file_path@
                        || path == entries[i].data_file.file_path@ + ".stats"@);
                if i < head.len() {
                    assert(head[i] == entries[i]);
                } else {
                    assert(after[before.len() as int] == own[0]);
                    assert(after[before.len() as int + 1] == own[1]);
                }
            }
        }
    }
}

/// A live file counts once.
pub proof fn law_live_files_are_counted(entries: Seq<ManifestEntry>, e: ManifestEntry)
    ensures
        live_count(Seq::empty()) == 0,
        live_count(entries.push(e)) == live_count(entries) + (if e.status is Existing || e.status
            is Added {
            1int
        } else {
            0
        }),
{
    assert(entries.push(e).drop_last() =~= entries);
}

/// A cold leaf's time is the stored one, else the one that its summary gives, else the one that was
/// read; a leaf is read just where neither of the first two is there.
pub proof fn law_leaf_is_read_last(
    leaf: ManifestFile,
    s: FoldSetting,
    stored: Map<Seq<char>, Option<i64>>,
    fetched: Map<Seq<char>, Option<i64>>,
)
    ensures
        ({
            let p = leaf.manifest_path@;
            let by_summary = ref_max_ts(leaf, *s.spec, s.ts_field_id);
            let time = leaf_time(leaf, s, stored, fetched);
            let in_store = stored.contains_key(p) && stored[p] is Some;
            &&& in_store ==> time == stored[p]
            &&& !in_store && by_summary is Some ==> time == by_summary
            &&& !in_store && by_summary is None && fetched.contains_key(p) ==> time == fetched[p]
            &&& !in_store && by_summary is None && !fetched.contains_key(p) ==> time is None
            &&& unresolved(leaf, s, stored) <==> !in_store && by_summary is None
        }),
{
}

/// Leaves are read where nothing else gives their time: the places of those leaves, from left to
/// right and each once.
pub proof fn law_unresolved_leaves_are_all_named(
    leaves: Seq<ManifestFile>,
    s: FoldSetting,
    stored: Map<Seq<char>, Option<i64>>,
    n: nat,
)
    requires
        n <= leaves.len(),
        leaves.len() <= usize::MAX,
    ensures
        ({
            let places = unresolved_places(leaves, s, stored, n);
            &&& forall|k: int| 0 <= k < places.len() ==> 0 <= #[trigger] places[k] < n
            &&& forall|j: int, k: int|
                0 <= j < k < places.len() ==> #[trigger] places[j] < #[trigger] places[k]
            &&& forall|i: int|
                0 <= i < n ==> (unresolved(#[trigger] leaves[i], s, stored) <==> places.contains(
                    i as usize,
                ))
        }),
    decreases n,
{
    if n > 0 {
        law_unresolved_leaves_are_all_named(leaves, s, stored, (n - 1) as nat);
        let before = unresolved_places(leaves, s, stored, (n - 1) as nat);
        let places = unresolved_places(leaves, s, stored, n);
        assert forall|i: int| 0 <= i < n implies (unresolved(#[trigger] leaves[i], s, stored)
            <==> places.contains(i as usize)) by {
            if before.contains(i as usize) {
                let k = choose|k: int| 0 <= k < before.len() && before[k] == i as usize;
                assert(places[k] == i as usize);
            }
            if places.contains(i as usize) {
                let k = choose|k: int| 0 <= k < places.len() && places[k] == i as usize;
                if k < before.len() {
                    assert(before[k] == i as usize);
                }
            }
            if i == n - 1 && unresolved(leaves[i], s, stored) {
                assert(places[before.len() as int] == i as usize);
            }
        }
    }
}

/// No more than 256 leaves are read for their times, and where there are more that need it, no leaf
/// is read ahead of one that was written earlier.
pub proof fn law_oldest_leaves_are_read_first(
    places: Seq<usize>,
    leaves: Seq<ManifestFile>,
    s: FoldSetting,
    stored: Map<Seq<char>, Option<i64>>,
    k: int,
    i: int,
)
    requires
        is_prefetch(places, leaves, s, stored),
        leaves.len() <= usize::MAX,
        0 <= k < places.len(),
        0 <= i < leaves.len(),
    ensures
        places.len() <= 256,
        places[k] < leaves.len(),
        unresolved(leaves[places[k] as int], s, stored),
        unresolved(leaves[i], s, stored) && !places.contains(i as usize) ==> places.len() == 256
            && leaves[places[k] as int].sequence_number <= leaves[i].sequence_number,
{
    let needed = unresolved_places(leaves, s, stored, leaves.len());
    law_unresolved_leaves_are_all_named(leaves, s, stored, leaves.len());
    if needed.len() <= MAX_TTL_PREFETCH_LEAVES {
        assert(needed.contains(places[k]));
        assert(unresolved(leaves[places[k] as int], s, stored));
    } else {
        let keys = sequence_numbers(leaves, needed);
        let sorted = choose|sorted: Seq<usize>| #[trigger]
            is_stable_sort(needed, keys, sorted) && places == sorted.take(
                MAX_TTL_PREFETCH_LEAVES as int,
            );
        let order = law_stable_sort_is_by_key(needed, keys, sorted);
        assert(places[k] == sorted[k]);
        assert(sorted[k] == needed[order[k] as int]);
        assert(needed.contains(places[k]));
        assert(unresolved(leaves[places[k] as int], s, stored));
        if unresolved(leaves[i], s, stored) && !places.contains(i as usize) {
            assert(needed.contains(i as usize));
            let m = choose|m: int| 0 <= m < needed.len() && needed[m] == i as usize;
            assert(needed.len() <= usize::MAX) by {
                crate::cluster::lemma_distinct_below(
                    needed.map_values(|p: usize| p as int),
                    leaves.len(),
                );
            }
            assert(order.contains(m as usize));
            let j = choose|j: int| 0 <= j < order.len() && order[j] == m as usize;
            assert(sorted[j] == i as usize);
            if j < MAX_TTL_PREFETCH_LEAVES {
                assert(places[j] == i as usize);
                assert(places.contains(i as usize));
            }
            assert(keys[order[k] as int] <= keys[order[j] as int]);
        }
    }
}

/// What is dropped or closed goes by time: an entry with deleted places stays; an entry past
/// retention goes where its paths fit; of the rest, one that is older than the cutoff is closed,
/// and all others stay. A manifest's time is the one of its summary, or the one that was read of
/// the whole manifest; an inline entry's is its file's.
pub proof fn law_fate_is_decided_by_time_and_room(
    e: RootManifestEntry,
    s: FoldSetting,
    fetched: RefTimesView,
    dropped: nat,
    load: spec_fn(ManifestFile) -> Seq<ManifestEntry>,
)
    ensures
        ({
            let time = entry_time(e, s, fetched);
            let closing = close_time(e, s, fetched);
            let marked = e is ManifestRef && e->ManifestRef_mdv is Some;
            let goes = !marked && time is Some && s.retention_cutoff_micros is Some && time->0
                < s.retention_cutoff_micros->0 && dropped + entry_tombstones(e, load).len()
                <= s.max_ttl_drop_files;
            let r = fate(e, s, fetched, dropped, load);
            &&& r is Dropped <==> goes
            &&& r is Closed <==> !marked && !goes && closing is Some && closing->0
                < s.cutoff_micros
            &&& r is Kept <==> marked || (!goes && (closing is None || closing->0
                >= s.cutoff_micros))
            &&& asks(e, s, fetched, dropped) <==> e is ManifestRef && !marked && time is Some
                && s.retention_cutoff_micros is Some && time->0 < s.retention_cutoff_micros->0
                && dropped < s.max_ttl_drop_files
        }),
        e matches RootManifestEntry::ManifestRef { manifest_file, .. } ==> {
            let p = manifest_file.manifest_path@;
            let by_summary = ref_max_ts(manifest_file, *s.spec, s.ts_field_id);
            &&& by_summary is Some ==> entry_time(e, s, fetched) == by_summary && close_time(
                e,
                s,
                fetched,
            ) == by_summary
            &&& by_summary is None && fetched.whole.contains_key(p) ==> entry_time(e, s, fetched)
                == fetched.whole[p]
            &&& by_summary is None && !fetched.whole.contains_key(p) ==> entry_time(e, s, fetched)
                is None
            &&& by_summary is None && fetched.newest.contains_key(p) ==> close_time(e, s, fetched)
                == fetched.newest[p]
            &&& by_summary is None && !fetched.newest.contains_key(p) ==> close_time(e, s, fetched)
                is None
            &&& entry_tombstones(e, load).last() == p
        },
        e matches RootManifestEntry::Inline(me) ==> entry_time(e, s, fetched) == file_max_ts_spec(
            *me.data_file,
            s.ts_field_id,
        ) && close_time(e, s, fetched) == file_max_ts_spec(*me.data_file, s.ts_field_id)
            && entry_tombstones(e, load).len() == 2,
{
}

/// Each entry goes one way: it is kept as it is, or its manifest or file joins what is closed, or
/// its paths join what is dropped; what went before stands.
pub proof fn law_each_entry_goes_one_way(
    v: ClassView,
    e: RootManifestEntry,
    s: FoldSetting,
    fetched: RefTimesView,
    load: spec_fn(ManifestFile) -> Seq<ManifestEntry>,
)
    ensures
        ({
            let after = classified_one(v, e, s, fetched, load);
            let r = fate(e, s, fetched, v.dropped.len(), load);
            &&& r is Kept ==> after.kept == v.kept.push(e)
            &&& r !is Kept ==> after.kept == v.kept
            &&& r is Dropped ==> after.dropped == v.dropped + entry_tombstones(e, load)
            &&& r !is Dropped ==> after.dropped == v.dropped
            &&& r is Closed && e is ManifestRef ==> after.closed_refs.len() == v.closed_refs.len() + 1
                && after.closed_refs.drop_last() == v.closed_refs
                && after.closed_refs.last().manifest_file == e->ManifestRef_manifest_file
                && after.closed_refs.last().max_ts < s.cutoff_micros && Some(
                after.closed_refs.last().max_ts,
            ) == close_time(e, s, fetched)
            &&& !(r is Closed && e is ManifestRef) ==> after.closed_refs == v.closed_refs
            &&& r is Closed && e is Inline ==> after.closed_files == v.closed_files.push(
                e->Inline_0.data_file,
            )
            &&& !(r is Closed && e is Inline) ==> after.closed_files == v.closed_files
        }),
{
    let after = classified_one(v, e, s, fetched, load);
    if e is ManifestRef && fate(e, s, fetched, v.dropped.len(), load) is Closed {
        assert(after.closed_refs.drop_last() =~= v.closed_refs);
    }
}

/// Leaves stand by rising time, and those without one stand behind all others.
pub proof fn law_untimed_leaves_stand_last(leaves: Seq<TimedLeaf>, i: int)
    requires
        0 <= i < leaves.len(),
    ensures
        leaves[i].max_ts is Some ==> time_keys(leaves)[i] == leaves[i].max_ts->0,
        leaves[i].max_ts is None ==> time_keys(leaves)[i] == i64::MAX,
{
}

/// An expired leaf goes whole where its paths fit, in part where it could never go whole and there
/// is room for a file, and stays otherwise; a leaf that has not expired stays.
pub proof fn law_leaf_goes_whole_in_part_or_stays(
    v: PruneView,
    next: TimedLeaf,
    s: FoldSetting,
    entries: Seq<ManifestEntry>,
)
    ensures
        ({
            let after = pruned_one(v, next, s, entries);
            let old = next.max_ts is Some && s.retention_cutoff_micros is Some && next.max_ts->0
                < s.retention_cutoff_micros->0;
            let paths = manifest_tombstones(next.leaf, entries);
            let room = s.max_ttl_drop_files - v.dropped.len();
            let whole = old && paths.len() <= room;
            let part = old && !whole && paths.len() > s.max_ttl_drop_files && room >= 2;
            &&& whole ==> after.dropped == v.dropped + paths && after.surviving == v.surviving
                && after.rests == v.rests
            &&& part ==> {
                &&& after.surviving == v.surviving
                &&& after.rests.len() == v.rests.len() + 1
                &&& after.rests.last().leaf == next.leaf
                &&& v.dropped.is_prefix_of(after.dropped)
                &&& after.dropped.len() <= s.max_ttl_drop_files
                &&& after.dropped.len() > v.dropped.len()
                &&& tombstones(entries) == first_tombstones(entries, s.part_size(v.dropped.len()))
                    + tombstones(after.rests.last().entries)
            }
            &&& !whole && !part ==> after.surviving == v.surviving.push(next.leaf) && after.dropped
                == v.dropped && after.rests == v.rests
        }),
{
    let after = pruned_one(v, next, s, entries);
    let done = v.dropped.len();
    let paths = manifest_tombstones(next.leaf, entries);
    lemma_part_sizes(entries, 0);
    assert(paths.len() == 2 * live_count(entries) + 1);
    if s.goes_in_part(next.max_ts, done, paths.len()) && !s.must_go(next.max_ts, done, paths.len()) {
        let n = s.part_size(done);
        law_part_splits_the_leaf(entries, n);
        lemma_part_sizes(entries, n);
        law_part_fills_the_room(s, done);
        assert(v.dropped =~= after.dropped.take(v.dropped.len() as int));
    }
}

/// A reference is read for its time just where it has no delete vector and its summary gives none:
/// the places of those references, from left to right and each once.
pub proof fn law_undated_references_are_all_named(
    entries: Seq<RootManifestEntry>,
    s: FoldSetting,
    n: nat,
)
    requires
        n <= entries.len(),
        entries.len() <= usize::MAX,
    ensures
        ({
            let places = unresolved_refs(entries, s, n);
            &&& forall|k: int| 0 <= k < places.len() ==> 0 <= #[trigger] places[k] < n
            &&& forall|j: int, k: int|
                0 <= j < k < places.len() ==> #[trigger] places[j] < #[trigger] places[k]
            &&& forall|i: int|
                0 <= i < n ==> (places.contains(i as usize) <==> (#[trigger] entries[i])
                    is ManifestRef && entries[i]->ManifestRef_mdv is None && ref_max_ts(
                    entries[i]->ManifestRef_manifest_file,
                    *s.spec,
                    s.ts_field_id,
                ) is None)
        }),
    decreases n,
{
    if n > 0 {
        law_undated_references_are_all_named(entries, s, (n - 1) as nat);
        let before = unresolved_refs(entries, s, (n - 1) as nat);
        let places = unresolved_refs(entries, s, n);
        assert forall|i: int| 0 <= i < n implies (places.contains(i as usize) <==> (
        #[trigger] entries[i]) is ManifestRef && entries[i]->ManifestRef_mdv is None && ref_max_ts(
            entries[i]->ManifestRef_manifest_file,
            *s.spec,
            s.ts_field_id,
        ) is None) by {
            if before.contains(i as usize) {
                let k = choose|k: int| 0 <= k < before.len() && before[k] == i as usize;
                assert(places[k] == i as usize);
            }
            if places.contains(i as usize) {
                let k = choose|k: int| 0 <= k < places.len() && places[k] == i as usize;
                if k < before.len() {
                    assert(before[k] == i as usize);
                }
            }
            if i == n - 1 && ref_unresolved(entries[i], s) {
                assert(places[before.len() as int] == i as usize);
            }
        }
    }
}

/// The paths of a part are those of its files, and behind them the leaf's own where it is named.
pub proof fn law_part_names_the_leaf_last(
    mf: ManifestFile,
    entries: Seq<ManifestEntry>,
    n: nat,
)
    ensures
        part_tombstones(mf, entries, n, false) == first_tombstones(entries, n),
        part_tombstones(mf, entries, n, true).drop_last() == first_tombstones(entries, n),
        part_tombstones(mf, entries, n, true).last() == mf.manifest_path@,
{
    assert(part_tombstones(mf, entries, n, true).drop_last() =~= first_tombstones(entries, n));
}

/// A timed leaf is the leaf, with the time that is known of it.
pub proof fn law_leaves_are_timed_in_order(
    leaves: Seq<ManifestFile>,
    s: FoldSetting,
    stored: Map<Seq<char>, Option<i64>>,
    fetched: Map<Seq<char>, Option<i64>>,
    i: int,
)
    requires
        0 <= i < leaves.len(),
    ensures
        timed(leaves, s, stored, fetched).len() == leaves.len(),
        timed(leaves, s, stored, fetched)[i].leaf == leaves[i],
        timed(leaves, s, stored, fetched)[i].max_ts == leaf_time(leaves[i], s, stored, fetched),
{
}

/// A fold takes the leaves and the entries one by one, from left to right, and each of them.
pub proof fn law_fold_takes_each_entry_once(
    p: PruneView,
    leaf: TimedLeaf,
    leaves: Seq<TimedLeaf>,
    v: ClassView,
    e: RootManifestEntry,
    entries: Seq<RootManifestEntry>,
    s: FoldSetting,
    fetched: RefTimesView,
    load: spec_fn(ManifestFile) -> Seq<ManifestEntry>,
)
    ensures
        pruned(p, Seq::empty(), s, load) == p,
        pruned(p, seq![leaf] + leaves, s, load) == pruned(
            pruned_one(p, leaf, s, load(leaf.leaf)),
            leaves,
            s,
            load,
        ),
        classified(v, Seq::empty(), s, fetched, load) == v,
        classified(v, seq![e] + entries, s, fetched, load) == classified(
            classified_one(v, e, s, fetched, load),
            entries,
            s,
            fetched,
            load,
        ),
{
    assert((seq![leaf] + leaves).skip(1) =~= leaves);
    assert((seq![e] + entries).skip(1) =~= entries);
}

} // verus!
