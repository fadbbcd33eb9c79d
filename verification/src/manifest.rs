//! Data files, manifests, and the root that lists them.

use std::collections::HashMap;
use std::sync::Arc;

use vstd::prelude::*;

use crate::partition::{bytes_view, PrimitiveLiteral, Struct};
use crate::partition::{transform_upper_micros, upper_micros, PartitionSpec};
use crate::path_set::PathSet;
use crate::seqs::lemma_take_push;
use crate::text::same_bytes;

verus! {

broadcast use vstd::std_specs::hash::group_hash_axioms;

/// What the files of a manifest hold.
#[derive(Clone, Copy, Debug, PartialEq, Eq, Structural)]
pub enum ManifestContentType {
    Data,
    Deletes,
}

/// What a file holds.
#[derive(Clone, Copy, Debug, PartialEq, Eq, Structural)]
pub enum DataContentType {
    Data,
    PositionDeletes,
    EqualityDeletes,
}

/// The state of a manifest's entry.
#[derive(Clone, Copy, Debug, PartialEq, Eq, Structural)]
pub enum ManifestStatus {
    Existing,
    Added,
    Deleted,
}

/// The version of the table format.
#[derive(Clone, Copy, Debug, PartialEq, Eq, Structural)]
pub enum FormatVersion {
    V1,
    V2,
    V3,
    V4,
}

/// The values that one partition field takes over a manifest's files.
#[derive(Clone, Debug, PartialEq, Eq)]
pub struct FieldSummary {
    pub contains_null: bool,
    pub contains_nan: Option<bool>,
    pub lower_bound: Option<Vec<u8>>,
    pub upper_bound: Option<Vec<u8>>,
}

/// A reference to a manifest, with what is known of it without reading it.
#[derive(Clone, Debug, PartialEq, Eq)]
pub struct ManifestFile {
    pub manifest_path: String,
    pub manifest_length: i64,
    pub partition_spec_id: i32,
    pub content: ManifestContentType,
    pub sequence_number: i64,
    pub min_sequence_number: i64,
    pub added_snapshot_id: i64,
    pub added_files_count: Option<u32>,
    pub existing_files_count: Option<u32>,
    pub deleted_files_count: Option<u32>,
    pub added_rows_count: Option<u64>,
    pub existing_rows_count: Option<u64>,
    pub deleted_rows_count: Option<u64>,
    pub partitions: Option<Vec<FieldSummary>>,
    pub key_metadata: Option<Vec<u8>>,
    pub first_row_id: Option<u64>,
}

/// A data or delete file.
#[derive(Clone, Debug, PartialEq, Eq)]
pub struct DataFile {
    pub content: DataContentType,
    pub file_path: String,
    pub partition: Struct,
    pub partition_spec_id: i32,
    pub record_count: u64,
    pub file_size_in_bytes: u64,
    /// By field id, a value that no row of the file exceeds.
    pub upper_bounds: HashMap<i32, PrimitiveLiteral>,
    /// The ids of the fields by which an equality delete file deletes.
    pub equality_ids: Option<Vec<i32>>,
}

/// A manifest's entry for a file.
#[derive(Debug, PartialEq, Eq)]
pub struct ManifestEntry {
    pub status: ManifestStatus,
    pub snapshot_id: Option<i64>,
    pub sequence_number: Option<i64>,
    pub file_sequence_number: Option<i64>,
    pub data_file: Arc<DataFile>,
}

impl Clone for ManifestEntry {
    fn clone(&self) -> (r: Self)
        ensures
            r == *self,
    {
        ManifestEntry {
            status: self.status,
            snapshot_id: self.snapshot_id,
            sequence_number: self.sequence_number,
            file_sequence_number: self.file_sequence_number,
            data_file: self.data_file.clone(),
        }
    }
}

/// The places in a manifest that are deleted without rewriting it.
#[derive(Clone, Debug, PartialEq, Eq)]
pub struct ManifestDeleteVector {
    positions: HashMap<u32, ()>,
}

/// The delete vector stored beside a manifest reference: its bytes, and what they decode to, where
/// they do.
#[derive(Clone, Debug, PartialEq, Eq)]
pub struct Mdv {
    pub bytes: Vec<u8>,
    pub vector: Option<ManifestDeleteVector>,
}

/// An entry of a root manifest.
#[derive(Clone, Debug, PartialEq, Eq)]
pub enum RootManifestEntry {
    ManifestRef { manifest_file: ManifestFile, mdv: Option<Mdv> },
    Inline(ManifestEntry),
}

/// What a root manifest says of itself.
#[derive(Clone, Debug, PartialEq, Eq)]
pub struct RootManifestMetadata {
    pub schema_id: i32,
    pub partition_spec_id: i32,
    pub format_version: FormatVersion,
    pub snapshot_id: i64,
    pub sequence_number: i64,
    pub parent_snapshot_id: Option<i64>,
    /// The index of the cold tier's leaves.
    pub bucket_index_path: Option<String>,
    /// The root that this one adds to.
    pub prev_root_path: Option<String>,
    pub chain_depth: u32,
    pub node_level: u32,
    /// Paths that the roots beneath may list and that are no longer there.
    pub removed_paths: Vec<String>,
}

impl FieldSummary {
    /// The one value that the field takes, where both bounds are there and equal.
    pub open spec fn pinned_spec(&self) -> Option<Seq<u8>> {
        match (bytes_view(self.lower_bound), bytes_view(self.upper_bound)) {
            (Some(lo), Some(hi)) => if lo == hi {
                Some(lo)
            } else {
                None
            },
            _ => None,
        }
    }

    /// The one value that the field takes, where both bounds are there and equal.
    pub fn pinned(&self) -> (r: Option<&Vec<u8>>)
        ensures
            match r {
                Some(v) => self.pinned_spec() == Some(v@),
                None => self.pinned_spec() is None,
            },
    {
        match (&self.lower_bound, &self.upper_bound) {
            (Some(lo), Some(hi)) => if same_bytes(lo, hi) {
                Some(lo)
            } else {
                None
            },
            _ => None,
        }
    }
}

/// Whether every field of a summary takes one value.
pub open spec fn all_pinned(summary: Seq<FieldSummary>) -> bool {
    forall|i: int| 0 <= i < summary.len() ==> (#[trigger] summary[i]).pinned_spec() is Some
}

/// The values that a summary pins its fields to.
pub open spec fn pins(summary: Seq<FieldSummary>) -> Seq<Seq<u8>> {
    summary.map_values(|f: FieldSummary| f.pinned_spec()->0)
}

impl ManifestFile {
    /// Whether the manifest may list added files: an unknown count is taken to be some.
    pub open spec fn may_have_added(&self) -> bool {
        self.added_files_count is None || self.added_files_count->0 > 0
    }

    /// Whether the manifest may list files of earlier snapshots: an unknown count is taken to be
    /// some.
    pub open spec fn may_have_existing(&self) -> bool {
        self.existing_files_count is None || self.existing_files_count->0 > 0
    }

    /// Whether the manifest may list a live file.
    pub open spec fn may_be_active(&self) -> bool {
        self.may_have_added() || self.may_have_existing()
    }

    /// Whether the manifest may list a live file.
    pub fn has_active_files(&self) -> (r: bool)
        ensures
            r == self.may_be_active(),
    {
        let added = match self.added_files_count {
            Some(n) => n > 0,
            None => true,
        };
        let existing = match self.existing_files_count {
            Some(n) => n > 0,
            None => true,
        };
        added || existing
    }

    /// How many live files the manifest counts, an unknown count being none.
    pub open spec fn live_count(&self) -> nat {
        (match self.added_files_count {
            Some(n) => n as nat,
            None => 0,
        }) + (match self.existing_files_count {
            Some(n) => n as nat,
            None => 0,
        })
    }

    /// How many live files the manifest counts, an unknown count being none.
    pub fn live_files(&self) -> (r: u64)
        ensures
            r == self.live_count(),
            r <= 2 * 0xFFFF_FFFF,
    {
        let added: u64 = match self.added_files_count {
            Some(n) => n as u64,
            None => 0,
        };
        let existing: u64 = match self.existing_files_count {
            Some(n) => n as u64,
            None => 0,
        };
        added + existing
    }

    /// The partition summary, as a sequence.
    pub open spec fn summary(&self) -> Option<Seq<FieldSummary>> {
        match self.partitions {
            Some(p) => Some(p@),
            None => None,
        }
    }
}

impl ManifestEntry {
    /// Whether the entry's file is part of the table.
    pub open spec fn alive(&self) -> bool {
        self.status != ManifestStatus::Deleted
    }

    /// Whether the entry's file is part of the table.
    pub fn is_alive(&self) -> (r: bool)
        ensures
            r == self.alive(),
    {
        self.status != ManifestStatus::Deleted
    }

    /// Whether the entry's file is part of the table and its path is not in `removed`.
    pub open spec fn kept_by(&self, removed: Set<Seq<char>>) -> bool {
        self.alive() && !removed.contains(self.data_file.file_path@)
    }

    /// Whether the entry's file is part of the table and its path is not in `removed`.
    pub fn is_alive_and_kept(&self, removed: &PathSet) -> (r: bool)
        ensures
            r == self.kept_by(removed@),
    {
        self.is_alive() && !removed.contains(self.data_file.file_path.as_str())
    }
}

/// The entry under which `file` is carried over into a rewritten manifest, without its history.
pub open spec fn carried(file: Arc<DataFile>) -> ManifestEntry {
    ManifestEntry {
        status: ManifestStatus::Existing,
        snapshot_id: None,
        sequence_number: None,
        file_sequence_number: None,
        data_file: file,
    }
}

/// The entry under which `file` is carried over into a rewritten manifest, without its history.
pub fn existing_entry(file: Arc<DataFile>) -> (r: ManifestEntry)
    ensures
        r == carried(file),
{
    ManifestEntry {
        status: ManifestStatus::Existing,
        snapshot_id: None,
        sequence_number: None,
        file_sequence_number: None,
        data_file: file,
    }
}

/// `e` with the state `Existing`, its snapshot and sequence number kept, zero where it has none.
pub open spec fn restamped(e: ManifestEntry) -> ManifestEntry {
    ManifestEntry {
        status: ManifestStatus::Existing,
        snapshot_id: Some(
            match e.snapshot_id {
                Some(id) => id,
                None => 0,
            },
        ),
        sequence_number: Some(
            match e.sequence_number {
                Some(n) => n,
                None => 0,
            },
        ),
        file_sequence_number: e.file_sequence_number,
        data_file: e.data_file,
    }
}

/// `e` with the state `Existing`, its snapshot and sequence number kept, zero where it has none.
pub fn build_existing_entry(e: ManifestEntry) -> (r: ManifestEntry)
    ensures
        r == restamped(e),
{
    ManifestEntry {
        status: ManifestStatus::Existing,
        snapshot_id: Some(
            match e.snapshot_id {
                Some(id) => id,
                None => 0,
            },
        ),
        sequence_number: Some(
            match e.sequence_number {
                Some(n) => n,
                None => 0,
            },
        ),
        file_sequence_number: e.file_sequence_number,
        data_file: e.data_file,
    }
}

impl View for ManifestDeleteVector {
    type V = Set<u32>;

    closed spec fn view(&self) -> Set<u32> {
        self.positions@.dom()
    }
}

impl ManifestDeleteVector {
    /// No place is deleted.
    pub fn new() -> (r: Self)
        ensures
            r@ == Set::<u32>::empty(),
    {
        ManifestDeleteVector { positions: HashMap::new() }
    }

    /// Whether the place `position` is deleted.
    pub fn is_deleted(&self, position: u32) -> (r: bool)
        ensures
            r == self@.contains(position),
    {
        self.positions.contains_key(&position)
    }

    /// Deletes the place `position`.
    pub fn mark_deleted(&mut self, position: u32)
        ensures
            final(self)@ == old(self)@.insert(position),
    {
        self.positions.insert(position, ());
    }

    /// How many places are deleted.
    pub fn len(&self) -> (r: usize)
        ensures
            r == self@.len(),
    {
        self.positions.len()
    }
}

/// The newest value of the timestamp field `ts_field_id` in `file`, where the file says.
pub open spec fn file_max_ts_spec(file: DataFile, ts_field_id: i32) -> Option<i64> {
    if file.upper_bounds@.contains_key(ts_field_id) {
        match file.upper_bounds@[ts_field_id] {
            PrimitiveLiteral::Long(v) => Some(v),
            _ => None,
        }
    } else {
        None
    }
}

/// The newest value of the timestamp field `ts_field_id` in `file`, where the file says.
pub fn file_max_ts(file: &DataFile, ts_field_id: i32) -> (r: Option<i64>)
    ensures
        r == file_max_ts_spec(*file, ts_field_id),
{
    match file.upper_bounds.get(&ts_field_id) {
        Some(PrimitiveLiteral::Long(v)) => Some(*v),
        _ => None,
    }
}

/// The later of two times, either of which may be unknown.
pub open spec fn later(a: Option<i64>, b: Option<i64>) -> Option<i64> {
    match (a, b) {
        (Some(x), Some(y)) => if x >= y {
            Some(x)
        } else {
            Some(y)
        },
        (Some(x), None) => Some(x),
        (None, y) => y,
    }
}

/// The latest of a list of times, of those that are known.
pub open spec fn latest(times: Seq<Option<i64>>) -> Option<i64>
    decreases times.len(),
{
    if times.len() == 0 {
        None
    } else {
        later(latest(times.drop_last()), times.last())
    }
}

fn later_of(a: Option<i64>, b: Option<i64>) -> (r: Option<i64>)
    ensures
        r == later(a, b),
{
    match (a, b) {
        (Some(x), Some(y)) => if x >= y {
            Some(x)
        } else {
            Some(y)
        },
        (Some(x), None) => Some(x),
        (None, y) => y,
    }
}

/// The times that `files` say for the field `ts_field_id`.
pub open spec fn file_times(files: Seq<DataFile>, ts_field_id: i32) -> Seq<Option<i64>> {
    files.map_values(|f: DataFile| file_max_ts_spec(f, ts_field_id))
}

/// The newest value of the timestamp field `ts_field_id` over `files`.
pub fn max_ts_of(files: &[DataFile], ts_field_id: i32) -> (r: Option<i64>)
    ensures
        r == latest(file_times(files@, ts_field_id)),
{
    let mut r: Option<i64> = None;
    let mut i: usize = 0;
    while i < files.len()
        invariant
            i <= files@.len(),
            r == latest(file_times(files@, ts_field_id).take(i as int)),
        decreases files@.len() - i,
    {
        r = later_of(r, file_max_ts(&files[i], ts_field_id));
        proof {
            let next = file_times(files@, ts_field_id).take(i + 1);
            assert(next.drop_last() =~= file_times(files@, ts_field_id).take(i as int));
        }
        i = i + 1;
    }
    assert(file_times(files@, ts_field_id).take(i as int) =~= file_times(files@, ts_field_id));
    r
}

/// The times that the live entries of `entries` say for the field `ts_field_id`.
pub open spec fn alive_times(entries: Seq<ManifestEntry>, ts_field_id: i32) -> Seq<Option<i64>>
    decreases entries.len(),
{
    if entries.len() == 0 {
        Seq::empty()
    } else if entries.last().alive() {
        alive_times(entries.drop_last(), ts_field_id).push(
            file_max_ts_spec(*entries.last().data_file, ts_field_id),
        )
    } else {
        alive_times(entries.drop_last(), ts_field_id)
    }
}

/// The time of a manifest by the timestamp field `ts_field_id`: the newest of its live files, where
/// each of them has one. What one file leaves open, no other can bound.
pub open spec fn live_time(entries: Seq<ManifestEntry>, ts_field_id: i32) -> Option<i64> {
    let times = alive_times(entries, ts_field_id);
    if times.contains(None) {
        None
    } else {
        latest(times)
    }
}

/// The newest value of the timestamp field `ts_field_id` over the live files of a manifest, and
/// whether one of them leaves it open.
fn scan_alive_times(entries: &[ManifestEntry], ts_field_id: i32) -> (r: (Option<i64>, bool))
    ensures
        r.0 == latest(alive_times(entries@, ts_field_id)),
        r.1 == alive_times(entries@, ts_field_id).contains(None),
{
    let mut r: Option<i64> = None;
    let mut open = false;
    let mut i: usize = 0;
    while i < entries.len()
        invariant
            i <= entries@.len(),
            r == latest(alive_times(entries@.take(i as int), ts_field_id)),
            open == alive_times(entries@.take(i as int), ts_field_id).contains(None),
        decreases entries@.len() - i,
    {
        let ghost before = alive_times(entries@.take(i as int), ts_field_id);
        let ghost after = alive_times(entries@.take(i + 1), ts_field_id);
        proof {
            let next = entries@.take(i + 1);
            assert(next.drop_last() =~= entries@.take(i as int));
            assert(next.last() == entries@[i as int]);
            if next.last().alive() {
                assert(after.drop_last() =~= before);
                assert(after.last() == after[before.len() as int]);
                if before.contains(None) {
                    let k = choose|k: int| 0 <= k < before.len() && before[k] is None;
                    assert(after[k] == before[k]);
                }
                if after.contains(None) && after.last() is Some {
                    let k = choose|k: int| 0 <= k < after.len() && after[k] is None;
                    assert(before[k] == after[k]);
                }
            }
        }
        if entries[i].is_alive() {
            let time = file_max_ts(&entries[i].data_file, ts_field_id);
            if time.is_none() {
                open = true;
            }
            r = later_of(r, time);
        }
        i = i + 1;
    }
    assert(entries@.take(i as int) =~= entries@);
    (r, open)
}

/// The time of a manifest by the timestamp field `ts_field_id`, where each of its live files has
/// one.
pub fn alive_max_ts(entries: &[ManifestEntry], ts_field_id: i32) -> (r: Option<i64>)
    ensures
        r == live_time(entries@, ts_field_id),
{
    let (newest, open) = scan_alive_times(entries, ts_field_id);
    if open {
        None
    } else {
        newest
    }
}

/// The newest value of the timestamp field `ts_field_id` over the live files of a manifest, of those
/// that have one.
pub fn alive_newest_ts(entries: &[ManifestEntry], ts_field_id: i32) -> (r: Option<i64>)
    ensures
        r == latest(alive_times(entries@, ts_field_id)),
{
    scan_alive_times(entries, ts_field_id).0
}

/// The time that the summary `parts` gives for the fields `fields[from..]` of a partition spec:
/// the first field taken from `ts_field_id` whose bound maps to a time decides, and a field taken
/// from it without an upper bound ends the search.
pub open spec fn summary_max_ts(
    parts: Seq<FieldSummary>,
    spec: PartitionSpec,
    ts_field_id: i32,
    from: int,
) -> Option<i64>
    decreases spec.fields@.len() - from,
{
    if from < 0 || from >= spec.fields@.len() {
        None
    } else if spec.fields@[from].source_id != ts_field_id {
        summary_max_ts(parts, spec, ts_field_id, from + 1)
    } else if from >= parts.len() || parts[from].upper_bound is None {
        None
    } else {
        match upper_micros(spec.fields@[from].transform, parts[from].upper_bound->0@) {
            Some(t) => Some(t),
            None => summary_max_ts(parts, spec, ts_field_id, from + 1),
        }
    }
}

/// A time that no event of the manifest exceeds, as far as its partition summary tells.
pub open spec fn ref_max_ts(mf: ManifestFile, spec: PartitionSpec, ts_field_id: i32) -> Option<i64> {
    match mf.summary() {
        Some(parts) => summary_max_ts(parts, spec, ts_field_id, 0),
        None => None,
    }
}

/// A time that no event of the manifest exceeds, read off its partition summary.
pub fn ref_max_event_micros(mf: &ManifestFile, spec: &PartitionSpec, ts_field_id: i32) -> (r: Option<
    i64,
>)
    ensures
        r == ref_max_ts(*mf, *spec, ts_field_id),
{
    match &mf.partitions {
        None => None,
        Some(parts) => {
            let mut i: usize = 0;
            while i < spec.fields.len()
                invariant
                    i <= spec.fields@.len(),
                    mf.summary() == Some(parts@),
                    ref_max_ts(*mf, *spec, ts_field_id) == summary_max_ts(
                        parts@,
                        *spec,
                        ts_field_id,
                        i as int,
                    ),
                decreases spec.fields@.len() - i,
            {
                if spec.fields[i].source_id == ts_field_id {
                    if i >= parts.len() {
                        return None;
                    }
                    match &parts[i].upper_bound {
                        None => {
                            return None;
                        },
                        Some(bound) => {
                            let t = transform_upper_micros(&spec.fields[i].transform, bound);
                            if t.is_some() {
                                return t;
                            }
                        },
                    }
                }
                i = i + 1;
            }
            None
        },
    }
}

/// `files`, to be shared.
pub open spec fn shared(files: Seq<DataFile>) -> Seq<Arc<DataFile>> {
    files.map_values(|f: DataFile| Arc::new(f))
}

/// `files`, to be shared.
pub fn share(files: Vec<DataFile>) -> (r: Vec<Arc<DataFile>>)
    ensures
        r@ == shared(files@),
{
    let ghost all = files@;
    let mut r: Vec<Arc<DataFile>> = Vec::with_capacity(files.len());
    for f in iter: files
        invariant
            iter.seq() == all,
            r@ == shared(all).take(iter.index() as int),
    {
        proof {
            lemma_take_push(shared(all), iter.index() as int);
        }
        r.push(Arc::new(f));
    }
    assert(shared(all).take(all.len() as int) =~= shared(all));
    r
}

/// An entry is live in just two states, and is kept where its path is not among the removed ones.
pub proof fn law_live_entries_are_existing_or_added(e: ManifestEntry, removed: Set<Seq<char>>)
    ensures
        e.alive() <==> e.status is Existing || e.status is Added,
        e.kept_by(removed) <==> (e.status is Existing || e.status is Added) && !removed.contains(
            e.data_file.file_path@,
        ),
{
}

/// A manifest is passed over as empty only where both counts are known and zero; where both are
/// known, it is live just where it counts a file. A count that is not known adds nothing.
pub proof fn law_only_counted_manifests_are_empty(mf: ManifestFile)
    ensures
        !mf.may_be_active() <==> mf.added_files_count == Some(0u32) && mf.existing_files_count
            == Some(0u32),
        mf.live_count() > 0 ==> mf.may_be_active(),
        mf.added_files_count is Some && mf.existing_files_count is Some ==> mf.live_count()
            == mf.added_files_count->0 + mf.existing_files_count->0,
        mf.added_files_count is None && mf.existing_files_count is Some ==> mf.live_count()
            == mf.existing_files_count->0,
        mf.added_files_count is Some && mf.existing_files_count is None ==> mf.live_count()
            == mf.added_files_count->0,
        mf.added_files_count is None && mf.existing_files_count is None ==> mf.live_count() == 0,
{
}

/// An entry that is carried over with its history lists the same file, live, and keeps its snapshot
/// and both sequence numbers; only what it lacks is filled in, with zero. Carrying it over again
/// changes nothing.
pub proof fn law_restamped_entry_keeps_its_history(e: ManifestEntry)
    ensures
        restamped(e).status is Existing,
        restamped(e).data_file == e.data_file,
        e.snapshot_id is Some ==> restamped(e).snapshot_id == e.snapshot_id,
        e.snapshot_id is None ==> restamped(e).snapshot_id == Some(0i64),
        e.sequence_number is Some ==> restamped(e).sequence_number == e.sequence_number,
        e.sequence_number is None ==> restamped(e).sequence_number == Some(0i64),
        restamped(e).file_sequence_number == e.file_sequence_number,
        restamped(restamped(e)) == restamped(e),
{
}

/// An entry that is carried over without its history lists the file, live, and leaves the snapshot
/// and the sequence numbers to whoever writes it.
pub proof fn law_carried_entry_has_no_history(file: Arc<DataFile>)
    ensures
        carried(file).status is Existing,
        carried(file).data_file == file,
        carried(file).snapshot_id is None,
        carried(file).sequence_number is None,
        carried(file).file_sequence_number is None,
{
}

/// A field is pinned to a value just where both its bounds are there and are that value.
pub proof fn law_pinned_field_has_equal_bounds(f: FieldSummary, v: Seq<u8>)
    ensures
        f.pinned_spec() == Some(v) <==> f.lower_bound is Some && f.upper_bound is Some
            && f.lower_bound->0@ == v && f.upper_bound->0@ == v,
{
}

/// A file's time is the 64-bit upper bound of the field, and no other kind of bound.
pub proof fn law_file_time_is_the_upper_bound(file: DataFile, ts_field_id: i32, t: i64)
    ensures
        file_max_ts_spec(file, ts_field_id) == Some(t) <==> file.upper_bounds@.contains_key(
            ts_field_id,
        ) && file.upper_bounds@[ts_field_id] == PrimitiveLiteral::Long(t),
{
}

/// The latest of a list of times is one of them, and none of them is later; there is none just
/// where no time is known.
pub proof fn law_latest_is_the_greatest(times: Seq<Option<i64>>, t: i64)
    ensures
        latest(times) == Some(t) <==> times.contains(Some(t)) && forall|i: int|
            0 <= i < times.len() && (#[trigger] times[i]) is Some ==> times[i]->0 <= t,
        latest(times) is None <==> forall|i: int|
            0 <= i < times.len() ==> (#[trigger] times[i]) is None,
    decreases times.len(),
{
    if times.len() > 0 {
        let rest = times.drop_last();
        let last = times.last();
        assert(times[times.len() - 1] == last);
        law_latest_is_the_greatest(rest, t);
        if last is Some {
            law_latest_is_the_greatest(rest, last->0);
        }
        if latest(rest) is Some {
            law_latest_is_the_greatest(rest, latest(rest)->0);
            let k = choose|k: int| 0 <= k < rest.len() && rest[k] == latest(rest);
            assert(times[k] == latest(rest));
        }
        if latest(times) == Some(t) {
            assert forall|i: int| 0 <= i < times.len() && (
            #[trigger] times[i]) is Some implies times[i]->0 <= t by {
                if i < rest.len() {
                    assert(rest[i] == times[i]);
                }
            }
            if last != Some(t) {
                let k = choose|k: int| 0 <= k < rest.len() && rest[k] == Some(t);
                assert(times[k] == Some(t));
            }
        }
        if times.contains(Some(t)) && forall|i: int|
            0 <= i < times.len() && (#[trigger] times[i]) is Some ==> times[i]->0 <= t {
            let k = choose|k: int| 0 <= k < times.len() && times[k] == Some(t);
            assert forall|i: int| 0 <= i < rest.len() && (
            #[trigger] rest[i]) is Some implies rest[i]->0 <= t by {
                assert(times[i] == rest[i]);
            }
            if k < rest.len() {
                assert(rest[k] == Some(t));
            }
        }
        if latest(times) is None {
            assert forall|i: int| 0 <= i < times.len() implies (#[trigger] times[i]) is None by {
                if i < rest.len() {
                    assert(rest[i] == times[i]);
                }
            }
        }
        if forall|i: int| 0 <= i < times.len() ==> (#[trigger] times[i]) is None {
            assert forall|i: int| 0 <= i < rest.len() implies (#[trigger] rest[i]) is None by {
                assert(times[i] == rest[i]);
            }
        }
    }
}

/// The times of a manifest are those of its live entries' files, one for each.
pub proof fn law_live_entries_give_the_times(
    entries: Seq<ManifestEntry>,
    ts_field_id: i32,
    t: Option<i64>,
)
    ensures
        alive_times(entries, ts_field_id).contains(t) <==> exists|i: int|
            0 <= i < entries.len() && ((#[trigger] entries[i]).status is Existing
                || entries[i].status is Added) && file_max_ts_spec(
                *entries[i].data_file,
                ts_field_id,
            ) == t,
    decreases entries.len(),
{
    if entries.len() > 0 {
        let rest = entries.drop_last();
        let before = alive_times(rest, ts_field_id);
        let after = alive_times(entries, ts_field_id);
        law_live_entries_give_the_times(rest, ts_field_id, t);
        assert(entries[entries.len() - 1] == entries.last());
        if before.contains(t) {
            let k = choose|k: int| 0 <= k < before.len() && before[k] == t;
            assert(after[k] == t);
            let i = choose|i: int|
                0 <= i < rest.len() && ((#[trigger] rest[i]).status is Existing || rest[i].status
                    is Added) && file_max_ts_spec(*rest[i].data_file, ts_field_id) == t;
            assert(entries[i] == rest[i]);
        } else {
            if after.contains(t) {
                let k = choose|k: int| 0 <= k < after.len() && after[k] == t;
                if k < before.len() {
                    assert(before[k] == t);
                }
            }
            if exists|i: int|
                0 <= i < entries.len() && ((#[trigger] entries[i]).status is Existing
                    || entries[i].status is Added) && file_max_ts_spec(
                    *entries[i].data_file,
                    ts_field_id,
                ) == t {
                let i = choose|i: int|
                    0 <= i < entries.len() && ((#[trigger] entries[i]).status is Existing
                        || entries[i].status is Added) && file_max_ts_spec(
                        *entries[i].data_file,
                        ts_field_id,
                    ) == t;
                if i < rest.len() {
                    assert(rest[i] == entries[i]);
                } else {
                    assert(after[before.len() as int] == t);
                }
            }
        }
    }
}

/// A manifest is of the time `t` just where each of its live files has a time, one has `t`, and
/// none a later one: a live file without a time leaves the manifest without one.
pub proof fn law_manifest_time_bounds_every_live_file(
    entries: Seq<ManifestEntry>,
    ts_field_id: i32,
    t: i64,
)
    ensures
        live_time(entries, ts_field_id) == Some(t) <==> {
            &&& exists|i: int|
                0 <= i < entries.len() && ((#[trigger] entries[i]).status is Existing
                    || entries[i].status is Added) && file_max_ts_spec(
                    *entries[i].data_file,
                    ts_field_id,
                ) == Some(t)
            &&& forall|i: int|
                0 <= i < entries.len() && ((#[trigger] entries[i]).status is Existing
                    || entries[i].status is Added) ==> {
                    let time = file_max_ts_spec(*entries[i].data_file, ts_field_id);
                    time is Some && time->0 <= t
                }
        },
{
    let times = alive_times(entries, ts_field_id);
    law_live_entries_give_the_times(entries, ts_field_id, Some(t));
    law_live_entries_give_the_times(entries, ts_field_id, None);
    law_latest_is_the_greatest(times, t);
    if live_time(entries, ts_field_id) == Some(t) {
        assert forall|i: int|
            0 <= i < entries.len() && ((#[trigger] entries[i]).status is Existing
                || entries[i].status is Added) implies {
            let time = file_max_ts_spec(*entries[i].data_file, ts_field_id);
            time is Some && time->0 <= t
        } by {
            let time = file_max_ts_spec(*entries[i].data_file, ts_field_id);
            law_live_entries_give_the_times(entries, ts_field_id, time);
            let k = choose|k: int| 0 <= k < times.len() && times[k] == time;
            assert(times[k] == time);
        }
    }
    if times.contains(Some(t)) && forall|i: int|
        0 <= i < entries.len() && ((#[trigger] entries[i]).status is Existing || entries[i].status
            is Added) ==> {
            let time = file_max_ts_spec(*entries[i].data_file, ts_field_id);
            time is Some && time->0 <= t
        } {
        assert forall|k: int| 0 <= k < times.len() && (
        #[trigger] times[k]) is Some implies times[k]->0 <= t by {
            assert(times.contains(times[k]));
            law_live_entries_give_the_times(entries, ts_field_id, times[k]);
        }
    }
}

/// The time that a partition summary gives is the end of the bucket of the first field that is
/// taken from the timestamp and whose bound maps to a time. It is not given where the summary is
/// missing, or where a field taken from the timestamp ahead of that one has no upper bound.
pub proof fn law_summary_time_comes_from_the_timestamp(
    mf: ManifestFile,
    spec: PartitionSpec,
    ts_field_id: i32,
    t: i64,
)
    ensures
        ref_max_ts(mf, spec, ts_field_id) == Some(t) <==> mf.partitions is Some && exists|i: int|
            0 <= i < spec.fields@.len() && i < mf.partitions->0@.len() && (
            #[trigger] spec.fields@[i]).source_id == ts_field_id
                && mf.partitions->0@[i].upper_bound is Some && upper_micros(
                spec.fields@[i].transform,
                mf.partitions->0@[i].upper_bound->0@,
            ) == Some(t) && forall|j: int|
                0 <= j < i && (#[trigger] spec.fields@[j]).source_id == ts_field_id
                    ==> mf.partitions->0@[j].upper_bound is Some && upper_micros(
                    spec.fields@[j].transform,
                    mf.partitions->0@[j].upper_bound->0@,
                ) is None,
{
    if mf.partitions is Some {
        lemma_summary_time(mf.partitions->0@, spec, ts_field_id, t, 0);
    }
}

proof fn lemma_summary_time(
    parts: Seq<FieldSummary>,
    spec: PartitionSpec,
    ts_field_id: i32,
    t: i64,
    from: int,
)
    requires
        0 <= from <= spec.fields@.len(),
    ensures
        summary_max_ts(parts, spec, ts_field_id, from) == Some(t) <==> exists|i: int|
            from <= i < spec.fields@.len() && i < parts.len() && (
            #[trigger] spec.fields@[i]).source_id == ts_field_id && parts[i].upper_bound is Some
                && upper_micros(spec.fields@[i].transform, parts[i].upper_bound->0@) == Some(t)
                && forall|j: int|
                from <= j < i && (#[trigger] spec.fields@[j]).source_id == ts_field_id
                    ==> parts[j].upper_bound is Some && upper_micros(
                    spec.fields@[j].transform,
                    parts[j].upper_bound->0@,
                ) is None,
    decreases spec.fields@.len() - from,
{
    if from < spec.fields@.len() {
        lemma_summary_time(parts, spec, ts_field_id, t, from + 1);
        let here = spec.fields@[from];
        if summary_max_ts(parts, spec, ts_field_id, from) == Some(t) {
            if here.source_id == ts_field_id && upper_micros(
                here.transform,
                parts[from].upper_bound->0@,
            ) is Some {
                assert(spec.fields@[from].source_id == ts_field_id);
            } else {
                let i = choose|i: int|
                    from + 1 <= i < spec.fields@.len() && i < parts.len() && (
                    #[trigger] spec.fields@[i]).source_id == ts_field_id && parts[i].upper_bound
                        is Some && upper_micros(
                        spec.fields@[i].transform,
                        parts[i].upper_bound->0@,
                    ) == Some(t) && forall|j: int|
                        from + 1 <= j < i && (#[trigger] spec.fields@[j]).source_id == ts_field_id
                            ==> parts[j].upper_bound is Some && upper_micros(
                            spec.fields@[j].transform,
                            parts[j].upper_bound->0@,
                        ) is None;
                assert(spec.fields@[i].source_id == ts_field_id);
            }
        }
    }
}

} // verus!
