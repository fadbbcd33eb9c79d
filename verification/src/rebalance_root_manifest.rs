//! Rebalancing a root: writing its inline entries out to manifests, and rewriting the manifests
//! that lost many entries or span several partitions.

use std::collections::VecDeque;
use std::sync::Arc;

use vstd::prelude::*;
use vstd::string::StringExecFns;
use vstd::utf8::encode_utf8;

use crate::action::TransactionAction;
use crate::cluster::{
    law_written_manifests_hold_the_entries, write_entries_clustered, writer_kind, writes, writes_entries, ManifestWrite, WriteSetting,
};
use crate::commit::{
    describe_root, describes, manifest_path_of, no_rows, replace_commit, replaces, root_path,
    root_path_of, RootCommit,
};
use crate::compact_cold_tier::CommitStart;
use crate::error::{Error, ErrorKind};
use crate::fraction::Fraction;
use crate::manifest::{
    build_existing_entry, restamped, DataContentType, FormatVersion, ManifestContentType,
    ManifestDeleteVector, ManifestEntry, ManifestFile, Mdv, RootManifestEntry, RootManifestMetadata,
};
use crate::outside::{fresh_id, is_time_ordered, now_millis};
use crate::partition::{bytes_view, le_i32, le_i32_spec, Literal, PrimitiveLiteral};
use crate::path_set::Properties;
use crate::seqs::{lemma_filter_places, lemma_filter_push, lemma_take_push, stands_at};
use crate::table::{copy_text, version_name, version_name_of, RowRange, TableMetadata};
use crate::text::{
    decimal, decimal_of, parse_usize, parsed_within, same_bytes, same_text, signed_decimal,
    signed_decimal_of, texts,
};

verus! {

/// How many inline entries ask for a flush, where nothing else is said.
pub const DEFAULT_INLINE_THRESHOLD: usize = 1000;

/// The share of deleted entries that asks for a rewrite, where nothing else is said, as a
/// fraction.
pub const DEFAULT_MDV_COMPACTION_NUMERATOR: u64 = 3;

pub const DEFAULT_MDV_COMPACTION_DENOMINATOR: u64 = 10;

/// Whether a summary spans more than one value in some field; a manifest without one does not.
pub open spec fn wide(mf: ManifestFile) -> bool {
    mf.summary() matches Some(summary) && exists|i: int|
        0 <= i < summary.len() && (#[trigger] summary[i]).lower_bound is Some
            && summary[i].upper_bound is Some && summary[i].lower_bound->0@
            != summary[i].upper_bound->0@
}

/// Whether a manifest's summary spans more than one value in some field.
pub fn manifest_file_is_wide(mf: &ManifestFile) -> (r: bool)
    ensures
        r == wide(*mf),
{
    match &mf.partitions {
        None => false,
        Some(fields) => {
            let mut i: usize = 0;
            while i < fields.len()
                invariant
                    i <= fields@.len(),
                    mf.summary() == Some(fields@),
                    forall|k: int|
                        0 <= k < i ==> !((#[trigger] fields@[k]).lower_bound is Some
                            && fields@[k].upper_bound is Some && fields@[k].lower_bound->0@
                            != fields@[k].upper_bound->0@),
                decreases fields@.len() - i,
            {
                if let (Some(lo), Some(hi)) = (&fields[i].lower_bound, &fields[i].upper_bound) {
                    if !same_bytes(lo, hi) {
                        return true;
                    }
                }
                i = i + 1;
            }
            false
        },
    }
}

/// The partition field that says the hour, and the last hour that may be touched.
#[derive(Clone, Copy, Debug, PartialEq, Eq, Structural)]
pub struct HourFilter {
    pub field: usize,
    pub max_hour: i64,
}

/// Rebalances the root of a table.
pub struct RebalanceRootManifestAction {
    pub inline_threshold: usize,
    pub mdv_compaction_threshold: Fraction,
    /// Whether manifests are written one for each partition, and those that span several are
    /// rewritten.
    pub partition_scoped: bool,
    /// How many manifests one commit rewrites.
    pub max_manifests_per_commit: Option<usize>,
    /// Entries of later hours are left alone.
    pub hour_filter: Option<HourFilter>,
    pub commit_id: u128,
}

/// The hour up to which a manifest's summary reaches in the field `field`.
pub open spec fn summary_hour(mf: ManifestFile, field: usize) -> Option<i64> {
    match mf.summary() {
        Some(summary) => if field < summary.len() && summary[field as int].upper_bound is Some {
            le_i32_spec(summary[field as int].upper_bound->0@)
        } else {
            None
        },
        None => None,
    }
}

/// The hour of an entry in the field `field`.
pub open spec fn entry_hour(e: RootManifestEntry, field: usize) -> Option<i64> {
    match e {
        RootManifestEntry::ManifestRef { manifest_file, .. } => summary_hour(manifest_file, field),
        RootManifestEntry::Inline(me) => inline_hour(me, field),
    }
}

/// The hour of a file in the field `field` of its partition.
pub open spec fn inline_hour(me: ManifestEntry, field: usize) -> Option<i64> {
    if field < me.data_file.partition.fields@.len() {
        match me.data_file.partition.fields@[field as int] {
            Some(Literal::Primitive(PrimitiveLiteral::Int(v))) => Some(v as i64),
            _ => None,
        }
    } else {
        None
    }
}

/// Whether an hour is past the filter; an unknown hour is not.
pub open spec fn past_filter(hour: Option<i64>, filter: HourFilter) -> bool {
    hour is Some && hour->0 > filter.max_hour
}

/// Whether so many of a manifest's live files are deleted that it is rewritten.
pub open spec fn over_threshold(mf: ManifestFile, mdv: Option<Mdv>, threshold: Fraction) -> bool {
    mdv matches Some(m) && (m.vector matches Some(vector) && mf.live_count() > 0 && vector@.len()
        * threshold.denominator >= threshold.numerator * mf.live_count())
}

fn is_over_threshold(mf: &ManifestFile, vector: &ManifestDeleteVector, threshold: Fraction) -> (r: bool)
    ensures
        r == (mf.live_count() > 0 && vector@.len() * threshold.denominator >= threshold.numerator
            * mf.live_count()),
{
    let total: u64 = mf.live_files();
    let share = Fraction { numerator: vector.len() as u64, denominator: total };
    total > 0 && share.reaches(threshold)
}

impl TransactionAction for RebalanceRootManifestAction {
    fn action_name(&self) -> (r: &'static str)
        ensures
            r@ == "rebalance_root_manifest"@,
    {
        "rebalance_root_manifest"
    }
}

impl Default for RebalanceRootManifestAction {
    fn default() -> (r: Self)
        ensures
            r.is_default(),
    {
        RebalanceRootManifestAction::new()
    }
}

impl RebalanceRootManifestAction {
    /// Whether nothing but the id was chosen.
    pub open spec fn is_default(&self) -> bool {
        &&& self.inline_threshold == DEFAULT_INLINE_THRESHOLD
        &&& self.mdv_compaction_threshold == (Fraction {
            numerator: DEFAULT_MDV_COMPACTION_NUMERATOR,
            denominator: DEFAULT_MDV_COMPACTION_DENOMINATOR,
        })
        &&& !self.partition_scoped
        &&& self.max_manifests_per_commit is None
        &&& self.hour_filter is None
    }

    /// A rebalance with the default thresholds, under a fresh id.
    pub fn new() -> (r: Self)
        ensures
            r.is_default(),
            is_time_ordered(r.commit_id),
    {
        RebalanceRootManifestAction {
            inline_threshold: DEFAULT_INLINE_THRESHOLD,
            mdv_compaction_threshold: Fraction {
                numerator: DEFAULT_MDV_COMPACTION_NUMERATOR,
                denominator: DEFAULT_MDV_COMPACTION_DENOMINATOR,
            },
            partition_scoped: false,
            max_manifests_per_commit: None,
            hour_filter: None,
            commit_id: fresh_id(),
        }
    }

    /// Leaves entries alone whose hour, in the partition field `hour_field_idx`, is after
    /// `max_hour`.
    pub fn with_hour_filter(self, hour_field_idx: usize, max_hour: i64) -> (r: Self)
        ensures
            r == (RebalanceRootManifestAction {
                hour_filter: Some(HourFilter { field: hour_field_idx, max_hour }),
                ..self
            }),
    {
        let mut r = self;
        r.hour_filter = Some(HourFilter { field: hour_field_idx, max_hour });
        r
    }

    /// Rewrites at most `n` manifests at once; zero sets no bound.
    pub fn with_max_manifests_per_commit(self, n: usize) -> (r: Self)
        ensures
            r == (RebalanceRootManifestAction {
                max_manifests_per_commit: if n > 0 {
                    Some(n)
                } else {
                    None
                },
                ..self
            }),
    {
        let mut r = self;
        r.max_manifests_per_commit = if n > 0 {
            Some(n)
        } else {
            None
        };
        r
    }

    /// Flushes once there are `threshold` inline entries.
    pub fn with_inline_threshold(self, threshold: usize) -> (r: Self)
        ensures
            r == (RebalanceRootManifestAction { inline_threshold: threshold, ..self }),
    {
        let mut r = self;
        r.inline_threshold = threshold;
        r
    }

    /// Rewrites manifests once the share `threshold` of their entries is deleted.
    pub fn with_mdv_compaction_threshold(self, threshold: Fraction) -> (r: Self)
        ensures
            r == (RebalanceRootManifestAction { mdv_compaction_threshold: threshold, ..self }),
    {
        let mut r = self;
        r.mdv_compaction_threshold = threshold;
        r
    }

    /// Writes manifests one for each partition, or not.
    pub fn with_partition_scoped(self, enabled: bool) -> (r: Self)
        ensures
            r == (RebalanceRootManifestAction { partition_scoped: enabled, ..self }),
    {
        let mut r = self;
        r.partition_scoped = enabled;
        r
    }

    /// The hour up to which a manifest's summary reaches.
    pub fn manifest_summary_hour(mf: &ManifestFile, idx: usize) -> (r: Option<i64>)
        ensures
            r == summary_hour(*mf, idx),
    {
        match &mf.partitions {
            None => None,
            Some(fields) => {
                if idx >= fields.len() {
                    return None;
                }
                match &fields[idx].upper_bound {
                    None => None,
                    Some(bound) => le_i32(bound),
                }
            },
        }
    }

    fn inline_summary_hour(me: &ManifestEntry, idx: usize) -> (r: Option<i64>)
        ensures
            r == inline_hour(*me, idx),
    {
        if idx >= me.data_file.partition.fields.len() {
            return None;
        }
        match &me.data_file.partition.fields[idx] {
            Some(Literal::Primitive(PrimitiveLiteral::Int(v))) => Some(*v as i64),
            _ => None,
        }
    }

    /// Whether an entry is of an hour that is left alone.
    pub open spec fn hot(&self, e: RootManifestEntry) -> bool {
        self.hour_filter matches Some(filter) && past_filter(entry_hour(e, filter.field), filter)
    }

    /// Whether an entry is of an hour that is left alone; an entry of an unknown hour is not.
    pub fn entry_above_hour_filter(&self, entry: &RootManifestEntry) -> (r: bool)
        ensures
            r == self.hot(*entry),
    {
        match self.hour_filter {
            None => false,
            Some(filter) => {
                let hour = match entry {
                    RootManifestEntry::ManifestRef {
                        manifest_file,
                        ..
                    } => RebalanceRootManifestAction::manifest_summary_hour(
                        manifest_file,
                        filter.field,
                    ),
                    RootManifestEntry::Inline(me) => RebalanceRootManifestAction::inline_summary_hour(
                        me,
                        filter.field,
                    ),
                };
                match hour {
                    Some(h) => h > filter.max_hour,
                    None => false,
                }
            },
        }
    }

    /// Whether an entry is a manifest that spans several partitions and should not.
    pub open spec fn too_wide(&self, e: RootManifestEntry) -> bool {
        self.partition_scoped && (e matches RootManifestEntry::ManifestRef { manifest_file, .. }
            && wide(manifest_file))
    }

    /// Whether an entry is a manifest with too many deleted entries.
    pub open spec fn too_sparse(&self, e: RootManifestEntry) -> bool {
        e matches RootManifestEntry::ManifestRef { manifest_file, mdv } && over_threshold(
            manifest_file,
            mdv,
            self.mdv_compaction_threshold,
        )
    }

    fn is_too_wide(&self, e: &RootManifestEntry) -> (r: bool)
        ensures
            r == self.too_wide(*e),
    {
        match e {
            RootManifestEntry::ManifestRef { manifest_file, .. } => self.partition_scoped
                && manifest_file_is_wide(manifest_file),
            RootManifestEntry::Inline(_) => false,
        }
    }

    fn is_too_sparse(&self, e: &RootManifestEntry) -> (r: bool)
        ensures
            r == self.too_sparse(*e),
    {
        match e {
            RootManifestEntry::ManifestRef { manifest_file, mdv } => match mdv {
                Some(m) => match &m.vector {
                    Some(vector) => is_over_threshold(
                        manifest_file,
                        vector,
                        self.mdv_compaction_threshold,
                    ),
                    None => false,
                },
                None => false,
            },
            RootManifestEntry::Inline(_) => false,
        }
    }

    /// Whether a manifest spans several partitions and should not.
    pub fn needs_recluster(&self, entries: &[RootManifestEntry]) -> (r: bool)
        ensures
            r == exists|i: int|
                0 <= i < entries@.len() && self.too_wide(#[trigger] entries@[i]),
    {
        let mut i: usize = 0;
        while i < entries.len()
            invariant
                i <= entries@.len(),
                forall|k: int| 0 <= k < i ==> !self.too_wide(#[trigger] entries@[k]),
            decreases entries@.len() - i,
        {
            if self.is_too_wide(&entries[i]) {
                return true;
            }
            i = i + 1;
        }
        false
    }

    /// Whether a manifest has too many deleted entries.
    pub fn needs_mdv_compaction(&self, entries: &[RootManifestEntry]) -> (r: bool)
        ensures
            r == exists|i: int|
                0 <= i < entries@.len() && self.too_sparse(#[trigger] entries@[i]),
    {
        let mut i: usize = 0;
        while i < entries.len()
            invariant
                i <= entries@.len(),
                forall|k: int| 0 <= k < i ==> !self.too_sparse(#[trigger] entries@[k]),
            decreases entries@.len() - i,
        {
            if self.is_too_sparse(&entries[i]) {
                return true;
            }
            i = i + 1;
        }
        false
    }
}

/// The number that the property `key` of `table` gives, or else `default`.
pub open spec fn usize_property(table: TableMetadata, key: Seq<char>, default: usize) -> nat {
    if table.properties@.contains_key(key) && parsed_within(
        table.properties@[key],
        usize::MAX as nat,
    ) is Some {
        parsed_within(table.properties@[key], usize::MAX as nat)->0
    } else {
        default as nat
    }
}

fn usize_property_of(table: &TableMetadata, key: &str, default: usize) -> (r: usize)
    ensures
        r == usize_property(*table, key@, default),
{
    match table.properties.get(key) {
        Some(v) => match parse_usize(v.as_str()) {
            Some(n) => n,
            None => default,
        },
        None => default,
    }
}

/// How many of `entries` are inline.
pub open spec fn inline_count(entries: Seq<RootManifestEntry>) -> nat
    decreases entries.len(),
{
    if entries.len() == 0 {
        0
    } else {
        inline_count(entries.drop_last()) + (if entries.last() is Inline {
            1nat
        } else {
            0
        })
    }
}

/// About how many bytes the inline entries of `entries` take.
pub open spec fn inline_bytes(entries: Seq<RootManifestEntry>) -> nat
    decreases entries.len(),
{
    if entries.len() == 0 {
        0
    } else {
        inline_bytes(entries.drop_last()) + (match entries.last() {
            RootManifestEntry::Inline(me) => 256 + encode_utf8(me.data_file.file_path@).len(),
            RootManifestEntry::ManifestRef { .. } => 0,
        })
    }
}

pub(crate) fn count_inline(entries: &[RootManifestEntry]) -> (r: usize)
    ensures
        r == inline_count(entries@),
{
    let mut r: usize = 0;
    let mut i: usize = 0;
    while i < entries.len()
        invariant
            i <= entries@.len(),
            r <= i,
            r == inline_count(entries@.take(i as int)),
        decreases entries@.len() - i,
    {
        proof {
            assert(entries@.take(i + 1).drop_last() =~= entries@.take(i as int));
        }
        if let RootManifestEntry::Inline(_) = &entries[i] {
            r = r + 1;
        }
        i = i + 1;
    }
    assert(entries@.take(i as int) =~= entries@);
    r
}

proof fn lemma_inline_bytes_grow(entries: Seq<RootManifestEntry>, n: int)
    requires
        0 <= n <= entries.len(),
    ensures
        inline_bytes(entries.take(n)) <= inline_bytes(entries),
    decreases entries.len(),
{
    if n < entries.len() {
        lemma_inline_bytes_grow(entries.drop_last(), n);
        assert(entries.drop_last().take(n) =~= entries.take(n));
    } else {
        assert(entries.take(n) =~= entries);
    }
}

fn inline_bytes_reach(entries: &[RootManifestEntry], limit: usize) -> (r: bool)
    ensures
        r == (inline_bytes(entries@) >= limit),
{
    let mut sum: usize = 0;
    let mut i: usize = 0;
    while i < entries.len()
        invariant
            i <= entries@.len(),
            sum == inline_bytes(entries@.take(i as int)),
        decreases entries@.len() - i,
    {
        proof {
            assert(entries@.take(i + 1).drop_last() =~= entries@.take(i as int));
            lemma_inline_bytes_grow(entries@, i + 1);
        }
        if let RootManifestEntry::Inline(me) = &entries[i] {
            let path_len: usize = me.data_file.file_path.as_str().as_bytes().len();
            let next: u128 = sum as u128 + 256 + path_len as u128;
            if next >= limit as u128 {
                return true;
            }
            sum = next as usize;
        }
        i = i + 1;
    }
    assert(entries@.take(i as int) =~= entries@);
    sum >= limit
}

/// What there is to do for a rebalance.
#[derive(Clone, Copy, Debug, PartialEq, Eq, Structural)]
pub struct RebalanceNeeds {
    pub flush: bool,
    pub mdv_compaction: bool,
    pub recluster: bool,
    pub tombstone_sweep: bool,
}

impl RebalanceNeeds {
    /// Whether there is anything to do.
    pub open spec fn any(&self) -> bool {
        self.flush || self.mdv_compaction || self.recluster || self.tombstone_sweep
    }

    /// Whether there is anything to do.
    pub fn is_any(&self) -> (r: bool)
        ensures
            r == self.any(),
    {
        self.flush || self.mdv_compaction || self.recluster || self.tombstone_sweep
    }
}

/// What is said of a table below version 4.
pub open spec fn rebalance_needs_v4_message(table: TableMetadata) -> Seq<char> {
    "rebalance_root_manifest requires format version V4 (effective="@ + version_name(
        table.effective_version(),
    ) + ", declared="@ + version_name(table.format_version) + ")"@
}

/// How many tombstones are worth a sweep.
pub open spec fn sweep_min_paths(table: TableMetadata) -> nat {
    usize_property(table, "root-manifest.tombstone-sweep-min-paths"@, 1000)
}

impl RebalanceRootManifestAction {
    /// Whether there is anything to do on `table`.
    pub fn start_commit(&self, table: &TableMetadata) -> (r: Result<CommitStart, Error>)
        ensures
            r is Err <==> table.effective_version() != FormatVersion::V4,
            r is Err ==> r->Err_0.says(
                ErrorKind::FeatureUnsupported,
                rebalance_needs_v4_message(*table),
            ),
            r is Ok ==> (r->Ok_0 == CommitStart::Nothing <==> table.current() is None),
    {
        let effective = table.effective_format_version();
        if effective != FormatVersion::V4 {
            let mut message =
                "rebalance_root_manifest requires format version V4 (effective=".to_owned();
            message.append(version_name_of(effective));
            message.append(", declared=");
            message.append(version_name_of(table.format_version));
            message.append(")");
            return Err(Error::new(ErrorKind::FeatureUnsupported, message));
        }
        if table.current_snapshot().is_none() {
            return Ok(CommitStart::Nothing);
        }
        Ok(CommitStart::Proceed)
    }

    /// What there is to do for a root with the entries `entries` and `removed` tombstones. The
    /// table's properties go before the action's thresholds.
    pub open spec fn needs_spec(
        &self,
        table: TableMetadata,
        entries: Seq<RootManifestEntry>,
        removed: nat,
    ) -> RebalanceNeeds {
        RebalanceNeeds {
            flush: inline_count(entries) >= usize_property(
                table,
                "root-manifest.inline-threshold"@,
                self.inline_threshold,
            ) || inline_bytes(entries) >= usize_property(
                table,
                "root-manifest.flush-bytes"@,
                8388608,
            ) || entries.len() >= usize_property(table, "root-manifest.flush-entries"@, 1000),
            mdv_compaction: exists|i: int|
                0 <= i < entries.len() && self.too_sparse(#[trigger] entries[i]),
            recluster: exists|i: int|
                0 <= i < entries.len() && self.too_wide(#[trigger] entries[i]),
            tombstone_sweep: removed >= sweep_min_paths(table),
        }
    }

    /// What there is to do for a root with the entries `entries` and `removed` tombstones.
    pub fn needs(&self, table: &TableMetadata, entries: &[RootManifestEntry], removed: usize) -> (r:
        RebalanceNeeds)
        ensures
            r == self.needs_spec(*table, entries@, removed as nat),
    {
        let inline_threshold: usize = usize_property_of(
            table,
            "root-manifest.inline-threshold",
            self.inline_threshold,
        );
        let flush_bytes: usize = usize_property_of(table, "root-manifest.flush-bytes", 8388608);
        let flush_entries: usize = usize_property_of(table, "root-manifest.flush-entries", 1000);
        let sweep: usize = usize_property_of(
            table,
            "root-manifest.tombstone-sweep-min-paths",
            1000,
        );
        RebalanceNeeds {
            flush: count_inline(entries) >= inline_threshold || inline_bytes_reach(
                entries,
                flush_bytes,
            ) || entries.len() >= flush_entries,
            mdv_compaction: self.needs_mdv_compaction(entries),
            recluster: self.needs_recluster(entries),
            tombstone_sweep: removed >= sweep,
        }
    }

    /// How many manifests a sweep of `removed` tombstones may read, where one is worth it.
    pub fn sweep_bound(&self, table: &TableMetadata, removed: usize) -> (r: Option<usize>)
        ensures
            r is Some <==> removed >= sweep_min_paths(*table),
            r is Some ==> r->0 == usize_property(
                *table,
                "root-manifest.tombstone-materialize-max-manifests"@,
                8192,
            ),
    {
        let min: usize = usize_property_of(table, "root-manifest.tombstone-sweep-min-paths", 1000);
        if removed >= min {
            Some(
                usize_property_of(
                    table,
                    "root-manifest.tombstone-materialize-max-manifests",
                    8192,
                ),
            )
        } else {
            None
        }
    }
}

/// The manifests `produced` as entries of a root.
pub open spec fn refs_to(produced: Seq<ManifestFile>) -> Seq<RootManifestEntry> {
    produced.map_values(
        |mf: ManifestFile| RootManifestEntry::ManifestRef { manifest_file: mf, mdv: None },
    )
}

pub(crate) fn push_refs(entries: &mut Vec<RootManifestEntry>, produced: Vec<ManifestFile>)
    ensures
        final(entries)@ == old(entries)@ + refs_to(produced@),
{
    let ghost start = entries@;
    let ghost all = refs_to(produced@);
    let ghost given = produced@;
    assert(start + all.take(0) =~= start);
    for mf in iter: produced
        invariant
            iter.seq() == given,
            all == refs_to(given),
            entries@ == start + all.take(iter.index() as int),
    {
        proof {
            lemma_take_push(all, iter.index() as int);
        }
        entries.push(RootManifestEntry::ManifestRef { manifest_file: mf, mdv: None });
        assert(entries@ =~= start + all.take(iter.index() + 1));
    }
    assert(all.take(given.len() as int) =~= all);
}

/// Whether an entry is a manifest whose delete vector does not decode.
pub open spec fn unreadable(e: RootManifestEntry) -> bool {
    e matches RootManifestEntry::ManifestRef { mdv, .. } && (mdv matches Some(m) && m.vector is None)
}

/// A rewrite that was made before, by what it was made from.
#[derive(Clone, Debug, PartialEq, Eq)]
pub struct RewriteKey {
    pub path: String,
    pub mdv: Option<Vec<u8>>,
}

/// The bytes of a stored delete vector.
pub open spec fn mdv_bytes(mdv: Option<Mdv>) -> Option<Seq<u8>> {
    match mdv {
        Some(m) => Some(m.bytes@),
        None => None,
    }
}

/// Whether `key` is that of a manifest with the delete vector `mdv`.
pub open spec fn is_key_of(key: RewriteKey, mf: ManifestFile, mdv: Option<Mdv>) -> bool {
    key.path@ == mf.manifest_path@ && bytes_view(key.mdv) == mdv_bytes(mdv)
}

/// What the rewrite of a root's manifest is found by: the manifest's path and its delete vector.
pub open spec fn ref_key(e: RootManifestEntry) -> (Seq<char>, Option<Seq<u8>>) {
    (e->ManifestRef_manifest_file.manifest_path@, mdv_bytes(e->ManifestRef_mdv))
}

/// The rewrites that `keys` are of.
pub open spec fn known_rewrites(keys: Seq<RewriteKey>) -> Set<(Seq<char>, Option<Seq<u8>>)> {
    Set::new(
        |key: (Seq<char>, Option<Seq<u8>>)|
            exists|i: int|
                0 <= i < keys.len() && (#[trigger] keys[i]).path@ == key.0 && bytes_view(keys[i].mdv)
                    == key.1,
    )
}

/// The place of the rewrite of a manifest, where one was made before. A manifest whose
/// delete vector has changed is another one.
pub fn find_rewrite(keys: &[RewriteKey], mf: &ManifestFile, mdv: &Option<Mdv>) -> (r: Option<usize>)
    ensures
        match r {
            Some(i) => i < keys@.len() && is_key_of(keys@[i as int], *mf, *mdv),
            None => forall|i: int|
                0 <= i < keys@.len() ==> !is_key_of(#[trigger] keys@[i], *mf, *mdv),
        },
{
    let mut i: usize = 0;
    while i < keys.len()
        invariant
            i <= keys@.len(),
            forall|k: int| 0 <= k < i ==> !is_key_of(#[trigger] keys@[k], *mf, *mdv),
        decreases keys@.len() - i,
    {
        let same_mdv = match (&keys[i].mdv, mdv) {
            (Some(b), Some(m)) => same_bytes(b, &m.bytes),
            (None, None) => true,
            _ => false,
        };
        if same_mdv && same_text(keys[i].path.as_str(), mf.manifest_path.as_str()) {
            return Some(i);
        }
        i = i + 1;
    }
    None
}

fn key_for(mf: &ManifestFile, mdv: &Option<Mdv>) -> (r: RewriteKey)
    ensures
        is_key_of(r, *mf, *mdv),
{
    let bytes = match mdv {
        Some(m) => {
            let copy = m.bytes.clone();
            assert(copy@ =~= m.bytes@);
            Some(copy)
        },
        None => None,
    };
    RewriteKey { path: mf.manifest_path.clone(), mdv: bytes }
}

impl RebalanceRootManifestAction {
    /// Whether an entry is a manifest that should be rewritten.
    pub open spec fn wants_rewrite(&self, e: RootManifestEntry) -> bool {
        (self.too_sparse(e) || self.too_wide(e)) && !self.hot(e)
    }

    /// Whether an entry is a manifest that is rewritten, `done` rewrites having been made for this
    /// commit: one that was made before is used whatever the bound, as it takes no work.
    pub open spec fn rewrites(&self, e: RootManifestEntry, done: nat, known: bool) -> bool {
        &&& self.wants_rewrite(e)
        &&& known || (self.max_manifests_per_commit matches Some(cap) ==> done < cap)
    }
}

/// Where the rewrite of a root's manifests stands.
pub struct RefsView {
    /// The entries of the new root so far.
    pub entries: Seq<RootManifestEntry>,
    /// The inline entries seen so far.
    pub inline: Seq<ManifestEntry>,
    /// How many rewrites were made for this commit.
    pub done: nat,
    /// The rewrites that are known, by what they are found by.
    pub known: Set<(Seq<char>, Option<Seq<u8>>)>,
}

/// What the rewrite of a root's manifests comes to once `e` is seen: `produced` gives the manifests
/// that one is rewritten to. Only a rewrite that was not made before counts.
pub open spec fn balanced_one(
    v: RefsView,
    e: RootManifestEntry,
    action: RebalanceRootManifestAction,
    produced: spec_fn(RootManifestEntry) -> Seq<ManifestFile>,
) -> RefsView {
    match e {
        RootManifestEntry::Inline(me) => RefsView { inline: v.inline.push(me), ..v },
        RootManifestEntry::ManifestRef { .. } => {
            let known = v.known.contains(ref_key(e));
            if action.rewrites(e, v.done, known) {
                RefsView {
                    entries: v.entries + refs_to(produced(e)),
                    done: if known {
                        v.done
                    } else {
                        v.done + 1
                    },
                    known: v.known.insert(ref_key(e)),
                    ..v
                }
            } else {
                RefsView { entries: v.entries.push(e), ..v }
            }
        },
    }
}

/// What the rewrite of a root's manifests comes to once all of `pending` are seen.
pub open spec fn balanced(
    v: RefsView,
    pending: Seq<RootManifestEntry>,
    action: RebalanceRootManifestAction,
    produced: spec_fn(RootManifestEntry) -> Seq<ManifestFile>,
) -> RefsView
    decreases pending.len(),
{
    if pending.len() == 0 {
        v
    } else {
        balanced(
            balanced_one(v, pending[0], action, produced),
            pending.skip(1),
            action,
            produced,
        )
    }
}

/// Whether `left` are the last entries of `all`, and no delete vector of the others fails to decode.
pub open spec fn passed_readable(all: Seq<RootManifestEntry>, left: Seq<RootManifestEntry>) -> bool {
    &&& left.len() <= all.len()
    &&& left == all.skip(all.len() - left.len())
    &&& forall|i: int|
        0 <= i < all.len() - left.len() ==> !unreadable(#[trigger] all[i])
}

/// A rewrite of a root's manifests, entry by entry.
pub struct RefRewrite {
    pending: VecDeque<RootManifestEntry>,
    entries: Vec<RootManifestEntry>,
    inline: Vec<ManifestEntry>,
    done: usize,
    total: usize,
    keys: Vec<RewriteKey>,
}

impl View for RefRewrite {
    type V = RefsView;

    closed spec fn view(&self) -> RefsView {
        RefsView {
            entries: self.entries@,
            inline: self.inline@,
            done: self.done as nat,
            known: known_rewrites(self.keys@),
        }
    }
}

/// The entries that a manifest keeps when those at the places in `deleted` go, of the first `n`.
pub open spec fn undeleted(entries: Seq<ManifestEntry>, deleted: Set<u32>, n: nat) -> Seq<ManifestEntry>
    decreases n,
{
    if n == 0 {
        Seq::empty()
    } else {
        let rest = undeleted(entries, deleted, (n - 1) as nat);
        if entries[n - 1].alive() && !deleted.contains((n - 1) as u32) {
            rest.push(restamped(entries[n - 1]))
        } else {
            rest
        }
    }
}

/// The places that a delete vector marks.
pub open spec fn marked(mdv: Option<Mdv>) -> Set<u32> {
    match mdv {
        Some(m) => match m.vector {
            Some(v) => v@,
            None => Set::empty(),
        },
        None => Set::empty(),
    }
}

/// What is said where a table lacks a partition spec.
pub open spec fn spec_not_found_message(spec_id: i32) -> Seq<char> {
    "partition spec "@ + signed_decimal(spec_id as int) + " not found"@
}

/// The error for a partition spec that a table lacks.
pub fn spec_not_found(spec_id: i32) -> (r: Error)
    ensures
        r.says(ErrorKind::DataInvalid, spec_not_found_message(spec_id)),
{
    let mut message = "partition spec ".to_owned();
    message.append(signed_decimal_of(spec_id as i64).as_str());
    message.append(" not found");
    Error::new(ErrorKind::DataInvalid, message)
}

impl RefRewrite {
    /// The entries still to be seen.
    pub closed spec fn pending(&self) -> Seq<RootManifestEntry> {
        self.pending@
    }

    /// Whether the count of rewrites is within what the entries seen allow.
    pub closed spec fn wf(&self) -> bool {
        self.done + self.pending@.len() <= self.total
    }

    /// Whether the rewrite of the next manifest was made before.
    pub open spec fn knows_next(&self) -> bool {
        self@.known.contains(ref_key(self.pending()[0]))
    }

    /// What the rewrite comes to.
    pub open spec fn outcome(
        &self,
        action: RebalanceRootManifestAction,
        produced: spec_fn(RootManifestEntry) -> Seq<ManifestFile>,
    ) -> RefsView {
        balanced(self@, self.pending(), action, produced)
    }

    /// Starts on a root with the entries `entries`, the rewrites that `keys` are of having been made
    /// before.
    pub fn new(entries: Vec<RootManifestEntry>, keys: Vec<RewriteKey>) -> (r: Self)
        ensures
            r.wf(),
            r.pending() == entries@,
            r@ == (RefsView {
                entries: Seq::empty(),
                inline: Seq::empty(),
                done: 0,
                known: known_rewrites(keys@),
            }),
    {
        let ghost all = entries@;
        let total: usize = entries.len();
        let mut pending: VecDeque<RootManifestEntry> = VecDeque::with_capacity(entries.len());
        for e in iter: entries
            invariant
                iter.seq() == all,
                pending@ == all.take(iter.index() as int),
        {
            proof {
                lemma_take_push(all, iter.index() as int);
            }
            pending.push_back(e);
        }
        assert(all.take(all.len() as int) =~= all);
        RefRewrite { pending, entries: Vec::new(), inline: Vec::new(), done: 0, total, keys }
    }

    /// Whether the rewrite of the next manifest was made before.
    pub fn next_is_known(&self) -> (r: bool)
        requires
            self.pending().len() > 0,
            self.pending()[0] is ManifestRef,
        ensures
            r == self.knows_next(),
    {
        match &self.pending[0] {
            RootManifestEntry::ManifestRef { manifest_file, mdv } => {
                let place = find_rewrite(self.keys.as_slice(), manifest_file, mdv);
                proof {
                    if let Some(i) = place {
                        assert(is_key_of(self.keys@[i as int], *manifest_file, *mdv));
                    }
                    if self.knows_next() {
                        let key = ref_key(self.pending()[0]);
                        let i = choose|i: int|
                            0 <= i < self.keys@.len() && (#[trigger] self.keys@[i]).path@ == key.0
                                && bytes_view(self.keys@[i].mdv) == key.1;
                        assert(is_key_of(self.keys@[i], *manifest_file, *mdv));
                    }
                }
                place.is_some()
            },
            RootManifestEntry::Inline(_) => false,
        }
    }

    /// Passes the entries up to a manifest that is rewritten. Fails on a delete vector that does
    /// not decode.
    pub fn advance(&mut self, action: &RebalanceRootManifestAction) -> (r: Result<bool, Error>)
        requires
            old(self).wf(),
        ensures
            final(self).wf(),
            r is Err ==> final(self).pending().len() > 0 && unreadable(final(self).pending()[0])
                && r->Err_0.says(
                ErrorKind::DataInvalid,
                "manifest delete vector does not decode: "@
                    + final(self).pending()[0]->ManifestRef_manifest_file.manifest_path@,
            ),
            passed_readable(old(self).pending(), final(self).pending()),
            r is Ok ==> r->Ok_0 == (final(self).pending().len() > 0),
            r is Ok && r->Ok_0 ==> {
                &&& final(self).pending()[0] is ManifestRef
                &&& !unreadable(final(self).pending()[0])
                &&& action.rewrites(
                    final(self).pending()[0],
                    final(self)@.done,
                    final(self).knows_next(),
                )
            },
            forall|
                produced: spec_fn(RootManifestEntry) -> Seq<ManifestFile>,
            | #[trigger]
                final(self).outcome(*action, produced) == old(self).outcome(
                    *action,
                    produced,
                ),
    {
        let ghost start = *self;
        assert(start.pending@.skip(0) =~= start.pending@);
        while self.pending.len() > 0
            invariant
                start == *old(self),
                self.wf(),
                passed_readable(start.pending(), self.pending()),
                forall|
                    produced: spec_fn(RootManifestEntry) -> Seq<ManifestFile>,
                | #[trigger]
                    self.outcome(*action, produced) == start.outcome(
                        *action,
                        produced,
                    ),
            decreases self.pending@.len(),
        {
            if let RootManifestEntry::ManifestRef { manifest_file, mdv } = &self.pending[0] {
                if let Some(m) = mdv {
                    if m.vector.is_none() {
                        let mut message = "manifest delete vector does not decode: ".to_owned();
                        message.append(manifest_file.manifest_path.as_str());
                        return Err(Error::new(ErrorKind::DataInvalid, message));
                    }
                }
                if (action.is_too_sparse(&self.pending[0]) || action.is_too_wide(&self.pending[0]))
                    && !action.entry_above_hour_filter(&self.pending[0]) {
                    let within = match action.max_manifests_per_commit {
                        Some(cap) => self.done < cap,
                        None => true,
                    };
                    if within || self.next_is_known() {
                        return Ok(true);
                    }
                }
            }
            let ghost before = *self;
            assert(before.pending@.subrange(1, before.pending@.len() as int)
                =~= before.pending@.skip(1));
            if let Some(entry) = self.pending.pop_front() {
                match entry {
                    RootManifestEntry::Inline(me) => {
                        self.inline.push(me);
                    },
                    RootManifestEntry::ManifestRef { manifest_file, mdv } => {
                        self.entries.push(RootManifestEntry::ManifestRef { manifest_file, mdv });
                    },
                }
            }
            proof {
                let n = start.pending().len() - before.pending().len();
                assert(before.pending() =~= start.pending().skip(n));
                assert(start.pending()[n] == before.pending()[0]);
                assert(self.pending() =~= start.pending().skip(n + 1));
            }
            assert forall|
                produced: spec_fn(RootManifestEntry) -> Seq<ManifestFile>,
            | #[trigger]
                self.outcome(*action, produced) == start.outcome(
                    *action,
                    produced,
                ) by {
                assert(before.outcome(*action, produced) == start.outcome(
                    *action,
                    produced,
                ));
                assert(self@ == balanced_one(
                    before@,
                    before.pending()[0],
                    *action,
                    produced,
                ));
            }
        }
        Ok(false)
    }

    /// The manifest that is rewritten next.
    pub fn next_ref(&self) -> (r: Option<(&ManifestFile, &Option<Mdv>)>)
        ensures
            match r {
                Some(next) => self.pending().len() > 0 && self.pending()[0]
                    == (RootManifestEntry::ManifestRef { manifest_file: *next.0, mdv: *next.1 }),
                None => self.pending().len() == 0 || self.pending()[0] is Inline,
            },
    {
        if self.pending.len() == 0 {
            return None;
        }
        match &self.pending[0] {
            RootManifestEntry::ManifestRef { manifest_file, mdv } => Some((manifest_file, mdv)),
            RootManifestEntry::Inline(_) => None,
        }
    }

    /// Puts the manifests `produced` in place of the next one.
    pub fn replace_next(&mut self, action: &RebalanceRootManifestAction, produced: Vec<ManifestFile>)
        requires
            old(self).wf(),
            old(self).pending().len() > 0,
            old(self).pending()[0] is ManifestRef,
            action.rewrites(old(self).pending()[0], old(self)@.done, old(self).knows_next()),
        ensures
            final(self).wf(),
            final(self).pending() == old(self).pending().skip(1),
            forall|made: spec_fn(RootManifestEntry) -> Seq<ManifestFile>|
                made(old(self).pending()[0]) == produced@ ==> final(self)@
                    == #[trigger] balanced_one(old(self)@, old(self).pending()[0], *action, made),
            forall|made: spec_fn(RootManifestEntry) -> Seq<ManifestFile>|
                made(old(self).pending()[0]) == produced@ ==> #[trigger] final(self).outcome(
                    *action,
                    made,
                ) == old(self).outcome(*action, made),
    {
        let ghost before = *self;
        let ghost e = before.pending()[0];
        let ghost given = produced@;
        assert(before.pending@.subrange(1, before.pending@.len() as int) =~= before.pending@.skip(
            1,
        ));
        let known = self.next_is_known();
        if let Some(RootManifestEntry::ManifestRef { manifest_file, mdv }) = self.pending.pop_front() {
            if !known {
                self.keys.push(key_for(&manifest_file, &mdv));
                self.done = self.done + 1;
            }
        }
        proof {
            let was = before.keys@;
            let now = self.keys@;
            if known {
                assert(before@.known.insert(ref_key(e)) =~= before@.known);
            } else {
                assert(now.drop_last() =~= was);
                assert forall|key: (Seq<char>, Option<Seq<u8>>)| #[trigger]
                    self@.known.contains(key) <==> before@.known.insert(ref_key(e)).contains(key) by {
                    if self@.known.contains(key) {
                        let i = choose|i: int|
                            0 <= i < now.len() && (#[trigger] now[i]).path@ == key.0 && bytes_view(
                                now[i].mdv,
                            ) == key.1;
                        if i < was.len() {
                            assert(was[i] == now[i]);
                        }
                    }
                    if before@.known.contains(key) {
                        let i = choose|i: int|
                            0 <= i < was.len() && (#[trigger] was[i]).path@ == key.0 && bytes_view(
                                was[i].mdv,
                            ) == key.1;
                        assert(now[i] == was[i]);
                    }
                    if key == ref_key(e) {
                        assert(is_key_of(
                            now[was.len() as int],
                            e->ManifestRef_manifest_file,
                            e->ManifestRef_mdv,
                        ));
                    }
                }
                assert(self@.known =~= before@.known.insert(ref_key(e)));
            }
        }
        push_refs(&mut self.entries, produced);
        assert forall|made: spec_fn(RootManifestEntry) -> Seq<ManifestFile>|
            made(e) == given implies self@ == #[trigger] balanced_one(before@, e, *action, made) by {
            assert(self@.entries =~= before@.entries + refs_to(made(e)));
        }
        assert forall|made: spec_fn(RootManifestEntry) -> Seq<ManifestFile>|
            made(e) == given implies #[trigger] self.outcome(*action, made) == before.outcome(
            *action,
            made,
        ) by {
            assert(self@ == balanced_one(before@, e, *action, made));
        }
    }

    /// How many inline entries were seen.
    pub fn inline_seen(&self) -> (r: usize)
        ensures
            r == self@.inline.len(),
    {
        self.inline.len()
    }

    /// The entries of the new root and the inline entries, once no entry is left to be seen.
    pub fn finish(self) -> (r: (Vec<RootManifestEntry>, Vec<ManifestEntry>))
        requires
            self.pending().len() == 0,
        ensures
            r.0@ == self@.entries,
            r.1@ == self@.inline,
    {
        (self.entries, self.inline)
    }
}

/// The entries of a manifest that survive its delete vector, carried over with their history.
pub fn rewrite_survivors(entries: &[ManifestEntry], mdv: &Option<Mdv>) -> (r: Vec<ManifestEntry>)
    requires
        entries@.len() <= 0x1_0000_0000,
    ensures
        r@ == undeleted(entries@, marked(*mdv), entries@.len()),
        r@.len() <= entries@.len(),
{
    let mut r: Vec<ManifestEntry> = Vec::new();
    let mut i: usize = 0;
    while i < entries.len()
        invariant
            i <= entries@.len() <= 0x1_0000_0000,
            r@ == undeleted(entries@, marked(*mdv), i as nat),
            r@.len() <= i,
        decreases entries@.len() - i,
    {
        let deleted = match mdv {
            Some(m) => match &m.vector {
                Some(v) => v.is_deleted(i as u32),
                None => false,
            },
            None => false,
        };
        if entries[i].is_alive() && !deleted {
            r.push(build_existing_entry(entries[i].clone()));
        }
        i = i + 1;
    }
    r
}

impl RebalanceRootManifestAction {
    /// The manifests that one with the entries `entries` is rewritten to: one for each partition
    /// where they are partition-scoped, and otherwise one, though nothing may be left for it.
    /// Fails where the table lacks the manifest's partition spec.
    pub fn rewrite_writes(
        &self,
        table: &TableMetadata,
        mf: &ManifestFile,
        mdv: &Option<Mdv>,
        entries: &[ManifestEntry],
        counter: &mut u64,
    ) -> (r: Result<Vec<ManifestWrite>, Error>)
        requires
            entries@.len() <= 0x1_0000_0000,
            *old(counter) + entries@.len() + 1 <= u64::MAX,
        ensures
            r is Err <==> table.spec_by_id(mf.partition_spec_id) is None,
            r is Err ==> r->Err_0.says(
                ErrorKind::DataInvalid,
                spec_not_found_message(mf.partition_spec_id),
            ) && *final(counter) == *old(counter),
            r is Ok ==> {
                let setting = WriteSetting {
                    location: table.location@,
                    commit_id: self.commit_id,
                    version: table.format_version,
                };
                let left = undeleted(entries@, marked(*mdv), entries@.len());
                let is_delete = mf.content == ManifestContentType::Deletes;
                let first = *old(counter) as int;
                &&& *final(counter) == *old(counter) + r->Ok_0@.len()
                &&& if self.partition_scoped {
                    writes_entries(
                        r->Ok_0@,
                        setting,
                        first,
                        mf.partition_spec_id,
                        is_delete,
                        left,
                        true,
                    )
                } else {
                    r->Ok_0@.len() == 1 && writes(
                        r->Ok_0@[0],
                        setting,
                        first,
                        mf.partition_spec_id,
                        is_delete,
                        left,
                    )
                }
            },
    {
        if table.partition_spec_by_id(mf.partition_spec_id).is_none() {
            return Err(spec_not_found(mf.partition_spec_id));
        }
        let left = rewrite_survivors(entries, mdv);
        let is_delete = mf.content == ManifestContentType::Deletes;
        if self.partition_scoped {
            return Ok(
                write_entries_clustered(
                    table.location.as_str(),
                    self.commit_id,
                    table.format_version,
                    counter,
                    mf.partition_spec_id,
                    is_delete,
                    left,
                    true,
                ),
            );
        }
        let path = manifest_path_of(
            table.location.as_str(),
            self.commit_id,
            *counter,
            "parquet",
        );
        let mut ws: Vec<ManifestWrite> = Vec::new();
        ws.push(
            ManifestWrite {
                path,
                spec_id: mf.partition_spec_id,
                kind: writer_kind(table.format_version, is_delete),
                entries: left,
            },
        );
        *counter = *counter + 1;
        Ok(ws)
    }
}

/// Whether an entry is of a delete file.
pub open spec fn of_deletes(e: ManifestEntry) -> bool {
    e.data_file.content != DataContentType::Data
}

/// The entries of `entries` of one content and spec, in their order.
pub open spec fn of_group(entries: Seq<ManifestEntry>, is_delete: bool, spec_id: i32) -> Seq<
    ManifestEntry,
> {
    entries.filter(
        |e: ManifestEntry| of_deletes(e) == is_delete && e.data_file.partition_spec_id == spec_id,
    )
}

/// Inline entries of one content and spec.
pub struct FlushGroup {
    pub is_delete: bool,
    pub spec_id: i32,
    pub entries: Vec<ManifestEntry>,
}

/// Whether `groups` are the entries of `entries` by content and spec: each group holds all of its
/// kind in their order, no two are of one kind, and every entry has its group.
pub open spec fn is_grouping(groups: Seq<FlushGroup>, entries: Seq<ManifestEntry>) -> bool {
    &&& forall|g: int|
        0 <= g < groups.len() ==> (#[trigger] groups[g]).entries@.len() > 0 && groups[g].entries@
            == of_group(entries, groups[g].is_delete, groups[g].spec_id)
    &&& forall|g: int, h: int|
        0 <= g < h < groups.len() ==> !((#[trigger] groups[g]).is_delete == (
        #[trigger] groups[h]).is_delete && groups[g].spec_id == groups[h].spec_id)
    &&& forall|i: int|
        0 <= i < entries.len() ==> exists|g: int|
            0 <= g < groups.len() && (#[trigger] groups[g]).is_delete == of_deletes(
                #[trigger] entries[i],
            ) && groups[g].spec_id == entries[i].data_file.partition_spec_id
}

/// The entries that are flushed, or those that are not: entries of an hour that is left alone stay
/// inline.
pub open spec fn flushed(
    inline: Seq<ManifestEntry>,
    action: RebalanceRootManifestAction,
    hot: bool,
) -> Seq<ManifestEntry> {
    inline.filter(|e: ManifestEntry| action.hot(RootManifestEntry::Inline(e)) == hot)
}

/// `inline` as entries of a root.
pub open spec fn inline_entries(inline: Seq<ManifestEntry>) -> Seq<RootManifestEntry> {
    inline.map_values(|e: ManifestEntry| RootManifestEntry::Inline(e))
}

/// The entries `entries`, carried over with their history.
pub open spec fn restamped_all(entries: Seq<ManifestEntry>) -> Seq<ManifestEntry> {
    entries.map_values(|e: ManifestEntry| restamped(e))
}

/// The manifests of a group.
pub struct GroupWrites {
    pub is_delete: bool,
    pub spec_id: i32,
    pub writes: Vec<ManifestWrite>,
}

/// What a flush writes, and what it leaves inline.
pub struct Flush {
    pub groups: Vec<GroupWrites>,
    pub carried: Vec<RootManifestEntry>,
}

proof fn lemma_of_group_push(entries: Seq<ManifestEntry>, e: ManifestEntry, is_delete: bool, spec_id: i32)
    ensures
        of_group(entries.push(e), is_delete, spec_id) == if of_deletes(e) == is_delete
            && e.data_file.partition_spec_id == spec_id {
            of_group(entries, is_delete, spec_id).push(e)
        } else {
            of_group(entries, is_delete, spec_id)
        },
{
    let keep = |e: ManifestEntry|
        of_deletes(e) == is_delete && e.data_file.partition_spec_id == spec_id;
    lemma_filter_push(entries, e, keep);
}

proof fn lemma_of_group_empty(entries: Seq<ManifestEntry>, is_delete: bool, spec_id: i32)
    requires
        forall|i: int|
            0 <= i < entries.len() ==> !(of_deletes(#[trigger] entries[i]) == is_delete
                && entries[i].data_file.partition_spec_id == spec_id),
    ensures
        of_group(entries, is_delete, spec_id).len() == 0,
    decreases entries.len(),
{
    reveal(Seq::filter);
    if entries.len() > 0 {
        let rest = entries.drop_last();
        assert forall|i: int| 0 <= i < rest.len() implies !(of_deletes(#[trigger] rest[i])
            == is_delete && rest[i].data_file.partition_spec_id == spec_id) by {
            assert(rest[i] == entries[i]);
        }
        lemma_of_group_empty(rest, is_delete, spec_id);
        assert(entries[entries.len() - 1] == entries.last());
    }
}

/// How many entries the groups `groups` hold together.
pub open spec fn group_total(groups: Seq<FlushGroup>) -> nat
    decreases groups.len(),
{
    if groups.len() == 0 {
        0
    } else {
        group_total(groups.drop_last()) + groups.last().entries@.len()
    }
}

proof fn lemma_group_total_update(before: Seq<FlushGroup>, after: Seq<FlushGroup>, g: int)
    requires
        0 <= g < before.len(),
        after.len() == before.len(),
        forall|k: int| 0 <= k < after.len() && k != g ==> after[k] == before[k],
        after[g].entries@.len() == before[g].entries@.len() + 1,
    ensures
        group_total(after) == group_total(before) + 1,
    decreases before.len(),
{
    if g == before.len() - 1 {
        assert(after.drop_last() =~= before.drop_last());
    } else {
        assert(after.last() == before.last());
        lemma_group_total_update(before.drop_last(), after.drop_last(), g);
    }
}

fn add_to_groups(groups: &mut Vec<FlushGroup>, e: ManifestEntry, Ghost(done): Ghost<Seq<ManifestEntry>>)
    requires
        is_grouping(old(groups)@, done),
        group_total(old(groups)@) == done.len(),
    ensures
        is_grouping(final(groups)@, done.push(e)),
        group_total(final(groups)@) == done.len() + 1,
{
    let is_delete = e.data_file.content != DataContentType::Data;
    let spec_id: i32 = e.data_file.partition_spec_id;
    let ghost before = groups@;
    let ghost added = e;
    let ghost more = done.push(e);
    let mut g: usize = 0;
    while g < groups.len()
        invariant
            g <= groups@.len(),
            groups@ == before,
            is_grouping(before, done),
            group_total(before) == done.len(),
            added == e,
            more == done.push(added),
            is_delete == of_deletes(added),
            spec_id == added.data_file.partition_spec_id,
            forall|k: int|
                0 <= k < g ==> !((#[trigger] before[k]).is_delete == is_delete && before[k].spec_id
                    == spec_id),
        decreases groups@.len() - g,
    {
        if groups[g].is_delete == is_delete && groups[g].spec_id == spec_id {
            groups[g].entries.push(e);
            proof {
                let after = groups@;
                assert(after.len() == before.len());
                lemma_group_total_update(before, after, g as int);
                assert(forall|k: int|
                    0 <= k < after.len() ==> (#[trigger] after[k]).is_delete == before[k].is_delete
                        && after[k].spec_id == before[k].spec_id);
                assert forall|k: int| 0 <= k < after.len() implies (#[trigger] after[k]).entries@.len()
                    > 0 && after[k].entries@ == of_group(more, after[k].is_delete, after[k].spec_id) by {
                    lemma_of_group_push(done, added, before[k].is_delete, before[k].spec_id);
                    if k != g {
                        assert(after[k] == before[k]);
                        if k < g {
                            assert(!(before[k].is_delete == is_delete && before[k].spec_id == spec_id));
                        } else {
                            assert(!(before[g as int].is_delete == before[k].is_delete
                                && before[g as int].spec_id == before[k].spec_id));
                        }
                    } else {
                        assert(after[k].entries@ == before[k].entries@.push(added));
                    }
                }
                assert forall|a: int, b: int| 0 <= a < b < after.len() implies !((
                #[trigger] after[a]).is_delete == (#[trigger] after[b]).is_delete
                    && after[a].spec_id == after[b].spec_id) by {
                    assert(!(before[a].is_delete == before[b].is_delete && before[a].spec_id
                        == before[b].spec_id));
                }
                assert forall|i: int| 0 <= i < more.len() implies exists|k: int|
                    0 <= k < after.len() && (#[trigger] after[k]).is_delete == of_deletes(
                        #[trigger] more[i],
                    ) && after[k].spec_id == more[i].data_file.partition_spec_id by {
                    if i < done.len() {
                        assert(more[i] == done[i]);
                        let k = choose|k: int|
                            0 <= k < before.len() && (#[trigger] before[k]).is_delete == of_deletes(
                                done[i],
                            ) && before[k].spec_id == done[i].data_file.partition_spec_id;
                        assert(after[k].is_delete == before[k].is_delete);
                    } else {
                        assert(after[g as int].is_delete == is_delete);
                    }
                }
            }
            return;
        }
        g = g + 1;
    }
    let mut entries: Vec<ManifestEntry> = Vec::new();
    entries.push(e);
    groups.push(FlushGroup { is_delete, spec_id, entries });
    proof {
        let after = groups@;
        assert(after.drop_last() =~= before);
        assert forall|i: int| 0 <= i < done.len() implies !(of_deletes(#[trigger] done[i])
            == is_delete && done[i].data_file.partition_spec_id == spec_id) by {
            let k = choose|k: int|
                0 <= k < before.len() && (#[trigger] before[k]).is_delete == of_deletes(done[i])
                    && before[k].spec_id == done[i].data_file.partition_spec_id;
            assert(!(before[k].is_delete == is_delete && before[k].spec_id == spec_id));
        }
        lemma_of_group_empty(done, is_delete, spec_id);
        lemma_of_group_push(done, added, is_delete, spec_id);
        assert forall|k: int| 0 <= k < after.len() implies (#[trigger] after[k]).entries@.len() > 0
            && after[k].entries@ == of_group(more, after[k].is_delete, after[k].spec_id) by {
            if k < before.len() {
                assert(after[k] == before[k]);
                lemma_of_group_push(done, added, before[k].is_delete, before[k].spec_id);
                assert(!(before[k].is_delete == is_delete && before[k].spec_id == spec_id));
            } else {
                assert(after[k].entries@ =~= of_group(done, is_delete, spec_id).push(added));
            }
        }
        assert forall|a: int, b: int| 0 <= a < b < after.len() implies !((
        #[trigger] after[a]).is_delete == (#[trigger] after[b]).is_delete && after[a].spec_id
            == after[b].spec_id) by {
            assert(after[a] == before[a]);
            if b < before.len() {
                assert(after[b] == before[b]);
            } else {
                assert(!(before[a].is_delete == is_delete && before[a].spec_id == spec_id));
            }
        }
        assert forall|i: int| 0 <= i < more.len() implies exists|k: int|
            0 <= k < after.len() && (#[trigger] after[k]).is_delete == of_deletes(
                #[trigger] more[i],
            ) && after[k].spec_id == more[i].data_file.partition_spec_id by {
            if i < done.len() {
                assert(more[i] == done[i]);
                let k = choose|k: int|
                    0 <= k < before.len() && (#[trigger] before[k]).is_delete == of_deletes(done[i])
                        && before[k].spec_id == done[i].data_file.partition_spec_id;
                assert(after[k] == before[k]);
            } else {
                assert(after[before.len() as int].is_delete == is_delete);
            }
        }
    }
}

/// How many manifests stand ahead of the group `g`.
pub open spec fn writes_ahead(ws: Seq<GroupWrites>, g: int) -> nat
    decreases g,
{
    if g <= 0 {
        0
    } else {
        writes_ahead(ws, g - 1) + ws[g - 1].writes@.len()
    }
}

/// Whether `ws` write `groups`, numbered on from `first`, with the history of their entries.
pub open spec fn writes_groups(
    ws: Seq<GroupWrites>,
    groups: Seq<FlushGroup>,
    setting: WriteSetting,
    first: int,
    partition_scoped: bool,
) -> bool {
    &&& ws.len() == groups.len()
    &&& forall|g: int|
        0 <= g < ws.len() ==> (#[trigger] ws[g]).is_delete == groups[g].is_delete && ws[g].spec_id
            == groups[g].spec_id && writes_entries(
            ws[g].writes@,
            setting,
            first + writes_ahead(ws, g),
            groups[g].spec_id,
            groups[g].is_delete,
            restamped_all(groups[g].entries@),
            partition_scoped,
        )
}

proof fn lemma_writes_ahead_prefix(ws: Seq<GroupWrites>, x: GroupWrites, g: int)
    requires
        0 <= g <= ws.len(),
    ensures
        writes_ahead(ws.push(x), g) == writes_ahead(ws, g),
    decreases g,
{
    if g > 0 {
        lemma_writes_ahead_prefix(ws, x, g - 1);
        assert(ws.push(x)[g - 1] == ws[g - 1]);
    }
}

proof fn lemma_group_total_grows(groups: Seq<FlushGroup>, n: int)
    requires
        0 <= n <= groups.len(),
    ensures
        group_total(groups.take(n)) <= group_total(groups),
    decreases groups.len(),
{
    if n < groups.len() {
        lemma_group_total_grows(groups.drop_last(), n);
        assert(groups.drop_last().take(n) =~= groups.take(n));
    } else {
        assert(groups.take(n) =~= groups);
    }
}

pub(crate) fn restamp_all(entries: Vec<ManifestEntry>) -> (r: Vec<ManifestEntry>)
    ensures
        r@ == restamped_all(entries@),
{
    let ghost all = entries@;
    let mut r: Vec<ManifestEntry> = Vec::with_capacity(entries.len());
    for e in iter: entries
        invariant
            iter.seq() == all,
            r@ == restamped_all(all).take(iter.index() as int),
    {
        proof {
            lemma_take_push(restamped_all(all), iter.index() as int);
        }
        r.push(build_existing_entry(e));
    }
    assert(restamped_all(all).take(all.len() as int) =~= restamped_all(all));
    r
}

proof fn lemma_group_has_entry(groups: Seq<FlushGroup>, entries: Seq<ManifestEntry>, g: int)
    requires
        is_grouping(groups, entries),
        0 <= g < groups.len(),
    ensures
        exists|i: int|
            0 <= i < entries.len() && (#[trigger] entries[i]).data_file.partition_spec_id
                == groups[g].spec_id,
{
    let group = groups[g];
    let keep = |e: ManifestEntry|
        of_deletes(e) == group.is_delete && e.data_file.partition_spec_id == group.spec_id;
    assert(group.entries@ == entries.filter(keep));
    entries.lemma_filter_pred(keep, 0);
    crate::seqs::lemma_filter_from(entries, keep, 0);
    let i = choose|i: int| 0 <= i < entries.len() && entries[i] == group.entries@[0];
    assert(entries[i].data_file.partition_spec_id == group.spec_id);
}

impl RebalanceRootManifestAction {
    /// What a flush of the inline entries `inline` writes: all but those of an hour that is left
    /// alone, by content and spec, and then one manifest for each partition where they are
    /// partition-scoped. Without a flush all stay inline. Fails where the table lacks the
    /// partition spec of an entry to be flushed.
    pub fn flush(
        &self,
        table: &TableMetadata,
        inline: Vec<ManifestEntry>,
        needs_flush: bool,
        counter: &mut u64,
    ) -> (r: Result<Flush, Error>)
        requires
            *old(counter) + inline@.len() <= u64::MAX,
        ensures
            !needs_flush ==> {
                &&& r is Ok
                &&& r->Ok_0.groups@.len() == 0
                &&& r->Ok_0.carried@ == inline_entries(inline@)
                &&& *final(counter) == *old(counter)
            },
            needs_flush ==> {
                let out = flushed(inline@, *self, false);
                &&& r is Err <==> exists|i: int|
                    0 <= i < out.len() && table.spec_by_id(
                        (#[trigger] out[i]).data_file.partition_spec_id,
                    ) is None
                &&& r is Err ==> exists|i: int|
                    0 <= i < out.len() && table.spec_by_id(
                        (#[trigger] out[i]).data_file.partition_spec_id,
                    ) is None && r->Err_0.says(
                        ErrorKind::DataInvalid,
                        spec_not_found_message(out[i].data_file.partition_spec_id),
                    )
                &&& r is Ok ==> r->Ok_0.carried@ == inline_entries(flushed(inline@, *self, true))
                &&& r is Ok ==> exists|groups: Seq<FlushGroup>| #[trigger]
                    is_grouping(groups, out) && writes_groups(
                        r->Ok_0.groups@,
                        groups,
                        (WriteSetting {
                            location: table.location@,
                            commit_id: self.commit_id,
                            version: table.format_version,
                        }),
                        *old(counter) as int,
                        self.partition_scoped,
                    )
                &&& r is Ok ==> *final(counter) == *old(counter) + writes_ahead(
                    r->Ok_0.groups@,
                    r->Ok_0.groups@.len() as int,
                )
            },
    {
        let ghost all = inline@;
        let ghost goes = |e: ManifestEntry| self.hot(RootManifestEntry::Inline(e)) == false;
        let ghost stays = |e: ManifestEntry| self.hot(RootManifestEntry::Inline(e)) == true;
        let ghost first = *counter as int;
        let mut groups: Vec<FlushGroup> = Vec::new();
        let mut carried: Vec<RootManifestEntry> = Vec::new();
        assert(inline_entries(all.take(0)) =~= Seq::<RootManifestEntry>::empty());
        assert(all.take(0) =~= Seq::<ManifestEntry>::empty());
        assert(inline_entries(Seq::<ManifestEntry>::empty()) =~= Seq::<RootManifestEntry>::empty());
        for e in iter: inline
            invariant
                iter.seq() == all,
                goes == (|e: ManifestEntry| self.hot(RootManifestEntry::Inline(e)) == false),
                stays == (|e: ManifestEntry| self.hot(RootManifestEntry::Inline(e)) == true),
                needs_flush ==> is_grouping(
                    groups@,
                    all.take(iter.index() as int).filter(goes),
                ),
                needs_flush ==> group_total(groups@) == all.take(iter.index() as int).filter(
                    goes,
                ).len(),
                needs_flush ==> carried@ == inline_entries(
                    all.take(iter.index() as int).filter(stays),
                ),
                !needs_flush ==> groups@.len() == 0 && carried@ == inline_entries(
                    all.take(iter.index() as int),
                ),
        {
            let ghost head = all.take(iter.index() as int);
            proof {
                lemma_take_push(all, iter.index() as int);
                lemma_filter_push(head, e, goes);
                lemma_filter_push(head, e, stays);
                assert(inline_entries(head.push(e)) =~= inline_entries(head).push(
                    RootManifestEntry::Inline(e),
                ));
                assert(inline_entries(head.filter(stays).push(e)) =~= inline_entries(
                    head.filter(stays),
                ).push(RootManifestEntry::Inline(e)));
            }
            let hot = match self.hour_filter {
                None => false,
                Some(filter) => match RebalanceRootManifestAction::inline_summary_hour(
                    &e,
                    filter.field,
                ) {
                    Some(h) => h > filter.max_hour,
                    None => false,
                },
            };
            if needs_flush && !hot {
                add_to_groups(&mut groups, e, Ghost(head.filter(goes)));
            } else {
                carried.push(RootManifestEntry::Inline(e));
            }
        }
        assert(all.take(all.len() as int) =~= all);
        if !needs_flush {
            return Ok(Flush { groups: Vec::new(), carried });
        }
        let ghost out = flushed(all, *self, false);
        let ghost given = groups@;
        let ghost setting = WriteSetting {
            location: table.location@,
            commit_id: self.commit_id,
            version: table.format_version,
        };
        proof {
            all.lemma_filter_len(goes);
        }
        let mut ws: Vec<GroupWrites> = Vec::with_capacity(groups.len());
        for group in iter: groups
            invariant
                iter.seq() == given,
                needs_flush,
                out == flushed(inline@, *self, false),
                is_grouping(given, out),
                group_total(given) == out.len(),
                out.len() <= all.len(),
                first + all.len() <= u64::MAX,
                setting == (WriteSetting {
                    location: table.location@,
                    commit_id: self.commit_id,
                    version: table.format_version,
                }),
                ws@.len() == iter.index(),
                writes_groups(
                    ws@,
                    given.take(iter.index() as int),
                    setting,
                    first,
                    self.partition_scoped,
                ),
                *counter == first + writes_ahead(ws@, iter.index() as int),
                writes_ahead(ws@, iter.index() as int) <= group_total(
                    given.take(iter.index() as int),
                ),
                forall|g: int|
                    0 <= g < iter.index() ==> table.spec_by_id(
                        (#[trigger] given[g]).spec_id,
                    ) is Some,
        {
            let ghost n = iter.index() as int;
            let ghost before = ws@;
            let ghost listed = group.entries@;
            proof {
                lemma_take_push(given, n);
                lemma_group_total_grows(given, n + 1);
                assert(given.take(n + 1).drop_last() =~= given.take(n));
            }
            if table.partition_spec_by_id(group.spec_id).is_none() {
                proof {
                    lemma_group_has_entry(given, out, n);
                }
                return Err(spec_not_found(group.spec_id));
            }
            let is_delete = group.is_delete;
            let spec_id: i32 = group.spec_id;
            let entries = restamp_all(group.entries);
            let writes = write_entries_clustered(
                table.location.as_str(),
                self.commit_id,
                table.format_version,
                counter,
                spec_id,
                is_delete,
                entries,
                self.partition_scoped,
            );
            ws.push(GroupWrites { is_delete, spec_id, writes });
            proof {
                let after = ws@;
                assert(after[n] == ws@.last());
                lemma_writes_ahead_prefix(before, after[n], n);
                assert(before.push(after[n]) =~= after);
                assert forall|g: int| 0 <= g < after.len() implies (#[trigger] after[g]).is_delete
                    == given.take(n + 1)[g].is_delete && after[g].spec_id == given.take(
                    n + 1,
                )[g].spec_id && writes_entries(
                    after[g].writes@,
                    setting,
                    first + writes_ahead(after, g),
                    given.take(n + 1)[g].spec_id,
                    given.take(n + 1)[g].is_delete,
                    restamped_all(given.take(n + 1)[g].entries@),
                    self.partition_scoped,
                ) by {
                    lemma_writes_ahead_prefix(before, after[n], g);
                    if g < n {
                        assert(after[g] == before[g]);
                        assert(given.take(n + 1)[g] == given.take(n)[g]);
                    } else {
                        assert(given.take(n + 1)[g] == given[n]);
                    }
                }
            }
        }
        proof {
            assert(given.take(given.len() as int) =~= given);
            assert forall|i: int| 0 <= i < out.len() implies table.spec_by_id(
                (#[trigger] out[i]).data_file.partition_spec_id,
            ) is Some by {
                let g = choose|g: int|
                    0 <= g < given.len() && (#[trigger] given[g]).is_delete == of_deletes(out[i])
                        && given[g].spec_id == out[i].data_file.partition_spec_id;
                assert(table.spec_by_id(given[g].spec_id) is Some);
            }
            assert(is_grouping(given, out));
        }
        Ok(Flush { groups: ws, carried })
    }

    /// Whether `rc` commits a rebalance that flushed `inline_flushed` entries, leaves `entries`
    /// in the root and `removed` of its tombstones. The new root stands alone and names the bucket
    /// index of the old one.
    pub open spec fn commits(
        &self,
        rc: RootCommit,
        table: TableMetadata,
        bucket_index: Option<Seq<char>>,
        removed: Seq<Seq<char>>,
        inline_flushed: nat,
        entries: Seq<RootManifestEntry>,
        snapshot_id: i64,
        timestamp_ms: i64,
    ) -> bool {
        &&& rc.entries@ == entries
        &&& rc.root_path@ == root_path(table.location@, snapshot_id, self.commit_id)
        &&& describes(rc.root_metadata, table, snapshot_id, bucket_index, None, 0, removed)
        &&& replaces(
            rc.commit.updates(),
            rc.commit.requirements(),
            table,
            snapshot_id,
            rc.root_path@,
            rebalance_summary(inline_flushed, entries.len()),
            timestamp_ms,
            no_rows(table),
        )
        &&& texts(rc.commit.manifest_paths()) == seq![rc.root_path@]
        &&& rc.commit.root_entries() is None
    }

    /// The root and the commit of a rebalance at the time `timestamp_ms`.
    pub fn commit_at(
        &self,
        table: &TableMetadata,
        root_metadata: &RootManifestMetadata,
        removed_paths: Vec<String>,
        inline_flushed: usize,
        entries: Vec<RootManifestEntry>,
        snapshot_id: i64,
        timestamp_ms: i64,
    ) -> (r: RootCommit)
        requires
            table.has_next_sequence_number(),
        ensures
            self.commits(
                r,
                *table,
                crate::table::text_view(root_metadata.bucket_index_path),
                texts(removed_paths@),
                inline_flushed as nat,
                entries@,
                snapshot_id,
                timestamp_ms,
            ),
    {
        let new_metadata = describe_root(
            table,
            snapshot_id,
            copy_text(&root_metadata.bucket_index_path),
            None,
            0,
            removed_paths,
        );
        let root = root_path_of(table.location.as_str(), snapshot_id, self.commit_id);
        let mut summary = Properties::new();
        summary.insert("rebalance-inline-flushed".to_owned(), decimal_of(inline_flushed as u64));
        summary.insert("rebalance-entries-after".to_owned(), decimal_of(entries.len() as u64));
        let commit = replace_commit(
            table,
            snapshot_id,
            root.clone(),
            summary,
            timestamp_ms,
            Some(RowRange { first_row_id: table.next_row_id, added_rows: 0 }),
        );
        let mut paths: Vec<String> = Vec::new();
        paths.push(root.clone());
        assert(texts(paths@) =~= seq![root@]);
        RootCommit {
            root_path: root,
            root_metadata: new_metadata,
            entries: Arc::new(entries),
            commit: commit.with_manifest_paths(paths),
        }
    }

    /// The root and the commit of a rebalance, now.
    pub fn commit(
        &self,
        table: &TableMetadata,
        root_metadata: &RootManifestMetadata,
        removed_paths: Vec<String>,
        inline_flushed: usize,
        entries: Vec<RootManifestEntry>,
        snapshot_id: i64,
    ) -> (r: RootCommit)
        requires
            table.has_next_sequence_number(),
        ensures
            exists|timestamp_ms: i64| #[trigger]
                self.commits(
                    r,
                    *table,
                    crate::table::text_view(root_metadata.bucket_index_path),
                    texts(removed_paths@),
                    inline_flushed as nat,
                    entries@,
                    snapshot_id,
                    timestamp_ms,
                ),
    {
        let timestamp_ms: i64 = now_millis();
        self.commit_at(
            table,
            root_metadata,
            removed_paths,
            inline_flushed,
            entries,
            snapshot_id,
            timestamp_ms,
        )
    }
}

/// The summary of a rebalance's snapshot.
pub open spec fn rebalance_summary(inline_flushed: nat, entries: nat) -> Map<Seq<char>, Seq<char>> {
    Map::empty().insert("rebalance-inline-flushed"@, decimal(inline_flushed)).insert(
        "rebalance-entries-after"@,
        decimal(entries),
    )
}

/// A flush loses no inline entry: each is carried over inline, or stands in the group of its
/// content and spec.
pub proof fn law_flush_loses_no_entry(
    action: RebalanceRootManifestAction,
    inline: Seq<ManifestEntry>,
    groups: Seq<FlushGroup>,
    i: int,
)
    requires
        is_grouping(groups, flushed(inline, action, false)),
        0 <= i < inline.len(),
    ensures
        flushed(inline, action, true).contains(inline[i]) || exists|g: int|
            0 <= g < groups.len() && (#[trigger] groups[g]).entries@.contains(inline[i]),
{
    let stays = |e: ManifestEntry| action.hot(RootManifestEntry::Inline(e)) == true;
    let goes = |e: ManifestEntry| action.hot(RootManifestEntry::Inline(e)) == false;
    if action.hot(RootManifestEntry::Inline(inline[i])) {
        inline.lemma_filter_contains(stays, i);
    } else {
        inline.lemma_filter_contains(goes, i);
        let out = flushed(inline, action, false);
        let k = choose|k: int| 0 <= k < out.len() && out[k] == inline[i];
        let g = choose|g: int|
            0 <= g < groups.len() && (#[trigger] groups[g]).is_delete == of_deletes(out[k])
                && groups[g].spec_id == out[k].data_file.partition_spec_id;
        let keep = |e: ManifestEntry|
            of_deletes(e) == groups[g].is_delete && e.data_file.partition_spec_id
                == groups[g].spec_id;
        out.lemma_filter_contains(keep, k);
        assert(groups[g].entries@.contains(inline[i]));
    }
}

/// An entry of an hour that is left alone comes out of a rebalance as it went in.
pub proof fn law_hot_entries_are_left_alone(
    v: RefsView,
    e: RootManifestEntry,
    action: RebalanceRootManifestAction,
    produced: spec_fn(RootManifestEntry) -> Seq<ManifestFile>,
)
    requires
        action.hot(e),
    ensures
        match e {
            RootManifestEntry::ManifestRef { .. } => balanced_one(
                v,
                e,
                action,
                produced,
            ).entries == v.entries.push(e),
            RootManifestEntry::Inline(me) => flushed(seq![me], action, false).len() == 0,
        },
{
    if let RootManifestEntry::Inline(me) = e {
        let goes = |e: ManifestEntry| action.hot(RootManifestEntry::Inline(e)) == false;
        lemma_filter_push(Seq::<ManifestEntry>::empty(), me, goes);
        assert(Seq::<ManifestEntry>::empty().push(me) =~= seq![me]);
        reveal(Seq::filter);
    }
}

/// How many manifests of `pending` are replaced by their rewrites.
pub open spec fn rewrite_count(
    v: RefsView,
    pending: Seq<RootManifestEntry>,
    action: RebalanceRootManifestAction,
    produced: spec_fn(RootManifestEntry) -> Seq<ManifestFile>,
) -> nat
    decreases pending.len(),
{
    if pending.len() == 0 {
        0
    } else {
        rewrite_count(
            balanced_one(v, pending[0], action, produced),
            pending.skip(1),
            action,
            produced,
        ) + (if pending[0] is ManifestRef && action.rewrites(
            pending[0],
            v.done,
            v.known.contains(ref_key(pending[0])),
        ) {
            1nat
        } else {
            0
        })
    }
}

/// One commit makes no more rewrites than its bound: those that were made before do not count.
pub proof fn law_cap_bounds_rewrites(
    v: RefsView,
    pending: Seq<RootManifestEntry>,
    action: RebalanceRootManifestAction,
    produced: spec_fn(RootManifestEntry) -> Seq<ManifestFile>,
    cap: usize,
)
    requires
        action.max_manifests_per_commit == Some(cap),
        v.done <= cap,
    ensures
        balanced(v, pending, action, produced).done <= cap,
    decreases pending.len(),
{
    if pending.len() > 0 {
        law_cap_bounds_rewrites(
            balanced_one(v, pending[0], action, produced),
            pending.skip(1),
            action,
            produced,
            cap,
        );
    }
}

proof fn lemma_done_grows(
    v: RefsView,
    pending: Seq<RootManifestEntry>,
    action: RebalanceRootManifestAction,
    produced: spec_fn(RootManifestEntry) -> Seq<ManifestFile>,
)
    ensures
        v.done <= balanced(v, pending, action, produced).done,
    decreases pending.len(),
{
    if pending.len() > 0 {
        lemma_done_grows(
            balanced_one(v, pending[0], action, produced),
            pending.skip(1),
            action,
            produced,
        );
    }
}

/// One commit after the other drains the rewrites, each as many as its bound: a manifest that is to
/// be rewritten is, unless as many rewrites as the bound allows were made for this commit.
pub proof fn law_bound_is_used_up(
    v: RefsView,
    pending: Seq<RootManifestEntry>,
    action: RebalanceRootManifestAction,
    produced: spec_fn(RootManifestEntry) -> Seq<ManifestFile>,
    i: int,
)
    requires
        0 <= i < pending.len(),
        pending[i] is ManifestRef,
        action.wants_rewrite(pending[i]),
    ensures
        ({
            let after = balanced(v, pending, action, produced);
            after.known.contains(ref_key(pending[i])) || (action.max_manifests_per_commit matches Some(
                cap,
            ) && after.done >= cap)
        }),
    decreases pending.len(),
{
    let next = balanced_one(v, pending[0], action, produced);
    let rest = pending.skip(1);
    if i > 0 {
        assert(rest[i - 1] == pending[i]);
        law_bound_is_used_up(next, rest, action, produced, i - 1);
    } else if next.known.contains(ref_key(pending[0])) {
        law_only_unknown_rewrites_are_made(next, rest, action, produced);
    } else {
        lemma_done_grows(next, rest, action, produced);
    }
}

/// A rewrite that was made before is used again, however many were made for this commit.
pub proof fn law_known_rewrites_are_used(
    v: RefsView,
    e: RootManifestEntry,
    action: RebalanceRootManifestAction,
    produced: spec_fn(RootManifestEntry) -> Seq<ManifestFile>,
)
    requires
        e is ManifestRef,
        action.wants_rewrite(e),
        v.known.contains(ref_key(e)),
    ensures
        balanced_one(v, e, action, produced).entries == v.entries + refs_to(produced(e)),
        balanced_one(v, e, action, produced).done == v.done,
{
}

/// What the rewrites that a run over `pending` makes anew are of.
pub open spec fn made_anew(
    v: RefsView,
    pending: Seq<RootManifestEntry>,
    action: RebalanceRootManifestAction,
    produced: spec_fn(RootManifestEntry) -> Seq<ManifestFile>,
) -> Seq<(Seq<char>, Option<Seq<u8>>)>
    decreases pending.len(),
{
    if pending.len() == 0 {
        Seq::empty()
    } else {
        let e = pending[0];
        let rest = made_anew(
            balanced_one(v, e, action, produced),
            pending.skip(1),
            action,
            produced,
        );
        if e is ManifestRef && action.rewrites(e, v.done, false) && !v.known.contains(ref_key(e)) {
            seq![ref_key(e)] + rest
        } else {
            rest
        }
    }
}

/// A run makes no rewrite that is known: what it makes anew was not known before and is known
/// behind it, nothing is made twice, and just what is made counts towards the bound.
pub proof fn law_only_unknown_rewrites_are_made(
    v: RefsView,
    pending: Seq<RootManifestEntry>,
    action: RebalanceRootManifestAction,
    produced: spec_fn(RootManifestEntry) -> Seq<ManifestFile>,
)
    ensures
        ({
            let made = made_anew(v, pending, action, produced);
            let after = balanced(v, pending, action, produced);
            &&& forall|k: int| 0 <= k < made.len() ==> !v.known.contains(#[trigger] made[k])
            &&& made.no_duplicates()
            &&& after.done == v.done + made.len()
            &&& forall|key: (Seq<char>, Option<Seq<u8>>)| #[trigger]
                after.known.contains(key) <==> v.known.contains(key) || made.contains(key)
        }),
    decreases pending.len(),
{
    if pending.len() > 0 {
        let e = pending[0];
        let next = balanced_one(v, e, action, produced);
        let rest = made_anew(next, pending.skip(1), action, produced);
        let made = made_anew(v, pending, action, produced);
        law_only_unknown_rewrites_are_made(next, pending.skip(1), action, produced);
        if made.len() > rest.len() {
            let key = ref_key(e);
            assert forall|k: int| 0 <= k < made.len() implies !v.known.contains(
                #[trigger] made[k],
            ) by {
                if k > 0 {
                    assert(made[k] == rest[k - 1]);
                }
            }
            assert forall|i: int, j: int| 0 <= i < j < made.len() implies made[i] != made[j] by {
                assert(made[j] == rest[j - 1]);
                if i > 0 {
                    assert(made[i] == rest[i - 1]);
                } else {
                    assert(next.known.contains(key));
                }
            }
            assert forall|other: (Seq<char>, Option<Seq<u8>>)| made.contains(other) <==> other == key
                || rest.contains(other) by {
                if made.contains(other) && other != key {
                    let k = choose|k: int| 0 <= k < made.len() && made[k] == other;
                    assert(rest[k - 1] == other);
                }
                if rest.contains(other) {
                    let k = choose|k: int| 0 <= k < rest.len() && rest[k] == other;
                    assert(made[k + 1] == other);
                }
                assert(made[0] == key);
            }
        }
    }
}

/// A retry makes no rewrite twice, with a bound and without: what a first attempt has made is known
/// to a later one, which makes none of it again, whatever entries it goes through.
pub proof fn law_retry_makes_no_rewrite_twice(
    v: RefsView,
    pending: Seq<RootManifestEntry>,
    again: RefsView,
    pending_again: Seq<RootManifestEntry>,
    action: RebalanceRootManifestAction,
    produced: spec_fn(RootManifestEntry) -> Seq<ManifestFile>,
    produced_again: spec_fn(RootManifestEntry) -> Seq<ManifestFile>,
)
    requires
        balanced(v, pending, action, produced).known.subset_of(again.known),
    ensures
        forall|i: int, j: int|
            0 <= i < made_anew(v, pending, action, produced).len() && 0 <= j < made_anew(
                again,
                pending_again,
                action,
                produced_again,
            ).len() ==> #[trigger] made_anew(v, pending, action, produced)[i]
                != #[trigger] made_anew(again, pending_again, action, produced_again)[j],
{
    law_only_unknown_rewrites_are_made(v, pending, action, produced);
    law_only_unknown_rewrites_are_made(again, pending_again, action, produced_again);
    let made = made_anew(v, pending, action, produced);
    let made_again = made_anew(again, pending_again, action, produced_again);
    assert forall|i: int, j: int|
        0 <= i < made.len() && 0 <= j < made_again.len() implies #[trigger] made[i]
        != #[trigger] made_again[j] by {
        assert(made.contains(made[i]));
        assert(balanced(v, pending, action, produced).known.contains(made[i]));
    }
}

/// Without a bound one attempt makes all rewrites: a retry over the same entries, with what the
/// first attempt came to know, makes none.
pub proof fn law_unbounded_retry_makes_nothing(
    v: RefsView,
    again: RefsView,
    pending: Seq<RootManifestEntry>,
    action: RebalanceRootManifestAction,
    produced: spec_fn(RootManifestEntry) -> Seq<ManifestFile>,
)
    requires
        action.max_manifests_per_commit is None,
        again.known == balanced(v, pending, action, produced).known,
    ensures
        made_anew(again, pending, action, produced).len() == 0,
        balanced(again, pending, action, produced).done == again.done,
{
    assert forall|i: int|
        0 <= i < pending.len() && (#[trigger] pending[i]) is ManifestRef && action.wants_rewrite(
            pending[i],
        ) implies again.known.contains(ref_key(pending[i])) by {
        law_bound_is_used_up(v, pending, action, produced, i);
    }
    lemma_all_known_makes_nothing(again, pending, action, produced);
    law_only_unknown_rewrites_are_made(again, pending, action, produced);
}

proof fn lemma_all_known_makes_nothing(
    v: RefsView,
    pending: Seq<RootManifestEntry>,
    action: RebalanceRootManifestAction,
    produced: spec_fn(RootManifestEntry) -> Seq<ManifestFile>,
)
    requires
        forall|i: int|
            0 <= i < pending.len() && (#[trigger] pending[i]) is ManifestRef
                && action.wants_rewrite(pending[i]) ==> v.known.contains(ref_key(pending[i])),
    ensures
        balanced(v, pending, action, produced).done == v.done,
    decreases pending.len(),
{
    if pending.len() > 0 {
        let next = balanced_one(v, pending[0], action, produced);
        let rest = pending.skip(1);
        assert forall|i: int|
            0 <= i < rest.len() && (#[trigger] rest[i]) is ManifestRef && action.wants_rewrite(
                rest[i],
            ) implies next.known.contains(ref_key(rest[i])) by {
            assert(rest[i] == pending[i + 1]);
        }
        lemma_all_known_makes_nothing(next, rest, action, produced);
    }
}

/// The greatest hour as a filter is no filter: nothing is left alone.
pub proof fn law_greatest_hour_filters_nothing(
    action: RebalanceRootManifestAction,
    field: usize,
    e: RootManifestEntry,
)
    requires
        action.hour_filter == Some(HourFilter { field, max_hour: i64::MAX }),
    ensures
        !action.hot(e),
{
}

/// A rebalance makes progress: where a manifest needs a rewrite and is not of an hour that is left
/// alone, at least one is rewritten, unless the bound was reached before.
pub proof fn law_rebalance_makes_progress(
    v: RefsView,
    pending: Seq<RootManifestEntry>,
    action: RebalanceRootManifestAction,
    produced: spec_fn(RootManifestEntry) -> Seq<ManifestFile>,
    i: int,
)
    requires
        0 <= i < pending.len(),
        pending[i] is ManifestRef,
        action.wants_rewrite(pending[i]),
        action.max_manifests_per_commit matches Some(cap) ==> v.done < cap,
    ensures
        rewrite_count(v, pending, action, produced) > 0,
    decreases pending.len(),
{
    let next = balanced_one(v, pending[0], action, produced);
    if i > 0 && !(pending[0] is ManifestRef && action.rewrites(
        pending[0],
        v.done,
        v.known.contains(ref_key(pending[0])),
    )) {
        assert(pending.skip(1)[i - 1] == pending[i]);
        law_rebalance_makes_progress(next, pending.skip(1), action, produced, i - 1);
    }
}

/// Whether what became of the entry `e` shows in `after`: it is there as it was, or what it was
/// rewritten to is.
pub open spec fn still_there(
    e: RootManifestEntry,
    after: RefsView,
    produced: spec_fn(RootManifestEntry) -> Seq<ManifestFile>,
) -> bool {
    match e {
        RootManifestEntry::Inline(me) => after.inline.contains(me),
        RootManifestEntry::ManifestRef { .. } => {
            ||| after.entries.contains(e)
            ||| forall|k: int|
                0 <= k < produced(e).len() ==> after.entries.contains(
                    (RootManifestEntry::ManifestRef {
                        manifest_file: #[trigger] produced(e)[k],
                        mdv: None,
                    }),
                )
        },
    }
}

proof fn lemma_balanced_grows(
    v: RefsView,
    pending: Seq<RootManifestEntry>,
    action: RebalanceRootManifestAction,
    produced: spec_fn(RootManifestEntry) -> Seq<ManifestFile>,
)
    ensures
        v.entries.is_prefix_of(balanced(v, pending, action, produced).entries),
        v.inline.is_prefix_of(balanced(v, pending, action, produced).inline),
    decreases pending.len(),
{
    if pending.len() > 0 {
        lemma_balanced_grows(
            balanced_one(v, pending[0], action, produced),
            pending.skip(1),
            action,
            produced,
        );
    }
}

/// A rebalance loses no entry of the root: a manifest is there as it was, or what it was rewritten
/// to is, and an inline entry waits to be flushed or carried over.
pub proof fn law_rebalance_loses_no_entry(
    v: RefsView,
    pending: Seq<RootManifestEntry>,
    action: RebalanceRootManifestAction,
    produced: spec_fn(RootManifestEntry) -> Seq<ManifestFile>,
    i: int,
)
    requires
        0 <= i < pending.len(),
    ensures
        still_there(pending[i], balanced(v, pending, action, produced), produced),
    decreases pending.len(),
{
    let e = pending[0];
    let next = balanced_one(v, e, action, produced);
    let rest = pending.skip(1);
    let after = balanced(next, rest, action, produced);
    if i > 0 {
        law_rebalance_loses_no_entry(next, rest, action, produced, i - 1);
        assert(rest[i - 1] == pending[i]);
    } else {
        lemma_balanced_grows(next, rest, action, produced);
        match e {
            RootManifestEntry::Inline(me) => {
                assert(next.inline[v.inline.len() as int] == me);
                assert(after.inline[v.inline.len() as int] == me);
            },
            RootManifestEntry::ManifestRef { .. } => {
                if action.rewrites(e, v.done, v.known.contains(ref_key(e))) {
                    assert forall|k: int|
                        0 <= k < produced(e).len() implies after.entries.contains(
                        (RootManifestEntry::ManifestRef {
                            manifest_file: #[trigger] produced(e)[k],
                            mdv: None,
                        }),
                    ) by {
                        let at = v.entries.len() + k;
                        assert(next.entries[at] == refs_to(produced(e))[k]);
                        assert(after.entries[at] == next.entries[at]);
                    }
                } else {
                    assert(next.entries[v.entries.len() as int] == e);
                    assert(after.entries[v.entries.len() as int] == e);
                }
            },
        }
    }
}

/// A rewritten manifest holds exactly the live entries that are not deleted, with their history.
pub proof fn law_rewrite_keeps_undeleted(
    entries: Seq<ManifestEntry>,
    deleted: Set<u32>,
    n: nat,
    e: ManifestEntry,
)
    requires
        n <= entries.len(),
        n <= 0x1_0000_0000,
    ensures
        undeleted(entries, deleted, n).contains(e) <==> exists|i: int|
            0 <= i < n && (#[trigger] entries[i]).alive() && !deleted.contains(i as u32) && e
                == restamped(entries[i]),
    decreases n,
{
    let all = undeleted(entries, deleted, n);
    if n > 0 {
        let last = entries[n - 1];
        let rest = undeleted(entries, deleted, (n - 1) as nat);
        law_rewrite_keeps_undeleted(entries, deleted, (n - 1) as nat, e);
        if all.contains(e) {
            let k = choose|k: int| 0 <= k < all.len() && all[k] == e;
            if k < rest.len() {
                assert(rest[k] == e);
                let i = choose|i: int|
                    0 <= i < n - 1 && (#[trigger] entries[i]).alive() && !deleted.contains(i as u32)
                        && e == restamped(entries[i]);
                assert(entries[i].alive());
            } else {
                assert(entries[n - 1].alive());
            }
        }
        if exists|i: int|
            0 <= i < n && (#[trigger] entries[i]).alive() && !deleted.contains(i as u32) && e
                == restamped(entries[i]) {
            let i = choose|i: int|
                0 <= i < n && (#[trigger] entries[i]).alive() && !deleted.contains(i as u32) && e
                    == restamped(entries[i]);
            if i < n - 1 {
                assert(entries[i].alive());
                let k = choose|k: int| 0 <= k < rest.len() && rest[k] == e;
                assert(all[k] == e);
            } else {
                assert(all[rest.len() as int] == e);
            }
        }
    }
}

/// The entries of a flush group are of its content and spec: a group is of deletes just where its
/// files are position deletes or equality deletes.
pub proof fn law_groups_are_of_one_content(
    groups: Seq<FlushGroup>,
    entries: Seq<ManifestEntry>,
    g: int,
    k: int,
)
    requires
        is_grouping(groups, entries),
        0 <= g < groups.len(),
        0 <= k < groups[g].entries@.len(),
    ensures
        entries.contains(groups[g].entries@[k]),
        groups[g].is_delete <==> groups[g].entries@[k].data_file.content is PositionDeletes
            || groups[g].entries@[k].data_file.content is EqualityDeletes,
        groups[g].spec_id == groups[g].entries@[k].data_file.partition_spec_id,
{
    let group = groups[g];
    let keep = |e: ManifestEntry|
        of_deletes(e) == group.is_delete && e.data_file.partition_spec_id == group.spec_id;
    assert(group.entries@ == entries.filter(keep));
    entries.lemma_filter_pred(keep, k);
    crate::seqs::lemma_filter_from(entries, keep, k);
}

/// Every manifest that a flush writes is of one content and spec: each of its files is of the spec
/// that the manifest is written under, and in the versions that tell deletes from data the manifest
/// is written for deletes just where its files are position deletes or equality deletes. Each of
/// its entries stands for a flushed entry of the same file, carried over with its snapshot and its
/// sequence numbers.
pub proof fn law_flushed_manifests_are_of_one_content(
    ws: Seq<GroupWrites>,
    groups: Seq<FlushGroup>,
    entries: Seq<ManifestEntry>,
    setting: WriteSetting,
    first: int,
    partition_scoped: bool,
    g: int,
    w: int,
    k: int,
)
    requires
        is_grouping(groups, entries),
        writes_groups(ws, groups, setting, first, partition_scoped),
        0 <= g < ws.len(),
        0 <= w < ws[g].writes@.len(),
        0 <= k < ws[g].writes@[w].entries@.len(),
    ensures
        ({
            let manifest = ws[g].writes@[w];
            let x = manifest.entries@[k];
            let deletes = x.data_file.content is PositionDeletes || x.data_file.content
                is EqualityDeletes;
            &&& ws[g].is_delete <==> deletes
            &&& ws[g].spec_id == x.data_file.partition_spec_id
            &&& manifest.spec_id == x.data_file.partition_spec_id
            &&& manifest.kind is V1 <==> setting.version is V1
            &&& setting.version !is V1 ==> ((manifest.kind is V2Deletes || manifest.kind
                is V3Deletes) <==> deletes)
            &&& setting.version !is V1 ==> ((manifest.kind is V2Data || manifest.kind is V3Data)
                <==> x.data_file.content is Data)
            &&& x.status is Existing
            &&& exists|i: int|
                0 <= i < entries.len() && (#[trigger] entries[i]).data_file == x.data_file
                    && x.snapshot_id == Some(
                    if entries[i].snapshot_id is Some {
                        entries[i].snapshot_id->0
                    } else {
                        0
                    },
                ) && x.sequence_number == Some(
                    if entries[i].sequence_number is Some {
                        entries[i].sequence_number->0
                    } else {
                        0
                    },
                ) && x.file_sequence_number == entries[i].file_sequence_number
        }),
{
    let stamped = restamped_all(groups[g].entries@);
    assert(ws[g].is_delete == groups[g].is_delete);
    law_written_manifests_hold_the_entries(
        ws[g].writes@,
        setting,
        first + writes_ahead(ws, g),
        groups[g].spec_id,
        groups[g].is_delete,
        stamped,
        partition_scoped,
    );
    let x = ws[g].writes@[w].entries@[k];
    assert(stamped.contains(x));
    let j = choose|j: int| 0 <= j < stamped.len() && stamped[j] == x;
    law_groups_are_of_one_content(groups, entries, g, j);
    let i = choose|i: int| 0 <= i < entries.len() && entries[i] == groups[g].entries@[j];
    assert(entries[i].data_file == x.data_file);
}

/// Every flushed entry is written: a manifest of the group of its spec and content holds its file,
/// live, with the snapshot and the sequence numbers that it had.
pub proof fn law_every_flushed_entry_is_written(
    ws: Seq<GroupWrites>,
    groups: Seq<FlushGroup>,
    entries: Seq<ManifestEntry>,
    setting: WriteSetting,
    first: int,
    partition_scoped: bool,
    i: int,
)
    requires
        is_grouping(groups, entries),
        writes_groups(ws, groups, setting, first, partition_scoped),
        0 <= i < entries.len(),
    ensures
        exists|g: int, w: int, k: int|
            0 <= g < ws.len() && 0 <= w < ws[g].writes@.len() && 0 <= k
                < ws[g].writes@[w].entries@.len() && {
                let x = #[trigger] ws[g].writes@[w].entries@[k];
                &&& x.data_file == entries[i].data_file
                &&& x.status is Existing
                &&& entries[i].snapshot_id is Some ==> x.snapshot_id == entries[i].snapshot_id
                &&& entries[i].sequence_number is Some ==> x.sequence_number
                    == entries[i].sequence_number
                &&& x.file_sequence_number == entries[i].file_sequence_number
            },
{
    let g = choose|g: int|
        0 <= g < groups.len() && (#[trigger] groups[g]).is_delete == of_deletes(entries[i])
            && groups[g].spec_id == entries[i].data_file.partition_spec_id;
    let group = groups[g];
    let keep = |e: ManifestEntry|
        of_deletes(e) == group.is_delete && e.data_file.partition_spec_id == group.spec_id;
    assert(group.entries@ == entries.filter(keep));
    entries.lemma_filter_contains(keep, i);
    let j = choose|j: int| 0 <= j < group.entries@.len() && group.entries@[j] == entries[i];
    let stamped = restamped_all(group.entries@);
    assert(ws[g].is_delete == groups[g].is_delete);
    law_written_manifests_hold_the_entries(
        ws[g].writes@,
        setting,
        first + writes_ahead(ws, g),
        group.spec_id,
        group.is_delete,
        stamped,
        partition_scoped,
    );
    let w = choose|w: int|
        0 <= w < ws[g].writes@.len() && (#[trigger] ws[g].writes@[w]).entries@.contains(stamped[j]);
    let manifest = ws[g].writes@[w];
    let k = choose|k: int| 0 <= k < manifest.entries@.len() && manifest.entries@[k] == stamped[j];
    assert(ws[g].writes@[w].entries@[k] == restamped(entries[i]));
}

/// An entry is left alone just where a greatest hour is set and its own hour is later: that of the
/// field in the manifest's upper bound, or in the inline file's partition. One without an hour is
/// not.
pub proof fn law_later_hours_are_left_alone(
    action: RebalanceRootManifestAction,
    e: RootManifestEntry,
)
    ensures
        action.hour_filter is None ==> !action.hot(e),
        action.hour_filter matches Some(filter) ==> {
            &&& e matches RootManifestEntry::ManifestRef { manifest_file, .. } ==> (action.hot(e)
                <==> {
                &&& manifest_file.partitions is Some
                &&& filter.field < manifest_file.partitions->0@.len()
                &&& manifest_file.partitions->0@[filter.field as int].upper_bound is Some
                &&& le_i32_spec(
                    manifest_file.partitions->0@[filter.field as int].upper_bound->0@,
                ) is Some
                &&& le_i32_spec(
                    manifest_file.partitions->0@[filter.field as int].upper_bound->0@,
                )->0 > filter.max_hour
            })
            &&& e matches RootManifestEntry::Inline(me) ==> (action.hot(e) <==> filter.field
                < me.data_file.partition.fields@.len() && (
            me.data_file.partition.fields@[filter.field as int] matches Some(
                Literal::Primitive(PrimitiveLiteral::Int(hour)),
            ) && hour > filter.max_hour))
        },
{
}

/// A manifest spans partitions where a field of its summary has two different bounds, and a
/// manifest is split only where the rebalance goes by partition.
pub proof fn law_wide_manifests_have_two_bounds(
    action: RebalanceRootManifestAction,
    e: RootManifestEntry,
)
    ensures
        action.too_wide(e) <==> action.partition_scoped && e is ManifestRef
            && e->ManifestRef_manifest_file.partitions is Some && exists|i: int|
            0 <= i < e->ManifestRef_manifest_file.partitions->0@.len() && {
                let f = #[trigger] e->ManifestRef_manifest_file.partitions->0@[i];
                f.lower_bound is Some && f.upper_bound is Some && f.lower_bound->0@
                    != f.upper_bound->0@
            },
{
}

/// A manifest is sparse where its delete vector can be read, it counts a live file, and the deleted
/// places are at least the given share of the files that it counts.
pub proof fn law_sparse_manifests_reach_the_share(
    action: RebalanceRootManifestAction,
    e: RootManifestEntry,
)
    ensures
        action.too_sparse(e) <==> e is ManifestRef && e->ManifestRef_mdv is Some
            && e->ManifestRef_mdv->0.vector is Some && {
            let mf = e->ManifestRef_manifest_file;
            let live = (if mf.added_files_count is Some {
                mf.added_files_count->0 as int
            } else {
                0
            }) + (if mf.existing_files_count is Some {
                mf.existing_files_count->0 as int
            } else {
                0
            });
            live > 0 && e->ManifestRef_mdv->0.vector->0@.len()
                * action.mdv_compaction_threshold.denominator
                >= action.mdv_compaction_threshold.numerator * live
        },
{
}

/// Where nothing else is said, a flush is due at a thousand inline entries, a rewrite at three
/// deleted places in ten, and a rebalance has no bound, no greatest hour, and does not go by
/// partition.
pub proof fn law_defaults_of_a_rebalance(action: RebalanceRootManifestAction)
    requires
        action.is_default(),
    ensures
        action.inline_threshold == 1000,
        action.mdv_compaction_threshold.numerator == 3,
        action.mdv_compaction_threshold.denominator == 10,
        !action.partition_scoped,
        action.max_manifests_per_commit is None,
        action.hour_filter is None,
{
}

/// A number is taken from the table's properties where it is there and can be read, and is the
/// default otherwise.
pub proof fn law_unreadable_properties_are_passed_over(
    table: TableMetadata,
    key: Seq<char>,
    default: usize,
    n: nat,
)
    ensures
        table.properties@.contains_key(key) && parsed_within(
            table.properties@[key],
            usize::MAX as nat,
        ) == Some(n) ==> usize_property(table, key, default) == n,
        !table.properties@.contains_key(key) ==> usize_property(table, key, default) == default,
        table.properties@.contains_key(key) && parsed_within(
            table.properties@[key],
            usize::MAX as nat,
        ) is None ==> usize_property(table, key, default) == default,
{
}

/// An inline entry counts once, with the bytes of its path and a fixed share for the rest; a
/// reference counts nothing.
pub proof fn law_inline_entries_are_counted(entries: Seq<RootManifestEntry>, e: RootManifestEntry)
    ensures
        inline_count(Seq::empty()) == 0,
        inline_bytes(Seq::empty()) == 0,
        e is ManifestRef ==> inline_count(entries.push(e)) == inline_count(entries) && inline_bytes(
            entries.push(e),
        ) == inline_bytes(entries),
        e matches RootManifestEntry::Inline(me) ==> inline_count(entries.push(e)) == inline_count(
            entries,
        ) + 1 && inline_bytes(entries.push(e)) == inline_bytes(entries) + 256 + encode_utf8(
            me.data_file.file_path@,
        ).len(),
{
    assert(entries.push(e).drop_last() =~= entries);
}

/// A flush is due where the inline entries, their bytes or all entries reach what is set for them;
/// a rewrite where a manifest is sparse or spans partitions; a sweep where the removed paths reach
/// what is set for them. What is set is reached by being equalled.
pub proof fn law_needs_are_met_at_their_limits(
    action: RebalanceRootManifestAction,
    table: TableMetadata,
    entries: Seq<RootManifestEntry>,
    removed: nat,
)
    ensures
        ({
            let needs = action.needs_spec(table, entries, removed);
            &&& needs.flush <==> {
                ||| inline_count(entries) >= usize_property(
                    table,
                    "root-manifest.inline-threshold"@,
                    action.inline_threshold,
                )
                ||| inline_bytes(entries) >= usize_property(
                    table,
                    "root-manifest.flush-bytes"@,
                    8388608,
                )
                ||| entries.len() >= usize_property(table, "root-manifest.flush-entries"@, 1000)
            }
            &&& needs.mdv_compaction <==> exists|i: int|
                0 <= i < entries.len() && action.too_sparse(#[trigger] entries[i])
            &&& needs.recluster <==> exists|i: int|
                0 <= i < entries.len() && action.too_wide(#[trigger] entries[i])
            &&& needs.tombstone_sweep <==> removed >= usize_property(
                table,
                "root-manifest.tombstone-sweep-min-paths"@,
                1000,
            )
            &&& needs.any() <==> needs.flush || needs.mdv_compaction || needs.recluster
                || needs.tombstone_sweep
        }),
{
}

/// A reference is rewritten just where it is sparse or spans partitions, is not left alone, and was
/// rewritten before or is within the bound. It is then replaced by references to its rewrite,
/// without a delete vector, in its place; else it stays as it is, and an inline entry is set aside
/// to be flushed. Only a new rewrite counts towards the bound.
pub proof fn law_references_are_rewritten_in_place(
    v: RefsView,
    e: RootManifestEntry,
    action: RebalanceRootManifestAction,
    produced: spec_fn(RootManifestEntry) -> Seq<ManifestFile>,
)
    ensures
        ({
            let after = balanced_one(v, e, action, produced);
            let known = e is ManifestRef && v.known.contains(ref_key(e));
            let room = action.max_manifests_per_commit is None || v.done
                < action.max_manifests_per_commit->0;
            let rewritten = e is ManifestRef && (action.too_sparse(e) || action.too_wide(e))
                && !action.hot(e) && (known || room);
            &&& e is Inline ==> after.inline == v.inline.push(e->Inline_0) && after.entries
                == v.entries && after.done == v.done && after.known == v.known
            &&& e is ManifestRef ==> after.inline == v.inline
            &&& e is ManifestRef && !rewritten ==> after.entries == v.entries.push(e) && after.done
                == v.done && after.known == v.known
            &&& rewritten ==> {
                &&& v.entries.is_prefix_of(after.entries)
                &&& after.entries.len() == v.entries.len() + produced(e).len()
                &&& forall|k: int|
                    0 <= k < produced(e).len() ==> after.entries[v.entries.len() + k]
                        == (RootManifestEntry::ManifestRef {
                        manifest_file: #[trigger] produced(e)[k],
                        mdv: None,
                    })
                &&& known ==> after.done == v.done
                &&& !known ==> after.done == v.done + 1
                &&& after.known.contains(ref_key(e))
                &&& forall|key: (Seq<char>, Option<Seq<u8>>)|
                    key != ref_key(e) ==> (#[trigger] after.known.contains(key)
                        <==> v.known.contains(key))
            }
            &&& e is ManifestRef ==> ref_key(e).0 == e->ManifestRef_manifest_file.manifest_path@
            &&& e is ManifestRef && e->ManifestRef_mdv is None ==> ref_key(e).1 is None
            &&& e is ManifestRef && e->ManifestRef_mdv is Some ==> ref_key(e).1 == Some(
                e->ManifestRef_mdv->0.bytes@,
            )
        }),
{
    let after = balanced_one(v, e, action, produced);
    if e is ManifestRef && action.rewrites(e, v.done, v.known.contains(ref_key(e))) {
        assert(v.entries =~= after.entries.take(v.entries.len() as int));
    }
}

/// A delete vector that cannot be decoded makes its reference unreadable, and none other does; what
/// a readable one marks are its places.
pub proof fn law_only_damaged_vectors_are_unreadable(e: RootManifestEntry, place: u32)
    ensures
        unreadable(e) <==> e is ManifestRef && e->ManifestRef_mdv is Some
            && e->ManifestRef_mdv->0.vector is None,
        e is ManifestRef && e->ManifestRef_mdv is None ==> !marked(e->ManifestRef_mdv).contains(
            place,
        ),
        e is ManifestRef && e->ManifestRef_mdv is Some && e->ManifestRef_mdv->0.vector is Some ==> (
        marked(e->ManifestRef_mdv).contains(place) <==> e->ManifestRef_mdv->0.vector->0@.contains(
            place,
        )),
{
}

/// A rewrite lists, in their order, the live entries of the manifest at places that are not
/// deleted, each carried over with its snapshot and its sequence numbers.
pub proof fn law_rewrite_lists_the_undeleted_places(
    entries: Seq<ManifestEntry>,
    deleted: Set<u32>,
    n: nat,
) -> (places: Seq<int>)
    requires
        n <= entries.len(),
    ensures
        places.len() == undeleted(entries, deleted, n).len(),
        forall|k: int| 0 <= k < places.len() ==> 0 <= #[trigger] places[k] < n,
        forall|j: int, k: int|
            0 <= j < k < places.len() ==> #[trigger] places[j] < #[trigger] places[k],
        forall|i: int|
            0 <= i < n ==> (places.contains(i) <==> ((#[trigger] entries[i]).status is Existing
                || entries[i].status is Added) && !deleted.contains(i as u32)),
        forall|k: int|
            0 <= k < places.len() ==> {
                let x = #[trigger] undeleted(entries, deleted, n)[k];
                let e = entries[places[k]];
                &&& x.data_file == e.data_file
                &&& x.status is Existing
                &&& e.snapshot_id is Some ==> x.snapshot_id == e.snapshot_id
                &&& e.sequence_number is Some ==> x.sequence_number == e.sequence_number
                &&& x.file_sequence_number == e.file_sequence_number
            },
    decreases n,
{
    if n == 0 {
        Seq::empty()
    } else {
        let last = n - 1;
        let e = entries[last];
        let old = undeleted(entries, deleted, (n - 1) as nat);
        let new = undeleted(entries, deleted, n);
        let before = law_rewrite_lists_the_undeleted_places(entries, deleted, (n - 1) as nat);
        let places = if (e.status is Existing || e.status is Added) && !deleted.contains(
            last as u32,
        ) {
            before.push(last)
        } else {
            before
        };
        assert forall|i: int| 0 <= i < n implies (places.contains(i) <==> ((
        #[trigger] entries[i]).status is Existing || entries[i].status is Added)
            && !deleted.contains(i as u32)) by {
            if i < last {
                if before.contains(i) {
                    let k = choose|k: int| 0 <= k < before.len() && before[k] == i;
                    assert(places[k] == i);
                }
                if places.contains(i) {
                    let k = choose|k: int| 0 <= k < places.len() && places[k] == i;
                    assert(before[k] == i);
                }
            } else if places.len() > before.len() {
                assert(places[before.len() as int] == i);
            } else if places.contains(i) {
                let k = choose|k: int| 0 <= k < places.len() && places[k] == i;
                assert(before[k] == i);
            }
        }
        assert forall|k: int| 0 <= k < places.len() implies {
            let x = #[trigger] new[k];
            let f = entries[places[k]];
            &&& x.data_file == f.data_file
            &&& x.status is Existing
            &&& f.snapshot_id is Some ==> x.snapshot_id == f.snapshot_id
            &&& f.sequence_number is Some ==> x.sequence_number == f.sequence_number
            &&& x.file_sequence_number == f.file_sequence_number
        } by {
            if k < old.len() {
                assert(new[k] == old[k]);
                assert(places[k] == before[k]);
            }
        }
        places
    }
}

/// The entries that are flushed, or those that stay inline, stand in their order.
pub proof fn law_flush_keeps_the_order(
    inline: Seq<ManifestEntry>,
    action: RebalanceRootManifestAction,
    hot: bool,
) -> (places: Seq<int>)
    ensures
        stands_at(flushed(inline, action, hot), inline, places),
        forall|i: int|
            0 <= i < inline.len() ==> (places.contains(i) <==> hot == action.hot(
                RootManifestEntry::Inline(#[trigger] inline[i]),
            )),
{
    let keep = |e: ManifestEntry| action.hot(RootManifestEntry::Inline(e)) == hot;
    lemma_filter_places(inline, keep)
}

/// A rebalance commits a flat root of its own: it names no root beneath, keeps the bucket index and
/// the removed paths that it is given, and is the snapshot's list.
pub proof fn law_rebalanced_root_stands_alone(
    action: RebalanceRootManifestAction,
    rc: RootCommit,
    table: TableMetadata,
    bucket_index: Option<Seq<char>>,
    removed: Seq<Seq<char>>,
    inline_flushed: nat,
    entries: Seq<RootManifestEntry>,
    snapshot_id: i64,
    timestamp_ms: i64,
)
    requires
        action.commits(
            rc,
            table,
            bucket_index,
            removed,
            inline_flushed,
            entries,
            snapshot_id,
            timestamp_ms,
        ),
    ensures
        rc.entries@ == entries,
        rc.root_metadata.prev_root_path is None,
        rc.root_metadata.chain_depth == 0,
        rc.root_metadata.snapshot_id == snapshot_id,
        bucket_index is None <==> rc.root_metadata.bucket_index_path is None,
        bucket_index is Some ==> rc.root_metadata.bucket_index_path->0@ == bucket_index->0,
        texts(rc.root_metadata.removed_paths@) == removed,
        rc.commit.manifest_paths().len() == 1,
        rc.commit.manifest_paths()[0]@ == rc.root_path@,
        rc.root_path@ == root_path(table.location@, snapshot_id, action.commit_id),
{
    let paths = texts(rc.commit.manifest_paths());
    assert(paths.len() == rc.commit.manifest_paths().len());
    assert(paths[0] == rc.root_path@);
}

/// The summary of a rebalance says how many entries were flushed and how many the root lists.
pub proof fn law_rebalance_summary_says_what_was_done(inline_flushed: nat, entries: nat)
    ensures
        ({
            let m = rebalance_summary(inline_flushed, entries);
            &&& m.contains_key("rebalance-inline-flushed"@)
            &&& m.contains_key("rebalance-entries-after"@)
            &&& m["rebalance-inline-flushed"@] == decimal(inline_flushed)
            &&& m["rebalance-entries-after"@] == decimal(entries)
        }),
{
    reveal_strlit("rebalance-inline-flushed");
    reveal_strlit("rebalance-entries-after");
    assert("rebalance-inline-flushed"@.len() != "rebalance-entries-after"@.len());
}

/// A rewrite is known by the path of the manifest and the bytes of its delete vector: one that has
/// none is told from one that has.
pub proof fn law_rewrites_are_known_by_path_and_vector(
    keys: Seq<RewriteKey>,
    path: Seq<char>,
    vector: Option<Seq<u8>>,
)
    ensures
        known_rewrites(keys).contains((path, vector)) <==> exists|i: int|
            0 <= i < keys.len() && (#[trigger] keys[i]).path@ == path && (vector is None <==> keys[i].mdv
                is None) && (vector is Some ==> keys[i].mdv->0@ == vector->0),
{
    if known_rewrites(keys).contains((path, vector)) {
        let i = choose|i: int|
            0 <= i < keys.len() && (#[trigger] keys[i]).path@ == path && bytes_view(keys[i].mdv)
                == vector;
        assert(keys[i].path@ == path);
    }
    if exists|i: int|
        0 <= i < keys.len() && (#[trigger] keys[i]).path@ == path && (vector is None <==> keys[i].mdv
            is None) && (vector is Some ==> keys[i].mdv->0@ == vector->0) {
        let i = choose|i: int|
            0 <= i < keys.len() && (#[trigger] keys[i]).path@ == path && (vector is None
                <==> keys[i].mdv is None) && (vector is Some ==> keys[i].mdv->0@ == vector->0);
        assert(bytes_view(keys[i].mdv) == vector);
    }
}

/// A rebalance takes the entries one by one, from left to right, and each of them.
pub proof fn law_rebalance_takes_each_entry_once(
    v: RefsView,
    e: RootManifestEntry,
    rest: Seq<RootManifestEntry>,
    action: RebalanceRootManifestAction,
    produced: spec_fn(RootManifestEntry) -> Seq<ManifestFile>,
)
    ensures
        balanced(v, Seq::empty(), action, produced) == v,
        balanced(v, seq![e] + rest, action, produced) == balanced(
            balanced_one(v, e, action, produced),
            rest,
            action,
            produced,
        ),
{
    assert((seq![e] + rest).skip(1) =~= rest);
}

/// A refusal names the spec that is missing.
pub proof fn law_refusal_names_the_spec(a: i32, b: i32)
    ensures
        spec_not_found_message(a) == spec_not_found_message(b) <==> a == b,
        "partition spec "@.is_prefix_of(spec_not_found_message(a)),
        " not found"@.is_suffix_of(spec_not_found_message(a)),
{
    let p = spec_not_found_message(a);
    let head = "partition spec "@;
    let end = " not found"@;
    assert(head =~= p.take(head.len() as int));
    assert(end =~= p.skip(p.len() - end.len()));
    if spec_not_found_message(a) == spec_not_found_message(b) {
        crate::commit::lemma_number_behind(head, a as int, b as int, end);
    }
}

/// A key is that of a manifest just where it has its path, and the bytes of its delete vector where
/// it has one.
pub proof fn law_key_is_the_path_and_the_vector(key: RewriteKey, mf: ManifestFile, mdv: Option<Mdv>)
    ensures
        is_key_of(key, mf, mdv) <==> key.path@ == mf.manifest_path@ && (key.mdv is None <==> mdv
            is None) && (mdv is Some ==> key.mdv->0@ == mdv->0.bytes@),
{
}

/// What is passed on the way to what is left stands ahead of it, and none of it is a reference
/// whose delete vector cannot be decoded.
pub proof fn law_damaged_references_are_not_passed(
    all: Seq<RootManifestEntry>,
    left: Seq<RootManifestEntry>,
    i: int,
)
    requires
        passed_readable(all, left),
    ensures
        left.len() <= all.len(),
        0 <= i < left.len() ==> left[i] == all[all.len() - left.len() + i],
        0 <= i < all.len() - left.len() ==> !(all[i] is ManifestRef && all[i]->ManifestRef_mdv is Some
            && all[i]->ManifestRef_mdv->0.vector is None),
{
    if 0 <= i < all.len() - left.len() {
        assert(!unreadable(all[i]));
    }
}

} // verus!
