//! Table metadata, snapshots, and the changes that a commit makes to them.

use std::sync::Arc;

use vstd::prelude::*;
use vstd::string::StringExecFns;

use crate::error::{Error, ErrorKind};
use crate::manifest::FormatVersion;
use crate::partition::PartitionSpec;
use crate::path_set::Properties;
use crate::text::{same_text, texts};

verus! {

/// What a snapshot did to the table.
#[derive(Clone, Copy, Debug, PartialEq, Eq, Structural)]
pub enum Operation {
    Append,
    Replace,
    Overwrite,
    Delete,
}

/// A snapshot's summary.
#[derive(Clone, Debug, PartialEq, Eq)]
pub struct Summary {
    pub operation: Operation,
    pub additional_properties: Properties,
}

/// The row ids that a snapshot takes: the first, and how many.
#[derive(Clone, Copy, Debug, PartialEq, Eq, Structural)]
pub struct RowRange {
    pub first_row_id: u64,
    pub added_rows: u64,
}

/// A snapshot.
#[derive(Clone, Debug, PartialEq, Eq)]
pub struct Snapshot {
    pub snapshot_id: i64,
    pub parent_snapshot_id: Option<i64>,
    pub sequence_number: i64,
    pub timestamp_ms: i64,
    pub manifest_list: String,
    pub summary: Summary,
    pub schema_id: Option<i32>,
    pub row_range: Option<RowRange>,
}

/// How long a branch keeps its snapshots.
#[derive(Clone, Copy, Debug, PartialEq, Eq, Structural)]
pub struct BranchRetention {
    pub min_snapshots_to_keep: Option<i32>,
    pub max_snapshot_age_ms: Option<i64>,
    pub max_ref_age_ms: Option<i64>,
}

/// A branch's snapshot.
#[derive(Clone, Copy, Debug, PartialEq, Eq, Structural)]
pub struct SnapshotReference {
    pub snapshot_id: i64,
    pub retention: BranchRetention,
}

/// A change to a table's metadata.
#[derive(Clone, Debug, PartialEq, Eq)]
pub enum TableUpdate {
    AddSnapshot { snapshot: Arc<Snapshot> },
    SetSnapshotRef { ref_name: String, reference: SnapshotReference },
    SetLocation { location: String },
    SetProperties { updates: Properties },
    RemoveProperties { removals: Vec<String> },
    UpgradeFormatVersion { format_version: FormatVersion },
    SetCurrentSchema { schema_id: i32 },
    AddSpec { spec: Arc<PartitionSpec> },
    SetDefaultSpec { spec_id: i32 },
}

/// What must hold of a table for a commit to go through.
#[derive(Clone, Debug, PartialEq, Eq)]
pub enum TableRequirement {
    UuidMatch { uuid: u128 },
    /// The branch points at the snapshot; without one, there is no such branch.
    RefSnapshotIdMatch { ref_name: String, snapshot_id: Option<i64> },
}

/// A named branch.
#[derive(Clone, Debug, PartialEq, Eq)]
pub struct Branch {
    pub name: String,
    pub reference: SnapshotReference,
}

/// A table's metadata.
#[derive(Clone, Debug, PartialEq, Eq)]
pub struct TableMetadata {
    pub format_version: FormatVersion,
    pub uuid: u128,
    pub location: String,
    pub last_sequence_number: i64,
    pub last_updated_ms: i64,
    pub next_row_id: u64,
    pub current_schema_id: i32,
    pub default_spec: Arc<PartitionSpec>,
    pub partition_specs: Vec<Arc<PartitionSpec>>,
    pub current_snapshot_id: Option<i64>,
    pub snapshots: Vec<Arc<Snapshot>>,
    pub refs: Vec<Arc<Branch>>,
    pub properties: Arc<Properties>,
}

/// A table.
#[derive(Debug, PartialEq, Eq)]
pub struct Table {
    pub identifier: String,
    pub metadata_location: Option<String>,
    pub metadata: Arc<TableMetadata>,
}

impl Clone for Table {
    fn clone(&self) -> (r: Self)
        ensures
            r == *self,
    {
        let metadata_location = match &self.metadata_location {
            Some(s) => Some(s.clone()),
            None => None,
        };
        Table {
            identifier: self.identifier.clone(),
            metadata_location,
            metadata: self.metadata.clone(),
        }
    }
}

/// The text of an optional string.
pub open spec fn text_view(s: Option<String>) -> Option<Seq<char>> {
    match s {
        Some(t) => Some(t@),
        None => None,
    }
}

/// A copy of an optional string.
pub fn copy_text(s: &Option<String>) -> (r: Option<String>)
    ensures
        r == *s,
{
    match s {
        Some(t) => Some(t.clone()),
        None => None,
    }
}

/// A copy of a list of strings.
pub fn copy_texts(s: &[String]) -> (r: Vec<String>)
    ensures
        r@ == s@,
{
    let mut r: Vec<String> = Vec::with_capacity(s.len());
    let mut i: usize = 0;
    while i < s.len()
        invariant
            i <= s@.len(),
            r@ == s@.take(i as int),
        decreases s@.len() - i,
    {
        r.push(s[i].clone());
        assert(s@.take(i + 1) =~= s@.take(i as int).push(s@[i as int]));
        i = i + 1;
    }
    assert(s@.take(i as int) =~= s@);
    r
}

/// Whether two optional strings are the same.
pub fn same_optional_text(a: &Option<String>, b: &Option<String>) -> (r: bool)
    ensures
        r == (text_view(*a) == text_view(*b)),
{
    match (a, b) {
        (Some(x), Some(y)) => same_text(x.as_str(), y.as_str()),
        (None, None) => true,
        _ => false,
    }
}

/// The place of the snapshot `id` in `snapshots`, from place `from` on.
pub open spec fn snapshot_at(snapshots: Seq<Arc<Snapshot>>, id: i64, from: int) -> Option<int>
    decreases snapshots.len() - from,
{
    if from < 0 || from >= snapshots.len() {
        None
    } else if snapshots[from].snapshot_id == id {
        Some(from)
    } else {
        snapshot_at(snapshots, id, from + 1)
    }
}

/// The place of the spec `id` in `specs`, from place `from` on.
pub open spec fn spec_at(specs: Seq<Arc<PartitionSpec>>, id: i32, from: int) -> Option<int>
    decreases specs.len() - from,
{
    if from < 0 || from >= specs.len() {
        None
    } else if specs[from].spec_id == id {
        Some(from)
    } else {
        spec_at(specs, id, from + 1)
    }
}

/// The place of the branch `name` in `refs`, from place `from` on.
pub open spec fn branch_at(refs: Seq<Arc<Branch>>, name: Seq<char>, from: int) -> Option<int>
    decreases refs.len() - from,
{
    if from < 0 || from >= refs.len() {
        None
    } else if refs[from].name@ == name {
        Some(from)
    } else {
        branch_at(refs, name, from + 1)
    }
}

fn find_snapshot(snapshots: &Vec<Arc<Snapshot>>, id: i64) -> (r: Option<usize>)
    ensures
        match r {
            Some(i) => i < snapshots@.len() && snapshot_at(snapshots@, id, 0) == Some(i as int),
            None => snapshot_at(snapshots@, id, 0) is None,
        },
{
    let mut i: usize = 0;
    while i < snapshots.len()
        invariant
            i <= snapshots@.len(),
            snapshot_at(snapshots@, id, 0) == snapshot_at(snapshots@, id, i as int),
        decreases snapshots@.len() - i,
    {
        if snapshots[i].snapshot_id == id {
            return Some(i);
        }
        i = i + 1;
    }
    None
}

fn find_branch(refs: &Vec<Arc<Branch>>, name: &str) -> (r: Option<usize>)
    ensures
        match r {
            Some(i) => i < refs@.len() && branch_at(refs@, name@, 0) == Some(i as int),
            None => branch_at(refs@, name@, 0) is None,
        },
{
    let mut i: usize = 0;
    while i < refs.len()
        invariant
            i <= refs@.len(),
            branch_at(refs@, name@, 0) == branch_at(refs@, name@, i as int),
        decreases refs@.len() - i,
    {
        if same_text(refs[i].name.as_str(), name) {
            return Some(i);
        }
        i = i + 1;
    }
    None
}

impl TableMetadata {
    /// The current snapshot, where the table has one.
    pub open spec fn current(&self) -> Option<Snapshot> {
        match self.current_snapshot_id {
            Some(id) => match snapshot_at(self.snapshots@, id, 0) {
                Some(i) => Some(*self.snapshots@[i]),
                None => None,
            },
            None => None,
        }
    }

    /// The current snapshot, where the table has one.
    pub fn current_snapshot(&self) -> (r: Option<&Snapshot>)
        ensures
            match r {
                Some(s) => self.current() == Some(*s),
                None => self.current() is None,
            },
    {
        match self.current_snapshot_id {
            Some(id) => match find_snapshot(&self.snapshots, id) {
                Some(i) => Some(&self.snapshots[i]),
                None => None,
            },
            None => None,
        }
    }

    /// Whether the next sequence number can be written in 64 bits.
    pub open spec fn has_next_sequence_number(&self) -> bool {
        self.last_sequence_number < i64::MAX
    }

    /// The sequence number of the next snapshot; the first version has none and counts zero.
    pub open spec fn next_sequence(&self) -> int {
        if self.format_version == FormatVersion::V1 {
            0
        } else {
            self.last_sequence_number + 1
        }
    }

    /// The sequence number of the next snapshot.
    pub fn next_sequence_number(&self) -> (r: i64)
        requires
            self.has_next_sequence_number(),
        ensures
            r == self.next_sequence(),
    {
        if self.format_version == FormatVersion::V1 {
            0
        } else {
            self.last_sequence_number + 1
        }
    }

    /// The version that the table is handled as: the declared one, or version 4 where a table
    /// declared as version 3 opts in.
    pub open spec fn effective_version(&self) -> FormatVersion {
        if self.format_version == FormatVersion::V3 && self.properties@.contains_key(
            "e6.actual-format-version"@,
        ) && self.properties@["e6.actual-format-version"@] == "4"@ {
            FormatVersion::V4
        } else {
            self.format_version
        }
    }

    /// The version that the table is handled as.
    pub fn effective_format_version(&self) -> (r: FormatVersion)
        ensures
            r == self.effective_version(),
    {
        if self.format_version == FormatVersion::V3 {
            if let Some(v) = self.properties.get("e6.actual-format-version") {
                if same_text(v.as_str(), "4") {
                    return FormatVersion::V4;
                }
            }
        }
        self.format_version
    }

    /// The partition spec `spec_id`, where the table has it.
    pub open spec fn spec_by_id(&self, spec_id: i32) -> Option<PartitionSpec> {
        match spec_at(self.partition_specs@, spec_id, 0) {
            Some(i) => Some(*self.partition_specs@[i]),
            None => None,
        }
    }

    /// The partition spec `spec_id`, where the table has it.
    pub fn partition_spec_by_id(&self, spec_id: i32) -> (r: Option<&PartitionSpec>)
        ensures
            match r {
                Some(s) => self.spec_by_id(spec_id) == Some(*s),
                None => self.spec_by_id(spec_id) is None,
            },
    {
        let mut i: usize = 0;
        while i < self.partition_specs.len()
            invariant
                i <= self.partition_specs@.len(),
                spec_at(self.partition_specs@, spec_id, 0) == spec_at(
                    self.partition_specs@,
                    spec_id,
                    i as int,
                ),
            decreases self.partition_specs@.len() - i,
        {
            if self.partition_specs[i].spec_id == spec_id {
                return Some(&self.partition_specs[i]);
            }
            i = i + 1;
        }
        None
    }

    /// The snapshot that a branch points at.
    pub open spec fn branch_snapshot(&self, name: Seq<char>) -> Option<i64> {
        match branch_at(self.refs@, name, 0) {
            Some(i) => Some(self.refs@[i].reference.snapshot_id),
            None => None,
        }
    }
}

/// How a version is written in messages.
pub open spec fn version_name(v: FormatVersion) -> Seq<char> {
    match v {
        FormatVersion::V1 => "V1"@,
        FormatVersion::V2 => "V2"@,
        FormatVersion::V3 => "V3"@,
        FormatVersion::V4 => "V4"@,
    }
}

/// How a version is written in messages.
pub fn version_name_of(v: FormatVersion) -> (r: &'static str)
    ensures
        r@ == version_name(v),
{
    match v {
        FormatVersion::V1 => "V1",
        FormatVersion::V2 => "V2",
        FormatVersion::V3 => "V3",
        FormatVersion::V4 => "V4",
    }
}

impl TableRequirement {
    /// Whether `metadata` meets the requirement.
    pub open spec fn met_by(&self, metadata: TableMetadata) -> bool {
        match self {
            TableRequirement::UuidMatch { uuid } => metadata.uuid == *uuid,
            TableRequirement::RefSnapshotIdMatch { ref_name, snapshot_id } => metadata.branch_snapshot(
                ref_name@,
            ) == *snapshot_id,
        }
    }

    /// Fails, and lets the commit be tried again, where `metadata` does not meet the requirement.
    pub fn check(&self, metadata: &TableMetadata) -> (r: Result<(), Error>)
        ensures
            r is Ok <==> self.met_by(*metadata),
            r is Err ==> r->Err_0.kind_spec() == ErrorKind::CatalogCommitConflicts
                && r->Err_0.retryable_spec(),
            r is Err ==> r->Err_0.message_spec() == match self {
                TableRequirement::UuidMatch { .. } =>
                    "Requirement failed: Table UUID does not match"@,
                TableRequirement::RefSnapshotIdMatch { ref_name, .. } =>
                    "Requirement failed: Branch or tag `"@ + ref_name@ + "`'s snapshot has changed"@,
            },
    {
        match self {
            TableRequirement::UuidMatch { uuid } => {
                if metadata.uuid == *uuid {
                    Ok(())
                } else {
                    let message = "Requirement failed: Table UUID does not match".to_owned();
                    Err(
                        Error::new(ErrorKind::CatalogCommitConflicts, message).with_retryable(true),
                    )
                }
            },
            TableRequirement::RefSnapshotIdMatch { ref_name, snapshot_id } => {
                let current: Option<i64> = match find_branch(&metadata.refs, ref_name.as_str()) {
                    Some(i) => Some(metadata.refs[i].reference.snapshot_id),
                    None => None,
                };
                let met = match (current, snapshot_id) {
                    (Some(a), Some(b)) => a == *b,
                    (None, None) => true,
                    _ => false,
                };
                if met {
                    Ok(())
                } else {
                    let mut message = "Requirement failed: Branch or tag `".to_owned();
                    message.append(ref_name.as_str());
                    message.append("`'s snapshot has changed");
                    Err(
                        Error::new(ErrorKind::CatalogCommitConflicts, message).with_retryable(true),
                    )
                }
            },
        }
    }
}

/// The content of a [`TableMetadata`].
pub struct MetadataView {
    pub format_version: FormatVersion,
    pub uuid: u128,
    pub location: Seq<char>,
    pub last_sequence_number: i64,
    pub last_updated_ms: i64,
    pub next_row_id: u64,
    pub current_schema_id: i32,
    pub default_spec: Arc<PartitionSpec>,
    pub partition_specs: Seq<Arc<PartitionSpec>>,
    pub current_snapshot_id: Option<i64>,
    pub snapshots: Seq<Arc<Snapshot>>,
    pub refs: Seq<Arc<Branch>>,
    pub properties: Map<Seq<char>, Seq<char>>,
}

impl View for TableMetadata {
    type V = MetadataView;

    open spec fn view(&self) -> MetadataView {
        MetadataView {
            format_version: self.format_version,
            uuid: self.uuid,
            location: self.location@,
            last_sequence_number: self.last_sequence_number,
            last_updated_ms: self.last_updated_ms,
            next_row_id: self.next_row_id,
            current_schema_id: self.current_schema_id,
            default_spec: self.default_spec,
            partition_specs: self.partition_specs@,
            current_snapshot_id: self.current_snapshot_id,
            snapshots: self.snapshots@,
            refs: self.refs@,
            properties: self.properties@,
        }
    }
}

/// How far, in milliseconds, a snapshot's clock may lie behind the table's last change.
pub const CLOCK_TOLERANCE_MS: i64 = 60_000;

/// Whether a snapshot can be added: its id is new, its sequence number is above the table's last
/// (from the second version on), its clock is not behind by more than the tolerance, and its row
/// ids are ones that the table has not given out and can be counted.
pub open spec fn can_add(m: MetadataView, s: Snapshot) -> bool {
    &&& snapshot_at(m.snapshots, s.snapshot_id, 0) is None
    &&& m.format_version != FormatVersion::V1 ==> s.sequence_number > m.last_sequence_number
    &&& s.timestamp_ms + CLOCK_TOLERANCE_MS >= m.last_updated_ms
    &&& s.row_range matches Some(rows) ==> rows.first_row_id >= m.next_row_id && m.next_row_id
        + rows.added_rows <= u64::MAX
}

/// The branches `refs` with `name` pointing at `reference`.
pub open spec fn with_branch(refs: Seq<Arc<Branch>>, name: String, reference: SnapshotReference) -> Seq<
    Arc<Branch>,
> {
    let branch = Arc::new(Branch { name, reference });
    match branch_at(refs, name@, 0) {
        Some(i) => refs.update(i, branch),
        None => refs.push(branch),
    }
}

/// What a change makes of a table's metadata; `None` where it is refused.
pub open spec fn updated(m: MetadataView, u: TableUpdate) -> Option<MetadataView> {
    match u {
        TableUpdate::AddSnapshot { snapshot } => if can_add(m, *snapshot) {
            Some(
                MetadataView {
                    snapshots: m.snapshots.push(snapshot),
                    last_sequence_number: snapshot.sequence_number,
                    last_updated_ms: snapshot.timestamp_ms,
                    next_row_id: match snapshot.row_range {
                        Some(rows) => (m.next_row_id + rows.added_rows) as u64,
                        None => m.next_row_id,
                    },
                    ..m
                },
            )
        } else {
            None
        },
        TableUpdate::SetSnapshotRef { ref_name, reference } => if snapshot_at(
            m.snapshots,
            reference.snapshot_id,
            0,
        ) is Some {
            Some(
                MetadataView {
                    refs: with_branch(m.refs, ref_name, reference),
                    current_snapshot_id: if ref_name@ == "main"@ {
                        Some(reference.snapshot_id)
                    } else {
                        m.current_snapshot_id
                    },
                    ..m
                },
            )
        } else {
            None
        },
        TableUpdate::SetLocation { location } => Some(MetadataView { location: location@, ..m }),
        TableUpdate::SetProperties { updates } => Some(
            MetadataView { properties: m.properties.union_prefer_right(updates@), ..m },
        ),
        TableUpdate::RemoveProperties { removals } => Some(
            MetadataView {
                properties: m.properties.remove_keys(texts(removals@).to_set()),
                ..m
            },
        ),
        TableUpdate::UpgradeFormatVersion { format_version } => if version_rank(format_version)
            >= version_rank(m.format_version) {
            Some(MetadataView { format_version, ..m })
        } else {
            None
        },
        TableUpdate::SetCurrentSchema { schema_id } => Some(
            MetadataView { current_schema_id: schema_id, ..m },
        ),
        TableUpdate::AddSpec { spec } => if spec_at(m.partition_specs, spec.spec_id, 0) is None {
            Some(MetadataView { partition_specs: m.partition_specs.push(spec), ..m })
        } else {
            None
        },
        TableUpdate::SetDefaultSpec { spec_id } => match spec_at(m.partition_specs, spec_id, 0) {
            Some(i) => Some(MetadataView { default_spec: m.partition_specs[i], ..m }),
            None => None,
        },
    }
}

/// The place of a version among the others.
pub open spec fn version_rank(v: FormatVersion) -> int {
    match v {
        FormatVersion::V1 => 1,
        FormatVersion::V2 => 2,
        FormatVersion::V3 => 3,
        FormatVersion::V4 => 4,
    }
}

fn version_rank_of(v: FormatVersion) -> (r: u8)
    ensures
        r == version_rank(v),
{
    match v {
        FormatVersion::V1 => 1,
        FormatVersion::V2 => 2,
        FormatVersion::V3 => 3,
        FormatVersion::V4 => 4,
    }
}

/// What a list of changes, one after the other, makes of a table's metadata; `None` where one of
/// them is refused.
pub open spec fn all_updated(m: MetadataView, updates: Seq<TableUpdate>) -> Option<MetadataView>
    decreases updates.len(),
{
    if updates.len() == 0 {
        Some(m)
    } else {
        match all_updated(m, updates.drop_last()) {
            Some(before) => updated(before, updates.last()),
            None => None,
        }
    }
}

fn copy_arcs<T>(v: &Vec<Arc<T>>) -> (r: Vec<Arc<T>>)
    ensures
        r@ == v@,
{
    let mut r: Vec<Arc<T>> = Vec::with_capacity(v.len());
    let mut i: usize = 0;
    while i < v.len()
        invariant
            i <= v@.len(),
            r@ == v@.take(i as int),
        decreases v@.len() - i,
    {
        r.push(v[i].clone());
        assert(v@.take(i + 1) =~= v@.take(i as int).push(v@[i as int]));
        i = i + 1;
    }
    assert(v@.take(i as int) =~= v@);
    r
}

fn copy_metadata(m: &TableMetadata) -> (r: TableMetadata)
    ensures
        r@ == m@,
{
    TableMetadata {
        format_version: m.format_version,
        uuid: m.uuid,
        location: m.location.clone(),
        last_sequence_number: m.last_sequence_number,
        last_updated_ms: m.last_updated_ms,
        next_row_id: m.next_row_id,
        current_schema_id: m.current_schema_id,
        default_spec: m.default_spec.clone(),
        partition_specs: copy_arcs(&m.partition_specs),
        current_snapshot_id: m.current_snapshot_id,
        snapshots: copy_arcs(&m.snapshots),
        refs: copy_arcs(&m.refs),
        properties: m.properties.clone(),
    }
}

fn find_spec(specs: &Vec<Arc<PartitionSpec>>, id: i32) -> (r: Option<usize>)
    ensures
        match r {
            Some(i) => i < specs@.len() && spec_at(specs@, id, 0) == Some(i as int),
            None => spec_at(specs@, id, 0) is None,
        },
{
    let mut i: usize = 0;
    while i < specs.len()
        invariant
            i <= specs@.len(),
            spec_at(specs@, id, 0) == spec_at(specs@, id, i as int),
        decreases specs@.len() - i,
    {
        if specs[i].spec_id == id {
            return Some(i);
        }
        i = i + 1;
    }
    None
}

fn refused(message: &str) -> (r: Error)
    ensures
        r.kind_spec() == ErrorKind::DataInvalid,
        !r.retryable_spec(),
{
    Error::new(ErrorKind::DataInvalid, message.to_owned())
}

fn add_snapshot(m: &mut TableMetadata, snapshot: &Arc<Snapshot>) -> (r: Result<(), Error>)
    ensures
        r is Ok <==> can_add(old(m)@, **snapshot),
        r is Ok ==> updated(old(m)@, (TableUpdate::AddSnapshot { snapshot: *snapshot })) == Some(
            final(m)@,
        ),
        r is Err ==> r->Err_0.kind_spec() == ErrorKind::DataInvalid && !r->Err_0.retryable_spec(),
{
    if find_snapshot(&m.snapshots, snapshot.snapshot_id).is_some() {
        return Err(refused("Snapshot already exists"));
    }
    if m.format_version != FormatVersion::V1 && snapshot.sequence_number <= m.last_sequence_number {
        return Err(refused("Cannot add snapshot with a sequence number that is not new"));
    }
    if (snapshot.timestamp_ms as i128) + (CLOCK_TOLERANCE_MS as i128) < m.last_updated_ms as i128 {
        return Err(refused("Invalid snapshot timestamp before the last update"));
    }
    let next_row_id: u64 = match &snapshot.row_range {
        Some(rows) => {
            if rows.first_row_id < m.next_row_id || rows.added_rows > 0xFFFF_FFFF_FFFF_FFFF
                - m.next_row_id {
                return Err(refused("Cannot add snapshot with row ids already given out"));
            }
            m.next_row_id + rows.added_rows
        },
        None => m.next_row_id,
    };
    m.snapshots.push(snapshot.clone());
    m.last_sequence_number = snapshot.sequence_number;
    m.last_updated_ms = snapshot.timestamp_ms;
    m.next_row_id = next_row_id;
    Ok(())
}

fn set_snapshot_ref(m: &mut TableMetadata, ref_name: &String, reference: &SnapshotReference) -> (r:
    Result<(), Error>)
    ensures
        r is Ok <==> snapshot_at(old(m)@.snapshots, reference.snapshot_id, 0) is Some,
        r is Ok ==> updated(
            old(m)@,
            (TableUpdate::SetSnapshotRef { ref_name: *ref_name, reference: *reference }),
        ) == Some(final(m)@),
        r is Err ==> r->Err_0.kind_spec() == ErrorKind::DataInvalid && !r->Err_0.retryable_spec(),
{
    if find_snapshot(&m.snapshots, reference.snapshot_id).is_none() {
        return Err(refused("Cannot set a branch to a snapshot that the table lacks"));
    }
    let branch = Arc::new(Branch { name: ref_name.clone(), reference: *reference });
    match find_branch(&m.refs, ref_name.as_str()) {
        Some(i) => {
            m.refs.set(i, branch);
        },
        None => {
            m.refs.push(branch);
        },
    }
    if same_text(ref_name.as_str(), "main") {
        m.current_snapshot_id = Some(reference.snapshot_id);
    }
    Ok(())
}

/// Makes the changes `updates` to a copy of `metadata`, one after the other.
pub fn apply_updates(metadata: &TableMetadata, updates: &[TableUpdate]) -> (r: Result<
    TableMetadata,
    Error,
>)
    ensures
        r is Ok <==> all_updated(metadata@, updates@) is Some,
        r is Ok ==> all_updated(metadata@, updates@) == Some(r->Ok_0@),
        r is Err ==> r->Err_0.kind_spec() == ErrorKind::DataInvalid && !r->Err_0.retryable_spec(),
{
    let mut m = copy_metadata(metadata);
    let mut i: usize = 0;
    while i < updates.len()
        invariant
            i <= updates@.len(),
            all_updated(metadata@, updates@.take(i as int)) == Some(m@),
        decreases updates@.len() - i,
    {
        proof {
            let next = updates@.take(i + 1);
            assert(next.drop_last() =~= updates@.take(i as int));
            assert(next.last() == updates@[i as int]);
            if all_updated(metadata@, next) is None {
                lemma_refused_stays_refused(metadata@, updates@, i + 1);
            }
        }
        match &updates[i] {
            TableUpdate::AddSnapshot { snapshot } => {
                if let Err(e) = add_snapshot(&mut m, snapshot) {
                    return Err(e);
                }
            },
            TableUpdate::SetSnapshotRef { ref_name, reference } => {
                if let Err(e) = set_snapshot_ref(&mut m, ref_name, reference) {
                    return Err(e);
                }
            },
            TableUpdate::SetLocation { location } => {
                m.location = location.clone();
            },
            TableUpdate::SetProperties { updates } => {
                m.properties = Arc::new(m.properties.updated_with(updates));
            },
            TableUpdate::RemoveProperties { removals } => {
                m.properties = Arc::new(m.properties.without(removals));
            },
            TableUpdate::UpgradeFormatVersion { format_version } => {
                if version_rank_of(*format_version) < version_rank_of(m.format_version) {
                    return Err(refused("Cannot downgrade the format version"));
                }
                m.format_version = *format_version;
            },
            TableUpdate::SetCurrentSchema { schema_id } => {
                m.current_schema_id = *schema_id;
            },
            TableUpdate::AddSpec { spec } => {
                if find_spec(&m.partition_specs, spec.spec_id).is_some() {
                    return Err(refused("Partition spec already exists"));
                }
                m.partition_specs.push(spec.clone());
            },
            TableUpdate::SetDefaultSpec { spec_id } => {
                match find_spec(&m.partition_specs, *spec_id) {
                    Some(k) => {
                        m.default_spec = m.partition_specs[k].clone();
                    },
                    None => {
                        return Err(refused("Cannot make a spec the default that the table lacks"));
                    },
                }
            },
        }
        i = i + 1;
    }
    assert(updates@.take(i as int) =~= updates@);
    Ok(m)
}

proof fn lemma_refused_stays_refused(m: MetadataView, updates: Seq<TableUpdate>, n: int)
    requires
        0 <= n <= updates.len(),
        all_updated(m, updates.take(n)) is None,
    ensures
        all_updated(m, updates) is None,
    decreases updates.len(),
{
    if n < updates.len() {
        assert(updates.drop_last().take(n) =~= updates.take(n));
        lemma_refused_stays_refused(m, updates.drop_last(), n);
    } else {
        assert(updates.take(n) =~= updates);
    }
}

/// A snapshot, a partition spec or a branch is found by its id or name alone, the first one that
/// has it, and is missed only where none has it.
pub proof fn law_things_are_found_by_id(
    snapshots: Seq<Arc<Snapshot>>,
    specs: Seq<Arc<PartitionSpec>>,
    refs: Seq<Arc<Branch>>,
    id: i64,
    spec_id: i32,
    name: Seq<char>,
    i: int,
)
    ensures
        snapshot_at(snapshots, id, 0) == Some(i) <==> 0 <= i < snapshots.len()
            && snapshots[i].snapshot_id == id && forall|j: int|
            0 <= j < i ==> (#[trigger] snapshots[j]).snapshot_id != id,
        snapshot_at(snapshots, id, 0) is None <==> forall|j: int|
            0 <= j < snapshots.len() ==> (#[trigger] snapshots[j]).snapshot_id != id,
        spec_at(specs, spec_id, 0) == Some(i) <==> 0 <= i < specs.len() && specs[i].spec_id
            == spec_id && forall|j: int| 0 <= j < i ==> (#[trigger] specs[j]).spec_id != spec_id,
        spec_at(specs, spec_id, 0) is None <==> forall|j: int|
            0 <= j < specs.len() ==> (#[trigger] specs[j]).spec_id != spec_id,
        branch_at(refs, name, 0) == Some(i) <==> 0 <= i < refs.len() && refs[i].name@ == name
            && forall|j: int| 0 <= j < i ==> (#[trigger] refs[j]).name@ != name,
        branch_at(refs, name, 0) is None <==> forall|j: int|
            0 <= j < refs.len() ==> (#[trigger] refs[j]).name@ != name,
{
    lemma_snapshot_found(snapshots, id, 0);
    lemma_spec_found(specs, spec_id, 0);
    lemma_branch_found(refs, name, 0);
}

proof fn lemma_snapshot_found(snapshots: Seq<Arc<Snapshot>>, id: i64, from: int)
    requires
        0 <= from <= snapshots.len(),
    ensures
        match snapshot_at(snapshots, id, from) {
            Some(k) => from <= k < snapshots.len() && snapshots[k].snapshot_id == id && forall|
                j: int,
            |
                from <= j < k ==> (#[trigger] snapshots[j]).snapshot_id != id,
            None => forall|j: int|
                from <= j < snapshots.len() ==> (#[trigger] snapshots[j]).snapshot_id != id,
        },
    decreases snapshots.len() - from,
{
    if from < snapshots.len() && snapshots[from].snapshot_id != id {
        lemma_snapshot_found(snapshots, id, from + 1);
    }
}

proof fn lemma_spec_found(specs: Seq<Arc<PartitionSpec>>, id: i32, from: int)
    requires
        0 <= from <= specs.len(),
    ensures
        match spec_at(specs, id, from) {
            Some(k) => from <= k < specs.len() && specs[k].spec_id == id && forall|j: int|
                from <= j < k ==> (#[trigger] specs[j]).spec_id != id,
            None => forall|j: int| from <= j < specs.len() ==> (#[trigger] specs[j]).spec_id != id,
        },
    decreases specs.len() - from,
{
    if from < specs.len() && specs[from].spec_id != id {
        lemma_spec_found(specs, id, from + 1);
    }
}

proof fn lemma_branch_found(refs: Seq<Arc<Branch>>, name: Seq<char>, from: int)
    requires
        0 <= from <= refs.len(),
    ensures
        match branch_at(refs, name, from) {
            Some(k) => from <= k < refs.len() && refs[k].name@ == name && forall|j: int|
                from <= j < k ==> (#[trigger] refs[j]).name@ != name,
            None => forall|j: int| from <= j < refs.len() ==> (#[trigger] refs[j]).name@ != name,
        },
    decreases refs.len() - from,
{
    if from < refs.len() && refs[from].name@ != name {
        lemma_branch_found(refs, name, from + 1);
    }
}

/// The current snapshot is one of the table's, of the id that the table names; there is none just
/// where the table names none or lists no snapshot of that id.
pub proof fn law_current_snapshot_is_the_named_one(table: TableMetadata)
    ensures
        table.current() matches Some(s) ==> table.current_snapshot_id == Some(s.snapshot_id)
            && exists|i: int|
            0 <= i < table.snapshots@.len() && *(#[trigger] table.snapshots@[i]) == s,
        table.current() is None <==> table.current_snapshot_id is None || forall|i: int|
            0 <= i < table.snapshots@.len() ==> (#[trigger] table.snapshots@[i]).snapshot_id
                != table.current_snapshot_id->0,
{
    if table.current_snapshot_id is Some {
        lemma_snapshot_found(table.snapshots@, table.current_snapshot_id->0, 0);
    }
}

/// Sequence numbers rise by one from snapshot to snapshot, except in the first version, which has
/// none.
pub proof fn law_sequence_numbers_rise(table: TableMetadata)
    ensures
        table.format_version is V1 ==> table.next_sequence() == 0,
        table.format_version !is V1 ==> table.next_sequence() == table.last_sequence_number + 1,
        table.has_next_sequence_number() <==> table.last_sequence_number + 1 <= i64::MAX,
{
}

/// A table is handled as of the version that it declares, but for one of version 3 that says of
/// itself that it is of version 4.
pub proof fn law_only_version_3_is_lifted(table: TableMetadata)
    ensures
        table.effective_version() is V4 <==> table.format_version is V4 || (table.format_version
            is V3 && table.properties@.contains_key("e6.actual-format-version"@)
            && table.properties@["e6.actual-format-version"@] == "4"@),
        table.effective_version() !is V4 ==> table.effective_version() == table.format_version,
{
}

/// A requirement is met just where the table is the one that it names, or the branch that it names
/// is where it says: at the snapshot, or missing where it names no snapshot.
pub proof fn law_requirements_name_a_state(
    table: TableMetadata,
    uuid: u128,
    ref_name: String,
    snapshot_id: Option<i64>,
)
    ensures
        (TableRequirement::UuidMatch { uuid }).met_by(table) <==> table.uuid == uuid,
        snapshot_id is None ==> ((TableRequirement::RefSnapshotIdMatch {
            ref_name,
            snapshot_id,
        }).met_by(table) <==> forall|i: int|
            0 <= i < table.refs@.len() ==> (#[trigger] table.refs@[i]).name@ != ref_name@),
        snapshot_id is Some ==> ((TableRequirement::RefSnapshotIdMatch {
            ref_name,
            snapshot_id,
        }).met_by(table) <==> exists|i: int|
            0 <= i < table.refs@.len() && (#[trigger] table.refs@[i]).name@ == ref_name@
                && table.refs@[i].reference.snapshot_id == snapshot_id->0 && forall|j: int|
                0 <= j < i ==> (#[trigger] table.refs@[j]).name@ != ref_name@),
{
    lemma_branch_found(table.refs@, ref_name@, 0);
    if snapshot_id is Some && table.branch_snapshot(ref_name@) == snapshot_id {
        let i = branch_at(table.refs@, ref_name@, 0)->0;
        assert(table.refs@[i].name@ == ref_name@);
    }
}

/// A snapshot is added to a table where its id is new, its sequence number is above the last one
/// (but for the first version), its time is not a minute behind the table's, and its rows begin
/// where the table's rows end or later. The table then lists it behind the others, with its
/// sequence number, its time and its rows, and is otherwise as it was: no branch has moved.
pub proof fn law_adding_a_snapshot_moves_no_branch(m: MetadataView, snapshot: Arc<Snapshot>)
    ensures
        updated(m, TableUpdate::AddSnapshot { snapshot }) is Some <==> {
            &&& forall|i: int|
                0 <= i < m.snapshots.len() ==> (#[trigger] m.snapshots[i]).snapshot_id
                    != snapshot.snapshot_id
            &&& m.format_version is V1 || snapshot.sequence_number > m.last_sequence_number
            &&& snapshot.timestamp_ms + 60_000 >= m.last_updated_ms
            &&& snapshot.row_range is Some ==> snapshot.row_range->0.first_row_id >= m.next_row_id
                && m.next_row_id + snapshot.row_range->0.added_rows <= u64::MAX
        },
        updated(m, TableUpdate::AddSnapshot { snapshot }) matches Some(after) ==> {
            &&& after.snapshots == m.snapshots.push(snapshot)
            &&& after.last_sequence_number == snapshot.sequence_number
            &&& after.last_updated_ms == snapshot.timestamp_ms
            &&& snapshot.row_range is None ==> after.next_row_id == m.next_row_id
            &&& snapshot.row_range is Some ==> after.next_row_id == m.next_row_id
                + snapshot.row_range->0.added_rows
            &&& after.refs == m.refs
            &&& after.current_snapshot_id == m.current_snapshot_id
            &&& after.format_version == m.format_version
            &&& after.uuid == m.uuid
            &&& after.location == m.location
            &&& after.current_schema_id == m.current_schema_id
            &&& after.default_spec == m.default_spec
            &&& after.partition_specs == m.partition_specs
            &&& after.properties == m.properties
        },
{
    lemma_snapshot_found(m.snapshots, snapshot.snapshot_id, 0);
}

/// A branch is moved to a snapshot that the table lists. It then points there, every other branch
/// points where it did, and the current snapshot changes just with the main branch; nothing else of
/// the table does.
pub proof fn law_moving_a_branch_moves_no_other(
    m: MetadataView,
    ref_name: String,
    reference: SnapshotReference,
    other: Seq<char>,
)
    ensures
        updated(m, TableUpdate::SetSnapshotRef { ref_name, reference }) is Some <==> exists|i: int|
            0 <= i < m.snapshots.len() && (#[trigger] m.snapshots[i]).snapshot_id
                == reference.snapshot_id,
        updated(m, TableUpdate::SetSnapshotRef { ref_name, reference }) matches Some(after) ==> {
            &&& branch_at(after.refs, ref_name@, 0) is Some
            &&& after.refs[branch_at(after.refs, ref_name@, 0)->0].reference == reference
            &&& other != ref_name@ ==> (branch_at(after.refs, other, 0) is Some <==> branch_at(
                m.refs,
                other,
                0,
            ) is Some)
            &&& other != ref_name@ && branch_at(m.refs, other, 0) is Some
                ==> after.refs[branch_at(after.refs, other, 0)->0].reference
                == m.refs[branch_at(m.refs, other, 0)->0].reference
            &&& ref_name@ == "main"@ ==> after.current_snapshot_id == Some(reference.snapshot_id)
            &&& ref_name@ != "main"@ ==> after.current_snapshot_id == m.current_snapshot_id
            &&& after.snapshots == m.snapshots
            &&& after.last_sequence_number == m.last_sequence_number
            &&& after.last_updated_ms == m.last_updated_ms
            &&& after.next_row_id == m.next_row_id
            &&& after.format_version == m.format_version
            &&& after.uuid == m.uuid
            &&& after.location == m.location
            &&& after.current_schema_id == m.current_schema_id
            &&& after.default_spec == m.default_spec
            &&& after.partition_specs == m.partition_specs
            &&& after.properties == m.properties
        },
{
    lemma_snapshot_found(m.snapshots, reference.snapshot_id, 0);
    let after = with_branch(m.refs, ref_name, reference);
    lemma_branch_found(m.refs, ref_name@, 0);
    lemma_branch_found(after, ref_name@, 0);
    lemma_branch_found(m.refs, other, 0);
    lemma_branch_found(after, other, 0);
    let moved = match branch_at(m.refs, ref_name@, 0) {
        Some(i) => i,
        None => m.refs.len() as int,
    };
    assert(after[moved].name@ == ref_name@);
    assert forall|j: int| 0 <= j < m.refs.len() && j != moved implies after[j]
        == m.refs[j] by {}
    if other != ref_name@ {
        match branch_at(m.refs, other, 0) {
            Some(k) => {
                assert(after[k] == m.refs[k]);
                let found = branch_at(after, other, 0)->0;
                assert(after[found].name@ == other);
                assert(m.refs[found] == after[found]);
            },
            None => {
                if branch_at(after, other, 0) is Some {
                    let found = branch_at(after, other, 0)->0;
                    assert(after[found].name@ == other);
                    assert(m.refs[found] == after[found]);
                }
            },
        }
    }
}

/// The other updates change one thing each: the location, the properties that they name, the
/// version, which never falls, the schema, the specs, or the default among them.
pub proof fn law_updates_change_what_they_name(m: MetadataView, u: TableUpdate, key: Seq<char>)
    ensures
        u matches TableUpdate::SetLocation { location } ==> updated(m, u) == Some(
            MetadataView { location: location@, ..m },
        ),
        u matches TableUpdate::SetProperties { updates } ==> updated(m, u) matches Some(after) && {
            &&& after == (MetadataView { properties: after.properties, ..m })
            &&& after.properties.contains_key(key) <==> m.properties.contains_key(key)
                || updates@.contains_key(key)
            &&& updates@.contains_key(key) ==> after.properties[key] == updates@[key]
            &&& m.properties.contains_key(key) && !updates@.contains_key(key)
                ==> after.properties[key] == m.properties[key]
        },
        u matches TableUpdate::RemoveProperties { removals } ==> updated(m, u) matches Some(after)
            && {
            &&& after == (MetadataView { properties: after.properties, ..m })
            &&& after.properties.contains_key(key) <==> m.properties.contains_key(key) && forall|
                i: int,
            |
                0 <= i < removals@.len() ==> (#[trigger] removals@[i])@ != key
            &&& after.properties.contains_key(key) ==> after.properties[key] == m.properties[key]
        },
        u matches TableUpdate::UpgradeFormatVersion { format_version } ==> {
            &&& updated(m, u) is None <==> (m.format_version is V2 && format_version is V1) || (
            m.format_version is V3 && (format_version is V1 || format_version is V2)) || (
            m.format_version is V4 && format_version !is V4)
            &&& updated(m, u) is Some ==> updated(m, u)->0 == (MetadataView { format_version, ..m })
        },
        u matches TableUpdate::SetCurrentSchema { schema_id } ==> updated(m, u) == Some(
            MetadataView { current_schema_id: schema_id, ..m },
        ),
        u matches TableUpdate::AddSpec { spec } ==> {
            &&& updated(m, u) is Some <==> forall|i: int|
                0 <= i < m.partition_specs.len() ==> (#[trigger] m.partition_specs[i]).spec_id
                    != spec.spec_id
            &&& updated(m, u) is Some ==> updated(m, u)->0 == (MetadataView {
                partition_specs: m.partition_specs.push(spec),
                ..m
            })
        },
        u matches TableUpdate::SetDefaultSpec { spec_id } ==> {
            &&& updated(m, u) is Some <==> exists|i: int|
                0 <= i < m.partition_specs.len() && (#[trigger] m.partition_specs[i]).spec_id
                    == spec_id
            &&& updated(m, u) is Some ==> updated(m, u)->0.default_spec.spec_id == spec_id
                && updated(m, u)->0 == (MetadataView {
                default_spec: updated(m, u)->0.default_spec,
                ..m
            })
        },
{
    match u {
        TableUpdate::AddSpec { spec } => {
            lemma_spec_found(m.partition_specs, spec.spec_id, 0);
        },
        TableUpdate::SetDefaultSpec { spec_id } => {
            lemma_spec_found(m.partition_specs, spec_id, 0);
        },
        TableUpdate::RemoveProperties { removals } => {
            let gone = texts(removals@);
            if gone.contains(key) {
                let i = choose|i: int| 0 <= i < gone.len() && gone[i] == key;
                assert(removals@[i]@ == key);
            }
            if exists|i: int| 0 <= i < removals@.len() && (#[trigger] removals@[i])@ == key {
                let i = choose|i: int| 0 <= i < removals@.len() && (#[trigger] removals@[i])@ == key;
                assert(gone[i] == key);
            }
        },
        _ => {},
    }
}

/// Updates are applied one behind the other: a list of them does what its first part does and then
/// what its second part does, and nothing where either cannot be applied.
pub proof fn law_updates_apply_in_order(m: MetadataView, a: Seq<TableUpdate>, b: Seq<TableUpdate>)
    ensures
        all_updated(m, a + b) == match all_updated(m, a) {
            Some(between) => all_updated(between, b),
            None => None,
        },
    decreases b.len(),
{
    if b.len() == 0 {
        assert(a + b =~= a);
    } else {
        law_updates_apply_in_order(m, a, b.drop_last());
        assert((a + b).drop_last() =~= a + b.drop_last());
    }
}

/// A spec is found just where one of the table's specs has its id, and has that id.
pub proof fn law_specs_are_found_by_id(table: TableMetadata, spec_id: i32)
    ensures
        table.spec_by_id(spec_id) is Some <==> exists|i: int|
            0 <= i < table.partition_specs@.len() && (#[trigger] table.partition_specs@[i]).spec_id
                == spec_id,
        table.spec_by_id(spec_id) is Some ==> table.spec_by_id(spec_id)->0.spec_id == spec_id,
{
    lemma_spec_found(table.partition_specs@, spec_id, 0);
}

/// Versions are told by their names, which end in their numbers.
pub proof fn law_versions_are_told_by_their_names(a: FormatVersion, b: FormatVersion)
    ensures
        version_name(a) == version_name(b) <==> a == b,
        version_name(a).len() == 2,
        version_name(a)[0] == 'V',
        a is V1 ==> version_name(a)[1] == '1',
        a is V2 ==> version_name(a)[1] == '2',
        a is V3 ==> version_name(a)[1] == '3',
        a is V4 ==> version_name(a)[1] == '4',
{
    reveal_strlit("V1");
    reveal_strlit("V2");
    reveal_strlit("V3");
    reveal_strlit("V4");
    let digit = |v: FormatVersion|
        match v {
            FormatVersion::V1 => '1',
            FormatVersion::V2 => '2',
            FormatVersion::V3 => '3',
            FormatVersion::V4 => '4',
        };
    assert(version_name(a)[1] == digit(a));
    assert(version_name(b)[1] == digit(b));
    if version_name(a) == version_name(b) {
        assert(digit(a) == digit(b));
    }
}

} // verus!
