//! The snapshot, the root and the changes that an action commits.

use std::sync::Arc;

use vstd::prelude::*;
use vstd::string::StringExecFns;

use crate::action::ActionCommit;
use crate::error::{Error, ErrorKind};
use crate::manifest::{FormatVersion, RootManifestEntry, RootManifestMetadata};
use crate::outside::{dashes_ahead, hex_digit, id_text, id_text_of, is_dash, pow16};
use crate::path_set::Properties;
use crate::table::{
    copy_text, copy_texts, text_view, version_name, version_name_of, BranchRetention, Operation,
    RowRange, Snapshot, SnapshotReference, Summary, TableMetadata, TableRequirement, TableUpdate,
};
use crate::text::{
    decimal, decimal_of, eq_ignore_ascii_case, law_signed_decimals_differ, lemma_decimal_is_digits,
    lemma_decimals_differ,
    same_ignoring_case, signed_decimal, signed_decimal_of, texts,
};

verus! {

/// The path of a bucket index.
pub open spec fn bucket_index_path(location: Seq<char>, snapshot_id: i64, commit_id: u128) -> Seq<
    char,
> {
    location + "/metadata/bucket-index-"@ + signed_decimal(snapshot_id as int) + "-"@ + id_text(
        commit_id,
    ) + ".parquet"@
}

/// Names a bucket index.
pub fn bucket_index_path_of(location: &str, snapshot_id: i64, commit_id: u128) -> (r: String)
    ensures
        r@ == bucket_index_path(location@, snapshot_id, commit_id),
{
    let mut r = location.to_owned();
    r.append("/metadata/bucket-index-");
    r.append(signed_decimal_of(snapshot_id).as_str());
    r.append("-");
    r.append(id_text_of(commit_id).as_str());
    r.append(".parquet");
    r
}

/// The path of a root that is written once per commit.
pub open spec fn root_path(location: Seq<char>, snapshot_id: i64, commit_id: u128) -> Seq<char> {
    location + "/metadata/root-"@ + signed_decimal(snapshot_id as int) + "-"@ + id_text(commit_id)
        + ".parquet"@
}

/// Names a root that is written once per commit.
pub fn root_path_of(location: &str, snapshot_id: i64, commit_id: u128) -> (r: String)
    ensures
        r@ == root_path(location@, snapshot_id, commit_id),
{
    let mut r = location.to_owned();
    r.append("/metadata/root-");
    r.append(signed_decimal_of(snapshot_id).as_str());
    r.append("-");
    r.append(id_text_of(commit_id).as_str());
    r.append(".parquet");
    r
}

/// The path of a root that every attempt at a commit writes anew.
pub open spec fn attempt_root_path(
    location: Seq<char>,
    snapshot_id: i64,
    commit_id: u128,
    attempt_id: u128,
) -> Seq<char> {
    location + "/metadata/root-"@ + signed_decimal(snapshot_id as int) + "-"@ + id_text(commit_id)
        + "-"@ + id_text(attempt_id) + ".parquet"@
}

/// Names a root that every attempt at a commit writes anew.
pub fn attempt_root_path_of(location: &str, snapshot_id: i64, commit_id: u128, attempt_id: u128) -> (r:
    String)
    ensures
        r@ == attempt_root_path(location@, snapshot_id, commit_id, attempt_id),
{
    let mut r = location.to_owned();
    r.append("/metadata/root-");
    r.append(signed_decimal_of(snapshot_id).as_str());
    r.append("-");
    r.append(id_text_of(commit_id).as_str());
    r.append("-");
    r.append(id_text_of(attempt_id).as_str());
    r.append(".parquet");
    r
}

/// The path of the manifest number `n` of a commit, with the extension `ext`.
pub open spec fn manifest_path(location: Seq<char>, commit_id: u128, n: u64, ext: Seq<char>) -> Seq<
    char,
> {
    location + "/metadata/"@ + id_text(commit_id) + "-m"@ + decimal(n as nat) + "."@ + ext
}

/// Names the manifest number `n` of a commit.
pub fn manifest_path_of(location: &str, commit_id: u128, n: u64, ext: &str) -> (r: String)
    ensures
        r@ == manifest_path(location@, commit_id, n, ext@),
{
    let mut r = location.to_owned();
    r.append("/metadata/");
    r.append(id_text_of(commit_id).as_str());
    r.append("-m");
    r.append(decimal_of(n).as_str());
    r.append(".");
    r.append(ext);
    r
}

/// Manifests of different numbers stand at different paths, whatever else their paths are made of.
pub proof fn law_manifest_paths_differ(
    location: Seq<char>,
    commit_id: u128,
    m: u64,
    other_location: Seq<char>,
    other_id: u128,
    n: u64,
    ext: Seq<char>,
)
    requires
        m != n,
    ensures
        manifest_path(location, commit_id, m, ext) != manifest_path(
            other_location,
            other_id,
            n,
            ext,
        ),
{
    let p = manifest_path(location, commit_id, m, ext);
    let q = manifest_path(other_location, other_id, n, ext);
    if p == q {
        let a = decimal(m as nat);
        let b = decimal(n as nat);
        let tail = ("."@ + ext).len();
        let end = p.len() - tail;
        reveal_strlit("-m");
        lemma_decimal_is_digits(m as nat);
        lemma_decimal_is_digits(n as nat);
        assert(p[end - a.len() - 1] == 'm');
        assert(q[end - b.len() - 1] == 'm');
        if a.len() < b.len() {
            assert(q[end - a.len() - 1] == b[b.len() - a.len() - 1]);
            assert(false);
        }
        if b.len() < a.len() {
            assert(p[end - b.len() - 1] == a[a.len() - b.len() - 1]);
            assert(false);
        }
        assert forall|i: int| 0 <= i < a.len() implies a[i] == b[i] by {
            assert(p[end - a.len() + i] == a[i]);
            assert(q[end - b.len() + i] == b[i]);
        }
        assert(a =~= b);
        lemma_decimals_differ(m as nat, n as nat);
    }
}

/// What a replacing snapshot on top of `table` says.
pub open spec fn is_replacing_snapshot(
    s: Snapshot,
    table: TableMetadata,
    snapshot_id: i64,
    manifest_list: Seq<char>,
    summary: Map<Seq<char>, Seq<char>>,
    timestamp_ms: i64,
    row_range: Option<RowRange>,
) -> bool {
    &&& s.snapshot_id == snapshot_id
    &&& s.parent_snapshot_id == table.current_snapshot_id
    &&& s.sequence_number == table.next_sequence()
    &&& s.timestamp_ms == timestamp_ms
    &&& s.manifest_list@ == manifest_list
    &&& s.summary.operation == Operation::Replace
    &&& s.summary.additional_properties@ == summary
    &&& s.schema_id == Some(table.current_schema_id)
    &&& s.row_range == row_range
}

/// The reference of a branch that keeps its snapshots as long as the table does.
pub open spec fn plain_branch(snapshot_id: i64) -> SnapshotReference {
    SnapshotReference {
        snapshot_id,
        retention: BranchRetention {
            min_snapshots_to_keep: None,
            max_snapshot_age_ms: None,
            max_ref_age_ms: None,
        },
    }
}

/// Whether `updates` add the snapshot that the other arguments describe and point the main branch
/// at it, and `requirements` ask that the table be the same and its main branch unmoved.
pub open spec fn replaces(
    updates: Seq<TableUpdate>,
    requirements: Seq<TableRequirement>,
    table: TableMetadata,
    snapshot_id: i64,
    manifest_list: Seq<char>,
    summary: Map<Seq<char>, Seq<char>>,
    timestamp_ms: i64,
    row_range: Option<RowRange>,
) -> bool {
    &&& updates.len() == 2
    &&& updates[0] matches TableUpdate::AddSnapshot { snapshot } && is_replacing_snapshot(
        *snapshot,
        table,
        snapshot_id,
        manifest_list,
        summary,
        timestamp_ms,
        row_range,
    )
    &&& updates[1] matches TableUpdate::SetSnapshotRef { ref_name, reference } && ref_name@
        == "main"@ && reference == plain_branch(snapshot_id)
    &&& requirements.len() == 2
    &&& requirements[0] == (TableRequirement::UuidMatch { uuid: table.uuid })
    &&& requirements[1] matches TableRequirement::RefSnapshotIdMatch {
        ref_name,
        snapshot_id: expected,
    } && ref_name@ == "main"@ && expected == table.current_snapshot_id
}

/// Commits a replacing snapshot on top of `table`.
pub fn replace_commit(
    table: &TableMetadata,
    snapshot_id: i64,
    manifest_list: String,
    summary: Properties,
    timestamp_ms: i64,
    row_range: Option<RowRange>,
) -> (r: ActionCommit)
    requires
        table.has_next_sequence_number(),
    ensures
        replaces(
            r.updates(),
            r.requirements(),
            *table,
            snapshot_id,
            manifest_list@,
            summary@,
            timestamp_ms,
            row_range,
        ),
        r.manifest_paths() == Seq::<String>::empty(),
        r.root_entries() is None,
{
    let snapshot = Snapshot {
        snapshot_id,
        parent_snapshot_id: table.current_snapshot_id,
        sequence_number: table.next_sequence_number(),
        timestamp_ms,
        manifest_list,
        summary: Summary { operation: Operation::Replace, additional_properties: summary },
        schema_id: Some(table.current_schema_id),
        row_range,
    };
    let reference = SnapshotReference {
        snapshot_id,
        retention: BranchRetention {
            min_snapshots_to_keep: None,
            max_snapshot_age_ms: None,
            max_ref_age_ms: None,
        },
    };
    let mut updates: Vec<TableUpdate> = Vec::new();
    updates.push(TableUpdate::AddSnapshot { snapshot: Arc::new(snapshot) });
    updates.push(TableUpdate::SetSnapshotRef { ref_name: "main".to_owned(), reference });
    let mut requirements: Vec<TableRequirement> = Vec::new();
    requirements.push(TableRequirement::UuidMatch { uuid: table.uuid });
    requirements.push(
        TableRequirement::RefSnapshotIdMatch {
            ref_name: "main".to_owned(),
            snapshot_id: table.current_snapshot_id,
        },
    );
    ActionCommit::new(updates, requirements)
}

/// No row ids are given out: the range is empty.
pub open spec fn no_rows(table: TableMetadata) -> Option<RowRange> {
    Some(RowRange { first_row_id: table.next_row_id, added_rows: 0 })
}

/// What a root, or a bucket index, of a commit on top of `table` says of itself.
pub open spec fn describes(
    m: RootManifestMetadata,
    table: TableMetadata,
    snapshot_id: i64,
    bucket_index: Option<Seq<char>>,
    prev_root: Option<Seq<char>>,
    chain_depth: int,
    removed: Seq<Seq<char>>,
) -> bool {
    &&& m.schema_id == table.current_schema_id
    &&& m.partition_spec_id == table.default_spec.spec_id
    &&& m.format_version == FormatVersion::V4
    &&& m.snapshot_id == snapshot_id
    &&& m.sequence_number == table.next_sequence()
    &&& m.parent_snapshot_id == table.current_snapshot_id
    &&& text_view(m.bucket_index_path) == bucket_index
    &&& text_view(m.prev_root_path) == prev_root
    &&& m.chain_depth == chain_depth
    &&& m.node_level == 0
    &&& texts(m.removed_paths@) == removed
}

/// Describes a root, or a bucket index, of a commit on top of `table`.
pub fn describe_root(
    table: &TableMetadata,
    snapshot_id: i64,
    bucket_index: Option<String>,
    prev_root: Option<String>,
    chain_depth: u32,
    removed_paths: Vec<String>,
) -> (r: RootManifestMetadata)
    requires
        table.has_next_sequence_number(),
    ensures
        describes(
            r,
            *table,
            snapshot_id,
            text_view(bucket_index),
            text_view(prev_root),
            chain_depth as int,
            texts(removed_paths@),
        ),
{
    RootManifestMetadata {
        schema_id: table.current_schema_id,
        partition_spec_id: table.default_spec.spec_id,
        format_version: FormatVersion::V4,
        snapshot_id,
        sequence_number: table.next_sequence_number(),
        parent_snapshot_id: table.current_snapshot_id,
        bucket_index_path: bucket_index,
        prev_root_path: prev_root,
        chain_depth,
        node_level: 0,
        removed_paths,
    }
}

/// Whether the table asks for roots that only add to the one beneath.
pub open spec fn incremental(table: TableMetadata) -> bool {
    table.properties@.contains_key("root-manifest.incremental"@) && same_ignoring_case(
        table.properties@["root-manifest.incremental"@],
        "true"@,
    )
}

/// Whether the next root only adds to the one beneath: the table asks for it, and the chain of
/// roots is not at its greatest depth.
pub open spec fn writes_delta(table: TableMetadata, chain_depth: u32, max_chain_depth: u32) -> bool {
    incremental(table) && chain_depth < max_chain_depth
}

/// Whether the next root only adds to the one beneath.
pub fn writes_delta_root(table: &TableMetadata, chain_depth: u32, max_chain_depth: u32) -> (r: bool)
    ensures
        r == writes_delta(*table, chain_depth, max_chain_depth),
{
    let asked = match table.properties.get("root-manifest.incremental") {
        Some(v) => eq_ignore_ascii_case(v.as_str(), "true"),
        None => false,
    };
    asked && chain_depth < max_chain_depth
}

/// A root to write, and the commit that points at it.
pub struct RootCommit {
    pub root_path: String,
    pub root_metadata: RootManifestMetadata,
    /// What the root lists: nothing, where it only adds to the one beneath.
    pub entries: Arc<Vec<RootManifestEntry>>,
    pub commit: ActionCommit,
}

/// The ids and the time of an attempt at a commit.
pub struct Attempt {
    pub snapshot_id: i64,
    pub commit_id: u128,
    /// Tells the roots of two attempts apart.
    pub attempt_id: u128,
    pub timestamp_ms: i64,
}

/// The paths of the root, and of the bucket index where there is one.
pub open spec fn root_and_index(root: Seq<char>, bucket_index: Option<Seq<char>>) -> Seq<Seq<char>> {
    match bucket_index {
        Some(path) => seq![root, path],
        None => seq![root],
    }
}

/// Whether `rc` moves `table` to a root with the bucket index `bucket_index`. Where the root only
/// adds to the one beneath, it stands one deeper in the chain, lists nothing and tombstones
/// `delta_removed`; otherwise it stands alone, lists `flat_entries` and carries the tombstones
/// `flat_removed`.
pub open spec fn is_root_commit(
    rc: RootCommit,
    table: TableMetadata,
    beneath: Seq<char>,
    attempt: Attempt,
    bucket_index: Option<Seq<char>>,
    chain_depth: u32,
    max_chain_depth: u32,
    delta_removed: Seq<Seq<char>>,
    flat_removed: Seq<Seq<char>>,
    flat_entries: Seq<RootManifestEntry>,
    summary: Map<Seq<char>, Seq<char>>,
) -> bool {
    let delta = writes_delta(table, chain_depth, max_chain_depth);
    &&& rc.entries@ == if delta {
        Seq::empty()
    } else {
        flat_entries
    }
    &&& rc.root_path@ == attempt_root_path(
        table.location@,
        attempt.snapshot_id,
        attempt.commit_id,
        attempt.attempt_id,
    )
    &&& describes(
        rc.root_metadata,
        table,
        attempt.snapshot_id,
        bucket_index,
        if delta {
            Some(beneath)
        } else {
            None
        },
        if delta {
            chain_depth + 1
        } else {
            0
        },
        if delta {
            delta_removed
        } else {
            flat_removed
        },
    )
    &&& replaces(
        rc.commit.updates(),
        rc.commit.requirements(),
        table,
        attempt.snapshot_id,
        rc.root_path@,
        summary,
        attempt.timestamp_ms,
        no_rows(table),
    )
    &&& texts(rc.commit.manifest_paths()) == root_and_index(rc.root_path@, bucket_index)
    &&& rc.commit.root_entries() is None
}

/// Moves `table` to a root with the bucket index `bucket_index`.
pub fn root_commit(
    table: &TableMetadata,
    beneath: &str,
    attempt: &Attempt,
    bucket_index: &Option<String>,
    chain_depth: u32,
    max_chain_depth: u32,
    delta_removed: &[String],
    flat_removed: &[String],
    flat_entries: &Arc<Vec<RootManifestEntry>>,
    summary: Properties,
) -> (r: RootCommit)
    requires
        table.has_next_sequence_number(),
    ensures
        is_root_commit(
            r,
            *table,
            beneath@,
            *attempt,
            text_view(*bucket_index),
            chain_depth,
            max_chain_depth,
            texts(delta_removed@),
            texts(flat_removed@),
            flat_entries@,
            summary@,
        ),
{
    let delta = writes_delta_root(table, chain_depth, max_chain_depth);
    let prev_root: Option<String> = if delta {
        Some(beneath.to_owned())
    } else {
        None
    };
    let depth: u32 = if delta {
        chain_depth + 1
    } else {
        0
    };
    let removed: Vec<String> = if delta {
        copy_texts(delta_removed)
    } else {
        copy_texts(flat_removed)
    };
    let root_metadata = describe_root(
        table,
        attempt.snapshot_id,
        copy_text(bucket_index),
        prev_root,
        depth,
        removed,
    );
    let root_path = attempt_root_path_of(
        table.location.as_str(),
        attempt.snapshot_id,
        attempt.commit_id,
        attempt.attempt_id,
    );
    let commit = replace_commit(
        table,
        attempt.snapshot_id,
        root_path.clone(),
        summary,
        attempt.timestamp_ms,
        Some(RowRange { first_row_id: table.next_row_id, added_rows: 0 }),
    );
    let mut paths: Vec<String> = Vec::new();
    paths.push(root_path.clone());
    if let Some(path) = bucket_index {
        paths.push(path.clone());
    }
    assert(texts(paths@) =~= root_and_index(root_path@, text_view(*bucket_index)));
    RootCommit {
        root_path,
        root_metadata,
        entries: if delta {
            Arc::new(Vec::new())
        } else {
            flat_entries.clone()
        },
        commit: commit.with_manifest_paths(paths),
    }
}

/// What an action says of a table below version 4.
pub open spec fn needs_v4_message(action: Seq<char>, effective: FormatVersion) -> Seq<char> {
    action + " requires format version V4 (effective="@ + version_name(effective) + ")"@
}

/// Fails where the table is not handled as version 4.
pub fn require_v4(table: &TableMetadata, action: &str) -> (r: Result<(), Error>)
    ensures
        r is Ok <==> table.effective_version() == FormatVersion::V4,
        r is Err ==> r->Err_0.says(
            ErrorKind::FeatureUnsupported,
            needs_v4_message(action@, table.effective_version()),
        ),
{
    let effective = table.effective_format_version();
    if effective == FormatVersion::V4 {
        Ok(())
    } else {
        let mut message = action.to_owned();
        message.append(" requires format version V4 (effective=");
        message.append(version_name_of(effective));
        message.append(")");
        Err(Error::new(ErrorKind::FeatureUnsupported, message))
    }
}

/// An id is told by its text.
pub proof fn law_ids_are_told_by_their_text(a: u128, b: u128)
    requires
        id_text(a) == id_text(b),
    ensures
        a == b,
{
    assert forall|k: nat| k < 32 implies (a as nat / #[trigger] pow16(k)) % 16 == (b as nat / pow16(
        k,
    )) % 16 by {
        let d = 31 - k;
        let i: int = if d < 8 {
            d
        } else if d < 12 {
            d + 1
        } else if d < 16 {
            d + 2
        } else if d < 20 {
            d + 3
        } else {
            d + 4
        };
        assert(!is_dash(i));
        assert(i - dashes_ahead(i) == d);
        assert(id_text(a)[i] == id_text(b)[i]);
        let x = (a as nat / pow16(k)) % 16;
        let y = (b as nat / pow16(k)) % 16;
        lemma_pow16_is_positive(k);
        assert(0 <= x < 16 && 0 <= y < 16);
        assert(id_text(a)[i] == hex_digit(x));
        assert(id_text(b)[i] == hex_digit(y));
        assert(x < 10 ==> hex_digit(x) as int == 48 + x);
        assert(y < 10 ==> hex_digit(y) as int == 48 + y);
        assert(x >= 10 ==> hex_digit(x) as int == 87 + x);
        assert(y >= 10 ==> hex_digit(y) as int == 87 + y);
    }
    lemma_digits_tell(a, b, 0);
    assert(pow16(0) == 1);
    assert(a as nat / 1 == a as nat);
    assert(b as nat / 1 == b as nat);
}

proof fn lemma_pow16_is_positive(n: nat)
    ensures
        pow16(n) > 0,
    decreases n,
{
    if n > 0 {
        lemma_pow16_is_positive((n - 1) as nat);
    }
}

proof fn lemma_digits_tell(a: u128, b: u128, k: nat)
    requires
        k <= 32,
        forall|j: nat|
            j < 32 ==> (a as nat / #[trigger] pow16(j)) % 16 == (b as nat / pow16(j)) % 16,
    ensures
        a as nat / pow16(k) == b as nat / pow16(k),
    decreases 32 - k,
{
    if k == 32 {
        reveal_with_fuel(pow16, 33);
        assert(pow16(32) == 0x1_0000_0000_0000_0000_0000_0000_0000_0000);
    } else {
        lemma_digits_tell(a, b, k + 1);
        lemma_pow16_is_positive(k);
        let p = pow16(k) as int;
        assert(pow16(k + 1) == 16 * pow16(k));
        vstd::arithmetic::div_mod::lemma_div_denominator(a as int, p, 16);
        vstd::arithmetic::div_mod::lemma_div_denominator(b as int, p, 16);
        assert(p * 16 == pow16(k + 1));
        assert((a as int / p) / 16 == (b as int / p) / 16);
        assert((a as nat / pow16(k)) % 16 == (b as nat / pow16(k)) % 16);
    }
}

/// An id of which only what is fixed stands behind it is told, and so is what stands ahead of it.
pub proof fn lemma_id_stands_at_the_end(x: Seq<char>, a: u128, y: Seq<char>, b: u128, end: Seq<char>)
    requires
        x + id_text(a) + end == y + id_text(b) + end,
    ensures
        x == y,
        a == b,
{
    let p = x + id_text(a) + end;
    let q = y + id_text(b) + end;
    assert(p.len() == x.len() + 36 + end.len());
    assert(q.len() == y.len() + 36 + end.len());
    let n = x.len() as int;
    assert(p.take(n) =~= x);
    assert(q.take(n) =~= y);
    assert(p.subrange(n, n + 36) =~= id_text(a));
    assert(q.subrange(n, n + 36) =~= id_text(b));
    law_ids_are_told_by_their_text(a, b);
}

/// A number is told where the same stands ahead of it and behind it.
pub proof fn lemma_number_behind(x: Seq<char>, i: int, j: int, end: Seq<char>)
    requires
        x + signed_decimal(i) + end == x + signed_decimal(j) + end,
    ensures
        i == j,
{
    let p = x + signed_decimal(i) + end;
    let q = x + signed_decimal(j) + end;
    let n = x.len() as int;
    assert(p.len() == n + signed_decimal(i).len() + end.len());
    assert(q.len() == n + signed_decimal(j).len() + end.len());
    let m = signed_decimal(i).len();
    assert(p.subrange(n, n + m) =~= signed_decimal(i));
    assert(q.subrange(n, n + m) =~= signed_decimal(j));
    if i != j {
        law_signed_decimals_differ(i, j);
    }
}

/// No two commits write one root: the path of a root tells its snapshot and its commit, and that of
/// an attempt its attempt too. The path of a bucket index tells its snapshot and its commit.
pub proof fn law_paths_tell_their_commit(
    location: Seq<char>,
    s: i64,
    c: u128,
    a: u128,
    t: i64,
    d: u128,
    b: u128,
)
    ensures
        root_path(location, s, c) == root_path(location, t, d) <==> s == t && c == d,
        bucket_index_path(location, s, c) == bucket_index_path(location, t, d) <==> s == t && c == d,
        attempt_root_path(location, s, c, a) == attempt_root_path(location, t, d, b) <==> s == t
            && c == d && a == b,
{
    let root = location + "/metadata/root-"@;
    let index = location + "/metadata/bucket-index-"@;
    let sd = signed_decimal(s as int);
    let td = signed_decimal(t as int);
    if root_path(location, s, c) == root_path(location, t, d) {
        lemma_id_stands_at_the_end(root + sd + "-"@, c, root + td + "-"@, d, ".parquet"@);
        lemma_number_behind(root, s as int, t as int, "-"@);
    }
    if bucket_index_path(location, s, c) == bucket_index_path(location, t, d) {
        lemma_id_stands_at_the_end(index + sd + "-"@, c, index + td + "-"@, d, ".parquet"@);
        lemma_number_behind(index, s as int, t as int, "-"@);
    }
    if attempt_root_path(location, s, c, a) == attempt_root_path(location, t, d, b) {
        let x = root + sd + "-"@ + id_text(c);
        let y = root + td + "-"@ + id_text(d);
        lemma_id_stands_at_the_end(x + "-"@, a, y + "-"@, b, ".parquet"@);
        assert((x + "-"@).take(x.len() as int) =~= x);
        assert((y + "-"@).take(y.len() as int) =~= y);
        assert(root + sd + "-"@ + id_text(c) + Seq::<char>::empty() =~= x);
        assert(root + td + "-"@ + id_text(d) + Seq::<char>::empty() =~= y);
        lemma_id_stands_at_the_end(root + sd + "-"@, c, root + td + "-"@, d, Seq::empty());
        lemma_number_behind(root, s as int, t as int, "-"@);
    }
}

/// A replacing commit adds one snapshot, whose parent is the current one, under the table's schema
/// and with the next sequence number, and moves the main branch to it without rules of retention.
/// It goes through only on the same table, with the main branch where it was.
pub proof fn law_replacing_commit_follows_the_current_snapshot(
    updates: Seq<TableUpdate>,
    requirements: Seq<TableRequirement>,
    table: TableMetadata,
    snapshot_id: i64,
    manifest_list: Seq<char>,
    summary: Map<Seq<char>, Seq<char>>,
    timestamp_ms: i64,
    row_range: Option<RowRange>,
)
    requires
        replaces(
            updates,
            requirements,
            table,
            snapshot_id,
            manifest_list,
            summary,
            timestamp_ms,
            row_range,
        ),
    ensures
        updates.len() == 2,
        updates[0] matches TableUpdate::AddSnapshot { snapshot } && {
            &&& snapshot.snapshot_id == snapshot_id
            &&& snapshot.parent_snapshot_id == table.current_snapshot_id
            &&& table.format_version is V1 ==> snapshot.sequence_number == 0
            &&& table.format_version !is V1 ==> snapshot.sequence_number
                == table.last_sequence_number + 1
            &&& snapshot.timestamp_ms == timestamp_ms
            &&& snapshot.manifest_list@ == manifest_list
            &&& snapshot.summary.operation is Replace
            &&& snapshot.summary.additional_properties@ == summary
            &&& snapshot.schema_id == Some(table.current_schema_id)
            &&& snapshot.row_range == row_range
        },
        updates[1] matches TableUpdate::SetSnapshotRef { ref_name, reference } && {
            &&& ref_name@ == "main"@
            &&& reference.snapshot_id == snapshot_id
            &&& reference.retention.min_snapshots_to_keep is None
            &&& reference.retention.max_snapshot_age_ms is None
            &&& reference.retention.max_ref_age_ms is None
        },
        requirements.len() == 2,
        requirements[0] matches TableRequirement::UuidMatch { uuid } && uuid == table.uuid,
        requirements[1] matches TableRequirement::RefSnapshotIdMatch {
            ref_name,
            snapshot_id: expected,
        } && ref_name@ == "main"@ && expected == table.current_snapshot_id,
        no_rows(table) matches Some(rows) && rows.first_row_id == table.next_row_id
            && rows.added_rows == 0,
{
}

/// A root says of itself what its snapshot is, whose child it is, and that it is of version 4.
pub proof fn law_root_describes_its_snapshot(
    m: RootManifestMetadata,
    table: TableMetadata,
    snapshot_id: i64,
    bucket_index: Option<Seq<char>>,
    prev_root: Option<Seq<char>>,
    chain_depth: int,
    removed: Seq<Seq<char>>,
)
    requires
        describes(m, table, snapshot_id, bucket_index, prev_root, chain_depth, removed),
    ensures
        m.schema_id == table.current_schema_id,
        m.partition_spec_id == table.default_spec.spec_id,
        m.format_version is V4,
        m.snapshot_id == snapshot_id,
        table.format_version is V1 ==> m.sequence_number == 0,
        table.format_version !is V1 ==> m.sequence_number == table.last_sequence_number + 1,
        m.parent_snapshot_id == table.current_snapshot_id,
        bucket_index is None <==> m.bucket_index_path is None,
        bucket_index is Some ==> m.bucket_index_path->0@ == bucket_index->0,
        prev_root is None <==> m.prev_root_path is None,
        prev_root is Some ==> m.prev_root_path->0@ == prev_root->0,
        m.chain_depth == chain_depth,
        m.node_level == 0,
        m.removed_paths@.len() == removed.len(),
        forall|i: int|
            0 <= i < removed.len() ==> (#[trigger] m.removed_paths@[i])@ == removed[i],
{
    assert forall|i: int| 0 <= i < removed.len() implies (#[trigger] m.removed_paths@[i])@
        == removed[i] by {
        assert(texts(m.removed_paths@)[i] == m.removed_paths@[i]@);
    }
}

/// A root is written as a delta just where the table asks for it and the chain has room: it then
/// lists nothing itself, names the root beneath, and is one deeper than it. Otherwise it stands
/// alone: it lists the entries, names no root and is of depth zero. Either way the snapshot's list
/// is the root.
pub proof fn law_delta_stands_on_the_root_beneath(
    rc: RootCommit,
    table: TableMetadata,
    beneath: Seq<char>,
    attempt: Attempt,
    bucket_index: Option<Seq<char>>,
    chain_depth: u32,
    max_chain_depth: u32,
    delta_removed: Seq<Seq<char>>,
    flat_removed: Seq<Seq<char>>,
    flat_entries: Seq<RootManifestEntry>,
    summary: Map<Seq<char>, Seq<char>>,
)
    requires
        is_root_commit(
            rc,
            table,
            beneath,
            attempt,
            bucket_index,
            chain_depth,
            max_chain_depth,
            delta_removed,
            flat_removed,
            flat_entries,
            summary,
        ),
    ensures
        ({
            let asked = table.properties@.contains_key("root-manifest.incremental"@)
                && same_ignoring_case(
                table.properties@["root-manifest.incremental"@],
                "true"@,
            );
            let m = rc.root_metadata;
            if asked && chain_depth < max_chain_depth {
                &&& rc.entries@.len() == 0
                &&& m.prev_root_path is Some && m.prev_root_path->0@ == beneath
                &&& m.chain_depth == chain_depth + 1
                &&& texts(m.removed_paths@) == delta_removed
            } else {
                &&& rc.entries@ == flat_entries
                &&& m.prev_root_path is None
                &&& m.chain_depth == 0
                &&& texts(m.removed_paths@) == flat_removed
            }
        }),
        rc.root_metadata.snapshot_id == attempt.snapshot_id,
        bucket_index is None <==> rc.root_metadata.bucket_index_path is None,
        bucket_index is Some ==> rc.root_metadata.bucket_index_path->0@ == bucket_index->0,
        rc.commit.updates()[0] matches TableUpdate::AddSnapshot { snapshot }
            && snapshot.manifest_list@ == rc.root_path@ && snapshot.snapshot_id
            == attempt.snapshot_id && snapshot.timestamp_ms == attempt.timestamp_ms
            && snapshot.row_range is Some && snapshot.row_range->0.first_row_id
            == table.next_row_id && snapshot.row_range->0.added_rows == 0,
        texts(rc.commit.manifest_paths()).contains(rc.root_path@),
        bucket_index is Some ==> texts(rc.commit.manifest_paths()).contains(bucket_index->0),
        rc.commit.manifest_paths().len() == if bucket_index is Some {
            2nat
        } else {
            1
        },
{
    let paths = texts(rc.commit.manifest_paths());
    assert(paths.len() == rc.commit.manifest_paths().len());
    assert(paths[0] == rc.root_path@);
    if bucket_index is Some {
        assert(paths[1] == bucket_index->0);
    }
}

/// No two commits share a manifest: its path tells its commit and its number.
pub proof fn law_manifest_paths_tell_their_commit(
    location: Seq<char>,
    c: u128,
    m: u64,
    d: u128,
    n: u64,
    ext: Seq<char>,
)
    ensures
        manifest_path(location, c, m, ext) == manifest_path(location, d, n, ext) <==> c == d && m == n,
{
    let x = location + "/metadata/"@;
    if manifest_path(location, c, m, ext) == manifest_path(location, d, n, ext) {
        let p = manifest_path(location, c, m, ext);
        let q = manifest_path(location, d, n, ext);
        let at = x.len() as int;
        assert(p.subrange(at, at + 36) =~= id_text(c));
        assert(q.subrange(at, at + 36) =~= id_text(d));
        law_ids_are_told_by_their_text(c, d);
        if m != n {
            law_manifest_paths_differ(location, c, m, location, d, n, ext);
        }
    }
}

/// What a commit writes stands beneath the metadata directory of the table, in files that say what
/// they are by their names and endings.
pub proof fn law_paths_stand_beneath_the_metadata(
    location: Seq<char>,
    snapshot_id: i64,
    c: u128,
    a: u128,
    n: u64,
)
    ensures
        (location + "/metadata/"@).is_prefix_of(manifest_path(location, c, n, "parquet"@)),
        (location + "/metadata/root-"@).is_prefix_of(root_path(location, snapshot_id, c)),
        (location + "/metadata/root-"@).is_prefix_of(
            attempt_root_path(location, snapshot_id, c, a),
        ),
        (location + "/metadata/bucket-index-"@).is_prefix_of(
            bucket_index_path(location, snapshot_id, c),
        ),
        ".parquet"@.is_suffix_of(root_path(location, snapshot_id, c)),
        ".parquet"@.is_suffix_of(attempt_root_path(location, snapshot_id, c, a)),
        ".parquet"@.is_suffix_of(bucket_index_path(location, snapshot_id, c)),
        root_path(location, snapshot_id, c) != bucket_index_path(location, snapshot_id, c),
{
    let m = manifest_path(location, c, n, "parquet"@);
    let r = root_path(location, snapshot_id, c);
    let t = attempt_root_path(location, snapshot_id, c, a);
    let b = bucket_index_path(location, snapshot_id, c);
    let x = location + "/metadata/"@;
    let root = location + "/metadata/root-"@;
    let index = location + "/metadata/bucket-index-"@;
    assert(x =~= m.take(x.len() as int));
    assert(root =~= r.take(root.len() as int));
    assert(root =~= t.take(root.len() as int));
    assert(index =~= b.take(index.len() as int));
    let end = ".parquet"@;
    assert(end =~= r.skip(r.len() - end.len()));
    assert(end =~= t.skip(t.len() - end.len()));
    assert(end =~= b.skip(b.len() - end.len()));
    reveal_strlit("/metadata/root-");
    reveal_strlit("/metadata/bucket-index-");
    assert(r[location.len() as int + 10] == 'r');
    assert(b[location.len() as int + 10] == 'b');
}

/// A refusal for want of version 4 says which action was refused and what the table is handled as.
pub proof fn law_refusal_names_the_version(
    action: Seq<char>,
    a: FormatVersion,
    b: FormatVersion,
)
    ensures
        action.is_prefix_of(needs_v4_message(action, a)),
        needs_v4_message(action, a) == needs_v4_message(action, b) <==> a == b,
{
    let p = needs_v4_message(action, a);
    let q = needs_v4_message(action, b);
    assert(action =~= p.take(action.len() as int));
    crate::table::law_versions_are_told_by_their_names(a, b);
    crate::table::law_versions_are_told_by_their_names(b, a);
    let at = (action + " requires format version V4 (effective="@).len() as int;
    assert(p.subrange(at, at + 2) =~= version_name(a));
    assert(q.subrange(at, at + 2) =~= version_name(b));
}

} // verus!
