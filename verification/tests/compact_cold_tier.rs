use std::collections::HashMap;
use std::sync::Arc;

use cold_tier::compact_cold_tier::{
    apply_removals, can_reuse, leaf_is_tight, leaf_keep_reason, leaf_may_hold_partitions,
    CommitStart, CompactColdTierAction, LeafKeepReason,
};
use cold_tier::error::ErrorKind;
use cold_tier::manifest::{
    DataContentType, DataFile, FieldSummary, FormatVersion, ManifestContentType, ManifestEntry,
    ManifestFile, ManifestStatus, RootManifestEntry, RootManifestMetadata,
};
use cold_tier::partition::{
    bound_bytes_of, FieldKind, Literal, PartitionSpec, PrimitiveLiteral, Struct, StructType,
};
use cold_tier::path_set::{PathSet, Properties};
use cold_tier::table::{
    Branch, BranchRetention, Operation, Snapshot, SnapshotReference, Summary, TableMetadata,
    TableRequirement, TableUpdate,
};

fn df_in(path: &str, partition: Struct) -> DataFile {
    DataFile {
        content: DataContentType::Data,
        file_path: path.to_string(),
        partition,
        partition_spec_id: 0,
        record_count: 1,
        file_size_in_bytes: 100,
        upper_bounds: HashMap::new(),
        equality_ids: None,
    }
}

fn df(path: &str) -> DataFile {
    df_in(path, Struct { fields: vec![] })
}

fn shared(paths: &[&str]) -> Vec<Arc<DataFile>> {
    paths.iter().map(|p| Arc::new(df(p))).collect()
}

fn set(paths: &[&str]) -> PathSet {
    let paths: Vec<String> = paths.iter().map(|p| p.to_string()).collect();
    PathSet::from_paths(&paths)
}

fn entry_in(path: &str, status: ManifestStatus, partition: Struct) -> ManifestEntry {
    ManifestEntry {
        status,
        snapshot_id: Some(3),
        sequence_number: Some(4),
        file_sequence_number: Some(5),
        data_file: Arc::new(df_in(path, partition)),
    }
}

fn entry(path: &str, status: ManifestStatus) -> ManifestEntry {
    entry_in(path, status, Struct { fields: vec![] })
}

fn leaf_at(path: &str, partitions: Option<Vec<FieldSummary>>) -> ManifestFile {
    let mut leaf = leaf_with(partitions);
    leaf.manifest_path = path.to_string();
    leaf
}

fn metadata(properties: &[(&str, &str)], with_snapshot: bool) -> TableMetadata {
    let mut props = Properties::new();
    for (k, v) in properties {
        props.insert(k.to_string(), v.to_string());
    }
    let spec = Arc::new(PartitionSpec {
        spec_id: 7,
        fields: vec![],
        partition_type: Some(StructType { fields: vec![] }),
    });
    let reference = SnapshotReference {
        snapshot_id: 11,
        retention: BranchRetention {
            min_snapshots_to_keep: None,
            max_snapshot_age_ms: None,
            max_ref_age_ms: None,
        },
    };
    let snapshot = Snapshot {
        snapshot_id: 11,
        parent_snapshot_id: None,
        sequence_number: 41,
        timestamp_ms: 1_000,
        manifest_list: "s3://t/metadata/root-head.parquet".to_string(),
        summary: Summary { operation: Operation::Append, additional_properties: Properties::new() },
        schema_id: Some(2),
        row_range: None,
    };
    TableMetadata {
        format_version: FormatVersion::V4,
        uuid: 0xabc,
        location: "s3://t".to_string(),
        last_sequence_number: 41,
        last_updated_ms: 1_000,
        next_row_id: 9,
        current_schema_id: 2,
        default_spec: spec.clone(),
        partition_specs: vec![spec],
        current_snapshot_id: if with_snapshot { Some(11) } else { None },
        snapshots: if with_snapshot { vec![Arc::new(snapshot)] } else { vec![] },
        refs: if with_snapshot {
            vec![Arc::new(Branch { name: "main".to_string(), reference })]
        } else {
            vec![]
        },
        properties: Arc::new(props),
    }
}

fn root_metadata(bucket_index: Option<&str>, chain_depth: u32, removed: &[&str]) -> RootManifestMetadata {
    RootManifestMetadata {
        schema_id: 2,
        partition_spec_id: 7,
        format_version: FormatVersion::V4,
        snapshot_id: 11,
        sequence_number: 41,
        parent_snapshot_id: None,
        bucket_index_path: bucket_index.map(|p| p.to_string()),
        prev_root_path: None,
        chain_depth,
        node_level: 0,
        removed_paths: removed.iter().map(|p| p.to_string()).collect(),
    }
}

#[test]
fn apply_removals_filters_and_flags() {
    let files = shared(&["keep-1", "merged-away", "keep-2"]);
    let removed = set(&["merged-away"]);
    let (survivors, affected) = apply_removals(files, &removed);
    assert!(affected);
    let paths: Vec<&str> = survivors.iter().map(|f| f.file_path.as_str()).collect();
    assert_eq!(paths, vec!["keep-1", "keep-2"]);
}

#[test]
fn apply_removals_unaffected_leaf() {
    let files = shared(&["a", "b"]);
    let removed = set(&["x"]);
    let (survivors, affected) = apply_removals(files, &removed);
    assert!(!affected);
    assert_eq!(survivors.len(), 2);
}

fn leaf_with(partitions: Option<Vec<FieldSummary>>) -> ManifestFile {
    ManifestFile {
        manifest_path: "s3://b/leaf.parquet".to_string(),
        manifest_length: 4096,
        partition_spec_id: 0,
        content: ManifestContentType::Data,
        sequence_number: 5,
        min_sequence_number: 1,
        added_snapshot_id: 100,
        added_files_count: Some(10),
        existing_files_count: Some(0),
        deleted_files_count: Some(0),
        added_rows_count: Some(1000),
        existing_rows_count: Some(0),
        deleted_rows_count: Some(0),
        partitions,
        key_metadata: None,
        first_row_id: None,
    }
}

fn long_partition_type() -> StructType {
    StructType { fields: vec![FieldKind::Primitive] }
}

fn long_partition(v: i64) -> Struct {
    Struct { fields: vec![Some(Literal::Primitive(PrimitiveLiteral::Long(v)))] }
}

fn long_bytes(v: i64) -> Vec<u8> {
    bound_bytes_of(&PrimitiveLiteral::Long(v)).unwrap()
}

fn summary(lower: Option<i64>, upper: Option<i64>) -> Option<Vec<FieldSummary>> {
    Some(vec![FieldSummary {
        contains_null: false,
        contains_nan: Some(false),
        lower_bound: lower.map(long_bytes),
        upper_bound: upper.map(long_bytes),
    }])
}

fn tight_summary(v: i64) -> Option<Vec<FieldSummary>> {
    summary(Some(v), Some(v))
}

#[test]
fn tight_leaf_in_another_partition_is_pruned() {
    let pt = long_partition_type();
    let seven = long_partition(7);
    let targets = [&seven];
    assert!(!leaf_may_hold_partitions(&leaf_with(tight_summary(9)), &targets, &pt));
    assert!(leaf_may_hold_partitions(&leaf_with(tight_summary(7)), &targets, &pt));
}

#[test]
fn prune_is_conservative_when_it_cannot_prove_a_mismatch() {
    let pt = long_partition_type();
    let seven = long_partition(7);
    let targets = [&seven];

    assert!(leaf_may_hold_partitions(&leaf_with(tight_summary(9)), &[], &pt));
    assert!(leaf_may_hold_partitions(&leaf_with(None), &targets, &pt));
    assert!(leaf_may_hold_partitions(&leaf_with(Some(vec![])), &targets, &pt));
    let wide = summary(Some(1), Some(99));
    assert!(leaf_may_hold_partitions(&leaf_with(wide), &targets, &pt));
    let half = summary(Some(7), None);
    assert!(leaf_may_hold_partitions(&leaf_with(half), &targets, &pt));
}

#[test]
fn tightness_is_independent_of_any_target() {
    let pt = long_partition_type();
    assert!(leaf_is_tight(&leaf_with(tight_summary(7)), &pt));
    assert!(!leaf_is_tight(&leaf_with(None), &pt));
    assert!(!leaf_is_tight(&leaf_with(Some(vec![])), &pt));
    let wide = summary(Some(1), Some(99));
    assert!(!leaf_is_tight(&leaf_with(wide), &pt));
    let half = summary(Some(7), None);
    assert!(!leaf_is_tight(&leaf_with(half), &pt));
}

#[test]
fn keep_reason_separates_matched_from_unprunable() {
    let pt = long_partition_type();
    let seven = long_partition(7);
    let targets = [&seven];

    assert!(matches!(
        leaf_keep_reason(&leaf_with(tight_summary(7)), &targets, &pt),
        LeafKeepReason::Matched
    ));
    assert!(matches!(
        leaf_keep_reason(&leaf_with(tight_summary(9)), &targets, &pt),
        LeafKeepReason::Pruned
    ));
    let wide = summary(Some(1), Some(99));
    assert!(matches!(
        leaf_keep_reason(&leaf_with(wide), &targets, &pt),
        LeafKeepReason::Unprunable
    ));
    assert!(matches!(
        leaf_keep_reason(&leaf_with(None), &targets, &pt),
        LeafKeepReason::Unprunable
    ));
    assert!(matches!(
        leaf_keep_reason(&leaf_with(tight_summary(7)), &[], &pt),
        LeafKeepReason::Unprunable
    ));
}

#[test]
fn leaf_matching_any_target_partition_is_kept() {
    let pt = long_partition_type();
    let (one, seven, forty_two) = (long_partition(1), long_partition(7), long_partition(42));
    let targets = [&one, &seven, &forty_two];
    assert!(leaf_may_hold_partitions(&leaf_with(tight_summary(42)), &targets, &pt));
    assert!(!leaf_may_hold_partitions(&leaf_with(tight_summary(43)), &targets, &pt));
}

#[test]
fn builder_accumulates() {
    let a = CompactColdTierAction::new()
        .remove_files(vec!["p1".to_string(), "p2".to_string()])
        .add_files(vec![df("merged")]);
    assert_eq!(a.removed.len(), 2);
    assert_eq!(a.added.len(), 1);
}

#[test]
fn null_and_nested_targets_never_prune() {
    let pt = long_partition_type();
    let null = Struct { fields: vec![None] };
    let nested = Struct { fields: vec![Some(Literal::Nested(vec![1]))] };
    let unencodable =
        Struct { fields: vec![Some(Literal::Primitive(PrimitiveLiteral::Other(None)))] };
    let short = Struct { fields: vec![] };
    for target in [&null, &nested, &unencodable, &short] {
        assert_eq!(
            leaf_keep_reason(&leaf_with(tight_summary(9)), &[target], &pt),
            LeafKeepReason::Matched
        );
    }
    let nested_type = StructType { fields: vec![FieldKind::Nested] };
    let seven = long_partition(7);
    assert_eq!(
        leaf_keep_reason(&leaf_with(tight_summary(9)), &[&seven], &nested_type),
        LeafKeepReason::Matched
    );
}

#[test]
fn scan_rewrites_only_the_leaves_that_lose_a_file() {
    let pt = long_partition_type();
    let action = CompactColdTierAction::new()
        .remove_files(vec!["small-1".to_string(), "small-2".to_string()])
        .add_files(vec![df_in("merged", long_partition(7))]);
    let leaves = vec![
        leaf_at("other-partition", tight_summary(9)),
        leaf_at("touched", tight_summary(7)),
        leaf_at("untouched", None),
    ];
    let mut scan = action.start_scan(leaves, &pt);
    let tombstoned = set(&["tombstoned"]);

    assert_eq!(scan.next_leaf().unwrap().manifest_path, "touched");
    assert_eq!(scan.leaf(1).unwrap().manifest_path, "untouched");
    assert!(scan.leaf(2).is_none());
    scan.add_leaf(
        &[
            entry_in("small-1", ManifestStatus::Added, long_partition(7)),
            entry_in("stays", ManifestStatus::Existing, long_partition(7)),
            entry_in("tombstoned", ManifestStatus::Existing, long_partition(7)),
            entry_in("dead", ManifestStatus::Deleted, long_partition(7)),
        ],
        &tombstoned,
        &action.removed,
    );
    assert_eq!(scan.next_leaf().unwrap().manifest_path, "untouched");
    scan.add_leaf(&[entry("whatever", ManifestStatus::Added)], &tombstoned, &action.removed);
    assert!(scan.next_leaf().is_none());

    let table = metadata(&[], true);
    assert_eq!(scan.survivors_len(), 1);
    let mut counter = 3;
    let rewrite = action.plan_rewrite(scan, &table, &mut counter).unwrap().unwrap();
    assert_eq!(counter, 4);
    let kept: Vec<&str> = rewrite.kept.iter().map(|l| l.manifest_path.as_str()).collect();
    assert_eq!(kept, vec!["other-partition", "untouched"]);
    assert!(rewrite.any_affected);
    assert_eq!(rewrite.writes.len(), 1, "one partition, one leaf");
    let paths: Vec<&str> =
        rewrite.writes[0].entries.iter().map(|e| e.data_file.file_path.as_str()).collect();
    assert_eq!(paths, vec!["stays", "merged"]);
    assert!(rewrite.writes[0].entries.iter().all(|e| e.status == ManifestStatus::Existing
        && e.snapshot_id.is_none()));
    assert!(rewrite.writes[0].path.starts_with("s3://t/metadata/"));
    assert!(rewrite.writes[0].path.ends_with("-m3.parquet"));
    assert_eq!(rewrite.writes[0].spec_id, 7);
}

#[test]
fn additions_alone_are_refused_when_removals_match_nothing() {
    let pt = long_partition_type();
    let table = metadata(&[], true);
    let action = CompactColdTierAction::new()
        .remove_files(vec!["hot-1".to_string(), "hot-2".to_string()])
        .add_files(vec![df("merged")]);
    let scan = action.start_scan(vec![], &pt);
    let err = action.plan_rewrite(scan, &table, &mut 0).err().unwrap();
    assert_eq!(err.kind(), ErrorKind::Unexpected);
    assert_eq!(
        err.message(),
        "compact_cold_tier: 2 removal path(s) matched no cold-leaf entries — refusing to add 1 \
         file(s) alone (would duplicate rows if inputs are still hot)"
    );

    let idle = CompactColdTierAction::new().remove_files(vec!["gone".to_string()]);
    let scan = idle.start_scan(vec![], &pt);
    assert!(idle.plan_rewrite(scan, &table, &mut 0).unwrap().is_none());

    let added = CompactColdTierAction::new().add_files(vec![df("new")]);
    let scan = added.start_scan(vec![], &pt);
    let rewrite = added.plan_rewrite(scan, &table, &mut 0).unwrap().unwrap();
    assert_eq!(rewrite.writes.len(), 1);
}

#[test]
fn compaction_needs_version_four_and_work() {
    let action = CompactColdTierAction::new().remove_files(vec!["a".to_string()]);
    let mut v2 = metadata(&[], true);
    v2.format_version = FormatVersion::V2;
    let err = action.start_commit(&v2).err().unwrap();
    assert_eq!(err.kind(), ErrorKind::FeatureUnsupported);
    assert_eq!(err.message(), "compact_cold_tier requires format version V4 (effective=V2)");

    let mut opted_in = metadata(&[("e6.actual-format-version", "4")], true);
    opted_in.format_version = FormatVersion::V3;
    assert_eq!(action.start_commit(&opted_in).unwrap(), CommitStart::Proceed);

    assert_eq!(action.start_commit(&metadata(&[], true)).unwrap(), CommitStart::Proceed);
    assert_eq!(action.start_commit(&metadata(&[], false)).unwrap(), CommitStart::Nothing);
    let idle = CompactColdTierAction::new();
    assert_eq!(idle.start_commit(&metadata(&[], true)).unwrap(), CommitStart::Nothing);
}

#[test]
fn prepared_work_is_reused_while_the_index_stands() {
    let index = Some("s3://t/metadata/bucket-index-1.parquet".to_string());
    let table = metadata(&[("root-manifest.incremental", "true")], true);
    assert!(can_reuse(&index, &table, &root_metadata(index.as_deref(), 3, &[]), 8));
    assert!(!can_reuse(&index, &table, &root_metadata(index.as_deref(), 8, &[]), 8));
    assert!(!can_reuse(&index, &table, &root_metadata(Some("other"), 3, &[]), 8));
    assert!(!can_reuse(&index, &table, &root_metadata(None, 3, &[]), 8));
    assert!(can_reuse(&None, &table, &root_metadata(None, 0, &[]), 8));
    let plain = metadata(&[], true);
    assert!(
        !can_reuse(&index, &plain, &root_metadata(index.as_deref(), 3, &[]), 8),
        "a root that stands alone would list old entries"
    );
}

fn old_root() -> Vec<RootManifestEntry> {
    vec![RootManifestEntry::Inline(entry("hot", ManifestStatus::Added))]
}

fn prepared(action: &CompactColdTierAction, table: &TableMetadata) -> cold_tier::compact_cold_tier::PreparedCompaction {
    let pt = long_partition_type();
    let scan = action.start_scan(vec![leaf_at("stays", tight_summary(9))], &pt);
    let rewrite = action.plan_rewrite(scan, table, &mut 0).unwrap().unwrap();
    let head = root_metadata(Some("old-index"), 0, &["gone-1", "gone-2"]);
    let (prep, index) =
        action.finish_prepare(table, rewrite, vec![leaf_at("new", None)], 77, &head, old_root());
    let index = index.unwrap();
    let paths: Vec<&str> = index.leaves.iter().map(|l| l.manifest_path.as_str()).collect();
    assert_eq!(paths, vec!["stays", "new"]);
    assert_eq!(index.metadata.snapshot_id, 77);
    assert_eq!(index.metadata.sequence_number, 42);
    assert_eq!(prep.new_bucket_index_path.as_deref(), Some(index.path.as_str()));
    assert_eq!(prep.prep_bucket_index_path.as_deref(), Some("old-index"));
    prep
}

#[test]
fn incremental_tables_get_a_delta_root() {
    let mut action =
        CompactColdTierAction::new().add_files(vec![df_in("merged", long_partition(7))]);
    action.commit_id = 0x0123_4567_89ab_cdef_0123_4567_89ab_cdef;
    let table = metadata(&[("root-manifest.incremental", "TRUE")], true);
    let prep = prepared(&action, &table);
    let rc = action.finalize_at(&table, &prep, 3, 8, 1, 5_000).unwrap();
    assert!(rc.entries.is_empty(), "a root that adds to another lists nothing");
    assert_eq!(
        rc.root_path,
        "s3://t/metadata/root-77-01234567-89ab-cdef-0123-456789abcdef-\
         00000000-0000-0000-0000-000000000001.parquet"
    );
    assert_eq!(
        prep.new_bucket_index_path.as_deref().unwrap(),
        "s3://t/metadata/bucket-index-77-01234567-89ab-cdef-0123-456789abcdef.parquet"
    );
    assert_eq!(
        rc.root_metadata.prev_root_path.as_deref(),
        Some("s3://t/metadata/root-head.parquet")
    );
    assert_eq!(rc.root_metadata.chain_depth, 4);
    assert!(rc.root_metadata.removed_paths.is_empty());
    assert_eq!(rc.root_metadata.bucket_index_path, prep.new_bucket_index_path);

    let mut commit = rc.commit;
    assert_eq!(
        commit.take_manifest_paths(),
        vec![rc.root_path.clone(), prep.new_bucket_index_path.clone().unwrap()]
    );
    let updates = commit.take_updates();
    assert_eq!(updates.len(), 2);
    match &updates[0] {
        TableUpdate::AddSnapshot { snapshot } => {
            assert_eq!(snapshot.snapshot_id, 77);
            assert_eq!(snapshot.parent_snapshot_id, Some(11));
            assert_eq!(snapshot.sequence_number, 42);
            assert_eq!(snapshot.timestamp_ms, 5_000);
            assert_eq!(snapshot.manifest_list, rc.root_path);
            assert_eq!(snapshot.summary.operation, Operation::Replace);
            let p = &snapshot.summary.additional_properties;
            assert_eq!(p.get("cold-compact-removed").unwrap(), "0");
            assert_eq!(p.get("cold-compact-added").unwrap(), "1");
            assert_eq!(p.get("cold-compact-leaves-after").unwrap(), "2");
            assert_eq!(snapshot.schema_id, Some(2));
            let rows = snapshot.row_range.unwrap();
            assert_eq!((rows.first_row_id, rows.added_rows), (9, 0));
        }
        _ => panic!("expected AddSnapshot"),
    }
    let requirements = commit.take_requirements();
    assert_eq!(
        requirements,
        vec![
            TableRequirement::UuidMatch { uuid: 0xabc },
            TableRequirement::RefSnapshotIdMatch {
                ref_name: "main".to_string(),
                snapshot_id: Some(11)
            },
        ]
    );
}

#[test]
fn plain_tables_and_deep_chains_get_a_flat_root() {
    let action = CompactColdTierAction::new().add_files(vec![df_in("merged", long_partition(7))]);
    for (table, depth) in [
        (metadata(&[], true), 3),
        (metadata(&[("root-manifest.incremental", "true")], true), 8),
        (metadata(&[("root-manifest.incremental", "no")], true), 0),
    ] {
        let prep = prepared(&action, &table);
        let rc = action.finalize_at(&table, &prep, depth, 8, 1, 5_000).unwrap();
        assert_eq!(*rc.entries, old_root(), "a root that stands alone lists the old entries");
        assert_eq!(rc.root_metadata.prev_root_path, None);
        assert_eq!(rc.root_metadata.chain_depth, 0);
        assert_eq!(rc.root_metadata.removed_paths, vec!["gone-1", "gone-2"]);
    }
}

#[test]
fn finalize_fails_without_a_snapshot() {
    let action = CompactColdTierAction::new().add_files(vec![df_in("merged", long_partition(7))]);
    let prep = prepared(&action, &metadata(&[], true));
    let err = action.finalize(&metadata(&[], false), &prep, 0, 8).err().unwrap();
    assert_eq!(err.kind(), ErrorKind::Unexpected);
    assert_eq!(err.message(), "compact_cold_tier: table has no current snapshot at finalize");
}

#[test]
fn attempts_write_roots_of_their_own() {
    let action = CompactColdTierAction::new().add_files(vec![df_in("merged", long_partition(7))]);
    let table = metadata(&[], true);
    let prep = prepared(&action, &table);
    let first = action.finalize(&table, &prep, 0, 8).unwrap();
    let second = action.finalize(&table, &prep, 0, 8).unwrap();
    assert_ne!(first.root_path, second.root_path);
    assert_eq!(action.snapshot_id(5), 5);
    assert_eq!(action.with_snapshot_id(6).snapshot_id(5), 6);
}

#[test]
fn an_emptied_cold_tier_has_no_index() {
    let pt = long_partition_type();
    let table = metadata(&[], true);
    let action = CompactColdTierAction::new().remove_files(vec!["only".to_string()]);
    let mut scan = action.start_scan(vec![leaf_at("leaf", None)], &pt);
    scan.add_leaf(&[entry("only", ManifestStatus::Added)], &set(&[]), &action.removed);
    let rewrite = action.plan_rewrite(scan, &table, &mut 0).unwrap().unwrap();
    assert!(rewrite.writes.is_empty());
    let head = root_metadata(Some("old-index"), 0, &[]);
    let (prep, index) = action.finish_prepare(&table, rewrite, vec![], 77, &head, vec![]);
    assert!(index.is_none());
    assert!(prep.new_bucket_index_path.is_none());
    let rc = action.finalize_at(&table, &prep, 0, 8, 1, 1).unwrap();
    let mut commit = rc.commit;
    assert_eq!(commit.take_manifest_paths(), vec![rc.root_path]);
}
