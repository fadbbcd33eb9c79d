use std::collections::HashMap;
use std::sync::Arc;

use cold_tier::cold_move::FoldOutcome;
use cold_tier::compact_cold_tier::CommitStart;
use cold_tier::error::ErrorKind;
use cold_tier::graduate_buckets::{
    dedupe_leaves_by_path, distinct_summary_partitions, fold_batch_size, fold_surviving_entries,
    fold_would_consolidate, plan_graduated_node, push_data_file_and_sidecar, GraduateBucketsAction,
    GraduatedNodePlan,
};
use cold_tier::manifest::{
    file_max_ts, max_ts_of, ref_max_event_micros, DataContentType, DataFile, FieldSummary,
    FormatVersion, ManifestContentType, ManifestEntry, ManifestFile, ManifestStatus,
    RootManifestEntry, RootManifestMetadata,
};
use cold_tier::max_ts::sidecar_hit;
use cold_tier::partition::{
    bound_bytes_of, transform_upper_micros, FieldKind, PartitionField, PartitionSpec,
    PrimitiveLiteral, Struct, StructType, Transform,
};
use cold_tier::path_set::{PathSet, Properties};
use cold_tier::table::{Operation, Snapshot, Summary, TableMetadata, TableUpdate};

fn df(path: &str, ts_max: Option<(i32, i64)>) -> DataFile {
    let mut upper_bounds = HashMap::new();
    if let Some((fid, micros)) = ts_max {
        upper_bounds.insert(fid, PrimitiveLiteral::Long(micros));
    }
    DataFile {
        content: DataContentType::Data,
        file_path: path.to_string(),
        partition: Struct { fields: vec![] },
        partition_spec_id: 0,
        record_count: 1,
        file_size_in_bytes: 100,
        upper_bounds,
        equality_ids: None,
    }
}

fn alive_entry(path: &str) -> ManifestEntry {
    ManifestEntry {
        status: ManifestStatus::Existing,
        snapshot_id: None,
        sequence_number: None,
        file_sequence_number: None,
        data_file: Arc::new(df(path, None)),
    }
}

fn removed(paths: &[&str]) -> PathSet {
    let paths: Vec<String> = paths.iter().map(|p| p.to_string()).collect();
    PathSet::from_paths(&paths)
}

fn paths_of(entries: &[ManifestEntry]) -> Vec<&str> {
    entries.iter().map(|e| e.data_file.file_path.as_str()).collect()
}

#[test]
fn fold_drops_removed_files() {
    let entries = vec![alive_entry("a"), alive_entry("b"), alive_entry("c")];
    let kept = fold_surviving_entries(&entries, &removed(&["b"]));
    assert_eq!(paths_of(&kept), vec!["a", "c"]);
    assert!(
        kept.iter().all(|e| e.status == ManifestStatus::Existing),
        "folded entries carry into a new leaf as Existing"
    );
}

#[test]
fn fold_keeps_everything_when_nothing_removed() {
    let entries = vec![alive_entry("a"), alive_entry("b")];
    assert_eq!(fold_surviving_entries(&entries, &removed(&[])).len(), 2);
    assert_eq!(fold_surviving_entries(&entries, &removed(&["x"])).len(), 2);
}

#[test]
fn fold_yields_nothing_when_all_removed() {
    let entries = vec![alive_entry("a"), alive_entry("b")];
    assert!(fold_surviving_entries(&entries, &removed(&["a", "b"])).is_empty());
}

fn long_bytes(v: i64) -> Vec<u8> {
    bound_bytes_of(&PrimitiveLiteral::Long(v)).unwrap()
}

fn leaf_with_partition(vals: &[i64]) -> ManifestFile {
    let partitions = vals
        .iter()
        .map(|v| {
            let b = long_bytes(*v);
            FieldSummary {
                contains_null: false,
                contains_nan: Some(false),
                lower_bound: Some(b.clone()),
                upper_bound: Some(b),
            }
        })
        .collect::<Vec<_>>();
    ManifestFile {
        manifest_path: format!("s3://b/{vals:?}.parquet"),
        manifest_length: 1,
        partition_spec_id: 0,
        content: ManifestContentType::Data,
        sequence_number: 1,
        min_sequence_number: 1,
        added_snapshot_id: 1,
        added_files_count: Some(1),
        existing_files_count: Some(0),
        deleted_files_count: Some(0),
        added_rows_count: Some(1),
        existing_rows_count: Some(0),
        deleted_rows_count: Some(0),
        partitions: Some(partitions),
        key_metadata: None,
        first_row_id: None,
    }
}

#[test]
fn distinct_partitions_read_from_summaries() {
    let nodes = vec![
        leaf_with_partition(&[1, 10]),
        leaf_with_partition(&[1, 10]),
        leaf_with_partition(&[1, 11]),
        leaf_with_partition(&[1, 11]),
    ];
    assert_eq!(distinct_summary_partitions(&nodes), Some(2));
    let a = leaf_with_partition(&[1, 2]);
    let b = leaf_with_partition(&[12]);
    assert_ne!(
        distinct_summary_partitions(&[a, b]),
        Some(1),
        "concatenated keys must not collide"
    );
}

#[test]
fn distinct_partitions_unknowable_when_summary_is_wide() {
    let mut wide = leaf_with_partition(&[1]);
    wide.partitions.as_mut().unwrap()[0].upper_bound = Some(long_bytes(99));
    assert_eq!(distinct_summary_partitions(&[wide.clone()]), None);
    assert!(fold_would_consolidate(&[wide]), "unknowable must fold");

    let mut absent = leaf_with_partition(&[1]);
    absent.partitions = None;
    assert_eq!(distinct_summary_partitions(&[absent.clone()]), None);
    assert!(fold_would_consolidate(&[absent]));
}

#[test]
fn fold_gate_matches_the_measured_split() {
    let logs: Vec<ManifestFile> = (0..80).map(|i| leaf_with_partition(&[1, i])).collect();
    assert_eq!(distinct_summary_partitions(&logs), Some(80));
    assert!(!fold_would_consolidate(&logs), "80 -> 80 must not fold");

    let m1m: Vec<ManifestFile> = (0..256).map(|i| leaf_with_partition(&[1, i % 14])).collect();
    assert_eq!(distinct_summary_partitions(&m1m), Some(14));
    assert!(fold_would_consolidate(&m1m), "256 -> 14 must fold");

    let exact: Vec<ManifestFile> = (0..10).map(|i| leaf_with_partition(&[1, i % 5])).collect();
    assert!(fold_would_consolidate(&exact));
    let under: Vec<ManifestFile> = (0..10).map(|i| leaf_with_partition(&[1, i % 6])).collect();
    assert!(!fold_would_consolidate(&under));
}

fn mf(p: &str) -> ManifestFile {
    let mut f = leaf_with_partition(&[]);
    f.manifest_path = p.to_string();
    f.partitions = None;
    f
}

#[test]
fn dedupe_leaves_keeps_first_occurrence_and_counts_drops() {
    let mut leaves = vec![mf("a"), mf("b"), mf("a"), mf("c"), mf("b"), mf("a")];
    let dropped = dedupe_leaves_by_path(&mut leaves);
    assert_eq!(dropped, 3, "three redundant entries removed");
    let paths: Vec<&str> = leaves.iter().map(|m| m.manifest_path.as_str()).collect();
    assert_eq!(paths, vec!["a", "b", "c"], "first occurrence order preserved");

    let mut clean = vec![mf("x"), mf("y")];
    assert_eq!(
        dedupe_leaves_by_path(&mut clean),
        0,
        "a clean index is untouched and reports zero"
    );
    assert_eq!(clean.len(), 2);
}

#[test]
fn fold_batch_bounds_folding_not_graduation() {
    assert_eq!(fold_batch_size(Some(256), 1000), 256, "fold batch caps folding");
    assert_eq!(fold_batch_size(Some(256), 10), 10, "never exceeds what is graduating");
    assert_eq!(fold_batch_size(None, 1000), 0, "no fold configured => fold nothing");
    assert_eq!(fold_batch_size(Some(0), 1000), 0, "0 disables folding");
    let graduating = 1000usize;
    let folded = fold_batch_size(Some(256), graduating);
    assert_eq!(
        graduating - folded,
        744,
        "the remainder graduates by reference in the SAME pass, not later"
    );
}

#[test]
fn leaf_fold_is_opt_in_and_zero_disables() {
    assert_eq!(GraduateBucketsAction::new(1, 0).fold_leaves, None);
    assert_eq!(GraduateBucketsAction::new(1, 0).with_leaf_fold(256).fold_leaves, Some(256));
    assert_eq!(GraduateBucketsAction::new(1, 0).with_leaf_fold(0).fold_leaves, None);
}

#[test]
fn plan_by_reference_when_nothing_removed() {
    let entries = vec![alive_entry("a"), alive_entry("b")];
    assert!(matches!(
        plan_graduated_node(&entries, &removed(&[])),
        GraduatedNodePlan::ByReference
    ));
    assert!(matches!(
        plan_graduated_node(&entries, &removed(&["x"])),
        GraduatedNodePlan::ByReference
    ));
}

#[test]
fn plan_materializes_without_removed_files() {
    let entries = vec![alive_entry("a"), alive_entry("b"), alive_entry("c")];
    match plan_graduated_node(&entries, &removed(&["b"])) {
        GraduatedNodePlan::Materialize(kept) => {
            assert_eq!(paths_of(&kept), vec!["a", "c"], "removed file 'b' must be dropped");
        }
        other => panic!("expected Materialize, got {:?}", plan_name(&other)),
    }
}

#[test]
fn plan_skips_when_all_removed() {
    let entries = vec![alive_entry("a"), alive_entry("b")];
    assert!(matches!(
        plan_graduated_node(&entries, &removed(&["a", "b"])),
        GraduatedNodePlan::Skip
    ));
}

fn plan_name(p: &GraduatedNodePlan) -> &'static str {
    match p {
        GraduatedNodePlan::ByReference => "ByReference",
        GraduatedNodePlan::Skip => "Skip",
        GraduatedNodePlan::Materialize(_) => "Materialize",
    }
}

#[test]
fn sidecar_hit_only_trusts_real_values() {
    let real = Some(900i64);
    let poison = None::<i64>;
    assert_eq!(sidecar_hit(Some(&real)), Some(900), "real value → hit");
    assert_eq!(sidecar_hit(Some(&poison)), None, "cached None → miss (poison)");
    assert_eq!(sidecar_hit(None), None, "absent → miss");
}

#[test]
fn graduate_buckets_max_ts_takes_newest() {
    let fid = 5;
    let files =
        vec![df("a", Some((fid, 100))), df("b", Some((fid, 900))), df("c", Some((fid, 500)))];
    assert_eq!(max_ts_of(&files, fid), Some(900));
}

#[test]
fn graduate_buckets_max_ts_none_without_stat() {
    assert_eq!(max_ts_of(&[df("a", None)], 5), None);
}

#[test]
fn file_max_ts_reads_field() {
    assert_eq!(file_max_ts(&df("a", Some((5, 42))), 5), Some(42));
    assert_eq!(file_max_ts(&df("a", Some((5, 42))), 9), None);
}

#[test]
fn transform_upper_micros_decodes_time_buckets() {
    const H: i64 = 3_600 * 1_000_000;
    const D: i64 = 86_400 * 1_000_000;
    assert_eq!(transform_upper_micros(&Transform::Hour, &10i32.to_le_bytes()), Some(11 * H));
    assert_eq!(transform_upper_micros(&Transform::Day, &3i32.to_le_bytes()), Some(4 * D));
    assert_eq!(
        transform_upper_micros(&Transform::Identity, &1_700_000_000_000_000i64.to_le_bytes()),
        Some(1_700_000_000_000_000)
    );
    assert_eq!(transform_upper_micros(&Transform::Month, &10i32.to_le_bytes()), None);
    assert_eq!(transform_upper_micros(&Transform::Hour, &[1u8, 2]), None);
    assert_eq!(transform_upper_micros(&Transform::Identity, &[1u8, 2, 3, 4]), None);
}

#[test]
fn summaries_give_the_time_of_a_manifest() {
    const H: i64 = 3_600 * 1_000_000;
    let spec = PartitionSpec {
        spec_id: 0,
        fields: vec![
            PartitionField { source_id: 1, transform: Transform::Identity },
            PartitionField { source_id: 5, transform: Transform::Hour },
        ],
        partition_type: Some(StructType { fields: vec![FieldKind::Primitive, FieldKind::Primitive] }),
    };
    let mut node = leaf_with_partition(&[7, 0]);
    node.partitions.as_mut().unwrap()[1].upper_bound = Some(10i32.to_le_bytes().to_vec());
    assert_eq!(ref_max_event_micros(&node, &spec, 5), Some(11 * H));
    assert_eq!(ref_max_event_micros(&node, &spec, 6), None);
    node.partitions = None;
    assert_eq!(ref_max_event_micros(&node, &spec, 5), None);
}

#[test]
fn dead_entries_neither_fold_nor_plan() {
    let mut dead = alive_entry("dead");
    dead.status = ManifestStatus::Deleted;
    let entries = vec![alive_entry("a"), dead];
    assert_eq!(paths_of(&fold_surviving_entries(&entries, &removed(&[]))), vec!["a"]);
    assert!(matches!(
        plan_graduated_node(&entries, &removed(&["dead"])),
        GraduatedNodePlan::ByReference
    ));
    assert!(matches!(
        plan_graduated_node(&entries, &removed(&["a"])),
        GraduatedNodePlan::Skip
    ));
}

#[test]
fn each_data_file_goes_with_its_statistics() {
    let mut paths = vec!["x".to_string()];
    push_data_file_and_sidecar(&mut paths, "s3://b/f.parquet");
    assert_eq!(paths, vec!["x", "s3://b/f.parquet.stats", "s3://b/f.parquet"]);
}

fn metadata() -> TableMetadata {
    let spec = Arc::new(PartitionSpec {
        spec_id: 0,
        fields: vec![],
        partition_type: Some(StructType { fields: vec![] }),
    });
    let mut properties = Properties::new();
    properties.insert("root-manifest.incremental".to_string(), "true".to_string());
    TableMetadata {
        format_version: FormatVersion::V4,
        uuid: 1,
        location: "s3://t".to_string(),
        last_sequence_number: 3,
        last_updated_ms: 0,
        next_row_id: 0,
        current_schema_id: 0,
        default_spec: spec.clone(),
        partition_specs: vec![spec],
        current_snapshot_id: Some(1),
        snapshots: vec![Arc::new(Snapshot {
            snapshot_id: 1,
            parent_snapshot_id: None,
            sequence_number: 3,
            timestamp_ms: 0,
            manifest_list: "root".to_string(),
            summary: Summary {
                operation: Operation::Append,
                additional_properties: Properties::new(),
            },
            schema_id: None,
            row_range: None,
        })],
        refs: vec![],
        properties: Arc::new(properties),
    }
}

fn outcome() -> FoldOutcome {
    FoldOutcome {
        bucket_index_path: "new-index".to_string(),
        nodes_moved: 4,
        inline_leaves: 1,
        cold_leaves_total: 9,
        ttl_dropped_paths: vec![],
        graduated_ref_paths: vec!["n1".to_string(), "n2".to_string()],
    }
}

fn root(removed_paths: &[&str]) -> RootManifestMetadata {
    RootManifestMetadata {
        schema_id: 0,
        partition_spec_id: 0,
        format_version: FormatVersion::V4,
        snapshot_id: 1,
        sequence_number: 3,
        parent_snapshot_id: None,
        bucket_index_path: Some("old-index".to_string()),
        prev_root_path: None,
        chain_depth: 0,
        node_level: 0,
        removed_paths: removed_paths.iter().map(|p| p.to_string()).collect(),
    }
}

#[test]
fn graduated_refs_are_removed_from_the_hot_chain() {
    let action = GraduateBucketsAction::new(5, 100);
    let table = metadata();
    let kept = vec![RootManifestEntry::Inline(alive_entry("open"))];
    let prep = action.finish_prepare(kept.clone(), outcome(), &root(&["gone"]), 42);
    assert_eq!(prep.prep_bucket_index_path.as_deref(), Some("old-index"));

    let delta = action.finalize_at(&table, &prep, 2, 8, 1, 9_000).unwrap();
    assert!(delta.entries.is_empty());
    assert_eq!(delta.root_metadata.chain_depth, 3);
    assert_eq!(delta.root_metadata.prev_root_path.as_deref(), Some("root"));
    assert_eq!(delta.root_metadata.removed_paths, vec!["n1", "n2"]);
    assert_eq!(delta.root_metadata.bucket_index_path.as_deref(), Some("new-index"));

    let flat = action.finalize_at(&table, &prep, 8, 8, 1, 9_000).unwrap();
    assert_eq!(*flat.entries, kept, "a root that stands alone lists what stays hot");
    assert_eq!(flat.root_metadata.chain_depth, 0);
    assert_eq!(flat.root_metadata.removed_paths, vec!["gone"]);

    let mut commit = flat.commit;
    match &commit.take_updates()[0] {
        TableUpdate::AddSnapshot { snapshot } => {
            let p = &snapshot.summary.additional_properties;
            assert_eq!(p.get("graduate-nodes-moved").unwrap(), "4");
            assert_eq!(p.get("graduate-inline-leaves").unwrap(), "1");
            assert_eq!(p.get("graduate-cold-leaves-total").unwrap(), "9");
            assert_eq!(snapshot.snapshot_id, 42);
            assert_eq!(snapshot.timestamp_ms, 9_000);
        }
        _ => panic!("expected AddSnapshot"),
    }
}

#[test]
fn graduation_needs_version_four_and_a_snapshot() {
    let action = GraduateBucketsAction::new(5, 100);
    let mut v3 = metadata();
    v3.format_version = FormatVersion::V3;
    let err = action.start_commit(&v3).err().unwrap();
    assert_eq!(err.kind(), ErrorKind::FeatureUnsupported);
    assert_eq!(err.message(), "graduate_buckets requires format version V4 (effective=V3)");

    let mut bare = metadata();
    bare.current_snapshot_id = None;
    assert_eq!(action.start_commit(&bare).unwrap(), CommitStart::Nothing);
    assert_eq!(action.start_commit(&metadata()).unwrap(), CommitStart::Proceed);

    let prep = action.finish_prepare(vec![], outcome(), &root(&[]), 42);
    let err = action.finalize(&bare, &prep, 0, 8).err().unwrap();
    assert_eq!(err.kind(), ErrorKind::Unexpected);
    assert_eq!(err.message(), "graduate_buckets: table has no current snapshot at finalize");
}

#[test]
fn graduation_drops_nothing_by_age() {
    let setting = GraduateBucketsAction::new(5, 100).fold_setting(&metadata());
    assert_eq!(setting.ts_field_id, 5);
    assert_eq!(setting.cutoff_micros, 100);
    assert_eq!(setting.retention_cutoff_micros, None);
    assert_eq!(setting.max_ttl_drop_files, 0);
}
