use std::collections::HashMap;
use std::sync::Arc;

use cold_tier::compact_cold_tier::CommitStart;
use cold_tier::error::ErrorKind;
use cold_tier::fraction::Fraction;
use cold_tier::manifest::{
    DataContentType, DataFile, FieldSummary, FormatVersion, ManifestContentType,
    ManifestDeleteVector, ManifestEntry, ManifestFile, ManifestStatus, Mdv, RootManifestEntry,
    RootManifestMetadata,
};
use cold_tier::partition::{
    FieldKind, Literal, PartitionSpec, PrimitiveLiteral, Struct, StructType,
};
use cold_tier::path_set::Properties;
use cold_tier::rebalance_root_manifest::{
    find_rewrite, manifest_file_is_wide, rewrite_survivors, RebalanceRootManifestAction,
    RefRewrite, RewriteKey, DEFAULT_INLINE_THRESHOLD, DEFAULT_MDV_COMPACTION_DENOMINATOR,
    DEFAULT_MDV_COMPACTION_NUMERATOR,
};
use cold_tier::rebalance_run::RebalancedRoot;
use cold_tier::table::{Operation, Snapshot, Summary, TableMetadata, TableUpdate};

fn mf_with_partitions(partitions: Option<Vec<FieldSummary>>) -> ManifestFile {
    ManifestFile {
        manifest_path: "s3://bucket/m.parquet".to_string(),
        manifest_length: 4096,
        partition_spec_id: 0,
        content: ManifestContentType::Data,
        sequence_number: 1,
        min_sequence_number: 1,
        added_snapshot_id: 100,
        added_files_count: Some(1),
        existing_files_count: Some(0),
        deleted_files_count: Some(0),
        added_rows_count: Some(1),
        existing_rows_count: Some(0),
        deleted_rows_count: Some(0),
        partitions,
        key_metadata: None,
        first_row_id: None,
    }
}

fn fsummary(lo: &[u8], hi: &[u8]) -> FieldSummary {
    FieldSummary {
        contains_null: false,
        contains_nan: Some(false),
        lower_bound: Some(lo.to_vec()),
        upper_bound: Some(hi.to_vec()),
    }
}

fn manifest_ref(mf: ManifestFile) -> RootManifestEntry {
    RootManifestEntry::ManifestRef { manifest_file: mf, mdv: None }
}

#[test]
fn hour_filter_manifest_ref_skips_current_hour() {
    let hour_hot: i32 = 496200;
    let hour_cold: i32 = 496195;
    let max_hour: i64 = 496199;

    let hot_mf = mf_with_partitions(Some(vec![fsummary(
        &hour_hot.to_le_bytes(),
        &hour_hot.to_le_bytes(),
    )]));
    let cold_mf = mf_with_partitions(Some(vec![fsummary(
        &hour_cold.to_le_bytes(),
        &hour_cold.to_le_bytes(),
    )]));

    let action = RebalanceRootManifestAction::new().with_hour_filter(0, max_hour);
    assert!(action.entry_above_hour_filter(&manifest_ref(hot_mf)));
    assert!(!action.entry_above_hour_filter(&manifest_ref(cold_mf)));

    let unfiltered = RebalanceRootManifestAction::new();
    let hot_mf2 = mf_with_partitions(Some(vec![fsummary(
        &hour_hot.to_le_bytes(),
        &hour_hot.to_le_bytes(),
    )]));
    assert!(!unfiltered.entry_above_hour_filter(&manifest_ref(hot_mf2)));

    let no_parts = mf_with_partitions(None);
    assert!(!action.entry_above_hour_filter(&manifest_ref(no_parts)));

    let short_bound = mf_with_partitions(Some(vec![fsummary(&[0u8], &[0u8])]));
    assert!(!action.entry_above_hour_filter(&manifest_ref(short_bound)));
}

#[test]
fn partition_scoped_builder_default_off() {
    assert!(!RebalanceRootManifestAction::new().partition_scoped);
    assert!(RebalanceRootManifestAction::new().with_partition_scoped(true).partition_scoped);
}

#[test]
fn manifest_wide_detection() {
    assert!(!manifest_file_is_wide(&mf_with_partitions(None)));
    assert!(!manifest_file_is_wide(&mf_with_partitions(Some(vec![fsummary(
        &[0, 0, 0, 1],
        &[0, 0, 0, 1]
    )]))));
    assert!(manifest_file_is_wide(&mf_with_partitions(Some(vec![fsummary(
        &[0, 0, 0, 1],
        &[0, 0, 0, 9]
    )]))));
    assert!(manifest_file_is_wide(&mf_with_partitions(Some(vec![
        fsummary(&[1], &[1]),
        fsummary(&[2], &[5]),
    ]))));
}

fn wide_ref() -> RootManifestEntry {
    manifest_ref(mf_with_partitions(Some(vec![fsummary(&[0, 0, 0, 1], &[0, 0, 0, 9])])))
}

fn other_wide_ref() -> RootManifestEntry {
    let mut mf = mf_with_partitions(Some(vec![fsummary(&[0, 0, 0, 1], &[0, 0, 0, 9])]));
    mf.manifest_path = "s3://bucket/other.parquet".to_string();
    manifest_ref(mf)
}

fn tight_ref() -> RootManifestEntry {
    manifest_ref(mf_with_partitions(Some(vec![fsummary(&[0, 0, 0, 1], &[0, 0, 0, 1])])))
}

#[test]
fn needs_recluster_requires_flag_and_wide() {
    let wide = vec![wide_ref()];
    let tight = vec![tight_ref()];

    assert!(!RebalanceRootManifestAction::new().needs_recluster(&wide));

    let scoped = RebalanceRootManifestAction::new().with_partition_scoped(true);
    assert!(scoped.needs_recluster(&wide));
    assert!(!scoped.needs_recluster(&tight));
}

fn as_float(f: Fraction) -> f64 {
    f.numerator as f64 / f.denominator as f64
}

#[test]
fn test_default_thresholds() {
    let action = RebalanceRootManifestAction::new();
    assert_eq!(action.inline_threshold, DEFAULT_INLINE_THRESHOLD);
    assert!((as_float(action.mdv_compaction_threshold) - 0.3).abs() < f64::EPSILON);
    assert_eq!(DEFAULT_INLINE_THRESHOLD, 1000);
    assert_eq!((DEFAULT_MDV_COMPACTION_NUMERATOR, DEFAULT_MDV_COMPACTION_DENOMINATOR), (3, 10));
}

#[test]
fn test_custom_thresholds() {
    let action = RebalanceRootManifestAction::new()
        .with_inline_threshold(500)
        .with_mdv_compaction_threshold(Fraction { numerator: 1, denominator: 2 });
    assert_eq!(action.inline_threshold, 500);
    assert!((as_float(action.mdv_compaction_threshold) - 0.5).abs() < f64::EPSILON);
}

fn ten_files() -> ManifestFile {
    let mut mf = mf_with_partitions(None);
    mf.manifest_path = "s3://bucket/m0.parquet".to_string();
    mf.added_files_count = Some(10);
    mf.added_rows_count = Some(1000);
    mf
}

fn mdv_of(positions: &[u32]) -> Mdv {
    let mut vector = ManifestDeleteVector::new();
    let mut bytes = Vec::new();
    for p in positions {
        vector.mark_deleted(*p);
        bytes.extend_from_slice(&p.to_le_bytes());
    }
    Mdv { bytes, vector: Some(vector) }
}

#[test]
fn test_needs_mdv_compaction_no_mdv() {
    let action = RebalanceRootManifestAction::new();
    let entries =
        vec![RootManifestEntry::ManifestRef { manifest_file: ten_files(), mdv: None }];
    assert!(!action.needs_mdv_compaction(&entries));
}

#[test]
fn test_needs_mdv_compaction_below_threshold() {
    let action = RebalanceRootManifestAction::new()
        .with_mdv_compaction_threshold(Fraction { numerator: 1, denominator: 2 });
    let entries = vec![RootManifestEntry::ManifestRef {
        manifest_file: ten_files(),
        mdv: Some(mdv_of(&[0, 1])),
    }];
    assert!(!action.needs_mdv_compaction(&entries));
}

#[test]
fn test_needs_mdv_compaction_above_threshold() {
    let action = RebalanceRootManifestAction::new()
        .with_mdv_compaction_threshold(Fraction { numerator: 3, denominator: 10 });
    let entries = vec![RootManifestEntry::ManifestRef {
        manifest_file: ten_files(),
        mdv: Some(mdv_of(&[0, 1, 2, 3])),
    }];
    assert!(action.needs_mdv_compaction(&entries));
}

#[test]
fn mdv_threshold_is_inclusive() {
    let action = RebalanceRootManifestAction::new()
        .with_mdv_compaction_threshold(Fraction { numerator: 3, denominator: 10 });
    let at = vec![RootManifestEntry::ManifestRef {
        manifest_file: ten_files(),
        mdv: Some(mdv_of(&[4, 5, 6])),
    }];
    assert!(action.needs_mdv_compaction(&at));
    let unreadable = vec![RootManifestEntry::ManifestRef {
        manifest_file: ten_files(),
        mdv: Some(Mdv { bytes: vec![1], vector: None }),
    }];
    assert!(!action.needs_mdv_compaction(&unreadable));
}

fn in_hour(path: &str, hour: i32, content: DataContentType, spec_id: i32) -> ManifestEntry {
    ManifestEntry {
        status: ManifestStatus::Added,
        snapshot_id: Some(1),
        sequence_number: Some(2),
        file_sequence_number: Some(3),
        data_file: Arc::new(DataFile {
            content,
            file_path: path.to_string(),
            partition: Struct {
                fields: vec![Some(Literal::Primitive(PrimitiveLiteral::Int(hour)))],
            },
            partition_spec_id: spec_id,
            record_count: 1,
            file_size_in_bytes: 100,
            upper_bounds: HashMap::new(),
            equality_ids: None,
        }),
    }
}

fn data(path: &str, hour: i32) -> ManifestEntry {
    in_hour(path, hour, DataContentType::Data, 0)
}

fn metadata(properties: &[(&str, &str)]) -> TableMetadata {
    let spec = |id: i32| {
        Arc::new(PartitionSpec {
            spec_id: id,
            fields: vec![],
            partition_type: Some(StructType { fields: vec![FieldKind::Primitive] }),
        })
    };
    let mut props = Properties::new();
    for (k, v) in properties {
        props.insert(k.to_string(), v.to_string());
    }
    TableMetadata {
        format_version: FormatVersion::V4,
        uuid: 1,
        location: "s3://t".to_string(),
        last_sequence_number: 3,
        last_updated_ms: 0,
        next_row_id: 0,
        current_schema_id: 0,
        default_spec: spec(0),
        partition_specs: vec![spec(0), spec(1)],
        current_snapshot_id: Some(1),
        snapshots: vec![Arc::new(Snapshot {
            snapshot_id: 1,
            parent_snapshot_id: None,
            sequence_number: 3,
            timestamp_ms: 0,
            manifest_list: "root".to_string(),
            summary: Summary {
                operation: Operation::Append,
                additional_properties: Properties::new(),
            },
            schema_id: None,
            row_range: None,
        })],
        refs: vec![],
        properties: Arc::new(props),
    }
}

#[test]
fn hour_filter_reads_inline_entries_too() {
    let action = RebalanceRootManifestAction::new().with_hour_filter(0, 10);
    assert!(action.entry_above_hour_filter(&RootManifestEntry::Inline(data("a", 11))));
    assert!(!action.entry_above_hour_filter(&RootManifestEntry::Inline(data("a", 10))));
    let mut text = data("a", 0);
    text.data_file = Arc::new(DataFile {
        partition: Struct {
            fields: vec![Some(Literal::Primitive(PrimitiveLiteral::Text("x".to_string())))],
        },
        ..(*text.data_file).clone()
    });
    assert!(!action.entry_above_hour_filter(&RootManifestEntry::Inline(text)));
}

#[test]
fn needs_go_by_the_tables_properties_first() {
    let action = RebalanceRootManifestAction::new().with_inline_threshold(2);
    let two = [RootManifestEntry::Inline(data("a", 1)), RootManifestEntry::Inline(data("b", 1))];
    let needs = action.needs(&metadata(&[]), &two, 999);
    assert!(needs.flush && !needs.tombstone_sweep && !needs.recluster && !needs.mdv_compaction);
    assert!(needs.is_any());
    let higher = metadata(&[("root-manifest.inline-threshold", "3")]);
    assert!(!action.needs(&higher, &two, 0).is_any());
    let garbled = metadata(&[("root-manifest.inline-threshold", "many")]);
    assert!(action.needs(&garbled, &two, 0).flush);
    let by_bytes = metadata(&[
        ("root-manifest.inline-threshold", "3"),
        ("root-manifest.flush-bytes", "200"),
    ]);
    assert!(action.needs(&by_bytes, &two, 0).flush);
    let by_entries = metadata(&[
        ("root-manifest.inline-threshold", "3"),
        ("root-manifest.flush-entries", "2"),
    ]);
    assert!(action.needs(&by_entries, &two, 0).flush);
    assert!(action.needs(&higher, &two, 1_000).tombstone_sweep);
    assert_eq!(action.sweep_bound(&higher, 1_000), Some(8_192));
    assert_eq!(action.sweep_bound(&higher, 999), None);
}

#[test]
fn rebalance_needs_version_four() {
    let action = RebalanceRootManifestAction::new();
    let mut table = metadata(&[]);
    table.format_version = FormatVersion::V2;
    let err = action.start_commit(&table).err().unwrap();
    assert_eq!(err.kind(), ErrorKind::FeatureUnsupported);
    assert_eq!(
        err.message(),
        "rebalance_root_manifest requires format version V4 (effective=V2, declared=V2)"
    );
    assert_eq!(action.start_commit(&metadata(&[])).unwrap(), CommitStart::Proceed);
    let mut bare = metadata(&[]);
    bare.current_snapshot_id = None;
    assert_eq!(action.start_commit(&bare).unwrap(), CommitStart::Nothing);
}

#[test]
fn wide_refs_are_rewritten_up_to_the_cap() {
    let action =
        RebalanceRootManifestAction::new().with_partition_scoped(true).with_max_manifests_per_commit(1);
    let entries = vec![
        tight_ref(),
        RootManifestEntry::Inline(data("a", 1)),
        wide_ref(),
        other_wide_ref(),
    ];
    let mut refs = RefRewrite::new(entries, vec![]);
    assert!(refs.advance(&action).unwrap());
    let (mf, mdv) = refs.next_ref().unwrap();
    assert!(manifest_file_is_wide(mf));
    assert!(mdv.is_none());
    let mut half = mf_with_partitions(None);
    half.manifest_path = "half".to_string();
    assert!(!refs.next_is_known());
    refs.replace_next(&action, vec![half.clone(), half]);
    assert!(!refs.advance(&action).unwrap(), "the cap is reached");
    let (kept, inline) = refs.finish();
    assert_eq!(kept.len(), 4);
    assert_eq!(kept[0], tight_ref());
    assert!(matches!(&kept[1], RootManifestEntry::ManifestRef { manifest_file, .. }
        if manifest_file.manifest_path == "half"));
    assert_eq!(kept[3], other_wide_ref());
    assert_eq!(inline.len(), 1);
}

#[test]
fn hot_refs_are_left_alone() {
    let action =
        RebalanceRootManifestAction::new().with_partition_scoped(true).with_hour_filter(0, 5);
    let hot = manifest_ref(mf_with_partitions(Some(vec![fsummary(&[1, 0, 0, 0], &[9, 0, 0, 0])])));
    let mut refs = RefRewrite::new(vec![hot.clone()], vec![]);
    assert!(!refs.advance(&action).unwrap());
    assert_eq!(refs.finish().0, vec![hot]);
}

#[test]
fn a_delete_vector_that_does_not_decode_fails_the_rewrite() {
    let action = RebalanceRootManifestAction::new();
    let entry = RootManifestEntry::ManifestRef {
        manifest_file: ten_files(),
        mdv: Some(Mdv { bytes: vec![1], vector: None }),
    };
    let mut refs = RefRewrite::new(vec![entry], vec![]);
    let err = refs.advance(&action).err().unwrap();
    assert_eq!(err.kind(), ErrorKind::DataInvalid);
}

#[test]
fn rewrites_drop_what_the_delete_vector_marks() {
    let mut dead = data("dead", 1);
    dead.status = ManifestStatus::Deleted;
    let entries = [data("a", 1), data("b", 1), dead, data("c", 2)];
    let left = rewrite_survivors(&entries, &Some(mdv_of(&[1])));
    let paths: Vec<&str> = left.iter().map(|e| e.data_file.file_path.as_str()).collect();
    assert_eq!(paths, vec!["a", "c"]);
    assert!(left.iter().all(|e| e.status == ManifestStatus::Existing));

    let mut action = RebalanceRootManifestAction::new().with_partition_scoped(true);
    action.commit_id = 1;
    let mut counter = 7u64;
    let writes = action
        .rewrite_writes(&metadata(&[]), &ten_files(), &Some(mdv_of(&[1])), &entries, &mut counter)
        .unwrap();
    assert_eq!(writes.len(), 2, "one manifest for each partition");
    assert_eq!(
        writes[0].path,
        "s3://t/metadata/00000000-0000-0000-0000-000000000001-m7.parquet"
    );
    assert_eq!(counter, 9);
    let mut unknown = ten_files();
    unknown.partition_spec_id = 9;
    let err = action
        .rewrite_writes(&metadata(&[]), &unknown, &None, &entries, &mut counter)
        .err()
        .unwrap();
    assert_eq!(err.kind(), ErrorKind::DataInvalid);
    assert_eq!(err.message(), "partition spec 9 not found");
}

#[test]
fn rewrites_are_found_again_by_path_and_delete_vector() {
    let keys = [
        RewriteKey { path: "s3://bucket/m0.parquet".to_string(), mdv: None },
        RewriteKey { path: "s3://bucket/m0.parquet".to_string(), mdv: Some(mdv_of(&[1]).bytes) },
    ];
    assert_eq!(find_rewrite(&keys, &ten_files(), &None), Some(0));
    assert_eq!(find_rewrite(&keys, &ten_files(), &Some(mdv_of(&[1]))), Some(1));
    assert_eq!(find_rewrite(&keys, &ten_files(), &Some(mdv_of(&[2]))), None);
    assert_eq!(find_rewrite(&keys, &mf_with_partitions(None), &None), None);
}

#[test]
fn flush_groups_by_content_and_spec_and_carries_the_hot() {
    let action =
        RebalanceRootManifestAction::new().with_partition_scoped(true).with_hour_filter(0, 10);
    let inline = vec![
        data("a", 1),
        data("b", 2),
        in_hour("c", 1, DataContentType::Data, 1),
        in_hour("d", 1, DataContentType::PositionDeletes, 0),
        data("hot", 11),
        data("e", 1),
    ];
    let mut counter = 0u64;
    let flush = action.flush(&metadata(&[]), inline, true, &mut counter).unwrap();
    assert_eq!(flush.carried.len(), 1);
    assert_eq!(flush.groups.len(), 3);
    let written: usize =
        flush.groups.iter().flat_map(|g| g.writes.iter()).map(|w| w.entries.len()).sum();
    assert_eq!(written, 5);
    let first = flush.groups.iter().find(|g| !g.is_delete && g.spec_id == 0).unwrap();
    assert_eq!(first.writes.len(), 2, "one manifest for each of the two hours");
    assert_eq!(counter, 4);
}

#[test]
fn without_a_flush_inline_entries_stay() {
    let action = RebalanceRootManifestAction::new();
    let mut counter = 0u64;
    let flush =
        action.flush(&metadata(&[]), vec![data("a", 1), data("b", 1)], false, &mut counter).unwrap();
    assert!(flush.groups.is_empty());
    assert_eq!(flush.carried.len(), 2);
    assert_eq!(counter, 0);
}

#[test]
fn flush_fails_on_an_unknown_spec() {
    let action = RebalanceRootManifestAction::new();
    let mut counter = 0u64;
    let err = action
        .flush(
            &metadata(&[]),
            vec![in_hour("a", 1, DataContentType::Data, 5)],
            true,
            &mut counter,
        )
        .err()
        .unwrap();
    assert_eq!(err.message(), "partition spec 5 not found");
}

#[test]
fn rebalance_commits_a_flat_root() {
    let mut action = RebalanceRootManifestAction::new();
    action.commit_id = 2;
    let head = RootManifestMetadata {
        schema_id: 0,
        partition_spec_id: 0,
        format_version: FormatVersion::V4,
        snapshot_id: 1,
        sequence_number: 3,
        parent_snapshot_id: None,
        bucket_index_path: Some("index".to_string()),
        prev_root_path: Some("older".to_string()),
        chain_depth: 5,
        node_level: 0,
        removed_paths: vec!["gone".to_string(), "swept".to_string()],
    };
    let left = vec!["gone".to_string()];
    let entries = vec![tight_ref(), RootManifestEntry::Inline(data("hot", 1))];
    let rc = action.commit_at(&metadata(&[]), &head, left.clone(), 12, entries.clone(), 42, 9_000);
    assert_eq!(*rc.entries, entries);
    assert_eq!(
        rc.root_path,
        "s3://t/metadata/root-42-00000000-0000-0000-0000-000000000002.parquet"
    );
    assert_eq!(rc.root_metadata.chain_depth, 0);
    assert_eq!(rc.root_metadata.prev_root_path, None);
    assert_eq!(rc.root_metadata.bucket_index_path.as_deref(), Some("index"));
    assert_eq!(rc.root_metadata.removed_paths, vec!["gone"]);
    let mut commit = rc.commit;
    match &commit.take_updates()[0] {
        TableUpdate::AddSnapshot { snapshot } => {
            let p = &snapshot.summary.additional_properties;
            assert_eq!(p.get("rebalance-inline-flushed").unwrap(), "12");
            assert_eq!(p.get("rebalance-entries-after").unwrap(), "2");
        }
        _ => panic!("expected AddSnapshot"),
    }
    let now = action.commit(&metadata(&[]), &head, left, 12, entries, 42);
    assert_eq!(now.root_path, rc.root_path);
}

#[test]
fn a_rebalance_runs_from_end_to_end() {
    let mut action = RebalanceRootManifestAction::new()
        .with_partition_scoped(true)
        .with_hour_filter(0, 100)
        .with_inline_threshold(2);
    action.commit_id = 3;
    let table = metadata(&[]);
    assert!(action.begin(&table, vec![tight_ref()], 0, vec![], 0).is_none(), "nothing to do");

    let wide =
        manifest_ref(mf_with_partitions(Some(vec![fsummary(&[1, 0, 0, 0], &[9, 0, 0, 0])])));
    let entries = vec![
        RootManifestEntry::Inline(data("a", 1)),
        wide,
        RootManifestEntry::Inline(data("hot", 101)),
        tight_ref(),
        RootManifestEntry::Inline(data("b", 2)),
    ];
    let mut run = action.begin(&table, entries, 0, vec![], 0).unwrap();
    assert!(run.advance(&action).unwrap());
    assert!(run.next_ref().is_some());
    assert_eq!(run.numbers_left(), u64::MAX);
    let ws = run.next_writes(&action, &table, &[data("x", 1), data("y", 9)]).unwrap();
    assert_eq!(ws.len(), 2);
    let named = |name: &str| {
        let mut mf = mf_with_partitions(None);
        mf.manifest_path = name.to_string();
        mf
    };
    run.replace_next(&action, vec![named("w0"), named("w1")]);
    assert!(!run.advance(&action).unwrap());
    assert_eq!(run.inline_seen(), 3);
    let flush = run.flush(&action, &table).unwrap();
    let paths: Vec<&str> = flush
        .flush
        .groups
        .iter()
        .flat_map(|g| g.writes.iter())
        .map(|w| w.path.as_str())
        .collect();
    assert_eq!(
        paths,
        vec![
            "s3://t/metadata/00000000-0000-0000-0000-000000000003-m2.parquet",
            "s3://t/metadata/00000000-0000-0000-0000-000000000003-m3.parquet",
        ]
    );
    let root = flush.into_root(vec![named("f0"), named("f1")]);
    assert_eq!(
        root.entries,
        vec![
            manifest_ref(named("w0")),
            manifest_ref(named("w1")),
            tight_ref(),
            manifest_ref(named("f0")),
            manifest_ref(named("f1")),
            RootManifestEntry::Inline(data("hot", 101)),
        ]
    );
    assert_eq!(root.inline_flushed, 3);
    let head = RootManifestMetadata {
        schema_id: 0,
        partition_spec_id: 0,
        format_version: FormatVersion::V4,
        snapshot_id: 1,
        sequence_number: 3,
        parent_snapshot_id: None,
        bucket_index_path: None,
        prev_root_path: None,
        chain_depth: 0,
        node_level: 0,
        removed_paths: vec![],
    };
    let again = RebalancedRoot { entries: root.entries.clone(), inline_flushed: 3 };
    let entries = root.entries.clone();
    let rc = root.commit_at(&action, &table, &head, vec![], 42, 9_000);
    assert_eq!(*rc.entries, entries);
    let mut commit = rc.commit;
    match &commit.take_updates()[0] {
        TableUpdate::AddSnapshot { snapshot } => {
            let p = &snapshot.summary.additional_properties;
            assert_eq!(p.get("rebalance-inline-flushed").unwrap(), "3");
            assert_eq!(p.get("rebalance-entries-after").unwrap(), "6");
        }
        _ => panic!("expected AddSnapshot"),
    }
    assert_eq!(again.commit(&action, &table, &head, vec![], 42).root_path, rc.root_path);
}

#[test]
fn the_greatest_hour_filters_nothing() {
    let open = RebalanceRootManifestAction::new().with_hour_filter(0, i64::MAX);
    let greatest = i32::MAX.to_le_bytes();
    let entries = [
        manifest_ref(mf_with_partitions(Some(vec![fsummary(&greatest, &greatest)]))),
        RootManifestEntry::Inline(data("a", i32::MAX)),
    ];
    assert!(entries.iter().all(|e| !open.entry_above_hour_filter(e)));
}

#[test]
fn a_zero_cap_is_no_cap() {
    assert_eq!(
        RebalanceRootManifestAction::new().with_max_manifests_per_commit(0).max_manifests_per_commit,
        None
    );
}

#[test]
fn rewrites_made_before_are_used_past_the_cap() {
    let action = RebalanceRootManifestAction::new()
        .with_partition_scoped(true)
        .with_max_manifests_per_commit(2);
    let wide = |i: usize| {
        let mut mf = mf_with_partitions(Some(vec![fsummary(&[0, 0, 0, 1], &[0, 0, 0, 9])]));
        mf.manifest_path = format!("m{i}");
        manifest_ref(mf)
    };
    let made = |i: usize| {
        let mut mf = mf_with_partitions(None);
        mf.manifest_path = format!("rewrite-of-m{i}");
        mf
    };
    let key = |i: usize| RewriteKey { path: format!("m{i}"), mdv: None };
    let run = |keys: Vec<RewriteKey>| {
        let mut refs = RefRewrite::new((0..6).map(wide).collect(), keys);
        let mut fresh = vec![];
        let mut i = 0;
        while refs.advance(&action).unwrap() {
            let path = refs.next_ref().unwrap().0.manifest_path.clone();
            let at: usize = path[1..].parse().unwrap();
            if !refs.next_is_known() {
                fresh.push(path);
            }
            refs.replace_next(&action, vec![made(at)]);
            i += 1;
        }
        (refs.finish().0, fresh, i)
    };
    let (first, fresh, replaced) = run(vec![]);
    assert_eq!(fresh, vec!["m0", "m1"], "the first attempt makes as many as the cap allows");
    assert_eq!(replaced, 2);
    assert_eq!(first[2], wide(2));

    let (second, fresh, replaced) = run(vec![key(0), key(1)]);
    assert_eq!(second[0], manifest_ref(made(0)));
    assert_eq!(second[1], manifest_ref(made(1)));
    assert_eq!(fresh, vec!["m2", "m3"], "what was made before does not count");
    assert_eq!(replaced, 4);

    let (third, fresh, replaced) = run((0..6).map(key).collect());
    assert!(fresh.is_empty());
    assert_eq!(replaced, 6);
    assert_eq!(third[5], manifest_ref(made(5)));
}

#[test]
fn a_rewrite_is_not_known_once_its_delete_vector_changes() {
    let action = RebalanceRootManifestAction::new()
        .with_mdv_compaction_threshold(Fraction { numerator: 1, denominator: 10 });
    let entry = |positions: &[u32]| RootManifestEntry::ManifestRef {
        manifest_file: ten_files(),
        mdv: Some(mdv_of(positions)),
    };
    let keys =
        vec![RewriteKey { path: ten_files().manifest_path, mdv: Some(mdv_of(&[1]).bytes) }];
    let mut refs = RefRewrite::new(vec![entry(&[1]), entry(&[1, 2])], keys);
    assert!(refs.advance(&action).unwrap());
    assert!(refs.next_is_known());
    refs.replace_next(&action, vec![]);
    assert!(refs.advance(&action).unwrap());
    assert!(!refs.next_is_known());
}

#[test]
fn a_later_run_writes_over_nothing_of_an_earlier_one() {
    let mut action = RebalanceRootManifestAction::new()
        .with_partition_scoped(true)
        .with_inline_threshold(1);
    action.commit_id = 3;
    let table = metadata(&[]);
    let wide = |path: &str| {
        let mut mf = mf_with_partitions(Some(vec![fsummary(&[1, 0, 0, 0], &[9, 0, 0, 0])]));
        mf.manifest_path = path.to_string();
        manifest_ref(mf)
    };
    let named = |name: &str| {
        let mut mf = mf_with_partitions(None);
        mf.manifest_path = name.to_string();
        mf
    };
    let mut written: Vec<String> = vec![];
    let mut first = action.begin(&table, vec![wide("a")], 0, vec![], 0).unwrap();
    assert!(first.advance(&action).unwrap());
    let ws = first.next_writes(&action, &table, &[data("x", 1), data("y", 9)]).unwrap();
    written.extend(ws.iter().map(|w| w.path.clone()));
    assert_eq!(first.next_number(), 2);
    first.replace_next(&action, ws.iter().map(|w| named(&w.path)).collect());
    assert!(!first.advance(&action).unwrap());
    let next = first.flush(&action, &table).unwrap().next_number;
    assert_eq!(next, 2);

    let keys = vec![RewriteKey { path: "a".to_string(), mdv: None }];
    let entries = vec![wide("a"), wide("b"), RootManifestEntry::Inline(data("inline", 1))];
    let mut again = action.begin(&table, entries, 0, keys, next).unwrap();
    assert!(again.advance(&action).unwrap());
    assert!(again.next_is_known());
    again.replace_next(&action, written.iter().map(|p| named(p)).collect());
    assert!(again.advance(&action).unwrap());
    assert!(!again.next_is_known());
    let ws = again.next_writes(&action, &table, &[data("z", 1)]).unwrap();
    written.extend(ws.iter().map(|w| w.path.clone()));
    again.replace_next(&action, ws.iter().map(|w| named(&w.path)).collect());
    assert!(!again.advance(&action).unwrap());
    let flush = again.flush(&action, &table).unwrap();
    assert_eq!(flush.next_number, 4);
    for group in &flush.flush.groups {
        written.extend(group.writes.iter().map(|w| w.path.clone()));
    }
    let numbers: Vec<String> = (0..4)
        .map(|n| format!("s3://t/metadata/00000000-0000-0000-0000-000000000003-m{n}.parquet"))
        .collect();
    assert_eq!(written, numbers);
}
