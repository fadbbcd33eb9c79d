use std::collections::HashMap;
use std::sync::Arc;

use cold_tier::compact_cold_tier::CommitStart;
use cold_tier::drop_cold_buckets::{keep_leaf, DropColdBucketsAction};
use cold_tier::error::ErrorKind;
use cold_tier::manifest::{
    alive_max_ts, max_ts_of, DataContentType, DataFile, FormatVersion, ManifestContentType,
    ManifestEntry, ManifestFile, ManifestStatus, RootManifestEntry, RootManifestMetadata,
};
use cold_tier::max_ts::{
    accept_maxts_sidecar, bucket_index_maxts_sidecar_path, maxts_sidecar, MaxTsMap, MaxTsSidecar,
};
use cold_tier::partition::{
    FieldKind, PartitionField, PartitionSpec, PrimitiveLiteral, Struct, StructType, Transform,
};
use cold_tier::path_set::Properties;
use cold_tier::table::{Operation, Snapshot, Summary, TableMetadata, TableUpdate};

fn df(path: &str, ts_max: Option<(i32, i64)>) -> DataFile {
    let mut upper_bounds = HashMap::new();
    if let Some((fid, micros)) = ts_max {
        upper_bounds.insert(fid, PrimitiveLiteral::Long(micros));
    }
    DataFile {
        content: DataContentType::Data,
        file_path: path.to_string(),
        partition: Struct { fields: vec![] },
        partition_spec_id: 0,
        record_count: 1,
        file_size_in_bytes: 100,
        upper_bounds,
        equality_ids: None,
    }
}

fn leaf(path: &str) -> ManifestFile {
    ManifestFile {
        manifest_path: path.to_string(),
        manifest_length: 1,
        partition_spec_id: 0,
        content: ManifestContentType::Data,
        sequence_number: 1,
        min_sequence_number: 1,
        added_snapshot_id: 1,
        added_files_count: Some(1),
        existing_files_count: Some(0),
        deleted_files_count: Some(0),
        added_rows_count: Some(1),
        existing_rows_count: Some(0),
        deleted_rows_count: Some(0),
        partitions: None,
        key_metadata: None,
        first_row_id: None,
    }
}

fn metadata() -> TableMetadata {
    let spec = Arc::new(PartitionSpec {
        spec_id: 0,
        fields: vec![PartitionField { source_id: 5, transform: Transform::Hour }],
        partition_type: Some(StructType { fields: vec![FieldKind::Primitive] }),
    });
    TableMetadata {
        format_version: FormatVersion::V4,
        uuid: 1,
        location: "s3://t".to_string(),
        last_sequence_number: 3,
        last_updated_ms: 0,
        next_row_id: 0,
        current_schema_id: 0,
        default_spec: spec.clone(),
        partition_specs: vec![spec],
        current_snapshot_id: Some(1),
        snapshots: vec![Arc::new(Snapshot {
            snapshot_id: 1,
            parent_snapshot_id: None,
            sequence_number: 3,
            timestamp_ms: 0,
            manifest_list: "root".to_string(),
            summary: Summary {
                operation: Operation::Append,
                additional_properties: Properties::new(),
            },
            schema_id: None,
            row_range: None,
        })],
        refs: vec![],
        properties: Arc::new(Properties::new()),
    }
}

fn inline(path: &str) -> RootManifestEntry {
    RootManifestEntry::Inline(ManifestEntry {
        status: ManifestStatus::Existing,
        snapshot_id: None,
        sequence_number: None,
        file_sequence_number: None,
        data_file: Arc::new(df(path, None)),
    })
}

fn root() -> RootManifestMetadata {
    RootManifestMetadata {
        schema_id: 0,
        partition_spec_id: 0,
        format_version: FormatVersion::V4,
        snapshot_id: 1,
        sequence_number: 3,
        parent_snapshot_id: None,
        bucket_index_path: Some("index".to_string()),
        prev_root_path: None,
        chain_depth: 0,
        node_level: 0,
        removed_paths: vec!["gone".to_string()],
    }
}

#[test]
fn drop_cold_buckets_max_ts_takes_newest() {
    let fid = 5;
    let files =
        vec![df("a", Some((fid, 100))), df("b", Some((fid, 900))), df("c", Some((fid, 500)))];
    assert_eq!(max_ts_of(&files, fid), Some(900));
}

#[test]
fn drop_cold_buckets_max_ts_none_without_stat() {
    let files = vec![df("a", None), df("b", None)];
    assert_eq!(max_ts_of(&files, 5), None);
}

#[test]
fn max_ts_ignores_other_fields() {
    let files = vec![df("a", Some((5, 100)))];
    assert_eq!(max_ts_of(&files, 9), None);
}

#[test]
fn cutoff_boundary_is_inclusive_keep() {
    assert!(keep_leaf(Some(100), 100), "at cutoff must be KEPT");
    assert!(keep_leaf(Some(101), 100));
    assert!(!keep_leaf(Some(99), 100), "strictly older is dropped");
}

#[test]
fn absent_max_ts_keeps() {
    assert!(keep_leaf(None, 100));
    assert!(keep_leaf(None, i64::MAX));
}

#[test]
fn extremes_are_sane() {
    assert!(keep_leaf(Some(i64::MAX), 0));
    assert!(!keep_leaf(Some(i64::MIN), 0));
}

#[test]
fn only_live_files_give_a_leaf_its_time() {
    let entry = |status, ts| ManifestEntry {
        status,
        snapshot_id: None,
        sequence_number: None,
        file_sequence_number: None,
        data_file: Arc::new(df("f", Some((5, ts)))),
    };
    let entries =
        [entry(ManifestStatus::Existing, 10), entry(ManifestStatus::Deleted, 90), entry(ManifestStatus::Added, 30)];
    assert_eq!(alive_max_ts(&entries, 5), Some(30));
    assert_eq!(alive_max_ts(&entries, 6), None);
}

#[test]
fn retention_parts_leaves_by_their_times() {
    let action = DropColdBucketsAction::new(5, 100);
    let mut times = MaxTsMap::new();
    times.insert("old".to_string(), Some(99));
    times.insert("edge".to_string(), Some(100));
    times.insert("poisoned".to_string(), None);
    let leaves = vec![leaf("old"), leaf("edge"), leaf("poisoned"), leaf("unlisted")];
    let entry = |ts| ManifestEntry {
        status: ManifestStatus::Existing,
        snapshot_id: None,
        sequence_number: None,
        file_sequence_number: None,
        data_file: Arc::new(df("f", ts)),
    };

    let mut scan = action.scan(leaves, &times);
    assert!(scan.advance());
    assert_eq!(scan.next_leaf().unwrap().manifest_path, "poisoned");
    scan.add_leaf(&action, &[entry(Some((5, 7))), entry(Some((5, 98)))]);
    assert!(scan.advance());
    assert_eq!(scan.next_leaf().unwrap().manifest_path, "unlisted");
    scan.add_leaf(&action, &[entry(None)]);
    assert!(!scan.advance());
    assert!(scan.next_leaf().is_none());

    let retention = scan.finish(&action);
    let dropped: Vec<&str> = retention.dropped.iter().map(|l| l.manifest_path.as_str()).collect();
    let kept: Vec<&str> = retention.kept.iter().map(|l| l.manifest_path.as_str()).collect();
    assert_eq!(dropped, vec!["old", "poisoned"]);
    assert_eq!(kept, vec!["edge", "unlisted"]);
}

#[test]
fn retention_commit_names_the_dropped_leaves() {
    let action = DropColdBucketsAction::new(5, 100);
    let table = metadata();
    let retention = action.split_leaves(
        vec![leaf("old-1"), leaf("new"), leaf("old-2")],
        &[Some(1), Some(500), Some(-7)],
    );
    let entries = vec![inline("hot-1"), inline("hot-2")];
    let done = action.commit_at(&table, &root(), entries.clone(), retention, 42, 9_000).unwrap();
    assert_eq!(*done.root.entries, entries, "the hot part stays as it is");
    let index = done.index.unwrap();
    assert_eq!(index.leaves.len(), 1);
    assert_eq!(index.leaves[0].manifest_path, "new");
    assert!(index.path.starts_with("s3://t/metadata/bucket-index-42-"));
    assert_eq!(done.root.root_metadata.bucket_index_path, Some(index.path.clone()));
    assert_eq!(done.root.root_metadata.removed_paths, vec!["gone"]);
    assert_eq!(done.root.root_metadata.sequence_number, 4);
    let mut commit = done.root.commit;
    match &commit.take_updates()[0] {
        TableUpdate::AddSnapshot { snapshot } => {
            let p = &snapshot.summary.additional_properties;
            assert_eq!(p.get("retention-leaves-dropped").unwrap(), "2");
            assert_eq!(p.get("retention-leaves-kept").unwrap(), "1");
            assert_eq!(p.get("retention-cutoff-micros").unwrap(), "100");
            assert_eq!(p.get("retention-dropped-leaf-paths").unwrap(), "old-1,old-2");
        }
        _ => panic!("expected AddSnapshot"),
    }
}

#[test]
fn retention_without_old_leaves_commits_nothing() {
    let action = DropColdBucketsAction::new(5, 100);
    let retention = action.split_leaves(vec![leaf("new")], &[Some(100)]);
    assert!(action.commit_at(&metadata(), &root(), vec![], retention, 42, 9_000).is_none());
    let retention = action.split_leaves(vec![leaf("new")], &[None]);
    assert!(action.commit(&metadata(), &root(), vec![], retention, 42).is_none());
}

#[test]
fn retention_can_empty_the_cold_tier() {
    let action = DropColdBucketsAction::new(5, 100);
    let retention = action.split_leaves(vec![leaf("old")], &[Some(1)]);
    let done = action.commit(&metadata(), &root(), vec![inline("hot")], retention, 42).unwrap();
    assert_eq!(*done.root.entries, vec![inline("hot")]);
    assert!(done.index.is_none());
    assert!(done.root.root_metadata.bucket_index_path.is_none());
}

#[test]
fn retention_stamps_its_snapshot_with_the_time() {
    let action = DropColdBucketsAction::new(5, 100);
    let retention = action.split_leaves(vec![leaf("old")], &[Some(1)]);
    let mut done = action.commit(&metadata(), &root(), vec![], retention, 42).unwrap();
    match &done.root.commit.take_updates()[0] {
        TableUpdate::AddSnapshot { snapshot } => {
            assert!(snapshot.timestamp_ms > 1_700_000_000_000);
        }
        _ => panic!("expected AddSnapshot"),
    }
}

#[test]
fn retention_needs_version_four() {
    let action = DropColdBucketsAction::new(5, 100);
    let mut table = metadata();
    table.format_version = FormatVersion::V1;
    let err = action.start_commit(&table).err().unwrap();
    assert_eq!(err.kind(), ErrorKind::FeatureUnsupported);
    assert_eq!(err.message(), "drop_cold_buckets requires format version V4 (effective=V1)");
    assert_eq!(action.start_commit(&metadata()).unwrap(), CommitStart::Proceed);
    let mut bare = metadata();
    bare.current_snapshot_id = None;
    assert_eq!(action.start_commit(&bare).unwrap(), CommitStart::Nothing);
}

#[test]
fn times_are_stored_beside_the_index() {
    assert_eq!(bucket_index_maxts_sidecar_path("s3://i.parquet"), "s3://i.parquet.max-ts.json");
    let mut entries = MaxTsMap::new();
    entries.insert("a".to_string(), Some(7));
    let sidecar = MaxTsSidecar { format_version: 1, ts_field_id: 5, entries };
    let read = accept_maxts_sidecar(sidecar, 5).unwrap();
    assert_eq!(read.get("a"), Some(&Some(7)));
    assert_eq!(read.get("b"), None);
    let other_field = MaxTsSidecar { format_version: 1, ts_field_id: 6, entries: MaxTsMap::new() };
    assert!(accept_maxts_sidecar(other_field, 5).is_none());
    let other_version = MaxTsSidecar { format_version: 2, ts_field_id: 5, entries: MaxTsMap::new() };
    assert!(accept_maxts_sidecar(other_version, 5).is_none());
}

#[test]
fn only_real_times_are_stored() {
    let times = |pairs: &[(&str, Option<i64>)]| {
        let mut map = MaxTsMap::new();
        for (path, t) in pairs {
            map.insert(path.to_string(), *t);
        }
        map
    };
    let stored = times(&[("a", Some(7)), ("b", None)]);
    let read = times(&[("a", Some(8)), ("d", Some(9))]);
    let read_hot = times(&[("d", Some(10)), ("e", Some(11)), ("f", None)]);
    let leaves = ["a", "b", "c", "d", "e", "f"].map(leaf);
    let write = maxts_sidecar(&leaves, &stored, &read, &read_hot, 5);
    assert_eq!(write.format_version, 1);
    assert_eq!(write.ts_field_id, 5);
    let entries: Vec<(&str, i64)> =
        write.entries.iter().map(|e| (e.path.as_str(), e.max_ts)).collect();
    assert_eq!(entries, vec![("a", 7), ("d", 9), ("e", 11)]);
}

#[test]
fn stored_times_change_what_is_read_and_nothing_else() {
    let action = DropColdBucketsAction::new(5, 100);
    let times = [("a", 99), ("b", 100), ("c", 7)];
    let entry = |ts| ManifestEntry {
        status: ManifestStatus::Existing,
        snapshot_id: None,
        sequence_number: None,
        file_sequence_number: None,
        data_file: Arc::new(df("f", Some((5, ts)))),
    };
    let run = |stored: &MaxTsMap| {
        let leaves = times.iter().map(|(p, _)| leaf(p)).collect();
        let mut scan = action.scan(leaves, stored);
        let mut reads = 0;
        while scan.advance() {
            let path = scan.next_leaf().unwrap().manifest_path.clone();
            let ts = times.iter().find(|(p, _)| *p == path).unwrap().1;
            scan.add_leaf(&action, &[entry(ts)]);
            reads += 1;
        }
        (scan.finish(&action), reads)
    };
    let mut stored = MaxTsMap::new();
    stored.insert("a".to_string(), Some(99));
    stored.insert("b".to_string(), Some(100));
    let (with, few) = run(&stored);
    let (without, all) = run(&MaxTsMap::new());
    assert_eq!((few, all), (1, 3));
    assert_eq!(with.kept, without.kept);
    assert_eq!(with.dropped, without.dropped);
    assert_eq!(with.dropped.len(), 2);
}

#[test]
fn a_leaf_with_a_file_of_unknown_time_is_kept() {
    let entry = |status, ts| ManifestEntry {
        status,
        snapshot_id: None,
        sequence_number: None,
        file_sequence_number: None,
        data_file: Arc::new(df("f", ts)),
    };
    let old = entry(ManifestStatus::Existing, Some((5, 99)));
    let unknown = entry(ManifestStatus::Existing, None);
    let dead = entry(ManifestStatus::Deleted, None);
    assert_eq!(alive_max_ts(&[old.clone(), unknown.clone()], 5), None);
    assert_eq!(alive_max_ts(&[old.clone(), dead], 5), Some(99), "a dead file does not matter");
    assert_eq!(alive_max_ts(&[], 5), None);

    let action = DropColdBucketsAction::new(5, 100);
    let mut scan = action.scan(vec![leaf("mixed"), leaf("old")], &MaxTsMap::new());
    assert!(scan.advance());
    scan.add_leaf(&action, &[old.clone(), unknown]);
    assert!(scan.advance());
    scan.add_leaf(&action, &[old]);
    assert!(!scan.advance());
    let retention = scan.finish(&action);
    assert_eq!(retention.kept, vec![leaf("mixed")]);
    assert_eq!(retention.dropped, vec![leaf("old")]);
}
