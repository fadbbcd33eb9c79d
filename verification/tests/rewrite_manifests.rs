use std::collections::HashMap;
use std::sync::Arc;

use cold_tier::cluster::ManifestWriterKind;
use cold_tier::error::{Error, ErrorKind};
use cold_tier::manifest::{
    DataContentType, DataFile, FormatVersion, ManifestContentType, ManifestEntry, ManifestFile,
    ManifestStatus,
};
use cold_tier::partition::{PartitionSpec, Struct};
use cold_tier::path_set::Properties;
use cold_tier::rewrite_manifests::{
    manifest_list_path_of, split_manifests, ManifestCompaction, NextAttempt,
    RewriteCounts, RewriteManifestsAction,
};
use cold_tier::rewrite_run::Rewrite;
use cold_tier::table::{Operation, Snapshot, Summary, TableMetadata, TableUpdate};

fn manifest(path: &str, content: ManifestContentType) -> ManifestFile {
    ManifestFile {
        manifest_path: path.to_string(),
        manifest_length: 1,
        partition_spec_id: 0,
        content,
        sequence_number: 1,
        min_sequence_number: 1,
        added_snapshot_id: 1,
        added_files_count: Some(1),
        existing_files_count: Some(0),
        deleted_files_count: Some(0),
        added_rows_count: Some(1),
        existing_rows_count: Some(0),
        deleted_rows_count: Some(0),
        partitions: None,
        key_metadata: None,
        first_row_id: None,
    }
}

fn data(path: &str) -> ManifestFile {
    manifest(path, ManifestContentType::Data)
}

fn deletes(path: &str) -> ManifestFile {
    manifest(path, ManifestContentType::Deletes)
}

fn entry(path: &str, spec_id: i32, status: ManifestStatus) -> ManifestEntry {
    ManifestEntry {
        status,
        snapshot_id: Some(8),
        sequence_number: Some(9),
        file_sequence_number: Some(10),
        data_file: Arc::new(DataFile {
            content: DataContentType::Data,
            file_path: path.to_string(),
            partition: Struct { fields: vec![] },
            partition_spec_id: spec_id,
            record_count: 1,
            file_size_in_bytes: 100,
            upper_bounds: HashMap::new(),
            equality_ids: None,
        }),
    }
}

fn added(path: &str, spec_id: i32) -> ManifestEntry {
    entry(path, spec_id, ManifestStatus::Added)
}

fn metadata(version: FormatVersion) -> TableMetadata {
    let spec =
        |id: i32| Arc::new(PartitionSpec { spec_id: id, fields: vec![], partition_type: None });
    TableMetadata {
        format_version: version,
        uuid: 1,
        location: "s3://t".to_string(),
        last_sequence_number: 3,
        last_updated_ms: 0,
        next_row_id: 0,
        current_schema_id: 0,
        default_spec: spec(0),
        partition_specs: vec![spec(0), spec(1)],
        current_snapshot_id: Some(1),
        snapshots: vec![Arc::new(Snapshot {
            snapshot_id: 1,
            parent_snapshot_id: None,
            sequence_number: 3,
            timestamp_ms: 0,
            manifest_list: "list".to_string(),
            summary: Summary {
                operation: Operation::Append,
                additional_properties: Properties::new(),
            },
            schema_id: None,
            row_range: None,
        })],
        refs: vec![],
        properties: Arc::new(Properties::new()),
    }
}

fn paths(files: &[ManifestFile]) -> Vec<&str> {
    files.iter().map(|m| m.manifest_path.as_str()).collect()
}

#[test]
fn manifests_are_parted_by_content() {
    let parts = split_manifests(vec![data("a"), deletes("b"), data("c")]);
    assert_eq!(paths(&parts.data), vec!["a", "c"]);
    assert_eq!(paths(&parts.deletes), vec!["b"]);
}

#[test]
fn full_manifests_are_written_as_they_fill() {
    let table = metadata(FormatVersion::V2);
    let mut compaction = ManifestCompaction::with_id(1);
    let first = compaction
        .add_manifest(
            &[added("a", 0), entry("dead", 0, ManifestStatus::Deleted), added("b", 1)],
            &table,
            Some(2),
        )
        .unwrap();
    assert!(first.is_empty());
    let second = compaction.add_manifest(&[added("c", 0), added("d", 0)], &table, Some(2)).unwrap();
    assert_eq!(second.len(), 1);
    assert_eq!(
        second[0].path,
        "s3://t/metadata/00000000-0000-0000-0000-000000000001-m0.parquet"
    );
    assert_eq!(second[0].spec_id, 0);
    assert_eq!(second[0].kind, ManifestWriterKind::V2Data);
    let names: Vec<&str> =
        second[0].entries.iter().map(|e| e.data_file.file_path.as_str()).collect();
    assert_eq!(names, vec!["a", "c"]);
    assert!(second[0].entries.iter().all(|e| e.status == ManifestStatus::Existing
        && e.snapshot_id == Some(8)
        && e.sequence_number == Some(9)));

    let rest = compaction.finish(&table, 2).unwrap();
    assert_eq!(rest.len(), 2);
    let specs: Vec<i32> = rest.iter().map(|w| w.spec_id).collect();
    assert_eq!(specs, vec![0, 1]);
    assert!(rest[0].path.ends_with("-m1.parquet"));
    assert!(rest[1].path.ends_with("-m2.parquet"));
}

#[test]
fn within_a_transaction_all_is_written_at_the_end() {
    let table = metadata(FormatVersion::V1);
    let mut compaction = ManifestCompaction::with_id(1);
    let none = compaction
        .add_manifest(&[added("a", 0), added("b", 0), added("c", 0)], &table, None)
        .unwrap();
    assert!(none.is_empty());
    let ws = compaction.finish_at_once(&table, 2).unwrap();
    let sizes: Vec<usize> = ws.iter().map(|w| w.entries.len()).collect();
    assert_eq!(sizes, vec![2, 1]);
    assert!(ws[0].path.ends_with("-m0.avro"));
    assert_eq!(ws[0].kind, ManifestWriterKind::V1);
}

#[test]
fn an_unknown_spec_fails_the_rewrite() {
    let table = metadata(FormatVersion::V2);
    let mut compaction = ManifestCompaction::new();
    let err = compaction.add_manifest(&[added("a", 5)], &table, Some(1)).err().unwrap();
    assert_eq!(err.kind(), ErrorKind::DataInvalid);
    assert_eq!(err.message(), "partition spec 5 not found");

    let mut late = ManifestCompaction::new();
    assert!(late.add_manifest(&[added("a", 5)], &table, Some(2)).unwrap().is_empty());
    let err = late.finish(&table, 2).err().unwrap();
    assert_eq!(err.message(), "partition spec 5 not found");

    let mut at_once = ManifestCompaction::new();
    assert!(at_once.add_manifest(&[added("a", 5)], &table, None).unwrap().is_empty());
    let err = at_once.finish_at_once(&table, 2).err().unwrap();
    assert_eq!(err.message(), "partition spec 5 not found in table metadata");
}

#[test]
fn a_rewrite_keeps_what_was_added_meanwhile() {
    let action = RewriteManifestsAction::new().target_entries_per_manifest(2);
    let table = metadata(FormatVersion::V2);
    let list = vec![data("old-1"), deletes("d"), data("old-2"), data("old-3")];
    let mut rewrite = Rewrite::new(list, 42);

    assert_eq!(rewrite.next_manifest().unwrap().manifest_path, "old-1");
    assert!(rewrite.can_take(3));
    let full = rewrite
        .add_next(&[added("a", 0), added("b", 0), added("c", 0)], &table, Some(2))
        .unwrap();
    assert_eq!(full.len(), 1);
    rewrite.add_written(vec![data("new-0")]);
    assert_eq!(rewrite.next_manifest().unwrap().manifest_path, "old-2");
    let lost = || Error::new(ErrorKind::Unexpected, "lost".to_string());
    let lenient = RewriteManifestsAction::new().skip_missing_manifests(true);
    assert!(rewrite.skip_next(&lenient, lost()).is_ok());
    assert_eq!(rewrite.next_manifest().unwrap().manifest_path, "old-3");
    assert!(rewrite.skip_next(&action, lost()).is_err());
    assert!(rewrite.next_manifest().is_none());
    assert!(!rewrite.can_finish(0), "an entry is still collected");
    assert!(rewrite.can_finish(2));

    let (mut rewritten, rest) = rewrite.finish(&table, 2).unwrap();
    assert_eq!(rest.len(), 1);
    assert_eq!(rest[0].entries[0].data_file.file_path, "c");
    rewritten.add_written(vec![data("new-1")]);

    let fresh = vec![data("old-1"), deletes("d"), data("later"), data("old-2")];
    let attempt = rewritten.attempt(&action, &table, fresh, 1);
    let held: Vec<&str> = attempt.manifests.iter().map(|m| m.manifest_path.as_str()).collect();
    assert_eq!(held, vec!["new-0", "new-1", "later", "d"]);
    assert!(attempt.manifest_list.starts_with("s3://t/metadata/snap-42-0-"));
    let mut commit = attempt.commit;
    let updates = commit.take_updates();
    let p = summary_of(&updates);
    assert_eq!(p.get("rewritten-data-manifests-count").unwrap(), "3");
    assert_eq!(p.get("new-data-manifests-count").unwrap(), "2");
    assert_eq!(p.get("new-manifests-since-rewrite").unwrap(), "0");
    assert_eq!(p.get("attempt").unwrap(), "1");
}

#[test]
fn a_rewrite_within_a_transaction_holds_what_was_rewritten() {
    let action = RewriteManifestsAction::new();
    let table = metadata(FormatVersion::V2);
    let mut rewrite = Rewrite::new(vec![data("old-1"), deletes("d")], 42);
    assert!(rewrite.add_next(&[added("a", 0)], &table, None).unwrap().is_empty());
    let (mut rewritten, rest) = rewrite.finish_at_once(&table, 10).unwrap();
    assert_eq!(rest.len(), 1);
    rewritten.add_written(vec![data("new-0")]);
    let done = rewritten.commit_at_once_at(&action, &table, 5);
    let held: Vec<&str> = done.manifests.iter().map(|m| m.manifest_path.as_str()).collect();
    assert_eq!(held, vec!["new-0", "d"]);
    let mut commit = done.commit;
    let updates = commit.take_updates();
    let p = summary_of(&updates);
    assert_eq!(p.get("rewritten-data-manifests-count").unwrap(), "1");
    assert_eq!(p.get("new-data-manifests-count").unwrap(), "1");
    assert_eq!(p.get("total-original-manifests").unwrap(), "2");
    let mut now = rewritten.commit_at_once(&action, &table).commit;
    match &now.take_updates()[0] {
        TableUpdate::AddSnapshot { snapshot } => {
            assert!(snapshot.timestamp_ms > 1_700_000_000_000);
        }
        _ => panic!("expected AddSnapshot"),
    }

    let mut lacking = Rewrite::new(vec![data("old-1")], 42);
    assert!(lacking.add_next(&[added("a", 5)], &table, None).unwrap().is_empty());
    let err = lacking.finish_at_once(&table, 10).err().unwrap();
    assert_eq!(err.message(), "partition spec 5 not found in table metadata");
}

#[test]
fn manifest_lists_are_named_by_snapshot_and_commit() {
    assert_eq!(
        manifest_list_path_of("s3://t", -7, 1),
        "s3://t/metadata/snap--7-0-00000000-0000-0000-0000-000000000001.avro"
    );
}

#[test]
fn rewrite_needs_a_snapshot() {
    let action = RewriteManifestsAction::new();
    let mut bare = metadata(FormatVersion::V2);
    bare.current_snapshot_id = None;
    let err = action.starting_snapshot(&bare).err().unwrap();
    assert_eq!(err.kind(), ErrorKind::DataInvalid);
    assert_eq!(err.message(), "Cannot rewrite manifests: table has no current snapshot");
    let err = action.fresh_snapshot(&bare).err().unwrap();
    assert_eq!(err.message(), "Table has no current snapshot during merge phase");
    let table = metadata(FormatVersion::V2);
    assert_eq!(action.starting_snapshot(&table).unwrap().snapshot_id, 1);
    assert_eq!(action.fresh_snapshot(&table).unwrap().snapshot_id, 1);
}

#[test]
fn unreadable_manifests_fail_the_rewrite_unless_skipped() {
    let lost = || Error::new(ErrorKind::Unexpected, "lost".to_string());
    let strict = RewriteManifestsAction::new();
    assert_eq!(strict.unreadable(lost()).err().unwrap().message(), "lost");
    let lenient = RewriteManifestsAction::new().skip_missing_manifests(true);
    assert!(lenient.unreadable(lost()).is_ok());
    assert_eq!(
        RewriteManifestsAction::new().target_entries_per_manifest(5).target_entries_per_manifest,
        5
    );
}

#[test]
fn conflicts_are_tried_five_times() {
    let action = RewriteManifestsAction::new();
    let conflict =
        Error::new(ErrorKind::CatalogCommitConflicts, "moved".to_string()).with_retryable(true);
    let attempts: Vec<NextAttempt> =
        (0..5).map(|attempt| action.after_failure(attempt, &conflict)).collect();
    assert_eq!(attempts.iter().filter(|n| **n == NextAttempt::Retry).count(), 4);
    assert_eq!(attempts[4], NextAttempt::Fail);
    let other = Error::new(ErrorKind::Unexpected, "broken".to_string());
    assert_eq!(action.after_failure(0, &other), NextAttempt::Fail);
}

fn summary_of(updates: &[TableUpdate]) -> &Properties {
    match &updates[0] {
        TableUpdate::AddSnapshot { snapshot } => &snapshot.summary.additional_properties,
        _ => panic!("expected AddSnapshot"),
    }
}

#[test]
fn rewrite_commits_say_what_was_done() {
    let action = RewriteManifestsAction::new();
    let table = metadata(FormatVersion::V2);
    let counts = RewriteCounts {
        data_manifests: 7,
        new_manifests: 2,
        starting_manifests: 9,
        fresh_manifests: 12,
        attempt: 1,
    };
    let mut commit = action.commit_at(&table, "l".to_string(), &counts, 42, 5);
    let updates = commit.take_updates();
    let p = summary_of(&updates);
    assert_eq!(p.get("rewritten-data-manifests-count").unwrap(), "7");
    assert_eq!(p.get("new-data-manifests-count").unwrap(), "2");
    assert_eq!(p.get("new-manifests-since-rewrite").unwrap(), "3");
    assert_eq!(p.get("attempt").unwrap(), "1");

    let fewer = RewriteCounts { fresh_manifests: 8, ..counts };
    let mut commit = action.commit_at(&table, "l".to_string(), &fewer, 42, 5);
    let updates = commit.take_updates();
    assert_eq!(summary_of(&updates).get("new-manifests-since-rewrite").unwrap(), "0");

    let mut commit = action.commit_at_once_at(&table, "l".to_string(), 7, 2, 9, 42, 5);
    let updates = commit.take_updates();
    assert_eq!(summary_of(&updates).get("total-original-manifests").unwrap(), "9");
}

#[test]
fn a_rewrite_lists_every_file_as_often_as_before() {
    let table = metadata(FormatVersion::V2);
    let lenient = RewriteManifestsAction::new().skip_missing_manifests(true);
    let manifests: Vec<Option<Vec<ManifestEntry>>> = vec![
        Some(vec![added("a", 0), added("b", 1), entry("dead", 0, ManifestStatus::Deleted)]),
        None,
        Some(vec![added("a", 0), added("c", 0), added("d", 1), added("e", 0)]),
        Some(vec![added("b", 1), entry("a", 0, ManifestStatus::Deleted)]),
    ];
    for limit in [None, Some(1), Some(2), Some(3)] {
        let list = (0..manifests.len()).map(|i| data(&format!("old-{i}"))).collect();
        let mut rewrite = Rewrite::new(list, 42);
        let mut written = vec![];
        for m in &manifests {
            match m {
                Some(entries) => written.extend(rewrite.add_next(entries, &table, limit).unwrap()),
                None => {
                    let lost = Error::new(ErrorKind::Unexpected, "lost".to_string());
                    assert!(rewrite.skip_next(&lenient, lost).is_ok());
                }
            }
        }
        let (_, rest) = rewrite.finish(&table, 3).unwrap();
        written.extend(rest);
        let mut files: Vec<&str> = written
            .iter()
            .flat_map(|w| w.entries.iter())
            .map(|e| e.data_file.file_path.as_str())
            .collect();
        files.sort();
        assert_eq!(files, vec!["a", "a", "b", "b", "c", "d", "e"], "{limit:?}");
        let mut paths: Vec<&str> = written.iter().map(|w| w.path.as_str()).collect();
        paths.dedup();
        assert_eq!(paths.len(), written.len());
    }
}
