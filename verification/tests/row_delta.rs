use std::collections::HashMap;
use std::sync::Arc;

use cold_tier::action::TransactionAction;
use cold_tier::manifest::{
    DataContentType, DataFile, FormatVersion, ManifestContentType, ManifestFile,
};
use cold_tier::partition::{PartitionSpec, Struct};
use cold_tier::path_set::Properties;
use cold_tier::row_delta::{RowDeltaAction, RowDeltaOperation};
use cold_tier::table::{Operation, Table, TableMetadata};
use cold_tier::transaction::Transaction;

fn file(path: &str, content: DataContentType) -> DataFile {
    DataFile {
        content,
        file_path: path.to_string(),
        partition: Struct { fields: vec![] },
        partition_spec_id: 0,
        record_count: 1,
        file_size_in_bytes: 100,
        upper_bounds: HashMap::new(),
        equality_ids: None,
    }
}

fn manifest(path: &str, added: Option<u32>, existing: Option<u32>) -> ManifestFile {
    ManifestFile {
        manifest_path: path.to_string(),
        manifest_length: 1,
        partition_spec_id: 0,
        content: ManifestContentType::Data,
        sequence_number: 1,
        min_sequence_number: 1,
        added_snapshot_id: 1,
        added_files_count: added,
        existing_files_count: existing,
        deleted_files_count: Some(3),
        added_rows_count: Some(1),
        existing_rows_count: Some(0),
        deleted_rows_count: Some(0),
        partitions: None,
        key_metadata: None,
        first_row_id: None,
    }
}

fn action() -> RowDeltaAction {
    let spec = Arc::new(PartitionSpec { spec_id: 0, fields: vec![], partition_type: None });
    let table = Table {
        identifier: "ns.t".to_string(),
        metadata_location: None,
        metadata: Arc::new(TableMetadata {
            format_version: FormatVersion::V2,
            uuid: 1,
            location: "s3://t".to_string(),
            last_sequence_number: 0,
            last_updated_ms: 0,
            next_row_id: 0,
            current_schema_id: 0,
            default_spec: spec.clone(),
            partition_specs: vec![spec],
            current_snapshot_id: None,
            snapshots: vec![],
            refs: vec![],
            properties: Arc::new(Properties::new()),
        }),
    };
    Transaction::<RowDeltaAction>::new(&table).row_delta()
}

#[test]
fn only_data_files_is_append() {
    let a = action().add_rows(vec![file("d", DataContentType::Data)]);
    let plan = a.plan_commit();
    assert_eq!(plan.operation.operation(), Operation::Append);
    assert!(plan.checks.data_files && !plan.checks.delete_files && plan.checks.duplicates);
    assert!(plan.operation.delete_entries().is_empty());
}

#[test]
fn only_delete_files_is_delete() {
    let a = action().add_deletes(vec![file("p", DataContentType::PositionDeletes)]);
    let plan = a.plan_commit();
    assert_eq!(plan.operation.operation(), Operation::Delete);
    assert!(!plan.checks.data_files && plan.checks.delete_files);
}

#[test]
fn data_and_delete_files_is_overwrite() {
    let a = action()
        .add_rows(vec![file("d", DataContentType::Data)])
        .add_rows(vec![file("e", DataContentType::Data)])
        .add_deletes(vec![file("q", DataContentType::EqualityDeletes)])
        .with_check_duplicate(false)
        .set_commit_uuid(9)
        .set_key_metadata(vec![4]);
    assert_eq!(a.added_data_files.len(), 2);
    assert_eq!(a.added_delete_files.len(), 1);
    assert_eq!(a.key_metadata, Some(vec![4]));
    let plan = a.plan_commit();
    assert_eq!(plan.commit_id, 9);
    assert_eq!(plan.operation.operation(), Operation::Overwrite);
    assert!(!plan.checks.duplicates);
}

#[test]
fn row_delta_may_be_tried_again() {
    let a = action();
    assert!(!a.disables_retry());
    let id = a.plan_commit().commit_id;
    assert_eq!((id >> 76) & 0xf, 7);
}

#[test]
fn manifests_without_live_files_are_left_out() {
    let op = RowDeltaOperation { has_data_files: true, has_delete_files: false };
    assert!(op.existing_manifest(None).is_empty());
    let kept = op.existing_manifest(Some(vec![
        manifest("a", Some(1), Some(0)),
        manifest("b", Some(0), Some(0)),
        manifest("c", Some(0), Some(2)),
        manifest("d", None, Some(0)),
    ]));
    let paths: Vec<&str> = kept.iter().map(|m| m.manifest_path.as_str()).collect();
    assert_eq!(paths, vec!["a", "c", "d"]);
}

#[test]
fn test_row_delta_rejects_equality_delete_without_equality_ids() {
    let a = action().add_deletes(vec![file("test/delete.parquet", DataContentType::EqualityDeletes)]);
    let err = a.check_delete_files().err().unwrap();
    assert!(err.message().contains("Equality delete file must have equality_ids"));
}

#[test]
fn test_row_delta_rejects_position_delete_with_equality_ids() {
    let mut delete_file = file("test/delete.parquet", DataContentType::PositionDeletes);
    delete_file.equality_ids = Some(vec![1]);
    let a = action().add_deletes(vec![delete_file]);
    let err = a.check_delete_files().err().unwrap();
    assert!(err.message().contains("Position delete file should not have equality_ids"));
}

#[test]
fn sound_delete_files_pass() {
    let mut by_equality = file("q", DataContentType::EqualityDeletes);
    by_equality.equality_ids = Some(vec![1, 2]);
    let a = action().add_deletes(vec![file("p", DataContentType::PositionDeletes), by_equality]);
    assert!(a.check_delete_files().is_ok());
    assert!(action().check_delete_files().is_ok());
    let late = a.add_deletes(vec![file("bad", DataContentType::EqualityDeletes)]);
    assert!(late.check_delete_files().is_err());
}
