use std::sync::Arc;

use cold_tier::action::{ActionCommit, ApplyTransactionAction, TransactionAction};
use cold_tier::commit::replace_commit;
use cold_tier::error::{Error, ErrorKind};
use cold_tier::manifest::FormatVersion;
use cold_tier::metadata_actions::{
    FastAppendAction, ReplaceSortOrderAction, UpdateLocationAction, UpdatePropertiesAction,
    UpdateSchemaAction, UpdateSpecAction, UpdateStatisticsAction, UpgradeFormatVersionAction,
};
use cold_tier::partition::PartitionSpec;
use cold_tier::path_set::Properties;
use cold_tier::replace_data_files::ReplaceDataFilesAction;
use cold_tier::table::{
    apply_updates, Branch, BranchRetention, Operation, Snapshot, SnapshotReference, Summary, Table,
    TableMetadata, TableRequirement, TableUpdate,
};
use cold_tier::transaction::{decide_retry, RetryPolicy, Transaction};

fn properties(pairs: &[(&str, &str)]) -> Properties {
    let mut p = Properties::new();
    for (k, v) in pairs {
        p.insert(k.to_string(), v.to_string());
    }
    p
}

fn snapshot(id: i64, sequence_number: i64, timestamp_ms: i64) -> Arc<Snapshot> {
    Arc::new(Snapshot {
        snapshot_id: id,
        parent_snapshot_id: None,
        sequence_number,
        timestamp_ms,
        manifest_list: "list".to_string(),
        summary: Summary { operation: Operation::Append, additional_properties: Properties::new() },
        schema_id: None,
        row_range: None,
    })
}

fn retention() -> BranchRetention {
    BranchRetention { min_snapshots_to_keep: None, max_snapshot_age_ms: None, max_ref_age_ms: None }
}

fn table() -> Table {
    let spec = Arc::new(PartitionSpec { spec_id: 0, fields: vec![], partition_type: None });
    let reference = SnapshotReference { snapshot_id: 11, retention: retention() };
    Table {
        identifier: "ns.t".to_string(),
        metadata_location: Some("m1".to_string()),
        metadata: Arc::new(TableMetadata {
            format_version: FormatVersion::V2,
            uuid: 0xabc,
            location: "s3://t".to_string(),
            last_sequence_number: 4,
            last_updated_ms: 100_000,
            next_row_id: 0,
            current_schema_id: 0,
            default_spec: spec.clone(),
            partition_specs: vec![spec],
            current_snapshot_id: Some(11),
            snapshots: vec![snapshot(11, 4, 100_000)],
            refs: vec![Arc::new(Branch { name: "main".to_string(), reference })],
            properties: Arc::new(Properties::new()),
        }),
    }
}

fn policy(num_retries: usize) -> RetryPolicy {
    RetryPolicy { min_wait_ms: 1, max_wait_ms: 2, total_timeout_ms: 1_800_000, num_retries }
}

fn conflict() -> Error {
    Error::new(ErrorKind::CatalogCommitConflicts, "Catalog commit conflict".to_string())
        .with_retryable(true)
}

struct Plain;

impl TransactionAction for Plain {}

fn plain_transaction() -> Transaction<Plain> {
    Plain.apply(Transaction::new(&table())).unwrap()
}

fn failures_before(tx: &Transaction<Plain>, policy: &RetryPolicy, error: &Error) -> usize {
    let mut attempts = 1;
    while tx.after_failure(policy, error, attempts - 1).is_some() {
        attempts += 1;
    }
    attempts
}

#[test]
fn retryable_errors_are_retried_as_often_as_allowed() {
    let tx = plain_transaction();
    assert_eq!(failures_before(&tx, &policy(3), &conflict()), 4);
    assert_eq!(failures_before(&tx, &policy(2), &conflict()), 3);
    assert_eq!(failures_before(&tx, &policy(0), &conflict()), 1);
    assert!(tx.after_failure(&policy(3), &conflict(), 1).is_some());
}

#[test]
fn other_errors_are_final() {
    let tx = plain_transaction();
    let error = Error::new(ErrorKind::Unexpected, "Invalid".to_string());
    assert_eq!(failures_before(&tx, &policy(3), &error), 1);
    assert!(!error.retryable());
}

#[test]
fn a_replacement_is_never_retried() {
    let base = table();
    let action = Transaction::<ReplaceDataFilesAction>::new(&base).replace_data_files();
    let tx = action.apply(Transaction::new(&base)).unwrap();
    assert!(tx.retry_disabled());
    assert!(tx.after_failure(&policy(3), &conflict(), 0).is_none());
}

#[test]
fn waits_grow_up_to_the_greatest() {
    let policy = RetryPolicy {
        min_wait_ms: 100,
        max_wait_ms: 350,
        total_timeout_ms: 1_800_000,
        num_retries: 4,
    };
    assert_eq!(policy.wait(0), Some(100_000_000));
    let second = policy.wait(1).unwrap();
    assert!((200_000_000..200_001_000).contains(&second), "doubled in single precision");
    assert_eq!(policy.wait(2), Some(350_000_000));
    assert_eq!(policy.wait(3), Some(350_000_000));
    assert_eq!(policy.wait(4), None);
}

#[test]
fn waits_end_with_the_total() {
    let policy =
        RetryPolicy { min_wait_ms: 100, max_wait_ms: 60_000, total_timeout_ms: 250, num_retries: 9 };
    assert_eq!(policy.wait(0), Some(100_000_000));
    assert_eq!(policy.wait(1), None);
    let none = RetryPolicy { total_timeout_ms: 99, ..policy };
    assert_eq!(none.wait(0), None);
}

#[test]
fn policy_comes_from_the_tables_properties() {
    let default = RetryPolicy::from_properties(&properties(&[])).unwrap();
    assert_eq!(
        default,
        RetryPolicy {
            min_wait_ms: 100,
            max_wait_ms: 60_000,
            total_timeout_ms: 1_800_000,
            num_retries: 4
        }
    );
    let given = RetryPolicy::from_properties(&properties(&[
        ("commit.retry.min-wait-ms", "1"),
        ("commit.retry.max-wait-ms", "+2"),
        ("commit.retry.total-timeout-ms", "3"),
        ("commit.retry.num-retries", "0004"),
    ]))
    .unwrap();
    assert_eq!(
        given,
        RetryPolicy { min_wait_ms: 1, max_wait_ms: 2, total_timeout_ms: 3, num_retries: 4 }
    );
    for bad in ["", "-1", "1.5", " 1", "18446744073709551616", "x"] {
        let err = RetryPolicy::from_properties(&properties(&[("commit.retry.num-retries", bad)]))
            .err()
            .unwrap();
        assert_eq!(err.kind(), ErrorKind::DataInvalid);
    }
}

#[test]
fn retry_needs_all_three() {
    assert_eq!(decide_retry(true, false, Some(5)), Some(5));
    assert_eq!(decide_retry(false, false, Some(5)), None);
    assert_eq!(decide_retry(true, true, Some(5)), None);
    assert_eq!(decide_retry(true, false, None), None);
}

#[test]
fn the_first_attempt_works_on_the_table_as_given() {
    let mut tx = plain_transaction();
    assert!(!tx.begin_attempt());
    assert!(tx.begin_attempt(), "later attempts read the table again");
    let mut moved = table();
    moved.metadata_location = Some("m2".to_string());
    tx.refresh(moved);
    assert_eq!(tx.attempt().table().metadata_location.as_deref(), Some("m2"));
}

#[test]
fn an_empty_transaction_is_idle() {
    assert!(Transaction::<Plain>::new(&table()).is_idle());
    assert!(!plain_transaction().is_idle());
}

fn new_snapshot_commit(base: &TableMetadata, id: i64, at: i64) -> ActionCommit {
    replace_commit(base, id, format!("list-{id}"), Properties::new(), at, None)
        .with_manifest_paths(vec![format!("m-{id}")])
}

#[test]
fn each_action_sees_what_the_ones_before_it_did() {
    let mut tx = plain_transaction();
    let mut attempt = tx.attempt();
    let first = new_snapshot_commit(&attempt.table().metadata, 12, 100_001);
    tx.add_commit(&mut attempt, first).unwrap();
    assert_eq!(attempt.table().metadata.current_snapshot().unwrap().snapshot_id, 12);
    let second = new_snapshot_commit(&attempt.table().metadata, 13, 100_002);
    tx.add_commit(&mut attempt, second).unwrap();
    let commit = tx.finish_attempt(attempt);
    assert_eq!(commit.identifier, "ns.t");
    assert_eq!(commit.updates.len(), 4);
    assert_eq!(commit.requirements.len(), 4);
    assert_eq!(tx.created_manifest_paths(), &vec!["m-12".to_string(), "m-13".to_string()]);
    assert_eq!(tx.table().metadata.current_snapshot_id, Some(11), "the base stays as it is");
}

#[test]
fn a_moved_branch_is_refused_and_may_be_tried_again() {
    let tx = plain_transaction();
    let mut attempt = tx.attempt();
    let stale = new_snapshot_commit(&table().metadata, 12, 100_001);
    let winner = new_snapshot_commit(&table().metadata, 13, 100_001);
    tx.add_commit(&mut attempt, winner).unwrap();
    let err = tx.add_commit(&mut attempt, stale).err().unwrap();
    assert_eq!(err.kind(), ErrorKind::CatalogCommitConflicts);
    assert!(err.retryable());
    assert_eq!(attempt.table().metadata.current_snapshot_id, Some(13));
}

#[test]
fn requirements_are_checked_against_the_table() {
    let metadata = table().metadata;
    assert!(TableRequirement::UuidMatch { uuid: 0xabc }.check(&metadata).is_ok());
    let err = TableRequirement::UuidMatch { uuid: 1 }.check(&metadata).err().unwrap();
    assert_eq!(err.kind(), ErrorKind::CatalogCommitConflicts);
    assert_eq!(err.message(), "Requirement failed: Table UUID does not match");
    let on = |name: &str, id| TableRequirement::RefSnapshotIdMatch {
        ref_name: name.to_string(),
        snapshot_id: id,
    };
    assert!(on("main", Some(11)).check(&metadata).is_ok());
    assert!(on("other", None).check(&metadata).is_ok());
    let err = on("main", Some(12)).check(&metadata).err().unwrap();
    assert!(err.retryable());
    assert_eq!(
        err.message(),
        "Requirement failed: Branch or tag `main`'s snapshot has changed"
    );
    assert!(on("main", None).check(&metadata).is_err());
    assert!(on("other", Some(1)).check(&metadata).is_err());
}

fn add(s: Arc<Snapshot>) -> TableUpdate {
    TableUpdate::AddSnapshot { snapshot: s }
}

#[test]
fn snapshots_are_added_in_order_of_sequence_and_time() {
    let metadata = table().metadata;
    let added = apply_updates(&metadata, &[add(snapshot(12, 5, 100_001))]).unwrap();
    assert_eq!(added.snapshots.len(), 2);
    assert_eq!(added.last_sequence_number, 5);
    assert_eq!(added.current_snapshot_id, Some(11), "adding moves no branch");

    for refused in [snapshot(11, 5, 100_001), snapshot(12, 4, 100_001), snapshot(12, 5, 39_999)] {
        let err = apply_updates(&metadata, &[add(refused)]).err().unwrap();
        assert_eq!(err.kind(), ErrorKind::DataInvalid);
    }
    assert!(
        apply_updates(&metadata, &[add(snapshot(12, 5, 40_000))]).is_ok(),
        "a clock may lag by a minute"
    );
}

#[test]
fn branches_are_set_to_known_snapshots() {
    let metadata = table().metadata;
    let set = |name: &str, id| TableUpdate::SetSnapshotRef {
        ref_name: name.to_string(),
        reference: SnapshotReference { snapshot_id: id, retention: retention() },
    };
    let err = apply_updates(&metadata, &[set("main", 12)]).err().unwrap();
    assert_eq!(err.kind(), ErrorKind::DataInvalid);
    let moved =
        apply_updates(&metadata, &[add(snapshot(12, 5, 100_001)), set("main", 12)]).unwrap();
    assert_eq!(moved.current_snapshot_id, Some(12));
    assert_eq!(moved.refs.len(), 1);
    let tagged = apply_updates(&metadata, &[set("audit", 11)]).unwrap();
    assert_eq!(tagged.refs.len(), 2);
    assert_eq!(tagged.current_snapshot_id, Some(11));
    let relocated = apply_updates(
        &metadata,
        &[TableUpdate::SetLocation { location: "s3://u".to_string() }],
    )
    .unwrap();
    assert_eq!(relocated.location, "s3://u");
}

#[test]
fn factories_hand_out_empty_actions() {
    let base = table();
    let tx = Transaction::<Plain>::new(&base);
    assert_eq!(tx.update_table_properties(), UpdatePropertiesAction { updates: properties(&[]) });
    assert_eq!(
        tx.update_table_properties().set("k".to_string(), "v".to_string()).updates.get("k").unwrap(),
        "v"
    );
    assert_eq!(tx.fast_append(), FastAppendAction { added_data_files: vec![] });
    assert_eq!(tx.rewrite_manifests().target_entries_per_manifest, 1000);
    assert!(!tx.rewrite_manifests().skip_missing_manifests);
    assert_eq!(tx.rebalance_root_manifest().inline_threshold, 1000);
    assert_eq!(tx.graduate_buckets(5, 7).cutoff_micros, 7);
    assert_eq!(tx.drop_cold_buckets(5, 7).ts_field_id, 5);
    assert!(tx.compact_cold_tier().removed.is_empty());
    assert!(tx.row_delta().check_duplicate);
    assert_eq!(tx.upgrade_table_version(), UpgradeFormatVersionAction {});
    assert_eq!(tx.replace_sort_order(), ReplaceSortOrderAction {});
    assert_eq!(tx.update_location(), UpdateLocationAction {});
    assert_eq!(tx.update_statistics(), UpdateStatisticsAction {});
    assert_eq!(tx.update_schema(), UpdateSchemaAction {});
    assert_eq!(tx.update_spec(), UpdateSpecAction {});
}

#[test]
fn actions_that_log_have_names() {
    let base = table();
    let tx = Transaction::<Plain>::new(&base);
    assert_eq!(tx.graduate_buckets(5, 7).action_name(), "graduate_buckets");
    assert_eq!(tx.drop_cold_buckets(5, 7).action_name(), "drop_cold_buckets");
    assert_eq!(tx.compact_cold_tier().action_name(), "compact_cold_tier");
    assert_eq!(tx.rebalance_root_manifest().action_name(), "rebalance_root_manifest");
}

#[test]
fn waits_within_the_bound_are_never_given_up() {
    let policy =
        RetryPolicy { min_wait_ms: 10, max_wait_ms: 20, total_timeout_ms: 70, num_retries: 5 };
    for n in 0..4 {
        let wait = policy.wait(n).unwrap();
        assert!(wait <= 20_000_000);
    }
    assert_eq!(policy.wait(4), None, "ten and four times twenty are more than seventy");
    assert_eq!(RetryPolicy { total_timeout_ms: 90, ..policy }.wait(4), Some(20_000_000));
}

#[test]
fn properties_versions_and_specs_change_with_the_table() {
    let spec = |id| Arc::new(PartitionSpec { spec_id: id, fields: vec![], partition_type: None });
    let mut updates = Properties::new();
    updates.insert("a".to_string(), "1".to_string());
    updates.insert("b".to_string(), "2".to_string());
    let changed = apply_updates(
        &table().metadata,
        &[
            TableUpdate::SetProperties { updates: updates.clone() },
            TableUpdate::RemoveProperties { removals: vec!["a".to_string(), "z".to_string()] },
            TableUpdate::AddSpec { spec: spec(44) },
            TableUpdate::SetDefaultSpec { spec_id: 44 },
            TableUpdate::SetCurrentSchema { schema_id: 45 },
            TableUpdate::UpgradeFormatVersion { format_version: FormatVersion::V4 },
        ],
    )
    .unwrap();
    assert_eq!(changed.properties.get("a"), None);
    assert_eq!(changed.properties.get("b").unwrap(), "2");
    assert_eq!(changed.default_spec.spec_id, 44);
    assert_eq!(changed.current_schema_id, 45);
    assert_eq!(changed.format_version, FormatVersion::V4);

    for refused in [
        TableUpdate::SetDefaultSpec { spec_id: 99 },
        TableUpdate::AddSpec { spec: spec(44) },
        TableUpdate::UpgradeFormatVersion { format_version: FormatVersion::V1 },
    ] {
        let err = apply_updates(&changed, &[refused]).err().unwrap();
        assert_eq!(err.kind(), ErrorKind::DataInvalid);
    }
}
