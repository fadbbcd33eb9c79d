use std::sync::Arc;

use cold_tier::action::{empty_commit, ActionCommit, ApplyTransactionAction, TransactionAction};
use cold_tier::manifest::FormatVersion;
use cold_tier::partition::PartitionSpec;
use cold_tier::path_set::Properties;
use cold_tier::table::{Table, TableMetadata, TableRequirement, TableUpdate};
use cold_tier::transaction::Transaction;

struct TestAction;

impl TransactionAction for TestAction {}

fn make_v2_table() -> Table {
    let spec = Arc::new(PartitionSpec { spec_id: 0, fields: vec![], partition_type: None });
    Table {
        identifier: "ns1.test1".to_string(),
        metadata_location: Some("s3://bucket/test/location/metadata/v1.json".to_string()),
        metadata: Arc::new(TableMetadata {
            format_version: FormatVersion::V2,
            uuid: 0x9c12_d441_03fe_4693_9a96_a070_5ddf_69c1,
            location: "s3://bucket/test/location".to_string(),
            last_sequence_number: 34,
            last_updated_ms: 1_602_638_573_590,
            next_row_id: 0,
            current_schema_id: 1,
            default_spec: spec.clone(),
            partition_specs: vec![spec],
            current_snapshot_id: None,
            snapshots: vec![],
            refs: vec![],
            properties: Arc::new(Properties::new()),
        }),
    }
}

#[test]
fn test_apply_transaction_action() {
    let table = make_v2_table();
    let action = TestAction;
    let tx = Transaction::new(&table);

    let updated_tx = action.apply(tx).unwrap();
    assert_eq!(updated_tx.pending_actions().len(), 1);

    let applied: &TestAction = &updated_tx.pending_actions()[0];
    assert_eq!(applied.action_name(), "unknown");
}

#[test]
fn test_action_commit() {
    let location = String::from("s3://bucket/prefix/table/");
    let uuid = uuid::Uuid::new_v4().as_u128();
    let updates = vec![TableUpdate::SetLocation { location }];
    let requirements = vec![TableRequirement::UuidMatch { uuid }];

    let mut action_commit = ActionCommit::new(updates.clone(), requirements.clone());

    let taken_updates = action_commit.take_updates();
    let taken_requirements = action_commit.take_requirements();

    assert_eq!(taken_updates, updates);
    assert_eq!(taken_requirements, requirements);

    assert!(action_commit.take_updates().is_empty());
    assert!(action_commit.take_requirements().is_empty());
}

#[test]
fn an_action_commit_hands_over_what_it_was_given() {
    let table = make_v2_table();
    let mut action_commit = ActionCommit::new(
        vec![TableUpdate::SetLocation { location: String::from("s3://bucket/prefix/table/") }],
        vec![TableRequirement::UuidMatch { uuid: 0x9c12_d441_03fe_4693_9a96_a070_5ddf_69c1 }],
    );

    let updates = action_commit.take_updates();
    let requirements = action_commit.take_requirements();

    assert_eq!(
        updates[0],
        TableUpdate::SetLocation { location: String::from("s3://bucket/prefix/table/") }
    );
    assert_eq!(
        requirements[0],
        TableRequirement::UuidMatch { uuid: 0x9c12_d441_03fe_4693_9a96_a070_5ddf_69c1 }
    );
    assert!(requirements[0].check(&table.metadata).is_ok());
}

#[test]
fn manifest_paths_and_root_entries_are_handed_over_once() {
    let mut commit = empty_commit()
        .with_manifest_paths(vec!["m".to_string()])
        .with_root_manifest_entries(Some(4), vec![]);
    assert_eq!(commit.take_manifest_paths(), vec!["m"]);
    assert!(commit.take_manifest_paths().is_empty());
    assert_eq!(commit.take_root_manifest_entries().unwrap().snapshot_id, Some(4));
    assert!(commit.take_root_manifest_entries().is_none());
}

struct Named;

impl TransactionAction for Named {
    fn action_name(&self) -> &'static str {
        "named"
    }

    fn disables_retry(&self) -> bool {
        true
    }
}

#[test]
fn an_action_may_have_a_name_and_forbid_retries() {
    let table = make_v2_table();
    let plain = TestAction.apply(Transaction::new(&table)).unwrap();
    assert!(!plain.pending_actions()[0].disables_retry());
    let named = Named.apply(Transaction::new(&table)).unwrap();
    assert_eq!(named.pending_actions()[0].action_name(), "named");
    assert!(named.pending_actions()[0].disables_retry());
}
