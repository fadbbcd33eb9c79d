//! A transaction: the actions on a table that are committed together.

use std::sync::Arc;

use vstd::prelude::*;

use crate::action::{answers_retry, ActionCommit, TransactionAction};
use crate::compact_cold_tier::CompactColdTierAction;
use crate::drop_cold_buckets::DropColdBucketsAction;
use crate::error::{Error, ErrorKind};
use crate::graduate_buckets::GraduateBucketsAction;
use crate::manifest::DataFile;
use crate::metadata_actions::{
    FastAppendAction, ReplaceSortOrderAction, UpdateLocationAction, UpdatePropertiesAction,
    UpdateSchemaAction, UpdateSpecAction, UpdateStatisticsAction, UpgradeFormatVersionAction,
};
use crate::outside::{backoff_wait, backoff_wait_of, is_time_ordered};
use crate::path_set::Properties;
use crate::rebalance_root_manifest::RebalanceRootManifestAction;
use crate::replace_data_files::ReplaceDataFilesAction;
use crate::rewrite_manifests::{RewriteManifestsAction, DEFAULT_TARGET_ENTRIES};
use crate::row_delta::RowDeltaAction;
use crate::table::{
    all_updated, apply_updates, Table, TableMetadata, TableRequirement, TableUpdate,
};
use crate::text::{parse_u64, parse_usize, parsed, parsed_within};

verus! {

/// A transaction on a table.
pub struct Transaction<A> {
    table: Table,
    actions: Vec<A>,
    first_attempt: bool,
    created_manifest_paths: Vec<String>,
    disable_retry: bool,
}

/// Whether `metadata` meets all of `requirements`.
pub open spec fn all_met(requirements: Seq<TableRequirement>, metadata: TableMetadata) -> bool {
    forall|i: int| 0 <= i < requirements.len() ==> (#[trigger] requirements[i]).met_by(metadata)
}

/// The number that the property `key` gives, or else `default`; `None` where what it gives is no
/// number of at most `max`.
pub open spec fn number_property(
    properties: Map<Seq<char>, Seq<char>>,
    key: Seq<char>,
    default: nat,
    max: nat,
) -> Option<nat> {
    if properties.contains_key(key) {
        parsed_within(properties[key], max)
    } else {
        Some(default)
    }
}

/// How often and after what waits a commit is tried again.
#[derive(Clone, Copy, Debug, PartialEq, Eq, Structural)]
pub struct RetryPolicy {
    pub min_wait_ms: u64,
    pub max_wait_ms: u64,
    pub total_timeout_ms: u64,
    pub num_retries: usize,
}

pub const DEFAULT_MIN_WAIT_MS: u64 = 100;

pub const DEFAULT_MAX_WAIT_MS: u64 = 60_000;

pub const DEFAULT_TOTAL_TIMEOUT_MS: u64 = 1_800_000;

pub const DEFAULT_NUM_RETRIES: usize = 4;

fn u64_property(properties: &Properties, key: &str, default: u64) -> (r: Option<u64>)
    ensures
        match r {
            Some(n) => number_property(properties@, key@, default as nat, u64::MAX as nat) == Some(
                n as nat,
            ),
            None => number_property(properties@, key@, default as nat, u64::MAX as nat) is None,
        },
{
    match properties.get(key) {
        Some(v) => parse_u64(v.as_str()),
        None => Some(default),
    }
}

impl RetryPolicy {
    /// Whether `properties` give this policy.
    pub open spec fn given_by(&self, properties: Map<Seq<char>, Seq<char>>) -> bool {
        &&& number_property(
            properties,
            "commit.retry.min-wait-ms"@,
            DEFAULT_MIN_WAIT_MS as nat,
            u64::MAX as nat,
        ) == Some(self.min_wait_ms as nat)
        &&& number_property(
            properties,
            "commit.retry.max-wait-ms"@,
            DEFAULT_MAX_WAIT_MS as nat,
            u64::MAX as nat,
        ) == Some(self.max_wait_ms as nat)
        &&& number_property(
            properties,
            "commit.retry.total-timeout-ms"@,
            DEFAULT_TOTAL_TIMEOUT_MS as nat,
            u64::MAX as nat,
        ) == Some(self.total_timeout_ms as nat)
        &&& number_property(
            properties,
            "commit.retry.num-retries"@,
            DEFAULT_NUM_RETRIES as nat,
            usize::MAX as nat,
        ) == Some(self.num_retries as nat)
    }

    /// The policy that a table's properties give. Fails where one of them is no number.
    pub fn from_properties(properties: &Properties) -> (r: Result<RetryPolicy, Error>)
        ensures
            r is Ok ==> r->Ok_0.given_by(properties@),
            r is Err <==> forall|p: RetryPolicy| !#[trigger] p.given_by(properties@),
            r is Err ==> r->Err_0.says(ErrorKind::DataInvalid, "Invalid table properties"@),
    {
        let min_wait = u64_property(properties, "commit.retry.min-wait-ms", DEFAULT_MIN_WAIT_MS);
        let max_wait = u64_property(properties, "commit.retry.max-wait-ms", DEFAULT_MAX_WAIT_MS);
        let total = u64_property(
            properties,
            "commit.retry.total-timeout-ms",
            DEFAULT_TOTAL_TIMEOUT_MS,
        );
        let retries: Option<usize> = match properties.get("commit.retry.num-retries") {
            Some(v) => parse_usize(v.as_str()),
            None => Some(DEFAULT_NUM_RETRIES),
        };
        match (min_wait, max_wait, total, retries) {
            (
                Some(min_wait_ms),
                Some(max_wait_ms),
                Some(total_timeout_ms),
                Some(num_retries),
            ) => {
                let p = RetryPolicy { min_wait_ms, max_wait_ms, total_timeout_ms, num_retries };
                assert(p.given_by(properties@));
                Ok(p)
            },
            _ => Err(
                Error::new(ErrorKind::DataInvalid, "Invalid table properties".to_owned()),
            ),
        }
    }

    /// The wait ahead of retry number `n`, counted from zero, in nanoseconds; `None` where the
    /// policy gives up. The waits are those of an exponential backoff.
    pub fn wait(&self, n: usize) -> (r: Option<u128>)
        ensures
            r == backoff_wait(
                self.min_wait_ms,
                self.max_wait_ms,
                self.total_timeout_ms,
                self.num_retries,
                n,
            ),
            n >= self.num_retries ==> r is None,
            r is Some ==> r->0 <= self.total_timeout_ms * 1_000_000,
            r is Some && n > 0 ==> r->0 <= self.max_wait_ms * 1_000_000,
            n == 0 && self.num_retries > 0 && self.min_wait_ms <= self.total_timeout_ms ==> r
                == Some((self.min_wait_ms * 1_000_000) as u128),
            n < self.num_retries && self.min_wait_ms + n * self.max_wait_ms
                <= self.total_timeout_ms ==> r is Some,
    {
        backoff_wait_of(
            self.min_wait_ms,
            self.max_wait_ms,
            self.total_timeout_ms,
            self.num_retries,
            n,
        )
    }
}

/// The wait ahead of another attempt, where one is made: the error must allow it, the transaction
/// must not forbid it, and the policy must give a wait.
pub fn decide_retry(retryable: bool, disable_retry: bool, wait: Option<u128>) -> (r: Option<u128>)
    ensures
        r == if retryable && !disable_retry {
            wait
        } else {
            None
        },
{
    if retryable && !disable_retry {
        wait
    } else {
        None
    }
}

/// What a commit asks of the catalog.
pub struct TableCommit {
    pub identifier: String,
    pub updates: Vec<TableUpdate>,
    pub requirements: Vec<TableRequirement>,
}

/// An attempt at a commit: the table as the actions so far leave it, and what they ask for.
pub struct CommitAttempt {
    table: Table,
    updates: Vec<TableUpdate>,
    requirements: Vec<TableRequirement>,
    manifest_paths: Vec<String>,
}

impl CommitAttempt {
    /// The table as the actions so far leave it.
    pub closed spec fn current(&self) -> Table {
        self.table
    }

    /// The changes so far.
    pub closed spec fn updates(&self) -> Seq<TableUpdate> {
        self.updates@
    }

    /// The requirements so far.
    pub closed spec fn requirements(&self) -> Seq<TableRequirement> {
        self.requirements@
    }

    /// The paths of the manifests written so far.
    pub closed spec fn manifest_paths(&self) -> Seq<String> {
        self.manifest_paths@
    }

    /// The table that the next action is committed on.
    pub fn table(&self) -> (r: &Table)
        ensures
            *r == self.current(),
    {
        &self.table
    }
}

impl<A: TransactionAction> Transaction<A> {
    /// The table that the actions start from.
    pub closed spec fn base(&self) -> Table {
        self.table
    }

    /// The actions, in the order they are committed.
    pub closed spec fn actions(&self) -> Seq<A> {
        self.actions@
    }

    /// Whether no attempt was made yet.
    pub closed spec fn untried(&self) -> bool {
        self.first_attempt
    }

    /// The paths of the manifests that the last attempt wrote.
    pub closed spec fn manifest_paths(&self) -> Seq<String> {
        self.created_manifest_paths@
    }

    /// Whether a failed attempt is final.
    pub closed spec fn disabled_retry(&self) -> bool {
        self.disable_retry
    }

    /// A transaction without actions.
    pub fn new(table: &Table) -> (r: Self)
        ensures
            r.base() == *table,
            r.actions() == Seq::<A>::empty(),
            r.untried(),
            r.manifest_paths() == Seq::<String>::empty(),
            !r.disabled_retry(),
    {
        Transaction {
            table: table.clone(),
            actions: Vec::new(),
            first_attempt: true,
            created_manifest_paths: Vec::new(),
            disable_retry: false,
        }
    }

    /// The transaction with `action` added.
    pub(crate) fn with_action(self, action: A) -> (r: Self)
        ensures
            r.actions() == self.actions().push(action),
            exists|forbids: bool| #[trigger]
                answers_retry(action, forbids) && r.disabled_retry() == (self.disabled_retry()
                    || forbids),
            r.base() == self.base(),
            r.untried() == self.untried(),
            r.manifest_paths() == self.manifest_paths(),
    {
        let mut r = self;
        let forbids = action.disables_retry();
        assert(answers_retry(action, forbids));
        if forbids {
            r.disable_retry = true;
        }
        r.actions.push(action);
        r
    }

    /// The table that the actions start from.
    pub fn table(&self) -> (r: &Table)
        ensures
            *r == self.base(),
    {
        &self.table
    }

    /// The actions.
    pub fn pending_actions(&self) -> (r: &Vec<A>)
        ensures
            r@ == self.actions(),
    {
        &self.actions
    }

    /// The paths of the manifests that the last attempt wrote.
    pub fn created_manifest_paths(&self) -> (r: &Vec<String>)
        ensures
            r@ == self.manifest_paths(),
    {
        &self.created_manifest_paths
    }

    /// Whether a failed attempt is final.
    pub fn retry_disabled(&self) -> (r: bool)
        ensures
            r == self.disabled_retry(),
    {
        self.disable_retry
    }

    /// Whether there is nothing to commit.
    pub fn is_idle(&self) -> (r: bool)
        ensures
            r == (self.actions().len() == 0),
    {
        self.actions.len() == 0
    }

    /// Makes the changes `updates` to the metadata of `table`.
    pub fn update_table_metadata(table: Table, updates: &[TableUpdate]) -> (r: Result<Table, Error>)
        ensures
            r is Ok <==> all_updated(table.metadata@, updates@) is Some,
            r is Ok ==> r->Ok_0.identifier == table.identifier && r->Ok_0.metadata_location
                == table.metadata_location && all_updated(table.metadata@, updates@) == Some(
                r->Ok_0.metadata@,
            ),
            r is Err ==> r->Err_0.kind_spec() == ErrorKind::DataInvalid
                && !r->Err_0.retryable_spec(),
    {
        match apply_updates(&table.metadata, updates) {
            Ok(metadata) => Ok(
                Table {
                    identifier: table.identifier,
                    metadata_location: table.metadata_location,
                    metadata: Arc::new(metadata),
                },
            ),
            Err(e) => Err(e),
        }
    }

    /// Applies what committing an action yielded to `table`: its requirements must hold of the
    /// table as it is, and then its changes are made. What was applied is appended to
    /// `existing_updates` and `existing_requirements`; where it fails nothing is.
    pub fn apply(
        table: Table,
        action_commit: ActionCommit,
        existing_updates: &mut Vec<TableUpdate>,
        existing_requirements: &mut Vec<TableRequirement>,
    ) -> (r: Result<Table, Error>)
        ensures
            r is Ok <==> all_met(action_commit.requirements(), *table.metadata) && all_updated(
                table.metadata@,
                action_commit.updates(),
            ) is Some,
            r is Ok ==> {
                &&& r->Ok_0.identifier == table.identifier
                &&& r->Ok_0.metadata_location == table.metadata_location
                &&& all_updated(table.metadata@, action_commit.updates()) == Some(
                    r->Ok_0.metadata@,
                )
                &&& final(existing_updates)@ == old(existing_updates)@ + action_commit.updates()
                &&& final(existing_requirements)@ == old(existing_requirements)@
                    + action_commit.requirements()
            },
            r is Err ==> {
                &&& final(existing_updates)@ == old(existing_updates)@
                &&& final(existing_requirements)@ == old(existing_requirements)@
                &&& r->Err_0.kind_spec() == if all_met(
                    action_commit.requirements(),
                    *table.metadata,
                ) {
                    ErrorKind::DataInvalid
                } else {
                    ErrorKind::CatalogCommitConflicts
                }
                &&& r->Err_0.retryable_spec() == !all_met(
                    action_commit.requirements(),
                    *table.metadata,
                )
            },
    {
        let ghost asked = action_commit.requirements();
        let mut commit = action_commit;
        let mut updates = commit.take_updates();
        let mut requirements = commit.take_requirements();
        let mut i: usize = 0;
        while i < requirements.len()
            invariant
                i <= requirements@.len(),
                forall|k: int|
                    0 <= k < i ==> (#[trigger] requirements@[k]).met_by(*table.metadata),
                existing_updates@ == old(existing_updates)@,
                existing_requirements@ == old(existing_requirements)@,
                requirements@ == asked,
                asked == action_commit.requirements(),
            decreases requirements@.len() - i,
        {
            if let Err(e) = requirements[i].check(&table.metadata) {
                assert(!asked[i as int].met_by(*table.metadata));
                return Err(e);
            }
            i = i + 1;
        }
        match Transaction::<A>::update_table_metadata(table, updates.as_slice()) {
            Ok(updated) => {
                existing_updates.append(&mut updates);
                existing_requirements.append(&mut requirements);
                Ok(updated)
            },
            Err(e) => Err(e),
        }
    }

    /// Begins an attempt, and says whether the table has to be read again first: on every attempt
    /// but the first.
    pub fn begin_attempt(&mut self) -> (refresh: bool)
        ensures
            refresh == !old(self).untried(),
            !final(self).untried(),
            final(self).base() == old(self).base(),
            final(self).actions() == old(self).actions(),
            final(self).manifest_paths() == old(self).manifest_paths(),
            final(self).disabled_retry() == old(self).disabled_retry(),
    {
        if self.first_attempt {
            self.first_attempt = false;
            false
        } else {
            true
        }
    }

    /// Starts from `refreshed`, the table as it is now.
    pub fn refresh(&mut self, refreshed: Table)
        ensures
            final(self).base() == refreshed,
            final(self).untried() == old(self).untried(),
            final(self).actions() == old(self).actions(),
            final(self).manifest_paths() == old(self).manifest_paths(),
            final(self).disabled_retry() == old(self).disabled_retry(),
    {
        self.table = refreshed;
    }

    /// An attempt with none of the actions committed yet.
    pub fn attempt(&self) -> (r: CommitAttempt)
        ensures
            r.current() == self.base(),
            r.updates() == Seq::<TableUpdate>::empty(),
            r.requirements() == Seq::<TableRequirement>::empty(),
            r.manifest_paths() == Seq::<String>::empty(),
    {
        CommitAttempt {
            table: self.table.clone(),
            updates: Vec::new(),
            requirements: Vec::new(),
            manifest_paths: Vec::new(),
        }
    }

    /// Takes in what committing the next action yielded. Fails where its requirements do not hold
    /// of the table as the actions so far leave it, or its changes cannot be made.
    pub fn add_commit(&self, attempt: &mut CommitAttempt, commit: ActionCommit) -> (r: Result<
        (),
        Error,
    >)
        ensures
            r is Ok <==> all_met(commit.requirements(), *old(attempt).current().metadata)
                && all_updated(old(attempt).current().metadata@, commit.updates()) is Some,
            r is Ok ==> {
                &&& final(attempt).updates() == old(attempt).updates() + commit.updates()
                &&& final(attempt).requirements() == old(attempt).requirements()
                    + commit.requirements()
                &&& final(attempt).manifest_paths() == old(attempt).manifest_paths()
                    + commit.manifest_paths()
                &&& final(attempt).current().identifier == old(attempt).current().identifier
                &&& final(attempt).current().metadata_location
                    == old(attempt).current().metadata_location
                &&& all_updated(old(attempt).current().metadata@, commit.updates()) == Some(
                    final(attempt).current().metadata@,
                )
            },
            r is Err ==> {
                &&& final(attempt).updates() == old(attempt).updates()
                &&& final(attempt).requirements() == old(attempt).requirements()
                &&& final(attempt).current() == old(attempt).current()
                &&& r->Err_0.kind_spec() == if all_met(
                    commit.requirements(),
                    *old(attempt).current().metadata,
                ) {
                    ErrorKind::DataInvalid
                } else {
                    ErrorKind::CatalogCommitConflicts
                }
                &&& r->Err_0.retryable_spec() == !all_met(
                    commit.requirements(),
                    *old(attempt).current().metadata,
                )
            },
    {
        let mut commit = commit;
        let mut paths = commit.take_manifest_paths();
        attempt.manifest_paths.append(&mut paths);
        match Transaction::<A>::apply(
            attempt.table.clone(),
            commit,
            &mut attempt.updates,
            &mut attempt.requirements,
        ) {
            Ok(table) => {
                attempt.table = table;
                Ok(())
            },
            Err(e) => Err(e),
        }
    }

    /// What the catalog is asked once all actions are committed.
    pub fn finish_attempt(&mut self, attempt: CommitAttempt) -> (r: TableCommit)
        ensures
            r.identifier == old(self).base().identifier,
            r.updates@ == attempt.updates(),
            r.requirements@ == attempt.requirements(),
            final(self).manifest_paths() == attempt.manifest_paths(),
            final(self).base() == old(self).base(),
            final(self).untried() == old(self).untried(),
            final(self).actions() == old(self).actions(),
            final(self).disabled_retry() == old(self).disabled_retry(),
    {
        self.created_manifest_paths = attempt.manifest_paths;
        TableCommit {
            identifier: self.table.identifier.clone(),
            updates: attempt.updates,
            requirements: attempt.requirements,
        }
    }

    /// The wait ahead of another attempt when one failed with `error` after `retries` retries;
    /// `None` where the failure is final.
    pub fn after_failure(&self, policy: &RetryPolicy, error: &Error, retries: usize) -> (r: Option<u128>)
        ensures
            r == if error.retryable_spec() && !self.disabled_retry() {
                backoff_wait(
                    policy.min_wait_ms,
                    policy.max_wait_ms,
                    policy.total_timeout_ms,
                    policy.num_retries,
                    retries,
                )
            } else {
                None
            },
            retries >= policy.num_retries ==> r is None,
            error.retryable_spec() && !self.disabled_retry() && retries < policy.num_retries
                && policy.min_wait_ms + retries * policy.max_wait_ms <= policy.total_timeout_ms
                ==> r is Some,
    {
        decide_retry(error.retryable(), self.disable_retry, policy.wait(retries))
    }

    /// An action that raises the version of the table's format.
    pub fn upgrade_table_version(&self) -> (r: UpgradeFormatVersionAction)
        ensures
            r == (UpgradeFormatVersionAction {}),
    {
        UpgradeFormatVersionAction {  }
    }

    /// An action that changes the table's properties.
    pub fn update_table_properties(&self) -> (r: UpdatePropertiesAction)
        ensures
            r.updates@ == Map::<Seq<char>, Seq<char>>::empty(),
    {
        UpdatePropertiesAction::new()
    }

    /// An action that appends data files.
    pub fn fast_append(&self) -> (r: FastAppendAction)
        ensures
            r.added_data_files@.len() == 0,
    {
        FastAppendAction::new()
    }

    /// An action that changes the table's sort order.
    pub fn replace_sort_order(&self) -> (r: ReplaceSortOrderAction)
        ensures
            r == (ReplaceSortOrderAction {}),
    {
        ReplaceSortOrderAction {  }
    }

    /// An action that changes the table's location.
    pub fn update_location(&self) -> (r: UpdateLocationAction)
        ensures
            r == (UpdateLocationAction {}),
    {
        UpdateLocationAction {  }
    }

    /// An action that changes the table's statistics.
    pub fn update_statistics(&self) -> (r: UpdateStatisticsAction)
        ensures
            r == (UpdateStatisticsAction {}),
    {
        UpdateStatisticsAction {  }
    }

    /// An action that replaces data files.
    pub fn replace_data_files(&self) -> (r: ReplaceDataFilesAction)
        ensures
            r.files_to_delete@.len() == 0,
            r.files_to_add@.len() == 0,
            r.delete_manifests@.len() == 0,
            r.commit_id is None,
            r.key_metadata is None,
            r.snapshot_properties@ == Map::<Seq<char>, Seq<char>>::empty(),
            r.validate_from_snapshot_id is None,
            r.data_sequence_number is None,
            r.added_delete_files@.len() == 0,
            r.snapshot_id_override is None,
            r.file_to_manifest_index is None,
            r.cached_root_entries is None,
    {
        ReplaceDataFilesAction::new()
    }

    /// An action that rewrites manifests, with the default settings.
    pub fn rewrite_manifests(&self) -> (r: RewriteManifestsAction)
        ensures
            r.target_entries_per_manifest == DEFAULT_TARGET_ENTRIES,
            !r.skip_missing_manifests,
    {
        RewriteManifestsAction::new()
    }

    /// An action that rebalances the root, with the default thresholds.
    pub fn rebalance_root_manifest(&self) -> (r: RebalanceRootManifestAction)
        ensures
            r.is_default(),
            is_time_ordered(r.commit_id),
    {
        RebalanceRootManifestAction::new()
    }

    /// An action that moves what is older than `cutoff_micros`, by the field `ts_field_id`, into
    /// the cold tier.
    pub fn graduate_buckets(&self, ts_field_id: i32, cutoff_micros: i64) -> (r: GraduateBucketsAction)
        ensures
            r.ts_field_id == ts_field_id,
            r.cutoff_micros == cutoff_micros,
            r.fold_leaves is None,
            is_time_ordered(r.commit_id),
    {
        GraduateBucketsAction::new(ts_field_id, cutoff_micros)
    }

    /// An action that compacts the cold tier.
    pub fn compact_cold_tier(&self) -> (r: CompactColdTierAction)
        ensures
            r.removed@ == Set::<Seq<char>>::empty(),
            r.added@ == Seq::<Arc<DataFile>>::empty(),
            r.snapshot_id_override is None,
            is_time_ordered(r.commit_id),
    {
        CompactColdTierAction::new()
    }

    /// An action that drops the cold leaves older than `cutoff_micros` by the field `ts_field_id`.
    pub fn drop_cold_buckets(&self, ts_field_id: i32, cutoff_micros: i64) -> (r: DropColdBucketsAction)
        ensures
            r.ts_field_id == ts_field_id,
            r.cutoff_micros == cutoff_micros,
            is_time_ordered(r.commit_id),
    {
        DropColdBucketsAction::new(ts_field_id, cutoff_micros)
    }

    /// An action that adds columns to the table.
    pub fn update_schema(&self) -> (r: UpdateSchemaAction)
        ensures
            r == (UpdateSchemaAction {}),
    {
        UpdateSchemaAction {  }
    }

    /// An action that adds fields to the table's partition spec.
    pub fn update_spec(&self) -> (r: UpdateSpecAction)
        ensures
            r == (UpdateSpecAction {}),
    {
        UpdateSpecAction {  }
    }

    /// An action that adds data files and delete files.
    pub fn row_delta(&self) -> (r: RowDeltaAction)
        ensures
            r.check_duplicate,
            r.commit_id is None,
            r.key_metadata is None,
            r.snapshot_properties@ == Map::<Seq<char>, Seq<char>>::empty(),
            r.added_data_files@.len() == 0,
            r.added_delete_files@.len() == 0,
    {
        RowDeltaAction::new()
    }
}

/// A snapshot that another commit moved the main branch away from cannot be replaced: what was
/// planned on the old one is refused, and may be planned anew.
pub proof fn law_moved_branch_is_refused(
    updates: Seq<TableUpdate>,
    requirements: Seq<TableRequirement>,
    planned_on: TableMetadata,
    found: TableMetadata,
    snapshot_id: i64,
    manifest_list: Seq<char>,
    summary: Map<Seq<char>, Seq<char>>,
    timestamp_ms: i64,
    row_range: Option<crate::table::RowRange>,
)
    requires
        crate::commit::replaces(
            updates,
            requirements,
            planned_on,
            snapshot_id,
            manifest_list,
            summary,
            timestamp_ms,
            row_range,
        ),
        found.branch_snapshot("main"@) != planned_on.current_snapshot_id || found.uuid
            != planned_on.uuid,
    ensures
        !all_met(requirements, found),
{
    assert(requirements[0].met_by(found) ==> found.uuid == planned_on.uuid);
    assert(requirements[1].met_by(found) ==> found.branch_snapshot("main"@)
        == planned_on.current_snapshot_id);
}

/// On the table it was planned on, a replacing commit with a new snapshot id goes through, and
/// makes its snapshot the current one.
pub proof fn law_replacement_goes_through(
    updates: Seq<TableUpdate>,
    requirements: Seq<TableRequirement>,
    table: TableMetadata,
    snapshot_id: i64,
    manifest_list: Seq<char>,
    summary: Map<Seq<char>, Seq<char>>,
    timestamp_ms: i64,
)
    requires
        crate::commit::replaces(
            updates,
            requirements,
            table,
            snapshot_id,
            manifest_list,
            summary,
            timestamp_ms,
            crate::commit::no_rows(table),
        ),
        table.branch_snapshot("main"@) == table.current_snapshot_id,
        crate::table::snapshot_at(table.snapshots@, snapshot_id, 0) is None,
        timestamp_ms + crate::table::CLOCK_TOLERANCE_MS >= table.last_updated_ms,
    ensures
        all_met(requirements, table),
        all_updated(table@, updates) is Some,
        all_updated(table@, updates)->0.current_snapshot_id == Some(snapshot_id),
        all_updated(table@, updates)->0.snapshots.len() == table.snapshots@.len() + 1,
        all_updated(table@, updates)->0.next_row_id == table.next_row_id,
{
    assert(requirements[0].met_by(table));
    assert(requirements[1].met_by(table));
    let one = updates.drop_last();
    assert(one.last() == updates[0]);
    assert(one.drop_last() =~= Seq::<TableUpdate>::empty());
    reveal_with_fuel(all_updated, 3);
    let snapshot = updates[0]->AddSnapshot_snapshot;
    let first = all_updated(table@, one);
    assert(first is Some);
    lemma_pushed_snapshot_is_found(table.snapshots@, snapshot, 0);
}

proof fn lemma_pushed_snapshot_is_found(
    snapshots: Seq<Arc<crate::table::Snapshot>>,
    snapshot: Arc<crate::table::Snapshot>,
    from: int,
)
    requires
        0 <= from <= snapshots.len(),
    ensures
        crate::table::snapshot_at(snapshots.push(snapshot), snapshot.snapshot_id, from) is Some,
    decreases snapshots.len() - from,
{
    if from < snapshots.len() {
        lemma_pushed_snapshot_is_found(snapshots, snapshot, from + 1);
    }
}

/// A property that is no number, or too great a one, is an error; one that is not there gives the
/// default.
pub proof fn law_unreadable_numbers_are_refused(
    properties: Map<Seq<char>, Seq<char>>,
    key: Seq<char>,
    default: nat,
    max: nat,
    n: nat,
)
    ensures
        !properties.contains_key(key) ==> number_property(properties, key, default, max) == Some(
            default,
        ),
        properties.contains_key(key) ==> (number_property(properties, key, default, max) == Some(n)
            <==> parsed(properties[key]) == Some(n) && n <= max),
        properties.contains_key(key) && parsed(properties[key]) is None ==> number_property(
            properties,
            key,
            default,
            max,
        ) is None,
{
}

/// Where a table says nothing of retries, a commit is tried again four times, after a tenth of a
/// second at first and a minute at most, within half an hour.
pub proof fn law_default_retries(policy: RetryPolicy, properties: Map<Seq<char>, Seq<char>>)
    requires
        policy.given_by(properties),
        !properties.contains_key("commit.retry.min-wait-ms"@),
        !properties.contains_key("commit.retry.max-wait-ms"@),
        !properties.contains_key("commit.retry.total-timeout-ms"@),
        !properties.contains_key("commit.retry.num-retries"@),
    ensures
        policy.min_wait_ms == 100,
        policy.max_wait_ms == 60_000,
        policy.total_timeout_ms == 1_800_000,
        policy.num_retries == 4,
{
}

/// Each number of a policy is taken from its own property, where it is there.
pub proof fn law_policy_is_read_from_its_properties(
    policy: RetryPolicy,
    properties: Map<Seq<char>, Seq<char>>,
)
    requires
        policy.given_by(properties),
    ensures
        properties.contains_key("commit.retry.min-wait-ms"@) ==> parsed(
            properties["commit.retry.min-wait-ms"@],
        ) == Some(policy.min_wait_ms as nat),
        properties.contains_key("commit.retry.max-wait-ms"@) ==> parsed(
            properties["commit.retry.max-wait-ms"@],
        ) == Some(policy.max_wait_ms as nat),
        properties.contains_key("commit.retry.total-timeout-ms"@) ==> parsed(
            properties["commit.retry.total-timeout-ms"@],
        ) == Some(policy.total_timeout_ms as nat),
        properties.contains_key("commit.retry.num-retries"@) ==> parsed(
            properties["commit.retry.num-retries"@],
        ) == Some(policy.num_retries as nat),
{
}

/// Another attempt is made only after an error that allows it, in a transaction that does not
/// forbid it, and then after the wait that the policy gives.
pub proof fn law_forbidden_retries_are_not_made(
    retryable: bool,
    disable_retry: bool,
    wait: Option<u128>,
    r: Option<u128>,
)
    requires
        call_ensures(decide_retry, (retryable, disable_retry, wait), r),
    ensures
        disable_retry ==> r is None,
        !retryable ==> r is None,
        wait is None ==> r is None,
        r is Some ==> r == wait,
        retryable && !disable_retry && wait is Some ==> r is Some,
{
}

} // verus!
