//! Actions of a transaction, and what committing one yields.

use vstd::prelude::*;

use crate::error::Error;
use crate::manifest::RootManifestEntry;
use crate::table::{TableRequirement, TableUpdate};
use crate::transaction::Transaction;

verus! {

/// The root entries that an action left behind, and the snapshot they were built for.
pub struct RootEntries {
    pub snapshot_id: Option<i64>,
    pub entries: Vec<RootManifestEntry>,
}

/// What committing an action yields: changes to the table's metadata, and what must hold for them
/// to go through.
pub struct ActionCommit {
    updates: Vec<TableUpdate>,
    requirements: Vec<TableRequirement>,
    created_manifest_paths: Vec<String>,
    root_manifest_entries: Option<RootEntries>,
}

impl ActionCommit {
    /// The changes.
    pub closed spec fn updates(&self) -> Seq<TableUpdate> {
        self.updates@
    }

    /// The requirements.
    pub closed spec fn requirements(&self) -> Seq<TableRequirement> {
        self.requirements@
    }

    /// The paths of the manifests that were written.
    pub closed spec fn manifest_paths(&self) -> Seq<String> {
        self.created_manifest_paths@
    }

    /// The root entries left behind.
    pub closed spec fn root_entries(&self) -> Option<RootEntries> {
        self.root_manifest_entries
    }

    /// Whether there is nothing to commit.
    pub open spec fn is_empty(&self) -> bool {
        &&& self.updates() == Seq::<TableUpdate>::empty()
        &&& self.requirements() == Seq::<TableRequirement>::empty()
        &&& self.manifest_paths() == Seq::<String>::empty()
        &&& self.root_entries() is None
    }

    /// The given changes and requirements, and nothing else.
    pub fn new(updates: Vec<TableUpdate>, requirements: Vec<TableRequirement>) -> (r: Self)
        ensures
            r.updates() == updates@,
            r.requirements() == requirements@,
            r.manifest_paths() == Seq::<String>::empty(),
            r.root_entries() is None,
    {
        ActionCommit {
            updates,
            requirements,
            created_manifest_paths: Vec::new(),
            root_manifest_entries: None,
        }
    }

    /// Takes the changes out.
    pub fn take_updates(&mut self) -> (r: Vec<TableUpdate>)
        ensures
            r@ == old(self).updates(),
            final(self).updates() == Seq::<TableUpdate>::empty(),
            final(self).requirements() == old(self).requirements(),
            final(self).manifest_paths() == old(self).manifest_paths(),
            final(self).root_entries() == old(self).root_entries(),
    {
        let mut taken: Vec<TableUpdate> = Vec::new();
        std::mem::swap(&mut taken, &mut self.updates);
        taken
    }

    /// Takes the requirements out.
    pub fn take_requirements(&mut self) -> (r: Vec<TableRequirement>)
        ensures
            r@ == old(self).requirements(),
            final(self).requirements() == Seq::<TableRequirement>::empty(),
            final(self).updates() == old(self).updates(),
            final(self).manifest_paths() == old(self).manifest_paths(),
            final(self).root_entries() == old(self).root_entries(),
    {
        let mut taken: Vec<TableRequirement> = Vec::new();
        std::mem::swap(&mut taken, &mut self.requirements);
        taken
    }

    /// With `paths` for the manifests that were written.
    pub fn with_manifest_paths(self, paths: Vec<String>) -> (r: Self)
        ensures
            r.manifest_paths() == paths@,
            r.updates() == self.updates(),
            r.requirements() == self.requirements(),
            r.root_entries() == self.root_entries(),
    {
        let mut r = self;
        r.created_manifest_paths = paths;
        r
    }

    /// Takes the paths of the manifests that were written out.
    pub fn take_manifest_paths(&mut self) -> (r: Vec<String>)
        ensures
            r@ == old(self).manifest_paths(),
            final(self).manifest_paths() == Seq::<String>::empty(),
            final(self).updates() == old(self).updates(),
            final(self).requirements() == old(self).requirements(),
            final(self).root_entries() == old(self).root_entries(),
    {
        let mut taken: Vec<String> = Vec::new();
        std::mem::swap(&mut taken, &mut self.created_manifest_paths);
        taken
    }

    /// With `entries`, built for the snapshot `snapshot_id`, as the root entries left behind.
    pub fn with_root_manifest_entries(
        self,
        snapshot_id: Option<i64>,
        entries: Vec<RootManifestEntry>,
    ) -> (r: Self)
        ensures
            r.root_entries() == Some((RootEntries { snapshot_id, entries })),
            r.updates() == self.updates(),
            r.requirements() == self.requirements(),
            r.manifest_paths() == self.manifest_paths(),
    {
        let mut r = self;
        r.root_manifest_entries = Some(RootEntries { snapshot_id, entries });
        r
    }

    /// Takes the root entries left behind out.
    pub fn take_root_manifest_entries(&mut self) -> (r: Option<RootEntries>)
        ensures
            r == old(self).root_entries(),
            final(self).root_entries() is None,
            final(self).updates() == old(self).updates(),
            final(self).requirements() == old(self).requirements(),
            final(self).manifest_paths() == old(self).manifest_paths(),
    {
        self.root_manifest_entries.take()
    }
}

/// Nothing to commit.
pub fn empty_commit() -> (r: ActionCommit)
    ensures
        r.is_empty(),
{
    ActionCommit::new(Vec::new(), Vec::new())
}

/// An action that can be part of a transaction.
pub trait TransactionAction: Sized {
    /// A short name for logs.
    fn action_name(&self) -> (r: &'static str)
        default_ensures
            r@ == "unknown"@,
    {
        "unknown"
    }

    /// Whether another attempt after a conflict could work on inputs that no longer hold, and so
    /// must not be made.
    fn disables_retry(&self) -> (r: bool)
        default_ensures
            !r,
    {
        false
    }
}

/// Whether `forbids` is what `action` may answer when asked whether another attempt must not be
/// made.
pub open spec fn answers_retry<A: TransactionAction>(action: A, forbids: bool) -> bool {
    call_ensures(A::disables_retry, (&action,), forbids)
}

/// Adding an action to a transaction.
pub trait ApplyTransactionAction: TransactionAction {
    /// Adds this action to `tx`.
    fn apply(self, tx: Transaction<Self>) -> (r: Result<Transaction<Self>, Error>)
        ensures
            r is Ok,
            r->Ok_0.actions() == tx.actions().push(self),
            exists|forbids: bool| #[trigger]
                answers_retry(self, forbids) && r->Ok_0.disabled_retry() == (tx.disabled_retry()
                    || forbids),
            r->Ok_0.base() == tx.base(),
            r->Ok_0.untried() == tx.untried(),
            r->Ok_0.manifest_paths() == tx.manifest_paths(),
    ;
}

impl<T: TransactionAction> ApplyTransactionAction for T {
    fn apply(self, tx: Transaction<T>) -> (r: Result<Transaction<T>, Error>) {
        Ok(tx.with_action(self))
    }
}

} // verus!
