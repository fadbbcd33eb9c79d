//! Actions that change a table's metadata, and appends. They are made empty by a transaction.

use std::sync::Arc;

use vstd::prelude::*;

use crate::action::TransactionAction;
use crate::manifest::{share, shared, DataFile};
use crate::path_set::Properties;

verus! {

/// Raises the version of a table's format.
#[derive(Clone, Copy, Debug, PartialEq, Eq, Structural)]
pub struct UpgradeFormatVersionAction {}

/// Changes the sort order of a table.
#[derive(Clone, Copy, Debug, PartialEq, Eq, Structural)]
pub struct ReplaceSortOrderAction {}

/// Changes the location of a table.
#[derive(Clone, Copy, Debug, PartialEq, Eq, Structural)]
pub struct UpdateLocationAction {}

/// Changes the statistics of a table.
#[derive(Clone, Copy, Debug, PartialEq, Eq, Structural)]
pub struct UpdateStatisticsAction {}

/// Adds columns to a table.
#[derive(Clone, Copy, Debug, PartialEq, Eq, Structural)]
pub struct UpdateSchemaAction {}

/// Adds fields to a table's partition spec.
#[derive(Clone, Copy, Debug, PartialEq, Eq, Structural)]
pub struct UpdateSpecAction {}

/// Changes the properties of a table.
#[derive(Clone, Debug, PartialEq, Eq)]
pub struct UpdatePropertiesAction {
    pub updates: Properties,
}

/// Appends data files to a table.
#[derive(Clone, Debug, PartialEq, Eq)]
pub struct FastAppendAction {
    pub added_data_files: Vec<Arc<DataFile>>,
}

impl UpdatePropertiesAction {
    /// A change of no property.
    pub(crate) fn new() -> (r: Self)
        ensures
            r.updates@ == Map::<Seq<char>, Seq<char>>::empty(),
    {
        UpdatePropertiesAction { updates: Properties::new() }
    }

    /// Also gives the property `key` the value `value`.
    pub fn set(self, key: String, value: String) -> (r: Self)
        ensures
            r.updates@ == self.updates@.insert(key@, value@),
    {
        let mut r = self;
        r.updates.insert(key, value);
        r
    }
}

impl FastAppendAction {
    /// An append of no file.
    pub(crate) fn new() -> (r: Self)
        ensures
            r.added_data_files@.len() == 0,
    {
        FastAppendAction { added_data_files: Vec::new() }
    }

    /// Also appends `data_files`.
    pub fn add_data_files(self, data_files: Vec<DataFile>) -> (r: Self)
        ensures
            r.added_data_files@ == self.added_data_files@ + shared(data_files@),
    {
        let mut r = self;
        let mut more = share(data_files);
        r.added_data_files.append(&mut more);
        r
    }
}

impl TransactionAction for UpdatePropertiesAction {}

impl TransactionAction for FastAppendAction {}

} // verus!
