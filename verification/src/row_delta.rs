//! Row-level changes: data files and delete files added in one snapshot.

use std::sync::Arc;

use vstd::prelude::*;

use crate::action::TransactionAction;
use crate::error::{Error, ErrorKind};
use crate::manifest::{share, shared, DataContentType, DataFile, ManifestEntry, ManifestFile};
use crate::outside::{fresh_id, is_time_ordered};
use crate::path_set::Properties;
use crate::seqs::{lemma_filter_places, lemma_filter_push, lemma_take_push, stands_at};
use crate::table::Operation;

verus! {

/// Adds data files and delete files to a table.
pub struct RowDeltaAction {
    pub check_duplicate: bool,
    pub commit_id: Option<u128>,
    pub key_metadata: Option<Vec<u8>>,
    pub snapshot_properties: Properties,
    pub added_data_files: Vec<Arc<DataFile>>,
    pub added_delete_files: Vec<Arc<DataFile>>,
}

impl TransactionAction for RowDeltaAction {}

/// What has to hold of the added files before they are committed.
#[derive(Clone, Copy, Debug, PartialEq, Eq, Structural)]
pub struct RowDeltaChecks {
    pub data_files: bool,
    pub delete_files: bool,
    /// That no added data file is in the table already.
    pub duplicates: bool,
}

/// What a commit of row-level changes goes by.
pub struct RowDeltaPlan {
    pub commit_id: u128,
    pub checks: RowDeltaChecks,
    pub operation: RowDeltaOperation,
}

/// What kinds of files are added.
#[derive(Clone, Copy, Debug, PartialEq, Eq, Structural)]
pub struct RowDeltaOperation {
    pub has_data_files: bool,
    pub has_delete_files: bool,
}

/// What is said against a delete file that is to be added: one that deletes by equality must say by
/// which fields, and one that deletes by position must not.
pub open spec fn delete_file_fault(file: DataFile) -> Option<Seq<char>> {
    match (file.content, file.equality_ids) {
        (DataContentType::EqualityDeletes, None) => Some(
            "Equality delete file must have equality_ids"@,
        ),
        (DataContentType::PositionDeletes, Some(_)) => Some(
            "Position delete file should not have equality_ids"@,
        ),
        _ => None,
    }
}

fn fault_of(file: &DataFile) -> (r: Option<&'static str>)
    ensures
        match r {
            Some(message) => delete_file_fault(*file) == Some(message@),
            None => delete_file_fault(*file) is None,
        },
{
    match (file.content, &file.equality_ids) {
        (DataContentType::EqualityDeletes, None) => Some(
            "Equality delete file must have equality_ids",
        ),
        (DataContentType::PositionDeletes, Some(_)) => Some(
            "Position delete file should not have equality_ids",
        ),
        _ => None,
    }
}

impl RowDeltaAction {
    /// A change that adds nothing and checks for duplicates.
    pub(crate) fn new() -> (r: Self)
        ensures
            r.check_duplicate,
            r.commit_id is None,
            r.key_metadata is None,
            r.snapshot_properties@ == Map::<Seq<char>, Seq<char>>::empty(),
            r.added_data_files@.len() == 0,
            r.added_delete_files@.len() == 0,
    {
        RowDeltaAction {
            check_duplicate: true,
            commit_id: None,
            key_metadata: None,
            snapshot_properties: Properties::new(),
            added_data_files: Vec::new(),
            added_delete_files: Vec::new(),
        }
    }

    /// Checks for data files that are in the table already, or not.
    pub fn with_check_duplicate(self, v: bool) -> (r: Self)
        ensures
            r == (RowDeltaAction { check_duplicate: v, ..self }),
    {
        let mut r = self;
        r.check_duplicate = v;
        r
    }

    /// Also adds the data files `data_files`.
    pub fn add_rows(self, data_files: Vec<DataFile>) -> (r: Self)
        ensures
            r.added_data_files@ == self.added_data_files@ + shared(data_files@),
            r == (RowDeltaAction { added_data_files: r.added_data_files, ..self }),
    {
        let mut r = self;
        let mut more = share(data_files);
        r.added_data_files.append(&mut more);
        r
    }

    /// Also adds the delete files `delete_files`.
    pub fn add_deletes(self, delete_files: Vec<DataFile>) -> (r: Self)
        ensures
            r.added_delete_files@ == self.added_delete_files@ + shared(delete_files@),
            r == (RowDeltaAction { added_delete_files: r.added_delete_files, ..self }),
    {
        let mut r = self;
        let mut more = share(delete_files);
        r.added_delete_files.append(&mut more);
        r
    }

    /// Commits under the id `commit_uuid`.
    pub fn set_commit_uuid(self, commit_uuid: u128) -> (r: Self)
        ensures
            r == (RowDeltaAction { commit_id: Some(commit_uuid), ..self }),
    {
        let mut r = self;
        r.commit_id = Some(commit_uuid);
        r
    }

    /// Gives the manifests the key metadata `key_metadata`.
    pub fn set_key_metadata(self, key_metadata: Vec<u8>) -> (r: Self)
        ensures
            r == (RowDeltaAction { key_metadata: Some(key_metadata), ..self }),
    {
        let mut r = self;
        r.key_metadata = Some(key_metadata);
        r
    }

    /// Gives the snapshot the properties `snapshot_properties`.
    pub fn set_snapshot_properties(self, snapshot_properties: Properties) -> (r: Self)
        ensures
            r == (RowDeltaAction { snapshot_properties, ..self }),
    {
        let mut r = self;
        r.snapshot_properties = snapshot_properties;
        r
    }

    /// Checks the delete files that are to be added. Fails on the first with a fault.
    pub fn check_delete_files(&self) -> (r: Result<(), Error>)
        ensures
            r is Ok <==> forall|i: int|
                0 <= i < self.added_delete_files@.len() ==> delete_file_fault(
                    *(#[trigger] self.added_delete_files@[i]),
                ) is None,
            r is Err ==> exists|i: int|
                0 <= i < self.added_delete_files@.len() && delete_file_fault(
                    *(#[trigger] self.added_delete_files@[i]),
                ) is Some && r->Err_0.says(
                    ErrorKind::DataInvalid,
                    delete_file_fault(*self.added_delete_files@[i])->0,
                ) && forall|j: int|
                    0 <= j < i ==> delete_file_fault(
                        *(#[trigger] self.added_delete_files@[j]),
                    ) is None,
    {
        let mut i: usize = 0;
        while i < self.added_delete_files.len()
            invariant
                i <= self.added_delete_files@.len(),
                forall|j: int|
                    0 <= j < i ==> delete_file_fault(
                        *(#[trigger] self.added_delete_files@[j]),
                    ) is None,
            decreases self.added_delete_files@.len() - i,
        {
            if let Some(message) = fault_of(&self.added_delete_files[i]) {
                assert(delete_file_fault(*self.added_delete_files@[i as int]) is Some);
                return Err(Error::new(ErrorKind::DataInvalid, message.to_owned()));
            }
            i = i + 1;
        }
        Ok(())
    }

    /// What a commit goes by: added files are checked, and without an id of its own the commit
    /// gets a fresh one.
    pub fn plan_commit(&self) -> (r: RowDeltaPlan)
        ensures
            self.commit_id is Some ==> r.commit_id == self.commit_id->0,
            self.commit_id is None ==> is_time_ordered(r.commit_id),
            r.checks == (RowDeltaChecks {
                data_files: self.added_data_files@.len() > 0,
                delete_files: self.added_delete_files@.len() > 0,
                duplicates: self.check_duplicate && self.added_data_files@.len() > 0,
            }),
            r.operation == (RowDeltaOperation {
                has_data_files: self.added_data_files@.len() > 0,
                has_delete_files: self.added_delete_files@.len() > 0,
            }),
    {
        let commit_id: u128 = match self.commit_id {
            Some(id) => id,
            None => fresh_id(),
        };
        let has_data = self.added_data_files.len() > 0;
        let has_deletes = self.added_delete_files.len() > 0;
        RowDeltaPlan {
            commit_id,
            checks: RowDeltaChecks {
                data_files: has_data,
                delete_files: has_deletes,
                duplicates: self.check_duplicate && has_data,
            },
            operation: RowDeltaOperation::new(self),
        }
    }
}

/// The manifests of `list` that may list a live file, in their order.
pub open spec fn active(list: Seq<ManifestFile>) -> Seq<ManifestFile> {
    list.filter(|mf: ManifestFile| mf.may_be_active())
}

impl RowDeltaOperation {
    /// What kinds of files `action` adds.
    pub fn new(action: &RowDeltaAction) -> (r: Self)
        ensures
            r == (RowDeltaOperation {
                has_data_files: action.added_data_files@.len() > 0,
                has_delete_files: action.added_delete_files@.len() > 0,
            }),
    {
        RowDeltaOperation {
            has_data_files: action.added_data_files.len() > 0,
            has_delete_files: action.added_delete_files.len() > 0,
        }
    }

    /// What the snapshot does to the table.
    pub fn operation(&self) -> (r: Operation)
        ensures
            r == match (self.has_data_files, self.has_delete_files) {
                (true, true) => Operation::Overwrite,
                (false, true) => Operation::Delete,
                _ => Operation::Append,
            },
    {
        match (self.has_data_files, self.has_delete_files) {
            (true, false) => Operation::Append,
            (false, true) => Operation::Delete,
            (true, true) => Operation::Overwrite,
            (false, false) => Operation::Append,
        }
    }

    /// The entries that the snapshot deletes: none.
    pub fn delete_entries(&self) -> (r: Vec<ManifestEntry>)
        ensures
            r@.len() == 0,
    {
        Vec::new()
    }

    /// The manifests of the table that the new snapshot keeps; without a snapshot there are none.
    pub fn existing_manifest(&self, list: Option<Vec<ManifestFile>>) -> (r: Vec<ManifestFile>)
        ensures
            r@ == match list {
                Some(l) => active(l@),
                None => Seq::empty(),
            },
    {
        match list {
            None => Vec::new(),
            Some(manifests) => {
                let ghost all = manifests@;
                let ghost keep = |mf: ManifestFile| mf.may_be_active();
                let mut r: Vec<ManifestFile> = Vec::new();
                for mf in iter: manifests
                    invariant
                        iter.seq() == all,
                        keep == (|mf: ManifestFile| mf.may_be_active()),
                        r@ == all.take(iter.index() as int).filter(keep),
                {
                    proof {
                        lemma_take_push(all, iter.index() as int);
                        lemma_filter_push(all.take(iter.index() as int), mf, keep);
                    }
                    if mf.has_active_files() {
                        r.push(mf);
                    }
                }
                assert(all.take(all.len() as int) =~= all);
                r
            },
        }
    }
}

/// A new snapshot loses no manifest with live files: what is kept of `list` are the manifests of
/// which the number of added files or of existing files is unknown or above zero, whatever else is
/// known of them, each as often as it is listed, in the order of the list, and no other.
pub proof fn law_no_live_manifest_is_lost(list: Seq<ManifestFile>) -> (places: Seq<int>)
    ensures
        stands_at(active(list), list, places),
        forall|i: int|
            0 <= i < list.len() ==> (places.contains(i) <==> ((#[trigger] list[i]).added_files_count
                is None || list[i].added_files_count->0 > 0 || list[i].existing_files_count is None
                || list[i].existing_files_count->0 > 0)),
        forall|i: int|
            0 <= i < list.len() && ((#[trigger] list[i]).added_files_count is None
                || list[i].added_files_count->0 > 0 || list[i].existing_files_count is None
                || list[i].existing_files_count->0 > 0) ==> active(list).contains(list[i]),
        forall|k: int|
            0 <= k < active(list).len() ==> {
                let mf = #[trigger] active(list)[k];
                list.contains(mf) && (mf.added_files_count is None || mf.added_files_count->0 > 0
                    || mf.existing_files_count is None || mf.existing_files_count->0 > 0)
            },
{
    let keep = |mf: ManifestFile| mf.may_be_active();
    let places = lemma_filter_places(list, keep);
    assert(active(list) == list.filter(keep));
    assert forall|i: int|
        0 <= i < list.len() && ((#[trigger] list[i]).added_files_count is None
            || list[i].added_files_count->0 > 0 || list[i].existing_files_count is None
            || list[i].existing_files_count->0 > 0) implies active(list).contains(list[i]) by {
        assert(places.contains(i));
        let k = choose|k: int| 0 <= k < places.len() && places[k] == i;
        assert(active(list)[k] == list[i]);
    }
    assert forall|k: int| 0 <= k < active(list).len() implies {
        let mf = #[trigger] active(list)[k];
        list.contains(mf) && (mf.added_files_count is None || mf.added_files_count->0 > 0
            || mf.existing_files_count is None || mf.existing_files_count->0 > 0)
    } by {
        assert(places.contains(places[k]));
        assert(list[places[k]] == active(list)[k]);
    }
    places
}

/// A file is refused just where it deletes by equality and does not say by which fields, or deletes
/// by position and says fields; a data file never is.
pub proof fn law_equality_deletes_name_their_fields(file: DataFile)
    ensures
        delete_file_fault(file) is Some <==> (file.content is EqualityDeletes && file.equality_ids
            is None) || (file.content is PositionDeletes && file.equality_ids is Some),
        file.content is EqualityDeletes && file.equality_ids is None ==> delete_file_fault(file)
            == Some("Equality delete file must have equality_ids"@),
        file.content is PositionDeletes && file.equality_ids is Some ==> delete_file_fault(file)
            == Some("Position delete file should not have equality_ids"@),
{
}

/// A snapshot that only adds data appends, one that only adds delete files deletes, and one that
/// adds both overwrites; without either it appends nothing.
pub proof fn law_operation_tells_what_is_added(delta: RowDeltaOperation, r: Operation)
    requires
        call_ensures(RowDeltaOperation::operation, (&delta,), r),
    ensures
        r is Overwrite <==> delta.has_data_files && delta.has_delete_files,
        r is Delete <==> delta.has_delete_files && !delta.has_data_files,
        r is Append <==> !delta.has_delete_files,
{
}

/// What a change keeps of a table's list are the manifests that may hold a live file, by their
/// counts alone, in their order; of a table without a snapshot it keeps nothing.
pub proof fn law_row_delta_keeps_the_live_manifests(
    delta: RowDeltaOperation,
    list: Option<Vec<ManifestFile>>,
    r: Vec<ManifestFile>,
) -> (places: Seq<int>)
    requires
        call_ensures(RowDeltaOperation::existing_manifest, (&delta, list), r),
    ensures
        list is None ==> r@.len() == 0,
        list is Some ==> {
            &&& stands_at(r@, list->0@, places)
            &&& forall|i: int|
                0 <= i < list->0@.len() ==> (places.contains(i) <==> !((
                #[trigger] list->0@[i]).added_files_count == Some(0u32)
                    && list->0@[i].existing_files_count == Some(0u32)))
        },
{
    if list is Some {
        law_no_live_manifest_is_lost(list->0@)
    } else {
        Seq::empty()
    }
}

} // verus!
