//! Graduation: moving the closed part of the hot root into the cold tier's bucket index.

use std::sync::Arc;

use vstd::prelude::*;
use vstd::string::StringExecFns;

use crate::action::TransactionAction;
use crate::cold_move::FoldOutcome;
use crate::commit::{
    is_root_commit, needs_v4_message, require_v4, root_commit, writes_delta, Attempt, RootCommit,
};
use crate::compact_cold_tier::{
    carried_all, law_live_files_are_those_of_live_entries, live_files, CommitStart,
};
use crate::error::{Error, ErrorKind};
use crate::fold::FoldSetting;
use crate::manifest::{
    all_pinned, carried, existing_entry, pins, DataFile, FormatVersion, ManifestEntry, ManifestFile,
    RootManifestEntry, RootManifestMetadata,
};
use crate::outside::{fresh_id, is_time_ordered, now_millis};
use crate::path_set::{PathSet, Properties};
use crate::seqs::{lemma_take_push, stands_at};
use crate::table::{copy_text, copy_texts, TableMetadata};
use crate::text::{decimal, decimal_of, same_bytes, texts};

verus! {

/// The paths that go when the data file at `path` goes: its statistics, and the file.
pub open spec fn file_tombstones(path: Seq<char>) -> Seq<Seq<char>> {
    seq![path + ".stats"@, path]
}

/// Marks the data file at `data_file_path` and its statistics to go.
pub fn push_data_file_and_sidecar(paths: &mut Vec<String>, data_file_path: &str)
    ensures
        texts(final(paths)@) == texts(old(paths)@) + file_tombstones(data_file_path@),
        final(paths)@.len() == old(paths)@.len() + 2,
{
    let ghost before = paths@;
    let mut stats = data_file_path.to_owned();
    stats.append(".stats");
    paths.push(stats);
    paths.push(data_file_path.to_owned());
    assert(texts(paths@) =~= texts(before) + file_tombstones(data_file_path@));
}

/// Whether a leaf of `leaves` is at `path`.
pub open spec fn lists_path(leaves: Seq<ManifestFile>, path: Seq<char>) -> bool {
    exists|i: int| 0 <= i < leaves.len() && (#[trigger] leaves[i]).manifest_path@ == path
}

/// `leaves` without those at a path that a leaf ahead of them is at.
pub open spec fn first_by_path(leaves: Seq<ManifestFile>) -> Seq<ManifestFile>
    decreases leaves.len(),
{
    if leaves.len() == 0 {
        Seq::empty()
    } else {
        let rest = first_by_path(leaves.drop_last());
        if lists_path(leaves.drop_last(), leaves.last().manifest_path@) {
            rest
        } else {
            rest.push(leaves.last())
        }
    }
}

/// Drops the leaves whose path a leaf ahead of them has, and says how many.
pub fn dedupe_leaves_by_path(leaves: &mut Vec<ManifestFile>) -> (dropped: usize)
    ensures
        final(leaves)@ == first_by_path(old(leaves)@),
        dropped == old(leaves)@.len() - final(leaves)@.len(),
{
    let mut all: Vec<ManifestFile> = Vec::new();
    std::mem::swap(leaves, &mut all);
    let before: usize = all.len();
    let ghost given = all@;
    let mut seen = PathSet::new();
    for leaf in iter: all
        invariant
            iter.seq() == given,
            leaves@ == first_by_path(given.take(iter.index() as int)),
            leaves@.len() <= iter.index(),
            forall|p: Seq<char>|
                seen@.contains(p) <==> lists_path(given.take(iter.index() as int), p),
    {
        proof {
            let head = given.take(iter.index() as int);
            let next = given.take(iter.index() + 1);
            assert(next.drop_last() =~= head);
            assert(next.last() == leaf);
            assert(forall|i: int| 0 <= i < head.len() ==> next[i] == head[i]);
            assert(next[head.len() as int] == leaf);
            assert forall|p: Seq<char>| lists_path(next, p) <==> lists_path(head, p)
                || p == leaf.manifest_path@ by {
                if lists_path(next, p) {
                    let i = choose|i: int|
                        0 <= i < next.len() && (#[trigger] next[i]).manifest_path@ == p;
                    if i < head.len() {
                        assert(head[i].manifest_path@ == p);
                    }
                }
                if lists_path(head, p) {
                    let i = choose|i: int|
                        0 <= i < head.len() && (#[trigger] head[i]).manifest_path@ == p;
                    assert(next[i].manifest_path@ == p);
                }
            }
        }
        if seen.insert(leaf.manifest_path.clone()) {
            leaves.push(leaf);
        }
    }
    assert(given.take(given.len() as int) =~= given);
    before - leaves.len()
}

/// No two leaves are at one path once duplicates are dropped, and no path is lost.
pub proof fn law_deduped_leaves_are_distinct(leaves: Seq<ManifestFile>)
    ensures
        forall|i: int, j: int|
            0 <= i < j < first_by_path(leaves).len() ==> first_by_path(leaves)[i].manifest_path@
                != first_by_path(leaves)[j].manifest_path@,
        forall|p: Seq<char>|
            lists_path(first_by_path(leaves), p) <==> #[trigger] lists_path(leaves, p),
    decreases leaves.len(),
{
    if leaves.len() > 0 {
        let head = leaves.drop_last();
        let last = leaves.last();
        let fewer = first_by_path(head);
        let all = first_by_path(leaves);
        law_deduped_leaves_are_distinct(head);
        assert(leaves[leaves.len() - 1] == last);
        assert(forall|i: int| 0 <= i < head.len() ==> leaves[i] == head[i]);
        assert forall|p: Seq<char>| lists_path(all, p) <==> #[trigger] lists_path(leaves, p) by {
            assert(lists_path(fewer, p) <==> lists_path(head, p));
            if lists_path(all, p) {
                let i = choose|i: int| 0 <= i < all.len() && (#[trigger] all[i]).manifest_path@ == p;
                if i < fewer.len() {
                    assert(fewer[i].manifest_path@ == p);
                    let k = choose|k: int|
                        0 <= k < head.len() && (#[trigger] head[k]).manifest_path@ == p;
                    assert(leaves[k].manifest_path@ == p);
                } else {
                    assert(leaves[leaves.len() - 1].manifest_path@ == p);
                }
            }
            if lists_path(leaves, p) {
                let k = choose|k: int|
                    0 <= k < leaves.len() && (#[trigger] leaves[k]).manifest_path@ == p;
                if k < head.len() || lists_path(head, last.manifest_path@) {
                    if k < head.len() {
                        assert(head[k].manifest_path@ == p);
                    }
                    assert(lists_path(head, p));
                    let i = choose|i: int|
                        0 <= i < fewer.len() && (#[trigger] fewer[i]).manifest_path@ == p;
                    assert(all[i].manifest_path@ == p);
                } else {
                    assert(all[fewer.len() as int].manifest_path@ == p);
                }
            }
        }
        assert forall|i: int, j: int| 0 <= i < j < all.len() implies all[i].manifest_path@
            != all[j].manifest_path@ by {
            if j == fewer.len() {
                assert(fewer[i].manifest_path@ == all[i].manifest_path@);
                assert(lists_path(fewer, all[i].manifest_path@));
                assert(lists_path(head, all[i].manifest_path@));
            }
        }
    }
}

/// What becomes of a node that graduates while files are pending removal.
pub enum GraduatedNodePlan {
    /// None of its files is to go: it moves as it is.
    ByReference,
    /// All of its live files are to go: nothing of it moves.
    Skip,
    /// Some of its files are to go: these entries move, in a new leaf.
    Materialize(Vec<ManifestEntry>),
}

/// Whether a live file of a manifest is to go.
pub open spec fn lists_removed(entries: Seq<ManifestEntry>, removed: Set<Seq<char>>) -> bool {
    exists|i: int|
        0 <= i < entries.len() && (#[trigger] entries[i]).alive() && removed.contains(
            entries[i].data_file.file_path@,
        )
}

/// The entries that remain of a manifest when the files in `removed` go.
pub open spec fn surviving(entries: Seq<ManifestEntry>, removed: Set<Seq<char>>) -> Seq<ManifestEntry> {
    carried_all(live_files(entries, removed))
}

/// The entries that a node contributes to a new leaf: live, not to go, and without their history.
pub fn fold_surviving_entries(entries: &[ManifestEntry], removed_paths: &PathSet) -> (r: Vec<
    ManifestEntry,
>)
    ensures
        r@ == surviving(entries@, removed_paths@),
{
    let mut r: Vec<ManifestEntry> = Vec::new();
    let mut i: usize = 0;
    assert(r@ =~= surviving(entries@.take(0), removed_paths@));
    while i < entries.len()
        invariant
            i <= entries@.len(),
            r@ == surviving(entries@.take(i as int), removed_paths@),
        decreases entries@.len() - i,
    {
        let ghost before = r@;
        let ghost head = entries@.take(i as int);
        proof {
            lemma_take_push(entries@, i as int);
            assert(entries@.take(i + 1).drop_last() =~= head);
        }
        if entries[i].is_alive_and_kept(removed_paths) {
            r.push(existing_entry(entries[i].data_file.clone()));
            assert(surviving(entries@.take(i + 1), removed_paths@) =~= before.push(
                carried(entries@[i as int].data_file),
            ));
        }
        i = i + 1;
    }
    assert(entries@.take(i as int) =~= entries@);
    r
}

/// What becomes of a node with the entries `entries` that graduates while the files in
/// `removed_paths` are pending removal.
pub fn plan_graduated_node(entries: &[ManifestEntry], removed_paths: &PathSet) -> (r: GraduatedNodePlan)
    ensures
        match r {
            GraduatedNodePlan::ByReference => !lists_removed(entries@, removed_paths@),
            GraduatedNodePlan::Skip => lists_removed(entries@, removed_paths@) && surviving(
                entries@,
                removed_paths@,
            ).len() == 0,
            GraduatedNodePlan::Materialize(kept) => {
                &&& lists_removed(entries@, removed_paths@)
                &&& kept@ == surviving(entries@, removed_paths@)
                &&& kept@.len() > 0
            },
        },
{
    let mut has_removed = false;
    let mut i: usize = 0;
    while i < entries.len()
        invariant
            i <= entries@.len(),
            has_removed == exists|k: int|
                0 <= k < i && (#[trigger] entries@[k]).alive() && removed_paths@.contains(
                    entries@[k].data_file.file_path@,
                ),
        decreases entries@.len() - i,
    {
        if entries[i].is_alive() && removed_paths.contains(entries[i].data_file.file_path.as_str()) {
            has_removed = true;
        }
        i = i + 1;
    }
    if !has_removed {
        return GraduatedNodePlan::ByReference;
    }
    let kept = fold_surviving_entries(entries, removed_paths);
    if kept.len() == 0 {
        GraduatedNodePlan::Skip
    } else {
        GraduatedNodePlan::Materialize(kept)
    }
}

/// How many of `graduating` nodes are folded into new leaves; the others move as they are.
pub open spec fn batch_size(fold_leaves: Option<usize>, graduating: nat) -> nat {
    match fold_leaves {
        Some(n) => if n < graduating {
            n as nat
        } else {
            graduating
        },
        None => 0,
    }
}

/// How many of `graduating` nodes are folded into new leaves; the others move as they are.
pub fn fold_batch_size(fold_leaves: Option<usize>, graduating: usize) -> (r: usize)
    ensures
        r == batch_size(fold_leaves, graduating as nat),
        r <= graduating,
{
    match fold_leaves {
        Some(n) => if n < graduating {
            n
        } else {
            graduating
        },
        None => 0,
    }
}

/// Whether a summary pins the manifest to one partition.
pub open spec fn summary_pinned(mf: ManifestFile) -> bool {
    mf.summary() matches Some(summary) && all_pinned(summary)
}

/// The partition that a summary pins the manifest to.
pub open spec fn pinned_key(mf: ManifestFile) -> Seq<Seq<u8>> {
    pins(mf.summary()->0)
}

/// The partitions that summaries pin `nodes` to.
pub open spec fn pinned_keys(nodes: Seq<ManifestFile>) -> Seq<Seq<Seq<u8>>> {
    nodes.map_values(|mf: ManifestFile| pinned_key(mf))
}

/// How many partitions `nodes` are of, where every summary pins its node to one.
pub open spec fn distinct_partitions(nodes: Seq<ManifestFile>) -> Option<nat> {
    if forall|i: int| 0 <= i < nodes.len() ==> summary_pinned(#[trigger] nodes[i]) {
        Some(pinned_keys(nodes).to_set().len())
    } else {
        None
    }
}

fn is_summary_pinned(mf: &ManifestFile) -> (r: bool)
    ensures
        r == summary_pinned(*mf),
{
    match &mf.partitions {
        None => false,
        Some(summary) => {
            let mut i: usize = 0;
            while i < summary.len()
                invariant
                    i <= summary@.len(),
                    mf.summary() == Some(summary@),
                    forall|k: int| 0 <= k < i ==> (#[trigger] summary@[k]).pinned_spec() is Some,
                decreases summary@.len() - i,
            {
                if summary[i].pinned().is_none() {
                    return false;
                }
                i = i + 1;
            }
            true
        },
    }
}

fn same_pinned_key(a: &ManifestFile, b: &ManifestFile) -> (r: bool)
    requires
        summary_pinned(*a),
        summary_pinned(*b),
    ensures
        r == (pinned_key(*a) == pinned_key(*b)),
{
    match (&a.partitions, &b.partitions) {
        (Some(x), Some(y)) => {
            if x.len() != y.len() {
                assert(pinned_key(*a).len() != pinned_key(*b).len());
                return false;
            }
            let mut i: usize = 0;
            while i < x.len()
                invariant
                    i <= x@.len(),
                    x@.len() == y@.len(),
                    a.summary() == Some(x@),
                    b.summary() == Some(y@),
                    all_pinned(x@),
                    all_pinned(y@),
                    forall|k: int| 0 <= k < i ==> pinned_key(*a)[k] == pinned_key(*b)[k],
                decreases x@.len() - i,
            {
                assert(x@[i as int].pinned_spec() is Some && y@[i as int].pinned_spec() is Some);
                if let (Some(p), Some(q)) = (x[i].pinned(), y[i].pinned()) {
                    if !same_bytes(p, q) {
                        assert(pinned_key(*a)[i as int] != pinned_key(*b)[i as int]);
                        return false;
                    }
                }
                i = i + 1;
            }
            assert(pinned_key(*a) =~= pinned_key(*b));
            true
        },
        _ => false,
    }
}

/// How many partitions `nodes` are of, by their summaries alone; `None` where a summary is missing
/// or spans more than one value.
pub fn distinct_summary_partitions(nodes: &[ManifestFile]) -> (r: Option<usize>)
    ensures
        match r {
            Some(n) => distinct_partitions(nodes@) == Some(n as nat),
            None => distinct_partitions(nodes@) is None,
        },
{
    let mut firsts: Vec<usize> = Vec::new();
    let ghost mut keys = Seq::<Seq<Seq<u8>>>::empty();
    let mut i: usize = 0;
    assert(keys.to_set() =~= pinned_keys(nodes@).take(0).to_set());
    while i < nodes.len()
        invariant
            i <= nodes@.len(),
            firsts@.len() <= i,
            forall|k: int| 0 <= k < i ==> summary_pinned(#[trigger] nodes@[k]),
            firsts@.len() == keys.len(),
            forall|f: int|
                0 <= f < firsts@.len() ==> (#[trigger] firsts@[f]) < i && keys[f] == pinned_key(
                    nodes@[firsts@[f] as int],
                ),
            keys.no_duplicates(),
            keys.to_set() == pinned_keys(nodes@).take(i as int).to_set(),
        decreases nodes@.len() - i,
    {
        if !is_summary_pinned(&nodes[i]) {
            return None;
        }
        let ghost key = pinned_key(nodes@[i as int]);
        let mut f: usize = 0;
        let mut found = false;
        while f < firsts.len() && !found
            invariant
                i < nodes@.len(),
                f <= firsts@.len(),
                firsts@.len() == keys.len(),
                summary_pinned(nodes@[i as int]),
                key == pinned_key(nodes@[i as int]),
                forall|k: int| 0 <= k < i ==> summary_pinned(#[trigger] nodes@[k]),
                forall|f: int|
                    0 <= f < firsts@.len() ==> (#[trigger] firsts@[f]) < i && keys[f]
                        == pinned_key(nodes@[firsts@[f] as int]),
                found ==> keys.contains(key),
                !found ==> forall|g: int| 0 <= g < f ==> keys[g] != key,
            decreases firsts@.len() - f + (if found { 0int } else { 1int }),
        {
            assert(firsts@[f as int] < i);
            if same_pinned_key(&nodes[firsts[f]], &nodes[i]) {
                assert(keys[f as int] == key);
                found = true;
            } else {
                f = f + 1;
            }
        }
        proof {
            let all = pinned_keys(nodes@);
            lemma_take_push(all, i as int);
            crate::path_set::lemma_push_to_set(all.take(i as int), key);
            if found {
                assert(keys.to_set().insert(key) =~= keys.to_set());
            } else {
                crate::path_set::lemma_push_to_set(keys, key);
            }
        }
        if !found {
            proof {
                assert(!keys.contains(key));
                keys = keys.push(key);
            }
            firsts.push(i);
        }
        i = i + 1;
    }
    proof {
        assert(pinned_keys(nodes@).take(i as int) =~= pinned_keys(nodes@));
        keys.unique_seq_to_set();
    }
    Some(firsts.len())
}

/// Whether folding `nodes` at least halves their number, or might: where the summaries do not
/// tell, it is taken to.
pub open spec fn consolidates(nodes: Seq<ManifestFile>) -> bool {
    match distinct_partitions(nodes) {
        Some(n) => n * 2 <= nodes.len(),
        None => true,
    }
}

/// Whether folding `nodes` is worth the rewrite.
pub fn fold_would_consolidate(nodes: &[ManifestFile]) -> (r: bool)
    ensures
        r == consolidates(nodes@),
{
    match distinct_summary_partitions(nodes) {
        Some(distinct) => distinct <= nodes.len() / 2,
        None => true,
    }
}

/// What survives of a node is exactly its live files that are not to go, whether the node is folded
/// or written anew on its own.
pub proof fn law_survivors_are_exact(
    entries: Seq<ManifestEntry>,
    removed: Set<Seq<char>>,
    file: Arc<DataFile>,
)
    ensures
        surviving(entries, removed).contains(carried(file)) <==> !removed.contains(file.file_path@)
            && exists|i: int|
            0 <= i < entries.len() && (#[trigger] entries[i]).alive() && entries[i].data_file
                == file,
    decreases entries.len(),
{
    let all = surviving(entries, removed);
    if entries.len() > 0 {
        let rest = entries.drop_last();
        let fewer = surviving(rest, removed);
        let e = entries.last();
        law_survivors_are_exact(rest, removed, file);
        let stays = e.alive() && !removed.contains(e.data_file.file_path@);
        if stays {
            assert(all =~= fewer.push(carried(e.data_file)));
            assert(all[fewer.len() as int] == carried(e.data_file));
        } else {
            assert(all =~= fewer);
        }
        if all.contains(carried(file)) {
            let k = choose|k: int| 0 <= k < all.len() && all[k] == carried(file);
            if k < fewer.len() {
                assert(fewer[k] == carried(file));
                let i = choose|i: int|
                    0 <= i < rest.len() && (#[trigger] rest[i]).alive() && rest[i].data_file
                        == file;
                assert(entries[i] == rest[i]);
            } else {
                assert(carried(file).data_file == carried(e.data_file).data_file);
                assert(entries[entries.len() - 1].alive());
            }
        }
        if exists|i: int|
            0 <= i < entries.len() && (#[trigger] entries[i]).alive() && entries[i].data_file
                == file {
            let i = choose|i: int|
                0 <= i < entries.len() && (#[trigger] entries[i]).alive() && entries[i].data_file
                    == file;
            if i < rest.len() {
                assert(rest[i].alive() && rest[i].data_file == file);
            }
            if fewer.contains(carried(file)) {
                let k = choose|k: int| 0 <= k < fewer.len() && fewer[k] == carried(file);
                assert(all[k] == carried(file));
            }
        }
    }
}

/// Where no live file of a node is to go, all of its live files survive: moving it as it is and
/// writing it anew bring the same files into the cold tier.
pub proof fn law_by_reference_loses_nothing(entries: Seq<ManifestEntry>, removed: Set<Seq<char>>)
    requires
        !lists_removed(entries, removed),
    ensures
        live_files(entries, removed) == live_files(entries, Set::empty()),
    decreases entries.len(),
{
    if entries.len() > 0 {
        let rest = entries.drop_last();
        assert(entries[entries.len() - 1] == entries.last());
        assert(!lists_removed(rest, removed)) by {
            if lists_removed(rest, removed) {
                let i = choose|i: int|
                    0 <= i < rest.len() && (#[trigger] rest[i]).alive() && removed.contains(
                        rest[i].data_file.file_path@,
                    );
                assert(entries[i] == rest[i]);
            }
        }
        law_by_reference_loses_nothing(rest, removed);
    }
}

/// Moves the closed nodes and files of the hot root into the cold tier.
pub struct GraduateBucketsAction {
    pub ts_field_id: i32,
    pub cutoff_micros: i64,
    pub commit_id: u128,
    /// How many nodes are folded into new leaves at once; without it, nodes move as they are.
    pub fold_leaves: Option<usize>,
}

/// What a graduation has prepared: leaves and a bucket index that were written under names of
/// their own, and stay valid when an attempt at the commit is lost.
pub struct PreparedGraduation {
    /// The entries that stay in the hot root.
    pub kept: Arc<Vec<RootManifestEntry>>,
    pub bucket_index_path: String,
    /// The bucket index that the table's root named when this was prepared.
    pub prep_bucket_index_path: Option<String>,
    pub ancestor_removed_paths: Vec<String>,
    /// The paths of the manifests that left the hot root.
    pub graduated_ref_paths: Vec<String>,
    pub snapshot_id: i64,
    pub nodes_moved: usize,
    pub inline_leaves: usize,
    pub cold_leaves_total: usize,
}

/// The summary of a graduation's snapshot.
pub open spec fn graduation_summary(nodes_moved: nat, inline_leaves: nat, cold_leaves: nat) -> Map<
    Seq<char>,
    Seq<char>,
> {
    Map::empty().insert("graduate-nodes-moved"@, decimal(nodes_moved)).insert(
        "graduate-inline-leaves"@,
        decimal(inline_leaves),
    ).insert("graduate-cold-leaves-total"@, decimal(cold_leaves))
}

impl TransactionAction for GraduateBucketsAction {
    fn action_name(&self) -> (r: &'static str)
        ensures
            r@ == "graduate_buckets"@,
    {
        "graduate_buckets"
    }
}

impl GraduateBucketsAction {
    /// Graduation by the field `ts_field_id`: what has its newest value of it below
    /// `cutoff_micros` is closed. Nodes move as they are.
    pub fn new(ts_field_id: i32, cutoff_micros: i64) -> (r: Self)
        ensures
            r.ts_field_id == ts_field_id,
            r.cutoff_micros == cutoff_micros,
            r.fold_leaves is None,
            is_time_ordered(r.commit_id),
    {
        GraduateBucketsAction {
            ts_field_id,
            cutoff_micros,
            commit_id: fresh_id(),
            fold_leaves: None,
        }
    }

    /// Folds up to `max_nodes` of the graduating nodes into leaves of one partition each; the
    /// others move as they are. Zero folds none.
    pub fn with_leaf_fold(self, max_nodes: usize) -> (r: Self)
        ensures
            r.fold_leaves == if max_nodes > 0 {
                Some(max_nodes)
            } else {
                None
            },
            r.ts_field_id == self.ts_field_id,
            r.cutoff_micros == self.cutoff_micros,
            r.commit_id == self.commit_id,
    {
        let mut r = self;
        r.fold_leaves = if max_nodes > 0 {
            Some(max_nodes)
        } else {
            None
        };
        r
    }

    /// Whether there is anything to do on `table`.
    pub fn start_commit(&self, table: &TableMetadata) -> (r: Result<CommitStart, Error>)
        ensures
            r is Err <==> table.effective_version() != FormatVersion::V4,
            r is Err ==> r->Err_0.says(
                ErrorKind::FeatureUnsupported,
                needs_v4_message("graduate_buckets"@, table.effective_version()),
            ),
            r is Ok ==> (r->Ok_0 == CommitStart::Nothing <==> table.current() is None),
    {
        if let Err(e) = require_v4(table, "graduate_buckets") {
            return Err(e);
        }
        if table.current_snapshot().is_none() {
            return Ok(CommitStart::Nothing);
        }
        Ok(CommitStart::Proceed)
    }

    /// What the fold of a graduation goes by: nothing is dropped, however old.
    pub fn fold_setting(&self, table: &TableMetadata) -> (r: FoldSetting)
        ensures
            r == (FoldSetting {
                spec: table.default_spec,
                ts_field_id: self.ts_field_id,
                cutoff_micros: self.cutoff_micros,
                retention_cutoff_micros: None,
                max_ttl_drop_files: 0,
            }),
    {
        FoldSetting {
            spec: table.default_spec.clone(),
            ts_field_id: self.ts_field_id,
            cutoff_micros: self.cutoff_micros,
            retention_cutoff_micros: None,
            max_ttl_drop_files: 0,
        }
    }

    /// What is prepared once a fold has come to `outcome` and left `kept` in the hot root.
    pub fn finish_prepare(
        &self,
        kept: Vec<RootManifestEntry>,
        outcome: FoldOutcome,
        root_metadata: &RootManifestMetadata,
        snapshot_id: i64,
    ) -> (r: PreparedGraduation)
        ensures
            r.kept@ == kept@,
            r.bucket_index_path == outcome.bucket_index_path,
            r.prep_bucket_index_path == root_metadata.bucket_index_path,
            r.ancestor_removed_paths@ == root_metadata.removed_paths@,
            r.graduated_ref_paths == outcome.graduated_ref_paths,
            r.snapshot_id == snapshot_id,
            r.nodes_moved == outcome.nodes_moved,
            r.inline_leaves == outcome.inline_leaves,
            r.cold_leaves_total == outcome.cold_leaves_total,
    {
        PreparedGraduation {
            kept: Arc::new(kept),
            bucket_index_path: outcome.bucket_index_path,
            prep_bucket_index_path: copy_text(&root_metadata.bucket_index_path),
            ancestor_removed_paths: copy_texts(&root_metadata.removed_paths),
            graduated_ref_paths: outcome.graduated_ref_paths,
            snapshot_id,
            nodes_moved: outcome.nodes_moved,
            inline_leaves: outcome.inline_leaves,
            cold_leaves_total: outcome.cold_leaves_total,
        }
    }

    /// Whether `rc` commits what was prepared, on top of `table`. A root that only adds to the one
    /// beneath lists nothing, so it tombstones every manifest that left: that is its only way to
    /// say so. A root that stands alone lists what stays, and carries the tombstones of old.
    pub open spec fn commits(
        &self,
        rc: RootCommit,
        table: TableMetadata,
        prep: PreparedGraduation,
        chain_depth: u32,
        max_chain_depth: u32,
        attempt_id: u128,
        timestamp_ms: i64,
    ) -> bool {
        table.current() matches Some(current) && is_root_commit(
            rc,
            table,
            current.manifest_list@,
            (Attempt {
                snapshot_id: prep.snapshot_id,
                commit_id: self.commit_id,
                attempt_id,
                timestamp_ms,
            }),
            Some(prep.bucket_index_path@),
            chain_depth,
            max_chain_depth,
            texts(prep.graduated_ref_paths@),
            texts(prep.ancestor_removed_paths@),
            prep.kept@,
            graduation_summary(
                prep.nodes_moved as nat,
                prep.inline_leaves as nat,
                prep.cold_leaves_total as nat,
            ),
        )
    }

    /// The root and the commit of an attempt with the id `attempt_id` at the time `timestamp_ms`,
    /// the table's root being `chain_depth` deep in its chain.
    pub fn finalize_at(
        &self,
        table: &TableMetadata,
        prep: &PreparedGraduation,
        chain_depth: u32,
        max_chain_depth: u32,
        attempt_id: u128,
        timestamp_ms: i64,
    ) -> (r: Result<RootCommit, Error>)
        requires
            table.has_next_sequence_number(),
        ensures
            r is Err <==> table.current() is None,
            r is Err ==> r->Err_0.says(
                ErrorKind::Unexpected,
                "graduate_buckets: table has no current snapshot at finalize"@,
            ),
            r is Ok ==> self.commits(
                r->Ok_0,
                *table,
                *prep,
                chain_depth,
                max_chain_depth,
                attempt_id,
                timestamp_ms,
            ),
    {
        match table.current_snapshot() {
            None => Err(
                Error::new(
                    ErrorKind::Unexpected,
                    "graduate_buckets: table has no current snapshot at finalize".to_owned(),
                ),
            ),
            Some(current) => {
                let mut summary = Properties::new();
                summary.insert(
                    "graduate-nodes-moved".to_owned(),
                    decimal_of(prep.nodes_moved as u64),
                );
                summary.insert(
                    "graduate-inline-leaves".to_owned(),
                    decimal_of(prep.inline_leaves as u64),
                );
                summary.insert(
                    "graduate-cold-leaves-total".to_owned(),
                    decimal_of(prep.cold_leaves_total as u64),
                );
                let attempt = Attempt {
                    snapshot_id: prep.snapshot_id,
                    commit_id: self.commit_id,
                    attempt_id,
                    timestamp_ms,
                };
                let bucket_index = Some(prep.bucket_index_path.clone());
                Ok(
                    root_commit(
                        table,
                        current.manifest_list.as_str(),
                        &attempt,
                        &bucket_index,
                        chain_depth,
                        max_chain_depth,
                        &prep.graduated_ref_paths,
                        &prep.ancestor_removed_paths,
                        &prep.kept,
                        summary,
                    ),
                )
            },
        }
    }

    /// The root and the commit of an attempt under a fresh id, now.
    pub fn finalize(
        &self,
        table: &TableMetadata,
        prep: &PreparedGraduation,
        chain_depth: u32,
        max_chain_depth: u32,
    ) -> (r: Result<RootCommit, Error>)
        requires
            table.has_next_sequence_number(),
        ensures
            r is Err <==> table.current() is None,
            r is Err ==> r->Err_0.says(
                ErrorKind::Unexpected,
                "graduate_buckets: table has no current snapshot at finalize"@,
            ),
            r is Ok ==> exists|attempt_id: u128, timestamp_ms: i64|
                is_time_ordered(attempt_id) && #[trigger] self.commits(
                    r->Ok_0,
                    *table,
                    *prep,
                    chain_depth,
                    max_chain_depth,
                    attempt_id,
                    timestamp_ms,
                ),
    {
        let attempt_id: u128 = fresh_id();
        let timestamp_ms: i64 = now_millis();
        self.finalize_at(table, prep, chain_depth, max_chain_depth, attempt_id, timestamp_ms)
    }
}

/// A manifest that left the hot root is not offered again: the new root either tombstones it on
/// top of the roots beneath, or stands alone and lists only what stayed.
pub proof fn law_graduated_refs_are_not_offered_again(
    action: GraduateBucketsAction,
    rc: RootCommit,
    table: TableMetadata,
    prep: PreparedGraduation,
    chain_depth: u32,
    max_chain_depth: u32,
    attempt_id: u128,
    timestamp_ms: i64,
    path: Seq<char>,
)
    requires
        action.commits(rc, table, prep, chain_depth, max_chain_depth, attempt_id, timestamp_ms),
        texts(prep.graduated_ref_paths@).contains(path),
    ensures
        if writes_delta(table, chain_depth, max_chain_depth) {
            texts(rc.root_metadata.removed_paths@).contains(path)
        } else {
            rc.root_metadata.prev_root_path is None && rc.entries@ == prep.kept@
        },
{
}

/// A file goes with its sidecar: its path with the ending of a sidecar, then its own, and no other.
pub proof fn law_file_goes_with_its_sidecar(path: Seq<char>)
    ensures
        file_tombstones(path).len() == 2,
        file_tombstones(path)[0] == path + ".stats"@,
        file_tombstones(path)[1] == path,
{
}

/// Of the leaves of one path the first is kept, and the leaves that are kept stand in their order.
pub proof fn law_first_leaf_of_a_path_is_kept(leaves: Seq<ManifestFile>) -> (places: Seq<int>)
    ensures
        stands_at(first_by_path(leaves), leaves, places),
        forall|i: int|
            0 <= i < leaves.len() ==> (#[trigger] places.contains(i) <==> forall|j: int|
                0 <= j < i ==> (#[trigger] leaves[j]).manifest_path@ != leaves[i].manifest_path@),
    decreases leaves.len(),
{
    if leaves.len() == 0 {
        Seq::empty()
    } else {
        let head = leaves.drop_last();
        let last = leaves.len() - 1;
        let before = law_first_leaf_of_a_path_is_kept(head);
        let new = forall|j: int|
            0 <= j < last ==> (#[trigger] leaves[j]).manifest_path@ != leaves[last].manifest_path@;
        if lists_path(head, leaves[last].manifest_path@) {
            let j = choose|j: int|
                0 <= j < head.len() && (#[trigger] head[j]).manifest_path@
                    == leaves[last].manifest_path@;
            assert(leaves[j] == head[j]);
        } else {
            assert forall|j: int| 0 <= j < last implies (#[trigger] leaves[j]).manifest_path@
                != leaves[last].manifest_path@ by {
                assert(head[j] == leaves[j]);
            }
        }
        let places = if new {
            before.push(last)
        } else {
            before
        };
        assert forall|i: int| 0 <= i < leaves.len() implies (#[trigger] places.contains(
            i,
        ) <==> forall|j: int|
            0 <= j < i ==> (#[trigger] leaves[j]).manifest_path@ != leaves[i].manifest_path@) by {
            if i < last {
                assert(head[i] == leaves[i]);
                assert(forall|j: int| 0 <= j < i ==> #[trigger] leaves[j] == head[j]);
                assert(forall|j: int| 0 <= j < i ==> #[trigger] head[j] == leaves[j]);
                if before.contains(i) {
                    let k = choose|k: int| 0 <= k < before.len() && before[k] == i;
                    assert(places[k] == i);
                }
                if places.contains(i) {
                    let k = choose|k: int| 0 <= k < places.len() && places[k] == i;
                    assert(before[k] == i);
                }
            } else if new {
                assert(places[before.len() as int] == i);
            } else if places.contains(i) {
                let k = choose|k: int| 0 <= k < places.len() && places[k] == i;
                assert(before[k] == i);
            }
        }
        places
    }
}

/// A leaf lists a removed file just where an entry that was not deleted has a removed path.
pub proof fn law_removed_files_are_found_among_the_live(
    entries: Seq<ManifestEntry>,
    removed: Set<Seq<char>>,
)
    ensures
        lists_removed(entries, removed) <==> exists|i: int|
            0 <= i < entries.len() && ((#[trigger] entries[i]).status is Existing
                || entries[i].status is Added) && removed.contains(
                entries[i].data_file.file_path@,
            ),
{
    if lists_removed(entries, removed) {
        let i = choose|i: int|
            0 <= i < entries.len() && (#[trigger] entries[i]).alive() && removed.contains(
                entries[i].data_file.file_path@,
            );
        assert(entries[i].status is Existing || entries[i].status is Added);
    }
    if exists|i: int|
        0 <= i < entries.len() && ((#[trigger] entries[i]).status is Existing || entries[i].status
            is Added) && removed.contains(entries[i].data_file.file_path@) {
        let i = choose|i: int|
            0 <= i < entries.len() && ((#[trigger] entries[i]).status is Existing
                || entries[i].status is Added) && removed.contains(
                entries[i].data_file.file_path@,
            );
        assert(entries[i].alive());
    }
}

/// What survives of a leaf stands in its order, live and without history: the files of the entries
/// that were not deleted and whose paths are not removed.
pub proof fn law_survivors_stand_in_order(entries: Seq<ManifestEntry>, removed: Set<Seq<char>>) -> (places:
    Seq<int>)
    ensures
        places.len() == surviving(entries, removed).len(),
        forall|k: int|
            0 <= k < places.len() ==> 0 <= #[trigger] places[k] < entries.len() && {
                let x = surviving(entries, removed)[k];
                x.data_file == entries[places[k]].data_file && x.status is Existing
                    && x.snapshot_id is None && x.sequence_number is None
                    && x.file_sequence_number is None
            },
        forall|j: int, k: int|
            0 <= j < k < places.len() ==> #[trigger] places[j] < #[trigger] places[k],
        forall|i: int|
            0 <= i < entries.len() ==> (places.contains(i) <==> ((#[trigger] entries[i]).status
                is Existing || entries[i].status is Added) && !removed.contains(
                entries[i].data_file.file_path@,
            )),
{
    law_live_files_are_those_of_live_entries(entries, removed)
}

/// A batch is as large as is asked for, but no larger than what graduates, and is empty where
/// nothing is asked for.
pub proof fn law_batch_is_the_smaller_number(fold_leaves: Option<usize>, graduating: nat)
    ensures
        batch_size(fold_leaves, graduating) <= graduating,
        fold_leaves is None ==> batch_size(fold_leaves, graduating) == 0,
        fold_leaves is Some ==> batch_size(fold_leaves, graduating) <= fold_leaves->0,
        fold_leaves is Some ==> batch_size(fold_leaves, graduating) == fold_leaves->0 || batch_size(
            fold_leaves,
            graduating,
        ) == graduating,
{
}

/// Leaves are folded where a summary leaves a partition open, or where there are at least two
/// leaves to each partition on the average.
pub proof fn law_folding_pays_for_crowded_partitions(nodes: Seq<ManifestFile>)
    ensures
        ({
            let pinned = forall|i: int|
                0 <= i < nodes.len() ==> (#[trigger] nodes[i]).partitions is Some && forall|f: int|
                    0 <= f < nodes[i].partitions->0@.len() ==> {
                        let field = #[trigger] nodes[i].partitions->0@[f];
                        field.lower_bound is Some && field.upper_bound is Some
                            && field.lower_bound->0@ == field.upper_bound->0@
                    };
            &&& !pinned ==> consolidates(nodes)
            &&& pinned ==> (consolidates(nodes) <==> 2 * pinned_keys(nodes).to_set().len()
                <= nodes.len())
            &&& pinned ==> forall|i: int|
                #![trigger nodes[i]]
                0 <= i < nodes.len() ==> pinned_keys(nodes)[i].len()
                    == nodes[i].partitions->0@.len() && forall|f: int|
                    0 <= f < nodes[i].partitions->0@.len() ==> pinned_keys(nodes)[i][f] == (
                    #[trigger] nodes[i].partitions->0@[f]).lower_bound->0@
        }),
{
    assert forall|i: int| 0 <= i < nodes.len() implies (summary_pinned(#[trigger] nodes[i]) <==> (
    nodes[i].partitions is Some && forall|f: int|
        0 <= f < nodes[i].partitions->0@.len() ==> {
            let field = #[trigger] nodes[i].partitions->0@[f];
            field.lower_bound is Some && field.upper_bound is Some && field.lower_bound->0@
                == field.upper_bound->0@
        })) by {
        if nodes[i].partitions is Some {
            let parts = nodes[i].partitions->0@;
            if all_pinned(parts) {
                assert forall|f: int| 0 <= f < parts.len() implies {
                    let field = #[trigger] parts[f];
                    field.lower_bound is Some && field.upper_bound is Some && field.lower_bound->0@
                        == field.upper_bound->0@
                } by {
                    assert(parts[f].pinned_spec() is Some);
                }
            }
            if forall|f: int|
                0 <= f < parts.len() ==> {
                    let field = #[trigger] parts[f];
                    field.lower_bound is Some && field.upper_bound is Some && field.lower_bound->0@
                        == field.upper_bound->0@
                } {
                assert forall|f: int| 0 <= f < parts.len() implies (
                #[trigger] parts[f]).pinned_spec() is Some by {}
            }
        }
    }
}

/// The summary of a graduation says how many nodes moved, how many leaves hold inline files, and
/// how many leaves are cold.
pub proof fn law_graduation_summary_says_what_moved(nodes_moved: nat, inline_leaves: nat, cold: nat)
    ensures
        ({
            let m = graduation_summary(nodes_moved, inline_leaves, cold);
            &&& m.contains_key("graduate-nodes-moved"@)
            &&& m.contains_key("graduate-inline-leaves"@)
            &&& m.contains_key("graduate-cold-leaves-total"@)
            &&& m["graduate-nodes-moved"@] == decimal(nodes_moved)
            &&& m["graduate-inline-leaves"@] == decimal(inline_leaves)
            &&& m["graduate-cold-leaves-total"@] == decimal(cold)
        }),
{
    reveal_strlit("graduate-nodes-moved");
    reveal_strlit("graduate-inline-leaves");
    reveal_strlit("graduate-cold-leaves-total");
    assert("graduate-nodes-moved"@.len() != "graduate-inline-leaves"@.len());
    assert("graduate-nodes-moved"@.len() != "graduate-cold-leaves-total"@.len());
    assert("graduate-inline-leaves"@.len() != "graduate-cold-leaves-total"@.len());
}

} // verus!
