//! Rewriting manifests: many small ones become few large ones, and no data file is touched.
//!
//! The rewrite comes first and once. Then the new manifests are merged with those that were added
//! meanwhile and committed, which can be tried again at little cost.

use std::collections::HashMap;

use vstd::prelude::*;
use vstd::string::StringExecFns;

use crate::action::{ActionCommit, TransactionAction};
use crate::cluster::{writer_kind, writer_kind_spec, ManifestWriterKind};
use crate::commit::{
    lemma_id_stands_at_the_end, lemma_number_behind, manifest_path, manifest_path_of,
    replace_commit, replaces,
};
use crate::error::{Error, ErrorKind};
use crate::manifest::{ManifestContentType, ManifestEntry, ManifestFile};
use crate::outside::{fresh_id, id_text, id_text_of, is_time_ordered};
use crate::path_set::Properties;
use crate::rebalance_root_manifest::{
    restamp_all, restamped_all, spec_not_found, spec_not_found_message,
};
use crate::replace_data_files::{extension, parquet_manifests, writes_parquet_manifests};
use crate::seqs::{lemma_filter_places, lemma_filter_push, lemma_take_push, stands_at};
use crate::table::{Snapshot, TableMetadata};
use crate::text::{decimal, decimal_of, signed_decimal, signed_decimal_of};

verus! {

broadcast use vstd::std_specs::hash::group_hash_axioms;

/// How many entries a manifest holds, where nothing else is said.
pub const DEFAULT_TARGET_ENTRIES: usize = 1000;

/// How often a commit of rewritten manifests is tried.
pub const MAX_ATTEMPTS: u32 = 5;

/// Rewrites the manifests of a table.
pub struct RewriteManifestsAction {
    pub target_entries_per_manifest: usize,
    /// Whether manifests that cannot be read are left out, with what they list.
    pub skip_missing_manifests: bool,
}

impl TransactionAction for RewriteManifestsAction {}

/// The manifests of `list` with the content `content`, in their order.
pub open spec fn of_content(list: Seq<ManifestFile>, content: ManifestContentType) -> Seq<ManifestFile> {
    list.filter(|mf: ManifestFile| mf.content == content)
}

/// The manifests of a snapshot by content.
pub struct SplitManifests {
    pub data: Vec<ManifestFile>,
    pub deletes: Vec<ManifestFile>,
}

/// Parts the manifests of a snapshot by content.
pub fn split_manifests(list: Vec<ManifestFile>) -> (r: SplitManifests)
    ensures
        r.data@ == of_content(list@, ManifestContentType::Data),
        r.deletes@ == of_content(list@, ManifestContentType::Deletes),
{
    let ghost all = list@;
    let ghost is_data = |mf: ManifestFile| mf.content == ManifestContentType::Data;
    let ghost is_delete = |mf: ManifestFile| mf.content == ManifestContentType::Deletes;
    let mut data: Vec<ManifestFile> = Vec::new();
    let mut deletes: Vec<ManifestFile> = Vec::new();
    for mf in iter: list
        invariant
            iter.seq() == all,
            is_data == (|mf: ManifestFile| mf.content == ManifestContentType::Data),
            is_delete == (|mf: ManifestFile| mf.content == ManifestContentType::Deletes),
            data@ == all.take(iter.index() as int).filter(is_data),
            deletes@ == all.take(iter.index() as int).filter(is_delete),
    {
        proof {
            lemma_take_push(all, iter.index() as int);
            lemma_filter_push(all.take(iter.index() as int), mf, is_data);
            lemma_filter_push(all.take(iter.index() as int), mf, is_delete);
        }
        match mf.content {
            ManifestContentType::Data => {
                data.push(mf);
            },
            ManifestContentType::Deletes => {
                deletes.push(mf);
            },
        }
    }
    assert(all.take(all.len() as int) =~= all);
    SplitManifests { data, deletes }
}

/// Entries that are collected by partition spec.
pub struct BufferView {
    /// The specs, in the order they first came up.
    pub order: Seq<i32>,
    pub buffers: Map<i32, Seq<ManifestEntry>>,
}

/// Entries that go into one manifest.
pub struct FlushView {
    pub spec_id: i32,
    pub entries: Seq<ManifestEntry>,
}

/// What is collected for the spec `id`.
pub open spec fn buffered(v: BufferView, id: i32) -> Seq<ManifestEntry> {
    if v.buffers.contains_key(id) {
        v.buffers[id]
    } else {
        Seq::empty()
    }
}

/// Whether `n` entries fill a manifest.
pub open spec fn fills(n: nat, limit: Option<usize>) -> bool {
    limit matches Some(l) && n >= l
}

/// What is collected once the live entry `e` is.
pub open spec fn collected(v: BufferView, e: ManifestEntry, limit: Option<usize>) -> BufferView {
    let id = e.data_file.partition_spec_id;
    let b = buffered(v, id).push(e);
    BufferView {
        order: if v.order.contains(id) {
            v.order
        } else {
            v.order.push(id)
        },
        buffers: if fills(b.len(), limit) {
            v.buffers.remove(id)
        } else {
            v.buffers.insert(id, b)
        },
    }
}

/// What is collected once the first `n` of `entries` are seen.
pub open spec fn collected_all(
    v: BufferView,
    entries: Seq<ManifestEntry>,
    limit: Option<usize>,
    n: nat,
) -> BufferView
    decreases n,
{
    if n == 0 {
        v
    } else {
        let before = collected_all(v, entries, limit, (n - 1) as nat);
        if entries[n - 1].alive() {
            collected(before, entries[n - 1], limit)
        } else {
            before
        }
    }
}

/// The manifests that are full once the first `n` of `entries` are seen.
pub open spec fn filled(
    v: BufferView,
    entries: Seq<ManifestEntry>,
    limit: Option<usize>,
    n: nat,
) -> Seq<FlushView>
    decreases n,
{
    if n == 0 {
        Seq::empty()
    } else {
        let before = collected_all(v, entries, limit, (n - 1) as nat);
        let rest = filled(v, entries, limit, (n - 1) as nat);
        let e = entries[n - 1];
        let id = e.data_file.partition_spec_id;
        let b = buffered(before, id).push(e);
        if e.alive() && fills(b.len(), limit) {
            rest.push(FlushView { spec_id: id, entries: b })
        } else {
            rest
        }
    }
}

/// `s` cut into pieces of `n`, the last of which may be shorter.
pub open spec fn chunks(s: Seq<ManifestEntry>, n: int) -> Seq<Seq<ManifestEntry>>
    decreases s.len(),
{
    if s.len() == 0 || n <= 0 {
        Seq::empty()
    } else if s.len() <= n {
        seq![s]
    } else {
        seq![s.take(n)] + chunks(s.skip(n), n)
    }
}

/// The manifests of the spec `id` that hold `entries`, `n` in each.
pub open spec fn cut(id: i32, entries: Seq<ManifestEntry>, n: int) -> Seq<FlushView> {
    chunks(entries, n).map_values(|c: Seq<ManifestEntry>| FlushView { spec_id: id, entries: c })
}

/// The manifests that hold what is collected for the first `n` specs.
pub open spec fn left_over(v: BufferView, target: int, n: nat) -> Seq<FlushView>
    decreases n,
{
    if n == 0 {
        Seq::empty()
    } else {
        let id = v.order[n - 1];
        left_over(v, target, (n - 1) as nat) + cut(id, buffered(v, id), target)
    }
}

/// How many entries are collected for the first `n` specs.
pub open spec fn buffered_total(v: BufferView, n: nat) -> nat
    decreases n,
{
    if n == 0 {
        0
    } else {
        buffered_total(v, (n - 1) as nat) + buffered(v, v.order[n - 1]).len()
    }
}

/// More specs hold no fewer entries.
pub proof fn lemma_total_grows(v: BufferView, m: nat, n: nat)
    requires
        m <= n <= v.order.len(),
    ensures
        buffered_total(v, m) <= buffered_total(v, n),
    decreases n,
{
    if m < n {
        lemma_total_grows(v, m, (n - 1) as nat);
    }
}

/// A manifest to write.
pub struct ManifestFlush {
    pub path: String,
    pub parquet: bool,
    pub spec_id: i32,
    pub kind: ManifestWriterKind,
    pub entries: Vec<ManifestEntry>,
}

/// Whether `w` is the manifest number `n` of the commit `commit_id` on `table` for `f`, its entries
/// carried over with their history.
pub open spec fn flushes(
    w: ManifestFlush,
    f: FlushView,
    table: TableMetadata,
    commit_id: u128,
    n: int,
) -> bool {
    &&& w.path@ == manifest_path(
        table.location@,
        commit_id,
        n as u64,
        extension(parquet_manifests(table)),
    )
    &&& w.parquet == parquet_manifests(table)
    &&& w.spec_id == f.spec_id
    &&& w.kind == writer_kind_spec(table.format_version, false)
    &&& w.entries@ == restamped_all(f.entries)
}

/// Whether `ws` are the manifests of `fs`, numbered from `first`.
pub open spec fn flushes_all(
    ws: Seq<ManifestFlush>,
    fs: Seq<FlushView>,
    table: TableMetadata,
    commit_id: u128,
    first: int,
) -> bool {
    &&& ws.len() == fs.len()
    &&& forall|i: int|
        0 <= i < ws.len() ==> flushes(#[trigger] ws[i], fs[i], table, commit_id, first + i)
}

/// Whether `table` has the partition specs of all of `fs`.
pub open spec fn has_specs(fs: Seq<FlushView>, table: TableMetadata) -> bool {
    forall|i: int| 0 <= i < fs.len() ==> table.spec_by_id((#[trigger] fs[i]).spec_id) is Some
}

/// A rewrite of manifests: live entries are collected by partition spec.
pub struct ManifestCompaction {
    order: Vec<i32>,
    buffers: HashMap<i32, Vec<ManifestEntry>>,
    commit_id: u128,
    written: u64,
}

impl View for ManifestCompaction {
    type V = BufferView;

    closed spec fn view(&self) -> BufferView {
        BufferView {
            order: self.order@,
            buffers: self.buffers@.map_values(|b: Vec<ManifestEntry>| b@),
        }
    }
}

fn contains_id(ids: &Vec<i32>, id: i32) -> (r: bool)
    ensures
        r == ids@.contains(id),
{
    let mut i: usize = 0;
    while i < ids.len()
        invariant
            i <= ids@.len(),
            forall|k: int| 0 <= k < i ==> ids@[k] != id,
        decreases ids@.len() - i,
    {
        if ids[i] == id {
            return true;
        }
        i = i + 1;
    }
    false
}

fn flush_of(table: &TableMetadata, commit_id: u128, n: u64, spec_id: i32, entries: Vec<ManifestEntry>) -> (r:
    ManifestFlush)
    ensures
        flushes(r, (FlushView { spec_id, entries: entries@ }), *table, commit_id, n as int),
{
    let parquet = writes_parquet_manifests(table);
    let ext = if parquet {
        "parquet"
    } else {
        "avro"
    };
    ManifestFlush {
        path: manifest_path_of(table.location.as_str(), commit_id, n, ext),
        parquet,
        spec_id,
        kind: writer_kind(table.format_version, false),
        entries: restamp_all(entries),
    }
}

impl ManifestCompaction {
    /// The id that the manifests are named by.
    pub closed spec fn id(&self) -> u128 {
        self.commit_id
    }

    /// How many manifests are written so far.
    pub closed spec fn written(&self) -> u64 {
        self.written
    }

    /// Whether no spec came up twice.
    pub closed spec fn wf(&self) -> bool {
        self.order@.no_duplicates()
    }

    /// Starts a rewrite under the id `commit_id`.
    pub fn with_id(commit_id: u128) -> (r: Self)
        ensures
            r.wf(),
            r@.order == Seq::<i32>::empty(),
            r@.buffers == Map::<i32, Seq<ManifestEntry>>::empty(),
            r.id() == commit_id,
            r.written() == 0,
    {
        let r = ManifestCompaction {
            order: Vec::new(),
            buffers: HashMap::new(),
            commit_id,
            written: 0,
        };
        assert(r@.buffers =~= Map::<i32, Seq<ManifestEntry>>::empty());
        r
    }

    /// Starts a rewrite under a fresh id.
    pub fn new() -> (r: Self)
        ensures
            r.wf(),
            r@.order == Seq::<i32>::empty(),
            r@.buffers == Map::<i32, Seq<ManifestEntry>>::empty(),
            is_time_ordered(r.id()),
            r.written() == 0,
    {
        ManifestCompaction::with_id(fresh_id())
    }

    /// The id that the manifests are named by.
    pub fn commit_id(&self) -> (r: u128)
        ensures
            r == self.id(),
    {
        self.commit_id
    }

    /// Whether the manifests for `n` more entries can be numbered.
    pub fn can_take(&self, n: usize) -> (r: bool)
        ensures
            r == (self.written() + n <= u64::MAX),
    {
        self.written as u128 + n as u128 <= u64::MAX as u128
    }

    /// Whether what is still collected can be cut into manifests of `target` entries, and these be
    /// numbered: no manifest can hold zero entries.
    pub fn can_finish(&self, target: usize) -> (r: bool)
        requires
            self.wf(),
        ensures
            r == ((target > 0 || buffered_total(self@, self@.order.len()) == 0) && self.written()
                + buffered_total(self@, self@.order.len()) <= u64::MAX),
            r ==> target > 0 || forall|k: int|
                0 <= k < self@.order.len() ==> buffered(self@, #[trigger] self@.order[k]).len() == 0,
    {
        let mut total: u128 = 0;
        let mut i: usize = 0;
        while i < self.order.len()
            invariant
                i <= self.order@.len(),
                total == buffered_total(self@, i as nat),
                total <= u64::MAX,
            decreases self.order@.len() - i,
        {
            let id: i32 = self.order[i];
            let n: usize = match self.buffers.get(&id) {
                Some(b) => b.len(),
                None => 0,
            };
            assert(n == buffered(self@, id).len());
            proof {
                lemma_total_grows(self@, (i + 1) as nat, self@.order.len());
            }
            total = total + n as u128;
            if total > u64::MAX as u128 {
                return false;
            }
            i = i + 1;
        }
        proof {
            if total == 0 {
                assert forall|k: int| 0 <= k < self@.order.len() implies buffered(
                    self@,
                    #[trigger] self@.order[k],
                ).len() == 0 by {
                    lemma_total_grows(self@, (k + 1) as nat, self@.order.len());
                }
            }
        }
        (target > 0 || total == 0) && self.written as u128 + total <= u64::MAX as u128
    }

    /// Collects the entry `e`, and takes out what is collected for its spec where that fills a
    /// manifest.
    fn collect(&mut self, e: ManifestEntry, limit: Option<usize>) -> (r: Option<Vec<ManifestEntry>>)
        requires
            old(self).wf(),
        ensures
            final(self).wf(),
            final(self)@ == collected(old(self)@, e, limit),
            final(self).id() == old(self).id(),
            final(self).written() == old(self).written(),
            ({
                let b = buffered(old(self)@, e.data_file.partition_spec_id).push(e);
                match r {
                    Some(full) => full@ == b && fills(b.len(), limit),
                    None => !fills(b.len(), limit),
                }
            }),
    {
        let ghost before = *self;
        let ghost entry = e;
        let id: i32 = e.data_file.partition_spec_id;
        if !contains_id(&self.order, id) {
            self.order.push(id);
        }
        let mut b: Vec<ManifestEntry> = match self.buffers.remove(&id) {
            Some(b) => b,
            None => Vec::new(),
        };
        let ghost without = self.buffers@;
        assert(without =~= before.buffers@.remove(id));
        assert(b@ =~= buffered(before@, id));
        b.push(e);
        let full = match limit {
            Some(l) => b.len() >= l,
            None => false,
        };
        let ghost view = b@;
        if full {
            assert(self@.buffers =~= before@.buffers.remove(id));
            Some(b)
        } else {
            self.buffers.insert(id, b);
            assert(self@.buffers =~= before@.buffers.insert(id, view));
            None
        }
    }

    /// Takes in the entries of a manifest, and returns the manifests to write that are full now.
    /// Fails where the table lacks the partition spec of one.
    pub fn add_manifest(
        &mut self,
        entries: &[ManifestEntry],
        table: &TableMetadata,
        limit: Option<usize>,
    ) -> (r: Result<Vec<ManifestFlush>, Error>)
        requires
            old(self).wf(),
            old(self).written() + entries@.len() <= u64::MAX,
        ensures
            final(self).wf(),
            final(self).id() == old(self).id(),
            ({
                let full = filled(old(self)@, entries@, limit, entries@.len());
                &&& r is Ok <==> has_specs(full, *table)
                &&& r is Err ==> exists|i: int|
                    0 <= i < full.len() && table.spec_by_id((#[trigger] full[i]).spec_id) is None
                        && r->Err_0.says(
                        ErrorKind::DataInvalid,
                        spec_not_found_message(full[i].spec_id),
                    )
                &&& r is Ok ==> {
                    &&& flushes_all(
                        r->Ok_0@,
                        full,
                        *table,
                        old(self).id(),
                        old(self).written() as int,
                    )
                    &&& final(self)@ == collected_all(old(self)@, entries@, limit, entries@.len())
                    &&& final(self).written() == old(self).written() + full.len()
                }
            }),
    {
        let ghost start = *self;
        let mut ws: Vec<ManifestFlush> = Vec::new();
        let mut i: usize = 0;
        while i < entries.len()
            invariant
                i <= entries@.len(),
                self.wf(),
                start == *old(self),
                self.id() == start.id(),
                self@ == collected_all(start@, entries@, limit, i as nat),
                flushes_all(
                    ws@,
                    filled(start@, entries@, limit, i as nat),
                    *table,
                    start.id(),
                    start.written() as int,
                ),
                has_specs(filled(start@, entries@, limit, i as nat), *table),
                self.written() == start.written() + ws@.len(),
                ws@.len() <= i,
                start.written() + entries@.len() <= u64::MAX,
            decreases entries@.len() - i,
        {
            if entries[i].is_alive() {
                let ghost rest = filled(start@, entries@, limit, i as nat);
                let ghost next = filled(start@, entries@, limit, (i + 1) as nat);
                let spec_id: i32 = entries[i].data_file.partition_spec_id;
                if let Some(full) = self.collect(entries[i].clone(), limit) {
                    assert(next == rest.push(FlushView { spec_id, entries: full@ }));
                    assert(next[rest.len() as int].spec_id == spec_id);
                    if table.partition_spec_by_id(spec_id).is_none() {
                        proof {
                            lemma_filled_grows(start@, entries@, limit, (i + 1) as nat, entries@.len());
                            let all = filled(start@, entries@, limit, entries@.len());
                            assert(all[rest.len() as int] == next[rest.len() as int]);
                        }
                        return Err(spec_not_found(spec_id));
                    }
                    let ghost before = ws@;
                    ws.push(flush_of(table, self.commit_id, self.written, spec_id, full));
                    self.written = self.written + 1;
                    proof {
                        assert forall|k: int| 0 <= k < ws@.len() implies flushes(
                            #[trigger] ws@[k],
                            next[k],
                            *table,
                            start.id(),
                            start.written() + k,
                        ) by {
                            if k < before.len() {
                                assert(ws@[k] == before[k]);
                                assert(next[k] == rest[k]);
                            }
                        }
                        assert forall|k: int| 0 <= k < next.len() implies table.spec_by_id(
                            (#[trigger] next[k]).spec_id,
                        ) is Some by {
                            if k < rest.len() {
                                assert(next[k] == rest[k]);
                            }
                        }
                    }
                }
            }
            i = i + 1;
        }
        Ok(ws)
    }
}

proof fn lemma_filled_grows(
    v: BufferView,
    entries: Seq<ManifestEntry>,
    limit: Option<usize>,
    n: nat,
    m: nat,
)
    requires
        n <= m,
    ensures
        filled(v, entries, limit, n).is_prefix_of(filled(v, entries, limit, m)),
    decreases m,
{
    if n < m {
        lemma_filled_grows(v, entries, limit, n, (m - 1) as nat);
    }
}

/// The entries of each piece.
pub open spec fn pieces(cs: Seq<Vec<ManifestEntry>>) -> Seq<Seq<ManifestEntry>> {
    cs.map_values(|c: Vec<ManifestEntry>| c@)
}

fn cut_up(entries: Vec<ManifestEntry>, n: usize) -> (r: Vec<Vec<ManifestEntry>>)
    requires
        n > 0,
    ensures
        pieces(r@) == chunks(entries@, n as int),
        r@.len() <= entries@.len(),
{
    let ghost all = entries@;
    let mut r: Vec<Vec<ManifestEntry>> = Vec::new();
    let mut rest = entries;
    assert(pieces(r@) + chunks(rest@, n as int) =~= chunks(all, n as int));
    while rest.len() > n
        invariant
            n > 0,
            pieces(r@) + chunks(rest@, n as int) == chunks(all, n as int),
            r@.len() + rest@.len() <= all.len(),
        decreases rest@.len(),
    {
        let ghost whole = rest@;
        let ghost before = r@;
        let tail = rest.split_off(n);
        assert(rest@ =~= whole.take(n as int));
        assert(tail@ =~= whole.skip(n as int));
        let ghost head = rest@;
        r.push(rest);
        assert(pieces(r@) =~= pieces(before).push(head));
        assert(pieces(r@) + chunks(tail@, n as int) =~= pieces(before) + (seq![head] + chunks(
            tail@,
            n as int,
        )));
        rest = tail;
    }
    if rest.len() > 0 {
        let ghost before = r@;
        let ghost last = rest@;
        r.push(rest);
        assert(pieces(r@) =~= pieces(before) + seq![last]);
    } else {
        assert(pieces(r@) =~= pieces(r@) + Seq::<Seq<ManifestEntry>>::empty());
    }
    r
}

proof fn lemma_left_over_grows(v: BufferView, target: int, n: nat, m: nat)
    requires
        n <= m,
    ensures
        left_over(v, target, n).is_prefix_of(left_over(v, target, m)),
    decreases m,
{
    if n < m {
        lemma_left_over_grows(v, target, n, (m - 1) as nat);
    }
}

proof fn lemma_buffered_total_grows(v: BufferView, n: nat, m: nat)
    requires
        n <= m,
    ensures
        buffered_total(v, n) <= buffered_total(v, m),
    decreases m,
{
    if n < m {
        lemma_buffered_total_grows(v, n, (m - 1) as nat);
    }
}

impl ManifestCompaction {
    /// The manifests to write for what is still collected, `target` entries in each; or a
    /// partition spec that the table lacks.
    fn left(self, table: &TableMetadata, target: usize) -> (r: Result<Vec<ManifestFlush>, i32>)
        requires
            self.wf(),
            target > 0 || forall|k: int|
                0 <= k < self@.order.len() ==> buffered(self@, #[trigger] self@.order[k]).len() == 0,
            self.written() + buffered_total(self@, self@.order.len()) <= u64::MAX,
        ensures
            ({
                let fs = left_over(self@, target as int, self@.order.len());
                &&& r is Ok <==> has_specs(fs, *table)
                &&& r is Err ==> exists|i: int|
                    0 <= i < fs.len() && (#[trigger] fs[i]).spec_id == r->Err_0
                        && table.spec_by_id(r->Err_0) is None
                &&& r is Ok ==> flushes_all(
                    r->Ok_0@,
                    fs,
                    *table,
                    self.id(),
                    self.written() as int,
                )
            }),
    {
        let ghost v = self@;
        let ghost total = v.order.len();
        let ghost first = self.written() as int;
        let ghost id_of = self.id();
        let commit_id: u128 = self.commit_id;
        let mut written: u64 = self.written;
        let order = self.order;
        let mut buffers = self.buffers;
        let mut ws: Vec<ManifestFlush> = Vec::new();
        let mut k: usize = 0;
        while k < order.len()
            invariant
                k <= order@.len(),
                order@ == v.order,
                order@.no_duplicates(),
                total == v.order.len(),
                commit_id == id_of,
                id_of == self.id(),
                first == self.written(),
                v == self@,
                target > 0 || forall|k: int|
                    0 <= k < v.order.len() ==> buffered(v, #[trigger] v.order[k]).len() == 0,
                first + buffered_total(v, total) <= u64::MAX,
                written == first + ws@.len(),
                ws@.len() <= buffered_total(v, k as nat),
                forall|m: int|
                    k <= m < order@.len() ==> (buffers@.contains_key(#[trigger] order@[m])
                        <==> v.buffers.contains_key(order@[m])) && (buffers@.contains_key(order@[m])
                        ==> buffers@[order@[m]]@ == v.buffers[order@[m]]),
                flushes_all(ws@, left_over(v, target as int, k as nat), *table, id_of, first),
                has_specs(left_over(v, target as int, k as nat), *table),
            decreases order@.len() - k,
        {
            let spec_id: i32 = order[k];
            let ghost map_before = buffers@;
            let b: Vec<ManifestEntry> = match buffers.remove(&spec_id) {
                Some(b) => b,
                None => Vec::new(),
            };
            assert(buffers@ =~= map_before.remove(spec_id));
            assert(b@ =~= buffered(v, spec_id));
            let ghost rest = left_over(v, target as int, k as nat);
            let ghost fs = cut(spec_id, b@, target as int);
            let ghost next = left_over(v, target as int, (k + 1) as nat);
            assert(next == rest + fs);
            proof {
                lemma_buffered_total_grows(v, (k + 1) as nat, total);
                lemma_left_over_grows(v, target as int, (k + 1) as nat, total);
            }
            if b.len() > 0 {
                let ghost entries = b@;
                let cs = cut_up(b, target);
                let ghost all = pieces(cs@);
                assert(all == chunks(entries, target as int));
                assert(fs.len() == all.len() && all.len() > 0);
                if table.partition_spec_by_id(spec_id).is_none() {
                    proof {
                        assert(fs[0].spec_id == spec_id);
                        assert(next[rest.len() as int] == fs[0]);
                        let whole = left_over(v, target as int, total);
                        assert(whole[rest.len() as int] == next[rest.len() as int]);
                    }
                    return Err(spec_id);
                }
                let ghost base = ws@;
                for c in iter: cs
                    invariant
                        iter.seq().map_values(|c: Vec<ManifestEntry>| c@) == all,
                        iter.seq().len() == all.len(),
                        fs == all.map_values(
                            |c: Seq<ManifestEntry>| FlushView { spec_id, entries: c },
                        ),
                        next == rest + fs,
                        base.len() == rest.len(),
                        ws@.len() == base.len() + iter.index(),
                        written == first + ws@.len(),
                        commit_id == id_of,
                        first + base.len() + all.len() <= u64::MAX,
                        forall|i: int|
                            0 <= i < ws@.len() ==> flushes(
                                #[trigger] ws@[i],
                                next[i],
                                *table,
                                id_of,
                                first + i,
                            ),
                {
                    let ghost before = ws@;
                    let ghost n = iter.index() as int;
                    proof {
                        assert(all[n] == c@);
                        assert(next[base.len() + n] == fs[n]);
                    }
                    ws.push(flush_of(table, commit_id, written, spec_id, c));
                    written = written + 1;
                    assert forall|i: int| 0 <= i < ws@.len() implies flushes(
                        #[trigger] ws@[i],
                        next[i],
                        *table,
                        id_of,
                        first + i,
                    ) by {
                        if i < before.len() {
                            assert(ws@[i] == before[i]);
                        }
                    }
                }
                assert forall|i: int| 0 <= i < next.len() implies table.spec_by_id(
                    (#[trigger] next[i]).spec_id,
                ) is Some by {
                    if i < rest.len() {
                        assert(next[i] == rest[i]);
                    } else {
                        assert(next[i] == fs[i - rest.len()]);
                    }
                }
            } else {
                assert(fs =~= Seq::<FlushView>::empty());
                assert(next =~= rest);
            }
            proof {
                assert forall|m: int| k + 1 <= m < order@.len() implies (buffers@.contains_key(
                    #[trigger] order@[m],
                ) <==> v.buffers.contains_key(order@[m])) && (buffers@.contains_key(order@[m])
                    ==> buffers@[order@[m]]@ == v.buffers[order@[m]]) by {
                    assert(order@[m] != order@[k as int]);
                }
            }
            k = k + 1;
        }
        Ok(ws)
    }

    /// The manifests to write for what is still collected, `target` entries in each. Fails where
    /// the table lacks the partition spec of one.
    pub fn finish(self, table: &TableMetadata, target: usize) -> (r: Result<
        Vec<ManifestFlush>,
        Error,
    >)
        requires
            self.wf(),
            target > 0 || forall|k: int|
                0 <= k < self@.order.len() ==> buffered(self@, #[trigger] self@.order[k]).len() == 0,
            self.written() + buffered_total(self@, self@.order.len()) <= u64::MAX,
        ensures
            ({
                let fs = left_over(self@, target as int, self@.order.len());
                &&& r is Ok <==> has_specs(fs, *table)
                &&& r is Err ==> exists|i: int|
                    0 <= i < fs.len() && table.spec_by_id((#[trigger] fs[i]).spec_id) is None
                        && r->Err_0.says(
                        ErrorKind::DataInvalid,
                        spec_not_found_message(fs[i].spec_id),
                    )
                &&& r is Ok ==> flushes_all(
                    r->Ok_0@,
                    fs,
                    *table,
                    self.id(),
                    self.written() as int,
                )
            }),
    {
        match self.left(table, target) {
            Ok(ws) => Ok(ws),
            Err(spec_id) => Err(spec_not_found(spec_id)),
        }
    }

    /// The manifests to write for all that was collected, in a rewrite that is committed within a
    /// transaction. Fails where the table lacks the partition spec of one.
    pub fn finish_at_once(self, table: &TableMetadata, target: usize) -> (r: Result<
        Vec<ManifestFlush>,
        Error,
    >)
        requires
            self.wf(),
            target > 0 || forall|k: int|
                0 <= k < self@.order.len() ==> buffered(self@, #[trigger] self@.order[k]).len() == 0,
            self.written() + buffered_total(self@, self@.order.len()) <= u64::MAX,
        ensures
            ({
                let fs = left_over(self@, target as int, self@.order.len());
                &&& r is Ok <==> has_specs(fs, *table)
                &&& r is Err ==> exists|i: int|
                    0 <= i < fs.len() && table.spec_by_id((#[trigger] fs[i]).spec_id) is None
                        && r->Err_0.says(
                        ErrorKind::DataInvalid,
                        spec_not_found_message(fs[i].spec_id) + " in table metadata"@,
                    )
                &&& r is Ok ==> flushes_all(
                    r->Ok_0@,
                    fs,
                    *table,
                    self.id(),
                    self.written() as int,
                )
            }),
    {
        match self.left(table, target) {
            Ok(ws) => Ok(ws),
            Err(spec_id) => {
                let mut message = spec_not_found(spec_id).message().to_owned();
                message.append(" in table metadata");
                Err(Error::new(ErrorKind::DataInvalid, message))
            },
        }
    }
}

/// The path of a manifest list.
pub open spec fn manifest_list_path(location: Seq<char>, snapshot_id: i64, commit_id: u128) -> Seq<
    char,
> {
    location + "/metadata/snap-"@ + signed_decimal(snapshot_id as int) + "-0-"@ + id_text(commit_id)
        + ".avro"@
}

/// Names a manifest list.
pub fn manifest_list_path_of(location: &str, snapshot_id: i64, commit_id: u128) -> (r: String)
    ensures
        r@ == manifest_list_path(location@, snapshot_id, commit_id),
{
    let mut r = location.to_owned();
    r.append("/metadata/snap-");
    r.append(signed_decimal_of(snapshot_id).as_str());
    r.append("-0-");
    r.append(id_text_of(commit_id).as_str());
    r.append(".avro");
    r
}

/// What a rewrite counts.
pub struct RewriteCounts {
    /// The data manifests at the start.
    pub data_manifests: usize,
    /// The data manifests that were written.
    pub new_manifests: usize,
    /// All manifests at the start.
    pub starting_manifests: usize,
    /// All manifests at the time of the commit.
    pub fresh_manifests: usize,
    pub attempt: u32,
}

/// The summary of a rewrite's snapshot.
pub open spec fn rewrite_summary(c: RewriteCounts) -> Map<Seq<char>, Seq<char>> {
    Map::empty().insert("rewritten-data-manifests-count"@, decimal(c.data_manifests as nat)).insert(
        "new-data-manifests-count"@,
        decimal(c.new_manifests as nat),
    ).insert(
        "new-manifests-since-rewrite"@,
        decimal(
            if c.fresh_manifests >= c.starting_manifests {
                (c.fresh_manifests - c.starting_manifests) as nat
            } else {
                0
            },
        ),
    ).insert("attempt"@, decimal(c.attempt as nat))
}

/// The summary of a rewrite's snapshot that is committed within a transaction.
pub open spec fn rewrite_at_once_summary(data_manifests: nat, new_manifests: nat, all_manifests: nat) -> Map<
    Seq<char>,
    Seq<char>,
> {
    Map::empty().insert("rewritten-data-manifests-count"@, decimal(data_manifests)).insert(
        "new-data-manifests-count"@,
        decimal(new_manifests),
    ).insert("total-original-manifests"@, decimal(all_manifests))
}

/// What an attempt at a commit is followed by.
#[derive(Clone, Copy, Debug, PartialEq, Eq, Structural)]
pub enum NextAttempt {
    /// The table is read again, and the commit tried again.
    Retry,
    Fail,
}

impl RewriteManifestsAction {
    /// A rewrite with the default settings.
    pub fn new() -> (r: Self)
        ensures
            r.target_entries_per_manifest == DEFAULT_TARGET_ENTRIES,
            !r.skip_missing_manifests,
    {
        RewriteManifestsAction {
            target_entries_per_manifest: DEFAULT_TARGET_ENTRIES,
            skip_missing_manifests: false,
        }
    }

    /// Puts `n` entries into a manifest.
    pub fn target_entries_per_manifest(self, n: usize) -> (r: Self)
        ensures
            r == (RewriteManifestsAction { target_entries_per_manifest: n, ..self }),
    {
        let mut r = self;
        r.target_entries_per_manifest = n;
        r
    }

    /// Leaves out manifests that cannot be read, or not.
    pub fn skip_missing_manifests(self, skip: bool) -> (r: Self)
        ensures
            r == (RewriteManifestsAction { skip_missing_manifests: skip, ..self }),
    {
        let mut r = self;
        r.skip_missing_manifests = skip;
        r
    }

    /// The snapshot whose manifests are rewritten. Fails where the table has none.
    pub fn starting_snapshot<'a>(&self, table: &'a TableMetadata) -> (r: Result<&'a Snapshot, Error>)
        ensures
            r is Ok <==> table.current() is Some,
            r is Ok ==> table.current() == Some(*r->Ok_0),
            r is Err ==> r->Err_0.says(
                ErrorKind::DataInvalid,
                "Cannot rewrite manifests: table has no current snapshot"@,
            ),
    {
        match table.current_snapshot() {
            Some(s) => Ok(s),
            None => Err(
                Error::new(
                    ErrorKind::DataInvalid,
                    "Cannot rewrite manifests: table has no current snapshot".to_owned(),
                ),
            ),
        }
    }

    /// The snapshot that the rewritten manifests are merged with. Fails where the table has none.
    pub fn fresh_snapshot<'a>(&self, table: &'a TableMetadata) -> (r: Result<&'a Snapshot, Error>)
        ensures
            r is Ok <==> table.current() is Some,
            r is Ok ==> table.current() == Some(*r->Ok_0),
            r is Err ==> r->Err_0.says(
                ErrorKind::DataInvalid,
                "Table has no current snapshot during merge phase"@,
            ),
    {
        match table.current_snapshot() {
            Some(s) => Ok(s),
            None => Err(
                Error::new(
                    ErrorKind::DataInvalid,
                    "Table has no current snapshot during merge phase".to_owned(),
                ),
            ),
        }
    }

    /// What becomes of a manifest that cannot be read for `error`: it is left out, or the rewrite
    /// fails with the error.
    pub fn unreadable(&self, error: Error) -> (r: Result<(), Error>)
        ensures
            r == if self.skip_missing_manifests {
                Ok::<(), Error>(())
            } else {
                Err(error)
            },
    {
        if self.skip_missing_manifests {
            Ok(())
        } else {
            Err(error)
        }
    }

    /// What follows when attempt number `attempt`, counted from zero, failed with `error`.
    pub fn after_failure(&self, attempt: u32, error: &Error) -> (r: NextAttempt)
        ensures
            r == NextAttempt::Retry <==> error.retryable_spec() && attempt + 1 < MAX_ATTEMPTS,
    {
        if error.retryable() && attempt < MAX_ATTEMPTS - 1 {
            NextAttempt::Retry
        } else {
            NextAttempt::Fail
        }
    }

    /// The commit of rewritten manifests on top of `table` at the time `timestamp_ms`, with the
    /// manifest list at `manifest_list`.
    pub fn commit_at(
        &self,
        table: &TableMetadata,
        manifest_list: String,
        counts: &RewriteCounts,
        snapshot_id: i64,
        timestamp_ms: i64,
    ) -> (r: ActionCommit)
        requires
            table.has_next_sequence_number(),
        ensures
            replaces(
                r.updates(),
                r.requirements(),
                *table,
                snapshot_id,
                manifest_list@,
                rewrite_summary(*counts),
                timestamp_ms,
                None,
            ),
            r.manifest_paths() == Seq::<String>::empty(),
            r.root_entries() is None,
    {
        let since: usize = if counts.fresh_manifests >= counts.starting_manifests {
            counts.fresh_manifests - counts.starting_manifests
        } else {
            0
        };
        let mut summary = Properties::new();
        summary.insert(
            "rewritten-data-manifests-count".to_owned(),
            decimal_of(counts.data_manifests as u64),
        );
        summary.insert(
            "new-data-manifests-count".to_owned(),
            decimal_of(counts.new_manifests as u64),
        );
        summary.insert("new-manifests-since-rewrite".to_owned(), decimal_of(since as u64));
        summary.insert("attempt".to_owned(), decimal_of(counts.attempt as u64));
        replace_commit(table, snapshot_id, manifest_list, summary, timestamp_ms, None)
    }

    /// The commit, within a transaction, of `new_manifests` manifests rewritten from
    /// `data_manifests` of `all_manifests`, at the time `timestamp_ms`.
    pub fn commit_at_once_at(
        &self,
        table: &TableMetadata,
        manifest_list: String,
        data_manifests: usize,
        new_manifests: usize,
        all_manifests: usize,
        snapshot_id: i64,
        timestamp_ms: i64,
    ) -> (r: ActionCommit)
        requires
            table.has_next_sequence_number(),
        ensures
            replaces(
                r.updates(),
                r.requirements(),
                *table,
                snapshot_id,
                manifest_list@,
                rewrite_at_once_summary(
                    data_manifests as nat,
                    new_manifests as nat,
                    all_manifests as nat,
                ),
                timestamp_ms,
                None,
            ),
            r.manifest_paths() == Seq::<String>::empty(),
            r.root_entries() is None,
    {
        let mut summary = Properties::new();
        summary.insert(
            "rewritten-data-manifests-count".to_owned(),
            decimal_of(data_manifests as u64),
        );
        summary.insert("new-data-manifests-count".to_owned(), decimal_of(new_manifests as u64));
        summary.insert("total-original-manifests".to_owned(), decimal_of(all_manifests as u64));
        replace_commit(table, snapshot_id, manifest_list, summary, timestamp_ms, None)
    }
}

/// Whether the live entry `e` is collected, or in one of the manifests `full`.
pub open spec fn held(v: BufferView, full: Seq<FlushView>, e: ManifestEntry) -> bool {
    ||| buffered(v, e.data_file.partition_spec_id).contains(e)
    ||| exists|k: int|
        0 <= k < full.len() && (#[trigger] full[k]).spec_id == e.data_file.partition_spec_id
            && full[k].entries.contains(e)
}

/// A rewrite loses no live entry: each is still collected, or is in a manifest of its spec that is
/// written.
pub proof fn law_rewrite_holds_every_live_entry(
    v: BufferView,
    entries: Seq<ManifestEntry>,
    limit: Option<usize>,
    n: nat,
    i: int,
)
    requires
        0 <= i < n <= entries.len(),
        entries[i].alive(),
    ensures
        held(
            collected_all(v, entries, limit, n),
            filled(v, entries, limit, n),
            entries[i],
        ),
    decreases n,
{
    let before = collected_all(v, entries, limit, (n - 1) as nat);
    let rest = filled(v, entries, limit, (n - 1) as nat);
    let all = filled(v, entries, limit, n);
    let e = entries[n - 1];
    let id = e.data_file.partition_spec_id;
    let b = buffered(before, id).push(e);
    let x = entries[i];
    if i < n - 1 {
        law_rewrite_holds_every_live_entry(v, entries, limit, (n - 1) as nat, i);
        if exists|k: int|
            0 <= k < rest.len() && (#[trigger] rest[k]).spec_id == x.data_file.partition_spec_id
                && rest[k].entries.contains(x) {
            let k = choose|k: int|
                0 <= k < rest.len() && (#[trigger] rest[k]).spec_id
                    == x.data_file.partition_spec_id && rest[k].entries.contains(x);
            assert(all[k] == rest[k]);
        } else if e.alive() && id == x.data_file.partition_spec_id {
            let old_b = buffered(before, id);
            let k = choose|k: int| 0 <= k < old_b.len() && old_b[k] == x;
            assert(b[k] == x);
            if fills(b.len(), limit) {
                assert(all[rest.len() as int].entries == b);
            }
        }
    } else {
        assert(b[buffered(before, id).len() as int] == x);
        if fills(b.len(), limit) {
            assert(all[rest.len() as int].entries == b);
        }
    }
}

/// An entry that is collected is lost by no later manifest: it stays collected, or is in a manifest
/// of its spec that is written.
pub proof fn law_collected_entries_stay_held(
    v: BufferView,
    entries: Seq<ManifestEntry>,
    limit: Option<usize>,
    n: nat,
    e: ManifestEntry,
)
    requires
        n <= entries.len(),
        buffered(v, e.data_file.partition_spec_id).contains(e),
    ensures
        held(collected_all(v, entries, limit, n), filled(v, entries, limit, n), e),
    decreases n,
{
    if n > 0 {
        let before = collected_all(v, entries, limit, (n - 1) as nat);
        let rest = filled(v, entries, limit, (n - 1) as nat);
        let all = filled(v, entries, limit, n);
        let next = entries[n - 1];
        let id = e.data_file.partition_spec_id;
        law_collected_entries_stay_held(v, entries, limit, (n - 1) as nat, e);
        if exists|k: int|
            0 <= k < rest.len() && (#[trigger] rest[k]).spec_id == id && rest[k].entries.contains(
                e,
            ) {
            let k = choose|k: int|
                0 <= k < rest.len() && (#[trigger] rest[k]).spec_id == id
                    && rest[k].entries.contains(e);
            assert(all[k] == rest[k]);
        } else if next.alive() && next.data_file.partition_spec_id == id {
            let old_b = buffered(before, id);
            let b = old_b.push(next);
            let k = choose|k: int| 0 <= k < old_b.len() && old_b[k] == e;
            assert(b[k] == e);
            if fills(b.len(), limit) {
                assert(all[rest.len() as int].entries == b);
            }
        }
    }
}

/// Whether every spec that something is collected for has come up.
pub open spec fn specs_in_order(v: BufferView) -> bool {
    forall|id: i32| (#[trigger] buffered(v, id)).len() > 0 ==> v.order.contains(id)
}

/// Every spec that something is collected for has come up, whatever is collected next.
pub proof fn law_specs_stay_in_order(
    v: BufferView,
    entries: Seq<ManifestEntry>,
    limit: Option<usize>,
    n: nat,
)
    requires
        n <= entries.len(),
        specs_in_order(v),
    ensures
        specs_in_order(collected_all(v, entries, limit, n)),
    decreases n,
{
    if n > 0 {
        law_specs_stay_in_order(v, entries, limit, (n - 1) as nat);
        let before = collected_all(v, entries, limit, (n - 1) as nat);
        let after = collected_all(v, entries, limit, n);
        let next = entries[n - 1].data_file.partition_spec_id;
        assert forall|id: i32| (#[trigger] buffered(after, id)).len() > 0 implies after.order.contains(
            id,
        ) by {
            if entries[n - 1].alive() {
                if id == next && !before.order.contains(id) {
                    assert(after.order[before.order.len() as int] == id);
                } else {
                    assert(buffered(before, id).len() > 0 || id == next);
                    let k = choose|k: int| 0 <= k < before.order.len() && before.order[k] == id;
                    assert(after.order[k] == id);
                }
            }
        }
    }
}

/// Whatever is still collected at the end is written: each entry is in a manifest of its spec.
pub proof fn law_finish_writes_what_is_collected(v: BufferView, target: int, n: nat, e: ManifestEntry)
    requires
        target > 0,
        n <= v.order.len(),
        v.order.take(n as int).contains(e.data_file.partition_spec_id),
        buffered(v, e.data_file.partition_spec_id).contains(e),
    ensures
        exists|k: int|
            0 <= k < left_over(v, target, n).len() && (#[trigger] left_over(
                v,
                target,
                n,
            )[k]).spec_id == e.data_file.partition_spec_id && left_over(
                v,
                target,
                n,
            )[k].entries.contains(e),
    decreases n,
{
    let id = e.data_file.partition_spec_id;
    let head = v.order.take(n as int);
    let rest = left_over(v, target, (n - 1) as nat);
    let last = v.order[n - 1];
    let b = buffered(v, last);
    let all = left_over(v, target, n);
    if last == id {
        law_pieces_hold_everything(b, target);
        lemma_piece_with(b, target, e);
        let pieces = chunks(b, target);
        let k = choose|k: int| 0 <= k < pieces.len() && (#[trigger] pieces[k]).contains(e);
        assert(all[rest.len() + k] == (FlushView { spec_id: id, entries: pieces[k] }));
    } else {
        let j = choose|j: int| 0 <= j < head.len() && head[j] == id;
        assert(v.order.take(n - 1)[j] == id);
        law_finish_writes_what_is_collected(v, target, (n - 1) as nat, e);
        let k = choose|k: int|
            0 <= k < rest.len() && (#[trigger] rest[k]).spec_id == id && rest[k].entries.contains(e);
        assert(all[k] == rest[k]);
    }
}

proof fn lemma_piece_with(s: Seq<ManifestEntry>, n: int, e: ManifestEntry)
    requires
        n > 0,
        s.contains(e),
    ensures
        exists|k: int| 0 <= k < chunks(s, n).len() && (#[trigger] chunks(s, n)[k]).contains(e),
    decreases s.len(),
{
    let all = chunks(s, n);
    let i = choose|i: int| 0 <= i < s.len() && s[i] == e;
    if s.len() <= n {
        assert(all[0].contains(e));
    } else if i < n {
        assert(all[0] == s.take(n));
        assert(s.take(n)[i] == e);
        assert(all[0].contains(e));
    } else {
        assert(s.skip(n)[i - n] == e);
        lemma_piece_with(s.skip(n), n, e);
        let rest = chunks(s.skip(n), n);
        let k = choose|k: int| 0 <= k < rest.len() && (#[trigger] rest[k]).contains(e);
        assert(all[k + 1] == rest[k]);
    }
}

/// A manifest that is full holds the target number of entries, and never more.
pub proof fn law_full_manifests_hold_the_target(
    v: BufferView,
    entries: Seq<ManifestEntry>,
    target: usize,
    n: nat,
)
    requires
        n <= entries.len(),
        target > 0,
        forall|id: i32| (#[trigger] buffered(v, id)).len() < target,
    ensures
        forall|k: int|
            0 <= k < filled(v, entries, Some(target), n).len() ==> (#[trigger] filled(
                v,
                entries,
                Some(target),
                n,
            )[k]).entries.len() == target,
        forall|id: i32|
            (#[trigger] buffered(collected_all(v, entries, Some(target), n), id)).len() < target,
    decreases n,
{
    if n > 0 {
        law_full_manifests_hold_the_target(v, entries, target, (n - 1) as nat);
        let before = collected_all(v, entries, Some(target), (n - 1) as nat);
        let after = collected_all(v, entries, Some(target), n);
        let e = entries[n - 1];
        assert forall|id: i32| (#[trigger] buffered(after, id)).len() < target by {
            assert(buffered(before, id).len() < target);
            assert(buffered(before, e.data_file.partition_spec_id).len() < target);
        }
        let rest = filled(v, entries, Some(target), (n - 1) as nat);
        let all = filled(v, entries, Some(target), n);
        assert forall|k: int| 0 <= k < all.len() implies (#[trigger] all[k]).entries.len()
            == target by {
            assert(buffered(before, e.data_file.partition_spec_id).len() < target);
            if k < rest.len() {
                assert(all[k] == rest[k]);
            }
        }
    }
}

/// Cutting entries into pieces keeps them all in their order; no piece is empty, and none holds
/// more than asked for.
pub proof fn law_pieces_hold_everything(s: Seq<ManifestEntry>, n: int)
    requires
        n > 0,
    ensures
        chunks(s, n).flatten() == s,
        forall|k: int|
            0 <= k < chunks(s, n).len() ==> 0 < (#[trigger] chunks(s, n)[k]).len() <= n,
    decreases s.len(),
{
    let all = chunks(s, n);
    if s.len() == 0 {
        assert(all.flatten() =~= s);
    } else if s.len() <= n {
        assert(all.drop_first() =~= Seq::<Seq<ManifestEntry>>::empty());
        assert(all.first() == s);
        assert(all.drop_first().flatten() =~= Seq::<ManifestEntry>::empty());
        assert(all.flatten() =~= s);
    } else {
        let rest = s.skip(n);
        law_pieces_hold_everything(rest, n);
        assert(all.drop_first() =~= chunks(rest, n));
        assert(all.first() == s.take(n));
        assert(all.flatten() =~= s.take(n) + rest);
        assert(s.take(n) + rest =~= s);
        assert forall|k: int| 0 <= k < all.len() implies 0 < (#[trigger] all[k]).len() <= n by {
            if k > 0 {
                assert(all[k] == chunks(rest, n)[k - 1]);
            }
        }
    }
}

/// The manifests of a list are parted by content alone, each part in the order of the list.
pub proof fn law_manifests_are_parted_by_content(
    list: Seq<ManifestFile>,
    content: ManifestContentType,
) -> (places: Seq<int>)
    ensures
        stands_at(of_content(list, content), list, places),
        forall|i: int|
            0 <= i < list.len() ==> (places.contains(i) <==> (#[trigger] list[i]).content
                == content),
{
    let keep = |mf: ManifestFile| mf.content == content;
    lemma_filter_places(list, keep)
}

/// A manifest is full at its target, and without a target none ever is.
pub proof fn law_manifest_is_full_at_its_target(n: nat, target: usize)
    ensures
        fills(n, Some(target)) <==> n >= target,
        !fills(n, None),
{
}

/// An entry joins the buffer of its spec, behind what is there; where that fills the buffer, the
/// buffer is emptied. No other buffer changes, and a spec that comes up first is named last.
pub proof fn law_entry_joins_the_buffer_of_its_spec(
    v: BufferView,
    e: ManifestEntry,
    limit: Option<usize>,
    other: i32,
)
    ensures
        ({
            let id = e.data_file.partition_spec_id;
            let after = collected(v, e, limit);
            let full = limit is Some && buffered(v, id).len() + 1 >= limit->0;
            &&& !full ==> buffered(after, id) == buffered(v, id).push(e)
            &&& full ==> buffered(after, id).len() == 0
            &&& other != id ==> buffered(after, other) == buffered(v, other)
            &&& after.order.contains(id)
            &&& v.order.contains(id) ==> after.order == v.order
            &&& !v.order.contains(id) ==> after.order == v.order.push(id)
        }),
{
    let id = e.data_file.partition_spec_id;
    let after = collected(v, e, limit);
    if !v.order.contains(id) {
        assert(after.order[v.order.len() as int] == id);
    }
}

/// Every manifest that is written holds entries of its spec alone.
pub proof fn law_rewritten_manifests_are_of_one_spec(
    v: BufferView,
    entries: Seq<ManifestEntry>,
    limit: Option<usize>,
    n: nat,
)
    requires
        n <= entries.len(),
        forall|id: i32, k: int|
            0 <= k < buffered(v, id).len() ==> (
            #[trigger] buffered(v, id)[k]).data_file.partition_spec_id == id,
    ensures
        forall|id: i32, k: int|
            0 <= k < buffered(collected_all(v, entries, limit, n), id).len() ==> (
            #[trigger] buffered(
                collected_all(v, entries, limit, n),
                id,
            )[k]).data_file.partition_spec_id == id,
        forall|f: int, k: int|
            0 <= f < filled(v, entries, limit, n).len() && 0 <= k < filled(
                v,
                entries,
                limit,
                n,
            )[f].entries.len() ==> (#[trigger] filled(
                v,
                entries,
                limit,
                n,
            )[f].entries[k]).data_file.partition_spec_id == filled(v, entries, limit, n)[f].spec_id,
    decreases n,
{
    if n > 0 {
        law_rewritten_manifests_are_of_one_spec(v, entries, limit, (n - 1) as nat);
        let before = collected_all(v, entries, limit, (n - 1) as nat);
        let after = collected_all(v, entries, limit, n);
        let old = filled(v, entries, limit, (n - 1) as nat);
        let new = filled(v, entries, limit, n);
        let e = entries[n - 1];
        let own = e.data_file.partition_spec_id;
        assert forall|id: i32, k: int| 0 <= k < buffered(after, id).len() implies (
        #[trigger] buffered(after, id)[k]).data_file.partition_spec_id == id by {
            if e.alive() {
                law_entry_joins_the_buffer_of_its_spec(before, e, limit, id);
                if id == own {
                    let b = buffered(before, id);
                    if k < b.len() {
                        assert(buffered(after, id)[k] == b[k]);
                    } else {
                        assert(buffered(after, id)[k] == e);
                    }
                }
            }
        }
        assert forall|f: int, k: int|
            0 <= f < new.len() && 0 <= k < new[f].entries.len() implies (
        #[trigger] new[f].entries[k]).data_file.partition_spec_id == new[f].spec_id by {
            if f < old.len() {
                assert(new[f] == old[f]);
                assert(old[f].entries[k].data_file.partition_spec_id == old[f].spec_id);
            } else {
                let b = buffered(before, own);
                assert(new[f].entries == b.push(e));
                if k < b.len() {
                    assert(new[f].entries[k] == b[k]);
                }
            }
        }
    }
}

/// What is left over is cut into pieces of the target: all but the last hold just that many.
pub proof fn law_only_the_last_piece_is_smaller(s: Seq<ManifestEntry>, n: int, k: int)
    requires
        n > 0,
        0 <= k < chunks(s, n).len(),
    ensures
        k < chunks(s, n).len() - 1 ==> chunks(s, n)[k].len() == n,
        chunks(s, n)[k].len() <= n,
        forall|j: int|
            0 <= j < chunks(s, n)[k].len() ==> #[trigger] chunks(s, n)[k][j] == s[k * n + j],
        k * n + chunks(s, n)[k].len() <= s.len(),
    decreases s.len(),
{
    if s.len() > n {
        let rest = chunks(s.skip(n), n);
        let all = chunks(s, n);
        if k > 0 {
            law_only_the_last_piece_is_smaller(s.skip(n), n, k - 1);
            assert(all[k] == rest[k - 1]);
            assert((k - 1) * n + n == k * n) by (nonlinear_arith);
            assert forall|j: int| 0 <= j < all[k].len() implies #[trigger] all[k][j] == s[k * n + j] by {
                assert(rest[k - 1][j] == s.skip(n)[(k - 1) * n + j]);
            }
        } else {
            assert(all[0] == s.take(n));
            assert(0 * n == 0);
        }
    } else {
        assert(k == 0);
        assert(0 * n == 0);
    }
}

/// A manifest of a rewrite is a data manifest of the spec that it holds, in the format that the
/// table asks for, with its entries live and their history kept.
pub proof fn law_rewritten_manifest_keeps_the_history(
    w: ManifestFlush,
    f: FlushView,
    table: TableMetadata,
    commit_id: u128,
    n: int,
    k: int,
)
    requires
        flushes(w, f, table, commit_id, n),
        0 <= k < f.entries.len(),
    ensures
        w.spec_id == f.spec_id,
        w.entries@.len() == f.entries.len(),
        w.kind is V1 <==> table.format_version is V1,
        w.kind is V2Data <==> table.format_version is V2,
        w.kind is V3Data <==> table.format_version is V3 || table.format_version is V4,
        w.entries@[k].data_file == f.entries[k].data_file,
        w.entries@[k].status is Existing,
        f.entries[k].snapshot_id is Some ==> w.entries@[k].snapshot_id == f.entries[k].snapshot_id,
        f.entries[k].sequence_number is Some ==> w.entries@[k].sequence_number
            == f.entries[k].sequence_number,
        w.entries@[k].file_sequence_number == f.entries[k].file_sequence_number,
        w.parquet <==> (table.format_version is V2 || table.format_version is V3) && !(
        table.properties@.contains_key("write.parquet.metadata-codec"@)
            && crate::text::same_ignoring_case(
            table.properties@["write.parquet.metadata-codec"@],
            "avro"@,
        )),
        w.parquet ==> w.path@ == manifest_path(table.location@, commit_id, n as u64, "parquet"@),
        !w.parquet ==> w.path@ == manifest_path(table.location@, commit_id, n as u64, "avro"@),
{
    assert(restamped_all(f.entries)[k] == crate::manifest::restamped(f.entries[k]));
}

/// The summary of a rewrite says how many data manifests there were and are, how many manifests
/// came since it began, and which attempt it was.
pub proof fn law_rewrite_summary_says_what_was_done(c: RewriteCounts)
    ensures
        ({
            let m = rewrite_summary(c);
            &&& m.contains_key("rewritten-data-manifests-count"@)
            &&& m.contains_key("new-data-manifests-count"@)
            &&& m.contains_key("new-manifests-since-rewrite"@)
            &&& m.contains_key("attempt"@)
            &&& m["rewritten-data-manifests-count"@] == decimal(c.data_manifests as nat)
            &&& m["new-data-manifests-count"@] == decimal(c.new_manifests as nat)
            &&& c.fresh_manifests >= c.starting_manifests ==> m["new-manifests-since-rewrite"@]
                == decimal((c.fresh_manifests - c.starting_manifests) as nat)
            &&& c.fresh_manifests < c.starting_manifests ==> m["new-manifests-since-rewrite"@]
                == decimal(0)
            &&& m["attempt"@] == decimal(c.attempt as nat)
        }),
{
    reveal_strlit("rewritten-data-manifests-count");
    reveal_strlit("new-data-manifests-count");
    reveal_strlit("new-manifests-since-rewrite");
    reveal_strlit("attempt");
    assert("rewritten-data-manifests-count"@.len() != "new-data-manifests-count"@.len());
    assert("rewritten-data-manifests-count"@.len() != "new-manifests-since-rewrite"@.len());
    assert("rewritten-data-manifests-count"@.len() != "attempt"@.len());
    assert("new-data-manifests-count"@.len() != "new-manifests-since-rewrite"@.len());
    assert("new-data-manifests-count"@.len() != "attempt"@.len());
    assert("new-manifests-since-rewrite"@.len() != "attempt"@.len());
}

/// The summary of a rewrite that is committed at once says how many manifests there were and are.
pub proof fn law_rewrite_at_once_summary_says_what_was_done(data: nat, new: nat, all: nat)
    ensures
        ({
            let m = rewrite_at_once_summary(data, new, all);
            &&& m.contains_key("rewritten-data-manifests-count"@)
            &&& m.contains_key("new-data-manifests-count"@)
            &&& m.contains_key("total-original-manifests"@)
            &&& m["rewritten-data-manifests-count"@] == decimal(data)
            &&& m["new-data-manifests-count"@] == decimal(new)
            &&& m["total-original-manifests"@] == decimal(all)
        }),
{
    reveal_strlit("rewritten-data-manifests-count");
    reveal_strlit("new-data-manifests-count");
    reveal_strlit("total-original-manifests");
    assert("rewritten-data-manifests-count"@.len() != "new-data-manifests-count"@.len());
    assert("rewritten-data-manifests-count"@.len() != "total-original-manifests"@.len());
    assert("new-data-manifests-count"@[0] != "total-original-manifests"@[0]);
}

/// What is left over is written by spec, in the order in which the specs came up, in pieces of at
/// most the target, none of them empty.
pub proof fn law_left_over_is_cut_by_spec(v: BufferView, target: int, n: nat, k: int)
    requires
        target > 0,
        n <= v.order.len(),
        0 <= k < left_over(v, target, n).len(),
    ensures
        ({
            let f = left_over(v, target, n)[k];
            &&& 0 < f.entries.len() <= target
            &&& exists|i: int| 0 <= i < n && #[trigger] v.order[i] == f.spec_id
            &&& forall|j: int|
                0 <= j < f.entries.len() ==> buffered(v, f.spec_id).contains(
                    #[trigger] f.entries[j],
                )
        }),
    decreases n,
{
    let before = left_over(v, target, (n - 1) as nat);
    let all = left_over(v, target, n);
    if k < before.len() {
        law_left_over_is_cut_by_spec(v, target, (n - 1) as nat, k);
        assert(all[k] == before[k]);
    } else {
        let id = v.order[n - 1];
        let b = buffered(v, id);
        let m = k - before.len();
        let f = all[k];
        assert(f == cut(id, b, target)[m]);
        assert(f.entries == chunks(b, target)[m]);
        law_pieces_hold_everything(b, target);
        law_only_the_last_piece_is_smaller(b, target, m);
        assert forall|j: int| 0 <= j < f.entries.len() implies buffered(v, f.spec_id).contains(
            #[trigger] f.entries[j],
        ) by {
            assert(0 <= m * target) by (nonlinear_arith)
                requires
                    m >= 0,
                    target > 0,
            ;
            assert(b[m * target + j] == f.entries[j]);
        }
    }
}

/// No two rewrites write one manifest list: its path tells its snapshot and its commit.
pub proof fn law_manifest_lists_tell_their_commit(
    location: Seq<char>,
    s: i64,
    c: u128,
    t: i64,
    d: u128,
)
    ensures
        manifest_list_path(location, s, c) == manifest_list_path(location, t, d) <==> s == t && c == d,
{
    if manifest_list_path(location, s, c) == manifest_list_path(location, t, d) {
        let head = location + "/metadata/snap-"@;
        let sd = signed_decimal(s as int);
        let td = signed_decimal(t as int);
        lemma_id_stands_at_the_end(head + sd + "-0-"@, c, head + td + "-0-"@, d, ".avro"@);
        lemma_number_behind(head, s as int, t as int, "-0-"@);
    }
}

/// Every manifest that is due is written, one for one and in their order, numbered from the first.
pub proof fn law_every_due_manifest_is_written(
    ws: Seq<ManifestFlush>,
    fs: Seq<FlushView>,
    table: TableMetadata,
    commit_id: u128,
    first: int,
    i: int,
)
    requires
        flushes_all(ws, fs, table, commit_id, first),
    ensures
        ws.len() == fs.len(),
        0 <= i < fs.len() ==> ws[i].spec_id == fs[i].spec_id && ws[i].entries@.len()
            == fs[i].entries.len() && (ws[i].parquet ==> ws[i].path@ == manifest_path(
            table.location@,
            commit_id,
            (first + i) as u64,
            "parquet"@,
        )) && (!ws[i].parquet ==> ws[i].path@ == manifest_path(
            table.location@,
            commit_id,
            (first + i) as u64,
            "avro"@,
        )),
{
    if 0 <= i < fs.len() {
        assert(flushes(ws[i], fs[i], table, commit_id, first + i));
    }
}

/// What is collected is counted spec by spec.
pub proof fn law_collected_entries_are_counted(v: BufferView, n: nat)
    ensures
        buffered_total(v, 0) == 0,
        buffered_total(v, n + 1) == buffered_total(v, n) + buffered(v, v.order[n as int]).len(),
{
}

/// A rewrite goes on only where the table knows the spec of every manifest that is due: where it
/// does, each spec is one of the table's, and where one is not, the rewrite does not go on.
pub proof fn law_specs_must_be_known(fs: Seq<FlushView>, table: TableMetadata, i: int)
    requires
        0 <= i < fs.len(),
    ensures
        has_specs(fs, table) ==> exists|s: int|
            0 <= s < table.partition_specs@.len() && (#[trigger] table.partition_specs@[s]).spec_id
                == fs[i].spec_id,
        (forall|k: int| 0 <= k < fs.len() && k != i ==> (#[trigger] fs[k]).spec_id == fs[i].spec_id)
            && (exists|s: int|
            0 <= s < table.partition_specs@.len() && (#[trigger] table.partition_specs@[s]).spec_id
                == fs[i].spec_id) ==> has_specs(fs, table),
{
    crate::table::law_specs_are_found_by_id(table, fs[i].spec_id);
    if has_specs(fs, table) {
        assert(table.spec_by_id(fs[i].spec_id) is Some);
    }
    if (forall|k: int| 0 <= k < fs.len() && k != i ==> (#[trigger] fs[k]).spec_id == fs[i].spec_id)
        && table.spec_by_id(fs[i].spec_id) is Some {
        assert forall|k: int| 0 <= k < fs.len() implies table.spec_by_id(
            (#[trigger] fs[k]).spec_id,
        ) is Some by {}
    }
}

} // verus!
