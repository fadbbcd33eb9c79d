//! A whole rebalance of a root: its manifests are rewritten, its inline entries flushed, and the
//! new root committed, one after the other.

use std::sync::Arc;

use vstd::prelude::*;

use crate::cluster::{is_clustering, writes, writes_entries, written, ManifestWrite, WriteSetting};
use crate::commit::RootCommit;
use crate::error::{Error, ErrorKind};
use crate::listing::{
    all_alive, group_listings, law_clustering_lists_alike, lemma_group_listings_add,
    lemma_group_listings_push, lemma_listings_push, lemma_parts_list_alike,
    lemma_restamped_list_alike, lemma_undeleted_lists_live, listings, parts,
};
use crate::manifest::{
    DataFile, ManifestContentType, ManifestEntry, ManifestFile, Mdv, RootManifestEntry,
    RootManifestMetadata,
};
use crate::rebalance_root_manifest::{
    law_flush_keeps_the_order, law_flushed_manifests_are_of_one_content,
    balanced, balanced_one, count_inline, flushed, inline_count, inline_entries, is_grouping,
    known_rewrites, marked, of_deletes, of_group, passed_readable, push_refs, ref_key, refs_to,
    restamped_all, spec_not_found_message, undeleted, unreadable, writes_ahead, writes_groups,
    Flush, FlushGroup, GroupWrites, RebalanceNeeds, RebalanceRootManifestAction, RefRewrite,
    RefsView, RewriteKey,
};
use crate::seqs::lemma_filter_from;
use crate::standing::{
    law_numbers_go_on, law_run_spares_other_paths, lemma_entries_are_numbered, lemma_stands,
    numbered, numbered_from, stands_or_is_written, stored,
};
use crate::table::{text_view, TableMetadata};
use crate::text::texts;

verus! {

/// A rebalance that goes through the manifests of a root.
pub struct Rebalance {
    needs: RebalanceNeeds,
    inline: usize,
    counter: u64,
    refs: RefRewrite,
}

/// A rebalance whose manifests to write for inline entries are known.
pub struct RebalanceFlush {
    /// The manifests of the new root so far.
    pub refs: Vec<RootManifestEntry>,
    pub flush: Flush,
    /// The number of the first manifest of a later run.
    pub next_number: u64,
    /// How many inline entries there were, where they are flushed.
    pub inline_flushed: usize,
}

/// The entries of a rebalanced root.
pub struct RebalancedRoot {
    pub entries: Vec<RootManifestEntry>,
    /// How many inline entries there were, where they were flushed.
    pub inline_flushed: usize,
}

impl RebalanceRootManifestAction {
    /// What the manifests of this rebalance have in common.
    pub open spec fn write_setting(&self, table: TableMetadata) -> WriteSetting {
        WriteSetting {
            location: table.location@,
            commit_id: self.commit_id,
            version: table.format_version,
        }
    }

    /// Begins a rebalance of a root with the entries `entries` and `removed` tombstones, the
    /// rewrites that `keys` are of having been made before; `None` where there is nothing to do.
    /// Its manifests are numbered from `first`: the number at which the run before it ended, so that
    /// it writes over none of those that are used again or that an earlier commit lists.
    pub fn begin(
        &self,
        table: &TableMetadata,
        entries: Vec<RootManifestEntry>,
        removed: usize,
        keys: Vec<RewriteKey>,
        first: u64,
    ) -> (r: Option<Rebalance>)
        ensures
            ({
                let needs = self.needs_spec(*table, entries@, removed as nat);
                &&& r is None <==> !needs.any()
                &&& r is Some ==> {
                    &&& r->0.wf()
                    &&& r->0.needs() == needs
                    &&& r->0.inline_before() == inline_count(entries@)
                    &&& r->0.counter() == first
                    &&& r->0.pending() == entries@
                    &&& r->0@ == (RefsView {
                        entries: Seq::empty(),
                        inline: Seq::empty(),
                        done: 0,
                        known: known_rewrites(keys@),
                    })
                }
            }),
    {
        let needs = self.needs(table, entries.as_slice(), removed);
        if !needs.is_any() {
            return None;
        }
        let inline: usize = count_inline(entries.as_slice());
        Some(Rebalance { needs, inline, counter: first, refs: RefRewrite::new(entries, keys) })
    }
}

impl View for Rebalance {
    type V = RefsView;

    closed spec fn view(&self) -> RefsView {
        self.refs@
    }
}

impl Rebalance {
    /// Whether the count of rewrites is within what the entries seen allow.
    pub closed spec fn wf(&self) -> bool {
        self.refs.wf()
    }

    /// What there is to do.
    pub closed spec fn needs(&self) -> RebalanceNeeds {
        self.needs
    }

    /// How many inline entries the root had.
    pub closed spec fn inline_before(&self) -> nat {
        self.inline as nat
    }

    /// The number of the next manifest to write.
    pub closed spec fn counter(&self) -> u64 {
        self.counter
    }

    /// The entries still to be seen.
    pub closed spec fn pending(&self) -> Seq<RootManifestEntry> {
        self.refs.pending()
    }

    /// What the rewrite of manifests comes to.
    pub open spec fn outcome(
        &self,
        action: RebalanceRootManifestAction,
        produced: spec_fn(RootManifestEntry) -> Seq<ManifestFile>,
    ) -> RefsView {
        balanced(self@, self.pending(), action, produced)
    }

    /// Whether the rewrite of the next manifest was made before.
    pub open spec fn knows_next(&self) -> bool {
        self@.known.contains(ref_key(self.pending()[0]))
    }

    /// Whether a manifest is to be rewritten next.
    pub open spec fn rewrites_next(&self, action: RebalanceRootManifestAction) -> bool {
        &&& self.pending().len() > 0
        &&& self.pending()[0] is ManifestRef
        &&& action.rewrites(self.pending()[0], self@.done, self.knows_next())
    }

    /// The number of the next manifest to write.
    pub fn next_number(&self) -> (r: u64)
        ensures
            r == self.counter(),
    {
        self.counter
    }

    /// How many manifests can still be numbered.
    pub fn numbers_left(&self) -> (r: u64)
        ensures
            r == u64::MAX - self.counter(),
    {
        u64::MAX - self.counter
    }

    /// Passes the entries up to a manifest that is rewritten. Fails on a delete vector that does
    /// not decode.
    pub fn advance(&mut self, action: &RebalanceRootManifestAction) -> (r: Result<bool, Error>)
        requires
            old(self).wf(),
        ensures
            final(self).wf(),
            final(self).needs() == old(self).needs(),
            final(self).inline_before() == old(self).inline_before(),
            final(self).counter() == old(self).counter(),
            r is Err ==> final(self).pending().len() > 0 && unreadable(final(self).pending()[0])
                && r->Err_0.says(
                ErrorKind::DataInvalid,
                "manifest delete vector does not decode: "@
                    + final(self).pending()[0]->ManifestRef_manifest_file.manifest_path@,
            ),
            passed_readable(old(self).pending(), final(self).pending()),
            r is Ok ==> r->Ok_0 == (final(self).pending().len() > 0),
            r is Ok && r->Ok_0 ==> final(self).rewrites_next(*action) && !unreadable(
                final(self).pending()[0],
            ),
            forall|
                produced: spec_fn(RootManifestEntry) -> Seq<ManifestFile>,
            | #[trigger]
                final(self).outcome(*action, produced) == old(self).outcome(
                    *action,
                    produced,
                ),
    {
        let ghost start = *self;
        let r = self.refs.advance(action);
        assert forall|
            produced: spec_fn(RootManifestEntry) -> Seq<ManifestFile>,
        | #[trigger] self.outcome(*action, produced) == start.outcome(
            *action,
            produced,
        ) by {
            assert(self.refs.outcome(*action, produced) == start.refs.outcome(
                *action,
                produced,
            ));
        }
        r
    }

    /// Whether the rewrite of the next manifest was made before, so that nothing is read or written
    /// for it.
    pub fn next_is_known(&self) -> (r: bool)
        requires
            self.pending().len() > 0,
            self.pending()[0] is ManifestRef,
        ensures
            r == self.knows_next(),
    {
        self.refs.next_is_known()
    }

    /// The manifest that is rewritten next.
    pub fn next_ref(&self) -> (r: Option<(&ManifestFile, &Option<Mdv>)>)
        ensures
            match r {
                Some(next) => self.pending().len() > 0 && self.pending()[0]
                    == (RootManifestEntry::ManifestRef { manifest_file: *next.0, mdv: *next.1 }),
                None => self.pending().len() == 0 || self.pending()[0] is Inline,
            },
    {
        self.refs.next_ref()
    }

    /// The manifests that the next one, whose entries are `entries`, is rewritten to. Fails where
    /// the table lacks its partition spec.
    pub fn next_writes(
        &mut self,
        action: &RebalanceRootManifestAction,
        table: &TableMetadata,
        entries: &[ManifestEntry],
    ) -> (r: Result<Vec<ManifestWrite>, Error>)
        requires
            old(self).wf(),
            old(self).rewrites_next(*action),
            entries@.len() <= 0x1_0000_0000,
            old(self).counter() + entries@.len() + 1 <= u64::MAX,
        ensures
            final(self).wf(),
            final(self).needs() == old(self).needs(),
            final(self).inline_before() == old(self).inline_before(),
            final(self).pending() == old(self).pending(),
            final(self)@ == old(self)@,
            forall|
                produced: spec_fn(RootManifestEntry) -> Seq<ManifestFile>,
            | #[trigger]
                final(self).outcome(*action, produced) == old(self).outcome(
                    *action,
                    produced,
                ),
            ({
                let mf = old(self).pending()[0]->ManifestRef_manifest_file;
                let mdv = old(self).pending()[0]->ManifestRef_mdv;
                let left = undeleted(entries@, marked(mdv), entries@.len());
                let is_delete = mf.content == ManifestContentType::Deletes;
                let first = old(self).counter() as int;
                let setting = action.write_setting(*table);
                let spec_id = mf.partition_spec_id;
                &&& r is Err <==> table.spec_by_id(spec_id) is None
                &&& r is Err ==> r->Err_0.says(
                    ErrorKind::DataInvalid,
                    spec_not_found_message(spec_id),
                )
                &&& r is Ok ==> final(self).counter() == old(self).counter() + r->Ok_0@.len()
                &&& r is Ok ==> numbered(r->Ok_0@, setting, first)
                &&& r is Ok && action.partition_scoped ==> writes_entries(
                    r->Ok_0@,
                    setting,
                    first,
                    spec_id,
                    is_delete,
                    left,
                    true,
                )
                &&& r is Ok && !action.partition_scoped ==> r->Ok_0@.len() == 1 && writes(
                    r->Ok_0@[0],
                    setting,
                    first,
                    spec_id,
                    is_delete,
                    left,
                )
            }),
    {
        match self.refs.next_ref() {
            Some((mf, mdv)) => action.rewrite_writes(table, mf, mdv, entries, &mut self.counter),
            None => Ok(Vec::new()),
        }
    }

    /// Puts the manifests `produced` in place of the next one.
    pub fn replace_next(&mut self, action: &RebalanceRootManifestAction, produced: Vec<ManifestFile>)
        requires
            old(self).wf(),
            old(self).rewrites_next(*action),
        ensures
            final(self).wf(),
            final(self).needs() == old(self).needs(),
            final(self).inline_before() == old(self).inline_before(),
            final(self).counter() == old(self).counter(),
            final(self).pending() == old(self).pending().skip(1),
            final(self)@ == (RefsView {
                entries: old(self)@.entries + refs_to(produced@),
                inline: old(self)@.inline,
                done: if old(self).knows_next() {
                    old(self)@.done
                } else {
                    old(self)@.done + 1
                },
                known: old(self)@.known.insert(ref_key(old(self).pending()[0])),
            }),
            forall|made: spec_fn(RootManifestEntry) -> Seq<ManifestFile>|
                made(old(self).pending()[0]) == produced@ ==> #[trigger] final(self).outcome(
                    *action,
                    made,
                ) == old(self).outcome(*action, made),
    {
        let ghost start = *self;
        let ghost given = produced@;
        let ghost same = |e: RootManifestEntry| given;
        self.refs.replace_next(action, produced);
        assert(self@ == balanced_one(start@, start.pending()[0], *action, same));
        assert forall|made: spec_fn(RootManifestEntry) -> Seq<ManifestFile>|
            made(start.pending()[0]) == given implies #[trigger] self.outcome(*action, made)
            == start.outcome(*action, made) by {
            assert(self.refs.outcome(*action, made) == start.refs.outcome(*action, made));
        }
    }

    /// How many inline entries were seen.
    pub fn inline_seen(&self) -> (r: usize)
        ensures
            r == self@.inline.len(),
    {
        self.refs.inline_seen()
    }

    /// Goes on to the inline entries, once no manifest is left to be seen. Fails where the table
    /// lacks the partition spec of an entry to be flushed.
    pub fn flush(self, action: &RebalanceRootManifestAction, table: &TableMetadata) -> (r: Result<
        RebalanceFlush,
        Error,
    >)
        requires
            self.pending().len() == 0,
            self.counter() + self@.inline.len() <= u64::MAX,
        ensures
            ({
                let out = flushed(self@.inline, *action, false);
                &&& r is Err <==> self.needs().flush && exists|i: int|
                    0 <= i < out.len() && table.spec_by_id(
                        (#[trigger] out[i]).data_file.partition_spec_id,
                    ) is None
                &&& r is Err ==> exists|i: int|
                    0 <= i < out.len() && table.spec_by_id(
                        (#[trigger] out[i]).data_file.partition_spec_id,
                    ) is None && r->Err_0.says(
                        ErrorKind::DataInvalid,
                        spec_not_found_message(out[i].data_file.partition_spec_id),
                    )
            }),
            r is Ok ==> flushes_inline(r->Ok_0, self, *action, *table),
    {
        let ghost from = self;
        let mut counter: u64 = self.counter;
        let (refs, inline) = self.refs.finish();
        match action.flush(table, inline, self.needs.flush, &mut counter) {
            Ok(flush) => {
                proof {
                    let ws = flush.groups@;
                    let setting = action.write_setting(*table);
                    if from.needs().flush {
                        let groups = choose|groups: Seq<FlushGroup>| #[trigger]
                            is_grouping(groups, flushed(from@.inline, *action, false))
                                && writes_groups(
                                ws,
                                groups,
                                setting,
                                from.counter() as int,
                                action.partition_scoped,
                            );
                        lemma_flush_is_numbered(
                            ws,
                            groups,
                            setting,
                            from.counter() as int,
                            action.partition_scoped,
                            ws.len() as int,
                        );
                    }
                    assert(ws.take(ws.len() as int) =~= ws);
                }
                let inline_flushed: usize = if self.needs.flush {
                    self.inline
                } else {
                    0
                };
                Ok(RebalanceFlush { refs, flush, next_number: counter, inline_flushed })
            },
            Err(e) => Err(e),
        }
    }
}

/// Whether `r` is what is written for the inline entries of the rebalance `from`.
pub open spec fn flushes_inline(
    r: RebalanceFlush,
    from: Rebalance,
    action: RebalanceRootManifestAction,
    table: TableMetadata,
) -> bool {
    &&& r.refs@ == from@.entries
    &&& r.inline_flushed == if from.needs().flush {
        from.inline_before()
    } else {
        0
    }
    &&& if from.needs().flush {
        &&& r.flush.carried@ == inline_entries(flushed(from@.inline, action, true))
        &&& exists|groups: Seq<FlushGroup>| #[trigger]
            is_grouping(groups, flushed(from@.inline, action, false)) && writes_groups(
                r.flush.groups@,
                groups,
                action.write_setting(table),
                from.counter() as int,
                action.partition_scoped,
            )
    } else {
        &&& r.flush.groups@.len() == 0
        &&& r.flush.carried@ == inline_entries(from@.inline)
    }
    &&& numbered(
        flush_writes(r.flush.groups@),
        action.write_setting(table),
        from.counter() as int,
    )
    &&& r.next_number == from.counter() + flush_writes(r.flush.groups@).len()
}

/// The manifests of a flush, group by group.
pub open spec fn flush_writes(groups: Seq<GroupWrites>) -> Seq<ManifestWrite>
    decreases groups.len(),
{
    if groups.len() == 0 {
        Seq::empty()
    } else {
        flush_writes(groups.drop_last()) + groups.last().writes@
    }
}

proof fn lemma_flush_is_numbered(
    ws: Seq<GroupWrites>,
    groups: Seq<FlushGroup>,
    setting: WriteSetting,
    first: int,
    partition_scoped: bool,
    n: int,
)
    requires
        writes_groups(ws, groups, setting, first, partition_scoped),
        0 <= n <= ws.len(),
        0 <= first,
        first + writes_ahead(ws, ws.len() as int) <= u64::MAX,
    ensures
        flush_writes(ws.take(n)).len() == writes_ahead(ws, n),
        numbered(flush_writes(ws.take(n)), setting, first),
    decreases n,
{
    lemma_writes_ahead_grows(ws, n, ws.len() as int);
    if n > 0 {
        lemma_flush_is_numbered(ws, groups, setting, first, partition_scoped, n - 1);
        assert(ws.take(n).drop_last() =~= ws.take(n - 1));
        let last = ws[n - 1];
        assert(last.is_delete == groups[n - 1].is_delete);
        lemma_entries_are_numbered(
            last.writes@,
            setting,
            first + writes_ahead(ws, n - 1),
            groups[n - 1].spec_id,
            groups[n - 1].is_delete,
            restamped_all(groups[n - 1].entries@),
            partition_scoped,
        );
        law_numbers_go_on(flush_writes(ws.take(n - 1)), last.writes@, setting, first);
    }
}

proof fn lemma_writes_ahead_grows(ws: Seq<GroupWrites>, m: int, n: int)
    requires
        0 <= m <= n <= ws.len(),
    ensures
        writes_ahead(ws, m) <= writes_ahead(ws, n),
    decreases n,
{
    if m < n {
        lemma_writes_ahead_grows(ws, m, n - 1);
    }
}

impl RebalanceFlush {
    /// The entries of the new root, `produced` being the manifests that were written for inline
    /// entries: what was left inline comes last.
    pub fn into_root(self, produced: Vec<ManifestFile>) -> (r: RebalancedRoot)
        ensures
            r.entries@ == self.refs@ + refs_to(produced@) + self.flush.carried@,
            r.inline_flushed == self.inline_flushed,
    {
        let mut entries = self.refs;
        push_refs(&mut entries, produced);
        let mut carried = self.flush.carried;
        entries.append(&mut carried);
        RebalancedRoot { entries, inline_flushed: self.inline_flushed }
    }
}

impl RebalancedRoot {
    /// The root and the commit of the rebalance at the time `timestamp_ms`, with the tombstones
    /// `removed_paths` left.
    pub fn commit_at(
        self,
        action: &RebalanceRootManifestAction,
        table: &TableMetadata,
        root_metadata: &RootManifestMetadata,
        removed_paths: Vec<String>,
        snapshot_id: i64,
        timestamp_ms: i64,
    ) -> (r: RootCommit)
        requires
            table.has_next_sequence_number(),
        ensures
            action.commits(
                r,
                *table,
                text_view(root_metadata.bucket_index_path),
                texts(removed_paths@),
                self.inline_flushed as nat,
                self.entries@,
                snapshot_id,
                timestamp_ms,
            ),
    {
        action.commit_at(
            table,
            root_metadata,
            removed_paths,
            self.inline_flushed,
            self.entries,
            snapshot_id,
            timestamp_ms,
        )
    }

    /// The root and the commit of the rebalance, now.
    pub fn commit(
        self,
        action: &RebalanceRootManifestAction,
        table: &TableMetadata,
        root_metadata: &RootManifestMetadata,
        removed_paths: Vec<String>,
        snapshot_id: i64,
    ) -> (r: RootCommit)
        requires
            table.has_next_sequence_number(),
        ensures
            exists|timestamp_ms: i64| #[trigger]
                action.commits(
                    r,
                    *table,
                    text_view(root_metadata.bucket_index_path),
                    texts(removed_paths@),
                    self.inline_flushed as nat,
                    self.entries@,
                    snapshot_id,
                    timestamp_ms,
                ),
    {
        action.commit(
            table,
            root_metadata,
            removed_paths,
            self.inline_flushed,
            self.entries,
            snapshot_id,
        )
    }
}

/// What is left of a root's manifest once its delete vector is taken into account, `at` giving
/// what stands at a path.
pub open spec fn left_of(
    e: RootManifestEntry,
    at: spec_fn(Seq<char>) -> Seq<ManifestEntry>,
) -> Seq<ManifestEntry> {
    let entries = at(e->ManifestRef_manifest_file.manifest_path@);
    undeleted(entries, marked(e->ManifestRef_mdv), entries.len())
}

/// How often an entry of a root lists the file `file` live.
pub open spec fn entry_listings(
    e: RootManifestEntry,
    at: spec_fn(Seq<char>) -> Seq<ManifestEntry>,
    file: Arc<DataFile>,
) -> nat {
    match e {
        RootManifestEntry::ManifestRef { .. } => listings(left_of(e, at), file),
        RootManifestEntry::Inline(me) => listings(seq![me], file),
    }
}

/// How often a root with the entries `entries` lists the file `file` live.
pub open spec fn root_listings(
    entries: Seq<RootManifestEntry>,
    at: spec_fn(Seq<char>) -> Seq<ManifestEntry>,
    file: Arc<DataFile>,
) -> nat
    decreases entries.len(),
{
    if entries.len() == 0 {
        0
    } else {
        root_listings(entries.drop_last(), at, file) + entry_listings(entries.last(), at, file)
    }
}

/// What the manifests `produced` at.
pub open spec fn contents(
    produced: Seq<ManifestFile>,
    at: spec_fn(Seq<char>) -> Seq<ManifestEntry>,
) -> Seq<Seq<ManifestEntry>> {
    produced.map_values(|mf: ManifestFile| at(mf.manifest_path@))
}

/// Whether manifests with the contents `groups` are those that `left` is rewritten to.
pub open spec fn rewritten_as(
    groups: Seq<Seq<ManifestEntry>>,
    left: Seq<ManifestEntry>,
    partition_scoped: bool,
) -> bool {
    if partition_scoped {
        is_clustering(groups, left)
    } else {
        groups == seq![left]
    }
}

/// What the manifests of a flush at, group by group.
pub open spec fn flush_contents(groups: Seq<GroupWrites>) -> Seq<Seq<ManifestEntry>>
    decreases groups.len(),
{
    if groups.len() == 0 {
        Seq::empty()
    } else {
        flush_contents(groups.drop_last()) + written(groups.last().writes@)
    }
}

proof fn lemma_root_listings_add(
    a: Seq<RootManifestEntry>,
    b: Seq<RootManifestEntry>,
    at: spec_fn(Seq<char>) -> Seq<ManifestEntry>,
    file: Arc<DataFile>,
)
    ensures
        root_listings(a + b, at, file) == root_listings(a, at, file) + root_listings(
            b,
            at,
            file,
        ),
    decreases b.len(),
{
    if b.len() == 0 {
        assert(a + b =~= a);
    } else {
        lemma_root_listings_add(a, b.drop_last(), at, file);
        assert((a + b).drop_last() =~= a + b.drop_last());
    }
}

proof fn lemma_refs_list_contents(
    produced: Seq<ManifestFile>,
    at: spec_fn(Seq<char>) -> Seq<ManifestEntry>,
    file: Arc<DataFile>,
)
    ensures
        root_listings(refs_to(produced), at, file) == group_listings(
            contents(produced, at),
            file,
        ),
    decreases produced.len(),
{
    if produced.len() > 0 {
        let mf = produced.last();
        lemma_refs_list_contents(produced.drop_last(), at, file);
        assert(refs_to(produced).drop_last() =~= refs_to(produced.drop_last()));
        assert(contents(produced, at).drop_last() =~= contents(produced.drop_last(), at));
        let listed = at(mf.manifest_path@);
        lemma_undeleted_lists_live(listed, listed.len(), file);
        assert(listed.take(listed.len() as int) =~= listed);
    }
}

proof fn lemma_rewritten_lists_alike(
    groups: Seq<Seq<ManifestEntry>>,
    left: Seq<ManifestEntry>,
    partition_scoped: bool,
    file: Arc<DataFile>,
)
    requires
        rewritten_as(groups, left, partition_scoped),
    ensures
        group_listings(groups, file) == listings(left, file),
{
    if partition_scoped {
        law_clustering_lists_alike(groups, left, file);
    } else {
        lemma_group_listings_push(Seq::empty(), left, file);
        assert(Seq::<Seq<ManifestEntry>>::empty().push(left) =~= seq![left]);
    }
}

proof fn lemma_inline_entries_list(
    inline: Seq<ManifestEntry>,
    at: spec_fn(Seq<char>) -> Seq<ManifestEntry>,
    file: Arc<DataFile>,
)
    ensures
        root_listings(inline_entries(inline), at, file) == listings(inline, file),
    decreases inline.len(),
{
    if inline.len() > 0 {
        let last = inline.last();
        lemma_inline_entries_list(inline.drop_last(), at, file);
        assert(inline_entries(inline).drop_last() =~= inline_entries(inline.drop_last()));
        lemma_listings_push(Seq::empty(), last, file);
        assert(Seq::<ManifestEntry>::empty().push(last) =~= seq![last]);
    }
}

/// Whether what the manifest `e` was rewritten to, `produced`, stands once `ws` are written.
pub open spec fn rewrite_stands(
    e: RootManifestEntry,
    produced: Seq<ManifestFile>,
    partition_scoped: bool,
    before: spec_fn(Seq<char>) -> Seq<ManifestEntry>,
    ws: Seq<ManifestWrite>,
    setting: WriteSetting,
    first: int,
) -> bool {
    exists|groups: Seq<Seq<ManifestEntry>>| #[trigger]
        rewritten_as(groups, left_of(e, before), partition_scoped) && all_stand(
            produced,
            groups,
            before,
            ws,
            setting,
            first,
        )
}

/// Whether the manifests `produced` list `groups` once `ws` are written.
pub open spec fn all_stand(
    produced: Seq<ManifestFile>,
    groups: Seq<Seq<ManifestEntry>>,
    before: spec_fn(Seq<char>) -> Seq<ManifestEntry>,
    ws: Seq<ManifestWrite>,
    setting: WriteSetting,
    first: int,
) -> bool {
    &&& produced.len() == groups.len()
    &&& forall|k: int|
        0 <= k < produced.len() ==> stands_or_is_written(
            #[trigger] produced[k],
            groups[k],
            before,
            ws,
            setting,
            first,
        )
}

/// Whether every rewrite that a run over `pending` puts in place stands once `ws` are written.
pub open spec fn rewrites_stand(
    v: RefsView,
    pending: Seq<RootManifestEntry>,
    action: RebalanceRootManifestAction,
    produced: spec_fn(RootManifestEntry) -> Seq<ManifestFile>,
    before: spec_fn(Seq<char>) -> Seq<ManifestEntry>,
    ws: Seq<ManifestWrite>,
    setting: WriteSetting,
    first: int,
) -> bool
    decreases pending.len(),
{
    pending.len() > 0 ==> {
        let e = pending[0];
        &&& e is ManifestRef && action.rewrites(e, v.done, v.known.contains(ref_key(e)))
            ==> rewrite_stands(
            e,
            produced(e),
            action.partition_scoped,
            before,
            ws,
            setting,
            first,
        )
        &&& rewrites_stand(
            balanced_one(v, e, action, produced),
            pending.skip(1),
            action,
            produced,
            before,
            ws,
            setting,
            first,
        )
    }
}

proof fn lemma_all_stand(
    produced: Seq<ManifestFile>,
    groups: Seq<Seq<ManifestEntry>>,
    before: spec_fn(Seq<char>) -> Seq<ManifestEntry>,
    ws: Seq<ManifestWrite>,
    setting: WriteSetting,
    first: int,
)
    requires
        numbered(ws, setting, first),
        all_stand(produced, groups, before, ws, setting, first),
    ensures
        contents(produced, stored(before, ws)) == groups,
{
    assert forall|k: int| 0 <= k < produced.len() implies contents(
        produced,
        stored(before, ws),
    )[k] == groups[k] by {
        lemma_stands(produced[k], groups[k], before, ws, setting, first);
    }
    assert(contents(produced, stored(before, ws)) =~= groups);
}

proof fn lemma_balanced_lists_alike(
    v: RefsView,
    pending: Seq<RootManifestEntry>,
    action: RebalanceRootManifestAction,
    produced: spec_fn(RootManifestEntry) -> Seq<ManifestFile>,
    before: spec_fn(Seq<char>) -> Seq<ManifestEntry>,
    ws: Seq<ManifestWrite>,
    setting: WriteSetting,
    first: int,
    file: Arc<DataFile>,
)
    requires
        numbered(ws, setting, first),
        refs_spared(pending, setting, first),
        rewrites_stand(v, pending, action, produced, before, ws, setting, first),
    ensures
        ({
            let after = balanced(v, pending, action, produced);
            let at = stored(before, ws);
            root_listings(after.entries, at, file) + listings(after.inline, file) == root_listings(
                v.entries,
                at,
                file,
            ) + listings(v.inline, file) + root_listings(pending, before, file)
        }),
    decreases pending.len(),
{
    let at = stored(before, ws);
    if pending.len() > 0 {
        let e = pending[0];
        let rest = pending.skip(1);
        let next = balanced_one(v, e, action, produced);
        assert forall|i: int| 0 <= i < rest.len() implies ref_spared(
            #[trigger] rest[i],
            setting,
            first,
        ) by {
            assert(rest[i] == pending[i + 1]);
        }
        lemma_balanced_lists_alike(
            next,
            rest,
            action,
            produced,
            before,
            ws,
            setting,
            first,
            file,
        );
        assert(seq![e] + rest =~= pending);
        lemma_root_listings_add(seq![e], rest, before, file);
        assert(seq![e].drop_last() =~= Seq::<RootManifestEntry>::empty());
        reveal_with_fuel(root_listings, 2);
        match e {
            RootManifestEntry::Inline(me) => {
                lemma_listings_push(v.inline, me, file);
                lemma_listings_push(Seq::empty(), me, file);
                assert(Seq::<ManifestEntry>::empty().push(me) =~= seq![me]);
            },
            RootManifestEntry::ManifestRef { manifest_file, .. } => {
                if action.rewrites(e, v.done, v.known.contains(ref_key(e))) {
                    let groups = choose|groups: Seq<Seq<ManifestEntry>>| #[trigger]
                        rewritten_as(groups, left_of(e, before), action.partition_scoped)
                            && all_stand(produced(e), groups, before, ws, setting, first);
                    lemma_all_stand(produced(e), groups, before, ws, setting, first);
                    lemma_root_listings_add(v.entries, refs_to(produced(e)), at, file);
                    lemma_refs_list_contents(produced(e), at, file);
                    lemma_rewritten_lists_alike(
                        groups,
                        left_of(e, before),
                        action.partition_scoped,
                        file,
                    );
                } else {
                    assert(ref_spared(pending[0], setting, first));
                    law_run_spares_other_paths(
                        before,
                        ws,
                        setting,
                        first,
                        manifest_file.manifest_path@,
                    );
                    assert(v.entries.push(e) =~= v.entries + seq![e]);
                    lemma_root_listings_add(v.entries, seq![e], at, file);
                    assert(entry_listings(e, at, file) == entry_listings(e, before, file));
                }
            },
        }
    }
}

/// Whether an entry of a root is no manifest with a number of at least `first`.
pub open spec fn ref_spared(e: RootManifestEntry, setting: WriteSetting, first: int) -> bool {
    e matches RootManifestEntry::ManifestRef { manifest_file, .. } ==> !numbered_from(
        manifest_file.manifest_path@,
        setting,
        first,
    )
}

/// Whether no manifest of a root has a number of at least `first`.
pub open spec fn refs_spared(
    entries: Seq<RootManifestEntry>,
    setting: WriteSetting,
    first: int,
) -> bool {
    forall|i: int| 0 <= i < entries.len() ==> ref_spared(#[trigger] entries[i], setting, first)
}

proof fn lemma_balanced_inline_alive(
    v: RefsView,
    pending: Seq<RootManifestEntry>,
    action: RebalanceRootManifestAction,
    produced: spec_fn(RootManifestEntry) -> Seq<ManifestFile>,
)
    requires
        all_alive(v.inline),
        forall|i: int|
            0 <= i < pending.len() ==> ((#[trigger] pending[i]) matches RootManifestEntry::Inline(me)
                ==> me.alive()),
    ensures
        all_alive(balanced(v, pending, action, produced).inline),
    decreases pending.len(),
{
    if pending.len() > 0 {
        let next = balanced_one(v, pending[0], action, produced);
        let rest = pending.skip(1);
        assert forall|i: int| 0 <= i < rest.len() implies ((
        #[trigger] rest[i]) matches RootManifestEntry::Inline(me) ==> me.alive()) by {
            assert(rest[i] == pending[i + 1]);
        }
        assert(all_alive(next.inline));
        lemma_balanced_inline_alive(next, rest, action, produced);
    }
}

proof fn lemma_flushed_or_not(
    inline: Seq<ManifestEntry>,
    action: RebalanceRootManifestAction,
    file: Arc<DataFile>,
)
    ensures
        listings(inline, file) == listings(flushed(inline, action, false), file) + listings(
            flushed(inline, action, true),
            file,
        ),
    decreases inline.len(),
{
    reveal(Seq::filter);
    if inline.len() > 0 {
        let rest = inline.drop_last();
        let last = inline.last();
        lemma_flushed_or_not(rest, action, file);
        lemma_listings_push(flushed(rest, action, false), last, file);
        lemma_listings_push(flushed(rest, action, true), last, file);
    }
}

proof fn lemma_groups_list_alike(
    groups: Seq<FlushGroup>,
    entries: Seq<ManifestEntry>,
    file: Arc<DataFile>,
)
    requires
        is_grouping(groups, entries),
    ensures
        group_listings(group_entries(groups), file) == listings(entries, file),
{
    let key = |e: ManifestEntry| (of_deletes(e), e.data_file.partition_spec_id);
    let keys = groups.map_values(|g: FlushGroup| (g.is_delete, g.spec_id));
    assert forall|g: int, h: int| 0 <= g < h < keys.len() implies #[trigger] keys[g]
        != #[trigger] keys[h] by {
        assert(!(groups[g].is_delete == groups[h].is_delete && groups[g].spec_id
            == groups[h].spec_id));
    }
    assert forall|i: int| 0 <= i < entries.len() implies keys.contains(
        key(#[trigger] entries[i]),
    ) by {
        let g = choose|g: int|
            0 <= g < groups.len() && (#[trigger] groups[g]).is_delete == of_deletes(entries[i])
                && groups[g].spec_id == entries[i].data_file.partition_spec_id;
        assert(keys[g] == key(entries[i]));
    }
    lemma_parts_list_alike(entries, key, keys, file);
    assert forall|g: int| 0 <= g < groups.len() implies group_entries(groups)[g] == parts(
        entries,
        key,
        keys,
    )[g] by {
        let group = groups[g];
        assert((|e: ManifestEntry|
            of_deletes(e) == group.is_delete && e.data_file.partition_spec_id == group.spec_id)
            =~= (|e: ManifestEntry| key(e) == keys[g]));
        assert(groups[g].entries@ == of_group(entries, group.is_delete, group.spec_id));
    }
    assert(group_entries(groups) =~= parts(entries, key, keys));
}

/// The entries of each group of a flush.
spec fn group_entries(groups: Seq<FlushGroup>) -> Seq<Seq<ManifestEntry>> {
    groups.map_values(|g: FlushGroup| g.entries@)
}

proof fn lemma_flush_lists_alike(
    ws: Seq<GroupWrites>,
    groups: Seq<FlushGroup>,
    setting: WriteSetting,
    first: int,
    partition_scoped: bool,
    n: int,
    file: Arc<DataFile>,
)
    requires
        writes_groups(ws, groups, setting, first, partition_scoped),
        forall|g: int| 0 <= g < groups.len() ==> all_alive((#[trigger] groups[g]).entries@),
        0 <= n <= ws.len(),
    ensures
        group_listings(flush_contents(ws.take(n)), file) == group_listings(
            group_entries(groups).take(n),
            file,
        ),
    decreases n,
{
    let all = group_entries(groups);
    if n == 0 {
        assert(ws.take(0) =~= Seq::<GroupWrites>::empty());
        assert(all.take(0) =~= Seq::<Seq<ManifestEntry>>::empty());
    } else {
        lemma_flush_lists_alike(ws, groups, setting, first, partition_scoped, n - 1, file);
        assert(ws.take(n).drop_last() =~= ws.take(n - 1));
        assert(all.take(n).drop_last() =~= all.take(n - 1));
        let w = ws[n - 1];
        let entries = groups[n - 1].entries@;
        let stamped = restamped_all(entries);
        lemma_group_listings_add(flush_contents(ws.take(n - 1)), written(w.writes@), file);
        assert(w.is_delete == groups[n - 1].is_delete);
        lemma_restamped_list_alike(entries, file);
        if partition_scoped || stamped.len() == 0 {
            law_clustering_lists_alike(written(w.writes@), stamped, file);
        } else {
            lemma_rewritten_lists_alike(written(w.writes@), stamped, false, file);
        }
    }
}

/// A rebalance keeps every file of the root, by what stands in the store: once its manifests `ws`,
/// numbered from `first`, are written over what stood there before, the new root lists each file
/// live as often as the old one did. No manifest of the old root has a number from `first` on; each
/// rewrite that is used is one of `ws`, or stood before at a path without such a number; and the old
/// root's inline entries are live.
pub proof fn law_rebalance_keeps_every_file(
    entries: Seq<RootManifestEntry>,
    known: Set<(Seq<char>, Option<Seq<u8>>)>,
    from: Rebalance,
    flush: RebalanceFlush,
    root: RebalancedRoot,
    action: RebalanceRootManifestAction,
    table: TableMetadata,
    produced: spec_fn(RootManifestEntry) -> Seq<ManifestFile>,
    new: Seq<ManifestFile>,
    before: spec_fn(Seq<char>) -> Seq<ManifestEntry>,
    ws: Seq<ManifestWrite>,
    first: int,
    file: Arc<DataFile>,
)
    requires
        from@ == balanced(
            (RefsView { entries: Seq::empty(), inline: Seq::empty(), done: 0, known }),
            entries,
            action,
            produced,
        ),
        flushes_inline(flush, from, action, table),
        root.entries@ == flush.refs@ + refs_to(new) + flush.flush.carried@,
        numbered(ws, action.write_setting(table), first),
        refs_spared(entries, action.write_setting(table), first),
        rewrites_stand(
            (RefsView { entries: Seq::empty(), inline: Seq::empty(), done: 0, known }),
            entries,
            action,
            produced,
            before,
            ws,
            action.write_setting(table),
            first,
        ),
        all_stand(
            new,
            flush_contents(flush.flush.groups@),
            before,
            ws,
            action.write_setting(table),
            first,
        ),
        forall|i: int|
            0 <= i < entries.len() ==> ((#[trigger] entries[i]) matches RootManifestEntry::Inline(me)
                ==> me.alive()),
    ensures
        root_listings(root.entries@, stored(before, ws), file) == root_listings(
            entries,
            before,
            file,
        ),
{
    let start = RefsView { entries: Seq::empty(), inline: Seq::empty(), done: 0, known };
    let made = flush.flush.groups@;
    let inline = from@.inline;
    let setting = action.write_setting(table);
    let at = stored(before, ws);
    lemma_balanced_lists_alike(
        start,
        entries,
        action,
        produced,
        before,
        ws,
        setting,
        first,
        file,
    );
    lemma_all_stand(new, flush_contents(flush.flush.groups@), before, ws, setting, first);
    lemma_balanced_inline_alive(start, entries, action, produced);
    lemma_root_listings_add(flush.refs@ + refs_to(new), flush.flush.carried@, at, file);
    lemma_root_listings_add(flush.refs@, refs_to(new), at, file);
    lemma_refs_list_contents(new, at, file);
    assert(made.take(made.len() as int) =~= made);
    if from.needs().flush {
        let out = flushed(inline, action, false);
        let groups = choose|groups: Seq<FlushGroup>| #[trigger]
            is_grouping(groups, out) && writes_groups(
                made,
                groups,
                action.write_setting(table),
                from.counter() as int,
                action.partition_scoped,
            );
        lemma_flushed_or_not(inline, action, file);
        lemma_inline_entries_list(flushed(inline, action, true), at, file);
        lemma_groups_list_alike(groups, out, file);
        assert forall|g: int| 0 <= g < groups.len() implies all_alive(
            (#[trigger] groups[g]).entries@,
        ) by {
            let group = groups[g];
            let keep = |e: ManifestEntry|
                of_deletes(e) == group.is_delete && e.data_file.partition_spec_id == group.spec_id;
            let goes = |e: ManifestEntry| action.hot(RootManifestEntry::Inline(e)) == false;
            assert(group.entries@ == out.filter(keep));
            assert(out == inline.filter(goes));
            assert forall|i: int| 0 <= i < group.entries@.len() implies (
            #[trigger] group.entries@[i]).alive() by {
                lemma_filter_from(out, keep, i);
                let k = choose|k: int| 0 <= k < out.len() && out[k] == group.entries@[i];
                lemma_filter_from(inline, goes, k);
                let m = choose|m: int| 0 <= m < inline.len() && inline[m] == out[k];
                assert(inline[m].alive());
            }
        }
        lemma_flush_lists_alike(
            made,
            groups,
            action.write_setting(table),
            from.counter() as int,
            action.partition_scoped,
            made.len() as int,
            file,
        );
        assert(group_entries(groups).take(made.len() as int) =~= group_entries(groups));
    } else {
        lemma_inline_entries_list(inline, at, file);
    }
}

/// A flush leaves the references as they are. Where it is due, the entries of an hour that is left
/// alone stay inline and all others are written; where it is not, every inline entry stays. The
/// next manifest is numbered behind the last one written.
pub proof fn law_flush_is_made_only_when_due(
    r: RebalanceFlush,
    from: Rebalance,
    action: RebalanceRootManifestAction,
    table: TableMetadata,
)
    requires
        flushes_inline(r, from, action, table),
    ensures
        r.refs@ == from@.entries,
        from.needs().flush ==> r.inline_flushed == from.inline_before(),
        !from.needs().flush ==> r.inline_flushed == 0,
        !from.needs().flush ==> r.flush.groups@.len() == 0 && r.flush.carried@.len()
            == from@.inline.len() && forall|i: int|
            0 <= i < from@.inline.len() ==> r.flush.carried@[i] == RootManifestEntry::Inline(
                #[trigger] from@.inline[i],
            ),
        from.needs().flush ==> forall|k: int|
            0 <= k < r.flush.carried@.len() ==> (#[trigger] r.flush.carried@[k]) is Inline
                && action.hot(r.flush.carried@[k]) && from@.inline.contains(
                r.flush.carried@[k]->Inline_0,
            ),
        from.needs().flush ==> forall|i: int|
            0 <= i < from@.inline.len() && action.hot(
                RootManifestEntry::Inline(#[trigger] from@.inline[i]),
            ) ==> r.flush.carried@.contains(RootManifestEntry::Inline(from@.inline[i])),
        r.next_number == from.counter() + flush_writes(r.flush.groups@).len(),
{
    if from.needs().flush {
        let inline = from@.inline;
        let hot = flushed(inline, action, true);
        let places = law_flush_keeps_the_order(inline, action, true);
        assert forall|k: int| 0 <= k < r.flush.carried@.len() implies (
        #[trigger] r.flush.carried@[k]) is Inline && action.hot(r.flush.carried@[k])
            && inline.contains(r.flush.carried@[k]->Inline_0) by {
            assert(r.flush.carried@[k] == RootManifestEntry::Inline(hot[k]));
            assert(places.contains(places[k]));
            assert(inline[places[k]] == hot[k]);
        }
        assert forall|i: int|
            0 <= i < inline.len() && action.hot(
                RootManifestEntry::Inline(#[trigger] inline[i]),
            ) implies r.flush.carried@.contains(RootManifestEntry::Inline(inline[i])) by {
            assert(places.contains(i));
            let k = choose|k: int| 0 <= k < places.len() && places[k] == i;
            assert(hot[k] == inline[i]);
            assert(r.flush.carried@[k] == RootManifestEntry::Inline(inline[i]));
        }
    }
}

/// Every manifest that a flush writes is of one content and spec, and each of its entries is an
/// inline entry of an hour that is not left alone, with the snapshot and the sequence numbers that
/// it had.
pub proof fn law_flush_writes_are_of_one_content(
    r: RebalanceFlush,
    from: Rebalance,
    action: RebalanceRootManifestAction,
    table: TableMetadata,
    g: int,
    w: int,
    k: int,
)
    requires
        flushes_inline(r, from, action, table),
        0 <= g < r.flush.groups@.len(),
        0 <= w < r.flush.groups@[g].writes@.len(),
        0 <= k < r.flush.groups@[g].writes@[w].entries@.len(),
    ensures
        ({
            let manifest = r.flush.groups@[g].writes@[w];
            let x = manifest.entries@[k];
            let deletes = x.data_file.content is PositionDeletes || x.data_file.content
                is EqualityDeletes;
            &&& manifest.spec_id == x.data_file.partition_spec_id
            &&& manifest.kind is V1 <==> table.format_version is V1
            &&& table.format_version !is V1 ==> ((manifest.kind is V2Deletes || manifest.kind
                is V3Deletes) <==> deletes)
            &&& table.format_version !is V1 ==> ((manifest.kind is V2Data || manifest.kind is V3Data)
                <==> !deletes)
            &&& exists|i: int|
                0 <= i < from@.inline.len() && (#[trigger] from@.inline[i]).data_file == x.data_file
                    && !action.hot(RootManifestEntry::Inline(from@.inline[i])) && (
                from@.inline[i].snapshot_id is Some ==> x.snapshot_id == from@.inline[i].snapshot_id)
                    && (from@.inline[i].sequence_number is Some ==> x.sequence_number
                    == from@.inline[i].sequence_number) && x.file_sequence_number
                    == from@.inline[i].file_sequence_number
        }),
{
    let inline = from@.inline;
    let out = flushed(inline, action, false);
    let groups = choose|groups: Seq<FlushGroup>| #[trigger]
        is_grouping(groups, out) && writes_groups(
            r.flush.groups@,
            groups,
            action.write_setting(table),
            from.counter() as int,
            action.partition_scoped,
        );
    law_flushed_manifests_are_of_one_content(
        r.flush.groups@,
        groups,
        out,
        action.write_setting(table),
        from.counter() as int,
        action.partition_scoped,
        g,
        w,
        k,
    );
    let x = r.flush.groups@[g].writes@[w].entries@[k];
    let m = choose|m: int|
        0 <= m < out.len() && (#[trigger] out[m]).data_file == x.data_file && x.snapshot_id == Some(
            if out[m].snapshot_id is Some {
                out[m].snapshot_id->0
            } else {
                0
            },
        ) && x.sequence_number == Some(
            if out[m].sequence_number is Some {
                out[m].sequence_number->0
            } else {
                0
            },
        ) && x.file_sequence_number == out[m].file_sequence_number;
    let places = law_flush_keeps_the_order(inline, action, false);
    assert(places.contains(places[m]));
    assert(inline[places[m]] == out[m]);
}

/// The next entry is rewritten just where there is one, it is a reference that is sparse or spans
/// partitions, it is not left alone, and it was rewritten before or is within the bound.
pub proof fn law_next_reference_is_rewritten_when_due(
    from: Rebalance,
    action: RebalanceRootManifestAction,
)
    ensures
        from.rewrites_next(action) <==> from.pending().len() > 0 && from.pending()[0] is ManifestRef
            && (action.too_sparse(from.pending()[0]) || action.too_wide(from.pending()[0]))
            && !action.hot(from.pending()[0]) && (from@.known.contains(ref_key(from.pending()[0]))
            || action.max_manifests_per_commit is None || from@.done
            < action.max_manifests_per_commit->0),
{
}

} // verus!
