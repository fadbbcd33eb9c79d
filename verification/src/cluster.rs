//! Grouping entries into the manifests they are written to.

use vstd::prelude::*;

use crate::commit::{manifest_path, manifest_path_of};
use crate::manifest::{FormatVersion, ManifestEntry};
use crate::partition::{same_partition, LiteralView, Struct};

verus! {

/// The partition of an entry's file.
pub open spec fn partition_of(e: ManifestEntry) -> Seq<Option<LiteralView>> {
    e.data_file.partition@
}

/// The entries of `entries` whose files are in the partition `p`, in their order.
pub open spec fn of_partition(entries: Seq<ManifestEntry>, p: Seq<Option<LiteralView>>) -> Seq<
    ManifestEntry,
> {
    entries.filter(|e: ManifestEntry| partition_of(e) == p)
}

/// Whether `groups` are the entries of `entries` by partition: each group holds all entries of
/// its first entry's partition in their order, no two groups share a partition, and every
/// partition has its group.
pub open spec fn is_clustering(groups: Seq<Seq<ManifestEntry>>, entries: Seq<ManifestEntry>) -> bool {
    &&& forall|g: int|
        0 <= g < groups.len() ==> (#[trigger] groups[g]).len() > 0 && groups[g] == of_partition(
            entries,
            partition_of(groups[g][0]),
        )
    &&& forall|g: int, h: int|
        0 <= g < h < groups.len() ==> partition_of(#[trigger] groups[g][0]) != partition_of(
            #[trigger] groups[h][0],
        )
    &&& forall|i: int|
        0 <= i < entries.len() ==> exists|g: int|
            0 <= g < groups.len() && partition_of(#[trigger] groups[g][0]) == partition_of(
                #[trigger] entries[i],
            )
}

/// The entries of each group.
pub open spec fn group_views(groups: Seq<Vec<ManifestEntry>>) -> Seq<Seq<ManifestEntry>> {
    groups.map_values(|g: Vec<ManifestEntry>| g@)
}

/// What adding `e` to `entries` does to its partitions.
proof fn lemma_of_partition_push(
    entries: Seq<ManifestEntry>,
    e: ManifestEntry,
    p: Seq<Option<LiteralView>>,
)
    ensures
        of_partition(entries.push(e), p) == if partition_of(e) == p {
            of_partition(entries, p).push(e)
        } else {
            of_partition(entries, p)
        },
{
    reveal(Seq::filter);
    assert(entries.push(e).drop_last() =~= entries);
}

proof fn lemma_of_partition_members(entries: Seq<ManifestEntry>, p: Seq<Option<LiteralView>>)
    ensures
        forall|k: int|
            0 <= k < of_partition(entries, p).len() ==> partition_of(
                #[trigger] of_partition(entries, p)[k],
            ) == p && entries.contains(of_partition(entries, p)[k]),
        (forall|i: int| 0 <= i < entries.len() ==> partition_of(#[trigger] entries[i]) != p)
            ==> of_partition(entries, p).len() == 0,
    decreases entries.len(),
{
    reveal(Seq::filter);
    if entries.len() > 0 {
        let rest = entries.drop_last();
        lemma_of_partition_members(rest, p);
        assert forall|k: int| 0 <= k < of_partition(entries, p).len() implies partition_of(
            #[trigger] of_partition(entries, p)[k],
        ) == p && entries.contains(of_partition(entries, p)[k]) by {
            if k < of_partition(rest, p).len() {
                let x = of_partition(rest, p)[k];
                let i = choose|i: int| 0 <= i < rest.len() && rest[i] == x;
                assert(entries[i] == x);
            } else {
                assert(entries[entries.len() - 1] == entries.last());
            }
        }
        if forall|i: int| 0 <= i < entries.len() ==> partition_of(#[trigger] entries[i]) != p {
            assert forall|i: int| 0 <= i < rest.len() implies partition_of(#[trigger] rest[i]) != p by {
                assert(rest[i] == entries[i]);
            }
            assert(partition_of(entries[entries.len() - 1]) != p);
        }
    }
}

proof fn lemma_clustering_into_group(
    groups: Seq<Seq<ManifestEntry>>,
    entries: Seq<ManifestEntry>,
    e: ManifestEntry,
    at: int,
)
    requires
        is_clustering(groups, entries),
        0 <= at < groups.len(),
        partition_of(groups[at][0]) == partition_of(e),
    ensures
        is_clustering(groups.update(at, groups[at].push(e)), entries.push(e)),
{
    let more = groups.update(at, groups[at].push(e));
    assert forall|g: int| 0 <= g < more.len() implies (#[trigger] more[g]).len() > 0 && more[g]
        == of_partition(entries.push(e), partition_of(more[g][0])) by {
        assert(more[g][0] == groups[g][0]);
        lemma_of_partition_push(entries, e, partition_of(groups[g][0]));
        if g != at {
            assert(partition_of(groups[g][0]) != partition_of(groups[at][0]));
        }
    }
    assert forall|g: int, h: int| 0 <= g < h < more.len() implies partition_of(
        #[trigger] more[g][0],
    ) != partition_of(#[trigger] more[h][0]) by {
        assert(more[g][0] == groups[g][0] && more[h][0] == groups[h][0]);
    }
    assert forall|i: int| 0 <= i < entries.push(e).len() implies exists|g: int|
        0 <= g < more.len() && partition_of(#[trigger] more[g][0]) == partition_of(
            #[trigger] entries.push(e)[i],
        ) by {
        if i < entries.len() {
            let g = choose|g: int|
                0 <= g < groups.len() && partition_of(#[trigger] groups[g][0]) == partition_of(
                    entries[i],
                );
            assert(more[g][0] == groups[g][0]);
        } else {
            assert(more[at][0] == groups[at][0]);
        }
    }
}

proof fn lemma_clustering_new_group(
    groups: Seq<Seq<ManifestEntry>>,
    entries: Seq<ManifestEntry>,
    e: ManifestEntry,
)
    requires
        is_clustering(groups, entries),
        forall|g: int|
            0 <= g < groups.len() ==> partition_of(#[trigger] groups[g][0]) != partition_of(e),
    ensures
        is_clustering(groups.push(seq![e]), entries.push(e)),
{
    let more = groups.push(seq![e]);
    let p = partition_of(e);
    assert forall|i: int| 0 <= i < entries.len() implies partition_of(#[trigger] entries[i]) != p by {
        let g = choose|g: int|
            0 <= g < groups.len() && partition_of(#[trigger] groups[g][0]) == partition_of(
                entries[i],
            );
        assert(partition_of(groups[g][0]) != p);
    }
    lemma_of_partition_members(entries, p);
    lemma_of_partition_push(entries, e, p);
    assert forall|g: int| 0 <= g < more.len() implies (#[trigger] more[g]).len() > 0 && more[g]
        == of_partition(entries.push(e), partition_of(more[g][0])) by {
        if g < groups.len() {
            assert(more[g] == groups[g]);
            lemma_of_partition_push(entries, e, partition_of(groups[g][0]));
        } else {
            assert(of_partition(entries, p) =~= Seq::<ManifestEntry>::empty());
            assert(more[g] =~= of_partition(entries, p).push(e));
        }
    }
    assert forall|g: int, h: int| 0 <= g < h < more.len() implies partition_of(
        #[trigger] more[g][0],
    ) != partition_of(#[trigger] more[h][0]) by {
        assert(more[g] == groups[g]);
        if h < groups.len() {
            assert(more[h] == groups[h]);
        } else {
            assert(more[h][0] == e);
        }
    }
    assert forall|i: int| 0 <= i < entries.push(e).len() implies exists|g: int|
        0 <= g < more.len() && partition_of(#[trigger] more[g][0]) == partition_of(
            #[trigger] entries.push(e)[i],
        ) by {
        if i < entries.len() {
            let g = choose|g: int|
                0 <= g < groups.len() && partition_of(#[trigger] groups[g][0]) == partition_of(
                    entries[i],
                );
            assert(more[g] == groups[g]);
        } else {
            assert(more[groups.len() as int][0] == e);
        }
    }
}

/// The place of the group of the partition `p`.
fn find_group(groups: &Vec<Vec<ManifestEntry>>, p: &Struct) -> (r: Option<usize>)
    requires
        forall|g: int| 0 <= g < groups@.len() ==> (#[trigger] groups@[g])@.len() > 0,
    ensures
        match r {
            Some(g) => g < groups@.len() && partition_of(groups@[g as int]@[0]) == p@,
            None => forall|g: int|
                0 <= g < groups@.len() ==> partition_of(#[trigger] groups@[g]@[0]) != p@,
        },
{
    let mut g: usize = 0;
    while g < groups.len()
        invariant
            g <= groups@.len(),
            forall|g: int| 0 <= g < groups@.len() ==> (#[trigger] groups@[g])@.len() > 0,
            forall|k: int| 0 <= k < g ==> partition_of(#[trigger] groups@[k]@[0]) != p@,
        decreases groups@.len() - g,
    {
        if same_partition(&groups[g][0].data_file.partition, p) {
            return Some(g);
        }
        g = g + 1;
    }
    None
}

/// Groups `entries` by partition.
pub fn cluster_entries(entries: Vec<ManifestEntry>) -> (groups: Vec<Vec<ManifestEntry>>)
    ensures
        is_clustering(group_views(groups@), entries@),
{
    let ghost all = entries@;
    let mut groups: Vec<Vec<ManifestEntry>> = Vec::new();
    for e in iter: entries
        invariant
            iter.seq() == all,
            is_clustering(group_views(groups@), all.take(iter.index() as int)),
    {
        let ghost before = group_views(groups@);
        let ghost done = all.take(iter.index() as int);
        let ghost added = e;
        proof {
            assert(all.take(iter.index() + 1) =~= done.push(e));
            assert forall|g: int| 0 <= g < groups@.len() implies (#[trigger] groups@[g])@.len() > 0 by {
                assert(before[g] == groups@[g]@);
            }
        }
        match find_group(&groups, &e.data_file.partition) {
            Some(g) => {
                proof {
                    assert(before[g as int] == groups@[g as int]@);
                    lemma_clustering_into_group(before, done, e, g as int);
                }
                groups[g].push(e);
                assert(group_views(groups@) =~= before.update(
                    g as int,
                    before[g as int].push(added),
                ));
            },
            None => {
                proof {
                    assert forall|g: int| 0 <= g < before.len() implies partition_of(
                        #[trigger] before[g][0],
                    ) != partition_of(e) by {
                        assert(before[g] == groups@[g]@);
                    }
                    lemma_clustering_new_group(before, done, e);
                }
                let mut group: Vec<ManifestEntry> = Vec::new();
                group.push(e);
                assert(group@ =~= seq![added]);
                groups.push(group);
                assert(group_views(groups@) =~= before.push(seq![added]));
            },
        }
    }
    assert(all.take(all.len() as int) =~= all);
    groups
}

/// No entry is lost and none is made up: in each partition, the groups hold what the entries hold.
pub proof fn law_clustering_keeps_every_entry(
    groups: Seq<Seq<ManifestEntry>>,
    entries: Seq<ManifestEntry>,
    e: ManifestEntry,
)
    requires
        is_clustering(groups, entries),
    ensures
        entries.contains(e) <==> exists|g: int|
            0 <= g < groups.len() && (#[trigger] groups[g]).contains(e),
{
    if entries.contains(e) {
        let i = choose|i: int| 0 <= i < entries.len() && entries[i] == e;
        let g = choose|g: int|
            0 <= g < groups.len() && partition_of(#[trigger] groups[g][0]) == partition_of(
                entries[i],
            );
        lemma_of_partition_holds(entries, i);
        assert(groups[g].contains(e));
    }
    if exists|g: int| 0 <= g < groups.len() && (#[trigger] groups[g]).contains(e) {
        let g = choose|g: int| 0 <= g < groups.len() && (#[trigger] groups[g]).contains(e);
        lemma_of_partition_members(entries, partition_of(groups[g][0]));
        let k = choose|k: int| 0 <= k < groups[g].len() && groups[g][k] == e;
        assert(of_partition(entries, partition_of(groups[g][0]))[k] == e);
    }
}

proof fn lemma_of_partition_holds(entries: Seq<ManifestEntry>, i: int)
    requires
        0 <= i < entries.len(),
    ensures
        of_partition(entries, partition_of(entries[i])).contains(entries[i]),
    decreases entries.len(),
{
    reveal(Seq::filter);
    let p = partition_of(entries[i]);
    let rest = of_partition(entries.drop_last(), p);
    if i == entries.len() - 1 {
        assert(of_partition(entries, p) == rest.push(entries[i]));
        assert(of_partition(entries, p)[rest.len() as int] == entries[i]);
    } else {
        lemma_of_partition_holds(entries.drop_last(), i);
        let k = choose|k: int| 0 <= k < rest.len() && rest[k] == entries[i];
        assert(of_partition(entries, p)[k] == entries[i]);
    }
}

/// Every group is tight: all its files are in one partition.
pub proof fn law_clusters_are_tight(
    groups: Seq<Seq<ManifestEntry>>,
    entries: Seq<ManifestEntry>,
    g: int,
    k: int,
)
    requires
        is_clustering(groups, entries),
        0 <= g < groups.len(),
        0 <= k < groups[g].len(),
    ensures
        partition_of(groups[g][k]) == partition_of(groups[g][0]),
{
    lemma_of_partition_members(entries, partition_of(groups[g][0]));
}

/// How a manifest is written.
#[derive(Clone, Copy, Debug, PartialEq, Eq, Structural)]
pub enum ManifestWriterKind {
    V1,
    V2Data,
    V2Deletes,
    V3Data,
    V3Deletes,
}

/// How a manifest of a table of version `version` is written.
pub open spec fn writer_kind_spec(version: FormatVersion, is_delete: bool) -> ManifestWriterKind {
    match version {
        FormatVersion::V1 => ManifestWriterKind::V1,
        FormatVersion::V2 => if is_delete {
            ManifestWriterKind::V2Deletes
        } else {
            ManifestWriterKind::V2Data
        },
        _ => if is_delete {
            ManifestWriterKind::V3Deletes
        } else {
            ManifestWriterKind::V3Data
        },
    }
}

/// How a manifest of a table of version `version` is written.
pub fn writer_kind(version: FormatVersion, is_delete: bool) -> (r: ManifestWriterKind)
    ensures
        r == writer_kind_spec(version, is_delete),
{
    match version {
        FormatVersion::V1 => ManifestWriterKind::V1,
        FormatVersion::V2 => if is_delete {
            ManifestWriterKind::V2Deletes
        } else {
            ManifestWriterKind::V2Data
        },
        _ => if is_delete {
            ManifestWriterKind::V3Deletes
        } else {
            ManifestWriterKind::V3Data
        },
    }
}

/// A manifest of a table of the first version says nothing of its content; of any later version
/// it is written for deletes just where it holds deletes, and for data just where it does not. The
/// second version has writers of its own, and the third and fourth share theirs.
pub proof fn law_writer_tells_version_and_content(version: FormatVersion, is_delete: bool)
    ensures
        writer_kind_spec(version, is_delete) is V1 <==> version is V1,
        writer_kind_spec(version, is_delete) is V2Data || writer_kind_spec(version, is_delete)
            is V2Deletes <==> version is V2,
        writer_kind_spec(version, is_delete) is V3Data || writer_kind_spec(version, is_delete)
            is V3Deletes <==> version is V3 || version is V4,
        version !is V1 ==> ((writer_kind_spec(version, is_delete) is V2Deletes
            || writer_kind_spec(version, is_delete) is V3Deletes) <==> is_delete),
        version !is V1 ==> ((writer_kind_spec(version, is_delete) is V2Data || writer_kind_spec(
            version,
            is_delete,
        ) is V3Data) <==> !is_delete),
{
}

/// A manifest to write.
pub struct ManifestWrite {
    pub path: String,
    pub spec_id: i32,
    pub kind: ManifestWriterKind,
    pub entries: Vec<ManifestEntry>,
}

/// What the manifests of one commit have in common.
pub struct WriteSetting {
    pub location: Seq<char>,
    pub commit_id: u128,
    pub version: FormatVersion,
}

/// Whether `w` is the manifest number `n` of a commit, for the entries `entries`.
pub open spec fn writes(
    w: ManifestWrite,
    setting: WriteSetting,
    n: int,
    spec_id: i32,
    is_delete: bool,
    entries: Seq<ManifestEntry>,
) -> bool {
    &&& w.path@ == manifest_path(setting.location, setting.commit_id, n as u64, "parquet"@)
    &&& w.spec_id == spec_id
    &&& w.kind == writer_kind_spec(setting.version, is_delete)
    &&& w.entries@ == entries
}

/// The entries of each manifest to write.
pub open spec fn written(writes: Seq<ManifestWrite>) -> Seq<Seq<ManifestEntry>> {
    writes.map_values(|w: ManifestWrite| w.entries@)
}

/// Whether `ws` write `entries` under the spec `spec_id`, numbered from `first`: by partition
/// where they are partition-scoped, into one manifest where they are not, and into none where
/// there is no entry.
pub open spec fn writes_entries(
    ws: Seq<ManifestWrite>,
    setting: WriteSetting,
    first: int,
    spec_id: i32,
    is_delete: bool,
    entries: Seq<ManifestEntry>,
    partition_scoped: bool,
) -> bool {
    &&& forall|i: int|
        0 <= i < ws.len() ==> writes(
            #[trigger] ws[i],
            setting,
            first + i,
            spec_id,
            is_delete,
            ws[i].entries@,
        )
    &&& if partition_scoped || entries.len() == 0 {
        is_clustering(written(ws), entries)
    } else {
        written(ws) == seq![entries]
    }
}

proof fn lemma_clustering_is_small(groups: Seq<Seq<ManifestEntry>>, entries: Seq<ManifestEntry>)
    requires
        is_clustering(groups, entries),
    ensures
        groups.len() <= entries.len(),
    decreases groups.len(),
{
    // Each group's first entry stands in `entries`, at a place of its own.
    if groups.len() > 0 {
        let places = Seq::new(
            groups.len(),
            |g: int|
                choose|i: int| 0 <= i < entries.len() && #[trigger] entries[i] == groups[g][0],
        );
        assert forall|g: int| 0 <= g < groups.len() implies 0 <= #[trigger] places[g]
            < entries.len() && entries[places[g]] == groups[g][0] by {
            lemma_of_partition_members(entries, partition_of(groups[g][0]));
            assert(entries.contains(of_partition(entries, partition_of(groups[g][0]))[0]));
            assert(entries.contains(groups[g][0]));
        }
        assert(places.no_duplicates()) by {
            assert forall|g: int, h: int| 0 <= g < h < places.len() implies places[g]
                != places[h] by {
                assert(partition_of(groups[g][0]) != partition_of(groups[h][0]));
            }
        }
        lemma_distinct_below(places, entries.len());
    }
}

/// Different numbers below a bound are no more than the bound.
pub proof fn lemma_distinct_below(s: Seq<int>, n: nat)
    requires
        s.no_duplicates(),
        forall|i: int| 0 <= i < s.len() ==> 0 <= #[trigger] s[i] < n,
    ensures
        s.len() <= n,
{
    s.unique_seq_to_set();
    let all = vstd::set_lib::set_int_range(0, n as int);
    vstd::set_lib::lemma_int_range(0, n as int);
    assert(s.to_set().subset_of(all));
    vstd::set_lib::lemma_len_subset(s.to_set(), all);
}

/// Plans the manifests that `entries` are written to, and counts them on `counter`.
pub fn write_entries_clustered(
    location: &str,
    commit_id: u128,
    version: FormatVersion,
    counter: &mut u64,
    spec_id: i32,
    is_delete: bool,
    entries: Vec<ManifestEntry>,
    partition_scoped: bool,
) -> (ws: Vec<ManifestWrite>)
    requires
        *old(counter) + entries@.len() <= u64::MAX,
    ensures
        writes_entries(
            ws@,
            (WriteSetting { location: location@, commit_id, version }),
            *old(counter) as int,
            spec_id,
            is_delete,
            entries@,
            partition_scoped,
        ),
        *final(counter) == *old(counter) + ws@.len(),
        ws@.len() <= entries@.len(),
{
    let ghost all = entries@;
    let ghost first = *counter as int;
    let ghost setting = WriteSetting { location: location@, commit_id, version };
    let groups: Vec<Vec<ManifestEntry>> = if partition_scoped || entries.len() == 0 {
        cluster_entries(entries)
    } else {
        let mut one: Vec<Vec<ManifestEntry>> = Vec::new();
        one.push(entries);
        assert(group_views(one@) =~= seq![all]);
        one
    };
    proof {
        if partition_scoped || all.len() == 0 {
            lemma_clustering_is_small(group_views(groups@), all);
        }
    }
    let ghost views = group_views(groups@);
    let mut ws: Vec<ManifestWrite> = Vec::with_capacity(groups.len());
    for group in iter: groups
        invariant
            iter.seq().map_values(|g: Vec<ManifestEntry>| g@) == views,
            iter.seq().len() == views.len(),
            ws@.len() == iter.index(),
            *counter == first + iter.index(),
            first + views.len() <= u64::MAX,
            setting == (WriteSetting { location: location@, commit_id, version }),
            written(ws@) == views.take(iter.index() as int),
            forall|i: int|
                0 <= i < ws@.len() ==> writes(
                    #[trigger] ws@[i],
                    setting,
                    first + i,
                    spec_id,
                    is_delete,
                    ws@[i].entries@,
                ),
    {
        let ghost before = ws@;
        proof {
            assert(views[iter.index() as int] == group@);
        }
        let path = manifest_path_of(location, commit_id, *counter, "parquet");
        ws.push(
            ManifestWrite {
                path,
                spec_id,
                kind: writer_kind(version, is_delete),
                entries: group,
            },
        );
        *counter = *counter + 1;
        assert(written(ws@) =~= written(before).push(ws@.last().entries@));
        assert(views.take(iter.index() + 1) =~= views.take(iter.index() as int).push(
            views[iter.index() as int],
        ));
    }
    assert(views.take(views.len() as int) =~= views);
    ws
}

/// The manifests that entries are written to hold each entry once and nothing else, under the spec
/// that was asked for and with the writer of its content; where they are partition-scoped, the
/// files of a manifest agree in their partitions, and the files of two manifests do not.
pub proof fn law_written_manifests_hold_the_entries(
    ws: Seq<ManifestWrite>,
    setting: WriteSetting,
    first: int,
    spec_id: i32,
    is_delete: bool,
    entries: Seq<ManifestEntry>,
    partition_scoped: bool,
)
    requires
        writes_entries(ws, setting, first, spec_id, is_delete, entries, partition_scoped),
    ensures
        forall|i: int|
            0 <= i < entries.len() ==> exists|w: int|
                0 <= w < ws.len() && (#[trigger] ws[w]).entries@.contains(#[trigger] entries[i]),
        forall|w: int, k: int|
            0 <= w < ws.len() && 0 <= k < ws[w].entries@.len() ==> entries.contains(
                #[trigger] ws[w].entries@[k],
            ),
        forall|w: int| 0 <= w < ws.len() ==> (#[trigger] ws[w]).spec_id == spec_id,
        forall|w: int|
            0 <= w < ws.len() ==> ((#[trigger] ws[w]).kind is V1 <==> setting.version is V1),
        forall|w: int|
            0 <= w < ws.len() && setting.version !is V1 ==> (((#[trigger] ws[w]).kind is V2Deletes
                || ws[w].kind is V3Deletes) <==> is_delete),
        forall|w: int|
            0 <= w < ws.len() && setting.version !is V1 ==> (((#[trigger] ws[w]).kind is V2Data
                || ws[w].kind is V3Data) <==> !is_delete),
        forall|w: int, j: int, k: int|
            partition_scoped && 0 <= w < ws.len() && 0 <= j < ws[w].entries@.len() && 0 <= k
                < ws[w].entries@.len() ==> (#[trigger] ws[w].entries@[j]).data_file.partition@ == (
            #[trigger] ws[w].entries@[k]).data_file.partition@,
        forall|v: int, w: int, j: int, k: int|
            partition_scoped && 0 <= v < w < ws.len() && 0 <= j < ws[v].entries@.len() && 0 <= k
                < ws[w].entries@.len() ==> (#[trigger] ws[v].entries@[j]).data_file.partition@ != (
            #[trigger] ws[w].entries@[k]).data_file.partition@,
        !partition_scoped && entries.len() > 0 ==> ws.len() == 1,
        entries.len() == 0 ==> ws.len() == 0,
{
    let groups = written(ws);
    assert forall|w: int| 0 <= w < ws.len() implies writes(
        #[trigger] ws[w],
        setting,
        first + w,
        spec_id,
        is_delete,
        ws[w].entries@,
    ) by {}
    law_writer_tells_version_and_content(setting.version, is_delete);
    if partition_scoped || entries.len() == 0 {
        assert forall|i: int| 0 <= i < entries.len() implies exists|w: int|
            0 <= w < ws.len() && (#[trigger] ws[w]).entries@.contains(#[trigger] entries[i]) by {
            assert(entries.contains(entries[i]));
            law_clustering_keeps_every_entry(groups, entries, entries[i]);
            let g = choose|g: int|
                0 <= g < groups.len() && (#[trigger] groups[g]).contains(entries[i]);
            assert(ws[g].entries@ == groups[g]);
        }
        assert forall|w: int, k: int|
            0 <= w < ws.len() && 0 <= k < ws[w].entries@.len() implies entries.contains(
            #[trigger] ws[w].entries@[k],
        ) by {
            let e = ws[w].entries@[k];
            assert(groups[w] == ws[w].entries@);
            assert(groups[w].contains(e));
            law_clustering_keeps_every_entry(groups, entries, e);
        }
        assert forall|w: int, j: int, k: int|
            0 <= w < ws.len() && 0 <= j < ws[w].entries@.len() && 0 <= k
                < ws[w].entries@.len() implies (#[trigger] ws[w].entries@[j]).data_file.partition@
            == (#[trigger] ws[w].entries@[k]).data_file.partition@ by {
            assert(groups[w] == ws[w].entries@);
            law_clusters_are_tight(groups, entries, w, j);
            law_clusters_are_tight(groups, entries, w, k);
        }
        assert forall|v: int, w: int, j: int, k: int|
            0 <= v < w < ws.len() && 0 <= j < ws[v].entries@.len() && 0 <= k
                < ws[w].entries@.len() implies (#[trigger] ws[v].entries@[j]).data_file.partition@
            != (#[trigger] ws[w].entries@[k]).data_file.partition@ by {
            assert(groups[v] == ws[v].entries@);
            assert(groups[w] == ws[w].entries@);
            law_clusters_are_tight(groups, entries, v, j);
            law_clusters_are_tight(groups, entries, w, k);
            assert(partition_of(groups[v][0]) != partition_of(groups[w][0]));
        }
        if entries.len() == 0 && ws.len() > 0 {
            assert(groups[0].len() > 0);
            assert(groups[0].contains(groups[0][0]));
            law_clustering_keeps_every_entry(groups, entries, groups[0][0]);
        }
    } else {
        assert(groups.len() == 1);
        assert(groups[0] == ws[0].entries@);
        assert forall|i: int| 0 <= i < entries.len() implies exists|w: int|
            0 <= w < ws.len() && (#[trigger] ws[w]).entries@.contains(#[trigger] entries[i]) by {
            assert(ws[0].entries@[i] == entries[i]);
        }
    }
}

/// The manifests that entries are written to are numbered one after the other from the first
/// number, as Parquet files of the commit.
pub proof fn law_written_manifests_are_numbered(
    ws: Seq<ManifestWrite>,
    setting: WriteSetting,
    first: int,
    spec_id: i32,
    is_delete: bool,
    entries: Seq<ManifestEntry>,
    partition_scoped: bool,
    w: int,
)
    requires
        writes_entries(ws, setting, first, spec_id, is_delete, entries, partition_scoped),
        0 <= w < ws.len(),
    ensures
        ws[w].path@ == manifest_path(
            setting.location,
            setting.commit_id,
            (first + w) as u64,
            "parquet"@,
        ),
{
    assert(writes(ws[w], setting, first + w, spec_id, is_delete, ws[w].entries@));
}

} // verus!
