//! How often a file is listed.

use std::sync::Arc;

use vstd::prelude::*;

use crate::cluster::{is_clustering, partition_of};
use crate::manifest::{restamped, DataFile, ManifestEntry};
use crate::rebalance_root_manifest::{restamped_all, undeleted};

verus! {

/// How often `entries` list the file `file` live.
pub open spec fn listings(entries: Seq<ManifestEntry>, file: Arc<DataFile>) -> nat
    decreases entries.len(),
{
    if entries.len() == 0 {
        0
    } else {
        listings(entries.drop_last(), file) + (if entries.last().alive() && entries.last().data_file
            == file {
            1nat
        } else {
            0
        })
    }
}

/// How often the groups `groups` together list the file `file` live.
pub open spec fn group_listings(groups: Seq<Seq<ManifestEntry>>, file: Arc<DataFile>) -> nat
    decreases groups.len(),
{
    if groups.len() == 0 {
        0
    } else {
        group_listings(groups.drop_last(), file) + listings(groups.last(), file)
    }
}

/// One more entry.
pub proof fn lemma_listings_push(entries: Seq<ManifestEntry>, e: ManifestEntry, file: Arc<DataFile>)
    ensures
        listings(entries.push(e), file) == listings(entries, file) + (if e.alive() && e.data_file
            == file {
            1nat
        } else {
            0
        }),
{
    assert(entries.push(e).drop_last() =~= entries);
}

/// One more group.
pub proof fn lemma_group_listings_push(
    groups: Seq<Seq<ManifestEntry>>,
    group: Seq<ManifestEntry>,
    file: Arc<DataFile>,
)
    ensures
        group_listings(groups.push(group), file) == group_listings(groups, file) + listings(
            group,
            file,
        ),
{
    assert(groups.push(group).drop_last() =~= groups);
}

/// More groups.
pub proof fn lemma_group_listings_add(
    a: Seq<Seq<ManifestEntry>>,
    b: Seq<Seq<ManifestEntry>>,
    file: Arc<DataFile>,
)
    ensures
        group_listings(a + b, file) == group_listings(a, file) + group_listings(b, file),
    decreases b.len(),
{
    if b.len() == 0 {
        assert(a + b =~= a);
    } else {
        lemma_group_listings_add(a, b.drop_last(), file);
        assert((a + b).drop_last() =~= a + b.drop_last());
    }
}

/// One group grows.
proof fn lemma_group_listings_update(
    before: Seq<Seq<ManifestEntry>>,
    after: Seq<Seq<ManifestEntry>>,
    g: int,
    file: Arc<DataFile>,
    more: nat,
)
    requires
        0 <= g < before.len(),
        after.len() == before.len(),
        forall|k: int| 0 <= k < after.len() && k != g ==> after[k] == before[k],
        listings(after[g], file) == listings(before[g], file) + more,
    ensures
        group_listings(after, file) == group_listings(before, file) + more,
    decreases before.len(),
{
    if g == before.len() - 1 {
        assert(after.drop_last() =~= before.drop_last());
    } else {
        assert(after.last() == before.last());
        lemma_group_listings_update(before.drop_last(), after.drop_last(), g, file, more);
    }
}

proof fn lemma_empty_groups_list_nothing(groups: Seq<Seq<ManifestEntry>>, file: Arc<DataFile>)
    requires
        forall|g: int| 0 <= g < groups.len() ==> (#[trigger] groups[g]).len() == 0,
    ensures
        group_listings(groups, file) == 0,
    decreases groups.len(),
{
    if groups.len() > 0 {
        assert(groups[groups.len() - 1].len() == 0);
        lemma_empty_groups_list_nothing(groups.drop_last(), file);
    }
}

/// The parts of `entries` by key: for each of `keys` the entries that have it.
pub open spec fn parts<K>(
    entries: Seq<ManifestEntry>,
    key: spec_fn(ManifestEntry) -> K,
    keys: Seq<K>,
) -> Seq<Seq<ManifestEntry>> {
    keys.map_values(|k: K| entries.filter(|e: ManifestEntry| key(e) == k))
}

/// Parting entries by key lists every file as often as before.
pub proof fn lemma_parts_list_alike<K>(
    entries: Seq<ManifestEntry>,
    key: spec_fn(ManifestEntry) -> K,
    keys: Seq<K>,
    file: Arc<DataFile>,
)
    requires
        forall|g: int, h: int|
            0 <= g < h < keys.len() ==> #[trigger] keys[g] != #[trigger] keys[h],
        forall|i: int| 0 <= i < entries.len() ==> keys.contains(key(#[trigger] entries[i])),
    ensures
        group_listings(parts(entries, key, keys), file) == listings(entries, file),
    decreases entries.len(),
{
    reveal(Seq::filter);
    let after = parts(entries, key, keys);
    if entries.len() == 0 {
        lemma_empty_groups_list_nothing(after, file);
    } else {
        let rest = entries.drop_last();
        let last = entries.last();
        let before = parts(rest, key, keys);
        assert forall|i: int| 0 <= i < rest.len() implies keys.contains(key(#[trigger] rest[i])) by {
            assert(rest[i] == entries[i]);
        }
        lemma_parts_list_alike(rest, key, keys, file);
        assert(keys.contains(key(entries[entries.len() - 1])));
        let g = choose|g: int| 0 <= g < keys.len() && keys[g] == key(last);
        assert forall|k: int| 0 <= k < after.len() && k != g implies after[k] == before[k] by {
            if k < g {
                assert(keys[k] != keys[g]);
            } else {
                assert(keys[g] != keys[k]);
            }
        }
        assert(after[g] == before[g].push(last));
        lemma_listings_push(before[g], last, file);
        lemma_group_listings_update(
            before,
            after,
            g,
            file,
            if last.alive() && last.data_file == file {
                1
            } else {
                0
            },
        );
    }
}

/// Grouping entries by partition lists every file as often as before.
pub proof fn law_clustering_lists_alike(
    groups: Seq<Seq<ManifestEntry>>,
    entries: Seq<ManifestEntry>,
    file: Arc<DataFile>,
)
    requires
        is_clustering(groups, entries),
    ensures
        group_listings(groups, file) == listings(entries, file),
{
    let key = |e: ManifestEntry| partition_of(e);
    let keys = groups.map_values(|g: Seq<ManifestEntry>| partition_of(g[0]));
    assert forall|g: int, h: int| 0 <= g < h < keys.len() implies #[trigger] keys[g]
        != #[trigger] keys[h] by {
        assert(partition_of(groups[g][0]) != partition_of(groups[h][0]));
    }
    assert forall|i: int| 0 <= i < entries.len() implies keys.contains(
        key(#[trigger] entries[i]),
    ) by {
        let g = choose|g: int|
            0 <= g < groups.len() && partition_of(#[trigger] groups[g][0]) == partition_of(
                entries[i],
            );
        assert(keys[g] == key(entries[i]));
    }
    lemma_parts_list_alike(entries, key, keys, file);
    assert forall|g: int| 0 <= g < groups.len() implies groups[g] == parts(entries, key, keys)[g] by {
        let p = partition_of(groups[g][0]);
        assert((|e: ManifestEntry| partition_of(e) == p) =~= (|e: ManifestEntry| key(e) == keys[g]));
    }
    assert(groups =~= parts(entries, key, keys));
}

/// Carrying entries over lists every live one as before.
pub proof fn lemma_undeleted_lists_live(entries: Seq<ManifestEntry>, n: nat, file: Arc<DataFile>)
    requires
        n <= entries.len(),
    ensures
        listings(undeleted(entries, Set::empty(), n), file) == listings(
            entries.take(n as int),
            file,
        ),
    decreases n,
{
    if n == 0 {
        assert(entries.take(0) =~= Seq::<ManifestEntry>::empty());
    } else {
        let rest = undeleted(entries, Set::empty(), (n - 1) as nat);
        lemma_undeleted_lists_live(entries, (n - 1) as nat, file);
        assert(entries.take(n as int).drop_last() =~= entries.take(n - 1));
        lemma_listings_push(rest, restamped(entries[n - 1]), file);
    }
}

/// Whether all of `entries` are live.
pub open spec fn all_alive(entries: Seq<ManifestEntry>) -> bool {
    forall|i: int| 0 <= i < entries.len() ==> (#[trigger] entries[i]).alive()
}

/// Live entries list the same files when they are carried over with their history.
pub proof fn lemma_restamped_list_alike(entries: Seq<ManifestEntry>, file: Arc<DataFile>)
    requires
        all_alive(entries),
    ensures
        listings(restamped_all(entries), file) == listings(entries, file),
    decreases entries.len(),
{
    if entries.len() > 0 {
        let rest = entries.drop_last();
        assert forall|i: int| 0 <= i < rest.len() implies (#[trigger] rest[i]).alive() by {
            assert(rest[i] == entries[i]);
        }
        lemma_restamped_list_alike(rest, file);
        assert(restamped_all(entries).drop_last() =~= restamped_all(rest));
        assert(entries[entries.len() - 1].alive());
    }
}

/// Entries behind others.
pub proof fn lemma_listings_add(
    a: Seq<ManifestEntry>,
    b: Seq<ManifestEntry>,
    file: Arc<DataFile>,
)
    ensures
        listings(a + b, file) == listings(a, file) + listings(b, file),
    decreases b.len(),
{
    if b.len() == 0 {
        assert(a + b =~= a);
    } else {
        lemma_listings_add(a, b.drop_last(), file);
        assert((a + b).drop_last() =~= a + b.drop_last());
    }
}

/// A manifest lists a file once for each entry of it that was not deleted.
pub proof fn law_live_entries_are_listed(
    entries: Seq<ManifestEntry>,
    e: ManifestEntry,
    file: Arc<DataFile>,
)
    ensures
        listings(Seq::empty(), file) == 0,
        listings(entries.push(e), file) == listings(entries, file) + (if e.data_file == file && (
        e.status is Existing || e.status is Added) {
            1int
        } else {
            0
        }),
{
    assert(entries.push(e).drop_last() =~= entries);
}

} // verus!
