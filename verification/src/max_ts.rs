//! The newest event time of each cold leaf, kept beside the bucket index.

use vstd::hash_map::StringHashMap;
use vstd::prelude::*;
use vstd::string::StringExecFns;

use crate::manifest::{
    alive_max_ts, alive_newest_ts, alive_times, latest, live_time, ManifestEntry, ManifestFile,
};
use crate::seqs::lemma_take_push;

verus! {

broadcast use vstd::hash_map::group_hash_map_axioms;

pub const MAXTS_SIDECAR_FORMAT_V1: u32 = 1;

/// The path of the stored times of a bucket index.
pub open spec fn maxts_path(bucket_index_path: Seq<char>) -> Seq<char> {
    bucket_index_path + ".max-ts.json"@
}

/// The path of the stored times of a bucket index.
pub fn bucket_index_maxts_sidecar_path(bucket_index_path: &str) -> (r: String)
    ensures
        r@ == maxts_path(bucket_index_path@),
{
    let mut r = bucket_index_path.to_owned();
    r.append(".max-ts.json");
    r
}

/// The newest event time by leaf path. A leaf without a time may be there with none, or not be
/// there at all.
pub struct MaxTsMap {
    map: StringHashMap<Option<i64>>,
}

impl View for MaxTsMap {
    type V = Map<Seq<char>, Option<i64>>;

    closed spec fn view(&self) -> Map<Seq<char>, Option<i64>> {
        self.map@
    }
}

impl MaxTsMap {
    /// No leaf.
    pub fn new() -> (r: Self)
        ensures
            r@ == Map::<Seq<char>, Option<i64>>::empty(),
    {
        MaxTsMap { map: StringHashMap::new() }
    }

    /// Gives the leaf at `path` the time `max_ts`.
    pub fn insert(&mut self, path: String, max_ts: Option<i64>)
        ensures
            final(self)@ == old(self)@.insert(path@, max_ts),
    {
        self.map.insert(path, max_ts);
    }

    /// The entry of the leaf at `path`.
    pub fn get(&self, path: &str) -> (r: Option<&Option<i64>>)
        ensures
            match r {
                Some(t) => self@.contains_key(path@) && *t == self@[path@],
                None => !self@.contains_key(path@),
            },
    {
        self.map.get(path)
    }
}

/// The time that `times` has for the leaf at `path`; an entry without a time is no answer.
pub open spec fn known(times: Map<Seq<char>, Option<i64>>, path: Seq<char>) -> Option<i64> {
    if times.contains_key(path) {
        times[path]
    } else {
        None
    }
}

/// The time of an entry: an entry without one is as good as none.
pub fn sidecar_hit(entry: Option<&Option<i64>>) -> (r: Option<i64>)
    ensures
        r == match entry {
            Some(t) => *t,
            None => None,
        },
{
    match entry {
        Some(Some(v)) => Some(*v),
        _ => None,
    }
}

/// The time that `times` has for a leaf.
pub fn known_time(times: &MaxTsMap, leaf: &ManifestFile) -> (r: Option<i64>)
    ensures
        r == known(times@, leaf.manifest_path@),
{
    sidecar_hit(times.get(leaf.manifest_path.as_str()))
}

/// Stored times, with the field they are of.
pub struct MaxTsSidecar {
    pub format_version: u32,
    pub ts_field_id: i32,
    pub entries: MaxTsMap,
}

/// The times of `sidecar`, if it is of a known form and of the field `ts_field_id`.
pub fn accept_maxts_sidecar(sidecar: MaxTsSidecar, ts_field_id: i32) -> (r: Option<MaxTsMap>)
    ensures
        r == if sidecar.format_version == MAXTS_SIDECAR_FORMAT_V1 && sidecar.ts_field_id
            == ts_field_id {
            Some(sidecar.entries)
        } else {
            None
        },
{
    if sidecar.format_version != MAXTS_SIDECAR_FORMAT_V1 {
        return None;
    }
    if sidecar.ts_field_id != ts_field_id {
        return None;
    }
    Some(sidecar.entries)
}

/// The times that were read of a root's manifests, by path.
pub struct RefTimes {
    /// The newest time of the live files that have one: what a manifest is closed by.
    pub newest: MaxTsMap,
    /// That time where every live file has one: what a manifest is past retention by.
    pub whole: MaxTsMap,
}

/// The times of a root's manifests, as maps.
pub struct RefTimesView {
    pub newest: Map<Seq<char>, Option<i64>>,
    pub whole: Map<Seq<char>, Option<i64>>,
}

impl View for RefTimes {
    type V = RefTimesView;

    open spec fn view(&self) -> RefTimesView {
        RefTimesView { newest: self.newest@, whole: self.whole@ }
    }
}

impl RefTimes {
    /// No manifest.
    pub fn new() -> (r: Self)
        ensures
            r@ == (RefTimesView { newest: Map::empty(), whole: Map::empty() }),
    {
        RefTimes { newest: MaxTsMap::new(), whole: MaxTsMap::new() }
    }

    /// Takes in what the manifest at `path` says for the field `ts_field_id`, its entries being
    /// `entries`.
    pub fn add_manifest(&mut self, path: &str, entries: &[ManifestEntry], ts_field_id: i32)
        ensures
            final(self)@ == (RefTimesView {
                newest: old(self)@.newest.insert(
                    path@,
                    latest(alive_times(entries@, ts_field_id)),
                ),
                whole: old(self)@.whole.insert(path@, live_time(entries@, ts_field_id)),
            }),
    {
        self.newest.insert(path.to_owned(), alive_newest_ts(entries, ts_field_id));
        self.whole.insert(path.to_owned(), alive_max_ts(entries, ts_field_id));
    }
}

/// A time to store.
#[derive(Clone, Debug, PartialEq, Eq)]
pub struct MaxTsEntry {
    pub path: String,
    pub max_ts: i64,
}

/// Times to store, with the field they are of.
pub struct MaxTsWrite {
    pub format_version: u32,
    pub ts_field_id: i32,
    pub entries: Vec<MaxTsEntry>,
}

/// The time to store for a leaf: the one that is stored, or else one that was read from its files,
/// as a cold leaf or as a manifest of the root. A time that only a summary gives is not stored: it
/// bounds the files, and is not what they say.
pub open spec fn time_to_store(
    leaf: ManifestFile,
    stored: Map<Seq<char>, Option<i64>>,
    read: Map<Seq<char>, Option<i64>>,
    read_hot: Map<Seq<char>, Option<i64>>,
) -> Option<i64> {
    match known(stored, leaf.manifest_path@) {
        Some(t) => Some(t),
        None => match known(read, leaf.manifest_path@) {
            Some(t) => Some(t),
            None => known(read_hot, leaf.manifest_path@),
        },
    }
}

/// What is stored for `leaves`: a leaf without a time is left out, to be asked again.
pub open spec fn times_to_store(
    leaves: Seq<ManifestFile>,
    stored: Map<Seq<char>, Option<i64>>,
    read: Map<Seq<char>, Option<i64>>,
    read_hot: Map<Seq<char>, Option<i64>>,
) -> Seq<(Seq<char>, i64)>
    decreases leaves.len(),
{
    if leaves.len() == 0 {
        Seq::empty()
    } else {
        let rest = times_to_store(leaves.drop_last(), stored, read, read_hot);
        match time_to_store(leaves.last(), stored, read, read_hot) {
            Some(t) => rest.push((leaves.last().manifest_path@, t)),
            None => rest,
        }
    }
}

/// The paths and times of a list to store.
pub open spec fn entry_views(entries: Seq<MaxTsEntry>) -> Seq<(Seq<char>, i64)> {
    entries.map_values(|e: MaxTsEntry| (e.path@, e.max_ts))
}

/// The times to store for `leaves`.
pub fn maxts_sidecar(
    leaves: &[ManifestFile],
    stored: &MaxTsMap,
    read: &MaxTsMap,
    read_hot: &MaxTsMap,
    ts_field_id: i32,
) -> (r: MaxTsWrite)
    ensures
        r.format_version == MAXTS_SIDECAR_FORMAT_V1,
        r.ts_field_id == ts_field_id,
        entry_views(r.entries@) == times_to_store(leaves@, stored@, read@, read_hot@),
{
    let mut entries: Vec<MaxTsEntry> = Vec::new();
    let mut i: usize = 0;
    assert(entry_views(entries@) =~= Seq::<(Seq<char>, i64)>::empty());
    while i < leaves.len()
        invariant
            i <= leaves@.len(),
            entry_views(entries@) == times_to_store(
                leaves@.take(i as int),
                stored@,
                read@,
                read_hot@,
            ),
        decreases leaves@.len() - i,
    {
        let ghost before = entries@;
        proof {
            lemma_take_push(leaves@, i as int);
            assert(leaves@.take(i + 1).drop_last() =~= leaves@.take(i as int));
        }
        let time = match known_time(stored, &leaves[i]) {
            Some(t) => Some(t),
            None => match known_time(read, &leaves[i]) {
                Some(t) => Some(t),
                None => known_time(read_hot, &leaves[i]),
            },
        };
        if let Some(t) = time {
            entries.push(MaxTsEntry { path: leaves[i].manifest_path.clone(), max_ts: t });
            assert(entry_views(entries@) =~= entry_views(before).push(
                (leaves@[i as int].manifest_path@, t),
            ));
        }
        i = i + 1;
    }
    assert(leaves@.take(i as int) =~= leaves@);
    MaxTsWrite { format_version: MAXTS_SIDECAR_FORMAT_V1, ts_field_id, entries }
}

/// What is stored is what was stored before or read from files, never a missing time.
pub proof fn law_only_real_times_are_stored(
    leaves: Seq<ManifestFile>,
    stored: Map<Seq<char>, Option<i64>>,
    read: Map<Seq<char>, Option<i64>>,
    read_hot: Map<Seq<char>, Option<i64>>,
    k: int,
)
    requires
        0 <= k < times_to_store(leaves, stored, read, read_hot).len(),
    ensures
        ({
            let entry = times_to_store(leaves, stored, read, read_hot)[k];
            exists|i: int|
                0 <= i < leaves.len() && (#[trigger] leaves[i]).manifest_path@ == entry.0
                    && time_to_store(leaves[i], stored, read, read_hot) == Some(entry.1)
        }),
    decreases leaves.len(),
{
    let rest = leaves.drop_last();
    let fewer = times_to_store(rest, stored, read, read_hot);
    if k < fewer.len() {
        law_only_real_times_are_stored(rest, stored, read, read_hot, k);
        let i = choose|i: int|
            0 <= i < rest.len() && (#[trigger] rest[i]).manifest_path@ == fewer[k].0
                && time_to_store(rest[i], stored, read, read_hot) == Some(fewer[k].1);
        assert(leaves[i] == rest[i]);
    } else {
        assert(leaves[leaves.len() - 1] == leaves.last());
    }
}

/// The map that stored times are read back as.
pub open spec fn read_back(entries: Seq<(Seq<char>, i64)>) -> Map<Seq<char>, Option<i64>>
    decreases entries.len(),
{
    if entries.len() == 0 {
        Map::empty()
    } else {
        read_back(entries.drop_last()).insert(entries.last().0, Some(entries.last().1))
    }
}

/// Whether the times in `times` are those of the files that `leaves` list, `load` giving them.
pub open spec fn says_file_times(
    times: Map<Seq<char>, Option<i64>>,
    leaves: Seq<ManifestFile>,
    ts_field_id: i32,
    load: spec_fn(ManifestFile) -> Seq<ManifestEntry>,
) -> bool {
    forall|i: int|
        0 <= i < leaves.len() ==> (known(times, (#[trigger] leaves[i]).manifest_path@) is Some
            ==> known(times, leaves[i].manifest_path@) == live_time(load(leaves[i]), ts_field_id))
}

proof fn lemma_read_back_member(entries: Seq<(Seq<char>, i64)>, path: Seq<char>)
    requires
        known(read_back(entries), path) is Some,
    ensures
        exists|k: int|
            0 <= k < entries.len() && (#[trigger] entries[k]).0 == path && known(
                read_back(entries),
                path,
            ) == Some(entries[k].1),
    decreases entries.len(),
{
    if entries.len() > 0 {
        if entries.last().0 == path {
            assert(entries[entries.len() - 1].0 == path);
        } else {
            let rest = entries.drop_last();
            lemma_read_back_member(rest, path);
            let k = choose|k: int|
                0 <= k < rest.len() && (#[trigger] rest[k]).0 == path && known(
                    read_back(rest),
                    path,
                ) == Some(rest[k].1);
            assert(entries[k] == rest[k]);
        }
    }
}

/// What a fold stores are the times of files, where what was stored and read before are: of leaves
/// that each stand in the bucket index once.
pub proof fn law_stored_times_are_file_times(
    leaves: Seq<ManifestFile>,
    stored: Map<Seq<char>, Option<i64>>,
    read: Map<Seq<char>, Option<i64>>,
    read_hot: Map<Seq<char>, Option<i64>>,
    ts_field_id: i32,
    load: spec_fn(ManifestFile) -> Seq<ManifestEntry>,
)
    requires
        forall|i: int, j: int|
            0 <= i < j < leaves.len() ==> leaves[i].manifest_path@ != leaves[j].manifest_path@,
        says_file_times(stored, leaves, ts_field_id, load),
        says_file_times(read, leaves, ts_field_id, load),
        says_file_times(read_hot, leaves, ts_field_id, load),
    ensures
        says_file_times(
            read_back(times_to_store(leaves, stored, read, read_hot)),
            leaves,
            ts_field_id,
            load,
        ),
{
    let entries = times_to_store(leaves, stored, read, read_hot);
    let times = read_back(entries);
    assert forall|i: int|
        0 <= i < leaves.len() && known(
            times,
            (#[trigger] leaves[i]).manifest_path@,
        ) is Some implies known(times, leaves[i].manifest_path@) == live_time(
        load(leaves[i]),
        ts_field_id,
    ) by {
        let path = leaves[i].manifest_path@;
        lemma_read_back_member(entries, path);
        let k = choose|k: int|
            0 <= k < entries.len() && (#[trigger] entries[k]).0 == path && known(times, path)
                == Some(entries[k].1);
        law_only_real_times_are_stored(leaves, stored, read, read_hot, k);
        let j = choose|j: int|
            0 <= j < leaves.len() && (#[trigger] leaves[j]).manifest_path@ == entries[k].0
                && time_to_store(leaves[j], stored, read, read_hot) == Some(entries[k].1);
        assert(i == j);
    }
}

/// A leaf's time is taken from what is stored, else from what was read of the leaf, else from what
/// was read while it was hot; a place that says nothing of the leaf, or says that its time is open,
/// is passed over.
pub proof fn law_stored_time_comes_first(
    leaf: ManifestFile,
    stored: Map<Seq<char>, Option<i64>>,
    read: Map<Seq<char>, Option<i64>>,
    read_hot: Map<Seq<char>, Option<i64>>,
    t: i64,
)
    ensures
        ({
            let p = leaf.manifest_path@;
            let says = |times: Map<Seq<char>, Option<i64>>| times.contains_key(p) && times[p] is Some;
            let r = time_to_store(leaf, stored, read, read_hot);
            &&& says(stored) ==> r == stored[p]
            &&& !says(stored) && says(read) ==> r == read[p]
            &&& !says(stored) && !says(read) && says(read_hot) ==> r == read_hot[p]
            &&& !says(stored) && !says(read) && !says(read_hot) ==> r is None
            &&& known(stored, p) == Some(t) <==> stored.contains_key(p) && stored[p] == Some(t)
        }),
{
}

/// What is read back of a list of times is the last that the list says of each path, and nothing of
/// a path that it does not list.
pub proof fn law_last_time_is_read_back(entries: Seq<(Seq<char>, i64)>, path: Seq<char>)
    ensures
        read_back(entries).contains_key(path) <==> exists|i: int|
            0 <= i < entries.len() && (#[trigger] entries[i]).0 == path,
        read_back(entries).contains_key(path) ==> exists|i: int|
            0 <= i < entries.len() && (#[trigger] entries[i]).0 == path && read_back(entries)[path]
                == Some(entries[i].1) && forall|j: int|
                i < j < entries.len() ==> (#[trigger] entries[j]).0 != path,
    decreases entries.len(),
{
    if entries.len() > 0 {
        let rest = entries.drop_last();
        law_last_time_is_read_back(rest, path);
        assert(entries[entries.len() - 1] == entries.last());
        if entries.last().0 != path {
            if read_back(rest).contains_key(path) {
                let i = choose|i: int|
                    0 <= i < rest.len() && (#[trigger] rest[i]).0 == path && read_back(rest)[path]
                        == Some(rest[i].1) && forall|j: int|
                        i < j < rest.len() ==> (#[trigger] rest[j]).0 != path;
                assert(entries[i] == rest[i]);
                assert forall|j: int| i < j < entries.len() implies (
                #[trigger] entries[j]).0 != path by {
                    if j < rest.len() {
                        assert(rest[j] == entries[j]);
                    }
                }
            }
            if exists|i: int| 0 <= i < entries.len() && (#[trigger] entries[i]).0 == path {
                let i = choose|i: int| 0 <= i < entries.len() && (#[trigger] entries[i]).0 == path;
                assert(rest[i] == entries[i]);
            }
        }
    }
}

/// The times of a bucket index stand beside it, at a path of their own.
pub proof fn law_times_stand_beside_their_index(a: Seq<char>, b: Seq<char>)
    ensures
        maxts_path(a) == maxts_path(b) <==> a == b,
        a.is_prefix_of(maxts_path(a)),
        ".max-ts.json"@.is_suffix_of(maxts_path(a)),
        maxts_path(a) != a,
{
    reveal_strlit(".max-ts.json");
    assert(maxts_path(a).take(a.len() as int) =~= a);
    assert(maxts_path(b).take(b.len() as int) =~= b);
    assert(maxts_path(a).skip(a.len() as int) =~= ".max-ts.json"@);
    assert(maxts_path(a).len() == a.len() + ".max-ts.json"@.len());
    assert(maxts_path(b).len() == b.len() + ".max-ts.json"@.len());
}

} // verus!
