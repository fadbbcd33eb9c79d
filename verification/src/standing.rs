//! What stands at the paths of a store once the manifests of a run are written.

use vstd::prelude::*;

use crate::cluster::{writes_entries, ManifestWrite, WriteSetting};
use crate::commit::{law_manifest_paths_differ, manifest_path};
use crate::manifest::{ManifestEntry, ManifestFile};

verus! {

/// Whether the manifests `ws` of a commit are numbered one after the other from `first`.
pub open spec fn numbered(ws: Seq<ManifestWrite>, setting: WriteSetting, first: int) -> bool {
    &&& 0 <= first
    &&& first + ws.len() <= u64::MAX + 1
    &&& forall|i: int|
        0 <= i < ws.len() ==> (#[trigger] ws[i]).path@ == manifest_path(
            setting.location,
            setting.commit_id,
            (first + i) as u64,
            "parquet"@,
        )
}

/// Whether `path` is that of a manifest of a commit with a number of at least `first`.
pub open spec fn numbered_from(path: Seq<char>, setting: WriteSetting, first: int) -> bool {
    exists|n: u64|
        first <= n && path == #[trigger] manifest_path(
            setting.location,
            setting.commit_id,
            n,
            "parquet"@,
        )
}

/// What stands at each path once `ws` are written, one after the other, to a store in which
/// `before` stood.
pub open spec fn stored(
    before: spec_fn(Seq<char>) -> Seq<ManifestEntry>,
    ws: Seq<ManifestWrite>,
) -> spec_fn(Seq<char>) -> Seq<ManifestEntry>
    decreases ws.len(),
{
    if ws.len() == 0 {
        before
    } else {
        |path: Seq<char>|
            if path == ws.last().path@ {
                ws.last().entries@
            } else {
                stored(before, ws.drop_last())(path)
            }
    }
}

/// Whether the manifest `mf` lists `content` once `ws` are written: it stood before at a path that
/// no manifest from the number `first` on has, or it is one of `ws`.
pub open spec fn stands_or_is_written(
    mf: ManifestFile,
    content: Seq<ManifestEntry>,
    before: spec_fn(Seq<char>) -> Seq<ManifestEntry>,
    ws: Seq<ManifestWrite>,
    setting: WriteSetting,
    first: int,
) -> bool {
    ||| !numbered_from(mf.manifest_path@, setting, first) && before(mf.manifest_path@) == content
    ||| exists|i: int|
        0 <= i < ws.len() && (#[trigger] ws[i]).path@ == mf.manifest_path@ && ws[i].entries@
            == content
}

/// Manifests written for entries are numbered one after the other.
pub proof fn lemma_entries_are_numbered(
    ws: Seq<ManifestWrite>,
    setting: WriteSetting,
    first: int,
    spec_id: i32,
    is_delete: bool,
    entries: Seq<ManifestEntry>,
    partition_scoped: bool,
)
    requires
        writes_entries(ws, setting, first, spec_id, is_delete, entries, partition_scoped),
        0 <= first,
        first + ws.len() <= u64::MAX + 1,
    ensures
        numbered(ws, setting, first),
{
}

/// Manifests that go on where others end are numbered as one run with them.
pub proof fn law_numbers_go_on(
    a: Seq<ManifestWrite>,
    b: Seq<ManifestWrite>,
    setting: WriteSetting,
    first: int,
)
    requires
        numbered(a, setting, first),
        numbered(b, setting, first + a.len()),
    ensures
        numbered(a + b, setting, first),
{
    let all = a + b;
    assert forall|i: int| 0 <= i < all.len() implies (#[trigger] all[i]).path@ == manifest_path(
        setting.location,
        setting.commit_id,
        (first + i) as u64,
        "parquet"@,
    ) by {
        if i >= a.len() {
            assert(all[i] == b[i - a.len()]);
        } else {
            assert(all[i] == a[i]);
        }
    }
}

/// A run that begins at the number where an earlier one ended, or behind it, writes to no path of
/// the earlier one.
pub proof fn law_later_run_spares_the_earlier(
    earlier: Seq<ManifestWrite>,
    setting: WriteSetting,
    first: int,
    later: Seq<ManifestWrite>,
    later_setting: WriteSetting,
    next: int,
    i: int,
    j: int,
)
    requires
        numbered(earlier, setting, first),
        numbered(later, later_setting, next),
        first + earlier.len() <= next,
        0 <= i < earlier.len(),
        0 <= j < later.len(),
    ensures
        earlier[i].path@ != later[j].path@,
        !numbered_from(earlier[i].path@, later_setting, next),
{
    law_lower_numbers_are_spared(
        setting.location,
        setting.commit_id,
        (first + i) as u64,
        later_setting,
        next,
    );
    assert(later[j].path@ == manifest_path(
        later_setting.location,
        later_setting.commit_id,
        (next + j) as u64,
        "parquet"@,
    ));
}

/// A manifest of a lower number stands at no path of the numbers from `first` on.
pub proof fn law_lower_numbers_are_spared(
    location: Seq<char>,
    commit_id: u128,
    n: u64,
    setting: WriteSetting,
    first: int,
)
    requires
        n < first,
    ensures
        !numbered_from(manifest_path(location, commit_id, n, "parquet"@), setting, first),
{
    let path = manifest_path(location, commit_id, n, "parquet"@);
    assert forall|m: u64|
        first <= m implies path != #[trigger] manifest_path(
        setting.location,
        setting.commit_id,
        m,
        "parquet"@,
    ) by {
        law_manifest_paths_differ(
            location,
            commit_id,
            n,
            setting.location,
            setting.commit_id,
            m,
            "parquet"@,
        );
    }
}

/// A run leaves what stands at other paths alone.
pub proof fn law_run_spares_other_paths(
    before: spec_fn(Seq<char>) -> Seq<ManifestEntry>,
    ws: Seq<ManifestWrite>,
    setting: WriteSetting,
    first: int,
    path: Seq<char>,
)
    requires
        numbered(ws, setting, first),
        !numbered_from(path, setting, first),
    ensures
        stored(before, ws)(path) == before(path),
    decreases ws.len(),
{
    if ws.len() > 0 {
        let n = (first + ws.len() - 1) as u64;
        assert(ws[ws.len() - 1].path@ == manifest_path(
            setting.location,
            setting.commit_id,
            n,
            "parquet"@,
        ));
        let rest = ws.drop_last();
        assert forall|i: int| 0 <= i < rest.len() implies (#[trigger] rest[i]).path@
            == manifest_path(
            setting.location,
            setting.commit_id,
            (first + i) as u64,
            "parquet"@,
        ) by {
            assert(rest[i] == ws[i]);
        }
        law_run_spares_other_paths(before, rest, setting, first, path);
    }
}

/// Every manifest of a run stands at its path in the end: none writes over another.
pub proof fn law_run_stores_every_manifest(
    before: spec_fn(Seq<char>) -> Seq<ManifestEntry>,
    ws: Seq<ManifestWrite>,
    setting: WriteSetting,
    first: int,
    i: int,
)
    requires
        numbered(ws, setting, first),
        0 <= i < ws.len(),
    ensures
        stored(before, ws)(ws[i].path@) == ws[i].entries@,
    decreases ws.len(),
{
    let last = ws.len() - 1;
    if i < last {
        let rest = ws.drop_last();
        assert forall|k: int| 0 <= k < rest.len() implies (#[trigger] rest[k]).path@
            == manifest_path(
            setting.location,
            setting.commit_id,
            (first + k) as u64,
            "parquet"@,
        ) by {
            assert(rest[k] == ws[k]);
        }
        law_run_stores_every_manifest(before, rest, setting, first, i);
        assert(rest[i] == ws[i]);
        law_manifest_paths_differ(
            setting.location,
            setting.commit_id,
            (first + i) as u64,
            setting.location,
            setting.commit_id,
            (first + last) as u64,
            "parquet"@,
        );
        assert(ws[last].path@ != ws[i].path@);
    }
}

/// What an earlier run has written survives a later one that begins where it ended, or behind it:
/// rewrites that are used again, and manifests that a commit lists by now, stand as they were
/// written.
pub proof fn law_earlier_manifests_survive(
    before: spec_fn(Seq<char>) -> Seq<ManifestEntry>,
    earlier: Seq<ManifestWrite>,
    setting: WriteSetting,
    first: int,
    later: Seq<ManifestWrite>,
    later_setting: WriteSetting,
    next: int,
    i: int,
)
    requires
        numbered(earlier, setting, first),
        numbered(later, later_setting, next),
        first + earlier.len() <= next,
        0 <= i < earlier.len(),
    ensures
        stored(stored(before, earlier), later)(earlier[i].path@) == earlier[i].entries@,
{
    law_run_stores_every_manifest(before, earlier, setting, first, i);
    law_lower_numbers_are_spared(
        setting.location,
        setting.commit_id,
        (first + i) as u64,
        later_setting,
        next,
    );
    assert(earlier[i].path@ == manifest_path(
        setting.location,
        setting.commit_id,
        (first + i) as u64,
        "parquet"@,
    ));
    law_run_spares_other_paths(
        stored(before, earlier),
        later,
        later_setting,
        next,
        earlier[i].path@,
    );
}

/// What stood or was written stands in the end.
pub proof fn lemma_stands(
    mf: ManifestFile,
    content: Seq<ManifestEntry>,
    before: spec_fn(Seq<char>) -> Seq<ManifestEntry>,
    ws: Seq<ManifestWrite>,
    setting: WriteSetting,
    first: int,
)
    requires
        numbered(ws, setting, first),
        stands_or_is_written(mf, content, before, ws, setting, first),
    ensures
        stored(before, ws)(mf.manifest_path@) == content,
{
    if !numbered_from(mf.manifest_path@, setting, first) && before(mf.manifest_path@) == content {
        law_run_spares_other_paths(before, ws, setting, first, mf.manifest_path@);
    } else {
        let i = choose|i: int|
            0 <= i < ws.len() && (#[trigger] ws[i]).path@ == mf.manifest_path@ && ws[i].entries@
                == content;
        law_run_stores_every_manifest(before, ws, setting, first, i);
    }
}

/// The manifests of a run are numbered one after the other from the first number, and no two of
/// them stand at one path.
pub proof fn law_numbered_manifests_stand_apart(
    ws: Seq<ManifestWrite>,
    setting: WriteSetting,
    first: int,
    i: int,
    j: int,
)
    requires
        numbered(ws, setting, first),
        0 <= i < j < ws.len(),
    ensures
        ws[i].path@ == manifest_path(
            setting.location,
            setting.commit_id,
            (first + i) as u64,
            "parquet"@,
        ),
        ws[i].path@ != ws[j].path@,
{
    law_manifest_paths_differ(
        setting.location,
        setting.commit_id,
        (first + i) as u64,
        setting.location,
        setting.commit_id,
        (first + j) as u64,
        "parquet"@,
    );
}

/// A write changes what stands at its own path and nowhere else.
pub proof fn law_write_changes_its_own_path(
    before: spec_fn(Seq<char>) -> Seq<ManifestEntry>,
    ws: Seq<ManifestWrite>,
    w: ManifestWrite,
    path: Seq<char>,
)
    ensures
        stored(before, Seq::empty())(path) == before(path),
        path == w.path@ ==> stored(before, ws.push(w))(path) == w.entries@,
        path != w.path@ ==> stored(before, ws.push(w))(path) == stored(before, ws)(path),
{
    assert(ws.push(w).drop_last() =~= ws);
}

} // verus!
