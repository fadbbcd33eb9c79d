use std::collections::HashMap;
use std::sync::Arc;

use cold_tier::cluster::ManifestWriterKind;
use cold_tier::cold_move::{
    cap_graduation, finish_fold, nothing_to_fold, paths_of, warm_sidecar, ColdMove, MoveTarget,
};
use cold_tier::fold::{
    classify_prefetch, resolve_leaves, ttl_prefetch, Classification, ClosedRef, FoldSetting,
    TtlPrune,
};
use cold_tier::fold_run::{Fold, FoldClosed, FoldOrder};
use cold_tier::manifest::{
    DataContentType, DataFile, FieldSummary, FormatVersion, ManifestContentType, ManifestEntry,
    ManifestFile, ManifestStatus, Mdv, RootManifestEntry,
};
use cold_tier::max_ts::{MaxTsMap, RefTimes};
use cold_tier::partition::{
    FieldKind, Literal, PartitionField, PartitionSpec, PrimitiveLiteral, Struct, StructType,
    Transform,
};
use cold_tier::path_set::{PathSet, Properties};
use cold_tier::table::TableMetadata;

const HOUR: i64 = 3_600_000_000;

fn spec() -> Arc<PartitionSpec> {
    Arc::new(PartitionSpec {
        spec_id: 0,
        fields: vec![PartitionField { source_id: 5, transform: Transform::Hour }],
        partition_type: Some(StructType { fields: vec![FieldKind::Primitive] }),
    })
}

fn setting(cutoff: i64, retention: Option<i64>, max_drop: usize) -> FoldSetting {
    FoldSetting {
        spec: spec(),
        ts_field_id: 5,
        cutoff_micros: cutoff,
        retention_cutoff_micros: retention,
        max_ttl_drop_files: max_drop,
    }
}

fn node(path: &str, hour: Option<i32>) -> ManifestFile {
    ManifestFile {
        manifest_path: path.to_string(),
        manifest_length: 1,
        partition_spec_id: 0,
        content: ManifestContentType::Data,
        sequence_number: 1,
        min_sequence_number: 1,
        added_snapshot_id: 1,
        added_files_count: Some(1),
        existing_files_count: Some(0),
        deleted_files_count: Some(0),
        added_rows_count: Some(1),
        existing_rows_count: Some(0),
        deleted_rows_count: Some(0),
        partitions: hour.map(|h| {
            vec![FieldSummary {
                contains_null: false,
                contains_nan: None,
                lower_bound: Some(h.to_le_bytes().to_vec()),
                upper_bound: Some(h.to_le_bytes().to_vec()),
            }]
        }),
        key_metadata: None,
        first_row_id: None,
    }
}

fn file(path: &str, hour: i32, ts: Option<i64>) -> DataFile {
    let mut upper_bounds = HashMap::new();
    if let Some(t) = ts {
        upper_bounds.insert(5, PrimitiveLiteral::Long(t));
    }
    DataFile {
        content: DataContentType::Data,
        file_path: path.to_string(),
        partition: Struct { fields: vec![Some(Literal::Primitive(PrimitiveLiteral::Int(hour)))] },
        partition_spec_id: 0,
        record_count: 1,
        file_size_in_bytes: 100,
        upper_bounds,
        equality_ids: None,
    }
}

fn entry(path: &str, hour: i32, ts: Option<i64>) -> ManifestEntry {
    ManifestEntry {
        status: ManifestStatus::Existing,
        snapshot_id: None,
        sequence_number: None,
        file_sequence_number: None,
        data_file: Arc::new(file(path, hour, ts)),
    }
}

fn hot(mf: ManifestFile) -> RootManifestEntry {
    RootManifestEntry::ManifestRef { manifest_file: mf, mdv: None }
}

fn ref_time(path: &str, time: i64) -> RefTimes {
    let mut times = RefTimes::new();
    times.add_manifest(path, &[entry("listed", 1, Some(time))], 5);
    times
}

fn names(files: &[ManifestFile]) -> Vec<&str> {
    files.iter().map(|m| m.manifest_path.as_str()).collect()
}

fn metadata() -> TableMetadata {
    TableMetadata {
        format_version: FormatVersion::V4,
        uuid: 1,
        location: "s3://t".to_string(),
        last_sequence_number: 3,
        last_updated_ms: 0,
        next_row_id: 0,
        current_schema_id: 0,
        default_spec: spec(),
        partition_specs: vec![spec()],
        current_snapshot_id: None,
        snapshots: vec![],
        refs: vec![],
        properties: Arc::new(Properties::new()),
    }
}

fn target() -> MoveTarget {
    MoveTarget {
        location: "s3://t".to_string(),
        commit_id: 1,
        version: FormatVersion::V4,
        spec_id: 0,
    }
}

fn set(paths: &[&str]) -> PathSet {
    let paths: Vec<String> = paths.iter().map(|p| p.to_string()).collect();
    PathSet::from_paths(&paths)
}

#[test]
fn only_leaves_without_a_known_time_are_read() {
    let s = setting(0, Some(10 * HOUR), 100);
    let mut stored = MaxTsMap::new();
    stored.insert("stored".to_string(), Some(1));
    stored.insert("poisoned".to_string(), None);
    let leaves = vec![
        node("stored", None),
        node("summary", Some(3)),
        node("poisoned", None),
        node("unknown", None),
    ];
    assert_eq!(ttl_prefetch(&leaves, &s, &stored), vec![2, 3]);

    let mut fetched = MaxTsMap::new();
    fetched.insert("unknown".to_string(), Some(77));
    let resolved = resolve_leaves(leaves, &s, &stored, &fetched);
    let times: Vec<(&str, Option<i64>)> =
        resolved.iter().map(|l| (l.leaf.manifest_path.as_str(), l.max_ts)).collect();
    assert_eq!(
        times,
        vec![
            ("stored", Some(1)),
            ("unknown", Some(77)),
            ("summary", Some(4 * HOUR)),
            ("poisoned", None)
        ],
        "the oldest first, those without a time last"
    );
}

#[test]
fn reads_are_bounded_to_the_oldest_leaves() {
    let s = setting(0, Some(10 * HOUR), 100);
    let leaves: Vec<ManifestFile> = (0..300)
        .map(|i| {
            let mut leaf = node(&format!("leaf-{i}"), None);
            leaf.sequence_number = 1000 - i;
            leaf
        })
        .collect();
    let places = ttl_prefetch(&leaves, &s, &MaxTsMap::new());
    assert_eq!(places.len(), 256);
    assert_eq!(places[0], 299, "the lowest sequence number first");
    assert_eq!(places[255], 44);
}

#[test]
fn expired_leaves_go_until_the_bound_is_reached() {
    let s = setting(0, Some(10 * HOUR), 7);
    let leaves = vec![
        node("old-1", Some(1)),
        node("new", Some(20)),
        node("old-2", Some(2)),
        node("old-3", Some(3)),
    ];
    let resolved = resolve_leaves(leaves, &s, &MaxTsMap::new(), &MaxTsMap::new());
    let mut prune = TtlPrune::new(resolved);
    assert!(prune.advance(&s));
    assert_eq!(prune.next_leaf().unwrap().manifest_path, "old-1");
    prune.take_next(&s, &[entry("a", 1, None)]);
    assert!(prune.advance(&s));
    assert_eq!(prune.next_leaf().unwrap().manifest_path, "old-2");
    prune.take_next(&s, &[entry("b", 2, None)]);
    assert!(prune.advance(&s));
    assert_eq!(prune.next_leaf().unwrap().manifest_path, "old-3");
    prune.take_next(&s, &[entry("c", 3, None)]);
    assert!(!prune.advance(&s), "there is no room for old-3, so it waits");
    let done = prune.finish();
    assert_eq!(names(&done.surviving), vec!["old-3", "new"]);
    assert!(done.rests.is_empty());
    assert_eq!(done.dropped_paths, vec!["a.stats", "a", "old-1", "b.stats", "b", "old-2"]);
}

#[test]
fn without_a_retention_nothing_is_dropped() {
    let s = setting(i64::MAX, None, 100);
    let resolved = resolve_leaves(
        vec![node("old", Some(1))],
        &s,
        &MaxTsMap::new(),
        &MaxTsMap::new(),
    );
    let mut prune = TtlPrune::new(resolved);
    assert!(!prune.advance(&s));
    let done = prune.finish();
    assert_eq!(names(&done.surviving), vec!["old"]);
    assert!(done.dropped_paths.is_empty());
}

#[test]
fn entries_are_kept_closed_or_dropped_by_their_times() {
    let s = setting(10 * HOUR, Some(5 * HOUR), 100);
    let with_mdv = RootManifestEntry::ManifestRef {
        manifest_file: node("masked", Some(1)),
        mdv: Some(Mdv { bytes: vec![], vector: None }),
    };
    let entries = vec![
        hot(node("open", Some(9))),
        hot(node("closed", Some(8))),
        hot(node("expired", Some(1))),
        hot(node("fetched", None)),
        hot(node("unknown", None)),
        with_mdv,
        RootManifestEntry::Inline(entry("file-open", 9, Some(10 * HOUR))),
        RootManifestEntry::Inline(entry("file-closed", 8, Some(10 * HOUR - 1))),
        RootManifestEntry::Inline(entry("file-expired", 1, Some(1))),
        RootManifestEntry::Inline(entry("file-unknown", 1, None)),
    ];
    assert_eq!(classify_prefetch(&entries, &s), vec![3, 4]);
    let fetched = ref_time("fetched", 6 * HOUR);

    let mut c = Classification::new(entries, vec![]);
    assert!(c.advance(&s, &fetched));
    assert_eq!(c.next_manifest().unwrap().manifest_path, "expired");
    c.take_next(&s, &fetched, &[entry("x", 1, None)]);
    assert!(!c.advance(&s, &fetched));
    let done = c.finish();
    assert_eq!(done.kept.len(), 5, "open, unknown, masked, file-open, file-unknown");
    let closed: Vec<(&str, i64)> = done
        .closed_refs
        .iter()
        .map(|r| (r.manifest_file.manifest_path.as_str(), r.max_ts))
        .collect();
    assert_eq!(closed, vec![("closed", 9 * HOUR), ("fetched", 6 * HOUR)]);
    assert_eq!(done.closed_files.len(), 1);
    assert_eq!(done.closed_files[0].file_path, "file-closed");
    assert_eq!(
        done.dropped_paths,
        vec!["x.stats", "x", "expired", "file-expired.stats", "file-expired"]
    );
}

#[test]
fn a_cap_moves_the_coldest_first() {
    let closed = |path: &str, max_ts| ClosedRef { manifest_file: node(path, None), max_ts };
    let mut kept = vec![hot(node("open", None))];
    let graduated = cap_graduation(
        vec![closed("c", 30), closed("a", 10), closed("b", 20)],
        Some(2),
        &mut kept,
    );
    assert_eq!(names(&graduated), vec!["a", "b"]);
    assert_eq!(kept, vec![hot(node("open", None)), hot(node("c", None))]);

    let mut none = vec![];
    let all = cap_graduation(vec![closed("c", 30), closed("a", 10)], None, &mut none);
    assert_eq!(names(&all), vec!["c", "a"], "without a cap their order stays");
    assert!(none.is_empty());
}

#[test]
fn an_idle_fold_still_stores_missing_times() {
    assert!(nothing_to_fold(&[], &[], &[]));
    assert!(!nothing_to_fold(&[node("a", None)], &[], &[]));
    assert!(!nothing_to_fold(&[], &[Arc::new(file("f", 1, None))], &[]));
    assert!(!nothing_to_fold(&[], &[], &["gone".to_string()]));
    let s = setting(0, None, 0);
    let mut stored = MaxTsMap::new();
    stored.insert("a".to_string(), Some(4));
    let leaves = [node("a", None), node("b", Some(2)), node("c", None)];
    let none = MaxTsMap::new();
    assert!(warm_sidecar(&leaves[..1], &stored, &none, &none, &s).is_none());
    assert!(
        warm_sidecar(&leaves[..2], &stored, &none, &none, &s).is_none(),
        "a summary gives a time as well"
    );
    let mut read = MaxTsMap::new();
    read.insert("c".to_string(), Some(9));
    let write = warm_sidecar(&leaves, &stored, &read, &none, &s).unwrap();
    let times: Vec<(&str, i64)> =
        write.entries.iter().map(|e| (e.path.as_str(), e.max_ts)).collect();
    assert_eq!(times, vec![("a", 4), ("c", 9)], "what only a summary says is not stored");
}

#[test]
fn nodes_move_as_they_are_when_nothing_was_removed() {
    let mut m = ColdMove::new(
        vec![node("cold", None)],
        vec![node("n1", Some(1)), node("n2", Some(2))],
        vec![Arc::new(file("f", 3, None)), Arc::new(file("g", 4, None))],
        None,
        0,
        false,
        0,
    );
    let writes = m.file_writes(&target());
    assert_eq!(writes.len(), 2, "one leaf for each hour");
    m.add_file_leaves(vec![node("leaf-3", Some(3)), node("leaf-4", Some(4))]);
    assert!(m.next_node().is_none());
    assert!(m.folded_writes(&target()).is_empty());
    let graduated = vec!["n1".to_string(), "n2".to_string()];
    let done = finish_fold(
        m,
        &metadata(),
        &setting(0, None, 0),
        &MaxTsMap::new(),
        &MaxTsMap::new(),
        &MaxTsMap::new(),
        77,
        1,
        graduated,
        vec![],
    );
    assert_eq!(names(&done.index.leaves), vec!["cold", "leaf-3", "leaf-4", "n1", "n2"]);
    assert_eq!(done.outcome.nodes_moved, 2);
    assert_eq!(done.outcome.inline_leaves, 2);
    assert_eq!(done.outcome.cold_leaves_total, 5);
    assert_eq!(
        done.outcome.bucket_index_path,
        "s3://t/metadata/bucket-index-77-00000000-0000-0000-0000-000000000001.parquet"
    );
    assert_eq!(done.index.path, done.outcome.bucket_index_path);
    assert!(done.sidecar.entries.is_empty(), "no time was read");
}

#[test]
fn removed_files_never_reach_the_cold_tier() {
    let mut m = ColdMove::new(
        vec![],
        vec![node("clean", Some(1)), node("mixed", Some(2)), node("gone", Some(3)), node("lost", None)],
        vec![],
        None,
        0,
        true,
        0,
    );
    let removed = set(&["b", "c"]);
    assert!(m.file_writes(&target()).is_empty());
    m.add_file_leaves(vec![]);
    let clean = [entry("a", 1, None)];
    assert_eq!(m.next_node().unwrap().manifest_path, "clean");
    assert!(m.add_node(Some(&clean), &removed, &target()).is_empty());
    let mixed = [entry("b", 2, None), entry("keep", 2, None)];
    let writes = m.add_node(Some(&mixed), &removed, &target());
    assert_eq!(writes.len(), 1);
    assert_eq!(writes[0].entries.len(), 1);
    assert_eq!(writes[0].entries[0].data_file.file_path, "keep");
    m.add_leaves(vec![node("mixed-left", Some(2))]);
    let gone = [entry("c", 3, None)];
    assert!(m.add_node(Some(&gone), &removed, &target()).is_empty());
    assert!(m.add_node(None, &removed, &target()).is_empty());
    assert!(m.next_node().is_none());
    let done = finish_fold(
        m,
        &metadata(),
        &setting(0, None, 0),
        &MaxTsMap::new(),
        &MaxTsMap::new(),
        &MaxTsMap::new(),
        77,
        1,
        vec![],
        vec![],
    );
    assert_eq!(names(&done.index.leaves), vec!["clean", "mixed-left", "lost"]);
}

#[test]
fn folding_gathers_nodes_by_partition() {
    let nodes = vec![
        node("n1", Some(1)),
        node("n2", Some(1)),
        node("n3", Some(1)),
        node("n4", Some(1)),
    ];
    let graduated = paths_of(&nodes);
    assert_eq!(graduated, vec!["n1", "n2", "n3", "n4"]);
    let mut m = ColdMove::new(
        vec![],
        nodes,
        vec![Arc::new(file("inline", 1, None))],
        Some(3),
        0,
        false,
        0,
    );
    assert!(m.file_writes(&target()).is_empty(), "closed files fold with the nodes");
    m.add_file_leaves(vec![]);
    let removed = set(&["x2"]);
    for (path, name) in [("x1", "n1"), ("x2", "n2"), ("x3", "n3")] {
        assert_eq!(m.next_node().unwrap().manifest_path, name);
        assert!(m.add_node(Some(&[entry(path, 1, None)]), &removed, &target()).is_empty());
    }
    assert!(m.next_node().is_none(), "the fourth moves as it is");
    let writes = m.folded_writes(&target());
    assert_eq!(writes.len(), 1);
    let folded: Vec<&str> =
        writes[0].entries.iter().map(|e| e.data_file.file_path.as_str()).collect();
    assert_eq!(folded, vec!["inline", "x1", "x3"]);
    m.add_leaves(vec![node("folded", Some(1))]);
    let done = finish_fold(
        m,
        &metadata(),
        &setting(0, None, 0),
        &MaxTsMap::new(),
        &MaxTsMap::new(),
        &MaxTsMap::new(),
        77,
        1,
        graduated,
        vec![],
    );
    assert_eq!(names(&done.index.leaves), vec!["n4", "folded"]);
    assert_eq!(done.outcome.nodes_moved, 4);
}

#[test]
fn no_leaf_stands_in_the_index_twice() {
    let mut m = ColdMove::new(
        vec![node("a", None), node("b", None), node("a", None)],
        vec![node("b", None)],
        vec![],
        None,
        0,
        false,
        0,
    );
    m.add_file_leaves(vec![]);
    let done = finish_fold(
        m,
        &metadata(),
        &setting(0, None, 0),
        &MaxTsMap::new(),
        &MaxTsMap::new(),
        &MaxTsMap::new(),
        77,
        1,
        vec!["b".to_string()],
        vec![],
    );
    assert_eq!(names(&done.index.leaves), vec!["a", "b"]);
}

fn order(setting: FoldSetting, removed: &[&str], carried: Option<&str>) -> FoldOrder {
    FoldOrder {
        setting,
        max_graduate: None,
        fold_leaves: None,
        removed: set(removed),
        carried_bucket_index_path: carried.map(|p| p.to_string()),
        snapshot_id: 77,
        commit_id: 1,
        counter: 5,
    }
}

#[test]
fn a_fold_runs_from_end_to_end() {
    let entries = vec![
        hot(node("open", Some(20))),
        hot(node("closed", Some(12))),
        hot(node("masked-away", None)),
        RootManifestEntry::Inline(entry("file", 12, Some(12 * HOUR))),
        hot(node("expired", Some(1))),
    ];
    let cold = vec![node("cold-new", Some(13)), node("cold-old", None)];
    let fold = Fold::new(
        order(setting(15 * HOUR, Some(10 * HOUR), 100), &["gone"], Some("index")),
        entries,
        cold,
        MaxTsMap::new(),
    );
    assert_eq!(fold.leaves_to_read(), vec![1]);
    assert_eq!(fold.leaf(1).unwrap().manifest_path, "cold-old");
    assert!(fold.leaf(2).is_none());
    let mut leaf_times = MaxTsMap::new();
    leaf_times.insert("cold-old".to_string(), Some(2 * HOUR));

    let mut prune = fold.prune(leaf_times);
    assert!(prune.advance());
    assert_eq!(prune.next_leaf().unwrap().manifest_path, "cold-old");
    prune.take_next(&[entry("old-file", 2, None)]);
    assert!(!prune.advance());
    assert_eq!(prune.refs_to_read(), vec![2]);
    assert!(prune.entry(5).is_none());
    let ref_times = ref_time("masked-away", 11 * HOUR);

    let mut classify = prune.classify(ref_times);
    assert!(classify.advance());
    assert_eq!(classify.next_manifest().unwrap().manifest_path, "expired");
    classify.take_next(&[entry("expired-file", 1, None)]);
    assert!(!classify.advance());

    let mut moving = match classify.close(&metadata()) {
        FoldClosed::Moving(m) => m,
        FoldClosed::Idle { .. } => panic!("there is something to move"),
    };
    assert!(moving.files_left() as u64 <= moving.numbers_left());
    let ws = moving.file_writes();
    assert_eq!(ws.len(), 1);
    assert!(ws[0].path.ends_with("-m5.parquet"));
    moving.add_file_leaves(vec![node("file-leaf", Some(12))]);
    assert_eq!(moving.next_node().unwrap().manifest_path, "closed");
    assert!(moving.add_node(Some(&[entry("kept", 12, None)])).is_empty());
    assert_eq!(moving.next_node().unwrap().manifest_path, "masked-away");
    let ws = moving.add_node(Some(&[entry("gone", 12, None), entry("left", 12, None)]));
    assert_eq!(ws.len(), 1);
    assert!(ws[0].path.ends_with("-m6.parquet"));
    assert_eq!(ws[0].entries[0].data_file.file_path, "left");
    moving.add_leaves(vec![node("left-leaf", Some(12))]);
    assert!(moving.next_node().is_none());
    assert_eq!(moving.folded_left(), 0);
    assert!(moving.folded_writes().is_empty());

    let done = moving.finish(&metadata());
    assert_eq!(done.kept, vec![hot(node("open", Some(20)))]);
    assert_eq!(done.counter, 7);
    assert_eq!(
        names(&done.finish.index.leaves),
        vec!["cold-new", "file-leaf", "closed", "left-leaf"]
    );
    let outcome = done.finish.outcome;
    assert_eq!(outcome.nodes_moved, 2);
    assert_eq!(outcome.graduated_ref_paths, vec!["closed", "masked-away"]);
    assert_eq!(
        outcome.ttl_dropped_paths,
        vec!["old-file.stats", "old-file", "cold-old", "expired-file.stats", "expired-file", "expired"]
    );
}

#[test]
fn an_idle_fold_keeps_the_root() {
    let run = |carried, cold| {
        let fold = Fold::new(
            order(setting(0, None, 0), &[], carried),
            vec![hot(node("open", Some(20)))],
            vec![cold],
            MaxTsMap::new(),
        );
        assert!(fold.leaves_to_read().is_empty());
        let mut prune = fold.prune(MaxTsMap::new());
        assert!(!prune.advance());
        let mut classify = prune.classify(RefTimes::new());
        assert!(!classify.advance());
        classify.close(&metadata())
    };
    match run(Some("index"), node("cold", None)) {
        FoldClosed::Idle { kept, sidecar } => {
            assert_eq!(kept.len(), 1);
            assert!(sidecar.unwrap().entries.is_empty(), "no time was read");
        }
        FoldClosed::Moving(_) => panic!("nothing is closed"),
    }
    for idle in [run(None, node("cold", None)), run(Some("index"), node("cold", Some(1)))] {
        match idle {
            FoldClosed::Idle { sidecar, .. } => assert!(sidecar.is_none()),
            FoldClosed::Moving(_) => panic!("nothing is closed"),
        }
    }
}

#[test]
fn a_leaf_with_more_paths_than_are_left_waits() {
    let s = setting(0, Some(10 * HOUR), 1);
    let mut prune = TtlPrune::new(resolve_leaves(
        vec![node("old", Some(1)), node("bare", Some(2))],
        &s,
        &MaxTsMap::new(),
        &MaxTsMap::new(),
    ));
    assert!(prune.advance(&s));
    prune.take_next(&s, &[entry("a", 1, None)]);
    assert!(prune.advance(&s));
    assert_eq!(prune.next_leaf().unwrap().manifest_path, "bare");
    prune.take_next(&s, &[]);
    assert!(!prune.advance(&s));
    let done = prune.finish();
    assert_eq!(names(&done.surviving), vec!["old"], "no file goes without its sidecar");
    assert_eq!(done.dropped_paths, vec!["bare"], "one path fits a bound of one");
}

#[test]
fn an_entry_with_more_paths_than_are_left_moves_or_stays() {
    let s = setting(10 * HOUR, Some(5 * HOUR), 3);
    let entries = vec![
        hot(node("wide", Some(1))),
        RootManifestEntry::Inline(entry("fits", 1, Some(1))),
        RootManifestEntry::Inline(entry("too-many", 1, Some(1))),
    ];
    let none = RefTimes::new();
    let mut c = Classification::new(entries, vec![]);
    assert!(c.advance(&s, &none));
    c.take_next(&s, &none, &[entry("x", 1, None), entry("y", 1, None)]);
    assert!(!c.advance(&s, &none));
    let done = c.finish();
    assert!(done.kept.is_empty());
    assert_eq!(done.closed_refs.len(), 1, "past retention is closed as well");
    assert_eq!(done.closed_refs[0].manifest_file.manifest_path, "wide");
    assert_eq!(done.dropped_paths, vec!["fits.stats", "fits"]);
    assert_eq!(done.closed_files[0].file_path, "too-many");
}

#[test]
fn nodes_past_the_batch_are_looked_into_while_removals_are_pending() {
    let mut other_spec = node("other-spec", Some(1));
    other_spec.partition_spec_id = 3;
    let mut deletes = node("deletes", Some(1));
    deletes.content = ManifestContentType::Deletes;
    let nodes = vec![
        node("n1", Some(1)),
        other_spec,
        node("n2", Some(1)),
        deletes,
        node("n3", Some(1)),
        node("n4", Some(1)),
    ];
    let removed = set(&["gone"]);
    let mut m = ColdMove::new(vec![node("cold", None)], nodes, vec![], Some(2), 0, true, 0);
    assert!(m.file_writes(&target()).is_empty());
    m.add_file_leaves(vec![]);
    for name in ["n1", "n2"] {
        assert_eq!(m.next_node().unwrap().manifest_path, name);
        assert!(m.add_node(Some(&[entry(name, 1, None)]), &removed, &target()).is_empty());
    }
    assert_eq!(m.next_node().unwrap().manifest_path, "other-spec");
    let ws = m.add_node(
        Some(&[entry("gone", 1, None), entry("left", 1, None)]),
        &removed,
        &target(),
    );
    assert_eq!(ws.len(), 1);
    assert_eq!(ws[0].spec_id, 3, "what is left keeps its partition spec");
    m.add_leaves(vec![node("left-leaf", None)]);
    assert_eq!(m.next_node().unwrap().manifest_path, "deletes");
    let ws = m.add_node(
        Some(&[entry("gone", 1, None), entry("stays-deleted", 1, None)]),
        &removed,
        &target(),
    );
    assert_eq!(ws[0].kind, ManifestWriterKind::V3Deletes, "and its content");
    m.add_leaves(vec![node("deletes-leaf", None)]);
    assert_eq!(m.next_node().unwrap().manifest_path, "n3");
    assert!(m.add_node(Some(&[entry("gone", 1, None)]), &removed, &target()).is_empty());
    assert_eq!(m.next_node().unwrap().manifest_path, "n4");
    assert!(m.add_node(Some(&[entry("clean", 1, None)]), &removed, &target()).is_empty());
    assert!(m.next_node().is_none());
    let ws = m.folded_writes(&target());
    assert_eq!(ws.len(), 1);
    m.add_leaves(vec![node("folded", Some(1))]);
    let done = finish_fold(
        m,
        &metadata(),
        &setting(0, None, 0),
        &MaxTsMap::new(),
        &MaxTsMap::new(),
        &MaxTsMap::new(),
        77,
        1,
        vec![],
        vec![],
    );
    assert_eq!(
        names(&done.index.leaves),
        vec!["cold", "left-leaf", "deletes-leaf", "n4", "folded"]
    );
}

#[test]
fn folding_changes_no_file_of_the_cold_tier() {
    let removed = set(&["gone"]);
    let listed = |name: &str| vec![entry(&format!("{name}-file"), 1, None), entry("gone", 1, None)];
    let run = |fold_leaves| {
        let nodes = vec![node("n1", Some(1)), node("n2", Some(1)), node("n3", Some(1))];
        let mut m = ColdMove::new(vec![], nodes, vec![], fold_leaves, 0, true, 0);
        m.add_file_leaves(vec![]);
        let mut files: Vec<String> = vec![];
        while let Some(next) = m.next_node() {
            let entries = listed(&next.manifest_path);
            for w in m.add_node(Some(&entries), &removed, &target()) {
                files.extend(w.entries.iter().map(|e| e.data_file.file_path.clone()));
            }
        }
        for w in m.folded_writes(&target()) {
            files.extend(w.entries.iter().map(|e| e.data_file.file_path.clone()));
        }
        files.sort();
        files
    };
    let plain = run(None);
    assert_eq!(plain, vec!["n1-file", "n2-file", "n3-file"]);
    assert_eq!(run(Some(1)), plain);
    assert_eq!(run(Some(2)), plain);
    assert_eq!(run(Some(9)), plain);
}

#[test]
fn stored_times_of_a_fold_are_those_of_files() {
    let run = |order: FoldOrder| {
        let mut read = MaxTsMap::new();
        read.insert("cold".to_string(), Some(13 * HOUR));
        let fold = Fold::new(
            order,
            vec![hot(node("by-summary", Some(12))), hot(node("by-files", None))],
            vec![node("cold", None)],
            MaxTsMap::new(),
        );
        let mut prune = fold.prune(read);
        assert!(!prune.advance());
        let mut classify = prune.classify(ref_time("by-files", 11 * HOUR));
        assert!(!classify.advance());
        match classify.close(&metadata()) {
            FoldClosed::Moving(mut m) => {
                m.add_file_leaves(vec![]);
                m.finish(&metadata())
            }
            FoldClosed::Idle { .. } => panic!("two manifests are closed"),
        }
    };
    let done = run(order(setting(15 * HOUR, Some(10 * HOUR), 100), &[], None));
    let times: Vec<(&str, i64)> =
        done.finish.sidecar.entries.iter().map(|e| (e.path.as_str(), e.max_ts)).collect();
    assert_eq!(times, vec![("cold", 13 * HOUR), ("by-files", 11 * HOUR)]);
}

#[test]
fn a_leaf_too_large_for_any_fold_goes_in_parts() {
    let s = setting(0, Some(10 * HOUR), 5);
    let prune_of = |listed: &[ManifestEntry]| {
        let mut prune = TtlPrune::new(resolve_leaves(
            vec![node("large", Some(1)), node("small", Some(2))],
            &s,
            &MaxTsMap::new(),
            &MaxTsMap::new(),
        ));
        assert!(prune.advance(&s));
        prune.take_next(&s, listed);
        assert!(!prune.advance(&s), "there is no room for another path");
        prune.finish()
    };
    let mut dead = entry("dead", 1, None);
    dead.status = ManifestStatus::Deleted;
    let files = |names: &[&str]| -> Vec<ManifestEntry> {
        names.iter().map(|n| entry(n, 1, None)).collect()
    };
    let mut listed = files(&["a", "b", "c", "d"]);
    listed.insert(1, dead);

    let first = prune_of(&listed);
    assert_eq!(names(&first.surviving), vec!["small"]);
    assert_eq!(first.dropped_paths, vec!["a.stats", "a", "b.stats", "b", "large"]);
    assert_eq!(first.rests.len(), 1);
    assert_eq!(first.rests[0].leaf.manifest_path, "large");
    let left: Vec<&str> =
        first.rests[0].entries.iter().map(|e| e.data_file.file_path.as_str()).collect();
    assert_eq!(left, vec!["c", "d"]);
    assert!(first.rests[0].entries.iter().all(|e| e.status == ManifestStatus::Existing));

    let second = prune_of(&first.rests[0].entries);
    assert!(second.rests.is_empty(), "what is left fits now");
    assert_eq!(second.dropped_paths, vec!["c.stats", "c", "d.stats", "d", "large"]);
}

#[test]
fn a_bound_of_two_paths_takes_one_file_at_a_time() {
    let s = setting(0, Some(10 * HOUR), 2);
    for (listed, left) in [(vec!["a"], 0), (vec!["a", "b", "c"], 2)] {
        let mut prune = TtlPrune::new(resolve_leaves(
            vec![node("leaf", Some(1))],
            &s,
            &MaxTsMap::new(),
            &MaxTsMap::new(),
        ));
        assert!(prune.advance(&s));
        let entries: Vec<ManifestEntry> = listed.iter().map(|n| entry(n, 1, None)).collect();
        prune.take_next(&s, &entries);
        assert!(!prune.advance(&s));
        let done = prune.finish();
        assert!(done.surviving.is_empty());
        assert_eq!(done.dropped_paths, vec!["a.stats", "a"]);
        assert_eq!(done.rests[0].entries.len(), left);
    }
}

#[test]
fn what_is_left_of_a_large_leaf_is_written_anew() {
    let mut large = node("large", Some(1));
    large.partition_spec_id = 4;
    let fold = Fold::new(
        order(setting(5 * HOUR, Some(10 * HOUR), 3), &["gone"], Some("index")),
        vec![hot(node("open", Some(20)))],
        vec![large],
        MaxTsMap::new(),
    );
    let mut prune = fold.prune(MaxTsMap::new());
    assert!(prune.advance());
    let listed: Vec<ManifestEntry> =
        ["a", "gone", "b", "c"].iter().map(|n| entry(n, 1, None)).collect();
    prune.take_next(&listed);
    assert!(!prune.advance());
    let mut classify = prune.classify(RefTimes::new());
    assert!(!classify.advance());
    let mut moving = match classify.close(&metadata()) {
        FoldClosed::Moving(m) => m,
        FoldClosed::Idle { .. } => panic!("a file went"),
    };
    assert_eq!(moving.next_rest_len(), Some(3));
    assert_eq!(moving.next_number(), 5);
    let ws = moving.rest_writes();
    assert_eq!(ws.len(), 1);
    assert_eq!(ws[0].spec_id, 4, "a leaf keeps its spec");
    assert!(ws[0].path.ends_with("-m5.parquet"));
    let left: Vec<&str> =
        ws[0].entries.iter().map(|e| e.data_file.file_path.as_str()).collect();
    assert_eq!(left, vec!["b", "c"], "what is pending removal is not written anew");
    moving.add_leaves(vec![node("rest", Some(1))]);
    assert_eq!(moving.next_rest_len(), None);
    assert_eq!(moving.next_number(), 6);
    assert!(moving.file_writes().is_empty());
    moving.add_file_leaves(vec![]);
    assert!(moving.folded_writes().is_empty());
    let done = moving.finish(&metadata());
    assert_eq!(names(&done.finish.index.leaves), vec!["rest"]);
    assert_eq!(done.finish.outcome.ttl_dropped_paths, vec!["a.stats", "a", "large"]);
    assert_eq!(done.counter, 6);
}

#[test]
fn a_node_with_a_file_of_unknown_time_closes_and_is_not_dropped() {
    let s = setting(10 * HOUR, Some(5 * HOUR), 100);
    let mut times = RefTimes::new();
    times.add_manifest("partly", &[entry("x", 1, Some(HOUR)), entry("y", 1, None)], 5);
    times.add_manifest("wholly", &[entry("z", 1, Some(HOUR))], 5);
    times.add_manifest("never", &[entry("w", 1, None)], 5);
    let mut c = Classification::new(
        vec![hot(node("partly", None)), hot(node("wholly", None)), hot(node("never", None))],
        vec![],
    );
    assert!(c.advance(&s, &times));
    assert_eq!(c.next_manifest().unwrap().manifest_path, "wholly");
    c.take_next(&s, &times, &[entry("z", 1, Some(HOUR))]);
    assert!(!c.advance(&s, &times));
    let done = c.finish();
    assert_eq!(done.closed_refs.len(), 1);
    assert_eq!(done.closed_refs[0].manifest_file.manifest_path, "partly");
    assert_eq!(done.closed_refs[0].max_ts, HOUR);
    assert_eq!(done.dropped_paths, vec!["z.stats", "z", "wholly"]);
    assert_eq!(done.kept, vec![hot(node("never", None))]);
}
