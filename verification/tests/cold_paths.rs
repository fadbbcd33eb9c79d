use std::collections::HashMap;
use std::sync::Arc;

use cold_tier::cold_paths::{
    accept_cold_paths_sidecar, build_filter, cold_paths_sidecar, cold_paths_sidecar_path,
    coverage_digest, fnv1a, live_path_estimate, needs_rebuild, resolve_cold_presence, saturation,
    ColdPathFilter, ColdPathsRebuild, ColdPresence, ColdPresenceOwned, IndexRead, FNV_OFFSET,
    FNV_OFFSET_ALT, MAX_BITS, MIN_BITS,
};
use cold_tier::manifest::{
    DataContentType, DataFile, ManifestContentType, ManifestEntry, ManifestFile, ManifestStatus,
};
use cold_tier::partition::Struct;

const TARGET_FPP: f64 = 0.01;

fn leaf(path: &str) -> ManifestFile {
    ManifestFile {
        manifest_path: path.to_string(),
        manifest_length: 1,
        partition_spec_id: 0,
        content: ManifestContentType::Data,
        sequence_number: 1,
        min_sequence_number: 1,
        added_snapshot_id: 1,
        added_files_count: Some(1),
        existing_files_count: Some(0),
        deleted_files_count: Some(0),
        added_rows_count: Some(1),
        existing_rows_count: Some(0),
        deleted_rows_count: Some(0),
        partitions: None,
        key_metadata: None,
        first_row_id: None,
    }
}

fn leaf_with_files(path: &str, added: u32, existing: u32) -> ManifestFile {
    let mut l = leaf(path);
    l.added_files_count = Some(added);
    l.existing_files_count = Some(existing);
    l
}

fn entry(path: &str, status: ManifestStatus) -> ManifestEntry {
    ManifestEntry {
        status,
        snapshot_id: None,
        sequence_number: None,
        file_sequence_number: None,
        data_file: Arc::new(DataFile {
            content: DataContentType::Data,
            file_path: path.to_string(),
            partition: Struct { fields: vec![] },
            partition_spec_id: 0,
            record_count: 1,
            file_size_in_bytes: 100,
            upper_bounds: HashMap::new(),
            equality_ids: None,
        }),
    }
}

#[test]
fn never_reports_absent_for_a_path_it_holds() {
    let paths: Vec<String> = (0..5_000)
        .map(|i| format!("s3://b/data/compacted-{i:08}.parquet"))
        .collect();
    let mut f = ColdPathFilter::with_capacity(paths.len());
    for p in &paths {
        f.insert(p);
    }
    for p in &paths {
        assert!(
            f.maybe_contains(p),
            "false negative on {p} — this would resurrect deleted data"
        );
    }
    assert_eq!(f.len(), 5_000);
}

#[test]
fn false_positive_rate_stays_near_target() {
    let n = 20_000;
    let mut f = ColdPathFilter::with_capacity(n);
    for i in 0..n {
        f.insert(&format!("s3://b/data/present-{i:08}.parquet"));
    }
    let probes = 20_000;
    let fp = (0..probes)
        .filter(|i| f.maybe_contains(&format!("s3://b/data/absent-{i:08}.parquet")))
        .count();
    let rate = fp as f64 / probes as f64;
    assert!(
        rate < TARGET_FPP * 3.0,
        "fpp {rate:.4} is far above the {TARGET_FPP} target ({fp}/{probes})"
    );
}

#[test]
fn empty_filter_reports_everything_absent() {
    let f = ColdPathFilter::with_capacity(0);
    assert!(!f.maybe_contains("s3://b/data/anything.parquet"));
    assert_eq!(f.len(), 0);
}

#[test]
fn coverage_digest_detects_added_and_removed_leaves() {
    let a = vec![leaf("s3://b/m/a-m0.parquet"), leaf("s3://b/m/b-m0.parquet")];
    let mut added = a.clone();
    added.push(leaf("s3://b/m/c-m0.parquet"));
    let removed = vec![a[0].clone()];

    assert_ne!(coverage_digest(&a), coverage_digest(&added), "added leaf");
    assert_ne!(coverage_digest(&a), coverage_digest(&removed), "removed leaf");
}

#[test]
fn coverage_digest_is_order_independent() {
    let a = vec![
        leaf("s3://b/m/a-m0.parquet"),
        leaf("s3://b/m/b-m0.parquet"),
        leaf("s3://b/m/c-m0.parquet"),
    ];
    let mut b = a.clone();
    b.reverse();
    assert_eq!(coverage_digest(&a), coverage_digest(&b));
}

#[test]
fn hashing_is_deterministic() {
    let p = "s3://b/data/compacted-00000042.parquet";
    assert_eq!(fnv1a(p.as_bytes(), FNV_OFFSET), fnv1a(p.as_bytes(), FNV_OFFSET));
    assert_ne!(
        fnv1a(p.as_bytes(), FNV_OFFSET),
        fnv1a(p.as_bytes(), FNV_OFFSET_ALT),
        "the two bases must give independent hashes"
    );
}

#[test]
fn unknown_cold_presence_vetoes_everything() {
    let unknown = ColdPresence::Unknown;
    assert!(unknown.may_contain("s3://b/data/anything.parquet"));
    assert!(!unknown.is_authoritative());

    let empty = ColdPresence::Empty;
    assert!(!empty.may_contain("s3://b/data/anything.parquet"));
    assert!(empty.is_authoritative());
}

#[test]
fn filter_presence_answers_from_the_bloom() {
    let mut f = ColdPathFilter::with_capacity(100);
    f.insert("s3://b/data/held.parquet");
    let p = ColdPresence::Filter(&f);
    assert!(p.may_contain("s3://b/data/held.parquet"), "held path vetoes");
    assert!(!p.may_contain("s3://b/data/never-inserted.parquet"));
    assert!(p.is_authoritative());
}

#[test]
fn live_path_estimate_sums_index_counts_without_reading_leaves() {
    let leaves = vec![
        leaf_with_files("s3://b/m/a-m0.parquet", 3, 7),
        leaf_with_files("s3://b/m/b-m0.parquet", 1, 0),
    ];
    assert_eq!(live_path_estimate(&leaves), 11);
    assert_eq!(live_path_estimate(&[]), 0);
}

#[test]
fn rebuild_triggers_on_drift_and_on_a_missing_filter() {
    let leaves = vec![leaf_with_files("s3://b/m/a-m0.parquet", 100, 0)];

    assert!(needs_rebuild(None, &leaves), "no filter at all must seed");
    assert!(
        !needs_rebuild(Some(100), &leaves),
        "a filter holding exactly the live set is healthy"
    );
    assert!(
        !needs_rebuild(Some(140), &leaves),
        "1.4x is under threshold — churn alone must not trigger every pass"
    );
    assert!(
        needs_rebuild(Some(160), &leaves),
        "1.6x dead weight must trigger a rebuild"
    );
    assert!(needs_rebuild(Some(1_000), &leaves));
}

fn ratio(filter_items: u64, live_paths: u64) -> Option<f64> {
    saturation(filter_items, live_paths).map(|s| s.numerator as f64 / s.denominator as f64)
}

#[test]
fn saturation_is_none_when_there_is_nothing_to_compare() {
    assert_eq!(ratio(0, 0), None);
    assert_eq!(ratio(500, 0), None, "empty tier has no meaningful ratio");
    assert_eq!(ratio(150, 100), Some(1.5));
    assert!(!needs_rebuild(Some(0), &[]));
}

#[test]
fn oversaturation_makes_absent_paths_read_as_present() {
    let live = 2_000;
    let mut f = ColdPathFilter::with_capacity(live);
    for i in 0..(live * 10) {
        f.insert(&format!("s3://b/data/churn-{i:08}.parquet"));
    }
    let probes = 2_000;
    let fp = (0..probes)
        .filter(|i| f.maybe_contains(&format!("s3://b/data/absent-{i:08}.parquet")))
        .count();
    let rate = fp as f64 / probes as f64;
    assert!(
        rate > 0.5,
        "10x overload should strand most retirements, got {rate:.3} — \
         if this drops, the drift argument for mandatory rebuilds is wrong"
    );
    assert!(needs_rebuild(
        Some(f.len()),
        &[leaf_with_files("s3://b/m/a-m0.parquet", live as u32, 0)]
    ));
}

#[test]
fn build_filter_covers_every_path() {
    let m = vec![
        (
            "leaf-a".to_string(),
            vec![
                "s3://b/data/1.parquet".to_string(),
                "s3://b/data/2.parquet".to_string(),
            ],
        ),
        ("leaf-b".to_string(), vec!["s3://b/data/3.parquet".to_string()]),
    ];
    let f = build_filter(&m);
    assert_eq!(f.len(), 3);
    for p in [
        "s3://b/data/1.parquet",
        "s3://b/data/2.parquet",
        "s3://b/data/3.parquet",
    ] {
        assert!(f.maybe_contains(p));
    }
}

#[test]
fn sizing_scales_and_stays_within_bounds() {
    let small = ColdPathFilter::with_capacity(10);
    assert_eq!(small.n_bits(), MIN_BITS, "tiny inputs take the floor");

    let big = ColdPathFilter::with_capacity(500_000);
    assert!(big.n_bits() > small.n_bits());
    assert!(big.n_bits() <= MAX_BITS);
    assert!(
        big.byte_len() < 1_000_000,
        "500 K paths should cost well under 1 MB, got {}",
        big.byte_len()
    );
    assert!((1..=16).contains(&big.n_hashes()));

    let huge = ColdPathFilter::with_capacity(1_000_000_000);
    assert_eq!(huge.n_bits(), MAX_BITS, "clamped rather than unbounded");
}

#[test]
fn sizing_matches_the_formula() {
    for n in [1usize, 7, 107, 108, 1_000, 12_345, 500_000, 4_300_000, 14_000_000, 14_100_000] {
        let ln2 = std::f64::consts::LN_2;
        let raw = (-(n as f64) * TARGET_FPP.ln() / (ln2 * ln2)).ceil();
        let bits = (raw as u64).clamp(1_024, 128 * 1024 * 1024);
        let hashes = (((bits as f64 / n as f64) * ln2).round() as u32).clamp(1, 16);
        let f = ColdPathFilter::with_capacity(n);
        assert_eq!(f.n_bits(), bits, "bits for {n}");
        assert_eq!(f.n_hashes(), hashes, "hashes for {n}");
        assert_eq!(f.byte_len() as u64, bits.div_ceil(8));
    }
}

#[test]
fn fnv1a_has_its_published_values() {
    assert_eq!(fnv1a(b"", FNV_OFFSET), 0xcbf2_9ce4_8422_2325);
    assert_eq!(fnv1a(b"a", FNV_OFFSET), 0xaf63_dc4c_8601_ec8c);
    assert_eq!(fnv1a(b"foobar", FNV_OFFSET), 0x8594_4171_f739_67e8);
}

#[test]
fn stored_filter_is_read_back_for_its_leaves_only() {
    let leaves = vec![leaf("s3://b/m/a-m0.parquet"), leaf("s3://b/m/b-m0.parquet")];
    let mut f = ColdPathFilter::with_capacity(2);
    f.insert("s3://b/data/held.parquet");
    let sidecar = cold_paths_sidecar(&f, &leaves);
    assert_eq!(sidecar.covered_leaf_count, 2);
    assert_eq!(sidecar.covered_leaf_digest, coverage_digest(&leaves));

    let read = accept_cold_paths_sidecar(sidecar.clone(), &leaves).unwrap();
    assert_eq!(read, f);
    let mut reordered = leaves.clone();
    reordered.reverse();
    assert!(accept_cold_paths_sidecar(sidecar.clone(), &reordered).is_some());

    let fewer = vec![leaves[0].clone()];
    assert!(accept_cold_paths_sidecar(sidecar.clone(), &fewer).is_none());
    let other = vec![leaves[0].clone(), leaf("s3://b/m/c-m0.parquet")];
    assert!(accept_cold_paths_sidecar(sidecar.clone(), &other).is_none());

    let mut wrong_version = sidecar.clone();
    wrong_version.format_version = 2;
    assert!(accept_cold_paths_sidecar(wrong_version, &leaves).is_none());
    let mut no_sum = sidecar.clone();
    no_sum.covered_leaf_sum = None;
    assert!(accept_cold_paths_sidecar(no_sum, &leaves).is_none());
    let mut truncated = sidecar.clone();
    truncated.bits.pop();
    assert!(accept_cold_paths_sidecar(truncated, &leaves).is_none());
    let mut no_bits = sidecar.clone();
    no_bits.n_bits = 0;
    no_bits.bits.clear();
    assert!(accept_cold_paths_sidecar(no_bits, &leaves).is_none());
}

#[test]
fn presence_fails_closed() {
    let leaves = vec![leaf("s3://b/m/a-m0.parquet")];
    let mut f = ColdPathFilter::with_capacity(1);
    f.insert("s3://b/data/held.parquet");
    let sidecar = cold_paths_sidecar(&f, &leaves);

    assert_eq!(resolve_cold_presence(&IndexRead::Absent, None).describe(), "no-cold-tier");
    assert_eq!(
        resolve_cold_presence(&IndexRead::Leaves(vec![]), None).describe(),
        "no-cold-tier"
    );
    assert_eq!(
        resolve_cold_presence(&IndexRead::Failed, Some(sidecar.clone())).describe(),
        "unknown-veto-all"
    );
    assert_eq!(
        resolve_cold_presence(&IndexRead::Leaves(leaves.clone()), None).describe(),
        "unknown-veto-all"
    );
    let known = resolve_cold_presence(&IndexRead::Leaves(leaves), Some(sidecar.clone()));
    assert_eq!(known.describe(), "sidecar");
    assert!(known.as_ref().may_contain("s3://b/data/held.parquet"));
    assert!(!known.as_ref().may_contain("s3://b/data/other.parquet"));
    let stale =
        resolve_cold_presence(&IndexRead::Leaves(vec![leaf("s3://b/m/z.parquet")]), Some(sidecar));
    assert!(matches!(stale, ColdPresenceOwned::Unknown));
    assert!(stale.as_ref().may_contain("s3://b/data/other.parquet"));
}

#[test]
fn rebuild_indexes_dead_entries_too() {
    let leaves = vec![leaf_with_files("s3://b/m/a.parquet", 1, 1), leaf("s3://b/m/b.parquet")];
    let mut rebuild = ColdPathsRebuild::new(&leaves);
    rebuild.add_leaf(&[
        entry("s3://b/data/live.parquet", ManifestStatus::Added),
        entry("s3://b/data/dead.parquet", ManifestStatus::Deleted),
    ]);
    rebuild.add_leaf(&[entry("s3://b/data/kept.parquet", ManifestStatus::Existing)]);
    let (sidecar, outcome) = rebuild.finish(&leaves);
    assert_eq!(outcome.leaves_scanned, 2);
    assert_eq!(outcome.paths_indexed, 3);
    assert_eq!(outcome.filter_bytes, 128);
    let f = accept_cold_paths_sidecar(sidecar, &leaves).unwrap();
    for p in ["s3://b/data/live.parquet", "s3://b/data/dead.parquet", "s3://b/data/kept.parquet"] {
        assert!(f.maybe_contains(p));
    }
    assert!(!f.maybe_contains("s3://b/data/none.parquet"));
}

#[test]
fn sidecar_stands_beside_the_index() {
    assert_eq!(
        cold_paths_sidecar_path("s3://b/metadata/bucket-index-1.parquet"),
        "s3://b/metadata/bucket-index-1.parquet.cold-paths.json"
    );
}

#[test]
fn rebuild_threshold_is_exclusive() {
    let leaves = vec![leaf_with_files("s3://b/m/a-m0.parquet", 100, 0)];
    assert!(!needs_rebuild(Some(150), &leaves));
    assert!(needs_rebuild(Some(151), &leaves));
}

#[test]
fn leaves_listed_twice_are_told_apart() {
    let twice = |path: &str| vec![leaf(path), leaf(path)];
    let a = twice("s3://b/m/a.parquet");
    let b = twice("s3://b/m/b.parquet");
    assert_eq!(coverage_digest(&a), coverage_digest(&b), "equal hashes cancel in the digest");
    let sidecar = cold_paths_sidecar(&ColdPathFilter::with_capacity(1), &a);
    assert!(accept_cold_paths_sidecar(sidecar.clone(), &a).is_some());
    assert!(accept_cold_paths_sidecar(sidecar, &b).is_none());
}
