use std::collections::HashMap;
use std::sync::Arc;

use cold_tier::cluster::{
    cluster_entries, write_entries_clustered, writer_kind, ManifestWriterKind,
};
use cold_tier::fraction::Fraction;
use cold_tier::manifest::{DataContentType, DataFile, FormatVersion, ManifestEntry, ManifestStatus};
use cold_tier::order::{stable_order, stable_sort};
use cold_tier::partition::{
    bound_bytes_of, le_i32, le_i64, same_partition, transform_upper_micros, Literal,
    PrimitiveLiteral, Struct, Transform,
};
use cold_tier::path_set::{PathSet, Properties};
use cold_tier::text::{
    decimal_of, eq_ignore_ascii_case, join, parse_u64, parse_usize, same_text, signed_decimal_of,
};

#[test]
fn numbers_are_written_in_decimal() {
    for n in [0u64, 7, 10, 99, 100, 18_446_744_073_709_551_615] {
        assert_eq!(decimal_of(n), n.to_string());
        assert_eq!(parse_u64(&decimal_of(n)), Some(n));
    }
    for i in [0i64, -1, 42, i64::MIN, i64::MAX] {
        assert_eq!(signed_decimal_of(i), i.to_string());
    }
}

#[test]
fn numbers_are_read_as_the_standard_library_reads_them() {
    for s in ["", "+", "-", "0", "00", "+7", "-0", "-7", "7a", "18446744073709551615",
        "18446744073709551616", "99999999999999999999999", " 1", "٣"]
    {
        assert_eq!(parse_u64(s), s.parse::<u64>().ok(), "{s:?}");
        assert_eq!(parse_usize(s), s.parse::<usize>().ok(), "{s:?}");
    }
}

#[test]
fn texts_compare_and_join() {
    assert!(same_text("añb", "añb"));
    assert!(!same_text("a", "ab"));
    assert!(eq_ignore_ascii_case("TrUe", "true"));
    assert!(!eq_ignore_ascii_case("É", "é"), "only ASCII letters fold");
    assert!(!eq_ignore_ascii_case("tru", "true"));
    let parts = ["a".to_string(), "".to_string(), "b".to_string()];
    assert_eq!(join(&parts, ", "), "a, , b");
    assert_eq!(join(&[], ","), "");
}

#[test]
fn stable_sorting_keeps_the_order_of_equals() {
    let keys = vec![3i64, 1, 2, 1, 3];
    assert_eq!(stable_order(&keys), vec![1, 3, 2, 0, 4]);
    assert_eq!(stable_sort(vec!['a', 'b', 'c', 'd', 'e'], &keys), vec!['b', 'd', 'c', 'a', 'e']);
}

#[test]
fn sets_and_properties_hold_what_was_put_in() {
    let mut set = PathSet::new();
    assert!(set.is_empty());
    assert!(set.insert("a".to_string()));
    assert!(!set.insert("a".to_string()));
    assert!(set.contains("a"));
    assert_eq!(set.len(), 1);
    assert!(set.remove("a"));
    assert!(!set.remove("a"));

    let mut p = Properties::new();
    p.insert("k".to_string(), "1".to_string());
    p.insert("l".to_string(), "2".to_string());
    p.insert("k".to_string(), "3".to_string());
    assert_eq!(p.get("k").unwrap(), "3");
    assert_eq!(p.get("m"), None);
    assert_eq!(p.pairs()[2], ("k".to_string(), "3".to_string()));
}

#[test]
fn bounds_read_back() {
    for v in [0i32, 1, -1, i32::MIN, i32::MAX] {
        let bytes = bound_bytes_of(&PrimitiveLiteral::Int(v)).unwrap();
        assert_eq!(bytes, v.to_le_bytes());
        assert_eq!(le_i32(&bytes), Some(v as i64));
    }
    for v in [0i64, -1, i64::MIN, i64::MAX] {
        let bytes = bound_bytes_of(&PrimitiveLiteral::Long(v)).unwrap();
        assert_eq!(bytes, v.to_le_bytes());
        assert_eq!(le_i64(&bytes), Some(v));
    }
    assert_eq!(le_i32(&[1, 2, 3]), None);
    assert_eq!(le_i64(&[0; 7]), None);
    assert_eq!(bound_bytes_of(&PrimitiveLiteral::Boolean(true)), Some(vec![1]));
    assert_eq!(
        bound_bytes_of(&PrimitiveLiteral::Text("é".to_string())),
        Some("é".as_bytes().to_vec())
    );
    assert_eq!(bound_bytes_of(&PrimitiveLiteral::Other(None)), None);
}

#[test]
fn a_time_past_the_range_is_no_time() {
    assert_eq!(
        transform_upper_micros(&Transform::Day, &i32::MAX.to_le_bytes()),
        None,
        "the end of that day is past the last microsecond"
    );
    assert_eq!(
        transform_upper_micros(&Transform::Hour, &i32::MAX.to_le_bytes()),
        Some((i32::MAX as i64 + 1) * 3_600_000_000)
    );
    assert_eq!(transform_upper_micros(&Transform::Hour, &(-1i32).to_le_bytes()), Some(0));
}

fn in_partition(v: Option<i64>) -> Struct {
    Struct { fields: vec![v.map(|v| Literal::Primitive(PrimitiveLiteral::Long(v)))] }
}

fn entry(path: &str, partition: Struct) -> ManifestEntry {
    ManifestEntry {
        status: ManifestStatus::Existing,
        snapshot_id: None,
        sequence_number: None,
        file_sequence_number: None,
        data_file: Arc::new(DataFile {
            content: DataContentType::Data,
            file_path: path.to_string(),
            partition,
            partition_spec_id: 0,
            record_count: 1,
            file_size_in_bytes: 1,
            upper_bounds: HashMap::new(),
            equality_ids: None,
        }),
    }
}

#[test]
fn clusters_hold_one_partition_each() {
    assert!(same_partition(&in_partition(Some(1)), &in_partition(Some(1))));
    assert!(!same_partition(&in_partition(Some(1)), &in_partition(None)));
    let groups = cluster_entries(vec![
        entry("a", in_partition(Some(1))),
        entry("b", in_partition(None)),
        entry("c", in_partition(Some(1))),
        entry("d", in_partition(Some(2))),
    ]);
    let paths: Vec<Vec<&str>> = groups
        .iter()
        .map(|g| g.iter().map(|e| e.data_file.file_path.as_str()).collect())
        .collect();
    assert_eq!(paths, vec![vec!["a", "c"], vec!["b"], vec!["d"]]);
}

#[test]
fn clustered_manifests_are_numbered_on() {
    let mut counter = 5u64;
    let entries =
        vec![entry("a", in_partition(Some(1))), entry("b", in_partition(Some(2)))];
    let ws = write_entries_clustered(
        "s3://t",
        0xff,
        FormatVersion::V4,
        &mut counter,
        3,
        true,
        entries.clone(),
        true,
    );
    assert_eq!(counter, 7);
    assert_eq!(ws[1].path, "s3://t/metadata/00000000-0000-0000-0000-0000000000ff-m6.parquet");
    assert_eq!(ws[1].spec_id, 3);
    assert_eq!(ws[1].kind, ManifestWriterKind::V3Deletes);
    let one = write_entries_clustered(
        "s3://t",
        0xff,
        FormatVersion::V2,
        &mut counter,
        3,
        false,
        entries,
        false,
    );
    assert_eq!(one.len(), 1);
    assert_eq!(one[0].entries.len(), 2);
    assert_eq!(writer_kind(FormatVersion::V1, true), ManifestWriterKind::V1);
    assert_eq!(writer_kind(FormatVersion::V2, true), ManifestWriterKind::V2Deletes);
}

#[test]
fn fractions_compare_exactly() {
    let third = Fraction { numerator: 1, denominator: 3 };
    assert!(Fraction { numerator: 2, denominator: 6 }.reaches(third));
    assert!(!Fraction { numerator: 333_333, denominator: 1_000_000 }.reaches(third));
    assert!(Fraction { numerator: u64::MAX, denominator: 1 }.reaches(third));
}
