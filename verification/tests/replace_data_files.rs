use std::collections::HashMap;
use std::sync::Arc;

use cold_tier::byte_order::ByteOrder;
use cold_tier::cluster::ManifestWriterKind;
use cold_tier::error::ErrorKind;
use cold_tier::manifest::{
    DataContentType, DataFile, FieldSummary, FormatVersion, ManifestContentType, ManifestEntry,
    ManifestFile, ManifestStatus, RootManifestEntry,
};
use cold_tier::metadata_actions::FastAppendAction;
use cold_tier::partition::{
    FieldKind, Literal, PartitionSpec, PrimitiveLiteral, Struct, StructType,
};
use cold_tier::path_set::Properties;
use cold_tier::replace_data_files::{
    build_target_partition_bytes, manifest_could_contain_target_files, reuse_cached,
    start_walk, summary_disjoint_from_targets, writes_parquet_manifests, CachedManifests,
    ReplaceDataFilesAction, ReplaceWalk, TargetValues, WalkStart, WalkTargets,
};
use cold_tier::table::{Operation, Snapshot, Summary, Table, TableMetadata};
use cold_tier::transaction::Transaction;

fn summary(lo: &[u8], hi: &[u8]) -> FieldSummary {
    FieldSummary {
        contains_null: false,
        contains_nan: Some(false),
        lower_bound: Some(lo.to_vec()),
        upper_bound: Some(hi.to_vec()),
    }
}

fn byte_set(vals: &[&[u8]]) -> TargetValues {
    let mut set = TargetValues::new();
    for v in vals {
        set.insert(v.to_vec(), Some(ByteOrder::Plain));
    }
    set
}

fn targets_in(order: Option<ByteOrder>, vals: &[&[u8]]) -> Vec<TargetValues> {
    let mut set = TargetValues::new();
    for v in vals {
        set.insert(v.to_vec(), order);
    }
    vec![set]
}

fn targets(vals: &[&[u8]]) -> Vec<TargetValues> {
    vec![byte_set(vals)]
}

#[test]
fn range_leaf_is_loaded_despite_being_provably_disjoint() {
    let s = vec![summary(&[0, 100], &[0, 200])];
    let t = targets(&[&[1, 244]]);
    assert!(
        manifest_could_contain_target_files(&s, &t),
        "pruning keeps it — only single-value bounds are prunable"
    );
    assert!(
        summary_disjoint_from_targets(&s, &t),
        "but the range proves it cannot contain the target"
    );
}

#[test]
fn overlapping_range_is_not_disjoint() {
    let s = vec![summary(&[0, 100], &[0, 200])];
    assert!(!summary_disjoint_from_targets(&s, &targets(&[&[0, 150]])));
    assert!(!summary_disjoint_from_targets(&s, &targets(&[&[0, 100]])));
    assert!(!summary_disjoint_from_targets(&s, &targets(&[&[0, 200]])));
}

#[test]
fn any_target_inside_range_means_not_disjoint() {
    let s = vec![summary(&[0, 100], &[0, 200])];
    assert!(!summary_disjoint_from_targets(&s, &targets(&[&[0, 150], &[1, 244]])));
    assert!(summary_disjoint_from_targets(&s, &targets(&[&[0, 5], &[1, 244]])));
}

#[test]
fn single_value_bounds_agree_with_pruning() {
    let s = vec![summary(&[0, 7], &[0, 7])];
    assert!(!manifest_could_contain_target_files(&s, &targets(&[&[0, 9]])));
    assert!(summary_disjoint_from_targets(&s, &targets(&[&[0, 9]])));
    assert!(manifest_could_contain_target_files(&s, &targets(&[&[0, 7]])));
    assert!(!summary_disjoint_from_targets(&s, &targets(&[&[0, 7]])));
}

#[test]
fn unreasonable_input_is_never_called_disjoint() {
    let s = vec![summary(&[0, 100], &[0, 200])];
    assert!(!summary_disjoint_from_targets(&s, &targets(&[&[5]])));
    let none = vec![FieldSummary {
        contains_null: false,
        contains_nan: Some(false),
        lower_bound: None,
        upper_bound: None,
    }];
    assert!(!summary_disjoint_from_targets(&none, &targets(&[&[0, 9]])));
    assert!(!summary_disjoint_from_targets(&s, &[TargetValues::new()]));
    assert!(!summary_disjoint_from_targets(&s, &[]));
}

#[test]
fn disjoint_on_any_field_is_enough() {
    let s = vec![summary(&[1], &[1]), summary(&[0, 100], &[0, 200])];
    let t = vec![byte_set(&[&[1u8]]), byte_set(&[&[1u8, 244]])];
    assert!(summary_disjoint_from_targets(&s, &t));
}

fn file_in(path: &str, partition: Struct) -> DataFile {
    DataFile {
        content: DataContentType::Data,
        file_path: path.to_string(),
        partition,
        partition_spec_id: 0,
        record_count: 1,
        file_size_in_bytes: 100,
        upper_bounds: HashMap::new(),
        equality_ids: None,
    }
}

fn in_hour(v: i32) -> Struct {
    Struct { fields: vec![Some(Literal::Primitive(PrimitiveLiteral::Int(v)))] }
}

fn file(path: &str) -> DataFile {
    file_in(path, in_hour(7))
}

fn shared(paths: &[&str]) -> Vec<Arc<DataFile>> {
    paths.iter().map(|p| Arc::new(file(p))).collect()
}

fn entry(path: &str, status: ManifestStatus) -> ManifestEntry {
    ManifestEntry {
        status,
        snapshot_id: Some(1),
        sequence_number: Some(2),
        file_sequence_number: Some(3),
        data_file: Arc::new(file(path)),
    }
}

fn manifest(path: &str, partitions: Option<Vec<FieldSummary>>) -> ManifestFile {
    ManifestFile {
        manifest_path: path.to_string(),
        manifest_length: 1,
        partition_spec_id: 0,
        content: ManifestContentType::Data,
        sequence_number: 1,
        min_sequence_number: 1,
        added_snapshot_id: 1,
        added_files_count: Some(1),
        existing_files_count: Some(0),
        deleted_files_count: Some(0),
        added_rows_count: Some(1),
        existing_rows_count: Some(0),
        deleted_rows_count: Some(0),
        partitions,
        key_metadata: None,
        first_row_id: None,
    }
}

fn metadata(version: FormatVersion, properties: &[(&str, &str)]) -> TableMetadata {
    let spec = Arc::new(PartitionSpec {
        spec_id: 0,
        fields: vec![],
        partition_type: Some(StructType { fields: vec![FieldKind::Primitive] }),
    });
    let mut props = Properties::new();
    for (k, v) in properties {
        props.insert(k.to_string(), v.to_string());
    }
    TableMetadata {
        format_version: version,
        uuid: 1,
        location: "s3://t".to_string(),
        last_sequence_number: 3,
        last_updated_ms: 0,
        next_row_id: 0,
        current_schema_id: 0,
        default_spec: spec.clone(),
        partition_specs: vec![spec],
        current_snapshot_id: None,
        snapshots: vec![],
        refs: vec![],
        properties: Arc::new(props),
    }
}

fn action() -> ReplaceDataFilesAction {
    let table = Table {
        identifier: "ns.t".to_string(),
        metadata_location: None,
        metadata: Arc::new(metadata(FormatVersion::V2, &[])),
    };
    Transaction::<FastAppendAction>::new(&table).replace_data_files()
}

#[test]
fn target_bytes_are_the_encoded_values_of_each_field() {
    let files: Vec<Arc<DataFile>> =
        vec![Arc::new(file_in("a", in_hour(7))), Arc::new(file_in("b", in_hour(258)))];
    let sets =
        build_target_partition_bytes(&files, &StructType { fields: vec![FieldKind::Primitive] });
    assert_eq!(sets.len(), 1);
    assert!(sets[0].contains(&[7, 0, 0, 0]));
    assert!(sets[0].contains(&[2, 1, 0, 0]));
    assert!(!sets[0].contains(&[8, 0, 0, 0]));
}

#[test]
fn a_field_without_encoded_targets_is_unprunable() {
    let other = vec![summary(&[9, 0, 0, 0], &[9, 0, 0, 0])];
    let null: Vec<Arc<DataFile>> = vec![Arc::new(file_in("b", Struct { fields: vec![None] }))];
    let primitive = StructType { fields: vec![FieldKind::Primitive] };
    let sets = build_target_partition_bytes(&null, &primitive);
    assert!(sets[0].is_empty());
    assert!(manifest_could_contain_target_files(&other, &sets));

    let valued: Vec<Arc<DataFile>> = vec![Arc::new(file_in("a", in_hour(7)))];
    let nested = StructType { fields: vec![FieldKind::Nested] };
    let sets = build_target_partition_bytes(&valued, &nested);
    assert!(sets[0].is_empty());
    let sets = build_target_partition_bytes(&valued, &primitive);
    assert!(!manifest_could_contain_target_files(&other, &sets));
}

#[test]
fn walk_keeps_drops_and_rewrites() {
    let table = metadata(FormatVersion::V2, &[]);
    let files = shared(&["x", "y", "z"]);
    let walk_targets = WalkTargets::new(&table, &files);
    let hour = |v: u8| Some(vec![summary(&[v, 0, 0, 0], &[v, 0, 0, 0])]);
    let mut inactive = manifest("inactive", None);
    inactive.added_files_count = Some(0);
    let list = vec![
        manifest("elsewhere", hour(9)),
        inactive,
        manifest("mixed", hour(7)),
        manifest("untouched", None),
        manifest("emptied", None),
        manifest("after", None),
    ];
    let mut walk = ReplaceWalk::new(list, &files);
    let mut counter = 3u64;

    assert!(walk.advance(&table, &files, &walk_targets));
    assert_eq!(walk.next_manifest().unwrap().manifest_path, "mixed");
    let rewrite = walk
        .add_manifest(
            &[
                entry("dead", ManifestStatus::Deleted),
                entry("x", ManifestStatus::Added),
                entry("stays", ManifestStatus::Added),
            ],
            &table,
            &files,
            0x0123_4567_89ab_cdef_0123_4567_89ab_cdef,
            &mut counter,
        )
        .unwrap();
    assert_eq!(
        rewrite.path,
        "s3://t/metadata/01234567-89ab-cdef-0123-456789abcdef-m-rewrite-3.parquet"
    );
    assert!(rewrite.parquet);
    assert_eq!(rewrite.kind, ManifestWriterKind::V2Data);
    assert_eq!(counter, 4);
    assert_eq!(rewrite.entries.len(), 2, "what was deleted before does not come back");
    assert_eq!(rewrite.entries[0].status, ManifestStatus::Deleted);
    assert_eq!(rewrite.entries[0].data_file.file_path, "x");
    assert_eq!(rewrite.entries[1].status, ManifestStatus::Existing);
    assert_eq!(rewrite.entries[1].data_file.file_path, "stays");
    walk.add_rewritten(manifest("mixed-rewritten", None));

    assert!(walk.advance(&table, &files, &walk_targets));
    assert_eq!(walk.next_manifest().unwrap().manifest_path, "untouched");
    let none = walk.add_manifest(
        &[entry("other", ManifestStatus::Added)],
        &table,
        &files,
        1,
        &mut counter,
    );
    assert!(none.is_none());

    assert!(walk.advance(&table, &files, &walk_targets));
    assert_eq!(walk.next_manifest().unwrap().manifest_path, "emptied");
    let none = walk.add_manifest(
        &[entry("y", ManifestStatus::Added), entry("z", ManifestStatus::Existing)],
        &table,
        &files,
        1,
        &mut counter,
    );
    assert!(none.is_none());
    assert_eq!(counter, 4, "only a manifest that is written takes a number");

    assert!(!walk.advance(&table, &files, &walk_targets), "every file was found");
    let result = walk.finish(&files).unwrap();
    let paths: Vec<&str> = result.iter().map(|m| m.manifest_path.as_str()).collect();
    assert_eq!(paths, vec!["elsewhere", "mixed-rewritten", "untouched", "after"]);
}

#[test]
fn walk_fails_where_a_file_is_in_no_manifest() {
    let table = metadata(FormatVersion::V2, &[]);
    let files = shared(&["lost-1", "found", "lost-2"]);
    let walk_targets = WalkTargets::new(&table, &files);
    let mut walk = ReplaceWalk::new(vec![manifest("m", None)], &files);
    assert!(walk.advance(&table, &files, &walk_targets));
    let rewrite =
        walk.add_manifest(&[entry("found", ManifestStatus::Added)], &table, &files, 1, &mut 0);
    assert!(rewrite.is_none());
    assert!(!walk.advance(&table, &files, &walk_targets));
    let err = walk.finish(&files).err().unwrap();
    assert_eq!(err.kind(), ErrorKind::DataInvalid);
    assert_eq!(
        err.message(),
        "Could not find the following files to delete: lost-1, lost-2"
    );
}

#[test]
fn a_deleted_entry_is_no_file_found() {
    let table = metadata(FormatVersion::V2, &[]);
    let files = shared(&["x"]);
    let walk_targets = WalkTargets::new(&table, &files);
    let mut walk = ReplaceWalk::new(vec![manifest("m", None)], &files);
    assert!(walk.advance(&table, &files, &walk_targets));
    assert!(walk
        .add_manifest(&[entry("x", ManifestStatus::Deleted)], &table, &files, 1, &mut 0)
        .is_none());
    assert!(!walk.advance(&table, &files, &walk_targets));
    assert!(walk.finish(&files).is_err());
}

#[test]
fn reads_that_a_range_would_have_saved_are_counted() {
    let table = metadata(FormatVersion::V2, &[]);
    let files = shared(&["x"]);
    let walk_targets = WalkTargets::new(&table, &files);
    let outside = manifest("m", Some(vec![summary(&[8, 0, 0, 0], &[9, 0, 0, 0])]));
    assert!(walk_targets.read_in_vain(&outside, &table, &files));
    let around = manifest("m", Some(vec![summary(&[6, 0, 0, 0], &[9, 0, 0, 0])]));
    assert!(!walk_targets.read_in_vain(&around, &table, &files));
    assert!(!walk_targets.read_in_vain(&manifest("m", None), &table, &files));
}

#[test]
fn manifests_are_parquet_unless_the_table_says_avro() {
    let key = "write.parquet.metadata-codec";
    assert!(writes_parquet_manifests(&metadata(FormatVersion::V2, &[])));
    assert!(writes_parquet_manifests(&metadata(FormatVersion::V3, &[(key, "zstd")])));
    assert!(!writes_parquet_manifests(&metadata(FormatVersion::V3, &[(key, "AVRO")])));
    assert!(!writes_parquet_manifests(&metadata(FormatVersion::V1, &[])));
}

#[test]
fn cached_manifests_serve_the_same_snapshot_only() {
    let mut fresh = manifest("fresh", None);
    fresh.sequence_number = -1;
    let cached = vec![fresh, manifest("old", None)];
    let reused = reuse_cached(cached.clone(), Some(4), Some(4), 77).unwrap();
    assert_eq!(reused[0].added_snapshot_id, 77);
    assert_eq!(reused[1].added_snapshot_id, 1);
    assert!(reuse_cached(cached.clone(), Some(4), Some(5), 77).is_none());
    assert!(reuse_cached(cached.clone(), None, Some(5), 77).is_none());
    assert!(reuse_cached(cached, None, None, 77).is_some());
}

#[test]
fn a_table_without_a_snapshot_has_no_manifests() {
    let table = metadata(FormatVersion::V2, &[]);
    assert!(matches!(start_walk(&table, None, 77), WalkStart::Known(m) if m.is_empty()));
    let cached =
        |snapshot| Some(CachedManifests { snapshot, manifests: vec![manifest("old", None)] });
    assert!(matches!(start_walk(&table, cached(None), 77), WalkStart::Known(m) if m.len() == 1));
    assert!(matches!(start_walk(&table, cached(Some(4)), 77), WalkStart::Known(m) if m.is_empty()));

    let mut with_snapshot = metadata(FormatVersion::V2, &[]);
    with_snapshot.current_snapshot_id = Some(4);
    with_snapshot.snapshots.push(Arc::new(Snapshot {
        snapshot_id: 4,
        parent_snapshot_id: None,
        sequence_number: 3,
        timestamp_ms: 0,
        manifest_list: "list".to_string(),
        summary: Summary { operation: Operation::Append, additional_properties: Properties::new() },
        schema_id: None,
        row_range: None,
    }));
    assert!(matches!(start_walk(&with_snapshot, None, 77), WalkStart::Walk));
    assert!(matches!(start_walk(&with_snapshot, cached(Some(5)), 77), WalkStart::Walk));
    assert!(matches!(start_walk(&with_snapshot, cached(Some(4)), 77), WalkStart::Known(_)));
}

#[test]
fn replace_builder_sets_each_part() {
    let mut index = Properties::new();
    index.insert("f".to_string(), "m".to_string());
    let a = action()
        .delete_files(vec![file("a"), file("b")])
        .add_files(vec![file("c")])
        .delete_manifests(vec!["m".to_string()])
        .set_commit_uuid(5)
        .set_key_metadata(vec![1])
        .set_snapshot_properties(index.clone())
        .validate_from_snapshot(6)
        .data_sequence_number(7)
        .add_delete_files(vec![file("d")])
        .with_snapshot_id(8)
        .with_file_manifest_index(index)
        .with_cached_root_entries(Some(9), vec![RootManifestEntry::Inline(entry("e", ManifestStatus::Added))]);
    assert_eq!(a.files_to_delete.len(), 2);
    assert_eq!(a.files_to_delete[1].file_path, "b");
    assert_eq!(a.files_to_add.len(), 1);
    assert_eq!(a.delete_manifests, vec!["m"]);
    assert_eq!(a.commit_id, Some(5));
    assert_eq!(a.key_metadata, Some(vec![1]));
    assert_eq!(a.validate_from_snapshot_id, Some(6));
    assert_eq!(a.data_sequence_number, Some(7));
    assert_eq!(a.added_delete_files.len(), 1);
    assert_eq!(a.snapshot_id_override, Some(8));
    assert_eq!(a.file_to_manifest_index.as_ref().unwrap().get("f").unwrap(), "m");
    assert_eq!(a.snapshot_properties.get("f").unwrap(), "m");
    let cached = a.cached_root_entries.as_ref().unwrap();
    assert_eq!(cached.snapshot_id, Some(9));
    assert_eq!(cached.entries.len(), 1);
    let plan = a.plan_commit();
    assert_eq!((plan.producer_id, plan.operation_id), (5, 5));
    assert!(plan.validate_added);
    assert_eq!(a.operation(), Operation::Replace);
    assert!(a.delete_entries().is_empty());
}

#[test]
fn ids_of_a_replacement_are_time_ordered() {
    let plan = action().plan_commit();
    assert_eq!((plan.producer_id >> 76) & 0xf, 7);
    assert_eq!((plan.producer_id >> 62) & 0x3, 2);
    assert_eq!((plan.operation_id >> 76) & 0xf, 7);
    assert_ne!(plan.producer_id, plan.operation_id);
    assert!(!plan.validate_added);
}

#[test]
fn a_number_in_the_range_is_never_called_disjoint() {
    let number = Some(ByteOrder::LowFirst);
    let le = |v: i32| v.to_le_bytes();
    for order in [number, None] {
        let s = vec![summary(&le(255), &le(256))];
        assert!(!summary_disjoint_from_targets(&s, &targets_in(order, &[&le(255)])));
        assert!(!summary_disjoint_from_targets(&s, &targets_in(order, &[&le(256)])));
        let signed = vec![summary(&le(-3), &le(2))];
        for v in -3..=2 {
            assert!(!summary_disjoint_from_targets(&signed, &targets_in(order, &[&le(v)])), "{v}");
        }
        let long = vec![summary(&(-1i64).to_le_bytes(), &70_000i64.to_le_bytes())];
        for v in [-1i64, 0, 255, 256, 69_999, 70_000] {
            let t = targets_in(order, &[&v.to_le_bytes()]);
            assert!(!summary_disjoint_from_targets(&long, &t), "{v}");
        }
        assert!(summary_disjoint_from_targets(&s, &targets_in(order, &[&le(0x0101_0101)])));
    }
    let s = vec![summary(&le(255), &le(256))];
    assert!(summary_disjoint_from_targets(&s, &targets_in(number, &[&le(254)])));
    assert!(summary_disjoint_from_targets(&s, &targets_in(number, &[&le(257), &le(-1)])));
    assert!(!summary_disjoint_from_targets(&s, &targets_in(number, &[&le(257), &le(256)])));

    let float = vec![summary(&(-2.5f32).to_le_bytes(), &1.5f32.to_le_bytes())];
    for order in [Some(ByteOrder::LowFirstFloat), None] {
        for v in [-2.5f32, -1.0, 0.0, 0.25, 1.5] {
            let t = targets_in(order, &[&v.to_le_bytes()]);
            assert!(!summary_disjoint_from_targets(&float, &t), "{v}");
        }
    }
    let below = targets_in(Some(ByteOrder::LowFirstFloat), &[&(-2.75f32).to_le_bytes()]);
    assert!(summary_disjoint_from_targets(&float, &below));
}

#[test]
fn text_is_compared_as_it_is() {
    let s = vec![summary(b"ba", b"bz")];
    assert!(summary_disjoint_from_targets(&s, &targets(&[b"ab"])));
    assert!(summary_disjoint_from_targets(&s, &targets(&[b"ca"])));
    assert!(!summary_disjoint_from_targets(&s, &targets(&[b"bb"])));
    assert!(!summary_disjoint_from_targets(&s, &targets_in(None, &[b"ab"])), "not known to be text");
    let mut mixed = byte_set(&[b"ab"]);
    mixed.insert(b"ab".to_vec(), Some(ByteOrder::LowFirst));
    assert!(!summary_disjoint_from_targets(&s, &[mixed]), "out of the range in one order only");
}

#[test]
fn values_are_compared_in_the_order_of_their_type() {
    let one = StructType { fields: vec![FieldKind::Primitive] };
    let of = |p: PrimitiveLiteral| {
        let partition = Struct { fields: vec![Some(Literal::Primitive(p))] };
        build_target_partition_bytes(&[Arc::new(file_in("f", partition))], &one)
    };
    let le = |v: i32| v.to_le_bytes();
    let hours = vec![summary(&le(255), &le(300))];
    assert!(!summary_disjoint_from_targets(&hours, &of(PrimitiveLiteral::Int(256))));
    assert!(summary_disjoint_from_targets(&hours, &of(PrimitiveLiteral::Int(512))));
    let names = vec![summary(b"ba", b"bz")];
    assert!(summary_disjoint_from_targets(&names, &of(PrimitiveLiteral::Text("ab".to_string()))));
    assert!(!summary_disjoint_from_targets(&names, &of(PrimitiveLiteral::Text("bq".to_string()))));
    let other = of(PrimitiveLiteral::Other(Some(b"ab".to_vec())));
    assert!(!summary_disjoint_from_targets(&names, &other), "its order is not known");
}

#[test]
fn nulls_are_looked_for_where_there_may_be_some() {
    let seven = [7u8, 0, 0, 0];
    let nine = [9u8, 0, 0, 0];
    let mut values = byte_set(&[&seven]);
    values.insert_null();
    let mut pinned = summary(&nine, &nine);
    assert!(!manifest_could_contain_target_files(&[pinned.clone()], &[values.clone()]));
    assert!(summary_disjoint_from_targets(&[pinned.clone()], &[values.clone()]));
    pinned.contains_null = true;
    assert!(manifest_could_contain_target_files(&[pinned.clone()], &[values.clone()]));
    assert!(!summary_disjoint_from_targets(&[pinned.clone()], &[values]));
    assert!(!manifest_could_contain_target_files(&[pinned], &[byte_set(&[&seven])]));
}

#[test]
fn values_that_no_bound_speaks_of_are_looked_for() {
    let seven = [7u8, 0, 0, 0];
    let nine = [9u8, 0, 0, 0];
    let mut values = byte_set(&[&seven]);
    values.insert_unencoded();
    assert!(manifest_could_contain_target_files(&[summary(&nine, &nine)], &[values]));
    let mut with_nan = summary(&nine, &nine);
    with_nan.contains_nan = Some(true);
    assert!(manifest_could_contain_target_files(&[with_nan], &[byte_set(&[&seven])]));

    let files: Vec<Arc<DataFile>> = vec![
        Arc::new(file_in("a", in_hour(7))),
        Arc::new(file_in("b", Struct { fields: vec![None] })),
    ];
    let sets =
        build_target_partition_bytes(&files, &StructType { fields: vec![FieldKind::Primitive] });
    let mut pinned = summary(&nine, &nine);
    assert!(!manifest_could_contain_target_files(&[pinned.clone()], &sets));
    pinned.contains_null = true;
    assert!(manifest_could_contain_target_files(&[pinned], &sets));
}
