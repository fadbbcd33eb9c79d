//! Replacing data files in a table: the manifests that list a file to delete are rewritten, and
//! all others stay as they are.

use std::collections::VecDeque;
use std::sync::Arc;

use vstd::prelude::*;
use vstd::string::StringExecFns;

use crate::action::{RootEntries, TransactionAction};
use crate::byte_order::{
    is_outside, law_int_in_range_is_not_outside, law_one_value_excludes_all_others, literal_order,
    literal_order_of, orders_of, outside, ByteOrder, Orders,
};
use crate::cluster::{writer_kind, writer_kind_spec, ManifestWriterKind};
use crate::error::{Error, ErrorKind};
use crate::manifest::{
    share, shared, DataFile, FieldSummary, FormatVersion, ManifestEntry, ManifestFile,
    ManifestStatus, RootManifestEntry,
};
use crate::outside::{fresh_id, id_text, id_text_of, is_time_ordered};
use crate::partition::{
    bound_bytes, bound_bytes_of, bytes_view, FieldKind, Literal, PrimitiveLiteral, Struct,
    StructType,
};
use crate::path_set::{PathSet, Properties};
use crate::seqs::lemma_take_push;
use crate::table::{Operation, TableMetadata};
use crate::text::{
    decimal, decimal_of, eq_ignore_ascii_case, join, joined, same_bytes, same_ignoring_case,
    signed_decimal, texts,
};

verus! {

/// The values that a field takes in the partitions of the files to delete.
#[derive(Clone, Debug, PartialEq, Eq)]
pub struct TargetValues {
    items: Vec<Vec<u8>>,
    orders: Orders,
    null: bool,
    unencoded: bool,
}

/// The values that a field takes in the partitions of the files to delete.
pub struct TargetView {
    /// The bytes that stand for them in a summary.
    pub bytes: Set<Seq<u8>>,
    /// What the bytes may stand for.
    pub orders: Set<ByteOrder>,
    /// Whether one of them is null, which no bound speaks of.
    pub null: bool,
    /// Whether one of them has no bytes to stand for it.
    pub unencoded: bool,
}

/// The byte strings that a list holds.
pub open spec fn byte_strings(items: Seq<Vec<u8>>) -> Seq<Seq<u8>> {
    items.map_values(|b: Vec<u8>| b@)
}

impl View for TargetValues {
    type V = TargetView;

    closed spec fn view(&self) -> TargetView {
        TargetView {
            bytes: byte_strings(self.items@).to_set(),
            orders: self.orders@,
            null: self.null,
            unencoded: self.unencoded,
        }
    }
}

/// No value.
pub open spec fn no_target() -> TargetView {
    TargetView { bytes: Set::empty(), orders: Set::empty(), null: false, unencoded: false }
}

impl TargetValues {
    /// No value.
    pub fn new() -> (r: Self)
        ensures
            r@ == no_target(),
    {
        let r = TargetValues {
            items: Vec::new(),
            orders: Orders::new(),
            null: false,
            unencoded: false,
        };
        assert(r@.bytes =~= Set::<Seq<u8>>::empty());
        r
    }

    /// Whether `bytes` stand for one of the values.
    pub fn contains(&self, bytes: &[u8]) -> (r: bool)
        ensures
            r == self@.bytes.contains(bytes@),
    {
        let mut i: usize = 0;
        while i < self.items.len()
            invariant
                i <= self.items@.len(),
                forall|k: int| 0 <= k < i ==> (#[trigger] self.items@[k])@ != bytes@,
            decreases self.items@.len() - i,
        {
            if same_bytes(&self.items[i], bytes) {
                assert(byte_strings(self.items@)[i as int] == bytes@);
                return true;
            }
            i = i + 1;
        }
        assert forall|k: int| 0 <= k < byte_strings(self.items@).len() implies byte_strings(
            self.items@,
        )[k] != bytes@ by {
            assert(self.items@[k]@ != bytes@);
        }
        false
    }

    /// Adds the value that `bytes` stand for in the order `order`, or in any where it is not known.
    pub fn insert(&mut self, bytes: Vec<u8>, order: Option<ByteOrder>)
        ensures
            final(self)@ == (TargetView {
                bytes: old(self)@.bytes.insert(bytes@),
                orders: old(self)@.orders.union(orders_of(order)),
                ..old(self)@
            }),
    {
        let ghost added = bytes@;
        self.orders.add_order(order);
        if !self.contains(bytes.as_slice()) {
            let ghost before = byte_strings(self.items@);
            self.items.push(bytes);
            proof {
                assert(byte_strings(self.items@) =~= before.push(added));
                crate::path_set::lemma_push_to_set(before, added);
            }
        } else {
            assert(self@.bytes =~= self@.bytes.insert(added));
        }
    }

    /// Adds the value null.
    pub fn insert_null(&mut self)
        ensures
            final(self)@ == (TargetView { null: true, ..old(self)@ }),
    {
        self.null = true;
    }

    /// Adds a value that has no bytes to stand for it.
    pub fn insert_unencoded(&mut self)
        ensures
            final(self)@ == (TargetView { unencoded: true, ..old(self)@ }),
    {
        self.unencoded = true;
    }

    /// Whether there is no value that bytes stand for.
    pub fn is_empty(&self) -> (r: bool)
        ensures
            r <==> (forall|b: Seq<u8>| !self@.bytes.contains(b)),
    {
        if self.items.len() > 0 {
            assert(byte_strings(self.items@)[0] == self.items@[0]@);
            assert(self@.bytes.contains(self.items@[0]@));
        }
        self.items.len() == 0
    }
}

/// The values behind `targets`.
pub open spec fn sets(targets: Seq<TargetValues>) -> Seq<TargetView> {
    targets.map_values(|t: TargetValues| t@)
}

/// Whether all fields of a partition type are primitive.
pub open spec fn all_primitive(partition_type: StructType) -> bool {
    forall|i: int|
        0 <= i < partition_type.fields@.len() ==> #[trigger] partition_type.fields@[i]
            == FieldKind::Primitive
}

/// The bytes that stand for the field `i` of a partition tuple in a summary.
pub open spec fn tuple_bytes(partition: Struct, i: int) -> Option<Seq<u8>> {
    match partition.fields@[i] {
        Some(Literal::Primitive(p)) => bound_bytes(p),
        _ => None,
    }
}

/// The orders that those bytes may stand for.
pub open spec fn tuple_orders(partition: Struct, i: int) -> Set<ByteOrder> {
    match partition.fields@[i] {
        Some(Literal::Primitive(p)) => orders_of(literal_order(p)),
        _ => Set::empty(),
    }
}

/// Whether `file` has a partition of the arity of `partition_type`.
pub open spec fn fits(file: Arc<DataFile>, partition_type: StructType) -> bool {
    file.partition.fields@.len() == partition_type.fields@.len()
}

/// The bytes that stand for the field `i` of the partitions of `files` in a summary, as far as they
/// are of the arity of `partition_type`.
pub open spec fn target_set(files: Seq<Arc<DataFile>>, partition_type: StructType, i: int) -> Set<
    Seq<u8>,
> {
    Set::new(
        |b: Seq<u8>|
            exists|f: int|
                0 <= f < files.len() && fits(#[trigger] files[f], partition_type) && tuple_bytes(
                    files[f].partition,
                    i,
                ) == Some(b),
    )
}

/// What those bytes may stand for.
pub open spec fn target_orders(files: Seq<Arc<DataFile>>, partition_type: StructType, i: int) -> Set<
    ByteOrder,
> {
    Set::new(
        |order: ByteOrder|
            exists|f: int|
                0 <= f < files.len() && fits(#[trigger] files[f], partition_type) && tuple_bytes(
                    files[f].partition,
                    i,
                ) is Some && tuple_orders(files[f].partition, i).contains(order),
    )
}

/// The values that the field `i` takes in the partitions of `files`, as far as they are of the arity
/// of `partition_type`, whose fields must all be primitive.
pub open spec fn target(files: Seq<Arc<DataFile>>, partition_type: StructType, i: int) -> TargetView {
    if all_primitive(partition_type) {
        TargetView {
            bytes: target_set(files, partition_type, i),
            orders: target_orders(files, partition_type, i),
            null: exists|f: int|
                0 <= f < files.len() && fits(#[trigger] files[f], partition_type)
                    && files[f].partition.fields@[i] is None,
            unencoded: exists|f: int|
                0 <= f < files.len() && fits(#[trigger] files[f], partition_type)
                    && files[f].partition.fields@[i] is Some && tuple_bytes(files[f].partition, i)
                    is None,
        }
    } else {
        no_target()
    }
}

/// The values that the partitions of `files` take, field by field.
pub open spec fn target_sets(files: Seq<Arc<DataFile>>, partition_type: StructType) -> Seq<
    TargetView,
> {
    Seq::new(partition_type.fields@.len(), |i: int| target(files, partition_type, i))
}

/// `v` with the value of the field `i` of `partition`.
spec fn with_value(v: TargetView, partition: Struct, i: int) -> TargetView {
    if partition.fields@[i] is None {
        TargetView { null: true, ..v }
    } else {
        match tuple_bytes(partition, i) {
            Some(b) => TargetView {
                bytes: v.bytes.insert(b),
                orders: v.orders.union(tuple_orders(partition, i)),
                ..v
            },
            None => TargetView { unencoded: true, ..v },
        }
    }
}

proof fn lemma_target_push(
    files: Seq<Arc<DataFile>>,
    file: Arc<DataFile>,
    partition_type: StructType,
    i: int,
)
    requires
        all_primitive(partition_type),
    ensures
        target(files.push(file), partition_type, i) == if fits(file, partition_type) {
            with_value(target(files, partition_type, i), file.partition, i)
        } else {
            target(files, partition_type, i)
        },
{
    let next = files.push(file);
    let n = files.len() as int;
    let was = target(files, partition_type, i);
    let now = target(next, partition_type, i);
    assert(next[n] == file);
    assert forall|b: Seq<u8>| #[trigger] now.bytes.contains(b) <==> was.bytes.contains(b) || (fits(
        file,
        partition_type,
    ) && tuple_bytes(file.partition, i) == Some(b)) by {
        if was.bytes.contains(b) {
            let f = choose|f: int|
                0 <= f < files.len() && fits(#[trigger] files[f], partition_type) && tuple_bytes(
                    files[f].partition,
                    i,
                ) == Some(b);
            assert(next[f] == files[f]);
        }
        if now.bytes.contains(b) {
            let f = choose|f: int|
                0 <= f < next.len() && fits(#[trigger] next[f], partition_type) && tuple_bytes(
                    next[f].partition,
                    i,
                ) == Some(b);
            if f < n {
                assert(files[f] == next[f]);
            }
        }
    }
    assert forall|order: ByteOrder| #[trigger] now.orders.contains(order) <==> was.orders.contains(
        order,
    ) || (fits(file, partition_type) && tuple_bytes(file.partition, i) is Some && tuple_orders(
        file.partition,
        i,
    ).contains(order)) by {
        if was.orders.contains(order) {
            let f = choose|f: int|
                0 <= f < files.len() && fits(#[trigger] files[f], partition_type) && tuple_bytes(
                    files[f].partition,
                    i,
                ) is Some && tuple_orders(files[f].partition, i).contains(order);
            assert(next[f] == files[f]);
        }
        if now.orders.contains(order) {
            let f = choose|f: int|
                0 <= f < next.len() && fits(#[trigger] next[f], partition_type) && tuple_bytes(
                    next[f].partition,
                    i,
                ) is Some && tuple_orders(next[f].partition, i).contains(order);
            if f < n {
                assert(files[f] == next[f]);
            }
        }
    }
    if was.null {
        let f = choose|f: int|
            0 <= f < files.len() && fits(#[trigger] files[f], partition_type)
                && files[f].partition.fields@[i] is None;
        assert(next[f] == files[f]);
    }
    if now.null {
        let f = choose|f: int|
            0 <= f < next.len() && fits(#[trigger] next[f], partition_type)
                && next[f].partition.fields@[i] is None;
        if f < n {
            assert(files[f] == next[f]);
        }
    }
    if was.unencoded {
        let f = choose|f: int|
            0 <= f < files.len() && fits(#[trigger] files[f], partition_type)
                && files[f].partition.fields@[i] is Some && tuple_bytes(files[f].partition, i)
                is None;
        assert(next[f] == files[f]);
    }
    if now.unencoded {
        let f = choose|f: int|
            0 <= f < next.len() && fits(#[trigger] next[f], partition_type)
                && next[f].partition.fields@[i] is Some && tuple_bytes(next[f].partition, i)
                is None;
        if f < n {
            assert(files[f] == next[f]);
        }
    }
    if fits(file, partition_type) {
        assert(now.bytes =~= with_value(was, file.partition, i).bytes);
        assert(now.orders =~= with_value(was, file.partition, i).orders);
        assert(now.null == with_value(was, file.partition, i).null);
        assert(now.unencoded == with_value(was, file.partition, i).unencoded);
    } else {
        assert(now.bytes =~= was.bytes);
        assert(now.orders =~= was.orders);
    }
}

fn no_values(n: usize) -> (r: Vec<TargetValues>)
    ensures
        r@.len() == n,
        forall|i: int| 0 <= i < n ==> (#[trigger] r@[i])@ == no_target(),
{
    let mut r: Vec<TargetValues> = Vec::with_capacity(n);
    let mut i: usize = 0;
    while i < n
        invariant
            i <= n,
            r@.len() == i,
            forall|k: int| 0 <= k < i ==> (#[trigger] r@[k])@ == no_target(),
        decreases n - i,
    {
        r.push(TargetValues::new());
        i = i + 1;
    }
    r
}

/// The values that the partitions of `files_to_delete` take, field by field, as bytes that stand for
/// them in a summary. Where a field is not primitive no field has any.
pub fn build_target_partition_bytes(files_to_delete: &[Arc<DataFile>], partition_type: &StructType) -> (r:
    Vec<TargetValues>)
    ensures
        sets(r@) == target_sets(files_to_delete@, *partition_type),
{
    let n: usize = partition_type.fields.len();
    let mut r = no_values(n);
    let mut primitive = true;
    let mut i: usize = 0;
    while i < n
        invariant
            i <= n,
            n == partition_type.fields@.len(),
            primitive == forall|k: int|
                0 <= k < i ==> #[trigger] partition_type.fields@[k] == FieldKind::Primitive,
        decreases n - i,
    {
        if partition_type.fields[i] != FieldKind::Primitive {
            primitive = false;
        }
        i = i + 1;
    }
    if !primitive {
        assert(!all_primitive(*partition_type));
        assert(sets(r@) =~= target_sets(files_to_delete@, *partition_type));
        return r;
    }
    assert(all_primitive(*partition_type));
    proof {
        assert forall|k: int| 0 <= k < n implies (#[trigger] r@[k])@ == target(
            files_to_delete@.take(0),
            *partition_type,
            k,
        ) by {
            assert(target_set(files_to_delete@.take(0), *partition_type, k) =~= Set::empty());
            assert(target_orders(files_to_delete@.take(0), *partition_type, k) =~= Set::empty());
        }
    }
    let mut f: usize = 0;
    while f < files_to_delete.len()
        invariant
            f <= files_to_delete@.len(),
            n == partition_type.fields@.len(),
            all_primitive(*partition_type),
            r@.len() == n,
            forall|k: int|
                0 <= k < n ==> (#[trigger] r@[k])@ == target(
                    files_to_delete@.take(f as int),
                    *partition_type,
                    k,
                ),
        decreases files_to_delete@.len() - f,
    {
        let partition = &files_to_delete[f].partition;
        let ghost before = r@;
        if partition.fields.len() == n {
            let mut j: usize = 0;
            while j < n
                invariant
                    j <= n,
                    n == partition.fields@.len(),
                    r@.len() == n,
                    before.len() == n,
                    forall|k: int| j <= k < n ==> r@[k] == before[k],
                    forall|k: int|
                        0 <= k < j ==> (#[trigger] r@[k])@ == with_value(
                            before[k]@,
                            *partition,
                            k,
                        ),
                decreases n - j,
            {
                match &partition.fields[j] {
                    None => {
                        r[j].insert_null();
                    },
                    Some(Literal::Primitive(p)) => match bound_bytes_of(p) {
                        Some(bytes) => {
                            r[j].insert(bytes, literal_order_of(p));
                        },
                        None => {
                            r[j].insert_unencoded();
                        },
                    },
                    Some(_) => {
                        r[j].insert_unencoded();
                    },
                }
                j = j + 1;
            }
        }
        proof {
            lemma_take_push(files_to_delete@, f as int);
            assert forall|k: int| 0 <= k < n implies (#[trigger] r@[k])@ == target(
                files_to_delete@.take(f + 1),
                *partition_type,
                k,
            ) by {
                assert(before[k]@ == target(files_to_delete@.take(f as int), *partition_type, k));
                lemma_target_push(
                    files_to_delete@.take(f as int),
                    files_to_delete@[f as int],
                    *partition_type,
                    k,
                );
            }
        }
        f = f + 1;
    }
    proof {
        assert(files_to_delete@.take(f as int) =~= files_to_delete@);
        assert(sets(r@) =~= target_sets(files_to_delete@, *partition_type));
    }
    r
}

/// Whether a field's bounds speak of all that it may be asked for: no value is beyond bytes, and
/// there is neither a null that is asked for nor a value that is no number.
pub open spec fn bounds_tell(field: FieldSummary, target: TargetView) -> bool {
    &&& !target.unencoded
    &&& !(target.null && field.contains_null)
    &&& field.contains_nan != Some(true)
}

fn do_bounds_tell(field: &FieldSummary, target: &TargetValues) -> (r: bool)
    ensures
        r == bounds_tell(*field, target@),
{
    let nan = match field.contains_nan {
        Some(nan) => nan,
        None => false,
    };
    !target.unencoded && !(target.null && field.contains_null) && !nan
}

/// Whether the field `i` of a summary rules out all targets by its range.
pub open spec fn field_disjoint(
    partitions: Seq<FieldSummary>,
    targets: Seq<TargetView>,
    i: int,
) -> bool {
    &&& i < targets.len()
    &&& exists|b: Seq<u8>| targets[i].bytes.contains(b)
    &&& bounds_tell(partitions[i], targets[i])
    &&& partitions[i].lower_bound is Some
    &&& partitions[i].upper_bound is Some
    &&& forall|t: Seq<u8>| #[trigger]
        targets[i].bytes.contains(t) ==> outside(
            t,
            partitions[i].lower_bound->0@,
            partitions[i].upper_bound->0@,
            targets[i].orders,
        )
}

/// Whether in some field of a summary every target lies outside its range.
pub open spec fn ranges_exclude(partitions: Seq<FieldSummary>, targets: Seq<TargetView>) -> bool {
    exists|i: int| 0 <= i < partitions.len() && #[trigger] field_disjoint(partitions, targets, i)
}

/// Whether a summary's ranges show that the manifest lists no target. What cannot be compared is
/// never called disjoint.
pub fn summary_disjoint_from_targets(
    partitions: &[FieldSummary],
    target_partition_bytes: &[TargetValues],
) -> (r: bool)
    ensures
        r == ranges_exclude(partitions@, sets(target_partition_bytes@)),
{
    let ghost targets = sets(target_partition_bytes@);
    let mut i: usize = 0;
    while i < partitions.len()
        invariant
            i <= partitions@.len(),
            targets == sets(target_partition_bytes@),
            forall|k: int| 0 <= k < i ==> !#[trigger] field_disjoint(partitions@, targets, k),
        decreases partitions@.len() - i,
    {
        if i < target_partition_bytes.len() && !target_partition_bytes[i].is_empty()
            && do_bounds_tell(&partitions[i], &target_partition_bytes[i]) {
            let set = &target_partition_bytes[i];
            assert(targets[i as int] == set@);
            if let (Some(lo), Some(hi)) = (&partitions[i].lower_bound, &partitions[i].upper_bound) {
                let mut all_outside = true;
                let mut k: usize = 0;
                while k < set.items.len()
                    invariant
                        k <= set.items@.len(),
                        all_outside == forall|m: int|
                            0 <= m < k ==> outside(
                                (#[trigger] set.items@[m])@,
                                lo@,
                                hi@,
                                set@.orders,
                            ),
                    decreases set.items@.len() - k,
                {
                    let t = &set.items[k];
                    if !is_outside(t, lo, hi, &set.orders) {
                        all_outside = false;
                    }
                    k = k + 1;
                }
                proof {
                    let strings = byte_strings(set.items@);
                    if all_outside {
                        assert forall|t: Seq<u8>| #[trigger] set@.bytes.contains(t) implies outside(
                            t,
                            lo@,
                            hi@,
                            set@.orders,
                        ) by {
                            let m = choose|m: int| 0 <= m < strings.len() && strings[m] == t;
                            assert(outside(set.items@[m]@, lo@, hi@, set@.orders));
                        }
                        assert(field_disjoint(partitions@, targets, i as int));
                    } else {
                        let m = choose|m: int|
                            0 <= m < set.items@.len() && !outside(
                                (#[trigger] set.items@[m])@,
                                lo@,
                                hi@,
                                set@.orders,
                            );
                        assert(strings[m] == set.items@[m]@);
                        assert(set@.bytes.contains(set.items@[m]@));
                    }
                }
                if all_outside {
                    return true;
                }
            }
        }
        i = i + 1;
    }
    false
}

/// Whether the field `i` of a summary is pinned to a value that is no target.
pub open spec fn field_excludes(
    partitions: Seq<FieldSummary>,
    targets: Seq<TargetView>,
    i: int,
) -> bool {
    &&& i < targets.len()
    &&& exists|b: Seq<u8>| targets[i].bytes.contains(b)
    &&& bounds_tell(partitions[i], targets[i])
    &&& partitions[i].pinned_spec() is Some
    &&& !targets[i].bytes.contains(partitions[i].pinned_spec()->0)
}

/// Whether a summary lets the manifest list a target: no field is pinned to a value that is none.
pub open spec fn could_contain(partitions: Seq<FieldSummary>, targets: Seq<TargetView>) -> bool {
    forall|i: int| 0 <= i < partitions.len() ==> !#[trigger] field_excludes(partitions, targets, i)
}

/// Whether a summary lets the manifest list a target.
pub fn manifest_could_contain_target_files(
    partitions: &[FieldSummary],
    target_partition_bytes: &[TargetValues],
) -> (r: bool)
    ensures
        r == could_contain(partitions@, sets(target_partition_bytes@)),
{
    let ghost targets = sets(target_partition_bytes@);
    let mut i: usize = 0;
    while i < partitions.len()
        invariant
            i <= partitions@.len(),
            targets == sets(target_partition_bytes@),
            forall|k: int| 0 <= k < i ==> !#[trigger] field_excludes(partitions@, targets, k),
        decreases partitions@.len() - i,
    {
        if i < target_partition_bytes.len() && !target_partition_bytes[i].is_empty()
            && do_bounds_tell(&partitions[i], &target_partition_bytes[i]) {
            assert(targets[i as int] == target_partition_bytes@[i as int]@);
            if let Some(value) = partitions[i].pinned() {
                if !target_partition_bytes[i].contains(value) {
                    assert(field_excludes(partitions@, targets, i as int));
                    return false;
                }
            }
        }
        i = i + 1;
    }
    true
}

/// On a field pinned to one value the two tests agree, where the targets are of its width and stand
/// for something: the value is no target just where the range rules out all targets.
pub proof fn law_pinned_fields_agree(
    partitions: Seq<FieldSummary>,
    targets: Seq<TargetView>,
    i: int,
)
    requires
        0 <= i < partitions.len(),
        i < targets.len(),
        partitions[i].pinned_spec() is Some,
        exists|order: ByteOrder| targets[i].orders.contains(order),
        forall|t: Seq<u8>| #[trigger]
            targets[i].bytes.contains(t) ==> t.len() == partitions[i].pinned_spec()->0.len(),
    ensures
        field_excludes(partitions, targets, i) <==> field_disjoint(partitions, targets, i),
{
    let value = partitions[i].pinned_spec()->0;
    if field_excludes(partitions, targets, i) {
        assert forall|t: Seq<u8>| #[trigger] targets[i].bytes.contains(t) implies outside(
            t,
            partitions[i].lower_bound->0@,
            partitions[i].upper_bound->0@,
            targets[i].orders,
        ) by {
            law_one_value_excludes_all_others(t, value, targets[i].orders);
        }
    }
    if field_disjoint(partitions, targets, i) && targets[i].bytes.contains(value) {
        assert(outside(value, value, value, targets[i].orders));
        law_one_value_excludes_all_others(value, value, targets[i].orders);
    }
}

/// Whether a field's summary speaks for the value of the field `i` of `partition`: a null is told
/// of; of a value with bytes to stand for it, the summary says that there may be such a value, or
/// that some are no numbers; of a value without, nothing is asked.
pub open spec fn speaks_for_field(field: FieldSummary, partition: Struct, i: int) -> bool {
    if partition.fields@[i] is None {
        field.contains_null
    } else {
        tuple_bytes(partition, i) matches Some(b) ==> field.contains_nan == Some(true) || (
        field.pinned_spec() matches Some(value) ==> value == b)
    }
}

/// Whether a summary speaks for a file of the partition `partition`, field by field.
pub open spec fn speaks_for(partitions: Seq<FieldSummary>, partition: Struct) -> bool {
    forall|i: int|
        0 <= i < partitions.len() && i < partition.fields@.len() ==> #[trigger] speaks_for_field(
            partitions[i],
            partition,
            i,
        )
}

/// A manifest whose summary speaks for a file to delete is never passed over: what lists the file
/// is read, nulls in its partition and all.
pub proof fn law_prune_keeps_the_targets(
    partitions: Seq<FieldSummary>,
    files: Seq<Arc<DataFile>>,
    partition_type: StructType,
    f: int,
)
    requires
        0 <= f < files.len(),
        files[f].partition.fields@.len() == partition_type.fields@.len(),
        speaks_for(partitions, files[f].partition),
    ensures
        could_contain(partitions, target_sets(files, partition_type)),
{
    let targets = target_sets(files, partition_type);
    assert forall|i: int| 0 <= i < partitions.len() implies !#[trigger] field_excludes(
        partitions,
        targets,
        i,
    ) by {
        if i < targets.len() && all_primitive(partition_type) {
            assert(fits(files[f], partition_type));
            assert(speaks_for_field(partitions[i], files[f].partition, i));
            assert(targets[i] == target(files, partition_type, i));
            if let Some(b) = tuple_bytes(files[f].partition, i) {
                assert(targets[i].bytes.contains(b));
            }
        }
    }
}

/// The test by ranges keeps the targets too: where a number of a file to delete lies between a
/// field's bounds, the field does not rule it out.
pub proof fn law_ranges_keep_the_targets(
    partitions: Seq<FieldSummary>,
    files: Seq<Arc<DataFile>>,
    partition_type: StructType,
    f: int,
    i: int,
    lo: i32,
    hi: i32,
)
    requires
        0 <= f < files.len(),
        files[f].partition.fields@.len() == partition_type.fields@.len(),
        0 <= i < partitions.len(),
        i < partition_type.fields@.len(),
        all_primitive(partition_type),
        files[f].partition.fields@[i] matches Some(
            Literal::Primitive(PrimitiveLiteral::Int(v)),
        ) && lo <= v <= hi,
        bytes_view(partitions[i].lower_bound) == bound_bytes(PrimitiveLiteral::Int(lo)),
        bytes_view(partitions[i].upper_bound) == bound_bytes(PrimitiveLiteral::Int(hi)),
    ensures
        !field_disjoint(partitions, target_sets(files, partition_type), i),
{
    let targets = target_sets(files, partition_type);
    assert(fits(files[f], partition_type));
    assert(targets[i] == target(files, partition_type, i));
    assert(targets[i].bytes.contains(tuple_bytes(files[f].partition, i)->0));
    if let Some(Literal::Primitive(PrimitiveLiteral::Int(v))) = files[f].partition.fields@[i] {
        assert(tuple_orders(files[f].partition, i).contains(ByteOrder::LowFirst));
        assert(targets[i].orders.contains(ByteOrder::LowFirst));
        law_int_in_range_is_not_outside(v, lo, hi, targets[i].orders);
    }
}

/// The values that the partitions of `files` take in a summary of the spec `spec_id`, field by
/// field; none where the table lacks the spec or its type.
pub open spec fn spec_targets(table: TableMetadata, spec_id: i32, files: Seq<Arc<DataFile>>) -> Seq<
    TargetView,
> {
    match table.spec_by_id(spec_id) {
        Some(spec) => match spec.partition_type {
            Some(partition_type) => target_sets(files, partition_type),
            None => Seq::empty(),
        },
        None => Seq::empty(),
    }
}

/// Whether a manifest's summary shows that it lists no file to delete.
pub open spec fn summary_excludes(mf: ManifestFile, table: TableMetadata, files: Seq<Arc<DataFile>>) -> bool {
    let targets = spec_targets(table, mf.partition_spec_id, files);
    mf.summary() matches Some(parts) && targets.len() > 0 && !could_contain(parts, targets)
}

/// Whether an entry is of a file that is still to be deleted.
pub open spec fn targeted(e: ManifestEntry, remaining: Set<Seq<char>>) -> bool {
    e.alive() && remaining.contains(e.data_file.file_path@)
}

/// Whether an entry of a manifest is of a file that is still to be deleted.
pub open spec fn any_targeted(entries: Seq<ManifestEntry>, remaining: Set<Seq<char>>) -> bool {
    exists|i: int| 0 <= i < entries.len() && targeted(#[trigger] entries[i], remaining)
}

/// Whether every live entry of a manifest is of a file that is still to be deleted.
pub open spec fn all_targeted(entries: Seq<ManifestEntry>, remaining: Set<Seq<char>>) -> bool {
    forall|i: int|
        0 <= i < entries.len() && (#[trigger] entries[i]).alive() ==> remaining.contains(
            entries[i].data_file.file_path@,
        )
}

/// What is still to be deleted once the first `n` entries of a manifest are seen.
pub open spec fn remaining_after(entries: Seq<ManifestEntry>, remaining: Set<Seq<char>>, n: nat) -> Set<
    Seq<char>,
>
    decreases n,
{
    if n == 0 {
        remaining
    } else {
        let before = remaining_after(entries, remaining, (n - 1) as nat);
        if targeted(entries[n - 1], before) {
            before.remove(entries[n - 1].data_file.file_path@)
        } else {
            before
        }
    }
}

/// The entry of a rewritten manifest for `e`: deleted or carried over, with its snapshot, zero
/// where it has none.
pub open spec fn rewritten_entry(e: ManifestEntry, deleted: bool) -> ManifestEntry {
    ManifestEntry {
        status: if deleted {
            ManifestStatus::Deleted
        } else {
            ManifestStatus::Existing
        },
        snapshot_id: Some(
            match e.snapshot_id {
                Some(id) => id,
                None => 0,
            },
        ),
        sequence_number: None,
        file_sequence_number: None,
        data_file: e.data_file,
    }
}

/// What the first `n` entries of a manifest are rewritten to: a live file that is still to be deleted
/// is marked so, all other live files are carried over, and what was deleted before is left out.
pub open spec fn rewritten_entries(entries: Seq<ManifestEntry>, remaining: Set<Seq<char>>, n: nat) -> Seq<
    ManifestEntry,
>
    decreases n,
{
    if n == 0 {
        Seq::empty()
    } else {
        let rest = rewritten_entries(entries, remaining, (n - 1) as nat);
        let before = remaining_after(entries, remaining, (n - 1) as nat);
        if entries[n - 1].alive() {
            rest.push(rewritten_entry(entries[n - 1], targeted(entries[n - 1], before)))
        } else {
            rest
        }
    }
}

/// Where a walk over a table's manifests stands.
pub struct WalkView {
    /// The manifests of the new snapshot so far.
    pub result: Seq<ManifestFile>,
    /// The files still to be deleted.
    pub remaining: Set<Seq<char>>,
}

/// What a walk comes to once `mf` is seen, `load` giving its entries and `written` the manifest that
/// it is rewritten to. A manifest without live files is left out. One that needs no reading, or
/// lists no file to delete, stays. One of which all live files go is left out, and one of which
/// some go is rewritten.
pub open spec fn walked_one(
    v: WalkView,
    mf: ManifestFile,
    table: TableMetadata,
    files: Seq<Arc<DataFile>>,
    load: spec_fn(ManifestFile) -> Seq<ManifestEntry>,
    written: spec_fn(ManifestFile) -> ManifestFile,
) -> WalkView {
    let entries = load(mf);
    if !mf.may_be_active() {
        v
    } else if v.remaining.is_empty() || summary_excludes(mf, table, files) || !any_targeted(
        entries,
        v.remaining,
    ) {
        WalkView { result: v.result.push(mf), ..v }
    } else {
        let remaining = remaining_after(entries, v.remaining, entries.len());
        if all_targeted(entries, v.remaining) {
            WalkView { remaining, ..v }
        } else {
            WalkView { result: v.result.push(written(mf)), remaining }
        }
    }
}

/// What a walk comes to once all of `pending` are seen.
pub open spec fn walked(
    v: WalkView,
    pending: Seq<ManifestFile>,
    table: TableMetadata,
    files: Seq<Arc<DataFile>>,
    load: spec_fn(ManifestFile) -> Seq<ManifestEntry>,
    written: spec_fn(ManifestFile) -> ManifestFile,
) -> WalkView
    decreases pending.len(),
{
    if pending.len() == 0 {
        v
    } else {
        walked(
            walked_one(v, pending[0], table, files, load, written),
            pending.skip(1),
            table,
            files,
            load,
            written,
        )
    }
}

/// The values that the partitions of the files to delete take, by partition spec of the table.
pub struct WalkTargets {
    by_spec: Vec<Vec<TargetValues>>,
}

impl WalkTargets {
    /// Whether these are for the specs of `table` and for `files`.
    pub closed spec fn is_for(&self, table: TableMetadata, files: Seq<Arc<DataFile>>) -> bool {
        &&& self.by_spec@.len() == table.partition_specs@.len()
        &&& forall|i: int|
            0 <= i < self.by_spec@.len() ==> sets((#[trigger] self.by_spec@[i])@)
                == match table.partition_specs@[i].partition_type {
                Some(partition_type) => target_sets(files, partition_type),
                None => Seq::empty(),
            }
    }

    /// For the specs of `table` and for `files`.
    pub fn new(table: &TableMetadata, files: &[Arc<DataFile>]) -> (r: Self)
        ensures
            r.is_for(*table, files@),
    {
        let mut by_spec: Vec<Vec<TargetValues>> = Vec::with_capacity(table.partition_specs.len());
        let mut i: usize = 0;
        while i < table.partition_specs.len()
            invariant
                i <= table.partition_specs@.len(),
                by_spec@.len() == i,
                forall|k: int|
                    0 <= k < i ==> sets((#[trigger] by_spec@[k])@)
                        == match table.partition_specs@[k].partition_type {
                        Some(partition_type) => target_sets(files@, partition_type),
                        None => Seq::empty(),
                    },
            decreases table.partition_specs@.len() - i,
        {
            let targets: Vec<TargetValues> = match &table.partition_specs[i].partition_type {
                Some(partition_type) => build_target_partition_bytes(files, partition_type),
                None => {
                    let none: Vec<TargetValues> = Vec::new();
                    assert(sets(none@) =~= Seq::<TargetView>::empty());
                    none
                },
            };
            by_spec.push(targets);
            i = i + 1;
        }
        WalkTargets { by_spec }
    }

    /// Whether a manifest's summary shows that it lists no file to delete.
    fn excludes(&self, mf: &ManifestFile, table: &TableMetadata, Ghost(files): Ghost<Seq<Arc<DataFile>>>) -> (r:
        bool)
        requires
            self.is_for(*table, files),
        ensures
            r == summary_excludes(*mf, *table, files),
    {
        match &mf.partitions {
            None => false,
            Some(parts) => {
                let mut i: usize = 0;
                while i < table.partition_specs.len()
                    invariant
                        i <= table.partition_specs@.len(),
                        self.is_for(*table, files),
                        mf.summary() == Some(parts@),
                        crate::table::spec_at(table.partition_specs@, mf.partition_spec_id, 0)
                            == crate::table::spec_at(
                            table.partition_specs@,
                            mf.partition_spec_id,
                            i as int,
                        ),
                    decreases table.partition_specs@.len() - i,
                {
                    if table.partition_specs[i].spec_id == mf.partition_spec_id {
                        let targets = &self.by_spec[i];
                        assert(sets(targets@) == spec_targets(*table, mf.partition_spec_id, files));
                        return targets.len() > 0 && !manifest_could_contain_target_files(
                            parts,
                            targets,
                        );
                    }
                    i = i + 1;
                }
                false
            },
        }
    }

    /// Whether a manifest's ranges show that it lists no file to delete, though it has to be read:
    /// a measure of what pruning by range would save.
    pub fn read_in_vain(
        &self,
        mf: &ManifestFile,
        table: &TableMetadata,
        files: &[Arc<DataFile>],
    ) -> (r: bool)
        requires
            self.is_for(*table, files@),
        ensures
            match mf.summary() {
                Some(parts) => r == ranges_exclude(
                    parts,
                    spec_targets(*table, mf.partition_spec_id, files@),
                ),
                None => !r,
            },
    {
        match &mf.partitions {
            None => false,
            Some(parts) => {
                let mut i: usize = 0;
                while i < table.partition_specs.len()
                    invariant
                        i <= table.partition_specs@.len(),
                        self.is_for(*table, files@),
                        mf.summary() == Some(parts@),
                        crate::table::spec_at(table.partition_specs@, mf.partition_spec_id, 0)
                            == crate::table::spec_at(
                            table.partition_specs@,
                            mf.partition_spec_id,
                            i as int,
                        ),
                    decreases table.partition_specs@.len() - i,
                {
                    if table.partition_specs[i].spec_id == mf.partition_spec_id {
                        let targets = &self.by_spec[i];
                        assert(sets(targets@) == spec_targets(
                            *table,
                            mf.partition_spec_id,
                            files@,
                        ));
                        return summary_disjoint_from_targets(parts, targets);
                    }
                    i = i + 1;
                }
                false
            },
        }
    }
}

/// Whether manifests are written as Parquet: unless the table asks for Avro, in the versions that
/// have it.
pub open spec fn parquet_manifests(table: TableMetadata) -> bool {
    &&& !(table.properties@.contains_key("write.parquet.metadata-codec"@) && same_ignoring_case(
        table.properties@["write.parquet.metadata-codec"@],
        "avro"@,
    ))
    &&& table.format_version == FormatVersion::V2 || table.format_version == FormatVersion::V3
}

/// Whether manifests are written as Parquet.
pub fn writes_parquet_manifests(table: &TableMetadata) -> (r: bool)
    ensures
        r == parquet_manifests(*table),
{
    if let Some(v) = table.properties.get("write.parquet.metadata-codec") {
        if eq_ignore_ascii_case(v.as_str(), "avro") {
            return false;
        }
    }
    table.format_version == FormatVersion::V2 || table.format_version == FormatVersion::V3
}

/// The extension of a manifest's path.
pub open spec fn extension(parquet: bool) -> Seq<char> {
    if parquet {
        "parquet"@
    } else {
        "avro"@
    }
}

/// The path of the rewritten manifest number `n` of a commit.
pub open spec fn rewrite_path(location: Seq<char>, commit_id: u128, n: u64, parquet: bool) -> Seq<char> {
    location + "/metadata/"@ + id_text(commit_id) + "-m-rewrite-"@ + decimal(n as nat) + "."@
        + extension(parquet)
}

/// A manifest to write in place of another.
pub struct ManifestRewrite {
    pub path: String,
    pub parquet: bool,
    pub kind: ManifestWriterKind,
    pub entries: Vec<ManifestEntry>,
}

/// Whether `w` is the rewritten manifest number `n` of the commit `commit_id` on `table`, with the
/// entries `entries`.
pub open spec fn is_rewrite(
    w: ManifestRewrite,
    table: TableMetadata,
    commit_id: u128,
    n: u64,
    entries: Seq<ManifestEntry>,
) -> bool {
    &&& w.path@ == rewrite_path(table.location@, commit_id, n, parquet_manifests(table))
    &&& w.parquet == parquet_manifests(table)
    &&& w.kind == writer_kind_spec(table.format_version, false)
    &&& w.entries@ == entries
}

/// A walk over a table's manifests, manifest by manifest.
pub struct ReplaceWalk {
    pending: VecDeque<ManifestFile>,
    result: Vec<ManifestFile>,
    remaining: PathSet,
}

impl View for ReplaceWalk {
    type V = WalkView;

    closed spec fn view(&self) -> WalkView {
        WalkView { result: self.result@, remaining: self.remaining@ }
    }
}

/// The paths of `files`.
pub open spec fn file_paths(files: Seq<Arc<DataFile>>) -> Seq<Seq<char>> {
    files.map_values(|f: Arc<DataFile>| f.file_path@)
}

/// The paths of `files` that are in `remaining`, each where it first stands.
pub open spec fn missing(files: Seq<Arc<DataFile>>, remaining: Set<Seq<char>>) -> Seq<Seq<char>>
    decreases files.len(),
{
    if files.len() == 0 {
        Seq::empty()
    } else {
        let rest = missing(files.drop_last(), remaining);
        let path = files.last().file_path@;
        if remaining.contains(path) && !rest.contains(path) {
            rest.push(path)
        } else {
            rest
        }
    }
}

/// What is said where files to delete are in no manifest.
pub open spec fn not_found_message(missing: Seq<Seq<char>>) -> Seq<char> {
    "Could not find the following files to delete: "@ + joined(missing, ", "@)
}

fn path_set_of(files: &[Arc<DataFile>]) -> (r: PathSet)
    ensures
        r@ == file_paths(files@).to_set(),
{
    let mut r = PathSet::new();
    let mut i: usize = 0;
    assert(file_paths(files@).take(0).to_set() =~= Set::<Seq<char>>::empty());
    while i < files.len()
        invariant
            i <= files@.len(),
            r@ == file_paths(files@).take(i as int).to_set(),
        decreases files@.len() - i,
    {
        r.insert(files[i].file_path.clone());
        proof {
            lemma_take_push(file_paths(files@), i as int);
            crate::path_set::lemma_push_to_set(
                file_paths(files@).take(i as int),
                files@[i as int].file_path@,
            );
        }
        i = i + 1;
    }
    assert(file_paths(files@).take(i as int) =~= file_paths(files@));
    r
}

impl ReplaceWalk {
    /// The manifests still to be seen.
    pub closed spec fn pending(&self) -> Seq<ManifestFile> {
        self.pending@
    }

    /// What the walk comes to.
    pub open spec fn outcome(
        &self,
        table: TableMetadata,
        files: Seq<Arc<DataFile>>,
        load: spec_fn(ManifestFile) -> Seq<ManifestEntry>,
        written: spec_fn(ManifestFile) -> ManifestFile,
    ) -> WalkView {
        walked(self@, self.pending(), table, files, load, written)
    }

    /// Starts a walk over `manifests` for the files to delete `files`.
    pub fn new(manifests: Vec<ManifestFile>, files: &[Arc<DataFile>]) -> (r: Self)
        ensures
            r.pending() == manifests@,
            r@ == (WalkView { result: Seq::empty(), remaining: file_paths(files@).to_set() }),
    {
        let ghost all = manifests@;
        let mut pending: VecDeque<ManifestFile> = VecDeque::with_capacity(manifests.len());
        for mf in iter: manifests
            invariant
                iter.seq() == all,
                pending@ == all.take(iter.index() as int),
        {
            proof {
                lemma_take_push(all, iter.index() as int);
            }
            pending.push_back(mf);
        }
        assert(all.take(all.len() as int) =~= all);
        ReplaceWalk { pending, result: Vec::new(), remaining: path_set_of(files) }
    }

    /// Passes the manifests up to one that has to be read.
    pub fn advance(
        &mut self,
        table: &TableMetadata,
        files: &[Arc<DataFile>],
        targets: &WalkTargets,
    ) -> (more: bool)
        requires
            targets.is_for(*table, files@),
        ensures
            more == (final(self).pending().len() > 0),
            final(self)@.remaining == old(self)@.remaining,
            more ==> {
                &&& final(self).pending()[0].may_be_active()
                &&& !final(self)@.remaining.is_empty()
                &&& !summary_excludes(final(self).pending()[0], *table, files@)
            },
            forall|
                load: spec_fn(ManifestFile) -> Seq<ManifestEntry>,
                written: spec_fn(ManifestFile) -> ManifestFile,
            | #[trigger]
                final(self).outcome(*table, files@, load, written) == old(self).outcome(
                    *table,
                    files@,
                    load,
                    written,
                ),
    {
        let ghost start = *self;
        while self.pending.len() > 0
            invariant
                start == *old(self),
                targets.is_for(*table, files@),
                self@.remaining == start@.remaining,
                forall|
                    load: spec_fn(ManifestFile) -> Seq<ManifestEntry>,
                    written: spec_fn(ManifestFile) -> ManifestFile,
                | #[trigger]
                    self.outcome(*table, files@, load, written) == start.outcome(
                        *table,
                        files@,
                        load,
                        written,
                    ),
            decreases self.pending@.len(),
        {
            let active = self.pending[0].has_active_files();
            if active && !self.remaining.is_empty() && !targets.excludes(
                &self.pending[0],
                table,
                Ghost(files@),
            ) {
                return true;
            }
            let ghost before = *self;
            assert(before.pending@.subrange(1, before.pending@.len() as int)
                =~= before.pending@.skip(1));
            if let Some(mf) = self.pending.pop_front() {
                if active {
                    self.result.push(mf);
                }
            }
            assert forall|
                load: spec_fn(ManifestFile) -> Seq<ManifestEntry>,
                written: spec_fn(ManifestFile) -> ManifestFile,
            | #[trigger]
                self.outcome(*table, files@, load, written) == start.outcome(
                    *table,
                    files@,
                    load,
                    written,
                ) by {
                assert(before.outcome(*table, files@, load, written) == start.outcome(
                    *table,
                    files@,
                    load,
                    written,
                ));
                assert(self@ == walked_one(
                    before@,
                    before.pending()[0],
                    *table,
                    files@,
                    load,
                    written,
                ));
            }
        }
        false
    }

    /// The manifest that has to be read.
    pub fn next_manifest(&self) -> (r: Option<&ManifestFile>)
        ensures
            match r {
                Some(mf) => self.pending().len() > 0 && *mf == self.pending()[0],
                None => self.pending().len() == 0,
            },
    {
        if self.pending.len() == 0 {
            None
        } else {
            Some(&self.pending[0])
        }
    }

    /// Takes in the entries of the next manifest. Where some of its live files are to be deleted
    /// and some are not, a manifest to write in its place is returned, the next number of the commit
    /// `commit_id`.
    pub fn add_manifest(
        &mut self,
        entries: &[ManifestEntry],
        table: &TableMetadata,
        files: &[Arc<DataFile>],
        commit_id: u128,
        counter: &mut u64,
    ) -> (r: Option<ManifestRewrite>)
        requires
            *old(counter) < u64::MAX,
            old(self).pending().len() > 0,
            old(self).pending()[0].may_be_active(),
            !old(self)@.remaining.is_empty(),
            !summary_excludes(old(self).pending()[0], *table, files@),
        ensures
            final(self).pending() == old(self).pending().skip(1),
            *final(counter) == *old(counter) + (if r is Some {
                1int
            } else {
                0
            }),
            ({
                let mf = old(self).pending()[0];
                let before = old(self)@;
                let remaining = remaining_after(entries@, before.remaining, entries@.len());
                if !any_targeted(entries@, before.remaining) {
                    &&& r is None
                    &&& final(self)@ == (WalkView { result: before.result.push(mf), ..before })
                } else if all_targeted(entries@, before.remaining) {
                    &&& r is None
                    &&& final(self)@ == (WalkView { remaining, ..before })
                } else {
                    &&& r is Some
                    &&& is_rewrite(
                        r->0,
                        *table,
                        commit_id,
                        *old(counter),
                        rewritten_entries(entries@, before.remaining, entries@.len()),
                    )
                    &&& final(self)@ == (WalkView { remaining, ..before })
                }
            }),
            r is None ==> forall|
                load: spec_fn(ManifestFile) -> Seq<ManifestEntry>,
                written: spec_fn(ManifestFile) -> ManifestFile,
            |
                load(old(self).pending()[0]) == entries@ ==> #[trigger] final(self).outcome(
                    *table,
                    files@,
                    load,
                    written,
                ) == old(self).outcome(*table, files@, load, written),
            r is Some ==> forall|
                load: spec_fn(ManifestFile) -> Seq<ManifestEntry>,
                written: spec_fn(ManifestFile) -> ManifestFile,
            |
                load(old(self).pending()[0]) == entries@ ==> walked(
                    (WalkView {
                        result: final(self)@.result.push(written(old(self).pending()[0])),
                        remaining: final(self)@.remaining,
                    }),
                    final(self).pending(),
                    *table,
                    files@,
                    load,
                    written,
                ) == #[trigger] old(self).outcome(*table, files@, load, written),
    {
        let ghost before = *self;
        let ghost remaining = self.remaining@;
        assert(before.pending@.subrange(1, before.pending@.len() as int) =~= before.pending@.skip(
            1,
        ));
        let mut any = false;
        let mut all = true;
        let mut i: usize = 0;
        while i < entries.len()
            invariant
                i <= entries@.len(),
                *self == before,
                remaining == self.remaining@,
                any == exists|k: int| 0 <= k < i && targeted(#[trigger] entries@[k], remaining),
                all == forall|k: int|
                    0 <= k < i && (#[trigger] entries@[k]).alive() ==> remaining.contains(
                        entries@[k].data_file.file_path@,
                    ),
            decreases entries@.len() - i,
        {
            if entries[i].is_alive() {
                if self.remaining.contains(entries[i].data_file.file_path.as_str()) {
                    any = true;
                } else {
                    all = false;
                }
            }
            i = i + 1;
        }
        let next = self.pending.pop_front();
        if !any {
            if let Some(mf) = next {
                self.result.push(mf);
            }
            return None;
        }
        let mut rewritten: Vec<ManifestEntry> = Vec::with_capacity(entries.len());
        let mut i: usize = 0;
        while i < entries.len()
            invariant
                i <= entries@.len(),
                self.pending@ == before.pending@.skip(1),
                self.result == before.result,
                self.remaining@ == remaining_after(entries@, remaining, i as nat),
                rewritten@ == rewritten_entries(entries@, remaining, i as nat),
            decreases entries@.len() - i,
        {
            if entries[i].is_alive() {
                let snapshot_id: i64 = match entries[i].snapshot_id {
                    Some(id) => id,
                    None => 0,
                };
                let goes = self.remaining.contains(entries[i].data_file.file_path.as_str());
                if goes {
                    self.remaining.remove(entries[i].data_file.file_path.as_str());
                }
                rewritten.push(
                    ManifestEntry {
                        status: if goes {
                            ManifestStatus::Deleted
                        } else {
                            ManifestStatus::Existing
                        },
                        snapshot_id: Some(snapshot_id),
                        sequence_number: None,
                        file_sequence_number: None,
                        data_file: entries[i].data_file.clone(),
                    },
                );
            }
            i = i + 1;
        }
        if all {
            return None;
        }
        let parquet = writes_parquet_manifests(table);
        let mut path = table.location.clone();
        path.append("/metadata/");
        path.append(id_text_of(commit_id).as_str());
        path.append("-m-rewrite-");
        path.append(decimal_of(*counter).as_str());
        *counter = *counter + 1;
        path.append(".");
        path.append(
            if parquet {
                "parquet"
            } else {
                "avro"
            },
        );
        Some(
            ManifestRewrite {
                path,
                parquet,
                kind: writer_kind(table.format_version, false),
                entries: rewritten,
            },
        )
    }

    /// Takes in the manifest that was written in place of another.
    pub fn add_rewritten(&mut self, mf: ManifestFile)
        ensures
            final(self).pending() == old(self).pending(),
            final(self)@ == (WalkView { result: old(self)@.result.push(mf), ..old(self)@ }),
    {
        self.result.push(mf);
    }

    /// The manifests of the new snapshot, once none is left to be seen. Fails where a file to
    /// delete was in none of them.
    pub fn finish(self, files: &[Arc<DataFile>]) -> (r: Result<Vec<ManifestFile>, Error>)
        requires
            self.pending().len() == 0,
        ensures
            r is Ok <==> self@.remaining.is_empty(),
            r is Ok ==> r->Ok_0@ == self@.result,
            r is Err ==> r->Err_0.says(
                ErrorKind::DataInvalid,
                not_found_message(missing(files@, self@.remaining)),
            ),
    {
        if self.remaining.is_empty() {
            return Ok(self.result);
        }
        let mut left: Vec<String> = Vec::new();
        let mut seen = PathSet::new();
        let mut i: usize = 0;
        assert(texts(left@) =~= Seq::<Seq<char>>::empty());
        while i < files.len()
            invariant
                i <= files@.len(),
                texts(left@) == missing(files@.take(i as int), self.remaining@),
                forall|p: Seq<char>|
                    seen@.contains(p) <==> missing(files@.take(i as int), self.remaining@).contains(
                        p,
                    ),
            decreases files@.len() - i,
        {
            let ghost before = left@;
            let ghost head = files@.take(i as int);
            let ghost path = files@[i as int].file_path@;
            proof {
                lemma_take_push(files@, i as int);
                assert(files@.take(i + 1).drop_last() =~= head);
            }
            if self.remaining.contains(files[i].file_path.as_str()) {
                if seen.insert(files[i].file_path.clone()) {
                    left.push(files[i].file_path.clone());
                    proof {
                        let rest = missing(head, self.remaining@);
                        assert(texts(left@) =~= texts(before).push(path));
                        assert forall|p: Seq<char>| rest.push(path).contains(p) <==> rest.contains(p)
                            || p == path by {
                            if rest.contains(p) {
                                let k = choose|k: int| 0 <= k < rest.len() && rest[k] == p;
                                assert(rest.push(path)[k] == p);
                            }
                            assert(rest.push(path)[rest.len() as int] == path);
                        }
                    }
                }
            }
            i = i + 1;
        }
        assert(files@.take(i as int) =~= files@);
        let mut message = "Could not find the following files to delete: ".to_owned();
        message.append(join(left.as_slice(), ", ").as_str());
        Err(Error::new(ErrorKind::DataInvalid, message))
    }
}

proof fn lemma_remaining_after(entries: Seq<ManifestEntry>, remaining: Set<Seq<char>>, n: nat)
    requires
        n <= entries.len(),
    ensures
        forall|p: Seq<char>| #[trigger]
            remaining_after(entries, remaining, n).contains(p) <==> remaining.contains(p)
                && !exists|i: int|
                0 <= i < n && (#[trigger] entries[i]).alive() && entries[i].data_file.file_path@
                    == p,
    decreases n,
{
    if n > 0 {
        lemma_remaining_after(entries, remaining, (n - 1) as nat);
        let e = entries[n - 1];
        let before = remaining_after(entries, remaining, (n - 1) as nat);
        assert forall|p: Seq<char>| #[trigger]
            remaining_after(entries, remaining, n).contains(p) <==> remaining.contains(p)
                && !exists|i: int|
                0 <= i < n && (#[trigger] entries[i]).alive() && entries[i].data_file.file_path@
                    == p by {
            assert(before.contains(p) <==> remaining.contains(p) && !exists|i: int|
                0 <= i < n - 1 && (#[trigger] entries[i]).alive()
                    && entries[i].data_file.file_path@ == p);
            if e.alive() && e.data_file.file_path@ == p {
                assert(entries[n - 1].alive());
            }
            if exists|i: int|
                0 <= i < n && (#[trigger] entries[i]).alive() && entries[i].data_file.file_path@
                    == p {
                let i = choose|i: int|
                    0 <= i < n && (#[trigger] entries[i]).alive() && entries[i].data_file.file_path@
                        == p;
                if i < n - 1 {
                    assert(entries[i].alive());
                }
            }
        }
    }
}

/// Whether `x` is what the live entry `i` of `entries` is rewritten to.
spec fn rewritten_from(entries: Seq<ManifestEntry>, remaining: Set<Seq<char>>, x: ManifestEntry, i: int) -> bool {
    entries[i].alive() && x == rewritten_entry(
        entries[i],
        targeted(entries[i], remaining_after(entries, remaining, i as nat)),
    )
}

proof fn lemma_rewritten_holds(entries: Seq<ManifestEntry>, remaining: Set<Seq<char>>, n: nat, i: int)
    requires
        0 <= i < n <= entries.len(),
        entries[i].alive(),
    ensures
        rewritten_entries(entries, remaining, n).contains(
            rewritten_entry(
                entries[i],
                targeted(entries[i], remaining_after(entries, remaining, i as nat)),
            ),
        ),
    decreases n,
{
    let all = rewritten_entries(entries, remaining, n);
    let rest = rewritten_entries(entries, remaining, (n - 1) as nat);
    let x = rewritten_entry(
        entries[i],
        targeted(entries[i], remaining_after(entries, remaining, i as nat)),
    );
    if i < n - 1 {
        lemma_rewritten_holds(entries, remaining, (n - 1) as nat, i);
        let k = choose|k: int| 0 <= k < rest.len() && rest[k] == x;
        assert(all[k] == x);
    } else {
        assert(all[rest.len() as int] == x);
    }
}

proof fn lemma_rewritten_origin(entries: Seq<ManifestEntry>, remaining: Set<Seq<char>>, n: nat, k: int)
    requires
        n <= entries.len(),
        0 <= k < rewritten_entries(entries, remaining, n).len(),
    ensures
        exists|i: int|
            0 <= i < n && #[trigger] rewritten_from(
                entries,
                remaining,
                rewritten_entries(entries, remaining, n)[k],
                i,
            ),
    decreases n,
{
    if n > 0 {
        let all = rewritten_entries(entries, remaining, n);
        let rest = rewritten_entries(entries, remaining, (n - 1) as nat);
        if k < rest.len() {
            lemma_rewritten_origin(entries, remaining, (n - 1) as nat, k);
            assert(all[k] == rest[k]);
        } else {
            assert(rewritten_from(entries, remaining, all[k], n - 1));
        }
    }
}

/// A rewritten manifest carries over every live file that is not to be deleted.
pub proof fn law_rewrite_loses_no_file(
    entries: Seq<ManifestEntry>,
    remaining: Set<Seq<char>>,
    i: int,
)
    requires
        0 <= i < entries.len(),
        entries[i].alive(),
        !remaining.contains(entries[i].data_file.file_path@),
    ensures
        rewritten_entries(entries, remaining, entries.len()).contains(
            rewritten_entry(entries[i], false),
        ),
{
    lemma_rewritten_holds(entries, remaining, entries.len(), i);
    lemma_remaining_after(entries, remaining, i as nat);
}

/// A rewrite revives nothing: all that a rewritten manifest lists was live before.
pub proof fn law_rewrite_revives_no_file(
    entries: Seq<ManifestEntry>,
    remaining: Set<Seq<char>>,
    k: int,
)
    requires
        0 <= k < rewritten_entries(entries, remaining, entries.len()).len(),
    ensures
        exists|i: int|
            0 <= i < entries.len() && (#[trigger] entries[i]).alive() && entries[i].data_file
                == rewritten_entries(entries, remaining, entries.len())[k].data_file,
{
    lemma_rewritten_origin(entries, remaining, entries.len(), k);
    let x = rewritten_entries(entries, remaining, entries.len())[k];
    let i = choose|i: int|
        0 <= i < entries.len() && #[trigger] rewritten_from(entries, remaining, x, i);
    assert(entries[i].alive());
}

/// In a manifest that lists no file live twice, a rewrite changes the state of just the files to be
/// deleted: each live file is listed, marked deleted if it is to be deleted and carried over if not,
/// and nothing else is listed.
pub proof fn law_rewrite_deletes_just_the_targets(
    entries: Seq<ManifestEntry>,
    remaining: Set<Seq<char>>,
    x: ManifestEntry,
)
    requires
        forall|j: int, k: int|
            0 <= j < k < entries.len() && entries[j].alive() && entries[k].alive()
                ==> entries[j].data_file.file_path@ != entries[k].data_file.file_path@,
    ensures
        rewritten_entries(entries, remaining, entries.len()).contains(x) <==> exists|i: int|
            0 <= i < entries.len() && (#[trigger] entries[i]).alive() && x == rewritten_entry(
                entries[i],
                remaining.contains(entries[i].data_file.file_path@),
            ),
{
    let all = rewritten_entries(entries, remaining, entries.len());
    assert forall|i: int| 0 <= i < entries.len() && (#[trigger] entries[i]).alive() implies targeted(
        entries[i],
        remaining_after(entries, remaining, i as nat),
    ) == remaining.contains(entries[i].data_file.file_path@) by {
        lemma_remaining_after(entries, remaining, i as nat);
    }
    if all.contains(x) {
        let k = choose|k: int| 0 <= k < all.len() && all[k] == x;
        lemma_rewritten_origin(entries, remaining, entries.len(), k);
        let i = choose|i: int|
            0 <= i < entries.len() && #[trigger] rewritten_from(entries, remaining, x, i);
        assert(entries[i].alive());
    }
    if exists|i: int|
        0 <= i < entries.len() && (#[trigger] entries[i]).alive() && x == rewritten_entry(
            entries[i],
            remaining.contains(entries[i].data_file.file_path@),
        ) {
        let i = choose|i: int|
            0 <= i < entries.len() && (#[trigger] entries[i]).alive() && x == rewritten_entry(
                entries[i],
                remaining.contains(entries[i].data_file.file_path@),
            );
        lemma_rewritten_holds(entries, remaining, entries.len(), i);
    }
}

proof fn lemma_found_stays_found(
    v: WalkView,
    pending: Seq<ManifestFile>,
    table: TableMetadata,
    files: Seq<Arc<DataFile>>,
    load: spec_fn(ManifestFile) -> Seq<ManifestEntry>,
    written: spec_fn(ManifestFile) -> ManifestFile,
    path: Seq<char>,
)
    requires
        !v.remaining.contains(path),
    ensures
        !walked(v, pending, table, files, load, written).remaining.contains(path),
    decreases pending.len(),
{
    if pending.len() > 0 {
        let next = walked_one(v, pending[0], table, files, load, written);
        let entries = load(pending[0]);
        lemma_remaining_after(entries, v.remaining, entries.len());
        lemma_found_stays_found(
            next,
            pending.skip(1),
            table,
            files,
            load,
            written,
            path,
        );
    }
}

/// A file to delete is found where a manifest lists it live: one with live files, by its counts,
/// that its summary does not rule out.
pub proof fn law_listed_files_are_found(
    v: WalkView,
    pending: Seq<ManifestFile>,
    table: TableMetadata,
    files: Seq<Arc<DataFile>>,
    load: spec_fn(ManifestFile) -> Seq<ManifestEntry>,
    written: spec_fn(ManifestFile) -> ManifestFile,
    m: int,
    i: int,
)
    requires
        0 <= m < pending.len(),
        0 <= i < load(pending[m]).len(),
        load(pending[m])[i].alive(),
        pending[m].may_be_active(),
        !summary_excludes(pending[m], table, files),
    ensures
        !walked(v, pending, table, files, load, written).remaining.contains(
            load(pending[m])[i].data_file.file_path@,
        ),
    decreases pending.len(),
{
    let path = load(pending[m])[i].data_file.file_path@;
    let next = walked_one(v, pending[0], table, files, load, written);
    let rest = pending.skip(1);
    if m > 0 {
        assert(rest[m - 1] == pending[m]);
        law_listed_files_are_found(next, rest, table, files, load, written, m - 1, i);
    } else {
        let entries = load(pending[0]);
        lemma_remaining_after(entries, v.remaining, entries.len());
        assert(entries[i].alive());
        if v.remaining.contains(path) {
            assert(targeted(entries[i], v.remaining));
        }
        lemma_found_stays_found(next, rest, table, files, load, written, path);
    }
}

proof fn lemma_result_grows(
    v: WalkView,
    pending: Seq<ManifestFile>,
    table: TableMetadata,
    files: Seq<Arc<DataFile>>,
    load: spec_fn(ManifestFile) -> Seq<ManifestEntry>,
    written: spec_fn(ManifestFile) -> ManifestFile,
    mf: ManifestFile,
)
    requires
        v.result.contains(mf),
    ensures
        walked(v, pending, table, files, load, written).result.contains(mf),
    decreases pending.len(),
{
    if pending.len() > 0 {
        let next = walked_one(v, pending[0], table, files, load, written);
        let k = choose|k: int| 0 <= k < v.result.len() && v.result[k] == mf;
        assert(next.result[k] == mf);
        lemma_result_grows(next, pending.skip(1), table, files, load, written, mf);
    }
}

/// No live file that is not to be deleted is lost: the manifest that lists it stands in the new
/// snapshot, or the one it was rewritten to does.
pub proof fn law_walk_loses_no_file(
    v: WalkView,
    pending: Seq<ManifestFile>,
    table: TableMetadata,
    files: Seq<Arc<DataFile>>,
    load: spec_fn(ManifestFile) -> Seq<ManifestEntry>,
    written: spec_fn(ManifestFile) -> ManifestFile,
    m: int,
    i: int,
)
    requires
        0 <= m < pending.len(),
        0 <= i < load(pending[m]).len(),
        load(pending[m])[i].alive(),
        pending[m].may_be_active(),
        !v.remaining.contains(load(pending[m])[i].data_file.file_path@),
    ensures
        ({
            let result = walked(v, pending, table, files, load, written).result;
            result.contains(pending[m]) || result.contains(written(pending[m]))
        }),
    decreases pending.len(),
{
    let path = load(pending[m])[i].data_file.file_path@;
    let next = walked_one(v, pending[0], table, files, load, written);
    let rest = pending.skip(1);
    lemma_remaining_after(load(pending[0]), v.remaining, load(pending[0]).len());
    if m > 0 {
        assert(rest[m - 1] == pending[m]);
        law_walk_loses_no_file(next, rest, table, files, load, written, m - 1, i);
    } else {
        assert(load(pending[0])[i].alive());
        assert(!all_targeted(load(pending[0]), v.remaining));
        let last = next.result[next.result.len() - 1];
        assert(next.result.contains(last));
        lemma_result_grows(next, rest, table, files, load, written, last);
    }
}

/// A file is found only where it is live: what a walk no longer has to delete was a live entry of
/// one of the manifests it saw.
pub proof fn law_found_files_were_live(
    v: WalkView,
    pending: Seq<ManifestFile>,
    table: TableMetadata,
    files: Seq<Arc<DataFile>>,
    load: spec_fn(ManifestFile) -> Seq<ManifestEntry>,
    written: spec_fn(ManifestFile) -> ManifestFile,
    path: Seq<char>,
)
    requires
        v.remaining.contains(path),
        !walked(v, pending, table, files, load, written).remaining.contains(path),
    ensures
        exists|m: int, i: int|
            0 <= m < pending.len() && 0 <= i < load(pending[m]).len() && (
            #[trigger] load(pending[m])[i]).alive() && load(pending[m])[i].data_file.file_path@
                == path,
    decreases pending.len(),
{
    if pending.len() > 0 {
        let next = walked_one(v, pending[0], table, files, load, written);
        let entries = load(pending[0]);
        if next.remaining.contains(path) {
            let rest = pending.skip(1);
            law_found_files_were_live(next, rest, table, files, load, written, path);
            let (m, i) = choose|m: int, i: int|
                0 <= m < rest.len() && 0 <= i < load(rest[m]).len() && (
                #[trigger] load(rest[m])[i]).alive() && load(rest[m])[i].data_file.file_path@
                    == path;
            assert(pending[m + 1] == rest[m]);
            assert(load(pending[m + 1])[i].alive());
        } else {
            lemma_remaining_after(entries, v.remaining, entries.len());
            let i = choose|i: int|
                0 <= i < entries.len() && (#[trigger] entries[i]).alive()
                    && entries[i].data_file.file_path@ == path;
            assert(load(pending[0])[i].alive());
        }
    }
}

/// The sequence number of a manifest that has none yet.
pub const UNASSIGNED_SEQUENCE_NUMBER: i64 = -1;

/// `mf` for a snapshot `snapshot_id`: a manifest that has no sequence number yet is added by it.
pub open spec fn for_snapshot(mf: ManifestFile, snapshot_id: i64) -> ManifestFile {
    if mf.sequence_number == UNASSIGNED_SEQUENCE_NUMBER {
        ManifestFile { added_snapshot_id: snapshot_id, ..mf }
    } else {
        mf
    }
}

/// The manifests that an earlier attempt came to, for the new snapshot `snapshot_id`. They are of
/// use only while the table's snapshot is the one they were made from: otherwise what another
/// commit added would be lost.
pub fn reuse_cached(
    cached: Vec<ManifestFile>,
    cached_snapshot: Option<i64>,
    current_snapshot: Option<i64>,
    snapshot_id: i64,
) -> (r: Option<Vec<ManifestFile>>)
    ensures
        r is Some <==> cached_snapshot == current_snapshot,
        r is Some ==> r->0@ == cached@.map_values(|mf: ManifestFile| for_snapshot(mf, snapshot_id)),
{
    let same = match (cached_snapshot, current_snapshot) {
        (Some(a), Some(b)) => a == b,
        (None, None) => true,
        _ => false,
    };
    if !same {
        return None;
    }
    let ghost all = cached@.map_values(|mf: ManifestFile| for_snapshot(mf, snapshot_id));
    let mut r: Vec<ManifestFile> = Vec::with_capacity(cached.len());
    for mf in iter: cached
        invariant
            iter.seq().map_values(|mf: ManifestFile| for_snapshot(mf, snapshot_id)) == all,
            r@ == all.take(iter.index() as int),
    {
        assert(all[iter.index() as int] == for_snapshot(mf, snapshot_id));
        proof {
            lemma_take_push(all, iter.index() as int);
        }
        let mut m = mf;
        if m.sequence_number == UNASSIGNED_SEQUENCE_NUMBER {
            m.added_snapshot_id = snapshot_id;
        }
        r.push(m);
    }
    assert(all.take(all.len() as int) =~= all);
    Some(r)
}

/// The manifests that an attempt came to, and the table's snapshot at the time.
pub struct CachedManifests {
    pub snapshot: Option<i64>,
    pub manifests: Vec<ManifestFile>,
}

/// How the manifests of the new snapshot are found.
pub enum WalkStart {
    /// They are known.
    Known(Vec<ManifestFile>),
    /// The table's manifests have to be walked over.
    Walk,
}

/// The id of a table's snapshot.
pub open spec fn current_id(table: TableMetadata) -> Option<i64> {
    match table.current() {
        Some(s) => Some(s.snapshot_id),
        None => None,
    }
}

/// How the manifests of the new snapshot `snapshot_id` are found: those of an earlier attempt are
/// used again while the table's snapshot is the same, and a table without a snapshot has none.
pub fn start_walk(table: &TableMetadata, cached: Option<CachedManifests>, snapshot_id: i64) -> (r:
    WalkStart)
    ensures
        ({
            let usable = cached is Some && cached->0.snapshot == current_id(*table);
            &&& r is Walk <==> !usable && table.current() is Some
            &&& usable ==> r->Known_0@ == cached->0.manifests@.map_values(
                |mf: ManifestFile| for_snapshot(mf, snapshot_id),
            )
            &&& !usable && table.current() is None ==> r->Known_0@.len() == 0
        }),
{
    let current: Option<i64> = match table.current_snapshot() {
        Some(s) => Some(s.snapshot_id),
        None => None,
    };
    if let Some(c) = cached {
        if let Some(manifests) = reuse_cached(c.manifests, c.snapshot, current, snapshot_id) {
            return WalkStart::Known(manifests);
        }
    }
    if current.is_none() {
        return WalkStart::Known(Vec::new());
    }
    WalkStart::Walk
}

/// Replaces data files: compaction, relocation, a change of format.
pub struct ReplaceDataFilesAction {
    pub files_to_delete: Vec<Arc<DataFile>>,
    pub files_to_add: Vec<Arc<DataFile>>,
    /// Hints that are not used: a manifest may list files beside those to delete.
    pub delete_manifests: Vec<String>,
    pub commit_id: Option<u128>,
    pub key_metadata: Option<Vec<u8>>,
    pub snapshot_properties: Properties,
    pub validate_from_snapshot_id: Option<i64>,
    pub data_sequence_number: Option<i64>,
    pub added_delete_files: Vec<Arc<DataFile>>,
    pub snapshot_id_override: Option<i64>,
    /// By data file, the manifest that lists it.
    pub file_to_manifest_index: Option<Properties>,
    pub cached_root_entries: Option<RootEntries>,
}

impl TransactionAction for ReplaceDataFilesAction {
    /// Another attempt could delete files that are gone, or add its files a second time.
    fn disables_retry(&self) -> (r: bool)
        ensures
            r,
    {
        true
    }
}

/// What a commit of a replacement goes by.
pub struct ReplacePlan {
    /// The id of the snapshot's own files.
    pub producer_id: u128,
    /// The id of the rewritten manifests.
    pub operation_id: u128,
    /// Whether the added files are to be checked.
    pub validate_added: bool,
}

impl ReplaceDataFilesAction {
    /// A replacement of nothing.
    pub(crate) fn new() -> (r: Self)
        ensures
            r.files_to_delete@.len() == 0,
            r.files_to_add@.len() == 0,
            r.delete_manifests@.len() == 0,
            r.commit_id is None,
            r.key_metadata is None,
            r.snapshot_properties@ == Map::<Seq<char>, Seq<char>>::empty(),
            r.validate_from_snapshot_id is None,
            r.data_sequence_number is None,
            r.added_delete_files@.len() == 0,
            r.snapshot_id_override is None,
            r.file_to_manifest_index is None,
            r.cached_root_entries is None,
    {
        ReplaceDataFilesAction {
            files_to_delete: Vec::new(),
            files_to_add: Vec::new(),
            delete_manifests: Vec::new(),
            commit_id: None,
            key_metadata: None,
            snapshot_properties: Properties::new(),
            validate_from_snapshot_id: None,
            data_sequence_number: None,
            added_delete_files: Vec::new(),
            snapshot_id_override: None,
            file_to_manifest_index: None,
            cached_root_entries: None,
        }
    }

    /// Deletes `files`.
    pub fn delete_files(self, files: Vec<DataFile>) -> (r: Self)
        ensures
            r.files_to_delete@ == shared(files@),
            r == (ReplaceDataFilesAction { files_to_delete: r.files_to_delete, ..self }),
    {
        let mut r = self;
        r.files_to_delete = share(files);
        r
    }

    /// Adds `files`.
    pub fn add_files(self, files: Vec<DataFile>) -> (r: Self)
        ensures
            r.files_to_add@ == shared(files@),
            r == (ReplaceDataFilesAction { files_to_add: r.files_to_add, ..self }),
    {
        let mut r = self;
        r.files_to_add = share(files);
        r
    }

    /// Hints at manifests that list only files to delete. Not used.
    pub fn delete_manifests(self, manifests: Vec<String>) -> (r: Self)
        ensures
            r == (ReplaceDataFilesAction { delete_manifests: manifests, ..self }),
    {
        let mut r = self;
        r.delete_manifests = manifests;
        r
    }

    /// Commits under the id `commit_uuid`.
    pub fn set_commit_uuid(self, commit_uuid: u128) -> (r: Self)
        ensures
            r == (ReplaceDataFilesAction { commit_id: Some(commit_uuid), ..self }),
    {
        let mut r = self;
        r.commit_id = Some(commit_uuid);
        r
    }

    /// Gives the manifests the key metadata `key_metadata`.
    pub fn set_key_metadata(self, key_metadata: Vec<u8>) -> (r: Self)
        ensures
            r == (ReplaceDataFilesAction { key_metadata: Some(key_metadata), ..self }),
    {
        let mut r = self;
        r.key_metadata = Some(key_metadata);
        r
    }

    /// Gives the snapshot the properties `snapshot_properties`.
    pub fn set_snapshot_properties(self, snapshot_properties: Properties) -> (r: Self)
        ensures
            r == (ReplaceDataFilesAction { snapshot_properties, ..self }),
    {
        let mut r = self;
        r.snapshot_properties = snapshot_properties;
        r
    }

    /// Validates from the snapshot `snapshot_id`.
    pub fn validate_from_snapshot(self, snapshot_id: i64) -> (r: Self)
        ensures
            r == (ReplaceDataFilesAction { validate_from_snapshot_id: Some(snapshot_id), ..self }),
    {
        let mut r = self;
        r.validate_from_snapshot_id = Some(snapshot_id);
        r
    }

    /// Gives the delete files the data sequence number `seq_num`.
    pub fn data_sequence_number(self, seq_num: i64) -> (r: Self)
        ensures
            r == (ReplaceDataFilesAction { data_sequence_number: Some(seq_num), ..self }),
    {
        let mut r = self;
        r.data_sequence_number = Some(seq_num);
        r
    }

    /// Adds the delete files `files`.
    pub fn add_delete_files(self, files: Vec<DataFile>) -> (r: Self)
        ensures
            r.added_delete_files@ == shared(files@),
            r == (ReplaceDataFilesAction { added_delete_files: r.added_delete_files, ..self }),
    {
        let mut r = self;
        r.added_delete_files = share(files);
        r
    }

    /// Gives the new snapshot the id `snapshot_id`.
    pub fn with_snapshot_id(self, snapshot_id: i64) -> (r: Self)
        ensures
            r == (ReplaceDataFilesAction { snapshot_id_override: Some(snapshot_id), ..self }),
    {
        let mut r = self;
        r.snapshot_id_override = Some(snapshot_id);
        r
    }

    /// Tells by data file which manifest lists it.
    pub fn with_file_manifest_index(self, index: Properties) -> (r: Self)
        ensures
            r == (ReplaceDataFilesAction { file_to_manifest_index: Some(index), ..self }),
    {
        let mut r = self;
        r.file_to_manifest_index = Some(index);
        r
    }

    /// Hands over root entries, and the snapshot they are of.
    pub fn with_cached_root_entries(
        self,
        snapshot_id: Option<i64>,
        entries: Vec<RootManifestEntry>,
    ) -> (r: Self)
        ensures
            r == (ReplaceDataFilesAction {
                cached_root_entries: Some(RootEntries { snapshot_id, entries }),
                ..self
            }),
    {
        let mut r = self;
        r.cached_root_entries = Some(RootEntries { snapshot_id, entries });
        r
    }

    /// What the snapshot does to the table: its files change, and its data does not.
    pub fn operation(&self) -> (r: Operation)
        ensures
            r == Operation::Replace,
    {
        Operation::Replace
    }

    /// The entries that the snapshot deletes beside those of rewritten manifests: none.
    pub fn delete_entries(&self) -> (r: Vec<ManifestEntry>)
        ensures
            r@.len() == 0,
    {
        Vec::new()
    }

    /// What a commit goes by. Without an id of its own, the files of the snapshot and the
    /// rewritten manifests each get a fresh one.
    pub fn plan_commit(&self) -> (r: ReplacePlan)
        ensures
            self.commit_id is Some ==> r.producer_id == self.commit_id->0 && r.operation_id
                == self.commit_id->0,
            self.commit_id is None ==> is_time_ordered(r.producer_id) && is_time_ordered(
                r.operation_id,
            ),
            r.validate_added == (self.files_to_add@.len() > 0),
    {
        let producer_id: u128 = match self.commit_id {
            Some(id) => id,
            None => fresh_id(),
        };
        let operation_id: u128 = match self.commit_id {
            Some(id) => id,
            None => fresh_id(),
        };
        ReplacePlan { producer_id, operation_id, validate_added: self.files_to_add.len() > 0 }
    }
}

/// A rewrite keeps where files come from: the rewritten manifest lists, in their order and once
/// each, just the files of the old manifest's entries that were not deleted, each with the snapshot
/// that its entry had, zero only where the entry had none. A file is marked deleted where its path
/// is one to delete, the first time that it stands there, and is carried over otherwise.
pub proof fn law_rewrite_keeps_the_snapshots(entries: Seq<ManifestEntry>, remaining: Set<Seq<char>>) -> (places:
    Seq<int>)
    ensures
        ({
            let new = rewritten_entries(entries, remaining, entries.len());
            &&& places.len() == new.len()
            &&& forall|i: int|
                0 <= i < entries.len() ==> (places.contains(i) <==> ((#[trigger] entries[i]).status
                    is Existing || entries[i].status is Added))
            &&& forall|j: int, k: int|
                0 <= j < k < places.len() ==> #[trigger] places[j] < #[trigger] places[k]
            &&& forall|k: int|
                0 <= k < new.len() ==> {
                    let x = #[trigger] new[k];
                    let e = entries[places[k]];
                    &&& 0 <= places[k] < entries.len()
                    &&& x.data_file == e.data_file
                    &&& e.snapshot_id is Some ==> x.snapshot_id == e.snapshot_id
                    &&& e.snapshot_id is None ==> x.snapshot_id == Some(0i64)
                    &&& x.sequence_number is None && x.file_sequence_number is None
                    &&& x.status is Deleted <==> remaining.contains(e.data_file.file_path@)
                        && forall|i: int|
                        0 <= i < places[k] && (#[trigger] entries[i]).data_file.file_path@
                            == e.data_file.file_path@ ==> entries[i].status is Deleted
                    &&& x.status is Deleted || x.status is Existing
                }
        }),
{
    lemma_rewrite_keeps_the_snapshots(entries, remaining, entries.len())
}

/// A rewrite keeps each file's snapshot: for each entry of the old manifest that was not deleted,
/// the rewritten manifest holds an entry of the same file and snapshot; and for each entry of the
/// rewritten manifest, the old one holds an entry of the same file that was not deleted, of the
/// same snapshot unless it had none.
pub proof fn law_rewrite_keeps_where_files_come_from(
    entries: Seq<ManifestEntry>,
    remaining: Set<Seq<char>>,
    i: int,
    k: int,
)
    ensures
        0 <= i < entries.len() && (entries[i].status is Existing || entries[i].status is Added)
            ==> exists|x: ManifestEntry| #[trigger]
            rewritten_entries(entries, remaining, entries.len()).contains(x) && x.data_file
                == entries[i].data_file && (entries[i].snapshot_id is Some ==> x.snapshot_id
                == entries[i].snapshot_id) && (entries[i].snapshot_id is None ==> x.snapshot_id
                == Some(0i64)),
        0 <= k < rewritten_entries(entries, remaining, entries.len()).len() ==> exists|
            e: ManifestEntry,
        | #[trigger]
            entries.contains(e) && (e.status is Existing || e.status is Added) && e.data_file
                == rewritten_entries(entries, remaining, entries.len())[k].data_file && (
            e.snapshot_id is Some ==> rewritten_entries(
                entries,
                remaining,
                entries.len(),
            )[k].snapshot_id == e.snapshot_id) && (e.snapshot_id is None ==> rewritten_entries(
                entries,
                remaining,
                entries.len(),
            )[k].snapshot_id == Some(0i64)),
{
    let new = rewritten_entries(entries, remaining, entries.len());
    let places = lemma_rewrite_keeps_the_snapshots(entries, remaining, entries.len());
    if 0 <= i < entries.len() && (entries[i].status is Existing || entries[i].status is Added) {
        assert(places.contains(i));
        let j = choose|j: int| 0 <= j < places.len() && places[j] == i;
        assert(new.contains(new[j]));
        assert(new[j].data_file == entries[i].data_file);
    }
    if 0 <= k < new.len() {
        assert(new[k].data_file == entries[places[k]].data_file);
        assert(places.contains(places[k]));
        assert(entries.contains(entries[places[k]]));
    }
}

proof fn lemma_rewrite_keeps_the_snapshots(
    entries: Seq<ManifestEntry>,
    remaining: Set<Seq<char>>,
    n: nat,
) -> (places: Seq<int>)
    requires
        n <= entries.len(),
    ensures
        ({
            let new = rewritten_entries(entries, remaining, n);
            &&& places.len() == new.len()
            &&& forall|i: int|
                0 <= i < n ==> (places.contains(i) <==> ((#[trigger] entries[i]).status is Existing
                    || entries[i].status is Added))
            &&& forall|j: int, k: int|
                0 <= j < k < places.len() ==> #[trigger] places[j] < #[trigger] places[k]
            &&& forall|k: int| 0 <= k < new.len() ==> 0 <= #[trigger] places[k] < n
            &&& forall|k: int|
                0 <= k < new.len() ==> {
                    let x = #[trigger] new[k];
                    let e = entries[places[k]];
                    &&& x.data_file == e.data_file
                    &&& e.snapshot_id is Some ==> x.snapshot_id == e.snapshot_id
                    &&& e.snapshot_id is None ==> x.snapshot_id == Some(0i64)
                    &&& x.sequence_number is None && x.file_sequence_number is None
                    &&& x.status is Deleted <==> remaining.contains(e.data_file.file_path@)
                        && forall|i: int|
                        0 <= i < places[k] && (#[trigger] entries[i]).data_file.file_path@
                            == e.data_file.file_path@ ==> entries[i].status is Deleted
                    &&& x.status is Deleted || x.status is Existing
                }
        }),
    decreases n,
{
    if n == 0 {
        Seq::empty()
    } else {
        let before = lemma_rewrite_keeps_the_snapshots(entries, remaining, (n - 1) as nat);
        let old = rewritten_entries(entries, remaining, (n - 1) as nat);
        let new = rewritten_entries(entries, remaining, n);
        let last = n - 1;
        let e = entries[last];
        lemma_remaining_after(entries, remaining, (n - 1) as nat);
        let places = if e.status is Deleted {
            before
        } else {
            before.push(last)
        };
        assert forall|i: int| 0 <= i < n implies (places.contains(i) <==> ((
        #[trigger] entries[i]).status is Existing || entries[i].status is Added)) by {
            if i < last {
                if before.contains(i) {
                    let k = choose|k: int| 0 <= k < before.len() && before[k] == i;
                    assert(places[k] == i);
                }
                if places.contains(i) {
                    let k = choose|k: int| 0 <= k < places.len() && places[k] == i;
                    assert(before[k] == i);
                }
            } else if e.status !is Deleted {
                assert(places[before.len() as int] == i);
            } else if places.contains(i) {
                let k = choose|k: int| 0 <= k < places.len() && places[k] == i;
                assert(before[k] == i);
            }
        }
        assert forall|k: int| 0 <= k < new.len() implies {
            let x = #[trigger] new[k];
            let f = entries[places[k]];
            &&& 0 <= places[k] < n
            &&& x.data_file == f.data_file
            &&& f.snapshot_id is Some ==> x.snapshot_id == f.snapshot_id
            &&& f.snapshot_id is None ==> x.snapshot_id == Some(0i64)
            &&& x.sequence_number is None && x.file_sequence_number is None
            &&& x.status is Deleted <==> remaining.contains(f.data_file.file_path@) && forall|
                i: int,
            |
                0 <= i < places[k] && (#[trigger] entries[i]).data_file.file_path@
                    == f.data_file.file_path@ ==> entries[i].status is Deleted
            &&& x.status is Deleted || x.status is Existing
        } by {
            if k < old.len() {
                assert(new[k] == old[k]);
                assert(places[k] == before[k]);
            } else {
                assert(places[k] == last);
                let p = e.data_file.file_path@;
                let left = remaining_after(entries, remaining, (n - 1) as nat);
                assert(left.contains(p) <==> remaining.contains(p) && !exists|i: int|
                    0 <= i < n - 1 && (#[trigger] entries[i]).alive()
                        && entries[i].data_file.file_path@ == p);
            }
        }
        places
    }
}

/// A walk leaves out a manifest just where it counts no live file, or all of its live files are to
/// be deleted. It keeps one as it is where nothing is left to delete, where its summary rules the
/// files out, or where none of its live entries is to be deleted, and rewrites it otherwise.
pub proof fn law_walk_keeps_rewrites_or_leaves_out(
    v: WalkView,
    mf: ManifestFile,
    table: TableMetadata,
    files: Seq<Arc<DataFile>>,
    load: spec_fn(ManifestFile) -> Seq<ManifestEntry>,
    written: spec_fn(ManifestFile) -> ManifestFile,
)
    ensures
        ({
            let after = walked_one(v, mf, table, files, load, written);
            let entries = load(mf);
            let empty = mf.added_files_count == Some(0u32) && mf.existing_files_count == Some(0u32);
            let some = exists|i: int|
                0 <= i < entries.len() && ((#[trigger] entries[i]).status is Existing
                    || entries[i].status is Added) && v.remaining.contains(
                    entries[i].data_file.file_path@,
                );
            let all = forall|i: int|
                0 <= i < entries.len() && ((#[trigger] entries[i]).status is Existing
                    || entries[i].status is Added) ==> v.remaining.contains(
                    entries[i].data_file.file_path@,
                );
            let read = !v.remaining.is_empty() && !summary_excludes(mf, table, files);
            &&& empty ==> after == v
            &&& !empty && !(read && some) ==> after.result == v.result.push(mf) && after.remaining
                == v.remaining
            &&& !empty && read && some && all ==> after.result == v.result
            &&& !empty && read && some && !all ==> after.result == v.result.push(written(mf))
            &&& !empty && read && some ==> forall|p: Seq<char>| #[trigger]
                after.remaining.contains(p) <==> v.remaining.contains(p) && !exists|i: int|
                    0 <= i < entries.len() && ((#[trigger] entries[i]).status is Existing
                        || entries[i].status is Added) && entries[i].data_file.file_path@ == p
        }),
{
    let after = walked_one(v, mf, table, files, load, written);
    let entries = load(mf);
    let some = exists|i: int|
        0 <= i < entries.len() && ((#[trigger] entries[i]).status is Existing || entries[i].status
            is Added) && v.remaining.contains(entries[i].data_file.file_path@);
    let all = forall|i: int|
        0 <= i < entries.len() && ((#[trigger] entries[i]).status is Existing || entries[i].status
            is Added) ==> v.remaining.contains(entries[i].data_file.file_path@);
    assert(forall|i: int|
        0 <= i < entries.len() ==> ((#[trigger] entries[i]).alive() <==> entries[i].status is Existing
            || entries[i].status is Added));
    assert(any_targeted(entries, v.remaining) <==> some) by {
        if some {
            let i = choose|i: int|
                0 <= i < entries.len() && ((#[trigger] entries[i]).status is Existing
                    || entries[i].status is Added) && v.remaining.contains(
                    entries[i].data_file.file_path@,
                );
            assert(targeted(entries[i], v.remaining));
        }
    }
    assert(all_targeted(entries, v.remaining) <==> all);
    lemma_remaining_after(entries, v.remaining, entries.len());
    if any_targeted(entries, v.remaining) && mf.may_be_active() && !v.remaining.is_empty()
        && !summary_excludes(mf, table, files) {
        assert forall|p: Seq<char>| #[trigger] after.remaining.contains(p) <==> v.remaining.contains(p)
            && !exists|i: int|
            0 <= i < entries.len() && ((#[trigger] entries[i]).status is Existing
                || entries[i].status is Added) && entries[i].data_file.file_path@ == p by {
            if exists|i: int|
                0 <= i < entries.len() && (#[trigger] entries[i]).alive()
                    && entries[i].data_file.file_path@ == p {
                let i = choose|i: int|
                    0 <= i < entries.len() && (#[trigger] entries[i]).alive()
                        && entries[i].data_file.file_path@ == p;
                assert(entries[i].status is Existing || entries[i].status is Added);
            }
            if exists|i: int|
                0 <= i < entries.len() && ((#[trigger] entries[i]).status is Existing
                    || entries[i].status is Added) && entries[i].data_file.file_path@ == p {
                let i = choose|i: int|
                    0 <= i < entries.len() && ((#[trigger] entries[i]).status is Existing
                        || entries[i].status is Added) && entries[i].data_file.file_path@ == p;
                assert(entries[i].alive());
            }
        }
    }
}

/// The files that were not found are those of the given files whose paths are left over, each path
/// once.
pub proof fn law_missing_files_are_named_once(
    files: Seq<Arc<DataFile>>,
    remaining: Set<Seq<char>>,
    path: Seq<char>,
)
    ensures
        missing(files, remaining).contains(path) <==> remaining.contains(path) && exists|i: int|
            0 <= i < files.len() && (#[trigger] files[i]).file_path@ == path,
        missing(files, remaining).no_duplicates(),
    decreases files.len(),
{
    if files.len() > 0 {
        let head = files.drop_last();
        let rest = missing(head, remaining);
        let all = missing(files, remaining);
        let last = files.last().file_path@;
        law_missing_files_are_named_once(head, remaining, path);
        law_missing_files_are_named_once(head, remaining, last);
        assert(files[files.len() - 1] == files.last());
        if rest.contains(path) {
            let k = choose|k: int| 0 <= k < rest.len() && rest[k] == path;
            assert(all[k] == path);
            let i = choose|i: int| 0 <= i < head.len() && (#[trigger] head[i]).file_path@ == path;
            assert(files[i] == head[i]);
        } else {
            if all.contains(path) {
                let k = choose|k: int| 0 <= k < all.len() && all[k] == path;
                if k < rest.len() {
                    assert(rest[k] == path);
                }
            }
            if remaining.contains(path) && exists|i: int|
                0 <= i < files.len() && (#[trigger] files[i]).file_path@ == path {
                let i = choose|i: int|
                    0 <= i < files.len() && (#[trigger] files[i]).file_path@ == path;
                if i < head.len() {
                    assert(head[i] == files[i]);
                } else {
                    assert(all[rest.len() as int] == path);
                }
            }
        }
    }
}

/// A manifest without a sequence number of its own was added by the snapshot; every other one keeps
/// its snapshot, and all keep everything else.
pub proof fn law_only_new_manifests_are_stamped(mf: ManifestFile, snapshot_id: i64)
    ensures
        mf.sequence_number == -1 ==> for_snapshot(mf, snapshot_id).added_snapshot_id == snapshot_id,
        mf.sequence_number != -1 ==> for_snapshot(mf, snapshot_id) == mf,
        for_snapshot(mf, snapshot_id) == (ManifestFile {
            added_snapshot_id: for_snapshot(mf, snapshot_id).added_snapshot_id,
            ..mf
        }),
{
}

/// A rewritten manifest is a data manifest with the entries given, in the format that the table
/// asks for: as Parquet in the second and third version, unless the table asks for Avro.
pub proof fn law_rewritten_manifest_is_of_data(
    w: ManifestRewrite,
    table: TableMetadata,
    commit_id: u128,
    n: u64,
    entries: Seq<ManifestEntry>,
)
    requires
        is_rewrite(w, table, commit_id, n, entries),
    ensures
        w.entries@ == entries,
        w.kind is V1 <==> table.format_version is V1,
        w.kind is V2Data <==> table.format_version is V2,
        w.kind is V3Data <==> table.format_version is V3 || table.format_version is V4,
        w.parquet <==> (table.format_version is V2 || table.format_version is V3) && !(
        table.properties@.contains_key("write.parquet.metadata-codec"@) && same_ignoring_case(
            table.properties@["write.parquet.metadata-codec"@],
            "avro"@,
        )),
        w.parquet ==> w.path@ == table.location@ + "/metadata/"@ + id_text(commit_id)
            + "-m-rewrite-"@ + decimal(n as nat) + "."@ + "parquet"@,
        !w.parquet ==> w.path@ == table.location@ + "/metadata/"@ + id_text(commit_id)
            + "-m-rewrite-"@ + decimal(n as nat) + "."@ + "avro"@,
{
}

/// The values of a field that files take are the encodings of their partitions' values in it, of
/// those files whose partitions have as many fields as the type; a null and a value without an
/// encoding are noted. A type with a nested field gives nothing.
pub proof fn law_targets_are_the_files_values(
    files: Seq<Arc<DataFile>>,
    partition_type: StructType,
    i: int,
    b: Seq<u8>,
)
    requires
        0 <= i < partition_type.fields@.len(),
    ensures
        ({
            let t = target(files, partition_type, i);
            let flat = forall|k: int|
                0 <= k < partition_type.fields@.len() ==> #[trigger] partition_type.fields@[k]
                    is Primitive;
            &&& !flat ==> !t.bytes.contains(b) && !t.null && !t.unencoded
            &&& flat ==> {
                &&& t.bytes.contains(b) <==> exists|f: int|
                    0 <= f < files.len() && (#[trigger] files[f]).partition.fields@.len()
                        == partition_type.fields@.len() && (files[f].partition.fields@[i] matches Some(
                        Literal::Primitive(p),
                    ) && bound_bytes(p) == Some(b))
                &&& t.null <==> exists|f: int|
                    0 <= f < files.len() && (#[trigger] files[f]).partition.fields@.len()
                        == partition_type.fields@.len() && files[f].partition.fields@[i] is None
            }
        }),
{
    if all_primitive(partition_type) {
        assert forall|k: int| 0 <= k < partition_type.fields@.len() implies
            #[trigger] partition_type.fields@[k] is Primitive by {}
    }
    let t = target(files, partition_type, i);
    if t.bytes.contains(b) && all_primitive(partition_type) {
        let f = choose|f: int|
            0 <= f < files.len() && fits(#[trigger] files[f], partition_type) && tuple_bytes(
                files[f].partition,
                i,
            ) == Some(b);
        assert(files[f].partition.fields@.len() == partition_type.fields@.len());
    }
    if exists|f: int|
        0 <= f < files.len() && (#[trigger] files[f]).partition.fields@.len()
            == partition_type.fields@.len() && (files[f].partition.fields@[i] matches Some(
            Literal::Primitive(p),
        ) && bound_bytes(p) == Some(b)) {
        let f = choose|f: int|
            0 <= f < files.len() && (#[trigger] files[f]).partition.fields@.len()
                == partition_type.fields@.len() && (files[f].partition.fields@[i] matches Some(
                Literal::Primitive(p),
            ) && bound_bytes(p) == Some(b));
        assert(fits(files[f], partition_type));
        assert(tuple_bytes(files[f].partition, i) == Some(b));
    }
    if t.null && all_primitive(partition_type) {
        let f = choose|f: int|
            0 <= f < files.len() && fits(#[trigger] files[f], partition_type)
                && files[f].partition.fields@[i] is None;
        assert(files[f].partition.fields@.len() == partition_type.fields@.len());
    }
    if exists|f: int|
        0 <= f < files.len() && (#[trigger] files[f]).partition.fields@.len()
            == partition_type.fields@.len() && files[f].partition.fields@[i] is None {
        let f = choose|f: int|
            0 <= f < files.len() && (#[trigger] files[f]).partition.fields@.len()
                == partition_type.fields@.len() && files[f].partition.fields@[i] is None;
        assert(fits(files[f], partition_type));
    }
}

/// A manifest is passed over by its summary just where its spec is one of the table's with a known
/// type, and in some field the files have an encoded value, none without an encoding, no null that
/// the manifest may hold, and the manifest has one value, no NaN, and it is none of theirs.
pub proof fn law_summary_excludes_by_one_value(
    mf: ManifestFile,
    table: TableMetadata,
    files: Seq<Arc<DataFile>>,
)
    ensures
        summary_excludes(mf, table, files) <==> mf.partitions is Some && exists|i: int|
            0 <= i < mf.partitions->0@.len() && i < spec_targets(
                table,
                mf.partition_spec_id,
                files,
            ).len() && {
                let f = #[trigger] mf.partitions->0@[i];
                let t = spec_targets(table, mf.partition_spec_id, files)[i];
                &&& exists|b: Seq<u8>| t.bytes.contains(b)
                &&& !t.unencoded
                &&& !(t.null && f.contains_null)
                &&& f.contains_nan != Some(true)
                &&& f.lower_bound is Some && f.upper_bound is Some
                &&& f.lower_bound->0@ == f.upper_bound->0@
                &&& !t.bytes.contains(f.lower_bound->0@)
            },
        match table.spec_by_id(mf.partition_spec_id) {
            Some(spec) => spec.partition_type is Some ==> spec_targets(
                table,
                mf.partition_spec_id,
                files,
            ).len() == spec.partition_type->0.fields@.len(),
            None => spec_targets(table, mf.partition_spec_id, files).len() == 0,
        },
{
    let targets = spec_targets(table, mf.partition_spec_id, files);
    if mf.partitions is Some {
        let parts = mf.partitions->0@;
        if summary_excludes(mf, table, files) {
            let i = choose|i: int|
                0 <= i < parts.len() && #[trigger] field_excludes(parts, targets, i);
            assert(parts[i].pinned_spec() is Some);
            assert(parts[i].lower_bound is Some);
        }
        if exists|i: int|
            0 <= i < parts.len() && i < targets.len() && {
                let f = #[trigger] parts[i];
                let t = targets[i];
                &&& exists|b: Seq<u8>| t.bytes.contains(b)
                &&& !t.unencoded
                &&& !(t.null && f.contains_null)
                &&& f.contains_nan != Some(true)
                &&& f.lower_bound is Some && f.upper_bound is Some
                &&& f.lower_bound->0@ == f.upper_bound->0@
                &&& !t.bytes.contains(f.lower_bound->0@)
            } {
            let i = choose|i: int|
                0 <= i < parts.len() && i < targets.len() && {
                    let f = #[trigger] parts[i];
                    let t = targets[i];
                    &&& exists|b: Seq<u8>| t.bytes.contains(b)
                    &&& !t.unencoded
                    &&& !(t.null && f.contains_null)
                    &&& f.contains_nan != Some(true)
                    &&& f.lower_bound is Some && f.upper_bound is Some
                    &&& f.lower_bound->0@ == f.upper_bound->0@
                    &&& !t.bytes.contains(f.lower_bound->0@)
                };
            assert(parts[i].pinned_spec() == Some(parts[i].lower_bound->0@));
            assert(field_excludes(parts, targets, i));
        }
    }
}

/// Ranges rule files out just where in some field the files have an encoded value, none without an
/// encoding, no null that the manifest may hold, and the manifest has both bounds, no NaN, and each
/// of their values lies outside them.
pub proof fn law_ranges_exclude_by_one_field(parts: Seq<FieldSummary>, targets: Seq<TargetView>)
    ensures
        ranges_exclude(parts, targets) <==> exists|i: int|
            0 <= i < parts.len() && i < targets.len() && {
                let f = #[trigger] parts[i];
                let t = targets[i];
                &&& exists|b: Seq<u8>| t.bytes.contains(b)
                &&& !t.unencoded
                &&& !(t.null && f.contains_null)
                &&& f.contains_nan != Some(true)
                &&& f.lower_bound is Some && f.upper_bound is Some
                &&& forall|b: Seq<u8>| #[trigger]
                    t.bytes.contains(b) ==> outside(
                        b,
                        f.lower_bound->0@,
                        f.upper_bound->0@,
                        t.orders,
                    )
            },
{
    if ranges_exclude(parts, targets) {
        let i = choose|i: int| 0 <= i < parts.len() && #[trigger] field_disjoint(parts, targets, i);
        assert(parts[i].lower_bound is Some);
    }
    if exists|i: int|
        0 <= i < parts.len() && i < targets.len() && {
            let f = #[trigger] parts[i];
            let t = targets[i];
            &&& exists|b: Seq<u8>| t.bytes.contains(b)
            &&& !t.unencoded
            &&& !(t.null && f.contains_null)
            &&& f.contains_nan != Some(true)
            &&& f.lower_bound is Some && f.upper_bound is Some
            &&& forall|b: Seq<u8>| #[trigger]
                t.bytes.contains(b) ==> outside(b, f.lower_bound->0@, f.upper_bound->0@, t.orders)
        } {
        let i = choose|i: int|
            0 <= i < parts.len() && i < targets.len() && {
                let f = #[trigger] parts[i];
                let t = targets[i];
                &&& exists|b: Seq<u8>| t.bytes.contains(b)
                &&& !t.unencoded
                &&& !(t.null && f.contains_null)
                &&& f.contains_nan != Some(true)
                &&& f.lower_bound is Some && f.upper_bound is Some
                &&& forall|b: Seq<u8>| #[trigger]
                    t.bytes.contains(b) ==> outside(
                        b,
                        f.lower_bound->0@,
                        f.upper_bound->0@,
                        t.orders,
                    )
            };
        assert(field_disjoint(parts, targets, i));
    }
}

/// The id of the current snapshot is the one that the table names, where it lists that snapshot.
pub proof fn law_current_id_is_a_listed_snapshot(table: TableMetadata)
    ensures
        current_id(table) is Some ==> current_id(table) == table.current_snapshot_id && exists|i: int|
            0 <= i < table.snapshots@.len() && (#[trigger] table.snapshots@[i]).snapshot_id
                == current_id(table)->0,
        current_id(table) is None ==> table.current_snapshot_id is None || forall|i: int|
            0 <= i < table.snapshots@.len() ==> (#[trigger] table.snapshots@[i]).snapshot_id
                != table.current_snapshot_id->0,
{
    crate::table::law_current_snapshot_is_the_named_one(table);
    if table.current() is Some {
        let s = table.current()->0;
        let i = choose|i: int|
            0 <= i < table.snapshots@.len() && *(#[trigger] table.snapshots@[i]) == s;
        assert(table.snapshots@[i].snapshot_id == s.snapshot_id);
    }
}

/// The orders that a field's values are compared in are those of the values that are encoded, and a
/// value without an encoding is noted.
pub proof fn law_orders_are_those_of_the_values(
    files: Seq<Arc<DataFile>>,
    partition_type: StructType,
    i: int,
    order: ByteOrder,
)
    requires
        0 <= i < partition_type.fields@.len(),
        forall|k: int|
            0 <= k < partition_type.fields@.len() ==> #[trigger] partition_type.fields@[k]
                is Primitive,
    ensures
        ({
            let t = target(files, partition_type, i);
            &&& t.orders.contains(order) <==> exists|f: int|
                0 <= f < files.len() && (#[trigger] files[f]).partition.fields@.len()
                    == partition_type.fields@.len() && (files[f].partition.fields@[i] matches Some(
                    Literal::Primitive(p),
                ) && bound_bytes(p) is Some && (literal_order(p) is None || literal_order(p) == Some(
                    order,
                )))
            &&& t.unencoded <==> exists|f: int|
                0 <= f < files.len() && (#[trigger] files[f]).partition.fields@.len()
                    == partition_type.fields@.len() && files[f].partition.fields@[i] is Some && !(
                files[f].partition.fields@[i]->0 is Primitive && bound_bytes(
                    files[f].partition.fields@[i]->0->Primitive_0,
                ) is Some)
        }),
{
    let t = target(files, partition_type, i);
    assert(all_primitive(partition_type));
    if t.orders.contains(order) {
        let f = choose|f: int|
            0 <= f < files.len() && fits(#[trigger] files[f], partition_type) && tuple_bytes(
                files[f].partition,
                i,
            ) is Some && tuple_orders(files[f].partition, i).contains(order);
        assert(files[f].partition.fields@.len() == partition_type.fields@.len());
    }
    if exists|f: int|
        0 <= f < files.len() && (#[trigger] files[f]).partition.fields@.len()
            == partition_type.fields@.len() && (files[f].partition.fields@[i] matches Some(
            Literal::Primitive(p),
        ) && bound_bytes(p) is Some && (literal_order(p) is None || literal_order(p) == Some(order))) {
        let f = choose|f: int|
            0 <= f < files.len() && (#[trigger] files[f]).partition.fields@.len()
                == partition_type.fields@.len() && (files[f].partition.fields@[i] matches Some(
                Literal::Primitive(p),
            ) && bound_bytes(p) is Some && (literal_order(p) is None || literal_order(p) == Some(
                order,
            )));
        assert(fits(files[f], partition_type));
        assert(tuple_orders(files[f].partition, i).contains(order));
    }
    if t.unencoded {
        let f = choose|f: int|
            0 <= f < files.len() && fits(#[trigger] files[f], partition_type)
                && files[f].partition.fields@[i] is Some && tuple_bytes(files[f].partition, i)
                is None;
        assert(files[f].partition.fields@.len() == partition_type.fields@.len());
    }
    if exists|f: int|
        0 <= f < files.len() && (#[trigger] files[f]).partition.fields@.len()
            == partition_type.fields@.len() && files[f].partition.fields@[i] is Some && !(
        files[f].partition.fields@[i]->0 is Primitive && bound_bytes(
            files[f].partition.fields@[i]->0->Primitive_0,
        ) is Some) {
        let f = choose|f: int|
            0 <= f < files.len() && (#[trigger] files[f]).partition.fields@.len()
                == partition_type.fields@.len() && files[f].partition.fields@[i] is Some && !(
            files[f].partition.fields@[i]->0 is Primitive && bound_bytes(
                files[f].partition.fields@[i]->0->Primitive_0,
            ) is Some);
        assert(fits(files[f], partition_type));
        assert(tuple_bytes(files[f].partition, i) is None);
    }
}

/// A walk takes the manifests one by one, from left to right, and each of them.
pub proof fn law_walk_takes_each_manifest_once(
    v: WalkView,
    mf: ManifestFile,
    rest: Seq<ManifestFile>,
    table: TableMetadata,
    files: Seq<Arc<DataFile>>,
    load: spec_fn(ManifestFile) -> Seq<ManifestEntry>,
    written: spec_fn(ManifestFile) -> ManifestFile,
)
    ensures
        walked(v, Seq::empty(), table, files, load, written) == v,
        walked(v, seq![mf] + rest, table, files, load, written) == walked(
            walked_one(v, mf, table, files, load, written),
            rest,
            table,
            files,
            load,
            written,
        ),
{
    assert((seq![mf] + rest).skip(1) =~= rest);
}

/// No two rewrites of replaced files share a path: the path tells the commit, the number and the
/// format.
pub proof fn law_rewrite_paths_tell_their_commit(
    location: Seq<char>,
    c: u128,
    m: u64,
    d: u128,
    n: u64,
    parquet: bool,
)
    ensures
        rewrite_path(location, c, m, parquet) == rewrite_path(location, d, n, parquet) <==> c == d
            && m == n,
{
    let x = location + "/metadata/"@;
    if rewrite_path(location, c, m, parquet) == rewrite_path(location, d, n, parquet) {
        let p = rewrite_path(location, c, m, parquet);
        let q = rewrite_path(location, d, n, parquet);
        let at = x.len() as int;
        assert(p.subrange(at, at + 36) =~= id_text(c));
        assert(q.subrange(at, at + 36) =~= id_text(d));
        crate::commit::law_ids_are_told_by_their_text(c, d);
        let end = "."@ + extension(parquet);
        let head = x + id_text(c) + "-m-rewrite-"@;
        assert(p =~= head + signed_decimal(m as int) + end);
        assert(q =~= head + signed_decimal(n as int) + end);
        crate::commit::lemma_number_behind(head, m as int, n as int, end);
    }
}

/// A refusal names the files that were not found, behind what it is.
pub proof fn law_refusal_names_the_files(missing: Seq<Seq<char>>)
    ensures
        "Could not find the following files to delete: "@.is_prefix_of(not_found_message(missing)),
        joined(missing, ", "@).is_suffix_of(not_found_message(missing)),
        not_found_message(missing).len() == "Could not find the following files to delete: "@.len()
            + joined(missing, ", "@).len(),
{
    let p = not_found_message(missing);
    let head = "Could not find the following files to delete: "@;
    let end = joined(missing, ", "@);
    assert(head =~= p.take(head.len() as int));
    assert(end =~= p.skip(p.len() - end.len()));
}

} // verus!
