//! Partition values, the bytes that stand for them in partition summaries, and the time that a
//! partition covers.

use vstd::prelude::*;
use vstd::utf8::encode_utf8;

use crate::text::{same_bytes, same_text};

verus! {

/// A primitive value.
#[derive(Clone, Debug, PartialEq, Eq)]
pub enum PrimitiveLiteral {
    Boolean(bool),
    Int(i32),
    /// Also dates, times and timestamps that count in 64 bits.
    Long(i64),
    Text(String),
    Binary(Vec<u8>),
    /// Any other primitive value, by the bytes that stand for it in a bound; `None` where it has
    /// none.
    Other(Option<Vec<u8>>),
}

/// A value of a partition tuple.
#[derive(Clone, Debug, PartialEq, Eq)]
pub enum Literal {
    Primitive(PrimitiveLiteral),
    /// A struct, list or map, by a canonical form in bytes.
    Nested(Vec<u8>),
}

/// A partition tuple; a missing value is null.
#[derive(Clone, Debug, PartialEq, Eq)]
pub struct Struct {
    pub fields: Vec<Option<Literal>>,
}

/// The kinds of a partition tuple's fields.
#[derive(Clone, Copy, Debug, PartialEq, Eq, Structural)]
pub enum FieldKind {
    Primitive,
    Nested,
}

/// The type of a partition tuple.
#[derive(Clone, Debug, PartialEq, Eq)]
pub struct StructType {
    pub fields: Vec<FieldKind>,
}

/// What a partition field does to its source column.
#[derive(Clone, Copy, Debug, PartialEq, Eq, Structural)]
pub enum Transform {
    Identity,
    Hour,
    Day,
    Month,
    Year,
    Bucket(u32),
    Truncate(u32),
    Void,
    Unknown,
}

/// A field of a partition spec.
#[derive(Clone, Copy, Debug, PartialEq, Eq)]
pub struct PartitionField {
    pub source_id: i32,
    pub transform: Transform,
}

/// A partition spec.
#[derive(Clone, Debug, PartialEq, Eq)]
pub struct PartitionSpec {
    pub spec_id: i32,
    pub fields: Vec<PartitionField>,
    /// The type of this spec's tuples under the table's current schema; `None` where the schema
    /// lacks a source column.
    pub partition_type: Option<StructType>,
}

/// The value of a [`Literal`].
pub enum LiteralView {
    Boolean(bool),
    Int(i32),
    Long(i64),
    Text(Seq<char>),
    Binary(Seq<u8>),
    Other(Option<Seq<u8>>),
    Nested(Seq<u8>),
}

/// The bytes that an optional byte string holds.
pub open spec fn bytes_view(b: Option<Vec<u8>>) -> Option<Seq<u8>> {
    match b {
        Some(v) => Some(v@),
        None => None,
    }
}

impl View for Literal {
    type V = LiteralView;

    open spec fn view(&self) -> LiteralView {
        match self {
            Literal::Primitive(PrimitiveLiteral::Boolean(b)) => LiteralView::Boolean(*b),
            Literal::Primitive(PrimitiveLiteral::Int(i)) => LiteralView::Int(*i),
            Literal::Primitive(PrimitiveLiteral::Long(i)) => LiteralView::Long(*i),
            Literal::Primitive(PrimitiveLiteral::Text(s)) => LiteralView::Text(s@),
            Literal::Primitive(PrimitiveLiteral::Binary(b)) => LiteralView::Binary(b@),
            Literal::Primitive(PrimitiveLiteral::Other(b)) => LiteralView::Other(bytes_view(*b)),
            Literal::Nested(b) => LiteralView::Nested(b@),
        }
    }
}

/// The value of a partition tuple's field.
pub open spec fn field_view(f: Option<Literal>) -> Option<LiteralView> {
    match f {
        Some(l) => Some(l@),
        None => None,
    }
}

impl View for Struct {
    type V = Seq<Option<LiteralView>>;

    open spec fn view(&self) -> Seq<Option<LiteralView>> {
        self.fields@.map_values(|f: Option<Literal>| field_view(f))
    }
}

fn same_optional_bytes(a: &Option<Vec<u8>>, b: &Option<Vec<u8>>) -> (r: bool)
    ensures
        r == (bytes_view(*a) == bytes_view(*b)),
{
    match (a, b) {
        (Some(x), Some(y)) => same_bytes(x, y),
        (None, None) => true,
        _ => false,
    }
}

fn same_literal(a: &Literal, b: &Literal) -> (r: bool)
    ensures
        r == (a@ == b@),
{
    match (a, b) {
        (Literal::Nested(x), Literal::Nested(y)) => same_bytes(x, y),
        (Literal::Primitive(p), Literal::Primitive(q)) => match (p, q) {
            (PrimitiveLiteral::Boolean(x), PrimitiveLiteral::Boolean(y)) => *x == *y,
            (PrimitiveLiteral::Int(x), PrimitiveLiteral::Int(y)) => *x == *y,
            (PrimitiveLiteral::Long(x), PrimitiveLiteral::Long(y)) => *x == *y,
            (PrimitiveLiteral::Text(x), PrimitiveLiteral::Text(y)) => same_text(
                x.as_str(),
                y.as_str(),
            ),
            (PrimitiveLiteral::Binary(x), PrimitiveLiteral::Binary(y)) => same_bytes(x, y),
            (PrimitiveLiteral::Other(x), PrimitiveLiteral::Other(y)) => same_optional_bytes(x, y),
            _ => false,
        },
        _ => false,
    }
}

/// Whether two partition tuples are the same.
pub fn same_partition(a: &Struct, b: &Struct) -> (r: bool)
    ensures
        r == (a@ == b@),
{
    if a.fields.len() != b.fields.len() {
        assert(a@.len() != b@.len());
        return false;
    }
    let mut i: usize = 0;
    while i < a.fields.len()
        invariant
            i <= a.fields@.len(),
            a.fields@.len() == b.fields@.len(),
            forall|k: int| 0 <= k < i ==> a@[k] == b@[k],
        decreases a.fields@.len() - i,
    {
        let same = match (&a.fields[i], &b.fields[i]) {
            (Some(x), Some(y)) => same_literal(x, y),
            (None, None) => true,
            _ => false,
        };
        if !same {
            assert(a@[i as int] != b@[i as int]);
            return false;
        }
        i = i + 1;
    }
    assert(a@ =~= b@);
    true
}

/// The `n` lowest bytes of `x`, the lowest first.
pub open spec fn le_bytes(x: nat, n: nat) -> Seq<u8>
    decreases n,
{
    if n == 0 {
        Seq::empty()
    } else {
        seq![(x % 256) as u8] + le_bytes(x / 256, (n - 1) as nat)
    }
}

/// The number whose bytes are `s`, the lowest first.
pub open spec fn le_value(s: Seq<u8>) -> nat
    decreases s.len(),
{
    if s.len() == 0 {
        0
    } else {
        s[0] as nat + 256 * le_value(s.skip(1))
    }
}

/// 256 to the power of `n`.
pub open spec fn pow256(n: nat) -> nat
    decreases n,
{
    if n == 0 {
        1
    } else {
        256 * pow256((n - 1) as nat)
    }
}

/// The number below `2 * half` that has the bits of `i` in two's complement, for `i` from `-half`
/// to below `half`.
pub open spec fn to_unsigned(i: int, half: int) -> nat {
    if i < 0 {
        (i + 2 * half) as nat
    } else {
        i as nat
    }
}

/// The number from `-half` to below `half` whose bits in two's complement are those of `u`.
pub open spec fn to_signed(u: nat, half: int) -> int {
    if u >= half {
        u - 2 * half
    } else {
        u as int
    }
}

/// Reading the bytes of a number gives back the number.
pub proof fn lemma_le_value_of_le_bytes(x: nat, n: nat)
    requires
        x < pow256(n),
    ensures
        le_bytes(x, n).len() == n,
        le_value(le_bytes(x, n)) == x,
    decreases n,
{
    if n > 0 {
        let rest = le_bytes(x / 256, (n - 1) as nat);
        lemma_le_value_of_le_bytes(x / 256, (n - 1) as nat);
        assert(le_bytes(x, n).skip(1) =~= rest);
    }
}

/// Bytes stand for a number below the power of their count.
pub proof fn lemma_le_value_bound(s: Seq<u8>)
    ensures
        le_value(s) < pow256(s.len()),
    decreases s.len(),
{
    if s.len() > 0 {
        lemma_le_value_bound(s.skip(1));
    }
}

/// The number whose bytes are the first `n` of `b`, the lowest first.
fn le_value_of(b: &[u8], n: usize) -> (r: u64)
    requires
        n <= b@.len(),
        n <= 8,
    ensures
        r == le_value(b@.take(n as int)),
        r < pow256(n as nat),
{
    let mut v: u64 = 0;
    let mut i: usize = n;
    assert(b@.subrange(n as int, n as int) =~= Seq::<u8>::empty());
    while i > 0
        invariant
            i <= n <= b@.len(),
            n <= 8,
            v == le_value(b@.subrange(i as int, n as int)),
        decreases i,
    {
        i = i - 1;
        proof {
            let s = b@.subrange(i as int, n as int);
            assert(s.skip(1) =~= b@.subrange(i + 1, n as int));
            lemma_le_value_bound(s);
            reveal_with_fuel(pow256, 9);
            assert(pow256(s.len()) <= pow256(8));
            assert(pow256(8) == 0x1_0000_0000_0000_0000);
            assert(s[0] == b@[i as int]);
        }
        v = v * 256 + b[i] as u64;
    }
    proof {
        assert(b@.subrange(0, n as int) =~= b@.take(n as int));
        lemma_le_value_bound(b@.take(n as int));
    }
    v
}

/// The signed 32-bit number that the first four bytes of `b` hold, the lowest first.
pub open spec fn le_i32_spec(b: Seq<u8>) -> Option<i64> {
    if b.len() >= 4 {
        Some(to_signed(le_value(b.take(4)), 0x8000_0000) as i64)
    } else {
        None
    }
}

/// The signed 64-bit number that the first eight bytes of `b` hold, the lowest first.
pub open spec fn le_i64_spec(b: Seq<u8>) -> Option<i64> {
    if b.len() >= 8 {
        Some(to_signed(le_value(b.take(8)), 0x8000_0000_0000_0000) as i64)
    } else {
        None
    }
}

/// Reads a 32-bit number off the front of a bound.
pub fn le_i32(b: &[u8]) -> (r: Option<i64>)
    ensures
        r == le_i32_spec(b@),
        r is Some ==> -0x8000_0000 <= r->0 < 0x8000_0000,
{
    if b.len() >= 4 {
        let u: u64 = le_value_of(b, 4);
        proof {
            reveal_with_fuel(pow256, 5);
        }
        if u >= 0x8000_0000 {
            Some(u as i64 - 0x1_0000_0000)
        } else {
            Some(u as i64)
        }
    } else {
        None
    }
}

/// Reads a 64-bit number off the front of a bound.
pub fn le_i64(b: &[u8]) -> (r: Option<i64>)
    ensures
        r == le_i64_spec(b@),
{
    if b.len() >= 8 {
        let u: u64 = le_value_of(b, 8);
        if u >= 0x8000_0000_0000_0000 {
            Some((u as i128 - 0x1_0000_0000_0000_0000) as i64)
        } else {
            Some(u as i64)
        }
    } else {
        None
    }
}

/// The bytes that stand for `p` in a partition summary; `None` where it has none.
pub open spec fn bound_bytes(p: PrimitiveLiteral) -> Option<Seq<u8>> {
    match p {
        PrimitiveLiteral::Boolean(b) => Some(
            seq![if b {
                1u8
            } else {
                0u8
            }],
        ),
        PrimitiveLiteral::Int(i) => Some(le_bytes(to_unsigned(i as int, 0x8000_0000), 4)),
        PrimitiveLiteral::Long(i) => Some(le_bytes(to_unsigned(i as int, 0x8000_0000_0000_0000), 8)),
        PrimitiveLiteral::Text(s) => Some(encode_utf8(s@)),
        PrimitiveLiteral::Binary(b) => Some(b@),
        PrimitiveLiteral::Other(b) => bytes_view(b),
    }
}

fn le_bytes_of(x: u64, n: usize) -> (r: Vec<u8>)
    ensures
        r@ == le_bytes(x as nat, n as nat),
{
    let mut r: Vec<u8> = Vec::new();
    let mut rest: u64 = x;
    let mut i: usize = 0;
    while i < n
        invariant
            i <= n,
            r@ + le_bytes(rest as nat, (n - i) as nat) == le_bytes(x as nat, n as nat),
        decreases n - i,
    {
        let ghost before = r@;
        let ghost tail = le_bytes((rest / 256) as nat, (n - i - 1) as nat);
        let b: u8 = (rest % 256) as u8;
        r.push(b);
        assert(before + (seq![b] + tail) =~= r@ + tail);
        rest = rest / 256;
        i = i + 1;
    }
    assert(r@ + Seq::<u8>::empty() =~= r@);
    r
}

/// Encodes `p` as a bound.
pub fn bound_bytes_of(p: &PrimitiveLiteral) -> (r: Option<Vec<u8>>)
    ensures
        bytes_view(r) == bound_bytes(*p),
{
    match p {
        PrimitiveLiteral::Boolean(b) => {
            let mut v: Vec<u8> = Vec::new();
            v.push(if *b { 1 } else { 0 });
            assert(v@ =~= bound_bytes(*p)->0);
            Some(v)
        },
        PrimitiveLiteral::Int(i) => {
            let u: u64 = if *i < 0 {
                (*i as i64 + 0x1_0000_0000) as u64
            } else {
                *i as u64
            };
            Some(le_bytes_of(u, 4))
        },
        PrimitiveLiteral::Long(i) => {
            let u: u64 = if *i < 0 {
                (*i as i128 + 0x1_0000_0000_0000_0000) as u64
            } else {
                *i as u64
            };
            Some(le_bytes_of(u, 8))
        },
        PrimitiveLiteral::Text(s) => Some(copy_bytes(s.as_str().as_bytes())),
        PrimitiveLiteral::Binary(b) => Some(copy_bytes(b)),
        PrimitiveLiteral::Other(o) => match o {
            Some(b) => Some(copy_bytes(b)),
            None => None,
        },
    }
}

/// A copy of `b`.
pub fn copy_bytes(b: &[u8]) -> (r: Vec<u8>)
    ensures
        r@ == b@,
{
    let mut r: Vec<u8> = Vec::with_capacity(b.len());
    let mut i: usize = 0;
    while i < b.len()
        invariant
            i <= b@.len(),
            r@ == b@.take(i as int),
        decreases b@.len() - i,
    {
        r.push(b[i]);
        assert(b@.take(i + 1) =~= b@.take(i as int).push(b@[i as int]));
        i = i + 1;
    }
    assert(b@.take(i as int) =~= b@);
    r
}

/// A 32-bit bound reads back as the number it was written from.
pub proof fn law_int_bound_reads_back(i: i32)
    ensures
        le_i32_spec(bound_bytes(PrimitiveLiteral::Int(i))->0) == Some(i as i64),
{
    reveal_with_fuel(pow256, 5);
    let u = to_unsigned(i as int, 0x8000_0000);
    lemma_le_value_of_le_bytes(u, 4);
    assert(le_bytes(u, 4).take(4) =~= le_bytes(u, 4));
}

/// A 64-bit bound reads back as the number it was written from.
pub proof fn law_long_bound_reads_back(i: i64)
    ensures
        le_i64_spec(bound_bytes(PrimitiveLiteral::Long(i))->0) == Some(i),
{
    reveal_with_fuel(pow256, 9);
    let u = to_unsigned(i as int, 0x8000_0000_0000_0000);
    lemma_le_value_of_le_bytes(u, 8);
    assert(le_bytes(u, 8).take(8) =~= le_bytes(u, 8));
}

/// The microseconds in an hour.
pub const HOUR_MICROS: i64 = 3_600_000_000;

/// The microseconds in a day.
pub const DAY_MICROS: i64 = 86_400_000_000;

/// The microsecond at which the bucket `ordinal` of `width` microseconds, counted from the epoch,
/// ends; `None` past the last representable microsecond.
pub open spec fn bucket_end(ordinal: Option<i64>, width: i64) -> Option<i64> {
    match ordinal {
        Some(v) => {
            let end = (v + 1) * width;
            if i64::MIN <= end <= i64::MAX {
                Some(end as i64)
            } else {
                None
            }
        },
        None => None,
    }
}

/// The microsecond that no event exceeds in a partition whose upper bound is `bytes`: the end of
/// its hour or day, or the bound itself where the column is taken as it is. `None` for a bound
/// too short, and for transforms that do not map to a time range.
pub open spec fn upper_micros(transform: Transform, bytes: Seq<u8>) -> Option<i64> {
    match transform {
        Transform::Hour => bucket_end(le_i32_spec(bytes), HOUR_MICROS),
        Transform::Day => bucket_end(le_i32_spec(bytes), DAY_MICROS),
        Transform::Identity => le_i64_spec(bytes),
        _ => None,
    }
}

fn bucket_end_of(ordinal: Option<i64>, width: i64) -> (r: Option<i64>)
    requires
        ordinal is Some ==> -0x8000_0000 <= ordinal->0 < 0x8000_0000,
        0 < width <= DAY_MICROS,
    ensures
        r == bucket_end(ordinal, width),
{
    match ordinal {
        Some(v) => {
            assert(-0x8000_0000 * DAY_MICROS <= (v + 1) * width <= 0x8000_0000 * DAY_MICROS)
                by (nonlinear_arith)
                requires
                    -0x8000_0000 <= v < 0x8000_0000,
                    0 < width <= DAY_MICROS,
            ;
            let end: i128 = (v as i128 + 1) * (width as i128);
            if -0x8000_0000_0000_0000i128 <= end && end <= 0x7FFF_FFFF_FFFF_FFFFi128 {
                Some(end as i64)
            } else {
                None
            }
        },
        None => None,
    }
}

/// The microsecond that no event exceeds in a partition whose upper bound is `bytes`.
pub fn transform_upper_micros(transform: &Transform, bytes: &[u8]) -> (r: Option<i64>)
    ensures
        r == upper_micros(*transform, bytes@),
{
    match transform {
        Transform::Hour => bucket_end_of(le_i32(bytes), HOUR_MICROS),
        Transform::Day => bucket_end_of(le_i32(bytes), DAY_MICROS),
        Transform::Identity => le_i64(bytes),
        _ => None,
    }
}

/// A number is read from the first four bytes, the lowest first, the highest bit being its sign;
/// from fewer bytes none is read.
pub proof fn law_int_is_read_lowest_byte_first(b: Seq<u8>)
    ensures
        b.len() < 4 ==> le_i32_spec(b) is None,
        b.len() >= 4 ==> le_i32_spec(b) is Some && le_i32_spec(b)->0 == b[0] + 0x100 * b[1] + 0x1_0000
            * b[2] + 0x100_0000 * b[3] - (if b[3] >= 128 {
            0x1_0000_0000int
        } else {
            0
        }),
{
    if b.len() >= 4 {
        reveal_with_fuel(le_value, 5);
        let s = b.take(4);
        assert(s.skip(1).skip(1).skip(1).skip(1).len() == 0);
    }
}

/// A number is read from the first eight bytes, the lowest first, the highest bit being its sign;
/// from fewer bytes none is read.
pub proof fn law_long_is_read_lowest_byte_first(b: Seq<u8>)
    ensures
        b.len() < 8 ==> le_i64_spec(b) is None,
        b.len() >= 8 ==> le_i64_spec(b) is Some && le_i64_spec(b)->0 == b[0] + 0x100 * b[1] + 0x1_0000
            * b[2] + 0x100_0000 * b[3] + 0x1_0000_0000 * b[4] + 0x100_0000_0000 * b[5]
            + 0x1_0000_0000_0000 * b[6] + 0x100_0000_0000_0000 * b[7] - (if b[7] >= 128 {
            0x1_0000_0000_0000_0000int
        } else {
            0
        }),
{
    if b.len() >= 8 {
        reveal_with_fuel(le_value, 9);
        let s = b.take(8);
        let low = s.skip(1).skip(1).skip(1).skip(1);
        assert(low.skip(1).skip(1).skip(1).skip(1).len() == 0);
    }
}

/// The time of an hour or day bucket bounds it: a moment of the bucket is before it, by at most the
/// bucket's width, and the time is the first moment of the next bucket. An identity bound is the
/// time itself, and no other transform gives a time.
pub proof fn law_bucket_time_bounds_its_moments(transform: Transform, bytes: Seq<u8>, moment: i64)
    ensures
        transform is Hour && le_i32_spec(bytes) == Some((moment as int / 3_600_000_000) as i64) ==> {
            let end = upper_micros(transform, bytes);
            end is Some && moment < end->0 <= moment + 3_600_000_000 && end->0 as int
                % 3_600_000_000 == 0
        },
        transform is Day && le_i32_spec(bytes) == Some((moment as int / 86_400_000_000) as i64) ==> {
            let end = upper_micros(transform, bytes);
            match end {
                Some(t) => moment < t <= moment + 86_400_000_000 && t as int % 86_400_000_000 == 0,
                None => moment + 86_400_000_000 > i64::MAX,
            }
        },
        transform is Identity ==> upper_micros(transform, bytes) == le_i64_spec(bytes),
        !(transform is Hour || transform is Day || transform is Identity) ==> upper_micros(
            transform,
            bytes,
        ) is None,
        (transform is Hour || transform is Day) && bytes.len() < 4 ==> upper_micros(
            transform,
            bytes,
        ) is None,
{
    if transform is Hour && le_i32_spec(bytes) == Some((moment as int / 3_600_000_000) as i64) {
        law_int_is_read_lowest_byte_first(bytes);
        let v = moment as int / 3_600_000_000;
        assert((v + 1) * HOUR_MICROS == 3_600_000_000 * v + 3_600_000_000);
    }
    if transform is Day && le_i32_spec(bytes) == Some((moment as int / 86_400_000_000) as i64) {
        let v = moment as int / 86_400_000_000;
        assert((v + 1) * DAY_MICROS == 86_400_000_000 * v + 86_400_000_000);
    }
}

/// Two literals of a kind have one bound only where they are equal, and text and bytes stand in a
/// bound as they are.
pub proof fn law_bounds_tell_values_apart(p: PrimitiveLiteral, q: PrimitiveLiteral)
    ensures
        p is Boolean && q is Boolean && bound_bytes(p) == bound_bytes(q) ==> p == q,
        p is Int && q is Int && bound_bytes(p) == bound_bytes(q) ==> p == q,
        p is Long && q is Long && bound_bytes(p) == bound_bytes(q) ==> p == q,
        p is Boolean ==> bound_bytes(p) is Some && bound_bytes(p)->0.len() == 1,
        p is Int ==> bound_bytes(p) is Some && bound_bytes(p)->0.len() == 4,
        p is Long ==> bound_bytes(p) is Some && bound_bytes(p)->0.len() == 8,
        p matches PrimitiveLiteral::Text(s) ==> bound_bytes(p) == Some(encode_utf8(s@)),
        p matches PrimitiveLiteral::Binary(b) ==> bound_bytes(p) == Some(b@),
        p matches PrimitiveLiteral::Other(Some(b)) ==> bound_bytes(p) == Some(b@),
        p matches PrimitiveLiteral::Other(None) ==> bound_bytes(p) is None,
{
    reveal_with_fuel(pow256, 9);
    if let PrimitiveLiteral::Boolean(x) = p {
        if let PrimitiveLiteral::Boolean(y) = q {
            assert(bound_bytes(p)->0[0] == if x { 1u8 } else { 0u8 });
            assert(bound_bytes(q)->0[0] == if y { 1u8 } else { 0u8 });
        }
    }
    if let PrimitiveLiteral::Int(x) = p {
        law_int_bound_reads_back(x);
        lemma_le_value_of_le_bytes(to_unsigned(x as int, 0x8000_0000), 4);
        if let PrimitiveLiteral::Int(y) = q {
            law_int_bound_reads_back(y);
        }
    }
    if let PrimitiveLiteral::Long(x) = p {
        law_long_bound_reads_back(x);
        lemma_le_value_of_le_bytes(to_unsigned(x as int, 0x8000_0000_0000_0000), 8);
        if let PrimitiveLiteral::Long(y) = q {
            law_long_bound_reads_back(y);
        }
    }
}

/// Partitions are told by their values: two that are the same have as many fields, are null in the
/// same ones, and have in each other one a value of the same kind and content.
pub proof fn law_partitions_are_told_by_their_values(a: Struct, b: Struct, i: int)
    requires
        a@ == b@,
    ensures
        a.fields@.len() == b.fields@.len(),
        0 <= i < a.fields@.len() ==> {
            &&& a.fields@[i] is None <==> b.fields@[i] is None
            &&& a.fields@[i] matches Some(Literal::Primitive(PrimitiveLiteral::Boolean(x)))
                ==> b.fields@[i] == Some(Literal::Primitive(PrimitiveLiteral::Boolean(x)))
            &&& a.fields@[i] matches Some(Literal::Primitive(PrimitiveLiteral::Int(x)))
                ==> b.fields@[i] == Some(Literal::Primitive(PrimitiveLiteral::Int(x)))
            &&& a.fields@[i] matches Some(Literal::Primitive(PrimitiveLiteral::Long(x)))
                ==> b.fields@[i] == Some(Literal::Primitive(PrimitiveLiteral::Long(x)))
            &&& a.fields@[i] matches Some(Literal::Primitive(PrimitiveLiteral::Text(x))) ==> (
            b.fields@[i] matches Some(Literal::Primitive(PrimitiveLiteral::Text(y))) && x@ == y@)
            &&& a.fields@[i] matches Some(Literal::Primitive(PrimitiveLiteral::Binary(x))) ==> (
            b.fields@[i] matches Some(Literal::Primitive(PrimitiveLiteral::Binary(y))) && x@ == y@)
            &&& a.fields@[i] matches Some(Literal::Primitive(PrimitiveLiteral::Other(x))) ==> (
            b.fields@[i] matches Some(Literal::Primitive(PrimitiveLiteral::Other(y))) && (x is None
                <==> y is None) && (x is Some ==> x->0@ == y->0@))
            &&& a.fields@[i] matches Some(Literal::Nested(x)) ==> (b.fields@[i] matches Some(
                Literal::Nested(y),
            ) && x@ == y@)
        },
{
    assert(a@.len() == a.fields@.len());
    assert(b@.len() == b.fields@.len());
    if 0 <= i < a.fields@.len() {
        assert(a@[i] == field_view(a.fields@[i]));
        assert(b@[i] == field_view(b.fields@[i]));
    }
}

} // verus!
