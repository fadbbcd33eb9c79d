//! Which data files the cold tier may list, answered from one small object.
//!
//! A tombstone may be retired only when no leaf of the cold tier still lists its file: otherwise
//! retiring it brings deleted data back. The question is put to a Bloom filter over the paths of
//! the cold tier. It has no false negatives, so "absent" can be relied on, and that is the only
//! answer that lets a tombstone go. The filter is stored with the number and a digest of the
//! leaves it was built from; where they differ from the leaves at hand, nothing is known and every
//! retirement is vetoed.

use vstd::prelude::*;
use vstd::string::StringExecFns;
use vstd::utf8::encode_utf8;

use crate::fraction::Fraction;
use crate::manifest::{ManifestEntry, ManifestFile};
use crate::partition::copy_bytes;
use crate::text::texts;

verus! {

/// What is appended to the path of a bucket index to name its filter.
pub open spec fn sidecar_path(bucket_index_path: Seq<char>) -> Seq<char> {
    bucket_index_path + ".cold-paths.json"@
}

pub const COLD_PATHS_FORMAT_V1: u32 = 1;

/// The least number of bits of a filter.
pub const MIN_BITS: u64 = 1_024;

/// The greatest number of bits of a filter. Past it the filter says "maybe" more often, which
/// retires less and is never unsafe.
pub const MAX_BITS: u64 = 134_217_728;

pub const FNV_OFFSET: u64 = 0xcbf2_9ce4_8422_2325;

pub const FNV_PRIME: u64 = 0x0000_0100_0000_01b3;

/// The basis of the second hash.
pub const FNV_OFFSET_ALT: u64 = 0x9e37_79b9_7f4a_7c15;

/// FNV-1a over `data`, from `basis`.
pub open spec fn fnv1a_spec(data: Seq<u8>, basis: u64) -> u64
    decreases data.len(),
{
    if data.len() == 0 {
        basis
    } else {
        (fnv1a_spec(data.drop_last(), basis) ^ (data.last() as u64)).wrapping_mul(FNV_PRIME)
    }
}

/// FNV-1a over `data`, from `basis`: the same on every machine and in every build.
pub fn fnv1a(data: &[u8], basis: u64) -> (h: u64)
    ensures
        h == fnv1a_spec(data@, basis),
{
    let mut h: u64 = basis;
    let mut i: usize = 0;
    while i < data.len()
        invariant
            i <= data@.len(),
            h == fnv1a_spec(data@.take(i as int), basis),
        decreases data@.len() - i,
    {
        h = (h ^ (data[i] as u64)).wrapping_mul(FNV_PRIME);
        assert(data@.take(i + 1).drop_last() =~= data@.take(i as int));
        i = i + 1;
    }
    assert(data@.take(i as int) =~= data@);
    h
}

/// The bits per path at a false-positive rate of one in a hundred, `-ln(0.01) / ln(2)^2`, in
/// units of 10^-15.
pub const BITS_PER_PATH: u128 = 9_585_058_377_367_439;

pub const BITS_PER_PATH_UNIT: u128 = 1_000_000_000_000_000;

/// The natural logarithm of two, in units of 10^-18.
pub const LN2: u128 = 693_147_180_559_945_309;

pub const LN2_UNIT: u128 = 1_000_000_000_000_000_000;

/// `x` kept between `lo` and `hi`.
pub open spec fn clamped(x: int, lo: int, hi: int) -> int {
    if x < lo {
        lo
    } else if x > hi {
        hi
    } else {
        x
    }
}

/// How many paths a filter is sized for: at least one.
pub open spec fn sized_for(expected: nat) -> nat {
    if expected == 0 {
        1
    } else {
        expected
    }
}

/// How many bits a filter for `expected` paths has: the optimum, rounded up.
pub open spec fn optimal_bits(expected: nat) -> int {
    clamped(
        (sized_for(expected) * BITS_PER_PATH + BITS_PER_PATH_UNIT - 1) / (BITS_PER_PATH_UNIT as int),
        MIN_BITS as int,
        MAX_BITS as int,
    )
}

/// How many bits of a filter each of `expected` paths sets: the optimum for the filter's size,
/// rounded to the nearest.
pub open spec fn optimal_hashes(expected: nat) -> int {
    let n = sized_for(expected);
    clamped((2 * optimal_bits(expected) * LN2 + n * LN2_UNIT) / (2 * n * LN2_UNIT), 1, 16)
}

/// The bit that the hash number `i` of `path` picks in a filter of `n_bits` bits.
pub open spec fn position(path: Seq<char>, i: int, n_bits: u64) -> int {
    let data = encode_utf8(path);
    let h1 = fnv1a_spec(data, FNV_OFFSET);
    let h2 = fnv1a_spec(data, FNV_OFFSET_ALT) | 1;
    (h1.wrapping_add((i as u64).wrapping_mul(h2)) % n_bits) as int
}

/// Whether `path` sets bit `pos` in a filter of `n_bits` bits and `n_hashes` hashes.
pub open spec fn marks(path: Seq<char>, n_bits: u64, n_hashes: u32, pos: int) -> bool {
    exists|i: int| 0 <= i < n_hashes && #[trigger] position(path, i, n_bits) == pos
}

/// Bit `pos` of a bit string, the lowest of a byte first.
pub open spec fn bit_of(bits: Seq<u8>, pos: int) -> bool {
    (bits[pos / 8] >> ((pos % 8) as u8)) & 1 == 1
}

/// A Bloom filter over the data-file paths of the cold tier.
#[derive(Clone, Debug, PartialEq, Eq)]
pub struct ColdPathFilter {
    bits: Vec<u8>,
    n_bits: u64,
    n_hashes: u32,
    n_items: u64,
}

impl ColdPathFilter {
    /// Whether the bit string has the length that the number of bits asks for.
    pub closed spec fn wf(&self) -> bool {
        self.n_bits > 0 && self.bits@.len() == (self.n_bits + 7) / 8
    }

    /// The number of bits.
    pub closed spec fn bit_count(&self) -> u64 {
        self.n_bits
    }

    /// The number of hashes.
    pub closed spec fn hash_count(&self) -> u32 {
        self.n_hashes
    }

    /// The number of insertions.
    pub closed spec fn item_count(&self) -> u64 {
        self.n_items
    }

    /// The bit string.
    pub closed spec fn bit_string(&self) -> Seq<u8> {
        self.bits@
    }

    /// Bit `pos`.
    pub open spec fn bit(&self, pos: int) -> bool {
        bit_of(self.bit_string(), pos)
    }

    /// Whether the filter answers "maybe" for `path`.
    pub open spec fn may_hold(&self, path: Seq<char>) -> bool {
        forall|i: int|
            0 <= i < self.hash_count() ==> self.bit(#[trigger] position(path, i, self.bit_count()))
    }

    /// Whether the filter is what inserting `paths` into an empty one gives.
    pub open spec fn is_filter_of(&self, paths: Seq<Seq<char>>) -> bool {
        &&& self.item_count() == paths.len()
        &&& forall|pos: int|
            0 <= pos < self.bit_count() ==> (#[trigger] self.bit(pos) <==> exists|k: int|
                0 <= k < paths.len() && marks(
                    #[trigger] paths[k],
                    self.bit_count(),
                    self.hash_count(),
                    pos,
                ))
    }

    /// An empty filter of the best size for `expected_items` paths.
    pub fn with_capacity(expected_items: usize) -> (r: Self)
        ensures
            r.wf(),
            r.bit_count() == optimal_bits(expected_items as nat),
            r.hash_count() == optimal_hashes(expected_items as nat),
            r.item_count() == 0,
            forall|pos: int| 0 <= pos < r.bit_count() ==> !#[trigger] r.bit(pos),
    {
        let n: u128 = if expected_items == 0 {
            1
        } else {
            expected_items as u128
        };
        assert(1 <= n <= 0xFFFF_FFFF_FFFF_FFFF);
        let raw: u128 = (n * BITS_PER_PATH + (BITS_PER_PATH_UNIT - 1)) / BITS_PER_PATH_UNIT;
        let n_bits: u64 = if raw < MIN_BITS as u128 {
            MIN_BITS
        } else if raw > MAX_BITS as u128 {
            MAX_BITS
        } else {
            raw as u64
        };
        let scaled: u128 = 2 * (n_bits as u128) * LN2;
        let unit: u128 = n * LN2_UNIT;
        assert(unit >= LN2_UNIT && unit <= 0xFFFF_FFFF_FFFF_FFFF * LN2_UNIT) by (nonlinear_arith)
            requires
                unit == n * LN2_UNIT,
                1 <= n <= 0xFFFF_FFFF_FFFF_FFFF,
        ;
        assert(2 * unit == 2 * n * LN2_UNIT) by (nonlinear_arith)
            requires
                unit == n * LN2_UNIT,
        ;
        let hashes: u128 = (scaled + unit) / (2 * unit);
        let n_hashes: u32 = if hashes < 1 {
            1
        } else if hashes > 16 {
            16
        } else {
            hashes as u32
        };
        let len: usize = ((n_bits + 7) / 8) as usize;
        let bits: Vec<u8> = vec![0u8; len];
        let r = ColdPathFilter { bits, n_bits, n_hashes, n_items: 0 };
        assert forall|pos: int| 0 <= pos < r.n_bits implies !#[trigger] r.bit(pos) by {
            let k = (pos % 8) as u8;
            assert((0u8 >> k) & 1 == 0) by (bit_vector);
        }
        r
    }

    fn position_of(&self, h1: u64, h2: u64, i: u32) -> (pos: u64)
        requires
            self.wf(),
        ensures
            pos == h1.wrapping_add((i as u64).wrapping_mul(h2)) % self.n_bits,
            pos < self.n_bits,
    {
        h1.wrapping_add((i as u64).wrapping_mul(h2)) % self.n_bits
    }

    /// Adds `path`.
    pub fn insert(&mut self, path: &str)
        requires
            old(self).wf(),
            old(self).item_count() < u64::MAX,
        ensures
            final(self).wf(),
            final(self).bit_count() == old(self).bit_count(),
            final(self).hash_count() == old(self).hash_count(),
            final(self).item_count() == old(self).item_count() + 1,
            forall|pos: int|
                0 <= pos < final(self).bit_count() ==> (#[trigger] final(self).bit(pos)
                    <==> old(self).bit(pos) || marks(
                    path@,
                    old(self).bit_count(),
                    old(self).hash_count(),
                    pos,
                )),
    {
        let data = path.as_bytes();
        let h1: u64 = fnv1a(data, FNV_OFFSET);
        let h2: u64 = fnv1a(data, FNV_OFFSET_ALT) | 1;
        let n: u32 = self.n_hashes;
        let mut i: u32 = 0;
        while i < n
            invariant
                i <= n,
                self.wf(),
                n == self.n_hashes,
                n == old(self).n_hashes,
                self.n_bits == old(self).n_bits,
                self.n_items == old(self).n_items,
                self.n_items < u64::MAX,
                h1 == fnv1a_spec(encode_utf8(path@), FNV_OFFSET),
                h2 == fnv1a_spec(encode_utf8(path@), FNV_OFFSET_ALT) | 1,
                forall|pos: int|
                    0 <= pos < self.n_bits ==> (#[trigger] self.bit(pos) <==> old(self).bit(pos)
                        || exists|k: int|
                        0 <= k < i && #[trigger] position(path@, k, self.n_bits) == pos),
            decreases n - i,
        {
            let ghost before = *self;
            let at: u64 = self.position_of(h1, h2, i);
            let len: usize = self.bits.len();
            assert(at / 8 < len);
            let byte: usize = (at / 8) as usize;
            let shift: u8 = (at % 8) as u8;
            let old_byte: u8 = self.bits[byte];
            let new_byte: u8 = old_byte | (1u8 << shift);
            self.bits.set(byte, new_byte);
            proof {
                assert(position(path@, i as int, self.n_bits) == at);
                assert forall|pos: int| 0 <= pos < self.n_bits implies (#[trigger] self.bit(pos)
                    <==> before.bit(pos) || pos == at) by {
                    let k = (pos % 8) as u8;
                    assert(k < 8 && shift < 8);
                    lemma_set_bit(old_byte, shift, k);
                    if pos / 8 != byte {
                        assert(self.bits@[pos / 8] == before.bits@[pos / 8]);
                    }
                }
                assert forall|pos: int| 0 <= pos < self.n_bits implies (#[trigger] self.bit(pos)
                    <==> old(self).bit(pos) || exists|k: int|
                    0 <= k < i + 1 && #[trigger] position(path@, k, self.n_bits) == pos) by {
                    assert(before.bit(pos) <==> old(self).bit(pos) || exists|k: int|
                        0 <= k < i && #[trigger] position(path@, k, self.n_bits) == pos);
                    if exists|k: int|
                        0 <= k < i + 1 && #[trigger] position(path@, k, self.n_bits) == pos {
                        let k = choose|k: int|
                            0 <= k < i + 1 && #[trigger] position(path@, k, self.n_bits) == pos;
                        if k < i {
                            assert(position(path@, k, self.n_bits) == pos);
                        } else {
                            assert(k == i as int);
                            assert(pos == at);
                        }
                    }
                }
            }
            i = i + 1;
        }
        let ghost filled = *self;
        self.n_items = self.n_items + 1;
        assert forall|pos: int| 0 <= pos < self.n_bits implies (#[trigger] self.bit(pos) <==> old(
            self,
        ).bit(pos) || marks(path@, old(self).n_bits, old(self).n_hashes, pos)) by {
            assert(self.bit(pos) == filled.bit(pos));
        }
    }

    /// `false` says that `path` was never inserted.
    pub fn maybe_contains(&self, path: &str) -> (r: bool)
        requires
            self.wf(),
        ensures
            r == self.may_hold(path@),
    {
        let data = path.as_bytes();
        let h1: u64 = fnv1a(data, FNV_OFFSET);
        let h2: u64 = fnv1a(data, FNV_OFFSET_ALT) | 1;
        let mut i: u32 = 0;
        while i < self.n_hashes
            invariant
                i <= self.n_hashes,
                self.wf(),
                h1 == fnv1a_spec(encode_utf8(path@), FNV_OFFSET),
                h2 == fnv1a_spec(encode_utf8(path@), FNV_OFFSET_ALT) | 1,
                forall|k: int| 0 <= k < i ==> self.bit(#[trigger] position(path@, k, self.n_bits)),
            decreases self.n_hashes - i,
        {
            let at: u64 = self.position_of(h1, h2, i);
            let len: usize = self.bits.len();
            assert(at / 8 < len);
            let byte: usize = (at / 8) as usize;
            let shift: u8 = (at % 8) as u8;
            let b: u8 = self.bits[byte];
            proof {
                assert(position(path@, i as int, self.n_bits) == at);
                assert(shift < 8);
                lemma_test_bit(b, shift);
            }
            if b & (1u8 << shift) == 0 {
                assert(0 <= i as int && i < self.hash_count());
                assert(!self.bit(position(path@, i as int, self.bit_count())));
                return false;
            }
            i = i + 1;
        }
        true
    }

    /// How many bits the filter has.
    pub fn n_bits(&self) -> (r: u64)
        ensures
            r == self.bit_count(),
    {
        self.n_bits
    }

    /// How many bits a path sets.
    pub fn n_hashes(&self) -> (r: u32)
        ensures
            r == self.hash_count(),
    {
        self.n_hashes
    }

    /// How many paths were inserted.
    pub fn len(&self) -> (r: u64)
        ensures
            r == self.item_count(),
    {
        self.n_items
    }

    /// The size of the bit string.
    pub fn byte_len(&self) -> (r: usize)
        ensures
            r == self.bit_string().len(),
    {
        self.bits.len()
    }
}

proof fn lemma_set_bit(b: u8, shift: u8, k: u8)
    requires
        shift < 8,
        k < 8,
    ensures
        ((b | (1u8 << shift)) >> k) & 1 == 1 <==> (b >> k) & 1 == 1 || k == shift,
{
    assert(((b | (1u8 << shift)) >> k) & 1 == 1 <==> (b >> k) & 1 == 1 || k == shift)
        by (bit_vector)
        requires
            shift < 8,
            k < 8,
    ;
}

proof fn lemma_test_bit(b: u8, shift: u8)
    requires
        shift < 8,
    ensures
        b & (1u8 << shift) != 0 <==> (b >> shift) & 1 == 1,
{
    assert(b & (1u8 << shift) != 0 <==> (b >> shift) & 1 == 1) by (bit_vector)
        requires
            shift < 8,
    ;
}

/// A filter answers "maybe" for a path once it was inserted, and goes on doing so whatever is
/// inserted after it: it has no false negatives.
pub proof fn law_no_false_negatives(f: ColdPathFilter, paths: Seq<Seq<char>>, path: Seq<char>)
    requires
        f.wf(),
        f.is_filter_of(paths),
        paths.contains(path),
    ensures
        f.may_hold(path),
{
    let k = choose|k: int| 0 <= k < paths.len() && paths[k] == path;
    assert forall|i: int| 0 <= i < f.hash_count() implies f.bit(
        #[trigger] position(path, i, f.bit_count()),
    ) by {
        let pos = position(path, i, f.bit_count());
        assert(marks(paths[k], f.bit_count(), f.hash_count(), pos));
    }
}

/// A filter that nothing was inserted into says "absent" for every path.
pub proof fn law_empty_filter_holds_nothing(f: ColdPathFilter, path: Seq<char>)
    requires
        f.wf(),
        f.hash_count() > 0,
        f.is_filter_of(Seq::empty()),
    ensures
        !f.may_hold(path),
{
    let pos = position(path, 0, f.bit_count());
    assert(!f.bit(pos));
}

/// Inserting never turns a "maybe" into an "absent".
pub proof fn law_insert_is_monotone(
    before: ColdPathFilter,
    after: ColdPathFilter,
    inserted: Seq<char>,
    path: Seq<char>,
)
    requires
        before.wf(),
        after.bit_count() == before.bit_count(),
        after.hash_count() == before.hash_count(),
        forall|pos: int|
            0 <= pos < after.bit_count() ==> (#[trigger] after.bit(pos) <==> before.bit(pos)
                || marks(inserted, before.bit_count(), before.hash_count(), pos)),
        before.may_hold(path),
    ensures
        after.may_hold(path),
        after.may_hold(inserted),
{
    assert forall|i: int| 0 <= i < after.hash_count() implies after.bit(
        #[trigger] position(path, i, after.bit_count()),
    ) by {
        assert(before.bit(position(path, i, before.bit_count())));
    }
    assert forall|i: int| 0 <= i < after.hash_count() implies after.bit(
        #[trigger] position(inserted, i, after.bit_count()),
    ) by {
        let pos = position(inserted, i, after.bit_count());
        assert(marks(inserted, before.bit_count(), before.hash_count(), pos));
    }
}

/// The manifest paths of `leaves`.
pub open spec fn leaf_paths(leaves: Seq<ManifestFile>) -> Seq<Seq<char>> {
    leaves.map_values(|l: ManifestFile| l.manifest_path@)
}

/// The hash of a leaf's path.
pub open spec fn path_hash(path: Seq<char>) -> u64 {
    fnv1a_spec(encode_utf8(path), FNV_OFFSET)
}

/// The hashes of `paths`, folded by exclusive or.
pub open spec fn digest_of(paths: Seq<Seq<char>>) -> u64
    decreases paths.len(),
{
    if paths.len() == 0 {
        0
    } else {
        digest_of(paths.drop_last()) ^ path_hash(paths.last())
    }
}

/// A digest of a set of leaves that does not depend on their order.
pub fn coverage_digest(leaves: &[ManifestFile]) -> (r: u64)
    ensures
        r == digest_of(leaf_paths(leaves@)),
{
    let mut r: u64 = 0;
    let mut i: usize = 0;
    while i < leaves.len()
        invariant
            i <= leaves@.len(),
            r == digest_of(leaf_paths(leaves@).take(i as int)),
        decreases leaves@.len() - i,
    {
        r = r ^ fnv1a(leaves[i].manifest_path.as_str().as_bytes(), FNV_OFFSET);
        proof {
            let next = leaf_paths(leaves@).take(i + 1);
            assert(next.drop_last() =~= leaf_paths(leaves@).take(i as int));
        }
        i = i + 1;
    }
    assert(leaf_paths(leaves@).take(i as int) =~= leaf_paths(leaves@));
    r
}

/// The sum of the hashes of `paths`.
pub open spec fn hash_sum(paths: Seq<Seq<char>>) -> nat
    decreases paths.len(),
{
    if paths.len() == 0 {
        0
    } else {
        hash_sum(paths.drop_last()) + path_hash(paths.last()) as nat
    }
}

/// The sum of the hashes of `paths`, to 64 bits. A path that is listed twice counts twice, where it
/// would cancel itself in the digest.
pub open spec fn sum_of(paths: Seq<Seq<char>>) -> u64 {
    (hash_sum(paths) % 0x1_0000_0000_0000_0000) as u64
}

/// A sum over a set of leaves that does not depend on their order.
pub fn coverage_sum(leaves: &[ManifestFile]) -> (r: u64)
    ensures
        r == sum_of(leaf_paths(leaves@)),
{
    let mut r: u64 = 0;
    let mut i: usize = 0;
    while i < leaves.len()
        invariant
            i <= leaves@.len(),
            r == sum_of(leaf_paths(leaves@).take(i as int)),
        decreases leaves@.len() - i,
    {
        let h: u64 = fnv1a(leaves[i].manifest_path.as_str().as_bytes(), FNV_OFFSET);
        proof {
            let next = leaf_paths(leaves@).take(i + 1);
            assert(next.drop_last() =~= leaf_paths(leaves@).take(i as int));
            assert(next.last() == leaves@[i as int].manifest_path@);
        }
        r = r.wrapping_add(h);
        i = i + 1;
    }
    assert(leaf_paths(leaves@).take(i as int) =~= leaf_paths(leaves@));
    r
}

proof fn lemma_sum_without(paths: Seq<Seq<char>>, i: int)
    requires
        0 <= i < paths.len(),
    ensures
        hash_sum(paths) == hash_sum(paths.remove(i)) + path_hash(paths[i]) as nat,
    decreases paths.len(),
{
    if i == paths.len() - 1 {
        assert(paths.remove(i) =~= paths.drop_last());
    } else {
        lemma_sum_without(paths.drop_last(), i);
        assert(paths.remove(i).drop_last() =~= paths.drop_last().remove(i));
    }
}

proof fn lemma_digest_without(paths: Seq<Seq<char>>, i: int)
    requires
        0 <= i < paths.len(),
    ensures
        digest_of(paths) == digest_of(paths.remove(i)) ^ path_hash(paths[i]),
    decreases paths.len(),
{
    if i == paths.len() - 1 {
        assert(paths.remove(i) =~= paths.drop_last());
    } else {
        let shorter = paths.drop_last();
        lemma_digest_without(shorter, i);
        assert(paths.remove(i).drop_last() =~= shorter.remove(i));
        let a = digest_of(shorter.remove(i));
        let x = path_hash(paths[i]);
        let y = path_hash(paths.last());
        assert((a ^ x) ^ y == (a ^ y) ^ x) by (bit_vector);
    }
}

/// The digest and the sum of a set of leaves are the same in whatever order they stand.
pub proof fn law_digest_ignores_order(a: Seq<Seq<char>>, b: Seq<Seq<char>>)
    requires
        a.to_multiset() == b.to_multiset(),
    ensures
        digest_of(a) == digest_of(b),
        hash_sum(a) == hash_sum(b),
    decreases a.len(),
{
    broadcast use vstd::seq_lib::group_to_multiset_ensures;

    assert(a.to_multiset().len() == a.len());
    assert(b.to_multiset().len() == b.len());
    if a.len() > 0 {
        let x = a.last();
        assert(a.to_multiset().count(x) > 0) by {
            assert(a.contains(x));
        }
        assert(b.contains(x));
        let i = choose|i: int| 0 <= i < b.len() && b[i] == x;
        lemma_digest_without(b, i);
        lemma_sum_without(b, i);
        assert(a.drop_last() =~= a.remove(a.len() - 1));
        assert(a.remove(a.len() - 1).to_multiset() =~= a.to_multiset().remove(x));
        assert(b.remove(i).to_multiset() =~= b.to_multiset().remove(x));
        law_digest_ignores_order(a.drop_last(), b.remove(i));
    }
}

/// A stored filter, with the leaves it was built from.
#[derive(Clone, Debug, PartialEq, Eq)]
pub struct ColdPathsSidecar {
    pub format_version: u32,
    pub n_bits: u64,
    pub n_hashes: u32,
    pub n_items: u64,
    pub covered_leaf_count: u64,
    pub covered_leaf_digest: u64,
    /// The sum of the leaves' hashes. What was stored without one covers no leaves.
    pub covered_leaf_sum: Option<u64>,
    pub bits: Vec<u8>,
}

/// The path of the stored filter of a bucket index.
pub fn cold_paths_sidecar_path(bucket_index_path: &str) -> (r: String)
    ensures
        r@ == sidecar_path(bucket_index_path@),
{
    let mut r = bucket_index_path.to_owned();
    r.append(".cold-paths.json");
    r
}

/// Whether a stored filter is whole and was built from leaves like `leaves`.
pub open spec fn covers(sidecar: ColdPathsSidecar, leaves: Seq<ManifestFile>) -> bool {
    &&& sidecar.format_version == COLD_PATHS_FORMAT_V1
    &&& sidecar.covered_leaf_count == leaves.len()
    &&& sidecar.covered_leaf_digest == digest_of(leaf_paths(leaves))
    &&& sidecar.covered_leaf_sum == Some(sum_of(leaf_paths(leaves)))
    &&& sidecar.n_bits != 0
    &&& sidecar.bits@.len() == (sidecar.n_bits + 7) / 8
}

/// Whether `filter` is the one that `sidecar` stores.
pub open spec fn stores(sidecar: ColdPathsSidecar, filter: ColdPathFilter) -> bool {
    &&& sidecar.n_bits == filter.bit_count()
    &&& sidecar.n_hashes == filter.hash_count()
    &&& sidecar.n_items == filter.item_count()
    &&& sidecar.bits@ == filter.bit_string()
}

/// The filter of `sidecar`, if it is whole and covers `current_leaves`; `None` otherwise, and then
/// no tombstone may be retired on the ground that the cold tier lacks its file.
pub fn accept_cold_paths_sidecar(sidecar: ColdPathsSidecar, current_leaves: &[ManifestFile]) -> (r:
    Option<ColdPathFilter>)
    ensures
        r is Some <==> covers(sidecar, current_leaves@),
        r is Some ==> r->0.wf() && stores(sidecar, r->0),
{
    if sidecar.format_version != COLD_PATHS_FORMAT_V1 {
        return None;
    }
    if sidecar.covered_leaf_count != current_leaves.len() as u64 || sidecar.covered_leaf_digest
        != coverage_digest(current_leaves) {
        return None;
    }
    match sidecar.covered_leaf_sum {
        Some(sum) => {
            if sum != coverage_sum(current_leaves) {
                return None;
            }
        },
        None => {
            return None;
        },
    }
    if sidecar.n_bits == 0 {
        return None;
    }
    let needed: u64 = (sidecar.n_bits - 1) / 8 + 1;
    if sidecar.bits.len() as u64 != needed {
        return None;
    }
    Some(
        ColdPathFilter {
            bits: sidecar.bits,
            n_bits: sidecar.n_bits,
            n_hashes: sidecar.n_hashes,
            n_items: sidecar.n_items,
        },
    )
}

/// What is stored for `filter`, built from `covered_leaves`.
pub fn cold_paths_sidecar(filter: &ColdPathFilter, covered_leaves: &[ManifestFile]) -> (r:
    ColdPathsSidecar)
    requires
        filter.wf(),
    ensures
        stores(r, *filter),
        covers(r, covered_leaves@),
{
    ColdPathsSidecar {
        format_version: COLD_PATHS_FORMAT_V1,
        n_bits: filter.n_bits,
        n_hashes: filter.n_hashes,
        n_items: filter.n_items,
        covered_leaf_count: covered_leaves.len() as u64,
        covered_leaf_digest: coverage_digest(covered_leaves),
        covered_leaf_sum: Some(coverage_sum(covered_leaves)),
        bits: copy_bytes(&filter.bits),
    }
}

/// A stored filter is accepted for its own leaves in any order, and refused for more or fewer.
pub proof fn law_sidecar_follows_its_leaves(
    sidecar: ColdPathsSidecar,
    built_from: Seq<ManifestFile>,
    current: Seq<ManifestFile>,
)
    requires
        covers(sidecar, built_from),
    ensures
        leaf_paths(current).to_multiset() == leaf_paths(built_from).to_multiset() ==> covers(
            sidecar,
            current,
        ),
        current.len() != built_from.len() ==> !covers(sidecar, current),
        digest_of(leaf_paths(current)) != digest_of(leaf_paths(built_from)) ==> !covers(
            sidecar,
            current,
        ),
        sum_of(leaf_paths(current)) != sum_of(leaf_paths(built_from)) ==> !covers(
            sidecar,
            current,
        ),
{
    broadcast use vstd::seq_lib::group_to_multiset_ensures;

    if leaf_paths(current).to_multiset() == leaf_paths(built_from).to_multiset() {
        law_digest_ignores_order(leaf_paths(current), leaf_paths(built_from));
        assert(leaf_paths(current).to_multiset().len() == leaf_paths(current).len());
        assert(leaf_paths(built_from).to_multiset().len() == leaf_paths(built_from).len());
    }
}

/// Repeated leaves do not cancel: a filter of a leaf that is listed twice is refused for another
/// leaf that is listed twice, unless their hashes agree in all but the highest bit.
pub proof fn law_repeated_leaves_do_not_cancel(
    sidecar: ColdPathsSidecar,
    built_from: Seq<ManifestFile>,
    current: Seq<ManifestFile>,
    a: Seq<char>,
    b: Seq<char>,
)
    requires
        covers(sidecar, built_from),
        leaf_paths(built_from) == seq![a, a],
        leaf_paths(current) == seq![b, b],
        path_hash(a) % 0x8000_0000_0000_0000 != path_hash(b) % 0x8000_0000_0000_0000,
    ensures
        !covers(sidecar, current),
{
    reveal_with_fuel(hash_sum, 3);
    assert(seq![a, a].drop_last() =~= seq![a]);
    assert(seq![a].drop_last() =~= Seq::<Seq<char>>::empty());
    assert(seq![b, b].drop_last() =~= seq![b]);
    assert(seq![b].drop_last() =~= Seq::<Seq<char>>::empty());
    assert(hash_sum(seq![a, a]) == 2 * path_hash(a));
    assert(hash_sum(seq![b, b]) == 2 * path_hash(b));
}

/// The filter that is read back from storage answers as the one that was stored.
pub proof fn law_stored_filter_answers_alike(
    sidecar: ColdPathsSidecar,
    stored: ColdPathFilter,
    read_back: ColdPathFilter,
    path: Seq<char>,
)
    requires
        stores(sidecar, stored),
        stores(sidecar, read_back),
    ensures
        read_back.may_hold(path) <==> stored.may_hold(path),
        read_back.item_count() == stored.item_count(),
{
    assert(stored.bit_string() == read_back.bit_string());
}

/// What goes into a filter is found in it after it was stored and read back.
pub proof fn law_stored_paths_are_found(
    sidecar: ColdPathsSidecar,
    stored: ColdPathFilter,
    read_back: ColdPathFilter,
    paths: Seq<Seq<char>>,
    path: Seq<char>,
)
    requires
        stored.wf(),
        stored.is_filter_of(paths),
        stores(sidecar, stored),
        stores(sidecar, read_back),
        paths.contains(path),
    ensures
        read_back.may_hold(path),
{
    law_no_false_negatives(stored, paths, path);
    law_stored_filter_answers_alike(sidecar, stored, read_back, path);
}

/// All paths of all leaves.
pub open spec fn all_paths(paths_by_leaf: Seq<(String, Vec<String>)>) -> Seq<Seq<char>>
    decreases paths_by_leaf.len(),
{
    if paths_by_leaf.len() == 0 {
        Seq::empty()
    } else {
        all_paths(paths_by_leaf.drop_last()) + texts(paths_by_leaf.last().1@)
    }
}

proof fn lemma_insert_extends(
    before: ColdPathFilter,
    after: ColdPathFilter,
    paths: Seq<Seq<char>>,
    path: Seq<char>,
)
    requires
        before.is_filter_of(paths),
        after.bit_count() == before.bit_count(),
        after.hash_count() == before.hash_count(),
        after.item_count() == before.item_count() + 1,
        forall|pos: int|
            0 <= pos < after.bit_count() ==> (#[trigger] after.bit(pos) <==> before.bit(pos)
                || marks(path, before.bit_count(), before.hash_count(), pos)),
    ensures
        after.is_filter_of(paths.push(path)),
{
    let m = after.bit_count();
    let h = after.hash_count();
    let more = paths.push(path);
    assert forall|pos: int| 0 <= pos < m implies (#[trigger] after.bit(pos) <==> exists|k: int|
        0 <= k < more.len() && marks(#[trigger] more[k], m, h, pos)) by {
        assert(before.bit(pos) <==> exists|k: int|
            0 <= k < paths.len() && marks(#[trigger] paths[k], m, h, pos));
        if before.bit(pos) {
            let k = choose|k: int| 0 <= k < paths.len() && marks(#[trigger] paths[k], m, h, pos);
            assert(marks(more[k], m, h, pos));
        }
        if marks(path, m, h, pos) {
            assert(marks(more[paths.len() as int], m, h, pos));
        }
        if exists|k: int| 0 <= k < more.len() && marks(#[trigger] more[k], m, h, pos) {
            let k = choose|k: int| 0 <= k < more.len() && marks(#[trigger] more[k], m, h, pos);
            if k < paths.len() {
                assert(marks(paths[k], m, h, pos));
            }
        }
    }
}

proof fn lemma_all_paths_grow(paths_by_leaf: Seq<(String, Vec<String>)>, n: int)
    requires
        0 <= n <= paths_by_leaf.len(),
    ensures
        all_paths(paths_by_leaf.take(n)).len() <= all_paths(paths_by_leaf).len(),
    decreases paths_by_leaf.len(),
{
    if n < paths_by_leaf.len() {
        lemma_all_paths_grow(paths_by_leaf.drop_last(), n);
        assert(paths_by_leaf.drop_last().take(n) =~= paths_by_leaf.take(n));
    } else {
        assert(paths_by_leaf.take(n) =~= paths_by_leaf);
    }
}

/// A filter of all paths of all leaves, of the best size for their number.
pub fn build_filter(paths_by_leaf: &[(String, Vec<String>)]) -> (r: ColdPathFilter)
    requires
        all_paths(paths_by_leaf@).len() <= usize::MAX,
    ensures
        r.wf(),
        r.is_filter_of(all_paths(paths_by_leaf@)),
        r.bit_count() == optimal_bits(all_paths(paths_by_leaf@).len()),
        r.hash_count() == optimal_hashes(all_paths(paths_by_leaf@).len()),
{
    let mut total: usize = 0;
    let mut i: usize = 0;
    while i < paths_by_leaf.len()
        invariant
            i <= paths_by_leaf@.len(),
            total == all_paths(paths_by_leaf@.take(i as int)).len(),
            all_paths(paths_by_leaf@).len() <= usize::MAX,
        decreases paths_by_leaf@.len() - i,
    {
        proof {
            lemma_all_paths_grow(paths_by_leaf@, i + 1);
            assert(paths_by_leaf@.take(i + 1).drop_last() =~= paths_by_leaf@.take(i as int));
        }
        total = total + paths_by_leaf[i].1.len();
        i = i + 1;
    }
    assert(paths_by_leaf@.take(i as int) =~= paths_by_leaf@);
    let mut f = ColdPathFilter::with_capacity(total);
    let mut i: usize = 0;
    while i < paths_by_leaf.len()
        invariant
            i <= paths_by_leaf@.len(),
            total == all_paths(paths_by_leaf@).len(),
            f.wf(),
            f.is_filter_of(all_paths(paths_by_leaf@.take(i as int))),
            f.bit_count() == optimal_bits(total as nat),
            f.hash_count() == optimal_hashes(total as nat),
        decreases paths_by_leaf@.len() - i,
    {
        let paths = &paths_by_leaf[i].1;
        let ghost done = all_paths(paths_by_leaf@.take(i as int));
        proof {
            lemma_all_paths_grow(paths_by_leaf@, i + 1);
            assert(paths_by_leaf@.take(i + 1).drop_last() =~= paths_by_leaf@.take(i as int));
            assert(done + texts(paths@).take(0) =~= done);
        }
        let mut j: usize = 0;
        while j < paths.len()
            invariant
                j <= paths@.len(),
                done.len() + paths@.len() <= usize::MAX,
                f.wf(),
                f.is_filter_of(done + texts(paths@).take(j as int)),
                f.bit_count() == optimal_bits(total as nat),
                f.hash_count() == optimal_hashes(total as nat),
            decreases paths@.len() - j,
        {
            let ghost before = f;
            f.insert(paths[j].as_str());
            proof {
                let head = done + texts(paths@).take(j as int);
                lemma_insert_extends(before, f, head, paths@[j as int]@);
                assert(done + texts(paths@).take(j + 1) =~= head.push(paths@[j as int]@));
            }
            j = j + 1;
        }
        assert(texts(paths@).take(j as int) =~= texts(paths@));
        i = i + 1;
    }
    assert(paths_by_leaf@.take(i as int) =~= paths_by_leaf@);
    f
}

/// What the cold tier can tell of a path.
pub enum ColdPresence<'a> {
    /// There is no cold tier: it lists nothing.
    Empty,
    /// A filter over what it lists.
    Filter(&'a ColdPathFilter),
    /// There is a cold tier, and what it lists is not known.
    Unknown,
}

/// Whether what is known lets the cold tier list `path`.
pub open spec fn may_list(presence: ColdPresence, path: Seq<char>) -> bool {
    match presence {
        ColdPresence::Empty => false,
        ColdPresence::Filter(f) => f.may_hold(path),
        ColdPresence::Unknown => true,
    }
}

/// Whether a presence holds a whole filter, if any.
pub open spec fn presence_wf(presence: ColdPresence) -> bool {
    presence matches ColdPresence::Filter(f) ==> f.wf()
}

impl ColdPresence<'_> {
    /// `true` vetoes the retirement of a tombstone for `path`.
    pub fn may_contain(&self, path: &str) -> (r: bool)
        requires
            presence_wf(*self),
        ensures
            r == may_list(*self, path@),
    {
        match self {
            ColdPresence::Empty => false,
            ColdPresence::Filter(f) => f.maybe_contains(path),
            ColdPresence::Unknown => true,
        }
    }

    /// Whether any tombstone can be retired for want of its file in the cold tier.
    pub fn is_authoritative(&self) -> (r: bool)
        ensures
            r == (*self !is Unknown),
    {
        match self {
            ColdPresence::Unknown => false,
            _ => true,
        }
    }
}

/// [`ColdPresence`] with a filter of its own.
pub enum ColdPresenceOwned {
    Empty,
    Filter(ColdPathFilter),
    Unknown,
}

impl ColdPresenceOwned {
    /// The same, borrowed.
    pub open spec fn borrowed(&self) -> ColdPresence<'_> {
        match self {
            ColdPresenceOwned::Empty => ColdPresence::Empty,
            ColdPresenceOwned::Filter(f) => ColdPresence::Filter(f),
            ColdPresenceOwned::Unknown => ColdPresence::Unknown,
        }
    }

    /// Borrows what is known.
    pub fn as_ref(&self) -> (r: ColdPresence<'_>)
        ensures
            r == self.borrowed(),
    {
        match self {
            ColdPresenceOwned::Empty => ColdPresence::Empty,
            ColdPresenceOwned::Filter(f) => ColdPresence::Filter(f),
            ColdPresenceOwned::Unknown => ColdPresence::Unknown,
        }
    }

    /// A short label for logs.
    pub fn describe(&self) -> (r: &'static str)
        ensures
            r@ == match self {
                ColdPresenceOwned::Empty => "no-cold-tier"@,
                ColdPresenceOwned::Filter(_) => "sidecar"@,
                ColdPresenceOwned::Unknown => "unknown-veto-all"@,
            },
    {
        match self {
            ColdPresenceOwned::Empty => "no-cold-tier",
            ColdPresenceOwned::Filter(_) => "sidecar",
            ColdPresenceOwned::Unknown => "unknown-veto-all",
        }
    }
}

/// What came of reading the bucket index of the cold tier.
pub enum IndexRead {
    /// The root names no bucket index.
    Absent,
    /// The root names one that could not be read.
    Failed,
    Leaves(Vec<ManifestFile>),
}

/// What is known of the cold tier, from its bucket index and the filter stored beside it, where
/// one could be read. Every doubt ends in `Unknown`.
pub fn resolve_cold_presence(index: &IndexRead, sidecar: Option<ColdPathsSidecar>) -> (r:
    ColdPresenceOwned)
    ensures
        presence_wf(r.borrowed()),
        match index {
            IndexRead::Absent => r is Empty,
            IndexRead::Failed => r is Unknown,
            IndexRead::Leaves(leaves) => if leaves@.len() == 0 {
                r is Empty
            } else if sidecar is Some && covers(sidecar->0, leaves@) {
                r matches ColdPresenceOwned::Filter(f) && stores(sidecar->0, f)
            } else {
                r is Unknown
            },
        },
{
    match index {
        IndexRead::Absent => ColdPresenceOwned::Empty,
        IndexRead::Failed => ColdPresenceOwned::Unknown,
        IndexRead::Leaves(leaves) => {
            if leaves.len() == 0 {
                return ColdPresenceOwned::Empty;
            }
            match sidecar {
                Some(stored) => match accept_cold_paths_sidecar(stored, leaves) {
                    Some(f) => ColdPresenceOwned::Filter(f),
                    None => ColdPresenceOwned::Unknown,
                },
                None => ColdPresenceOwned::Unknown,
            }
        },
    }
}

/// A path that the cold tier lists is never taken for absent: the filter over the listed paths
/// says "maybe", and where nothing is known every path is vetoed.
pub proof fn law_listed_paths_are_vetoed(presence: ColdPresence, listed: Seq<Seq<char>>, path: Seq<char>)
    requires
        presence_wf(presence),
        listed.contains(path),
        presence matches ColdPresence::Filter(f) ==> f.is_filter_of(listed),
        presence !is Empty,
    ensures
        may_list(presence, path),
{
    if let ColdPresence::Filter(f) = presence {
        law_no_false_negatives(*f, listed, path);
    }
}

/// The live files that `leaves` count.
pub open spec fn live_total(leaves: Seq<ManifestFile>) -> nat
    decreases leaves.len(),
{
    if leaves.len() == 0 {
        0
    } else {
        live_total(leaves.drop_last()) + leaves.last().live_count()
    }
}

proof fn lemma_live_total_grows(leaves: Seq<ManifestFile>, n: int)
    requires
        0 <= n <= leaves.len(),
    ensures
        live_total(leaves.take(n)) <= live_total(leaves),
    decreases leaves.len(),
{
    if n < leaves.len() {
        lemma_live_total_grows(leaves.drop_last(), n);
        assert(leaves.drop_last().take(n) =~= leaves.take(n));
    } else {
        assert(leaves.take(n) =~= leaves);
    }
}

/// How many live data files a set of leaves counts, by the bucket index alone.
pub fn live_path_estimate(leaves: &[ManifestFile]) -> (r: u64)
    requires
        live_total(leaves@) <= u64::MAX,
    ensures
        r == live_total(leaves@),
{
    let mut r: u64 = 0;
    let mut i: usize = 0;
    while i < leaves.len()
        invariant
            i <= leaves@.len(),
            r == live_total(leaves@.take(i as int)),
            live_total(leaves@) <= u64::MAX,
        decreases leaves@.len() - i,
    {
        proof {
            lemma_live_total_grows(leaves@, i + 1);
            assert(leaves@.take(i + 1).drop_last() =~= leaves@.take(i as int));
        }
        r = r + leaves[i].live_files();
        i = i + 1;
    }
    assert(leaves@.take(i as int) =~= leaves@);
    r
}

/// The share of inserted paths to live ones above which a filter is rebuilt, as a fraction: above
/// it, a third of what the filter holds is dead.
pub const REBUILD_SATURATION_NUMERATOR: u64 = 3;

pub const REBUILD_SATURATION_DENOMINATOR: u64 = 2;

/// The share of inserted paths to live ones; none where there is no live path to compare with.
pub fn saturation(filter_items: u64, live_paths: u64) -> (r: Option<Fraction>)
    ensures
        r == if live_paths > 0 {
            Some(Fraction { numerator: filter_items, denominator: live_paths })
        } else {
            None
        },
{
    if live_paths > 0 {
        Some(Fraction { numerator: filter_items, denominator: live_paths })
    } else {
        None
    }
}

/// Whether a filter of `items` insertions over `live` live paths is overloaded; never where there
/// is no live path to compare with.
pub open spec fn saturated(items: nat, live: nat) -> bool {
    live > 0 && items * REBUILD_SATURATION_DENOMINATOR > live * REBUILD_SATURATION_NUMERATOR
}

/// Whether the filter over `leaves` is to be rebuilt: there is none, or it is overloaded.
pub fn needs_rebuild(filter_items: Option<u64>, leaves: &[ManifestFile]) -> (r: bool)
    requires
        live_total(leaves@) <= u64::MAX,
    ensures
        r == match filter_items {
            None => true,
            Some(items) => saturated(items as nat, live_total(leaves@)),
        },
{
    match filter_items {
        None => true,
        Some(items) => match saturation(items, live_path_estimate(leaves)) {
            Some(share) => {
                let threshold = Fraction {
                    numerator: REBUILD_SATURATION_NUMERATOR,
                    denominator: REBUILD_SATURATION_DENOMINATOR,
                };
                !threshold.reaches(share)
            },
            None => false,
        },
    }
}

/// What came of a rebuild.
#[derive(Clone, Copy, Debug, PartialEq, Eq, Structural)]
pub struct RebuildOutcome {
    /// The leaves that were read.
    pub leaves_scanned: usize,
    /// The paths that were inserted.
    pub paths_indexed: u64,
    /// The size of the filter.
    pub filter_bytes: usize,
}

/// A rebuild of the filter, leaf by leaf.
pub struct ColdPathsRebuild {
    filter: ColdPathFilter,
    leaves_scanned: usize,
}

/// The paths that a manifest lists, live or not.
pub open spec fn listed_paths(entries: Seq<ManifestEntry>) -> Seq<Seq<char>> {
    entries.map_values(|e: ManifestEntry| e.data_file.file_path@)
}

impl ColdPathsRebuild {
    /// Whether the filter is whole.
    pub closed spec fn wf(&self) -> bool {
        self.filter.wf()
    }

    /// The filter as it stands.
    pub closed spec fn filter(&self) -> ColdPathFilter {
        self.filter
    }

    /// The leaves read so far.
    pub closed spec fn scanned(&self) -> usize {
        self.leaves_scanned
    }

    /// Starts a rebuild for `leaves`, with a filter of the best size for the files they count.
    pub fn new(leaves: &[ManifestFile]) -> (r: Self)
        requires
            live_total(leaves@) <= usize::MAX,
        ensures
            r.wf(),
            r.filter().is_filter_of(Seq::empty()),
            r.filter().bit_count() == optimal_bits(live_total(leaves@)),
            r.filter().hash_count() == optimal_hashes(live_total(leaves@)),
            r.scanned() == 0,
    {
        let live: u64 = live_path_estimate(leaves);
        ColdPathsRebuild {
            filter: ColdPathFilter::with_capacity(live as usize),
            leaves_scanned: 0,
        }
    }

    /// Inserts every path that a leaf lists. A file that is listed and dead must veto too.
    pub fn add_leaf(&mut self, entries: &[ManifestEntry])
        requires
            old(self).wf(),
            old(self).scanned() < usize::MAX,
            old(self).filter().item_count() + entries@.len() <= u64::MAX,
        ensures
            final(self).wf(),
            final(self).scanned() == old(self).scanned() + 1,
            final(self).filter().bit_count() == old(self).filter().bit_count(),
            final(self).filter().hash_count() == old(self).filter().hash_count(),
            final(self).filter().item_count() == old(self).filter().item_count() + entries@.len(),
            forall|paths: Seq<Seq<char>>| #[trigger]
                old(self).filter().is_filter_of(paths) ==> final(self).filter().is_filter_of(
                    paths + listed_paths(entries@),
                ),
    {
        let ghost start = self.filter;
        assert forall|paths: Seq<Seq<char>>| #[trigger] start.is_filter_of(paths) implies self.filter.is_filter_of(
            paths + listed_paths(entries@).take(0)) by {
            assert(paths + listed_paths(entries@).take(0) =~= paths);
        }
        let mut i: usize = 0;
        while i < entries.len()
            invariant
                i <= entries@.len(),
                self.filter.wf(),
                self.leaves_scanned == old(self).leaves_scanned,
                start == old(self).filter,
                self.filter.bit_count() == start.bit_count(),
                self.filter.hash_count() == start.hash_count(),
                self.filter.item_count() == start.item_count() + i,
                start.item_count() + entries@.len() <= u64::MAX,
                forall|paths: Seq<Seq<char>>| #[trigger]
                    start.is_filter_of(paths) ==> self.filter.is_filter_of(
                        paths + listed_paths(entries@).take(i as int),
                    ),
            decreases entries@.len() - i,
        {
            let ghost before = self.filter;
            self.filter.insert(entries[i].data_file.file_path.as_str());
            proof {
                let path = entries@[i as int].data_file.file_path@;
                assert forall|paths: Seq<Seq<char>>| #[trigger] start.is_filter_of(
                    paths,
                ) implies self.filter.is_filter_of(paths + listed_paths(entries@).take(i + 1)) by {
                    let head = paths + listed_paths(entries@).take(i as int);
                    lemma_insert_extends(before, self.filter, head, path);
                    assert(head.push(path) =~= paths + listed_paths(entries@).take(i + 1));
                }
            }
            i = i + 1;
        }
        proof {
            assert(listed_paths(entries@).take(i as int) =~= listed_paths(entries@));
        }
        self.leaves_scanned = self.leaves_scanned + 1;
    }

    /// What is stored at the end, once every leaf of `leaves` was read, and what came of the
    /// rebuild.
    pub fn finish(&self, leaves: &[ManifestFile]) -> (r: (ColdPathsSidecar, RebuildOutcome))
        requires
            self.wf(),
            self.scanned() == leaves@.len(),
        ensures
            stores(r.0, self.filter()),
            covers(r.0, leaves@),
            r.1 == (RebuildOutcome {
                leaves_scanned: self.scanned(),
                paths_indexed: self.filter().item_count(),
                filter_bytes: r.0.bits@.len() as usize,
            }),
    {
        let outcome = RebuildOutcome {
            leaves_scanned: self.leaves_scanned,
            paths_indexed: self.filter.len(),
            filter_bytes: self.filter.byte_len(),
        };
        (cold_paths_sidecar(&self.filter, leaves), outcome)
    }
}

/// The hash takes in every byte: from `basis`, the hash of `data` followed by `b` is the hash of
/// `data`, exclusive or `b`, times the FNV prime, to 64 bits, however long `data` is.
pub proof fn law_hash_takes_in_every_byte(data: Seq<u8>, b: u8, basis: u64)
    ensures
        fnv1a_spec(Seq::empty(), basis) == basis,
        fnv1a_spec(data.push(b), basis) == ((fnv1a_spec(data, basis) ^ (b as u64)) as int
            * 0x0000_0100_0000_01b3) % 0x1_0000_0000_0000_0000,
{
    assert(data.push(b).drop_last() =~= data);
}

/// The prime is odd: what is multiplied by it, to 64 bits, can be told from the product.
proof fn lemma_prime_is_odd(x: u64, y: u64)
    requires
        (x as int * 0x0000_0100_0000_01b3) % 0x1_0000_0000_0000_0000 == (y as int
            * 0x0000_0100_0000_01b3) % 0x1_0000_0000_0000_0000,
    ensures
        x == y,
{
    let prime: int = 0x0000_0100_0000_01b3;
    let inverse: int = 0xce96_5057_aff6_957b;
    let range: int = 0x1_0000_0000_0000_0000;
    let d = x as int - y as int;
    let m = (x as int * prime) / range - (y as int * prime) / range;
    let q = (prime * inverse) / range;
    assert(prime * inverse == q * range + 1);
    vstd::arithmetic::div_mod::lemma_fundamental_div_mod(x as int * prime, range);
    vstd::arithmetic::div_mod::lemma_fundamental_div_mod(y as int * prime, range);
    assert(d * prime == m * range) by (nonlinear_arith)
        requires
            d == x as int - y as int,
            m == (x as int * prime) / range - (y as int * prime) / range,
            x as int * prime == range * ((x as int * prime) / range) + (x as int * prime) % range,
            y as int * prime == range * ((y as int * prime) / range) + (y as int * prime) % range,
            (x as int * prime) % range == (y as int * prime) % range,
    ;
    assert(d * (q * range + 1) == m * range * inverse) by (nonlinear_arith)
        requires
            d * prime == m * range,
            prime * inverse == q * range + 1,
    ;
    let c = m * inverse - d * q;
    assert(d == c * range) by (nonlinear_arith)
        requires
            d * (q * range + 1) == m * range * inverse,
            c == m * inverse - d * q,
    ;
}

/// Two strings of one length that differ in just one byte have different hashes, wherever the byte
/// stands.
pub proof fn law_one_byte_changes_the_hash(a: Seq<u8>, b: Seq<u8>, at: int, basis: u64)
    requires
        a.len() == b.len(),
        0 <= at < a.len(),
        a[at] != b[at],
        forall|i: int| 0 <= i < a.len() && i != at ==> a[i] == b[i],
    ensures
        fnv1a_spec(a, basis) != fnv1a_spec(b, basis),
    decreases a.len(),
{
    let ha = fnv1a_spec(a.drop_last(), basis);
    let hb = fnv1a_spec(b.drop_last(), basis);
    let x = a.last();
    let y = b.last();
    law_hash_takes_in_every_byte(a.drop_last(), x, basis);
    law_hash_takes_in_every_byte(b.drop_last(), y, basis);
    assert(a.drop_last().push(x) =~= a);
    assert(b.drop_last().push(y) =~= b);
    if at == a.len() - 1 {
        assert(a.drop_last() =~= b.drop_last());
        assert(ha ^ (x as u64) != ha ^ (y as u64)) by (bit_vector)
            requires
                x != y,
        ;
    } else {
        law_one_byte_changes_the_hash(a.drop_last(), b.drop_last(), at, basis);
        assert(ha ^ (x as u64) != hb ^ (x as u64)) by (bit_vector)
            requires
                ha != hb,
        ;
    }
    if fnv1a_spec(a, basis) == fnv1a_spec(b, basis) {
        lemma_prime_is_odd(ha ^ (x as u64), hb ^ (y as u64));
    }
}

/// A stored filter of one leaf is refused for one other leaf whose path differs from the first
/// one's in one byte.
pub proof fn law_filter_is_refused_for_another_leaf(
    sidecar: ColdPathsSidecar,
    built_from: Seq<ManifestFile>,
    current: Seq<ManifestFile>,
    at: int,
)
    requires
        covers(sidecar, built_from),
        built_from.len() == 1,
        current.len() == 1,
        ({
            let a = encode_utf8(built_from[0].manifest_path@);
            let b = encode_utf8(current[0].manifest_path@);
            &&& a.len() == b.len()
            &&& 0 <= at < a.len()
            &&& a[at] != b[at]
            &&& forall|i: int| 0 <= i < a.len() && i != at ==> a[i] == b[i]
        }),
    ensures
        !covers(sidecar, current),
{
    let a = built_from[0].manifest_path@;
    let b = current[0].manifest_path@;
    law_one_byte_changes_the_hash(encode_utf8(a), encode_utf8(b), at, FNV_OFFSET);
    assert(leaf_paths(built_from) =~= seq![a]);
    assert(leaf_paths(current) =~= seq![b]);
    assert(seq![a].drop_last() =~= Seq::<Seq<char>>::empty());
    assert(seq![b].drop_last() =~= Seq::<Seq<char>>::empty());
    reveal_with_fuel(digest_of, 2);
    let ha = path_hash(a);
    let hb = path_hash(b);
    assert(0u64 ^ ha != 0u64 ^ hb) by (bit_vector)
        requires
            ha != hb,
    ;
}

/// A filter has as many bits as the optimum for its paths, rounded up, but never fewer than 1024
/// nor more than 134217728; and each path sets as many bits as the optimum for that size, rounded
/// to the nearest, but never none nor more than sixteen. A filter for no path is sized as for one.
pub proof fn law_filter_is_of_the_best_size(expected: nat)
    ensures
        ({
            let n = if expected == 0 {
                1
            } else {
                expected as int
            };
            let bits = optimal_bits(expected);
            let hashes = optimal_hashes(expected);
            &&& 1_024 <= bits <= 134_217_728
            &&& bits > 1_024 ==> (bits - 1) * 1_000_000_000_000_000 < n * 9_585_058_377_367_439
            &&& bits < 134_217_728 ==> n * 9_585_058_377_367_439 <= bits * 1_000_000_000_000_000
            &&& 1 <= hashes <= 16
            &&& hashes > 1 ==> (2 * hashes - 1) * (n * 1_000_000_000_000_000_000) <= 2 * bits
                * 693_147_180_559_945_309
            &&& hashes < 16 ==> 2 * bits * 693_147_180_559_945_309 < (2 * hashes + 1) * (n
                * 1_000_000_000_000_000_000)
        }),
{
    let n = if expected == 0 {
        1
    } else {
        expected as int
    };
    assert(sized_for(expected) == n);
    let bits = optimal_bits(expected);
    let a = n * BITS_PER_PATH + BITS_PER_PATH_UNIT - 1;
    let unit = BITS_PER_PATH_UNIT as int;
    let q = a / unit;
    assert(unit * q <= a < unit * (q + 1));
    let b = 2 * bits * LN2;
    let u = n * LN2_UNIT;
    assert(u > 0) by (nonlinear_arith)
        requires
            u == n * LN2_UNIT,
            n >= 1,
            LN2_UNIT == 1_000_000_000_000_000_000,
    ;
    assert(2 * n * LN2_UNIT == 2 * u) by (nonlinear_arith)
        requires
            u == n * LN2_UNIT,
    ;
    let h = (b + u) / (2 * u);
    vstd::arithmetic::div_mod::lemma_fundamental_div_mod(b + u, 2 * u);
    vstd::arithmetic::div_mod::lemma_mod_bound(b + u, 2 * u);
    assert((2 * h - 1) * u <= b < (2 * h + 1) * u) by (nonlinear_arith)
        requires
            b + u == (2 * u) * h + (b + u) % (2 * u),
            0 <= (b + u) % (2 * u) < 2 * u,
    ;
    let hashes = optimal_hashes(expected);
    assert(hashes == clamped(h, 1, 16));
    assert(h < 1 ==> b < (2 * 1 + 1) * u) by (nonlinear_arith)
        requires
            b < (2 * h + 1) * u,
            u > 0,
    ;
    assert(h > 16 ==> (2 * 16 - 1) * u <= b) by (nonlinear_arith)
        requires
            (2 * h - 1) * u <= b,
            u > 0,
    ;
}

/// The bits that a path picks are all in the filter. They step from the path's hash by a second
/// hash of it, made odd: bit number `i` is the first hash and `i` times the second, to 64 bits, by
/// the size of the filter.
pub proof fn law_picked_bits_step_by_the_second_hash(path: Seq<char>, i: int, n_bits: u64)
    requires
        n_bits > 0,
        0 <= i <= u32::MAX,
    ensures
        0 <= position(path, i, n_bits) < n_bits,
        ({
            let h1 = fnv1a_spec(encode_utf8(path), 0xcbf2_9ce4_8422_2325);
            let h2 = fnv1a_spec(encode_utf8(path), 0x9e37_79b9_7f4a_7c15) | 1;
            &&& position(path, i, n_bits) == ((h1 + i * h2) % 0x1_0000_0000_0000_0000)
                % n_bits as int
            &&& h2 % 2 == 1
        }),
{
    let h1 = fnv1a_spec(encode_utf8(path), FNV_OFFSET);
    let g = fnv1a_spec(encode_utf8(path), FNV_OFFSET_ALT);
    let h2 = g | 1;
    assert((g | 1) % 2 == 1) by (bit_vector);
    let range: int = 0x1_0000_0000_0000_0000;
    let product = i * h2;
    let low = (i as u64).wrapping_mul(h2);
    assert(low as int == product % range) by {
        assert((i as u64) as nat * h2 as nat == product) by (nonlinear_arith)
            requires
                (i as u64) as int == i,
                product == i * h2,
        ;
    }
    vstd::arithmetic::div_mod::lemma_add_mod_noop_right(h1 as int, product, range);
    let sum = h1.wrapping_add(low);
    assert(sum as int == (h1 + low) % range);
}

/// A byte holds its lowest bit first.
pub proof fn law_bits_are_lowest_first(bits: Seq<u8>, pos: int)
    requires
        0 <= pos < 8 * bits.len(),
    ensures
        bit_of(bits, pos) <==> bits[pos / 8] & (1u8 << ((pos % 8) as u8)) != 0,
{
    let b = bits[pos / 8];
    let k = (pos % 8) as u8;
    assert((b >> k) & 1 == 1 <==> b & (1u8 << k) != 0) by (bit_vector)
        requires
            k < 8,
    ;
}

/// A path marks a bit just where one of its hashes picks it, and a filter says "maybe" just where
/// every bit that the path picks is set.
pub proof fn law_maybe_needs_every_picked_bit(f: ColdPathFilter, path: Seq<char>)
    ensures
        f.may_hold(path) <==> forall|pos: int|
            marks(path, f.bit_count(), f.hash_count(), pos) ==> #[trigger] f.bit(pos),
{
    if f.may_hold(path) {
        assert forall|pos: int| marks(path, f.bit_count(), f.hash_count(), pos) implies
            #[trigger] f.bit(pos) by {
            let i = choose|i: int|
                0 <= i < f.hash_count() && #[trigger] position(path, i, f.bit_count()) == pos;
            assert(f.bit(position(path, i, f.bit_count())));
        }
    }
    if forall|pos: int|
        marks(path, f.bit_count(), f.hash_count(), pos) ==> #[trigger] f.bit(pos) {
        assert forall|i: int| 0 <= i < f.hash_count() implies f.bit(
            #[trigger] position(path, i, f.bit_count()),
        ) by {
            let pos = position(path, i, f.bit_count());
            assert(marks(path, f.bit_count(), f.hash_count(), pos));
        }
    }
}

/// Every leaf counts in the digest and in the sum: one leaf more changes the digest by its path's
/// hash, and adds the hash to the sum.
pub proof fn law_every_leaf_is_in_the_digest(paths: Seq<Seq<char>>, path: Seq<char>)
    ensures
        digest_of(Seq::empty()) == 0,
        digest_of(paths.push(path)) == digest_of(paths) ^ fnv1a_spec(
            encode_utf8(path),
            0xcbf2_9ce4_8422_2325,
        ),
        sum_of(Seq::empty()) == 0,
        sum_of(paths.push(path)) == (sum_of(paths) + fnv1a_spec(
            encode_utf8(path),
            0xcbf2_9ce4_8422_2325,
        )) % 0x1_0000_0000_0000_0000,
{
    assert(paths.push(path).drop_last() =~= paths);
}

/// A stored filter is taken for the filter of some leaves just where it is of the first format, was
/// built from as many leaves, of the same digest and of a sum that it states and that is the same,
/// and its bit string has the length that its number of bits asks for.
pub proof fn law_filter_is_taken_for_its_leaves_alone(
    sidecar: ColdPathsSidecar,
    leaves: Seq<ManifestFile>,
)
    ensures
        covers(sidecar, leaves) <==> {
            &&& sidecar.format_version == 1
            &&& sidecar.covered_leaf_count == leaves.len()
            &&& sidecar.covered_leaf_digest == digest_of(
                leaves.map_values(|l: ManifestFile| l.manifest_path@),
            )
            &&& sidecar.covered_leaf_sum is Some
            &&& sidecar.covered_leaf_sum->0 == sum_of(
                leaves.map_values(|l: ManifestFile| l.manifest_path@),
            )
            &&& sidecar.n_bits > 0
            &&& 8 * (sidecar.bits@.len() - 1) < sidecar.n_bits <= 8 * sidecar.bits@.len()
        },
{
}

/// All paths of all leaves are those of some leaf.
pub proof fn law_all_paths_are_gathered(paths_by_leaf: Seq<(String, Vec<String>)>, path: Seq<char>)
    ensures
        all_paths(paths_by_leaf).contains(path) <==> exists|i: int, j: int|
            0 <= i < paths_by_leaf.len() && 0 <= j < paths_by_leaf[i].1@.len() && (
            #[trigger] paths_by_leaf[i].1@[j])@ == path,
    decreases paths_by_leaf.len(),
{
    if paths_by_leaf.len() > 0 {
        let head = paths_by_leaf.drop_last();
        let last = paths_by_leaf.len() - 1;
        let own = texts(paths_by_leaf[last].1@);
        let before = all_paths(head);
        let after = all_paths(paths_by_leaf);
        law_all_paths_are_gathered(head, path);
        if after.contains(path) {
            let k = choose|k: int| 0 <= k < after.len() && after[k] == path;
            if k < before.len() {
                assert(before[k] == path);
                let (i, j) = choose|i: int, j: int|
                    0 <= i < head.len() && 0 <= j < head[i].1@.len() && (
                    #[trigger] head[i].1@[j])@ == path;
                assert(paths_by_leaf[i].1@[j]@ == path);
            } else {
                assert(own[k - before.len()] == path);
                assert(paths_by_leaf[last].1@[k - before.len()]@ == path);
            }
        }
        if exists|i: int, j: int|
            0 <= i < paths_by_leaf.len() && 0 <= j < paths_by_leaf[i].1@.len() && (
            #[trigger] paths_by_leaf[i].1@[j])@ == path {
            let (i, j) = choose|i: int, j: int|
                0 <= i < paths_by_leaf.len() && 0 <= j < paths_by_leaf[i].1@.len() && (
                #[trigger] paths_by_leaf[i].1@[j])@ == path;
            if i < last {
                assert(head[i].1@[j]@ == path);
                let k = choose|k: int| 0 <= k < before.len() && before[k] == path;
                assert(after[k] == path);
            } else {
                assert(own[j] == path);
                assert(after[before.len() + j] == path);
            }
        }
    }
}

/// A path may be retired only where there is no cold tier, or where a filter leaves it out.
pub proof fn law_doubt_vetoes(presence: ColdPresence, path: Seq<char>)
    ensures
        !may_list(presence, path) <==> presence is Empty || (presence is Filter
            && !presence->Filter_0.may_hold(path)),
{
}

/// A filter is overloaded just where there is a live path and it took in more than three paths for
/// every two live ones; a leaf counts with its added and existing files, as far as they are known.
pub proof fn law_filter_is_overloaded_past_three_to_two(
    items: nat,
    live: nat,
    leaves: Seq<ManifestFile>,
    leaf: ManifestFile,
)
    ensures
        saturated(items, live) <==> live > 0 && 2 * items > 3 * live,
        live_total(Seq::empty()) == 0,
        live_total(leaves.push(leaf)) == live_total(leaves) + (if leaf.added_files_count is Some {
            leaf.added_files_count->0 as int
        } else {
            0
        }) + (if leaf.existing_files_count is Some {
            leaf.existing_files_count->0 as int
        } else {
            0
        }),
{
    assert(leaves.push(leaf).drop_last() =~= leaves);
}

/// Every entry of a manifest lists its path, whatever its state.
pub proof fn law_dead_entries_are_listed_too(entries: Seq<ManifestEntry>, i: int)
    requires
        0 <= i < entries.len(),
    ensures
        listed_paths(entries).len() == entries.len(),
        listed_paths(entries)[i] == entries[i].data_file.file_path@,
{
}

/// What is known of a cold tier is never more than what was read: without an index, or with an
/// empty one, there is no cold tier; where the index could not be read, or no filter of its leaves
/// is stored, nothing is known; and otherwise the stored filter answers.
pub proof fn law_presence_follows_what_was_read(
    index: IndexRead,
    sidecar: Option<ColdPathsSidecar>,
    r: ColdPresenceOwned,
    path: Seq<char>,
)
    requires
        call_ensures(resolve_cold_presence, (&index, sidecar), r),
    ensures
        index is Failed ==> may_list(r.borrowed(), path),
        index is Absent ==> !may_list(r.borrowed(), path),
        index matches IndexRead::Leaves(leaves) ==> {
            &&& leaves@.len() == 0 ==> !may_list(r.borrowed(), path)
            &&& leaves@.len() > 0 && sidecar is None ==> may_list(r.borrowed(), path)
            &&& leaves@.len() > 0 && sidecar is Some && !covers(sidecar->0, leaves@) ==> may_list(
                r.borrowed(),
                path,
            )
            &&& leaves@.len() > 0 && !may_list(r.borrowed(), path) ==> r is Filter && sidecar is Some
                && covers(sidecar->0, leaves@) && r->Filter_0.bit_string() == sidecar->0.bits@
        },
{
}

/// A filter is rebuilt where there is none, and where it took in more than three paths for every
/// two live ones.
pub proof fn law_rebuild_is_due_past_three_to_two(
    filter_items: Option<u64>,
    leaves: &[ManifestFile],
    r: bool,
)
    requires
        call_ensures(needs_rebuild, (filter_items, leaves), r),
    ensures
        filter_items is None ==> r,
        filter_items is Some ==> (r <==> live_total(leaves@) > 0 && 2 * filter_items->0 > 3
            * live_total(leaves@)),
{
}

/// The filter of a bucket index stands beside it, at a path of its own.
pub proof fn law_filter_stands_beside_its_index(a: Seq<char>, b: Seq<char>)
    ensures
        sidecar_path(a) == sidecar_path(b) <==> a == b,
        a.is_prefix_of(sidecar_path(a)),
        ".cold-paths.json"@.is_suffix_of(sidecar_path(a)),
        sidecar_path(a) != a,
{
    reveal_strlit(".cold-paths.json");
    assert(sidecar_path(a).take(a.len() as int) =~= a);
    assert(sidecar_path(b).take(b.len() as int) =~= b);
    assert(sidecar_path(a).skip(a.len() as int) =~= ".cold-paths.json"@);
    assert(sidecar_path(a).len() == a.len() + ".cold-paths.json"@.len());
    assert(sidecar_path(b).len() == b.len() + ".cold-paths.json"@.len());
}

} // verus!
