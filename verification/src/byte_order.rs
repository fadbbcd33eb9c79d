//! Comparing the bytes of bounds.
//!
//! A bound is stored as bytes, and what order the bytes stand for depends on the type of its field:
//! numbers are stored with the lowest byte first, text and binary data as they are. A value is said
//! to be out of a range only if it is so in each of the orders that its bytes may stand for.

use vstd::prelude::*;

use crate::partition::{
    bound_bytes, le_bytes, le_value, lemma_le_value_bound, lemma_le_value_of_le_bytes, pow256,
    to_unsigned, PrimitiveLiteral,
};

verus! {

/// What the bytes of a bound may stand for.
#[derive(Clone, Copy, Debug, PartialEq, Eq, Structural)]
pub enum ByteOrder {
    /// Text, binary data, truth values.
    Plain,
    /// Numbers in two's complement, the highest byte first.
    HighFirst,
    /// Numbers in two's complement, the lowest byte first.
    LowFirst,
    /// Floating-point numbers, the lowest byte first.
    LowFirstFloat,
}

/// Whether the byte string `a` sorts ahead of `b`, the two being of one length.
pub open spec fn bytes_less(a: Seq<u8>, b: Seq<u8>) -> bool {
    exists|k: int|
        0 <= k < a.len() && k < b.len() && #[trigger] a[k] < b[k] && forall|j: int|
            0 <= j < k ==> a[j] == b[j]
}

fn is_bytes_less(a: &[u8], b: &[u8]) -> (r: bool)
    requires
        a@.len() == b@.len(),
    ensures
        r == bytes_less(a@, b@),
{
    let mut k: usize = 0;
    while k < a.len()
        invariant
            k <= a@.len(),
            a@.len() == b@.len(),
            forall|j: int| 0 <= j < k ==> a@[j] == b@[j],
        decreases a@.len() - k,
    {
        if a[k] < b[k] {
            return true;
        }
        if a[k] > b[k] {
            assert forall|m: int|
                0 <= m < a@.len() && m < b@.len() && #[trigger] a@[m] < b@[m] implies exists|j: int|
                0 <= j < m && a@[j] != b@[j] by {
                assert(m > k);
                assert(a@[k as int] != b@[k as int]);
            }
            return false;
        }
        k = k + 1;
    }
    false
}

/// `b` with its sign bit turned.
pub open spec fn flipped(b: u8) -> u8 {
    if b < 128 {
        (b + 128) as u8
    } else {
        (b - 128) as u8
    }
}

/// The bytes `s`, the highest first, so that two's complement sorts as plain bytes do.
pub open spec fn signed_key(s: Seq<u8>) -> Seq<u8> {
    Seq::new(
        s.len(),
        |i: int|
            if i == 0 {
                flipped(s[0])
            } else {
                s[i]
            },
    )
}

/// The bytes `s`, the highest first, so that a sign and a magnitude sort as plain bytes do.
pub open spec fn float_key(s: Seq<u8>) -> Seq<u8> {
    if s.len() > 0 && s[0] >= 128 {
        Seq::new(s.len(), |i: int| (255 - s[i]) as u8)
    } else {
        signed_key(s)
    }
}

/// The bytes by which `b` sorts in the order `order`.
pub open spec fn order_key(b: Seq<u8>, order: ByteOrder) -> Seq<u8> {
    match order {
        ByteOrder::Plain => b,
        ByteOrder::HighFirst => signed_key(b),
        ByteOrder::LowFirst => signed_key(b.reverse()),
        ByteOrder::LowFirstFloat => float_key(b.reverse()),
    }
}

/// Whether `t` lies out of the range from `lo` to `hi` in the order `order`, the three being of one
/// length.
pub open spec fn outside_by(t: Seq<u8>, lo: Seq<u8>, hi: Seq<u8>, order: ByteOrder) -> bool {
    bytes_less(order_key(t, order), order_key(lo, order)) || bytes_less(
        order_key(hi, order),
        order_key(t, order),
    )
}

/// Whether the byte string `t` lies out of the range from `lo` to `hi` in each of the orders
/// `orders`. The three must be of one length to be compared.
pub open spec fn outside(t: Seq<u8>, lo: Seq<u8>, hi: Seq<u8>, orders: Set<ByteOrder>) -> bool {
    &&& t.len() == lo.len()
    &&& t.len() == hi.len()
    &&& forall|order: ByteOrder|
        orders.contains(order) ==> #[trigger] outside_by(t, lo, hi, order)
}

/// The orders that bytes may stand for: the one that is known, or any.
pub open spec fn orders_of(order: Option<ByteOrder>) -> Set<ByteOrder> {
    match order {
        Some(o) => set![o],
        None => Set::full(),
    }
}

/// The order in which the bytes of a bound for `p` stand, where it is known.
pub open spec fn literal_order(p: PrimitiveLiteral) -> Option<ByteOrder> {
    match p {
        PrimitiveLiteral::Boolean(_) => Some(ByteOrder::Plain),
        PrimitiveLiteral::Int(_) => Some(ByteOrder::LowFirst),
        PrimitiveLiteral::Long(_) => Some(ByteOrder::LowFirst),
        PrimitiveLiteral::Text(_) => Some(ByteOrder::Plain),
        PrimitiveLiteral::Binary(_) => Some(ByteOrder::Plain),
        PrimitiveLiteral::Other(_) => None,
    }
}

/// The order in which the bytes of a bound for `p` stand, where it is known.
pub fn literal_order_of(p: &PrimitiveLiteral) -> (r: Option<ByteOrder>)
    ensures
        r == literal_order(*p),
{
    match p {
        PrimitiveLiteral::Boolean(_) => Some(ByteOrder::Plain),
        PrimitiveLiteral::Int(_) => Some(ByteOrder::LowFirst),
        PrimitiveLiteral::Long(_) => Some(ByteOrder::LowFirst),
        PrimitiveLiteral::Text(_) => Some(ByteOrder::Plain),
        PrimitiveLiteral::Binary(_) => Some(ByteOrder::Plain),
        PrimitiveLiteral::Other(_) => None,
    }
}

/// A set of orders.
#[derive(Clone, Copy, Debug, PartialEq, Eq, Structural)]
pub struct Orders {
    plain: bool,
    high_first: bool,
    low_first: bool,
    low_first_float: bool,
}

impl View for Orders {
    type V = Set<ByteOrder>;

    closed spec fn view(&self) -> Set<ByteOrder> {
        Set::new(
            |order: ByteOrder|
                match order {
                    ByteOrder::Plain => self.plain,
                    ByteOrder::HighFirst => self.high_first,
                    ByteOrder::LowFirst => self.low_first,
                    ByteOrder::LowFirstFloat => self.low_first_float,
                },
        )
    }
}

impl Orders {
    /// No order.
    pub fn new() -> (r: Self)
        ensures
            r@ == Set::<ByteOrder>::empty(),
    {
        let r = Orders {
            plain: false,
            high_first: false,
            low_first: false,
            low_first_float: false,
        };
        assert(r@ =~= Set::<ByteOrder>::empty());
        r
    }

    /// Adds the order `order`, or all of them where it is not known.
    pub fn add_order(&mut self, order: Option<ByteOrder>)
        ensures
            final(self)@ == old(self)@.union(orders_of(order)),
    {
        let ghost before = self@;
        match order {
            Some(ByteOrder::Plain) => {
                self.plain = true;
            },
            Some(ByteOrder::HighFirst) => {
                self.high_first = true;
            },
            Some(ByteOrder::LowFirst) => {
                self.low_first = true;
            },
            Some(ByteOrder::LowFirstFloat) => {
                self.low_first_float = true;
            },
            None => {
                self.plain = true;
                self.high_first = true;
                self.low_first = true;
                self.low_first_float = true;
            },
        }
        assert(self@ =~= before.union(orders_of(order)));
    }
}

fn key_of(b: &[u8], order: ByteOrder) -> (r: Vec<u8>)
    ensures
        r@ == order_key(b@, order),
{
    let low_first = match order {
        ByteOrder::Plain | ByteOrder::HighFirst => false,
        ByteOrder::LowFirst | ByteOrder::LowFirstFloat => true,
    };
    let n: usize = b.len();
    let ghost high = if low_first {
        b@.reverse()
    } else {
        b@
    };
    let negative = if n == 0 {
        false
    } else if low_first {
        b[n - 1] >= 128
    } else {
        b[0] >= 128
    };
    let mut r: Vec<u8> = Vec::with_capacity(n);
    let mut i: usize = 0;
    while i < n
        invariant
            i <= n,
            n == b@.len(),
            high.len() == n,
            high == if low_first {
                b@.reverse()
            } else {
                b@
            },
            low_first == (order == ByteOrder::LowFirst || order == ByteOrder::LowFirstFloat),
            n > 0 ==> negative == (high[0] >= 128),
            r@ == order_key(b@, order).take(i as int),
        decreases n - i,
    {
        let byte: u8 = if low_first {
            b[n - 1 - i]
        } else {
            b[i]
        };
        assert(byte == high[i as int]);
        let turned: u8 = if byte < 128 {
            byte + 128
        } else {
            byte - 128
        };
        let key: u8 = match order {
            ByteOrder::Plain => byte,
            ByteOrder::HighFirst | ByteOrder::LowFirst => if i == 0 {
                turned
            } else {
                byte
            },
            ByteOrder::LowFirstFloat => if negative {
                255 - byte
            } else if i == 0 {
                turned
            } else {
                byte
            },
        };
        proof {
            assert(order_key(b@, order)[i as int] == key);
            assert(order_key(b@, order).take(i + 1) =~= order_key(b@, order).take(i as int).push(
                key,
            ));
        }
        r.push(key);
        i = i + 1;
    }
    assert(order_key(b@, order).take(n as int) =~= order_key(b@, order));
    r
}

fn is_outside_by(t: &[u8], lo: &[u8], hi: &[u8], order: ByteOrder) -> (r: bool)
    requires
        t@.len() == lo@.len(),
        t@.len() == hi@.len(),
    ensures
        r == outside_by(t@, lo@, hi@, order),
{
    let key = key_of(t, order);
    let low = key_of(lo, order);
    let high = key_of(hi, order);
    is_bytes_less(key.as_slice(), low.as_slice()) || is_bytes_less(high.as_slice(), key.as_slice())
}

/// Whether the byte string `t` lies out of the range from `lo` to `hi` in each of the orders
/// `orders`.
pub fn is_outside(t: &[u8], lo: &[u8], hi: &[u8], orders: &Orders) -> (r: bool)
    ensures
        r == outside(t@, lo@, hi@, orders@),
{
    if t.len() != lo.len() || t.len() != hi.len() {
        return false;
    }
    let plain = !orders.plain || is_outside_by(t, lo, hi, ByteOrder::Plain);
    let high = !orders.high_first || is_outside_by(t, lo, hi, ByteOrder::HighFirst);
    let low = !orders.low_first || is_outside_by(t, lo, hi, ByteOrder::LowFirst);
    let float = !orders.low_first_float || is_outside_by(t, lo, hi, ByteOrder::LowFirstFloat);
    let r = plain && high && low && float;
    proof {
        if r {
            assert forall|order: ByteOrder| orders@.contains(order) implies #[trigger] outside_by(
                t@,
                lo@,
                hi@,
                order,
            ) by {
                match order {
                    ByteOrder::Plain => {},
                    ByteOrder::HighFirst => {},
                    ByteOrder::LowFirst => {},
                    ByteOrder::LowFirstFloat => {},
                }
            }
        } else {
            let order = if !plain {
                ByteOrder::Plain
            } else if !high {
                ByteOrder::HighFirst
            } else if !low {
                ByteOrder::LowFirst
            } else {
                ByteOrder::LowFirstFloat
            };
            assert(orders@.contains(order) && !outside_by(t@, lo@, hi@, order));
        }
    }
    r
}

proof fn lemma_distinct_bytes_are_ordered(a: Seq<u8>, b: Seq<u8>)
    requires
        a.len() == b.len(),
        a != b,
    ensures
        bytes_less(a, b) || bytes_less(b, a),
    decreases a.len(),
{
    if a.len() == 0 {
        assert(a =~= b);
    } else if a[0] == b[0] {
        let x = a.skip(1);
        let y = b.skip(1);
        if x == y {
            assert(a =~= b) by {
                assert forall|i: int| 0 <= i < a.len() implies a[i] == b[i] by {
                    if i > 0 {
                        assert(x[i - 1] == a[i] && y[i - 1] == b[i]);
                    }
                }
            }
        }
        lemma_distinct_bytes_are_ordered(x, y);
        if bytes_less(x, y) {
            let k = choose|k: int|
                0 <= k < x.len() && k < y.len() && #[trigger] x[k] < y[k] && forall|j: int|
                    0 <= j < k ==> x[j] == y[j];
            assert(a[k + 1] < b[k + 1]);
            assert forall|j: int| 0 <= j < k + 1 implies a[j] == b[j] by {
                if j > 0 {
                    assert(x[j - 1] == a[j] && y[j - 1] == b[j]);
                }
            }
        } else {
            let k = choose|k: int|
                0 <= k < x.len() && k < y.len() && #[trigger] y[k] < x[k] && forall|j: int|
                    0 <= j < k ==> x[j] == y[j];
            assert(b[k + 1] < a[k + 1]);
            assert forall|j: int| 0 <= j < k + 1 implies a[j] == b[j] by {
                if j > 0 {
                    assert(x[j - 1] == a[j] && y[j - 1] == b[j]);
                }
            }
        }
    } else if a[0] < b[0] {
    } else {
        assert(b[0] < a[0]);
    }
}

proof fn lemma_less_is_irreflexive(a: Seq<u8>)
    ensures
        !bytes_less(a, a),
{
}

proof fn lemma_key_tells_apart(a: Seq<u8>, b: Seq<u8>, order: ByteOrder)
    requires
        a.len() == b.len(),
        a != b,
    ensures
        order_key(a, order) != order_key(b, order),
{
    let x = order_key(a, order);
    let y = order_key(b, order);
    if x == y {
        assert forall|i: int| 0 <= i < a.len() implies a[i] == b[i] by {
            let n = a.len();
            let p = match order {
                ByteOrder::Plain => i,
                ByteOrder::HighFirst => i,
                ByteOrder::LowFirst => n - 1 - i,
                ByteOrder::LowFirstFloat => n - 1 - i,
            };
            assert(x[p] == y[p]);
            assert(x[0] == y[0]);
            assert(a.reverse()[p] == a[n - 1 - p] && b.reverse()[p] == b[n - 1 - p]);
        }
        assert(a =~= b);
    }
}

/// A value is out of the range of one other value just where it differs from it.
pub proof fn law_one_value_excludes_all_others(
    t: Seq<u8>,
    value: Seq<u8>,
    orders: Set<ByteOrder>,
)
    requires
        t.len() == value.len(),
        exists|order: ByteOrder| orders.contains(order),
    ensures
        outside(t, value, value, orders) <==> t != value,
{
    if t != value {
        assert forall|order: ByteOrder| #[trigger] outside_by(t, value, value, order) by {
            lemma_key_tells_apart(t, value, order);
            lemma_distinct_bytes_are_ordered(order_key(t, order), order_key(value, order));
        }
    } else {
        let order = choose|order: ByteOrder| orders.contains(order);
        lemma_less_is_irreflexive(order_key(value, order));
        assert(!outside_by(t, value, value, order));
    }
}

/// Bytes that stand for themselves, as those of text do, are out of a range just where they sort
/// ahead of its lower bound or behind its upper one.
pub proof fn law_text_is_compared_as_it_is(t: Seq<u8>, lo: Seq<u8>, hi: Seq<u8>)
    requires
        t.len() == lo.len(),
        t.len() == hi.len(),
    ensures
        outside(t, lo, hi, orders_of(Some(ByteOrder::Plain))) <==> bytes_less(t, lo) || bytes_less(
            hi,
            t,
        ),
{
    let orders = orders_of(Some(ByteOrder::Plain));
    assert(orders.contains(ByteOrder::Plain));
    if outside(t, lo, hi, orders) {
        assert(outside_by(t, lo, hi, ByteOrder::Plain));
    }
}

/// A value that lies in a range by one of the orders that count is never said to be out of it.
pub proof fn law_in_range_is_not_outside(
    t: Seq<u8>,
    lo: Seq<u8>,
    hi: Seq<u8>,
    order: ByteOrder,
    orders: Set<ByteOrder>,
)
    requires
        orders.contains(order),
        !bytes_less(order_key(t, order), order_key(lo, order)),
        !bytes_less(order_key(hi, order), order_key(t, order)),
    ensures
        !outside(t, lo, hi, orders),
{
    assert(!outside_by(t, lo, hi, order));
}

proof fn lemma_le_value_last(s: Seq<u8>)
    requires
        s.len() > 0,
    ensures
        le_value(s) == le_value(s.drop_last()) + s.last() * pow256((s.len() - 1) as nat),
    decreases s.len(),
{
    if s.len() > 1 {
        let p = pow256((s.len() - 2) as nat);
        let top = s.last() as int;
        lemma_le_value_last(s.skip(1));
        assert(s.skip(1).drop_last() =~= s.drop_last().skip(1));
        assert(s.skip(1).last() == s.last());
        assert(256 * (top * p) == top * (256 * p)) by (nonlinear_arith);
        assert(s.drop_last()[0] == s[0]);
        assert(pow256((s.len() - 1) as nat) == 256 * p);
    } else {
        assert(s.skip(1) =~= Seq::<u8>::empty());
        assert(s.drop_last() =~= Seq::<u8>::empty());
        reveal_with_fuel(le_value, 2);
        let top = s.last() as int;
        assert(top * pow256(0) == top) by (nonlinear_arith)
            requires
                pow256(0) == 1,
        ;
    }
}

proof fn lemma_reversed_less_is_smaller(a: Seq<u8>, b: Seq<u8>)
    requires
        a.len() == b.len(),
        bytes_less(a.reverse(), b.reverse()),
    ensures
        le_value(a) < le_value(b),
    decreases a.len(),
{
    let x = a.reverse();
    let y = b.reverse();
    let k = choose|k: int|
        0 <= k < x.len() && k < y.len() && #[trigger] x[k] < y[k] && forall|j: int|
            0 <= j < k ==> x[j] == y[j];
    let n = a.len();
    let p = pow256((n - 1) as nat);
    lemma_le_value_last(a);
    lemma_le_value_last(b);
    lemma_le_value_bound(a.drop_last());
    let top = a.last() as int;
    let other = b.last() as int;
    assert(x[0] == a.last() && y[0] == b.last());
    if k == 0 {
        assert(top * p + p <= other * p) by (nonlinear_arith)
            requires
                top < other,
                p >= 0,
        ;
    } else {
        assert(top == other);
        let c = a.drop_last();
        let d = b.drop_last();
        assert forall|j: int| 0 <= j < n - 1 implies c.reverse()[j] == x[j + 1] && d.reverse()[j]
            == y[j + 1] by {
        }
        assert(c.reverse()[k - 1] < d.reverse()[k - 1]);
        lemma_reversed_less_is_smaller(c, d);
    }
}

/// `s`, the lowest byte first, with its sign bit turned.
spec fn turned(s: Seq<u8>) -> Seq<u8> {
    s.update(s.len() - 1, flipped(s.last()))
}

proof fn lemma_turned_value(i: int, half: int, n: nat)
    requires
        n > 0,
        -half <= i < half,
        2 * half == pow256(n),
    ensures
        ({
            let s = le_bytes(to_unsigned(i, half), n);
            &&& s.len() == n
            &&& le_value(turned(s)) == i + half
            &&& signed_key(s.reverse()) == turned(s).reverse()
        }),
{
    let u = to_unsigned(i, half);
    let s = le_bytes(u, n);
    lemma_le_value_of_le_bytes(u, n);
    let t = turned(s);
    lemma_le_value_last(s);
    lemma_le_value_last(t);
    assert(t.drop_last() =~= s.drop_last());
    lemma_le_value_bound(s.drop_last());
    let p = pow256((n - 1) as nat) as int;
    let low = le_value(s.drop_last()) as int;
    let top = s.last() as int;
    assert(half == 128 * p);
    if top < 128 {
        assert(top * p <= 127 * p && (top + 128) * p == top * p + 128 * p) by (nonlinear_arith)
            requires
                top < 128,
                p >= 0,
        ;
    } else {
        assert(top * p >= 128 * p && (top - 128) * p == top * p - 128 * p) by (nonlinear_arith)
            requires
                top >= 128,
                p >= 0,
        ;
    }
    assert(signed_key(s.reverse()) =~= t.reverse());
}

proof fn lemma_number_in_range(
    t: int,
    lo: int,
    hi: int,
    half: int,
    n: nat,
    orders: Set<ByteOrder>,
)
    requires
        orders.contains(ByteOrder::LowFirst),
        n > 0,
        -half <= lo <= t <= hi < half,
        2 * half == pow256(n),
    ensures
        !outside(
            le_bytes(to_unsigned(t, half), n),
            le_bytes(to_unsigned(lo, half), n),
            le_bytes(to_unsigned(hi, half), n),
            orders,
        ),
{
    let a = le_bytes(to_unsigned(t, half), n);
    let b = le_bytes(to_unsigned(lo, half), n);
    let c = le_bytes(to_unsigned(hi, half), n);
    lemma_turned_value(t, half, n);
    lemma_turned_value(lo, half, n);
    lemma_turned_value(hi, half, n);
    if bytes_less(order_key(a, ByteOrder::LowFirst), order_key(b, ByteOrder::LowFirst)) {
        lemma_reversed_less_is_smaller(turned(a), turned(b));
    }
    if bytes_less(order_key(c, ByteOrder::LowFirst), order_key(a, ByteOrder::LowFirst)) {
        lemma_reversed_less_is_smaller(turned(c), turned(a));
    }
    law_in_range_is_not_outside(a, b, c, ByteOrder::LowFirst, orders);
}

/// A 32-bit number that lies in a range is never said to be out of it.
pub proof fn law_int_in_range_is_not_outside(
    t: i32,
    lo: i32,
    hi: i32,
    orders: Set<ByteOrder>,
)
    requires
        orders.contains(ByteOrder::LowFirst),
        lo <= t <= hi,
    ensures
        !outside(
            bound_bytes(PrimitiveLiteral::Int(t))->0,
            bound_bytes(PrimitiveLiteral::Int(lo))->0,
            bound_bytes(PrimitiveLiteral::Int(hi))->0,
            orders,
        ),
{
    reveal_with_fuel(pow256, 5);
    lemma_number_in_range(t as int, lo as int, hi as int, 0x8000_0000, 4, orders);
}

/// A 64-bit number that lies in a range is never said to be out of it.
pub proof fn law_long_in_range_is_not_outside(
    t: i64,
    lo: i64,
    hi: i64,
    orders: Set<ByteOrder>,
)
    requires
        orders.contains(ByteOrder::LowFirst),
        lo <= t <= hi,
    ensures
        !outside(
            bound_bytes(PrimitiveLiteral::Long(t))->0,
            bound_bytes(PrimitiveLiteral::Long(lo))->0,
            bound_bytes(PrimitiveLiteral::Long(hi))->0,
            orders,
        ),
{
    reveal_with_fuel(pow256, 9);
    lemma_number_in_range(t as int, lo as int, hi as int, 0x8000_0000_0000_0000, 8, orders);
}

proof fn lemma_smaller_number_is_less(a: int, b: int, half: int, n: nat)
    requires
        n > 0,
        -half <= a < b < half,
        2 * half == pow256(n),
    ensures
        bytes_less(
            order_key(le_bytes(to_unsigned(a, half), n), ByteOrder::LowFirst),
            order_key(le_bytes(to_unsigned(b, half), n), ByteOrder::LowFirst),
        ),
{
    let s = le_bytes(to_unsigned(a, half), n);
    let t = le_bytes(to_unsigned(b, half), n);
    lemma_turned_value(a, half, n);
    lemma_turned_value(b, half, n);
    let x = turned(s).reverse();
    let y = turned(t).reverse();
    if x == y {
        assert(turned(s) =~= x.reverse());
        assert(turned(t) =~= y.reverse());
        assert(false);
    }
    lemma_distinct_bytes_are_ordered(x, y);
    if bytes_less(y, x) {
        lemma_reversed_less_is_smaller(turned(t), turned(s));
    }
}

proof fn lemma_number_range_is_exact(t: int, lo: int, hi: int, half: int, n: nat)
    requires
        n > 0,
        -half <= lo < half,
        -half <= hi < half,
        -half <= t < half,
        2 * half == pow256(n),
    ensures
        t < lo || t > hi ==> outside_by(
            le_bytes(to_unsigned(t, half), n),
            le_bytes(to_unsigned(lo, half), n),
            le_bytes(to_unsigned(hi, half), n),
            ByteOrder::LowFirst,
        ),
        le_bytes(to_unsigned(t, half), n).len() == n,
        le_bytes(to_unsigned(lo, half), n).len() == n,
        le_bytes(to_unsigned(hi, half), n).len() == n,
{
    lemma_turned_value(t, half, n);
    lemma_turned_value(lo, half, n);
    lemma_turned_value(hi, half, n);
    if t < lo {
        lemma_smaller_number_is_less(t, lo, half, n);
    }
    if t > hi {
        lemma_smaller_number_is_less(hi, t, half, n);
    }
}

/// Numbers go by their values: the bytes of a 32-bit number lie out of a range just where the
/// number does.
pub proof fn law_int_ranges_are_exact(t: i32, lo: i32, hi: i32)
    ensures
        outside(
            bound_bytes(PrimitiveLiteral::Int(t))->0,
            bound_bytes(PrimitiveLiteral::Int(lo))->0,
            bound_bytes(PrimitiveLiteral::Int(hi))->0,
            orders_of(literal_order(PrimitiveLiteral::Int(t))),
        ) <==> t < lo || t > hi,
{
    reveal_with_fuel(pow256, 5);
    let orders = orders_of(literal_order(PrimitiveLiteral::Int(t)));
    lemma_number_range_is_exact(t as int, lo as int, hi as int, 0x8000_0000, 4);
    assert(orders.contains(ByteOrder::LowFirst));
    if lo <= t <= hi {
        law_int_in_range_is_not_outside(t, lo, hi, orders);
    }
}

/// Numbers go by their values: the bytes of a 64-bit number lie out of a range just where the
/// number does.
pub proof fn law_long_ranges_are_exact(t: i64, lo: i64, hi: i64)
    ensures
        outside(
            bound_bytes(PrimitiveLiteral::Long(t))->0,
            bound_bytes(PrimitiveLiteral::Long(lo))->0,
            bound_bytes(PrimitiveLiteral::Long(hi))->0,
            orders_of(literal_order(PrimitiveLiteral::Long(t))),
        ) <==> t < lo || t > hi,
{
    reveal_with_fuel(pow256, 9);
    let orders = orders_of(literal_order(PrimitiveLiteral::Long(t)));
    lemma_number_range_is_exact(t as int, lo as int, hi as int, 0x8000_0000_0000_0000, 8);
    assert(orders.contains(ByteOrder::LowFirst));
    if lo <= t <= hi {
        law_long_in_range_is_not_outside(t, lo, hi, orders);
    }
}

/// Byte strings of one length are ordered strictly: of two different ones, one is less and the
/// other is not.
pub proof fn law_byte_strings_are_ordered(a: Seq<u8>, b: Seq<u8>)
    requires
        a.len() == b.len(),
    ensures
        a != b <==> bytes_less(a, b) || bytes_less(b, a),
        !(bytes_less(a, b) && bytes_less(b, a)),
{
    if a != b {
        lemma_distinct_bytes_are_ordered(a, b);
    } else {
        lemma_less_is_irreflexive(a);
    }
    if bytes_less(a, b) && bytes_less(b, a) {
        let j = choose|j: int|
            0 <= j < a.len() && j < b.len() && #[trigger] a[j] < b[j] && forall|i: int|
                0 <= i < j ==> a[i] == b[i];
        let k = choose|k: int|
            0 <= k < b.len() && k < a.len() && #[trigger] b[k] < a[k] && forall|i: int|
                0 <= i < k ==> b[i] == a[i];
        if j < k {
            assert(b[j] == a[j]);
        } else if k < j {
            assert(a[k] == b[k]);
        }
    }
}

/// The sign decides first: highest byte first, a negative number is less than any other. Of two
/// numbers of one sign the bytes decide, the other way round for negative numbers of a sign and a
/// magnitude.
pub proof fn law_signs_come_first(a: Seq<u8>, b: Seq<u8>)
    requires
        a.len() == b.len(),
        a.len() > 0,
    ensures
        a[0] >= 128 && b[0] < 128 ==> bytes_less(signed_key(a), signed_key(b)) && bytes_less(
            float_key(a),
            float_key(b),
        ),
        (a[0] >= 128 <==> b[0] >= 128) ==> (bytes_less(signed_key(a), signed_key(b)) <==> bytes_less(
            a,
            b,
        )),
        a[0] < 128 && b[0] < 128 ==> (bytes_less(float_key(a), float_key(b)) <==> bytes_less(a, b)),
        a[0] >= 128 && b[0] >= 128 ==> (bytes_less(float_key(a), float_key(b)) <==> bytes_less(
            b,
            a,
        )),
{
    let sa = signed_key(a);
    let sb = signed_key(b);
    let fa = float_key(a);
    let fb = float_key(b);
    if a[0] >= 128 && b[0] < 128 {
        assert(sa[0] < sb[0]);
        assert(fa[0] < fb[0]);
    }
    if a[0] >= 128 <==> b[0] >= 128 {
        assert(forall|i: int| 0 <= i < a.len() ==> (#[trigger] sa[i] == sb[i] <==> a[i] == b[i]));
        assert(forall|i: int| 0 <= i < a.len() ==> (#[trigger] sa[i] < sb[i] <==> a[i] < b[i]));
        if bytes_less(sa, sb) {
            let k = choose|k: int|
                0 <= k < sa.len() && k < sb.len() && #[trigger] sa[k] < sb[k] && forall|j: int|
                    0 <= j < k ==> sa[j] == sb[j];
            assert(a[k] < b[k]);
            assert forall|j: int| 0 <= j < k implies a[j] == b[j] by {
                assert(sa[j] == sb[j]);
            }
        }
        if bytes_less(a, b) {
            let k = choose|k: int|
                0 <= k < a.len() && k < b.len() && #[trigger] a[k] < b[k] && forall|j: int|
                    0 <= j < k ==> a[j] == b[j];
            assert(sa[k] < sb[k]);
        }
    }
    if a[0] >= 128 && b[0] >= 128 {
        assert(forall|i: int| 0 <= i < a.len() ==> #[trigger] fa[i] == 255 - a[i]);
        assert(forall|i: int| 0 <= i < b.len() ==> #[trigger] fb[i] == 255 - b[i]);
        if bytes_less(fa, fb) {
            let k = choose|k: int|
                0 <= k < fa.len() && k < fb.len() && #[trigger] fa[k] < fb[k] && forall|j: int|
                    0 <= j < k ==> fa[j] == fb[j];
            assert(b[k] < a[k]);
            assert forall|j: int| 0 <= j < k implies b[j] == a[j] by {
                assert(fa[j] == fb[j]);
            }
        }
        if bytes_less(b, a) {
            let k = choose|k: int|
                0 <= k < b.len() && k < a.len() && #[trigger] b[k] < a[k] && forall|j: int|
                    0 <= j < k ==> b[j] == a[j];
            assert(fa[k] < fb[k]);
        }
    }
}

/// Bytes are read highest first or lowest first: in the first case they are compared as they stand,
/// in the second turned round. Of a kind whose order is not known, every order is considered, and a
/// value is out of a range only where it is in all of them.
pub proof fn law_unknown_orders_exclude_nothing_by_themselves(
    t: Seq<u8>,
    lo: Seq<u8>,
    hi: Seq<u8>,
    p: PrimitiveLiteral,
)
    ensures
        order_key(t, ByteOrder::Plain) == t,
        order_key(t, ByteOrder::HighFirst) == signed_key(t),
        order_key(t, ByteOrder::LowFirst) == signed_key(t.reverse()),
        order_key(t, ByteOrder::LowFirstFloat) == float_key(t.reverse()),
        p is Boolean || p is Text || p is Binary ==> literal_order(p) == Some(ByteOrder::Plain),
        p is Int || p is Long ==> literal_order(p) == Some(ByteOrder::LowFirst),
        p is Other ==> literal_order(p) is None,
        outside(t, lo, hi, orders_of(None)) <==> t.len() == lo.len() && t.len() == hi.len()
            && forall|order: ByteOrder|
            (bytes_less(#[trigger] order_key(t, order), order_key(lo, order)) || bytes_less(
                order_key(hi, order),
                order_key(t, order),
            )),
{
    if outside(t, lo, hi, orders_of(None)) {
        assert forall|order: ByteOrder|
            (bytes_less(#[trigger] order_key(t, order), order_key(lo, order)) || bytes_less(
                order_key(hi, order),
                order_key(t, order),
            )) by {
            assert(outside_by(t, lo, hi, order));
        }
    }
    if t.len() == lo.len() && t.len() == hi.len() && forall|order: ByteOrder|
        (bytes_less(#[trigger] order_key(t, order), order_key(lo, order)) || bytes_less(
            order_key(hi, order),
            order_key(t, order),
        )) {
        assert forall|order: ByteOrder| orders_of(None).contains(order) implies
            #[trigger] outside_by(t, lo, hi, order) by {
            assert(bytes_less(order_key(t, order), order_key(lo, order)) || bytes_less(
                order_key(hi, order),
                order_key(t, order),
            ));
        }
    }
}

} // verus!
