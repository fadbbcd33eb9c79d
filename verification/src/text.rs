//! Decimal numbers, property values and byte strings as text.

use vstd::prelude::*;
use vstd::string::StringExecFns;
use vstd::utf8::{encode_utf8, encode_utf8_decode_utf8};

verus! {

broadcast use vstd::string::group_string_axioms;

/// The decimal digit `d`, for `d` below ten.
pub open spec fn digit(d: nat) -> Seq<char> {
    if d == 0 {
        "0"@
    } else if d == 1 {
        "1"@
    } else if d == 2 {
        "2"@
    } else if d == 3 {
        "3"@
    } else if d == 4 {
        "4"@
    } else if d == 5 {
        "5"@
    } else if d == 6 {
        "6"@
    } else if d == 7 {
        "7"@
    } else if d == 8 {
        "8"@
    } else {
        "9"@
    }
}

/// `n` in decimal, without leading zeros.
pub open spec fn decimal(n: nat) -> Seq<char>
    decreases n,
{
    if n < 10 {
        digit(n)
    } else {
        decimal(n / 10) + digit(n % 10)
    }
}

/// `i` in decimal, with a leading minus where it is negative.
pub open spec fn signed_decimal(i: int) -> Seq<char> {
    if i < 0 {
        "-"@ + decimal((-i) as nat)
    } else {
        decimal(i as nat)
    }
}

/// Whether `c` is a decimal digit.
pub open spec fn is_digit_char(c: char) -> bool {
    '0' <= c <= '9'
}

proof fn lemma_digit(d: nat)
    requires
        d < 10,
    ensures
        digit(d).len() == 1,
        is_digit_char(digit(d)[0]),
        digit(d)[0] as int == 48 + d,
{
    reveal_strlit("0");
    reveal_strlit("1");
    reveal_strlit("2");
    reveal_strlit("3");
    reveal_strlit("4");
    reveal_strlit("5");
    reveal_strlit("6");
    reveal_strlit("7");
    reveal_strlit("8");
    reveal_strlit("9");
}

/// A number in decimal has at least one digit and nothing but digits.
pub proof fn lemma_decimal_is_digits(n: nat)
    ensures
        decimal(n).len() > 0,
        forall|i: int| 0 <= i < decimal(n).len() ==> is_digit_char(#[trigger] decimal(n)[i]),
    decreases n,
{
    if n < 10 {
        lemma_digit(n);
    } else {
        lemma_decimal_is_digits(n / 10);
        lemma_digit(n % 10);
    }
}

/// Different numbers are different in decimal.
pub proof fn lemma_decimals_differ(m: nat, n: nat)
    requires
        decimal(m) == decimal(n),
    ensures
        m == n,
    decreases m,
{
    lemma_decimal_is_digits(m / 10);
    lemma_decimal_is_digits(n / 10);
    lemma_digit(m % 10);
    lemma_digit(n % 10);
    if m >= 10 && n >= 10 {
        assert(decimal(m).drop_last() =~= decimal(m / 10));
        assert(decimal(n).drop_last() =~= decimal(n / 10));
        assert(decimal(m).last() == digit(m % 10)[0]);
        assert(decimal(n).last() == digit(n % 10)[0]);
        lemma_decimals_differ(m / 10, n / 10);
    } else if m < 10 && n < 10 {
        lemma_digit(m);
        lemma_digit(n);
    } else if m < 10 {
        lemma_digit(m);
    } else {
        lemma_digit(n);
    }
}

fn digit_of(d: u64) -> (s: &'static str)
    requires
        d < 10,
    ensures
        s@ == digit(d as nat),
{
    match d {
        0 => "0",
        1 => "1",
        2 => "2",
        3 => "3",
        4 => "4",
        5 => "5",
        6 => "6",
        7 => "7",
        8 => "8",
        _ => "9",
    }
}

/// Writes `n` in decimal.
pub fn decimal_of(n: u64) -> (s: String)
    ensures
        s@ == decimal(n as nat),
    decreases n,
{
    if n < 10 {
        digit_of(n).to_owned()
    } else {
        let mut s = decimal_of(n / 10);
        s.append(digit_of(n % 10));
        s
    }
}

/// Writes `i` in decimal, with a leading minus where it is negative.
pub fn signed_decimal_of(i: i64) -> (s: String)
    ensures
        s@ == signed_decimal(i as int),
{
    if i < 0 {
        let mut s = "-".to_owned();
        let magnitude: u64 = (-(i as i128)) as u64;
        s.append(decimal_of(magnitude).as_str());
        s
    } else {
        decimal_of(i as u64)
    }
}

/// Whether two byte strings hold the same bytes.
pub fn same_bytes(a: &[u8], b: &[u8]) -> (r: bool)
    ensures
        r == (a@ == b@),
{
    if a.len() != b.len() {
        return false;
    }
    let mut i: usize = 0;
    while i < a.len()
        invariant
            i <= a@.len(),
            a@.len() == b@.len(),
            forall|k: int| 0 <= k < i ==> a@[k] == b@[k],
        decreases a@.len() - i,
    {
        if a[i] != b[i] {
            return false;
        }
        i = i + 1;
    }
    assert(a@ =~= b@);
    true
}

/// Whether two texts are the same.
pub fn same_text(a: &str, b: &str) -> (r: bool)
    ensures
        r == (a@ == b@),
{
    proof {
        encode_utf8_decode_utf8(a@);
        encode_utf8_decode_utf8(b@);
    }
    same_bytes(a.as_bytes(), b.as_bytes())
}

/// `b` with an ASCII capital letter turned into its small letter.
pub open spec fn lower(b: u8) -> u8 {
    if 65 <= b <= 90 {
        (b + 32) as u8
    } else {
        b
    }
}

/// Whether two texts are the same but for the case of their ASCII letters.
pub open spec fn same_ignoring_case(a: Seq<char>, b: Seq<char>) -> bool {
    let x = encode_utf8(a);
    let y = encode_utf8(b);
    x.len() == y.len() && forall|i: int| 0 <= i < x.len() ==> lower(#[trigger] x[i]) == lower(y[i])
}

fn lower_of(b: u8) -> (r: u8)
    ensures
        r == lower(b),
{
    if 65 <= b && b <= 90 {
        b + 32
    } else {
        b
    }
}

/// Compares two texts, taking ASCII capital and small letters for the same.
pub fn eq_ignore_ascii_case(a: &str, b: &str) -> (r: bool)
    ensures
        r == same_ignoring_case(a@, b@),
{
    let x = a.as_bytes();
    let y = b.as_bytes();
    if x.len() != y.len() {
        return false;
    }
    let mut i: usize = 0;
    while i < x.len()
        invariant
            i <= x@.len(),
            x@.len() == y@.len(),
            x@ == encode_utf8(a@),
            y@ == encode_utf8(b@),
            forall|k: int| 0 <= k < i ==> lower(#[trigger] x@[k]) == lower(y@[k]),
        decreases x@.len() - i,
    {
        if lower_of(x[i]) != lower_of(y[i]) {
            return false;
        }
        i = i + 1;
    }
    true
}

/// Whether `b` is an ASCII decimal digit.
pub open spec fn is_digit(b: u8) -> bool {
    48 <= b <= 57
}

/// The number that the digits `s` write in decimal.
pub open spec fn digits_value(s: Seq<u8>) -> nat
    decreases s.len(),
{
    if s.len() == 0 {
        0
    } else {
        digits_value(s.drop_last()) * 10 + (s.last() - 48) as nat
    }
}

/// The bytes of `s` behind its plus sign, where it begins with one.
pub open spec fn unsigned_part(s: Seq<char>) -> Seq<u8> {
    let bytes = encode_utf8(s);
    if bytes.len() > 0 && bytes[0] == 43 {
        bytes.skip(1)
    } else {
        bytes.skip(0)
    }
}

/// The number that `s` writes: decimal digits, at least one, behind at most one plus sign.
pub open spec fn parsed(s: Seq<char>) -> Option<nat> {
    let digits = unsigned_part(s);
    if digits.len() > 0 && forall|i: int| 0 <= i < digits.len() ==> is_digit(#[trigger] digits[i]) {
        Some(digits_value(digits))
    } else {
        None
    }
}

/// The number that `s` writes, where it is at most `max`.
pub open spec fn parsed_within(s: Seq<char>, max: nat) -> Option<nat> {
    match parsed(s) {
        Some(n) => if n <= max {
            Some(n)
        } else {
            None
        },
        None => None,
    }
}

proof fn lemma_digits_value_grows(s: Seq<u8>, n: int)
    requires
        0 <= n <= s.len(),
    ensures
        digits_value(s.take(n)) <= digits_value(s),
    decreases s.len(),
{
    if n < s.len() {
        lemma_digits_value_grows(s.drop_last(), n);
        assert(s.drop_last().take(n) =~= s.take(n));
    } else {
        assert(s.take(n) =~= s);
    }
}

/// Reads an unsigned number of at most 64 bits.
pub fn parse_u64(s: &str) -> (r: Option<u64>)
    ensures
        match r {
            Some(n) => parsed_within(s@, u64::MAX as nat) == Some(n as nat),
            None => parsed_within(s@, u64::MAX as nat) is None,
        },
{
    let bytes = s.as_bytes();
    let start: usize = if bytes.len() > 0 && bytes[0] == 43 { 1 } else { 0 };
    let ghost digits = unsigned_part(s@);
    if bytes.len() == start {
        return None;
    }
    let mut value: u64 = 0;
    let mut i: usize = start;
    while i < bytes.len()
        invariant
            start <= i <= bytes@.len(),
            start < bytes@.len(),
            digits == unsigned_part(s@),
            digits == bytes@.skip(start as int),
            forall|k: int| 0 <= k < i - start ==> is_digit(#[trigger] digits[k]),
            value == digits_value(digits.take(i - start)),
        decreases bytes@.len() - i,
    {
        let b = bytes[i];
        assert(digits[i - start] == b);
        if b < 48 || b > 57 {
            return None;
        }
        let wide: u128 = (value as u128) * 10 + ((b - 48) as u128);
        proof {
            let next = digits.take(i - start + 1);
            assert(next.drop_last() =~= digits.take(i - start));
            assert(next.last() == b);
            lemma_digits_value_grows(digits, i - start + 1);
        }
        if wide > 0xFFFF_FFFF_FFFF_FFFFu128 {
            return None;
        }
        value = wide as u64;
        i = i + 1;
    }
    assert(digits.take(i - start) =~= digits);
    Some(value)
}

/// Reads an unsigned number of at most the machine's address width.
pub fn parse_usize(s: &str) -> (r: Option<usize>)
    ensures
        match r {
            Some(n) => parsed_within(s@, usize::MAX as nat) == Some(n as nat),
            None => parsed_within(s@, usize::MAX as nat) is None,
        },
{
    match parse_u64(s) {
        Some(n) => if n <= usize::MAX as u64 {
            Some(n as usize)
        } else {
            None
        },
        None => None,
    }
}

/// The texts of `parts`, one behind the other, with `separator` between two of them.
pub open spec fn joined(parts: Seq<Seq<char>>, separator: Seq<char>) -> Seq<char>
    decreases parts.len(),
{
    if parts.len() == 0 {
        Seq::empty()
    } else if parts.len() == 1 {
        parts[0]
    } else {
        joined(parts.drop_last(), separator) + separator + parts.last()
    }
}

/// The texts that a list of strings holds.
pub open spec fn texts(parts: Seq<String>) -> Seq<Seq<char>> {
    parts.map_values(|s: String| s@)
}

/// Joins `parts` with `separator` between two of them.
pub fn join(parts: &[String], separator: &str) -> (s: String)
    ensures
        s@ == joined(texts(parts@), separator@),
{
    let mut s = String::new();
    let mut i: usize = 0;
    while i < parts.len()
        invariant
            i <= parts@.len(),
            s@ == joined(texts(parts@).take(i as int), separator@),
        decreases parts@.len() - i,
    {
        if i > 0 {
            s.append(separator);
        }
        s.append(parts[i].as_str());
        proof {
            let next = texts(parts@).take(i + 1);
            assert(next.drop_last() =~= texts(parts@).take(i as int));
            assert(next.last() == parts@[i as int]@);
            if i == 0 {
                assert(s@ =~= next[0]);
            }
        }
        i = i + 1;
    }
    assert(texts(parts@).take(i as int) =~= texts(parts@));
    s
}

/// A number is written digit by digit: the last digit is its remainder by ten, and ahead of it
/// stands what is left of the number, if anything is. A negative number is written as its opposite
/// behind a minus sign.
pub proof fn law_decimals_are_positional(n: nat, i: int)
    ensures
        decimal(n).len() > 0,
        decimal(n).last() as int == 48 + n % 10,
        n < 10 ==> decimal(n).len() == 1,
        n >= 10 ==> decimal(n).drop_last() == decimal(n / 10),
        i >= 0 ==> signed_decimal(i) == decimal(i as nat),
        i < 0 ==> signed_decimal(i).len() > 1 && signed_decimal(i)[0] == '-' && signed_decimal(
            i,
        ).skip(1) == decimal((-i) as nat),
{
    reveal_strlit("0");
    reveal_strlit("1");
    reveal_strlit("2");
    reveal_strlit("3");
    reveal_strlit("4");
    reveal_strlit("5");
    reveal_strlit("6");
    reveal_strlit("7");
    reveal_strlit("8");
    reveal_strlit("9");
    reveal_strlit("-");
    if n >= 10 {
        assert(decimal(n).drop_last() =~= decimal(n / 10));
    }
    if i < 0 {
        lemma_decimal_is_digits((-i) as nat);
        assert(signed_decimal(i).skip(1) =~= decimal((-i) as nat));
    }
}

/// Numbers are told apart by how they are written.
pub proof fn law_signed_decimals_differ(i: int, j: int)
    requires
        i != j,
    ensures
        signed_decimal(i) != signed_decimal(j),
{
    reveal_strlit("-");
    law_decimals_are_positional(0, i);
    law_decimals_are_positional(0, j);
    if i >= 0 {
        lemma_decimal_is_digits(i as nat);
        assert(decimal(i as nat)[0] != '-');
    }
    if j >= 0 {
        lemma_decimal_is_digits(j as nat);
        assert(decimal(j as nat)[0] != '-');
    }
    if i >= 0 && j >= 0 && signed_decimal(i) == signed_decimal(j) {
        lemma_decimals_differ(i as nat, j as nat);
    }
    if i < 0 && j < 0 && signed_decimal(i) == signed_decimal(j) {
        lemma_decimals_differ((-i) as nat, (-j) as nat);
    }
}

/// Texts are the same but for case where they are of one length and differ at most in that a
/// capital letter of one stands where the other has the small one.
pub proof fn law_only_letters_have_a_case(a: Seq<char>, b: Seq<char>)
    ensures
        same_ignoring_case(a, b) <==> {
            let x = encode_utf8(a);
            let y = encode_utf8(b);
            x.len() == y.len() && forall|i: int|
                0 <= i < x.len() ==> #[trigger] x[i] == y[i] || (65 <= x[i] <= 90 && y[i] == x[i]
                    + 32) || (65 <= y[i] <= 90 && x[i] == y[i] + 32)
        },
{
    let x = encode_utf8(a);
    let y = encode_utf8(b);
    if same_ignoring_case(a, b) {
        assert forall|i: int| 0 <= i < x.len() implies #[trigger] x[i] == y[i] || (65 <= x[i] <= 90
            && y[i] == x[i] + 32) || (65 <= y[i] <= 90 && x[i] == y[i] + 32) by {
            assert(lower(x[i]) == lower(y[i]));
        }
    }
}

/// A number is read from digits alone, with or without a plus sign ahead of them: each digit counts
/// ten times what stands behind it, and without a digit there is no number.
pub proof fn law_numbers_are_read_from_digits(s: Seq<char>, max: nat, n: nat)
    ensures
        encode_utf8(s).len() > 0 && encode_utf8(s)[0] == 43 ==> (parsed(s) is Some <==> encode_utf8(
            s,
        ).len() > 1 && forall|i: int|
            1 <= i < encode_utf8(s).len() ==> 48 <= #[trigger] encode_utf8(s)[i] <= 57),
        encode_utf8(s).len() > 0 && encode_utf8(s)[0] == 43 && parsed(s) is Some ==> parsed(s)->0
            == digits_value(encode_utf8(s).skip(1)),
        encode_utf8(s).len() == 0 ==> parsed(s) is None,
        encode_utf8(s).len() > 0 && encode_utf8(s)[0] != 43 ==> (parsed(s) is Some <==> forall|
            i: int,
        |
            0 <= i < encode_utf8(s).len() ==> 48 <= #[trigger] encode_utf8(s)[i] <= 57),
        encode_utf8(s).len() > 0 && encode_utf8(s)[0] != 43 && parsed(s) is Some ==> parsed(s)->0
            == digits_value(encode_utf8(s)),
        parsed_within(s, max) == Some(n) <==> parsed(s) == Some(n) && n <= max,
{
    let bytes = encode_utf8(s);
    assert(bytes.skip(0) =~= bytes);
    let digits = unsigned_part(s);
    let from: int = if bytes.len() > 0 && bytes[0] == 43 {
        1
    } else {
        0
    };
    assert(forall|i: int| 0 <= i < digits.len() ==> #[trigger] digits[i] == bytes[from + i]);
    assert(forall|i: int| from <= i < bytes.len() ==> #[trigger] bytes[i] == digits[i - from]);
    if parsed(s) is Some {
        assert forall|i: int| from <= i < bytes.len() implies 48 <= #[trigger] bytes[i] <= 57 by {
            assert(is_digit(digits[i - from]));
        }
    }
    if forall|i: int| from <= i < bytes.len() ==> 48 <= #[trigger] bytes[i] <= 57 {
        assert forall|i: int| 0 <= i < digits.len() implies is_digit(#[trigger] digits[i]) by {
            assert(48 <= bytes[from + i] <= 57);
        }
    }
}

/// One more digit makes ten times the number and the digit.
pub proof fn law_a_digit_more_is_ten_times(s: Seq<u8>, d: u8)
    requires
        48 <= d <= 57,
    ensures
        digits_value(Seq::empty()) == 0,
        digits_value(s.push(d)) == 10 * digits_value(s) + (d - 48),
{
    assert(s.push(d).drop_last() =~= s);
}

/// A separator stands between every two parts, and nowhere else.
pub proof fn law_separators_stand_between_parts(
    parts: Seq<Seq<char>>,
    part: Seq<char>,
    separator: Seq<char>,
)
    ensures
        joined(Seq::empty(), separator) == Seq::<char>::empty(),
        joined(seq![part], separator) == part,
        parts.len() > 0 ==> joined(parts.push(part), separator) == joined(parts, separator)
            + separator + part,
{
    assert(parts.push(part).drop_last() =~= parts);
}

} // verus!
