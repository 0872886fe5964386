//! Reading and writing of decimal and hexadecimal numbers.
use vstd::prelude::*;
use vstd::string::*;

use crate::text::to_chars;

verus! {

/// The decimal or hexadecimal digit for `d`, in lower case.
pub open spec fn digit_char(d: nat) -> char {
    if d < 10 {
        (48 + d) as char
    } else {
        (87 + d) as char
    }
}

/// The decimal notation of `n`, without leading zeros.
pub open spec fn decimal(n: nat) -> Seq<char>
    decreases n,
{
    if n < 10 {
        seq![digit_char(n)]
    } else {
        decimal(n / 10).push(digit_char(n % 10))
    }
}

/// The decimal notation of a signed number.
pub open spec fn signed_decimal(n: int) -> Seq<char> {
    if n < 0 {
        seq!['-'] + decimal((-n) as nat)
    } else {
        decimal(n as nat)
    }
}

/// The eight hexadecimal digits of a 32-bit number.
pub open spec fn hex8(n: nat) -> Seq<char> {
    seq![
        digit_char(n / 0x10000000 % 16),
        digit_char(n / 0x1000000 % 16),
        digit_char(n / 0x100000 % 16),
        digit_char(n / 0x10000 % 16),
        digit_char(n / 0x1000 % 16),
        digit_char(n / 0x100 % 16),
        digit_char(n / 0x10 % 16),
        digit_char(n % 16),
    ]
}

fn digit_text(d: u64) -> (r: &'static str)
    requires
        d < 16,
    ensures
        r@ == seq![digit_char(d as nat)],
{
    proof {
        reveal_strlit("0");
        reveal_strlit("1");
        reveal_strlit("2");
        reveal_strlit("3");
        reveal_strlit("4");
        reveal_strlit("5");
        reveal_strlit("6");
        reveal_strlit("7");
        reveal_strlit("8");
        reveal_strlit("9");
        reveal_strlit("a");
        reveal_strlit("b");
        reveal_strlit("c");
        reveal_strlit("d");
        reveal_strlit("e");
        reveal_strlit("f");
    }
    match d {
        0 => "0",
        1 => "1",
        2 => "2",
        3 => "3",
        4 => "4",
        5 => "5",
        6 => "6",
        7 => "7",
        8 => "8",
        9 => "9",
        10 => "a",
        11 => "b",
        12 => "c",
        13 => "d",
        14 => "e",
        _ => "f",
    }
}

/// Writes `n` in decimal notation.
pub fn decimal_text(n: u64) -> (r: String)
    ensures
        r@ == decimal(n as nat),
    decreases n,
{
    if n < 10 {
        digit_text(n).to_owned()
    } else {
        let mut out = decimal_text(n / 10);
        out.append(digit_text(n % 10));
        assert(out@ == decimal((n / 10) as nat).push(digit_char((n % 10) as nat)));
        out
    }
}

/// Writes a signed number in decimal notation.
pub fn signed_decimal_text(n: i64) -> (r: String)
    ensures
        r@ == signed_decimal(n as int),
{
    if n < 0 {
        let magnitude: u64 = if n == i64::MIN {
            0x8000_0000_0000_0000u64
        } else {
            (-n) as u64
        };
        let mut out = "-".to_owned();
        let digits = decimal_text(magnitude);
        out.append(digits.as_str());
        proof {
            reveal_strlit("-");
        }
        assert(out@ == signed_decimal(n as int));
        out
    } else {
        decimal_text(n as u64)
    }
}

/// Writes `n` as eight hexadecimal digits.
pub fn hex8_text(n: u32) -> (r: String)
    ensures
        r@ == hex8(n as nat),
{
    let v: u64 = n as u64;
    let mut out = digit_text(v / 0x10000000 % 16).to_owned();
    out.append(digit_text(v / 0x1000000 % 16));
    out.append(digit_text(v / 0x100000 % 16));
    out.append(digit_text(v / 0x10000 % 16));
    out.append(digit_text(v / 0x1000 % 16));
    out.append(digit_text(v / 0x100 % 16));
    out.append(digit_text(v / 0x10 % 16));
    out.append(digit_text(v % 16));
    assert(out@ == hex8(n as nat));
    out
}

/// Tells whether `c` is an ASCII decimal digit.
pub open spec fn is_digit(c: char) -> bool {
    48 <= c as u32 <= 57
}

/// The value of a run of decimal digits.
pub open spec fn decimal_value(s: Seq<char>) -> nat
    decreases s.len(),
{
    if s.len() == 0 {
        0
    } else {
        decimal_value(s.drop_last()) * 10 + (s.last() as u32 - 48) as nat
    }
}

/// The digits of a number that may carry a leading plus sign.
pub open spec fn unsigned_digits(s: Seq<char>) -> Seq<char> {
    if s.len() > 0 && s.first() == '+' {
        s.drop_first()
    } else {
        s
    }
}

/// The number that `s` spells, where it is an optional plus sign followed by one
/// or more decimal digits and is no greater than `max`.
pub open spec fn unsigned_number(s: Seq<char>, max: nat) -> Option<nat> {
    let digits = unsigned_digits(s);
    if digits.len() > 0 && (forall|i: int| 0 <= i < digits.len() ==> is_digit(#[trigger] digits[i]))
        && decimal_value(digits) <= max {
        Some(decimal_value(digits))
    } else {
        None
    }
}

proof fn lemma_value_grows(s: Seq<char>, k: int)
    requires
        0 <= k <= s.len(),
        forall|i: int| 0 <= i < s.len() ==> is_digit(#[trigger] s[i]),
    ensures
        decimal_value(s.take(k)) <= decimal_value(s),
    decreases s.len(),
{
    if k < s.len() {
        lemma_value_grows(s.drop_last(), k);
        assert(s.drop_last().take(k) == s.take(k));
    } else {
        assert(s.take(k) == s);
    }
}

/// Reads an unsigned number no greater than `max`.
pub fn parse_unsigned(s: &str, max: u64) -> (r: Option<u64>)
    ensures
        match r {
            Some(n) => unsigned_number(s@, max as nat) == Some(n as nat),
            None => unsigned_number(s@, max as nat) is None,
        },
{
    let chars = to_chars(s);
    let n: usize = chars.len();
    let start: usize = if n > 0 && chars[0] == '+' {
        1
    } else {
        0
    };
    let ghost digits = unsigned_digits(s@);
    assert(digits == s@.skip(start as int));
    if start == n {
        return None;
    }
    let mut value: u64 = 0;
    let mut i: usize = start;
    assert(digits.take(0) == Seq::<char>::empty());
    while i < n
        invariant
            chars@ == s@,
            n == chars.len(),
            start <= i <= n,
            digits == s@.skip(start as int),
            digits == unsigned_digits(s@),
            forall|k: int| 0 <= k < i - start ==> is_digit(#[trigger] digits[k]),
            value == decimal_value(digits.take(i - start)),
            value <= max,
        decreases n - i,
    {
        let c: u32 = chars[i] as u32;
        assert(digits[i - start] == chars@[i as int]);
        if c < 48 || c > 57 {
            return None;
        }
        let d: u64 = (c - 48) as u64;
        proof {
            let next = digits.take(i - start + 1);
            assert(next.drop_last() == digits.take(i - start));
            assert(next.last() == digits[i - start]);
            assert(decimal_value(next) == value * 10 + d);
            if forall|k: int| 0 <= k < digits.len() ==> is_digit(#[trigger] digits[k]) {
                lemma_value_grows(digits, i - start + 1);
            }
        }
        if d > max || value > (max - d) / 10 {
            return None;
        }
        value = value * 10 + d;
        i = i + 1;
    }
    assert(digits.take(n - start) == digits);
    Some(value)
}

/// Reading a number back from its decimal notation gives the number.
pub proof fn decimal_reads_back(n: nat, max: nat)
    requires
        n <= max,
    ensures
        unsigned_number(decimal(n), max) == Some(n),
{
    lemma_decimal_digits(n);
    assert(decimal(n).first() != '+');
}

proof fn lemma_decimal_digits(n: nat)
    ensures
        decimal(n).len() > 0,
        forall|i: int| 0 <= i < decimal(n).len() ==> is_digit(#[trigger] decimal(n)[i]),
        decimal_value(decimal(n)) == n,
    decreases n,
{
    if n < 10 {
        assert(decimal(n).drop_last() == Seq::<char>::empty());
        assert(decimal_value(Seq::<char>::empty()) == 0);
        assert(decimal(n).last() as u32 == 48 + n);
    } else {
        lemma_decimal_digits(n / 10);
        assert(decimal(n).drop_last() == decimal(n / 10));
        assert(decimal(n).last() as u32 == 48 + n % 10);
    }
}

/// A digit behind a number makes ten times the number and the digit.
pub proof fn digits_count_by_tens(s: Seq<char>, d: nat, max: nat)
    requires
        unsigned_number(s, max) is Some,
        d < 10,
    ensures
        unsigned_number(s.push((48 + d) as char), max) == if unsigned_number(s, max)->0 * 10 + d
            <= max {
            Some(unsigned_number(s, max)->0 * 10 + d)
        } else {
            None
        },
{
    let c = (48 + d) as char;
    let t = s.push(c);
    let digits = unsigned_digits(s);
    assert(t.first() == s.first());
    assert(unsigned_digits(t) == digits.push(c));
    assert(digits.push(c).drop_last() == digits);
    assert(c as u32 == 48 + d);
    assert forall|i: int| 0 <= i < digits.push(c).len() implies is_digit(
        #[trigger] digits.push(c)[i],
    ) by {
        if i < digits.len() {
            assert(is_digit(digits[i]));
        }
    }
}

/// One digit spells its number, with or without a plus sign before it.
pub proof fn one_digit_spells_its_number(d: nat, max: nat)
    requires
        d < 10,
        d <= max,
    ensures
        unsigned_number(seq![(48 + d) as char], max) == Some(d),
        unsigned_number(seq!['+', (48 + d) as char], max) == Some(d),
{
    let c = (48 + d) as char;
    let s = seq![c];
    assert(c as u32 == 48 + d);
    assert(s.drop_last() == Seq::<char>::empty());
    assert(decimal_value(s.drop_last()) == 0);
    assert(unsigned_digits(s) == s);
    assert(seq!['+', c].drop_first() == s);
}

/// A text that holds anything but digits behind an optional plus sign spells no number.
pub proof fn only_digits_spell_a_number(s: Seq<char>, max: nat)
    requires
        unsigned_number(s, max) is Some,
    ensures
        s.len() > 0,
        forall|i: int| 1 <= i < s.len() ==> 48 <= (#[trigger] s[i]) as u32 <= 57,
        s[0] == '+' && s.len() > 1 || 48 <= s[0] as u32 <= 57,
        unsigned_number(s, max)->0 <= max,
{
    let digits = unsigned_digits(s);
    assert(is_digit(digits[0]));
    assert forall|i: int| 1 <= i < s.len() implies 48 <= (#[trigger] s[i]) as u32 <= 57 by {
        if s.first() == '+' {
            assert(is_digit(digits[i - 1]));
        } else {
            assert(is_digit(digits[i]));
        }
    }
}

/// The decimal notation of a number is that of its tens and its last digit; a negative number has a
/// minus sign before it.
pub proof fn decimal_notation_is_by_tens(n: nat, d: nat)
    requires
        d < 10,
    ensures
        decimal(d) == seq![(48 + d) as char],
        n > 0 ==> decimal(10 * n + d) == decimal(n).push((48 + d) as char),
        signed_decimal(n as int) == decimal(n),
        n > 0 ==> signed_decimal(-(n as int)) == seq!['-'] + decimal(n),
{
    if n > 0 {
        assert((10 * n + d) / 10 == n);
        assert((10 * n + d) % 10 == d);
    }
}

/// The value of a hexadecimal digit in lower case.
pub open spec fn hex_value(c: char) -> int {
    if c as int <= 57 {
        c as int - 48
    } else {
        c as int - 87
    }
}

/// The eight hexadecimal digits of a number spell it.
pub proof fn hexadecimal_reads_back(n: nat)
    requires
        n <= 0xffff_ffff,
    ensures
        hex8(n).len() == 8,
        n == hex_value(hex8(n)[0]) * 0x10000000 + hex_value(hex8(n)[1]) * 0x1000000 + hex_value(
            hex8(n)[2],
        ) * 0x100000 + hex_value(hex8(n)[3]) * 0x10000 + hex_value(hex8(n)[4]) * 0x1000 + hex_value(
            hex8(n)[5],
        ) * 0x100 + hex_value(hex8(n)[6]) * 0x10 + hex_value(hex8(n)[7]),
{
    let d0 = n / 0x10000000 % 16;
    let d1 = n / 0x1000000 % 16;
    let d2 = n / 0x100000 % 16;
    let d3 = n / 0x10000 % 16;
    let d4 = n / 0x1000 % 16;
    let d5 = n / 0x100 % 16;
    let d6 = n / 0x10 % 16;
    let d7 = n % 16;
    lemma_hex_digit(d0);
    lemma_hex_digit(d1);
    lemma_hex_digit(d2);
    lemma_hex_digit(d3);
    lemma_hex_digit(d4);
    lemma_hex_digit(d5);
    lemma_hex_digit(d6);
    lemma_hex_digit(d7);
    lemma_sixteens(n);
}

proof fn lemma_sixteens(n: nat)
    requires
        n <= 0xffff_ffff,
    ensures
        n == (n / 0x10000000 % 16) * 0x10000000 + (n / 0x1000000 % 16) * 0x1000000 + (n / 0x100000
            % 16) * 0x100000 + (n / 0x10000 % 16) * 0x10000 + (n / 0x1000 % 16) * 0x1000 + (n
            / 0x100 % 16) * 0x100 + (n / 0x10 % 16) * 0x10 + n % 16,
{
    let n1 = n / 16;
    let n2 = n1 / 16;
    let n3 = n2 / 16;
    let n4 = n3 / 16;
    let n5 = n4 / 16;
    let n6 = n5 / 16;
    let n7 = n6 / 16;
    assert(n2 == n / 0x100);
    assert(n3 == n / 0x1000);
    assert(n4 == n / 0x10000);
    assert(n5 == n / 0x100000);
    assert(n6 == n / 0x1000000);
    assert(n7 == n / 0x10000000);
    assert(n7 % 16 == n7);
}

proof fn lemma_hex_digit(d: nat)
    requires
        d < 16,
    ensures
        hex_value(digit_char(d)) == d,
{
}

/// What spells a number beyond the greatest one allowed is not taken.
pub proof fn greater_numbers_are_not_taken(s: Seq<char>, n: nat, max: nat)
    requires
        unsigned_number(s, n) == Some(n),
        max < n,
    ensures
        unsigned_number(s, max) is None,
{
}

} // verus!
