//! Whole numbers in decimal: read from text, and written as text.

use vstd::prelude::*;
use vstd::slice::slice_subrange;

verus! {

/// Whether a character is one of `0` to `9`.
pub open spec fn is_digit(c: char) -> bool {
    '0' <= c <= '9'
}

/// The number a digit stands for.
pub open spec fn digit_value(c: char) -> int {
    c as int - '0' as int
}

/// Whether every character is a digit.
pub open spec fn all_digits(s: Seq<char>) -> bool {
    forall|i: int| 0 <= i < s.len() ==> is_digit(#[trigger] s[i])
}

/// The number that decimal digits write, the empty text writing zero.
pub open spec fn value_of(s: Seq<char>) -> int
    decreases s.len(),
{
    if s.len() == 0 {
        0
    } else {
        10 * value_of(s.drop_last()) + digit_value(s.last())
    }
}

/// The number that a text of one or more digits writes.
pub open spec fn natural(s: Seq<char>) -> Option<int> {
    if s.len() > 0 && all_digits(s) {
        Some(value_of(s))
    } else {
        None
    }
}

/// The number that digits with an optional `+` before them write.
pub open spec fn unsigned(s: Seq<char>) -> Option<int> {
    if s.len() > 0 && s[0] == '+' {
        natural(s.skip(1))
    } else {
        natural(s)
    }
}

/// The number that digits with an optional `+` or `-` before them write.
pub open spec fn signed(s: Seq<char>) -> Option<int> {
    if s.len() > 0 && s[0] == '-' {
        match natural(s.skip(1)) {
            Some(n) => Some(-n),
            None => None,
        }
    } else {
        unsigned(s)
    }
}

/// A number that is there and lies from `low` to `high`.
pub open spec fn within(n: Option<int>, low: int, high: int) -> Option<int> {
    match n {
        Some(n) if low <= n <= high => Some(n),
        _ => None,
    }
}

/// The digits of a number, without leading zeros.
pub open spec fn decimal(n: nat) -> Seq<char>
    decreases n,
{
    if n < 10 {
        seq![digit_char(n)]
    } else {
        decimal(n / 10).push(digit_char(n % 10))
    }
}

/// The digit for a number below ten.
pub open spec fn digit_char(n: nat) -> char {
    ('0' as nat + n) as char
}

/// The digits of a number, a `-` before them where it is negative.
pub open spec fn signed_decimal(n: int) -> Seq<char> {
    if n < 0 {
        seq!['-'] + decimal((-n) as nat)
    } else {
        decimal(n as nat)
    }
}

/// Digits write no negative number, and a text writes no less than its start.
pub proof fn lemma_value(s: Seq<char>, n: int)
    requires
        all_digits(s),
        0 <= n <= s.len(),
    ensures
        0 <= value_of(s.take(n)) <= value_of(s),
    decreases s.len(),
{
    if n == s.len() {
        assert(s.take(n) =~= s);
        if s.len() > 0 {
            assert(all_digits(s.drop_last()));
            lemma_value(s.drop_last(), s.len() - 1);
            assert(is_digit(s[s.len() - 1]));
            assert(s.drop_last().take(s.len() - 1) =~= s.drop_last());
        }
    } else {
        assert(all_digits(s.drop_last()));
        lemma_value(s.drop_last(), n);
        assert(s.drop_last().take(n) =~= s.take(n));
        assert(is_digit(s[s.len() - 1]));
    }
}

/// Writing a number and reading the digits gives the number back.
pub proof fn law_decimal_reads_back(n: nat)
    ensures
        natural(decimal(n)) == Some(n as int),
    decreases n,
{
    if n >= 10 {
        law_decimal_reads_back(n / 10);
        let s = decimal(n);
        assert(s.drop_last() =~= decimal(n / 10));
        assert(is_digit(digit_char(n % 10)));
        assert forall|i: int| 0 <= i < s.len() implies is_digit(#[trigger] s[i]) by {
            if i < s.len() - 1 {
                assert(s[i] == decimal(n / 10)[i]);
            }
        }
    } else {
        let s = decimal(n);
        assert(s.drop_last() =~= Seq::<char>::empty());
        assert(value_of(s.drop_last()) == 0);
    }
}

/// A run of zeros.
pub open spec fn zeros(n: nat) -> Seq<char> {
    Seq::new(n, |i: int| '0')
}

/// Whether a text is a number's digits, zeros before them left out of account.
pub open spec fn is_padded(s: Seq<char>, n: int, pad: nat) -> bool {
    n >= 0 && s == zeros(pad) + decimal(n as nat)
}

/// A text that writes a number is that number's digits, with or without zeros
/// before them, and every such text writes it.
pub proof fn law_digits(s: Seq<char>, n: int, pad: nat)
    ensures
        is_padded(s, n, pad) ==> natural(s) == Some(n),
        natural(s) matches Some(m) ==> exists|k: nat| is_padded(s, m, k),
{
    if is_padded(s, n, pad) {
        lemma_padded_reads(n as nat, pad);
    }
    if natural(s) is Some {
        let k = lemma_reads_padded(s);
        assert(is_padded(s, natural(s)->Some_0, k));
    }
}

proof fn lemma_padded_reads(n: nat, pad: nat)
    ensures
        natural(zeros(pad) + decimal(n)) == Some(n as int),
    decreases n,
{
    let s = zeros(pad) + decimal(n);
    law_decimal_reads_back(n);
    assert forall|i: int| 0 <= i < s.len() implies is_digit(#[trigger] s[i]) by {
        if i >= pad {
            assert(s[i] == decimal(n)[i - pad]);
        }
    }
    lemma_zeros_add_nothing(pad, decimal(n));
}

proof fn lemma_zeros_add_nothing(pad: nat, digits: Seq<char>)
    ensures
        value_of(zeros(pad) + digits) == value_of(digits),
    decreases pad + digits.len(),
{
    let s = zeros(pad) + digits;
    if digits.len() > 0 {
        assert(s.drop_last() =~= zeros(pad) + digits.drop_last());
        assert(s.last() == digits.last());
        lemma_zeros_add_nothing(pad, digits.drop_last());
    } else if pad > 0 {
        let fewer = (pad - 1) as nat;
        assert(s.drop_last() =~= zeros(fewer) + digits);
        assert(s.last() == '0');
        lemma_zeros_add_nothing(fewer, digits);
    }
}

proof fn lemma_reads_padded(s: Seq<char>) -> (pad: nat)
    requires
        natural(s) is Some,
    ensures
        value_of(s) >= 0,
        is_padded(s, value_of(s), pad),
    decreases s.len(),
{
    let c = s.last();
    let less = s.drop_last();
    assert(is_digit(s[s.len() - 1]));
    let d = digit_value(c) as nat;
    assert(digit_char(d) == c);
    if s.len() == 1 {
        assert(less =~= Seq::<char>::empty());
        assert(value_of(less) == 0);
        assert(s =~= zeros(0) + decimal(d));
        0
    } else {
        assert(all_digits(less)) by {
            assert forall|i: int| 0 <= i < less.len() implies is_digit(#[trigger] less[i]) by {
                assert(less[i] == s[i]);
            }
        }
        let pad = lemma_reads_padded(less);
        let m = value_of(less) as nat;
        assert(less == zeros(pad) + decimal(m));
        assert(s =~= less.push(c));
        if m == 0 {
            assert(decimal(0) =~= seq!['0']);
            assert(decimal(d) =~= seq![c]);
            assert(value_of(s) == d);
            assert(s =~= zeros(pad + 1) + decimal(d));
            pad + 1
        } else {
            let n = 10 * m + d;
            assert(n / 10 == m && n % 10 == d);
            assert(decimal(n) == decimal(m).push(c));
            assert(value_of(s) == n);
            assert(s =~= zeros(pad) + decimal(n));
            pad
        }
    }
}

/// A sign stands before the digits: `+` for a number as it is, `-` for one
/// below zero where such are read, and nowhere else.
pub proof fn law_signs(digits: Seq<char>)
    ensures
        unsigned(seq!['+'] + digits) == natural(digits),
        signed(seq!['+'] + digits) == natural(digits),
        unsigned(seq!['-'] + digits) is None,
        signed(seq!['-'] + digits) == match natural(digits) {
            Some(n) => Some(-n),
            None => None::<int>,
        },
        natural(digits) is Some ==> unsigned(digits) == natural(digits) && signed(digits)
            == natural(digits),
        (exists|i: int| 0 < i < digits.len() && !is_digit(#[trigger] digits[i])) ==> unsigned(
            digits,
        ) is None && signed(digits) is None,
{
    let plus = seq!['+'] + digits;
    let minus = seq!['-'] + digits;
    assert(plus.skip(1) =~= digits);
    assert(minus.skip(1) =~= digits);
    assert(plus[0] == '+' && minus[0] == '-');
    assert(!is_digit(minus[0]));
    if natural(digits) is Some {
        assert(is_digit(digits[0]));
    }
    if exists|i: int| 0 < i < digits.len() && !is_digit(#[trigger] digits[i]) {
        let i = choose|i: int| 0 < i < digits.len() && !is_digit(#[trigger] digits[i]);
        assert(digits.skip(1)[i - 1] == digits[i]);
    }
}

/// The number that a text of one or more digits writes, where it is no more
/// than `cap`.
pub fn parse_natural(s: &[char], cap: u64) -> (r: Option<u64>)
    ensures
        match r {
            Some(n) => within(natural(s@), 0, cap as int) == Some(n as int),
            None => within(natural(s@), 0, cap as int) is None,
        },
{
    if s.len() == 0 {
        return None;
    }
    let mut value: u64 = 0;
    let mut i: usize = 0;
    while i < s.len()
        invariant
            i <= s@.len(),
            forall|k: int| 0 <= k < i ==> is_digit(#[trigger] s@[k]),
            value == value_of(s@.take(i as int)),
            value <= cap,
        decreases s@.len() - i,
    {
        let c: char = s[i];
        if !(c >= '0' && c <= '9') {
            assert(!is_digit(s@[i as int]));
            return None;
        }
        let digit: u64 = (c as u32 - '0' as u32) as u64;
        let next: u128 = value as u128 * 10 + digit as u128;
        proof {
            assert(s@.take(i + 1).drop_last() =~= s@.take(i as int));
            assert(next == value_of(s@.take(i + 1)));
        }
        if next > cap as u128 {
            proof {
                if all_digits(s@) {
                    lemma_value(s@, i + 1);
                }
            }
            return None;
        }
        value = next as u64;
        i = i + 1;
    }
    assert(s@.take(i as int) =~= s@);
    Some(value)
}

/// An unsigned number of at most `cap`.
pub fn parse_unsigned(s: &[char], cap: u64) -> (r: Option<u64>)
    ensures
        match r {
            Some(n) => within(unsigned(s@), 0, cap as int) == Some(n as int),
            None => within(unsigned(s@), 0, cap as int) is None,
        },
{
    if s.len() > 0 && s[0] == '+' {
        let body = slice_subrange(s, 1, s.len());
        assert(body@ =~= s@.skip(1));
        parse_natural(body, cap)
    } else {
        parse_natural(s, cap)
    }
}

/// A number of the type `u64`.
pub fn parse_u64(s: &[char]) -> (r: Option<u64>)
    ensures
        match r {
            Some(n) => within(unsigned(s@), 0, u64::MAX as int) == Some(n as int),
            None => within(unsigned(s@), 0, u64::MAX as int) is None,
        },
{
    parse_unsigned(s, u64::MAX)
}

/// A number of the type `u32`.
pub fn parse_u32(s: &[char]) -> (r: Option<u32>)
    ensures
        match r {
            Some(n) => within(unsigned(s@), 0, u32::MAX as int) == Some(n as int),
            None => within(unsigned(s@), 0, u32::MAX as int) is None,
        },
{
    match parse_unsigned(s, u32::MAX as u64) {
        Some(n) => Some(n as u32),
        None => None,
    }
}

/// A number of the type `i64`.
pub fn parse_i64(s: &[char]) -> (r: Option<i64>)
    ensures
        match r {
            Some(n) => within(signed(s@), i64::MIN as int, i64::MAX as int) == Some(n as int),
            None => within(signed(s@), i64::MIN as int, i64::MAX as int) is None,
        },
{
    if s.len() > 0 && s[0] == '-' {
        let body = slice_subrange(s, 1, s.len());
        assert(body@ =~= s@.skip(1));
        proof {
            if all_digits(body@) {
                lemma_value(body@, body@.len() as int);
                assert(body@.take(body@.len() as int) =~= body@);
            }
        }
        match parse_natural(body, 0x8000_0000_0000_0000) {
            Some(n) => Some((-(n as i128)) as i64),
            None => None,
        }
    } else {
        proof {
            let body = if s@.len() > 0 && s@[0] == '+' {
                s@.skip(1)
            } else {
                s@
            };
            if all_digits(body) {
                lemma_value(body, body.len() as int);
                assert(body.take(body.len() as int) =~= body);
            }
        }
        match parse_unsigned(s, i64::MAX as u64) {
            Some(n) => Some(n as i64),
            None => None,
        }
    }
}

/// Writes a number in decimal at the end of a string.
pub fn push_decimal(out: &mut String, n: u64)
    ensures
        final(out)@ == old(out)@ + decimal(n as nat),
    decreases n,
{
    let digit: char = (48 + (n % 10) as u8) as char;
    if n >= 10 {
        push_decimal(out, n / 10);
    }
    out.push(digit);
    assert(digit == digit_char((n % 10) as nat));
    assert(out@ =~= old(out)@ + decimal(n as nat));
}

/// Writes a signed number in decimal at the end of a string.
pub fn push_signed(out: &mut String, n: i64)
    ensures
        final(out)@ == old(out)@ + signed_decimal(n as int),
{
    if n < 0 {
        out.push('-');
        push_decimal(out, (-(n as i128)) as u64);
        assert(out@ =~= old(out)@ + (seq!['-'] + decimal((-n) as nat)));
    } else {
        push_decimal(out, n as u64);
    }
}

}
