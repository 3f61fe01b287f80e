//! Decimal numbers as a double-precision reading of them has them, computed in
//! whole numbers.
//!
//! A double holds 53 significant bits. The double nearest to a decimal number
//! can lie on the other side of a whole number from it, so the whole part of
//! the one is not always the whole part of the other: `0.99999999999999999999`
//! is nearest to 1. This module computes the whole part of the nearest double
//! exactly, for numbers of any length.

use vstd::prelude::*;
use crate::number;
use crate::number::parse_natural;
use crate::text;
use crate::text::split_once;

verus! {

/// Two to the power `n`.
pub open spec fn two_to(n: nat) -> int
    decreases n,
{
    if n == 0 {
        1
    } else {
        2 * two_to((n - 1) as nat)
    }
}

/// Ten to the power `n`.
pub open spec fn ten_to(n: nat) -> int
    decreases n,
{
    if n == 0 {
        1
    } else {
        10 * ten_to((n - 1) as nat)
    }
}

/// The position of the highest bit of a positive number.
pub open spec fn top_bit(n: int) -> nat
    decreases n,
{
    if n < 2 {
        0
    } else {
        1 + top_bit(n / 2)
    }
}

/// The whole number nearest to `p / q`, the even one where two are as near.
pub open spec fn half_even(p: int, q: int) -> int {
    let floor = p / q;
    let rest = p % q;
    if 2 * rest < q || (2 * rest == q && floor % 2 == 0) {
        floor
    } else {
        floor + 1
    }
}

/// The whole part of the double nearest to `p / q`.
///
/// A double from `2^top` up to `2^(top + 1)` is a multiple of `2^(top - 52)`.
/// From a half up to one that is `2^-53`, and below a half the whole part is
/// zero on any grid.
pub open spec fn double_floor(p: int, q: int) -> int {
    let whole = p / q;
    if whole == 0 {
        half_even(p * two_to(53), q) / two_to(53)
    } else if top_bit(whole) <= 52 {
        let grid = two_to((52 - top_bit(whole)) as nat);
        half_even(p * grid, q) / grid
    } else {
        let grid = two_to((top_bit(whole) - 52) as nat);
        half_even(p, q * grid) * grid
    }
}

/// The least number whose nearest double would be infinite: half a step past
/// the largest double.
pub open spec fn double_limit() -> int {
    two_to(1024) - two_to(970)
}

/// The digits before and after the decimal point of a text.
pub open spec fn decimal_parts(s: Seq<char>) -> (Seq<char>, Seq<char>) {
    match text::cut(s, '.') {
        Some(parts) => parts,
        None => (s, Seq::empty()),
    }
}

/// Whether a text is a decimal number: digits, at least one, with at most one
/// point among them.
pub open spec fn is_decimal(s: Seq<char>) -> bool {
    let (whole, fraction) = decimal_parts(s);
    &&& number::all_digits(whole)
    &&& number::all_digits(fraction)
    &&& whole.len() + fraction.len() > 0
}

/// What a decimal number has for a numerator over the power of ten that its
/// fraction has digits for.
pub open spec fn numerator(s: Seq<char>) -> int {
    let (whole, fraction) = decimal_parts(s);
    number::value_of(whole) * ten_to(fraction.len()) + number::value_of(fraction)
}

/// The count that a text of digits and points carries.
///
/// Digits that fit a `u64` are their own number. Any other decimal number is
/// the whole part of the double nearest to it, capped at the largest `u64`; one
/// too large for a double is no count, and neither is a text that is no number.
pub open spec fn count_in(s: Seq<char>) -> Option<int> {
    match number::within(number::natural(s), 0, u64::MAX as int) {
        Some(n) => Some(n),
        None => {
            let p = numerator(s);
            let q = ten_to(decimal_parts(s).1.len());
            if is_decimal(s) && p < double_limit() * q {
                if double_floor(p, q) < u64::MAX {
                    Some(double_floor(p, q))
                } else {
                    Some(u64::MAX as int)
                }
            } else {
                None
            }
        },
    }
}

/// The nearest whole number is at most half away.
proof fn lemma_half_even(p: int, q: int)
    requires
        p >= 0,
        q > 0,
    ensures
        half_even(p, q) >= 0,
        2 * (half_even(p, q) * q - p) <= q,
        2 * (p - half_even(p, q) * q) <= q,
{
    let floor = p / q;
    let rest = p % q;
    assert(p == q * floor + rest && 0 <= rest < q && floor >= 0) by (nonlinear_arith)
        requires
            p >= 0,
            q > 0,
            floor == p / q,
            rest == p % q,
    ;
    assert((floor + 1) * q == q * floor + q && floor * q == q * floor) by (nonlinear_arith);
}

/// The whole part of the nearest double is no more than half a unit in the
/// last of 53 places away from the number, beyond the part cut off.
proof fn lemma_double_floor(p: int, q: int)
    requires
        p >= 0,
        q > 0,
    ensures
        double_floor(p, q) >= 0,
        two_to(53) * (double_floor(p, q) * q - p) <= p,
        two_to(53) * (p - (double_floor(p, q) + 1) * q) < p || p == 0,
{
    let whole = p / q;
    let r = double_floor(p, q);
    let b = two_to(53);
    let top = top_bit(whole);
    lemma_two_to_small();
    assert(b == 9_007_199_254_740_992 && two_to(52) == 4_503_599_627_370_496);
    assert(whole >= 0 && whole * q <= p < (whole + 1) * q) by (nonlinear_arith)
        requires
            p >= 0,
            q > 0,
            whole == p / q,
    ;
    if whole == 0 {
        let h = half_even(p * b, q);
        assert(p * b >= 0) by (nonlinear_arith)
            requires
                p >= 0,
                b > 0,
        ;
        lemma_half_even(p * b, q);
        assert(p < q) by (nonlinear_arith)
            requires
                p < (whole + 1) * q,
                whole == 0,
        ;
        assert(h <= b) by (nonlinear_arith)
            requires
                2 * (h * q - p * b) <= q,
                p < q,
                q > 0,
                b == 9_007_199_254_740_992,
        ;
        assert(r == h / b);
        if h == b {
            assert(r == 1) by (nonlinear_arith)
                requires
                    r == h / b,
                    h == b,
                    b > 0,
            ;
            assert(r * q == q) by (nonlinear_arith)
                requires
                    r == 1,
            ;
            assert(b * (q - p) <= p) by (nonlinear_arith)
                requires
                    2 * (b * q - p * b) <= q,
                    p < q,
                    q > 0,
                    b == 9_007_199_254_740_992,
            ;
        } else {
            assert(r == 0 && r * q == 0);
            assert(b * (0 - p) <= p) by (nonlinear_arith)
                requires
                    p >= 0,
                    b > 0,
            ;
        }
        assert(b * (p - (r + 1) * q) < p || p == 0) by (nonlinear_arith)
            requires
                0 <= p < q,
                r == 0 || r == 1,
                b > 0,
        ;
    } else if top <= 52 {
        let g = two_to((52 - top) as nat);
        lemma_top_bit(whole);
        lemma_powers_positive((52 - top) as nat);
        lemma_two_to_add(top, (52 - top) as nat);
        let h = half_even(p * g, q);
        assert(p * g >= 0) by (nonlinear_arith)
            requires
                p >= 0,
                g > 0,
        ;
        lemma_half_even(p * g, q);
        let c = two_to(top);
        assert(p * g >= q * two_to(52)) by (nonlinear_arith)
            requires
                whole * q <= p,
                c <= whole,
                c * g == two_to(52),
                g > 0,
                q > 0,
        ;
        assert(r == h / g);
        assert(r >= 0 && r * g <= h < (r + 1) * g) by (nonlinear_arith)
            requires
                h >= 0,
                g > 0,
                r == h / g,
        ;
        lemma_scaled(p, q, g, h, r);
    } else {
        let e = (top - 52) as nat;
        let g = two_to(e);
        lemma_top_bit(whole);
        lemma_powers_positive(e);
        lemma_two_to_add(52, e);
        let m = q * g;
        assert(m > 0) by (nonlinear_arith)
            requires
                q > 0,
                g > 0,
                m == q * g,
        ;
        let h = half_even(p, m);
        lemma_half_even(p, m);
        let c = two_to(top);
        let d = two_to(52);
        assert(p >= d * m) by (nonlinear_arith)
            requires
                whole * q <= p,
                c <= whole,
                d * g == c,
                m == q * g,
                q > 0,
        ;
        assert(r == h * g);
        assert(r * q == h * m) by (nonlinear_arith)
            requires
                r == h * g,
                m == q * g,
        ;
        assert(r >= 0) by (nonlinear_arith)
            requires
                r == h * g,
                h >= 0,
                g > 0,
        ;
        assert((r + 1) * q == r * q + q) by (nonlinear_arith);
    }
}

proof fn lemma_scaled(p: int, q: int, g: int, h: int, r: int)
    requires
        p >= 0,
        q > 0,
        g > 0,
        2 * (h * q - p * g) <= q,
        2 * (p * g - h * q) <= q,
        p * g >= q * 4_503_599_627_370_496,
        r * g <= h < (r + 1) * g,
    ensures
        9_007_199_254_740_992 * (r * q - p) <= p,
        9_007_199_254_740_992 * (p - (r + 1) * q) < p,
{
    let b = 9_007_199_254_740_992int;
    let pg = p * g;
    let hq = h * q;
    assert(b * (hq - pg) <= pg && b * (pg - hq) <= pg);
    assert(r * g * q <= hq && hq <= (r + 1) * g * q - q) by (nonlinear_arith)
        requires
            r * g <= h,
            h <= (r + 1) * g - 1,
            q > 0,
            hq == h * q,
    ;
    let x = r * g * q;
    let y = (r + 1) * g * q;
    assert(b * (x - pg) <= pg);
    assert(b * (pg - y) < pg);
    assert(b * (r * q - p) <= p) by (nonlinear_arith)
        requires
            b * (x - pg) <= pg,
            x == r * g * q,
            pg == p * g,
            g > 0,
            b > 0,
    ;
    assert(b * (p - (r + 1) * q) < p) by (nonlinear_arith)
        requires
            b * (pg - y) < pg,
            y == (r + 1) * g * q,
            pg == p * g,
            g > 0,
            b > 0,
    ;
}

/// A whole number of up to 53 bits is its own nearest double.
proof fn lemma_exact(n: int, q: int)
    requires
        0 <= n < two_to(53),
        q > 0,
    ensures
        double_floor(n * q, q) == n,
{
    let p = n * q;
    assert(p / q == n) by (nonlinear_arith)
        requires
            p == n * q,
            q > 0,
    ;
    lemma_two_to_small();
    if n == 0 {
        let b = two_to(53);
        assert(p * b == 0) by (nonlinear_arith)
            requires
                p == n * q,
                n == 0,
        ;
        assert(0int / q == 0 && 0int % q == 0) by (nonlinear_arith)
            requires
                q > 0,
        ;
    } else {
        let top = top_bit(n);
        lemma_top_bit(n);
        if top > 52 {
            lemma_two_to_monotone(53, top);
        }
        let g = two_to((52 - top) as nat);
        lemma_powers_positive((52 - top) as nat);
        let a = n * g;
        assert(p * g == a * q && (a * q) / q == a && (a * q) % q == 0 && a / g == n)
            by (nonlinear_arith)
            requires
                p == n * q,
                a == n * g,
                q > 0,
                g > 0,
        ;
    }
}

/// A count is one that a `u64` holds.
pub proof fn lemma_count_range(s: Seq<char>)
    ensures
        count_in(s) matches Some(n) ==> 0 <= n <= u64::MAX,
{
    if is_decimal(s) {
        let (whole, fraction) = decimal_parts(s);
        lemma_decimal(s);
        lemma_double_floor(numerator(s), ten_to(fraction.len()));
    }
}

proof fn lemma_decimal(s: Seq<char>)
    requires
        is_decimal(s),
    ensures
        numerator(s) >= 0,
        ten_to(decimal_parts(s).1.len()) > 0,
{
    let (whole, fraction) = decimal_parts(s);
    number::lemma_value(whole, whole.len() as int);
    number::lemma_value(fraction, fraction.len() as int);
    assert(whole.take(whole.len() as int) =~= whole);
    assert(fraction.take(fraction.len() as int) =~= fraction);
    lemma_powers_positive(fraction.len());
    let a = number::value_of(whole);
    let b = ten_to(fraction.len());
    assert(a * b >= 0) by (nonlinear_arith)
        requires
            a >= 0,
            b > 0,
    ;
}

/// A count is the number that its digits write, where they are a whole number
/// that a `u64` holds. With a point among them it is the whole part of that
/// number, but for an error of at most one part in two to the 53rd, so that no
/// whole number of up to 53 bits is missed, and no more than a `u64` holds.
/// What is no number is no count.
pub proof fn law_count_is_its_number(whole: Seq<char>, fraction: Seq<char>)
    requires
        !whole.contains('.'),
    ensures
        number::natural(whole) matches Some(n) && n <= u64::MAX ==> count_in(whole)
            == number::natural(whole),
        ({
            let s = whole + seq!['.'] + fraction;
            let q = ten_to(fraction.len());
            let p = number::value_of(whole) * q + number::value_of(fraction);
            let digits = number::all_digits(whole) && number::all_digits(fraction) && whole.len()
                + fraction.len() > 0;
            &&& count_in(s) is Some ==> digits
            &&& digits && p < two_to(1023) * q ==> count_in(s) is Some
            &&& count_in(s) matches Some(r) ==> {
                &&& 0 <= r <= u64::MAX
                &&& two_to(53) * (r * q - p) <= p
                &&& r < u64::MAX ==> two_to(53) * (p - (r + 1) * q) < p || p == 0
                &&& p % q == 0 && p / q < two_to(53) ==> r == p / q
            }
        }),
{
    let s = whole + seq!['.'] + fraction;
    let q = ten_to(fraction.len());
    let p = number::value_of(whole) * q + number::value_of(fraction);
    text::law_cut(whole, '.', fraction);
    if number::natural(whole) is Some {
        number::lemma_value(whole, whole.len() as int);
        assert(whole.take(whole.len() as int) =~= whole);
    }
    assert(!number::is_digit(s[whole.len() as int]));
    assert(number::natural(s) is None);
    assert(numerator(s) == p);
    lemma_two_to_monotone(970, 1023);
    assert(two_to(1024) == 2 * two_to(1023));
    lemma_powers_positive(fraction.len());
    lemma_powers_positive(970);
    let limit = double_limit();
    let half = two_to(1023);
    assert(limit >= half);
    if p < half * q {
        assert(p < limit * q) by (nonlinear_arith)
            requires
                p < half * q,
                limit >= half,
                q > 0,
        ;
    }
    if count_in(s) is Some {
        let r = count_in(s)->Some_0;
        lemma_decimal(s);
        lemma_double_floor(p, q);
        let f = double_floor(p, q);
        let b = two_to(53);
        lemma_powers_positive(53);
        assert(b * (r * q - p) <= p) by (nonlinear_arith)
            requires
                b * (f * q - p) <= p,
                r <= f,
                q > 0,
                b > 0,
        ;
        if p % q == 0 && p / q < b {
            let n = p / q;
            lemma_two_to_small();
            assert(p == n * q && n >= 0) by (nonlinear_arith)
                requires
                    p % q == 0,
                    n == p / q,
                    q > 0,
                    p >= 0,
            ;
            lemma_exact(n, q);
        }
    }
}

/// The digit at a place, counted from the lowest; past the highest, zero.
spec fn digit_at(d: Seq<u8>, i: int) -> int {
    if 0 <= i < d.len() {
        d[i] as int
    } else {
        0
    }
}

/// The number that the lowest `n` digits write.
spec fn upto(d: Seq<u8>, n: nat) -> int
    decreases n,
{
    if n == 0 {
        0
    } else {
        upto(d, (n - 1) as nat) + ten_to((n - 1) as nat) * digit_at(d, n - 1)
    }
}

/// The number that digits, lowest first, write.
spec fn amount(d: Seq<u8>) -> int {
    upto(d, d.len())
}

/// Whether every entry is a decimal digit.
spec fn proper(d: Seq<u8>) -> bool {
    forall|i: int| 0 <= i < d.len() ==> #[trigger] d[i] < 10
}

proof fn lemma_powers_positive(n: nat)
    ensures
        two_to(n) >= 1,
        ten_to(n) >= 1,
    decreases n,
{
    if n > 0 {
        lemma_powers_positive((n - 1) as nat);
    }
}

proof fn lemma_two_to_add(a: nat, b: nat)
    ensures
        two_to(a + b) == two_to(a) * two_to(b),
    decreases a,
{
    if a > 0 {
        lemma_two_to_add((a - 1) as nat, b);
        let x = two_to((a - 1) as nat);
        let y = two_to(b);
        assert((2 * x) * y == 2 * (x * y)) by (nonlinear_arith);
        assert((a - 1) as nat + b == (a + b - 1) as nat);
    }
}

proof fn lemma_two_to_small()
    ensures
        two_to(0) == 1,
        two_to(1) == 2,
        two_to(52) == 0x10_0000_0000_0000,
        two_to(53) == 0x20_0000_0000_0000,
        two_to(54) == 0x40_0000_0000_0000,
        two_to(64) == 0x1_0000_0000_0000_0000,
{
    reveal_with_fuel(two_to, 17);
    assert(two_to(16) == 0x1_0000);
    lemma_two_to_add(16, 16);
    lemma_two_to_add(32, 16);
    lemma_two_to_add(48, 4);
    lemma_two_to_add(48, 5);
    lemma_two_to_add(48, 6);
    lemma_two_to_add(48, 16);
}

proof fn lemma_two_to_monotone(a: nat, b: nat)
    requires
        a <= b,
    ensures
        two_to(a) <= two_to(b),
    decreases b,
{
    lemma_powers_positive(b);
    if a < b {
        lemma_two_to_monotone(a, (b - 1) as nat);
        lemma_powers_positive((b - 1) as nat);
    }
}

proof fn lemma_top_bit(n: int)
    requires
        n >= 1,
    ensures
        two_to(top_bit(n)) <= n < two_to(top_bit(n) + 1),
    decreases n,
{
    if n >= 2 {
        lemma_top_bit(n / 2);
        assert(two_to(top_bit(n)) == 2 * two_to(top_bit(n / 2)));
        assert(two_to(top_bit(n) + 1) == 2 * two_to(top_bit(n)));
        assert(two_to(top_bit(n / 2) + 1) == 2 * two_to(top_bit(n / 2)));
    } else {
        lemma_two_to_small();
    }
}

/// Where every digit up to a place is proper, they write less than that power
/// of ten.
proof fn lemma_upto_bound(d: Seq<u8>, n: nat)
    requires
        proper(d),
    ensures
        0 <= upto(d, n) < ten_to(n),
    decreases n,
{
    if n > 0 {
        lemma_upto_bound(d, (n - 1) as nat);
        lemma_powers_positive((n - 1) as nat);
        let t = ten_to((n - 1) as nat);
        let x = digit_at(d, n - 1);
        assert(0 <= t * x <= 9 * t) by (nonlinear_arith)
            requires
                t >= 1,
                0 <= x <= 9,
        ;
    }
}

proof fn lemma_upto_past(d: Seq<u8>, n: nat)
    requires
        n >= d.len(),
    ensures
        upto(d, n) == amount(d),
    decreases n,
{
    if n > d.len() {
        lemma_upto_past(d, (n - 1) as nat);
        let t = ten_to((n - 1) as nat);
        assert(t * 0 == 0) by (nonlinear_arith);
    }
}

proof fn lemma_upto_prefix(a: Seq<u8>, b: Seq<u8>, n: nat)
    requires
        n <= a.len(),
        n <= b.len(),
        forall|i: int| 0 <= i < n ==> a[i] == b[i],
    ensures
        upto(a, n) == upto(b, n),
    decreases n,
{
    if n > 0 {
        lemma_upto_prefix(a, b, (n - 1) as nat);
    }
}

/// Twice a number of the same digits, and what is carried out of them.
fn twice(d: &Vec<u8>) -> (r: (Vec<u8>, bool))
    requires
        proper(d@),
    ensures
        proper(r.0@),
        r.0@.len() == d@.len(),
        2 * amount(d@) == amount(r.0@) + (if r.1 {
            ten_to(d@.len())
        } else {
            0
        }),
{
    let mut out: Vec<u8> = Vec::new();
    let mut carry: u8 = 0;
    let mut i: usize = 0;
    while i < d.len()
        invariant
            i <= d@.len(),
            proper(d@),
            proper(out@),
            out@.len() == i,
            carry <= 1,
            2 * upto(d@, i as nat) == upto(out@, i as nat) + ten_to(i as nat) * carry,
        decreases d@.len() - i,
    {
        let sum: u8 = 2 * d[i] + carry;
        let ghost before = out@;
        let ghost old_carry = carry;
        out.push(sum % 10);
        carry = sum / 10;
        proof {
            lemma_upto_prefix(before, out@, i as nat);
            let t = ten_to(i as nat);
            let x = d@[i as int] as int;
            assert(2 * (t * x) + t * old_carry == t * (sum % 10) + (10 * t) * carry)
                by (nonlinear_arith)
                requires
                    2 * x + old_carry == (sum % 10) + 10 * carry,
            ;
        }
        i = i + 1;
    }
    proof {
        let t = ten_to(d@.len());
        assert(t * 0 == 0) by (nonlinear_arith);
        assert(t * 1 == t) by (nonlinear_arith);
    }
    (out, carry == 1)
}

/// Whether the first number is at least the second.
fn at_least(a: &Vec<u8>, b: &Vec<u8>) -> (r: bool)
    requires
        proper(a@),
        proper(b@),
    ensures
        r == (amount(a@) >= amount(b@)),
{
    let n: usize = if a.len() < b.len() {
        b.len()
    } else {
        a.len()
    };
    let mut r: bool = true;
    let mut i: usize = 0;
    while i < n
        invariant
            i <= n,
            a@.len() <= n,
            b@.len() <= n,
            proper(a@),
            proper(b@),
            r == (upto(a@, i as nat) >= upto(b@, i as nat)),
        decreases n - i,
    {
        let x: u8 = if i < a.len() {
            a[i]
        } else {
            0
        };
        let y: u8 = if i < b.len() {
            b[i]
        } else {
            0
        };
        proof {
            lemma_upto_bound(a@, i as nat);
            lemma_upto_bound(b@, i as nat);
            let t = ten_to(i as nat);
            assert(x == digit_at(a@, i as int));
            assert(y == digit_at(b@, i as int));
            assert(x > y ==> t * x >= t * y + t) by (nonlinear_arith)
                requires
                    t >= 0,
            ;
            assert(x < y ==> t * y >= t * x + t) by (nonlinear_arith)
                requires
                    t >= 0,
            ;
        }
        if x != y {
            r = x > y;
        }
        i = i + 1;
    }
    proof {
        lemma_upto_past(a@, n as nat);
        lemma_upto_past(b@, n as nat);
    }
    r
}

/// Whether every digit is zero.
fn is_zero(d: &Vec<u8>) -> (r: bool)
    requires
        proper(d@),
    ensures
        r == (amount(d@) == 0),
{
    let mut i: usize = 0;
    while i < d.len()
        invariant
            i <= d@.len(),
            proper(d@),
            upto(d@, i as nat) == 0,
        decreases d@.len() - i,
    {
        proof {
            let t = ten_to(i as nat);
            lemma_powers_positive(i as nat);
            assert(t * 0 == 0) by (nonlinear_arith);
            let x = d@[i as int] as int;
            assert(x > 0 ==> t * x > 0) by (nonlinear_arith)
                requires
                    t >= 1,
            ;
        }
        if d[i] != 0 {
            proof {
                lemma_upto_grows(d@, (i + 1) as nat, d@.len());
            }
            return false;
        }
        i = i + 1;
    }
    true
}

proof fn lemma_upto_grows(d: Seq<u8>, m: nat, n: nat)
    requires
        proper(d),
        m <= n,
    ensures
        upto(d, m) <= upto(d, n),
    decreases n,
{
    if m < n {
        lemma_upto_grows(d, m, (n - 1) as nat);
        let t = ten_to((n - 1) as nat);
        let x = digit_at(d, n - 1);
        lemma_powers_positive((n - 1) as nat);
        assert(t * x >= 0) by (nonlinear_arith)
            requires
                t >= 1,
                x >= 0,
        ;
    }
}

/// A text of digits writes what its first digits write, moved up by as many
/// places as follow, and what follows writes.
proof fn lemma_value_split(s: Seq<char>, i: int)
    requires
        0 <= i <= s.len(),
    ensures
        number::value_of(s) == number::value_of(s.take(i)) * ten_to((s.len() - i) as nat)
            + number::value_of(s.skip(i)),
    decreases s.len() - i,
{
    if i == s.len() {
        assert(s.take(i) =~= s);
        assert(s.skip(i) =~= Seq::<char>::empty());
        let v = number::value_of(s);
        assert(v * 1 == v) by (nonlinear_arith);
    } else {
        let t = s.drop_last();
        lemma_value_split(t, i);
        assert(t.take(i) =~= s.take(i));
        assert(s.skip(i).drop_last() =~= t.skip(i));
        assert(s.skip(i).last() == s.last());
        let a = number::value_of(s.take(i));
        let p = ten_to((t.len() - i) as nat);
        assert(10 * (a * p) == a * (10 * p)) by (nonlinear_arith);
    }
}

/// The digits of a text, lowest first.
fn reversed(s: &[char]) -> (d: Vec<u8>)
    requires
        number::all_digits(s@),
    ensures
        proper(d@),
        d@.len() == s@.len(),
        amount(d@) == number::value_of(s@),
{
    let mut d: Vec<u8> = Vec::new();
    let mut i: usize = 0;
    assert(s@.skip(s@.len() as int) =~= Seq::<char>::empty());
    while i < s.len()
        invariant
            i <= s@.len(),
            number::all_digits(s@),
            proper(d@),
            d@.len() == i,
            upto(d@, i as nat) == number::value_of(s@.skip(s@.len() - i)),
        decreases s@.len() - i,
    {
        let at: usize = s.len() - 1 - i;
        let c: char = s[at];
        assert(number::is_digit(s@[at as int]));
        let ghost before = d@;
        d.push((c as u32 - '0' as u32) as u8);
        proof {
            lemma_upto_prefix(before, d@, i as nat);
            let rest = s@.skip(at as int);
            lemma_value_split(rest, 1);
            assert(rest.skip(1) =~= s@.skip(s@.len() - i));
            assert(rest.take(1).drop_last() =~= Seq::<char>::empty());
            assert(number::value_of(rest.take(1).drop_last()) == 0);
            assert(number::value_of(rest.take(1)) == number::digit_value(c));
            let t = ten_to(i as nat);
            let x = number::digit_value(c);
            assert(x * t == t * x) by (nonlinear_arith);
        }
        i = i + 1;
    }
    assert(s@.skip(0) =~= s@);
    d
}

/// One more digit on top of `amount`, where the next power of ten is `power`.
proof fn lemma_next_digit(s: Seq<u8>, n: nat, power: int, digit: int, amount: int)
    requires
        ten_to(n) == power,
        digit_at(s, n as int) == digit,
        upto(s, n) == amount,
    ensures
        ten_to(n + 1) == 10 * power,
        upto(s, n + 1) == amount + power * digit,
{
}

/// The digits that `limit_digits` starts from.
proof fn lemma_start(s: Seq<u8>)
    requires
        s =~= seq![3u8, 8, 9, 1, 8, 4, 9, 0, 5, 8, 9, 3, 4, 1, 0, 8, 1],
    ensures
        amount(s) == two_to(54) - 1,
{
    lemma_two_to_small();
    lemma_next_digit(s, 0, 1, 3, 0);
    lemma_next_digit(s, 1, 10, 8, 3);
    lemma_next_digit(s, 2, 100, 9, 83);
    lemma_next_digit(s, 3, 1000, 1, 983);
    lemma_next_digit(s, 4, 10000, 8, 1983);
    lemma_next_digit(s, 5, 100000, 4, 81983);
    lemma_next_digit(s, 6, 1000000, 9, 481983);
    lemma_next_digit(s, 7, 10000000, 0, 9481983);
    lemma_next_digit(s, 8, 100000000, 5, 9481983);
    lemma_next_digit(s, 9, 1000000000, 8, 509481983);
    lemma_next_digit(s, 10, 10000000000, 9, 8509481983);
    lemma_next_digit(s, 11, 100000000000, 3, 98509481983);
    lemma_next_digit(s, 12, 1000000000000, 4, 398509481983);
    lemma_next_digit(s, 13, 10000000000000, 1, 4398509481983);
    lemma_next_digit(s, 14, 100000000000000, 0, 14398509481983);
    lemma_next_digit(s, 15, 1000000000000000, 8, 14398509481983);
    lemma_next_digit(s, 16, 10000000000000000, 1, 8014398509481983);
}

/// The digits of the limit of doubles, lowest first.
fn limit_digits() -> (d: Vec<u8>)
    ensures
        proper(d@),
        amount(d@) == double_limit(),
{
    let mut d: Vec<u8> = vec![3, 8, 9, 1, 8, 4, 9, 0, 5, 8, 9, 3, 4, 1, 0, 8, 1];
    proof {
        lemma_start(d@);
        lemma_two_to_small();
        assert((two_to(54) - 1) * two_to(0) == two_to(54) - 1) by (nonlinear_arith)
            requires
                two_to(0) == 1,
        ;
    }
    let mut i: u32 = 0;
    while i < 970
        invariant
            i <= 970,
            proper(d@),
            amount(d@) == (two_to(54) - 1) * two_to(i as nat),
        decreases 970 - i,
    {
        let ghost old_d = d@;
        let (next, carry) = twice(&d);
        d = next;
        let ghost mid = d@;
        if carry {
            d.push(1);
            proof {
                lemma_upto_prefix(mid, d@, mid.len());
                let t = ten_to(mid.len());
                assert(t * 1 == t) by (nonlinear_arith);
            }
        }
        proof {
            let a = two_to(54) - 1;
            let b = two_to(i as nat);
            assert(2 * (a * b) == a * (2 * b)) by (nonlinear_arith);
        }
        i = i + 1;
    }
    proof {
        lemma_two_to_add(54, 970);
        let a = two_to(54);
        let b = two_to(970);
        assert((a - 1) * b == a * b - b) by (nonlinear_arith);
    }
    d
}

/// How a fraction compares to `1 - 2^-bits`: whether it is at least that, and
/// whether it is exactly that.
fn against_one(fraction: &[char], bits: u32) -> (r: (bool, bool))
    requires
        number::all_digits(fraction@),
    ensures
        ({
            let f = number::value_of(fraction@) * two_to(bits as nat);
            let edge = (two_to(bits as nat) - 1) * ten_to(fraction@.len());
            r.0 == (f >= edge) && r.1 == (f == edge)
        }),
{
    let mut d: Vec<u8> = reversed(fraction);
    let mut i: u32 = 0;
    let ghost f = number::value_of(fraction@);
    let ghost q = ten_to(fraction@.len());
    proof {
        lemma_upto_bound(d@, d@.len());
        assert(f * 1 == f && (1 - 1) * q == 0) by (nonlinear_arith);
    }
    while i < bits
        invariant
            i <= bits,
            proper(d@),
            d@.len() == fraction@.len(),
            f == number::value_of(fraction@),
            q == ten_to(fraction@.len()),
            q >= 1,
            f * two_to(i as nat) == (two_to(i as nat) - 1) * q + amount(d@),
        decreases bits - i,
    {
        let ghost g = amount(d@);
        let (next, carry) = twice(&d);
        proof {
            lemma_upto_bound(next@, next@.len());
            let t = two_to(i as nat);
            assert(f * (2 * t) == 2 * (f * t)) by (nonlinear_arith);
            assert(2 * ((t - 1) * q) == (2 * t - 1) * q - q) by (nonlinear_arith);
        }
        if !carry {
            proof {
                let t = two_to((i + 1) as nat);
                let k = two_to((bits - i - 1) as nat);
                lemma_two_to_add((i + 1) as nat, (bits - i - 1) as nat);
                lemma_powers_positive((bits - i - 1) as nat);
                assert(f * t < (t - 1) * q);
                assert(f * (t * k) < (t * k - 1) * q) by (nonlinear_arith)
                    requires
                        f * t < (t - 1) * q,
                        k >= 1,
                        q >= 1,
                ;
            }
            return (false, false);
        }
        d = next;
        i = i + 1;
    }
    proof {
        lemma_upto_bound(d@, d@.len());
    }
    (true, is_zero(&d))
}

/// The whole part of the nearest double, for a number below `2^53` whose grid
/// there is `2^-s`.
proof fn lemma_fine_grid(p: int, q: int, whole: int, f: int, s: nat)
    requires
        q >= 1,
        0 <= f < q,
        whole >= 0,
        p == whole * q + f,
    ensures
        ({
            let grid = two_to(s);
            let up = f * two_to(s + 1) >= (two_to(s + 1) - 1) * q;
            let even = f * two_to(s + 1) == (two_to(s + 1) - 1) * q && s == 0 && whole % 2 == 0;
            half_even(p * grid, q) / grid == (if up && !even {
                whole + 1
            } else {
                whole
            })
        }),
{
    let t = two_to(s);
    lemma_powers_positive(s);
    let a = (f * t) / q;
    let r = (f * t) % q;
    assert(f * t == a * q + r && 0 <= r < q) by (nonlinear_arith)
        requires
            q >= 1,
            a == (f * t) / q,
            r == (f * t) % q,
    ;
    assert(0 <= f * t) by (nonlinear_arith)
        requires
            f >= 0,
            t >= 1,
    ;
    assert(f * t < q * t) by (nonlinear_arith)
        requires
            f < q,
            t >= 1,
    ;
    assert(a >= 0) by (nonlinear_arith)
        requires
            0 <= a * q + r,
            r < q,
            q >= 1,
    ;
    assert(a < t) by (nonlinear_arith)
        requires
            a * q + r < q * t,
            r >= 0,
            q >= 1,
    ;
    assert(p * t == (whole * t + a) * q + r) by (nonlinear_arith)
        requires
            p == whole * q + f,
            f * t == a * q + r,
    ;
    vstd::arithmetic::div_mod::lemma_fundamental_div_mod_converse(p * t, q, whole * t + a, r);
    let m = half_even(p * t, q);
    // The edge, in terms of the quotient and the rest.
    assert(two_to(s + 1) == 2 * t);
    assert(f * (2 * t) == 2 * (a * q + r)) by (nonlinear_arith)
        requires
            f * t == a * q + r,
    ;
    assert((2 * t - 1) * q == 2 * ((t - 1) * q) + q) by (nonlinear_arith);
    if a == t - 1 {
        if m == whole * t + a + 1 {
            assert(m == (whole + 1) * t + 0) by (nonlinear_arith)
                requires
                    m == whole * t + a + 1,
                    a == t - 1,
            ;
            vstd::arithmetic::div_mod::lemma_fundamental_div_mod_converse(m, t, whole + 1, 0);
        } else {
            vstd::arithmetic::div_mod::lemma_fundamental_div_mod_converse(m, t, whole, a);
        }
        if s == 0 {
            assert(whole * 1 == whole) by (nonlinear_arith);
        } else {
            let h = two_to((s - 1) as nat);
            assert((whole * t + t - 1) % 2 == 1) by {
                assert(whole * t + t - 1 == 2 * (whole * h + h - 1) + 1) by (nonlinear_arith)
                    requires
                        t == 2 * h,
                ;
            }
        }
    } else {
        assert((t - 1) * q >= (a + 1) * q) by (nonlinear_arith)
            requires
                t - 1 >= a + 1,
                q >= 1,
        ;
        assert((a + 1) * q == a * q + q) by (nonlinear_arith);
        if m == whole * t + a + 1 {
            vstd::arithmetic::div_mod::lemma_fundamental_div_mod_converse(m, t, whole, a + 1);
        } else {
            vstd::arithmetic::div_mod::lemma_fundamental_div_mod_converse(m, t, whole, a);
        }
    }
}

/// The nearest double, for a number of `2^53` or more whose grid there is
/// `2^s`.
proof fn lemma_coarse_grid(p: int, q: int, whole: int, f: int, s: nat)
    requires
        q >= 1,
        0 <= f < q,
        whole >= 0,
        p == whole * q + f,
        s >= 1,
    ensures
        ({
            let grid = two_to(s);
            let half = two_to((s - 1) as nat);
            let floor = whole / grid;
            let rest = whole % grid;
            let up = rest > half || (rest == half && (f > 0 || floor % 2 == 1));
            half_even(p, q * grid) == (if up {
                floor + 1
            } else {
                floor
            })
        }),
{
    let u = two_to(s);
    let h = two_to((s - 1) as nat);
    lemma_powers_positive(s);
    lemma_powers_positive((s - 1) as nat);
    let floor = whole / u;
    let rest = whole % u;
    assert(whole == floor * u + rest && 0 <= rest < u) by (nonlinear_arith)
        requires
            u >= 1,
            floor == whole / u,
            rest == whole % u,
    ;
    let r = rest * q + f;
    assert(p == floor * (q * u) + r) by (nonlinear_arith)
        requires
            p == whole * q + f,
            whole == floor * u + rest,
            r == rest * q + f,
    ;
    assert(0 <= r < q * u) by (nonlinear_arith)
        requires
            0 <= rest <= u - 1,
            0 <= f < q,
            q >= 1,
            r == rest * q + f,
    ;
    vstd::arithmetic::div_mod::lemma_fundamental_div_mod_converse(p, q * u, floor, r);
    assert(q * u == 2 * (h * q)) by (nonlinear_arith)
        requires
            u == 2 * h,
    ;
    assert(rest > h ==> r > h * q) by (nonlinear_arith)
        requires
            r == rest * q + f,
            f >= 0,
            q >= 1,
    ;
    assert(rest < h ==> r < h * q) by (nonlinear_arith)
        requires
            r == rest * q + f,
            f < q,
            q >= 1,
    ;
    assert(rest == h ==> r == h * q + f);
}

/// The highest bit of a positive number.
fn top_bit_of(n: u64) -> (top: u32)
    requires
        n >= 1,
    ensures
        top == top_bit(n as int),
        top < 64,
{
    let mut m: u64 = n;
    let mut top: u32 = 0;
    proof {
        lemma_top_bit(n as int);
        lemma_two_to_small();
        if top_bit(n as int) >= 64 {
            lemma_two_to_monotone(64, top_bit(n as int));
        }
    }
    while m >= 2
        invariant
            m >= 1,
            top_bit(n as int) == top + top_bit(m as int),
            top_bit(n as int) < 64,
        decreases m,
    {
        m = m / 2;
        top = top + 1;
    }
    top
}

/// The power of two that fits a `u64`.
fn power_of_two(n: u32) -> (p: u64)
    requires
        n < 64,
    ensures
        p == two_to(n as nat),
{
    let mut p: u64 = 1;
    let mut i: u32 = 0;
    while i < n
        invariant
            i <= n,
            n < 64,
            p == two_to(i as nat),
        decreases n - i,
    {
        proof {
            lemma_two_to_small();
            lemma_two_to_monotone((i + 1) as nat, 63);
            lemma_two_to_add(63, 1);
            assert(two_to(64) == 2 * two_to(63));
        }
        p = p * 2;
        i = i + 1;
    }
    p
}

/// The whole part of the double nearest to a number with this whole part and
/// these digits after the point, capped at the largest `u64`.
fn nearest_floor(whole: u64, fraction: &[char]) -> (r: u64)
    requires
        number::all_digits(fraction@),
    ensures
        ({
            let q = ten_to(fraction@.len());
            let p = whole * q + number::value_of(fraction@);
            r == if double_floor(p, q) < u64::MAX {
                double_floor(p, q)
            } else {
                u64::MAX as int
            }
        }),
{
    let ghost q = ten_to(fraction@.len());
    let ghost f = number::value_of(fraction@);
    let ghost p = whole * q + f;
    proof {
        lemma_powers_positive(fraction@.len());
        lemma_fraction(fraction@);
        vstd::arithmetic::div_mod::lemma_fundamental_div_mod_converse(p, q, whole as int, f);
        lemma_two_to_small();
    }
    if whole >= 0x20_0000_0000_0000 {
        let top: u32 = top_bit_of(whole);
        proof {
            lemma_top_bit(whole as int);
            if top <= 52 {
                lemma_two_to_monotone(top as nat + 1, 53);
            }
        }
        let shift: u32 = top - 52;
        let grid: u64 = power_of_two(shift);
        let half: u64 = power_of_two(shift - 1);
        proof {
            lemma_powers_positive((shift - 1) as nat);
            assert(grid == 2 * half);
        }
        let floor: u64 = whole / grid;
        let rest: u64 = whole % grid;
        assert(floor <= whole / 2) by (nonlinear_arith)
            requires
                grid >= 2,
                floor == whole / grid,
        ;
        let digits: Vec<u8> = reversed(fraction);
        proof {
            lemma_coarse_grid(p, q, whole as int, f, shift as nat);
        }
        let up: bool = rest > half || (rest == half && (!is_zero(&digits) || floor % 2 == 1));
        let m: u64 = if up {
            floor + 1
        } else {
            floor
        };
        assert(0 <= m as u128 * grid as u128 <= u128::MAX) by (nonlinear_arith)
            requires
                0 <= m <= u64::MAX,
                0 <= grid <= u64::MAX,
        ;
        let value: u128 = m as u128 * grid as u128;
        if value < u64::MAX as u128 {
            value as u64
        } else {
            u64::MAX
        }
    } else {
        let shift: u32 = if whole == 0 {
            53
        } else {
            let top: u32 = top_bit_of(whole);
            proof {
                lemma_top_bit(whole as int);
                if top > 52 {
                    lemma_two_to_monotone(53, top as nat);
                }
            }
            52 - top
        };
        let (up, exact) = against_one(fraction, shift + 1);
        proof {
            lemma_fine_grid(p, q, whole as int, f, shift as nat);
        }
        if up && !(exact && shift == 0 && whole % 2 == 0) {
            whole + 1
        } else {
            whole
        }
    }
}

/// The digits of a fraction write less than their power of ten.
proof fn lemma_fraction(s: Seq<char>)
    requires
        number::all_digits(s),
    ensures
        0 <= number::value_of(s) < ten_to(s.len()),
    decreases s.len(),
{
    if s.len() > 0 {
        assert(number::all_digits(s.drop_last()));
        lemma_fraction(s.drop_last());
        assert(number::is_digit(s[s.len() - 1]));
    }
}

/// A number of `2^64` or more has a nearest double of `2^64` or more.
proof fn lemma_large(p: int, q: int, whole: int, f: int)
    requires
        q >= 1,
        0 <= f < q,
        p == whole * q + f,
        whole >= two_to(64),
    ensures
        double_floor(p, q) >= two_to(64),
{
    lemma_two_to_small();
    vstd::arithmetic::div_mod::lemma_fundamental_div_mod_converse(p, q, whole, f);
    let top = top_bit(whole);
    lemma_top_bit(whole);
    if top < 64 {
        lemma_two_to_monotone(top + 1, 64);
    }
    let s = (top - 52) as nat;
    let u = two_to(s);
    lemma_powers_positive(s);
    lemma_two_to_add(52, s);
    lemma_two_to_monotone(64, top);
    lemma_coarse_grid(p, q, whole, f, s);
    let floor = whole / u;
    assert(floor >= two_to(52)) by (nonlinear_arith)
        requires
            u >= 1,
            floor == whole / u,
            whole >= two_to(52) * u,
    ;
    let m = half_even(p, q * u);
    assert(m * u >= two_to(52) * u) by (nonlinear_arith)
        requires
            m >= two_to(52),
            u >= 1,
    ;
}

/// Whether the digits write less than the limit of doubles.
fn is_finite(whole: &[char]) -> (r: bool)
    requires
        number::all_digits(whole@),
    ensures
        r == (number::value_of(whole@) < double_limit()),
{
    let d = reversed(whole);
    let limit = limit_digits();
    !at_least(&d, &limit)
}

/// Whether every character is a digit.
fn only_digits(s: &[char]) -> (r: bool)
    ensures
        r == number::all_digits(s@),
{
    let mut i: usize = 0;
    while i < s.len()
        invariant
            i <= s@.len(),
            forall|k: int| 0 <= k < i ==> number::is_digit(#[trigger] s@[k]),
        decreases s@.len() - i,
    {
        let c: char = s[i];
        if !(c >= '0' && c <= '9') {
            assert(!number::is_digit(s@[i as int]));
            return false;
        }
        i = i + 1;
    }
    true
}

/// The count that a text of digits and points carries.
pub fn parse_count(s: &[char]) -> (r: Option<u64>)
    ensures
        match r {
            Some(n) => count_in(s@) == Some(n as int),
            None => count_in(s@) is None,
        },
{
    if let Some(n) = parse_natural(s, u64::MAX) {
        return Some(n);
    }
    let none: &[char] = vstd::slice::slice_subrange(s, 0, 0);
    let (whole, fraction) = match split_once(s, '.') {
        Some(parts) => parts,
        None => (s, none),
    };
    assert(none@ =~= Seq::<char>::empty());
    assert((whole@, fraction@) == decimal_parts(s@));
    if !only_digits(whole) || !only_digits(fraction) || (whole.len() == 0 && fraction.len() == 0) {
        return None;
    }
    let ghost q = ten_to(fraction@.len());
    let ghost w = number::value_of(whole@);
    let ghost f = number::value_of(fraction@);
    let ghost p = w * q + f;
    proof {
        lemma_powers_positive(fraction@.len());
        lemma_fraction(fraction@);
        lemma_fraction(whole@);
        let limit = double_limit();
        assert((p < limit * q) == (w < limit)) by (nonlinear_arith)
            requires
                p == w * q + f,
                0 <= f < q,
                q >= 1,
        ;
        lemma_two_to_small();
        lemma_two_to_add(970, 54);
        lemma_two_to_monotone(64, 970);
        let b = two_to(970);
        assert(b * two_to(54) - b >= b) by (nonlinear_arith)
            requires
                b >= 1,
                two_to(54) >= 2,
        ;
        assert(limit >= two_to(64));
    }
    if whole.len() == 0 {
        return Some(nearest_floor(0, fraction));
    }
    match parse_natural(whole, u64::MAX) {
        Some(n) => Some(nearest_floor(n, fraction)),
        None => {
            if is_finite(whole) {
                proof {
                    lemma_large(p, q, w, f);
                }
                Some(u64::MAX)
            } else {
                None
            }
        },
    }
}

}
