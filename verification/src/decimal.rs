//! Decimal numbers as text: sign, digits with a point, and an exponent.

use vstd::arithmetic::div_mod::{
    lemma_div_denominator, lemma_hoist_over_denominator, lemma_mod_breakdown,
    lemma_mod_multiples_vanish,
};
use vstd::prelude::*;

use crate::text::decimal;

verus! {

/// A decimal digit.
pub open spec fn is_digit(c: char) -> bool {
    '0' <= c && c <= '9'
}

/// The value of a digit.
pub open spec fn digit_value(c: char) -> nat {
    (c as u32 - 48) as nat
}

/// Ten to the power `n`.
pub open spec fn pow10(n: nat) -> nat
    decreases n,
{
    if n == 0 {
        1
    } else {
        10 * pow10((n - 1) as nat)
    }
}

/// The number that digits spell.
pub open spec fn number_of(digits: Seq<char>) -> nat
    decreases digits.len(),
{
    if digits.len() == 0 {
        0
    } else {
        10 * number_of(digits.drop_last()) + digit_value(digits.last())
    }
}

/// All characters are digits.
pub open spec fn all_digits(s: Seq<char>) -> bool {
    forall|i: int| 0 <= i < s.len() ==> is_digit(#[trigger] s[i])
}

/// Where the run of digits that starts at `from` ends.
pub open spec fn run_end(s: Seq<char>, from: int) -> int
    decreases s.len() - from,
{
    if 0 <= from < s.len() && is_digit(s[from]) {
        run_end(s, from + 1)
    } else {
        from
    }
}

proof fn lemma_run_end(s: Seq<char>, from: int)
    requires
        0 <= from <= s.len(),
    ensures
        from <= run_end(s, from) <= s.len(),
        all_digits(s.subrange(from, run_end(s, from))),
    decreases s.len() - from,
{
    if from < s.len() && is_digit(s[from]) {
        lemma_run_end(s, from + 1);
        let e = run_end(s, from);
        assert forall|i: int| 0 <= i < e - from implies is_digit(
            #[trigger] s.subrange(from, e)[i],
        ) by {
            if i > 0 {
                assert(s.subrange(from + 1, e)[i - 1] == s[from + i]);
            }
        }
    }
}

/// A decimal number: digits, and how many of them stand behind the point.
/// Negative where zeros are to be added instead.
pub ghost struct Decimal {
    pub negative: bool,
    pub digits: Seq<char>,
    pub scale: int,
}

/// Text without a leading sign.
pub open spec fn unsigned_part(s: Seq<char>) -> Seq<char> {
    if s.len() > 0 && (s[0] == '+' || s[0] == '-') {
        s.skip(1)
    } else {
        s
    }
}

/// The exponent that text spells: a sign, perhaps, and digits.
pub open spec fn exponent_of(s: Seq<char>) -> Option<int> {
    let digits = unsigned_part(s);
    if digits.len() == 0 || !all_digits(digits) {
        None
    } else if s[0] == '-' {
        Some(-(number_of(digits) as int))
    } else {
        Some(number_of(digits) as int)
    }
}

/// The number that text spells: a sign, perhaps; digits, with a point among or
/// around them, perhaps; and an exponent behind an `e`, perhaps.
pub open spec fn decimal_of(s: Seq<char>) -> Option<Decimal> {
    let t = unsigned_part(s);
    let a = run_end(t, 0);
    let pointed = a < t.len() && t[a] == '.';
    let b = if pointed {
        run_end(t, a + 1)
    } else {
        a
    };
    let fraction = if pointed {
        t.subrange(a + 1, b)
    } else {
        Seq::empty()
    };
    let digits = t.subrange(0, a) + fraction;
    let negative = s.len() > 0 && s[0] == '-';
    if digits.len() == 0 {
        None
    } else if b == t.len() {
        Some(Decimal { negative, digits, scale: fraction.len() as int })
    } else if t[b] == 'e' {
        match exponent_of(t.skip(b + 1)) {
            Some(e) => Some(Decimal { negative, digits, scale: fraction.len() - e }),
            None => None,
        }
    } else {
        None
    }
}

/// `digits * 10^(-scale) * factor` without its fraction.
pub open spec fn scaled(digits: Seq<char>, scale: int, factor: nat) -> nat {
    if scale <= 0 {
        number_of(digits) * pow10((-scale) as nat) * factor
    } else {
        number_of(digits) * factor / pow10(scale as nat)
    }
}

/// Whether `digits * 10^(-scale) * factor` has no fraction.
pub open spec fn is_whole(digits: Seq<char>, scale: int, factor: nat) -> bool {
    scale > 0 ==> number_of(digits) * factor % pow10(scale as nat) == 0
}

/// The largest factor that numbers are scaled by: two to the 84th.
pub open spec fn largest_factor() -> int {
    0x10_0000_0000_0000_0000_0000
}

/// A number, or the largest 64-bit number where it is larger.
pub open spec fn capped(n: nat) -> u64 {
    if n > u64::MAX {
        u64::MAX
    } else {
        n as u64
    }
}

pub(crate) proof fn lemma_pow10_pos(n: nat)
    ensures
        pow10(n) >= 1,
        n >= 20 ==> pow10(n) > u64::MAX,
        n >= 26 ==> pow10(n) > largest_factor(),
    decreases n,
{
    if n == 20 {
        reveal_with_fuel(pow10, 21);
    } else if n == 26 {
        reveal_with_fuel(pow10, 27);
    } else if n > 0 {
        lemma_pow10_pos((n - 1) as nat);
    }
}

proof fn lemma_pow10_adds(a: nat, b: nat)
    ensures
        pow10(a + b) == pow10(a) * pow10(b),
    decreases b,
{
    if b == 0 {
        assert(pow10(a) * 1 == pow10(a));
    } else {
        lemma_pow10_adds(a, (b - 1) as nat);
        assert(10 * (pow10(a) * pow10((b - 1) as nat)) == pow10(a) * (10 * pow10((b - 1) as nat)))
            by (nonlinear_arith);
    }
}

pub(crate) proof fn lemma_number_concat(a: Seq<char>, b: Seq<char>)
    ensures
        number_of(a + b) == number_of(a) * pow10(b.len()) + number_of(b),
    decreases b.len(),
{
    if b.len() == 0 {
        assert(a + b =~= a);
        assert(number_of(a) * 1 == number_of(a));
    } else {
        let c = b.drop_last();
        lemma_number_concat(a, c);
        assert((a + b).drop_last() =~= a + c);
        assert((a + b).last() == b.last());
        assert(10 * (number_of(a) * pow10(c.len())) == number_of(a) * (10 * pow10(c.len())))
            by (nonlinear_arith);
    }
}

proof fn lemma_number_bound(s: Seq<char>)
    requires
        all_digits(s),
    ensures
        number_of(s) < pow10(s.len()),
    decreases s.len(),
{
    if s.len() > 0 {
        assert(is_digit(s[s.len() - 1]));
        assert forall|i: int| 0 <= i < s.drop_last().len() implies is_digit(
            #[trigger] s.drop_last()[i],
        ) by {
            assert(s.drop_last()[i] == s[i]);
        }
        lemma_number_bound(s.drop_last());
    }
}

/// The number that digits spell, where it fits into 64 bits.
pub fn read_number(digits: &[char]) -> (r: Option<u64>)
    requires
        all_digits(digits@),
    ensures
        r == (if number_of(digits@) <= u64::MAX {
            Some(number_of(digits@) as u64)
        } else {
            None
        }),
{
    let mut value: u64 = 0;
    let mut over: bool = false;
    let mut i: usize = 0;
    assert(digits@.take(0) =~= Seq::empty());
    while i < digits.len()
        invariant
            all_digits(digits@),
            i <= digits@.len(),
            !over ==> value == number_of(digits@.take(i as int)),
            over ==> number_of(digits@.take(i as int)) > u64::MAX,
        decreases digits@.len() - i,
    {
        let c: char = digits[i];
        proof {
            assert(is_digit(digits@[i as int]));
            assert(digits@.take(i + 1).drop_last() =~= digits@.take(i as int));
            assert(digits@.take(i + 1).last() == c);
        }
        let d: u64 = (c as u32 - 48) as u64;
        if !over {
            let next: u128 = 10 * value as u128 + d as u128;
            if next > u64::MAX as u128 {
                over = true;
            } else {
                value = next as u64;
            }
        }
        i += 1;
    }
    assert(digits@.take(i as int) =~= digits@);
    if over {
        None
    } else {
        Some(value)
    }
}

proof fn lemma_division_step(a: int, b: int, p: int)
    requires
        a >= 0,
        b >= 0,
        p > 0,
    ensures
        (a * p + b) / (p * 10) == (a + b / p) / 10,
        (a * p + b) % (p * 10) == 0 <==> b % p == 0 && (a + b / p) % 10 == 0,
{
    let x = a * p + b;
    lemma_hoist_over_denominator(b, a, p as nat);
    lemma_div_denominator(x, p, 10);
    assert(x >= 0) by (nonlinear_arith)
        requires
            x == a * p + b,
            a >= 0,
            b >= 0,
            p > 0,
    ;
    lemma_mod_breakdown(x, p, 10);
    lemma_mod_multiples_vanish(a, b, p);
    assert(p * a == a * p) by (nonlinear_arith);
    assert(x % p == b % p);
    let y = (x / p) % 10;
    assert(x % (p * 10) == p * y + b % p);
    assert(p * y + b % p == 0 <==> y == 0 && b % p == 0) by (nonlinear_arith)
        requires
            p > 0,
            y >= 0,
            b % p >= 0,
    ;
}

/// `digits * factor / 10^len` without its fraction, by long division from the
/// last digit, and whether there is none.
fn fraction_of(digits: &[char], factor: u128) -> (r: (u128, bool))
    requires
        all_digits(digits@),
        0 < factor <= largest_factor(),
    ensures
        r.0 == number_of(digits@) * (factor as nat) / pow10(digits@.len()),
        r.1 == (number_of(digits@) * (factor as nat) % pow10(digits@.len()) == 0),
        r.0 < factor,
{
    let mut rest: u128 = 0;
    let mut whole: bool = true;
    let mut i: usize = digits.len();
    assert(digits@.skip(digits@.len() as int) =~= Seq::empty());
    assert(0 * factor / 1 == 0);
    assert(0 * factor % 1 == 0);
    while i > 0
        invariant
            all_digits(digits@),
            i <= digits@.len(),
            0 < factor <= largest_factor(),
            rest == number_of(digits@.skip(i as int)) * (factor as nat) / pow10(
                (digits@.len() - i) as nat,
            ),
            whole == (number_of(digits@.skip(i as int)) * (factor as nat) % pow10(
                (digits@.len() - i) as nat,
            ) == 0),
            rest < factor,
        decreases i,
    {
        let c: char = digits[i - 1];
        proof {
            assert(is_digit(digits@[i - 1]));
            let tail = digits@.skip(i as int);
            let more = digits@.skip(i - 1);
            let n = tail.len();
            assert(more =~= seq![c] + tail);
            lemma_number_concat(seq![c], tail);
            assert(seq![c].drop_last() =~= Seq::<char>::empty());
            reveal_with_fuel(number_of, 2);
            assert(number_of(seq![c]) == digit_value(c));
            lemma_pow10_pos(n);
            let d = digit_value(c) as int;
            let p = pow10(n) as int;
            let f = factor as int;
            let v = number_of(tail) as int;
            assert((d * p + v) * f == (d * f) * p + v * f) by (nonlinear_arith);
            assert(d * f >= 0 && v * f >= 0) by (nonlinear_arith)
                requires
                    d >= 0,
                    v >= 0,
                    f >= 0,
            ;
            lemma_division_step(d * f, v * f, p);
            assert(p * 10 == pow10(n + 1));
        }
        let d: u128 = (c as u32 - 48) as u128;
        assert(d * factor <= 9 * factor) by (nonlinear_arith)
            requires
                d <= 9,
        ;
        let next: u128 = d * factor + rest;
        if next % 10 != 0 {
            whole = false;
        }
        rest = next / 10;
        i -= 1;
    }
    assert(digits@.skip(0) =~= digits@);
    (rest, whole)
}

/// How many digits stand behind the point, or how many zeros are to be added;
/// very large counts are not told apart.
pub struct Scale {
    pub behind_point: bool,
    pub count: u128,
}

/// More than any text has characters.
pub open spec fn far() -> int {
    0x10_0000_0000_0000_0000_0000_0000
}

impl Scale {
    /// Whether this stands for a scale.
    pub open spec fn stands_for(self, scale: int) -> bool {
        if self.behind_point {
            scale > 0 && (self.count == scale || (self.count >= 2 * far() && scale >= 2 * far()))
        } else {
            scale <= 0 && (self.count == -scale || (self.count >= 2 * far() && -scale >= 2 * far()))
        }
    }
}

/// `digits * 10^(-scale) * factor` without its fraction, at most the largest
/// 64-bit number, and whether there is no fraction.
pub(crate) fn scaled_capped(digits: &[char], scale: &Scale, factor: u128, exact: Ghost<int>) -> (r: (
    u64,
    bool,
))
    requires
        all_digits(digits@),
        0 < factor <= largest_factor(),
        scale.stands_for(exact@),
        digits@.len() < far(),
    ensures
        r.0 == capped(scaled(digits@, exact@, factor as nat)),
        r.1 == is_whole(digits@, exact@, factor as nat),
{
    if scale.behind_point {
        scaled_down(digits, scale.count, factor, Ghost(exact@ as nat))
    } else {
        (scaled_up(digits, scale.count, factor, Ghost((-exact@) as nat)), true)
    }
}

/// `a * b + c`, at most the largest 64-bit number.
fn times_capped(a: u64, b: u128, c: u128) -> (r: u64)
    requires
        b > 0,
        c < largest_factor(),
    ensures
        r == capped((a * b + c) as nat),
{
    let max: u128 = 0xffff_ffff_ffff_ffff;
    if a as u128 > max / b {
        proof {
            let q = max as int / b as int;
            vstd::arithmetic::div_mod::lemma_fundamental_div_mod(max as int, b as int);
            assert(a * b > max) by (nonlinear_arith)
                requires
                    max == b * q + max as int % b as int,
                    (max as int % b as int) < b,
                    a >= q + 1,
                    b > 0,
            ;
        }
        return u64::MAX;
    }
    proof {
        let q = max as int / b as int;
        vstd::arithmetic::div_mod::lemma_fundamental_div_mod(max as int, b as int);
        assert(a * b <= max) by (nonlinear_arith)
            requires
                max == b * q + max as int % b as int,
                max as int % b as int >= 0,
                a <= q,
                b > 0,
        ;
    }
    let sum: u128 = a as u128 * b + c;
    if sum > max {
        u64::MAX
    } else {
        sum as u64
    }
}

fn scaled_up(digits: &[char], count: u128, factor: u128, exact: Ghost<nat>) -> (r: u64)
    requires
        all_digits(digits@),
        0 < factor <= largest_factor(),
        count == exact@ || (count >= 2 * far() && exact@ >= 2 * far()),
    ensures
        r == capped(number_of(digits@) * pow10(exact@) * (factor as nat)),
{
    let ghost d = number_of(digits@);
    let ghost f = factor as nat;
    let start: u64 = match read_number(digits) {
        Some(v) => v,
        None => {
            proof {
                lemma_pow10_pos(exact@);
                lemma_product_large(d, pow10(exact@), f);
            }
            return u64::MAX;
        },
    };
    if start == 0 {
        assert(0 * pow10(exact@) * f == 0) by (nonlinear_arith);
        return 0;
    }
    let mut value: u64 = start;
    let mut i: u128 = 0;
    assert(d * pow10(0) == d) by (nonlinear_arith)
        requires
            pow10(0) == 1,
    ;
    while i < count
        invariant
            count == exact@ || (count >= 2 * far() && exact@ >= 2 * far()),
            0 < factor <= largest_factor(),
            f == factor,
            d == number_of(digits@),
            d >= 1,
            i <= count,
            i <= exact@,
            value == d * pow10(i as nat),
            value >= 1,
        decreases count - i,
    {
        proof {
            assert(d * (10 * pow10(i as nat)) == 10 * (d * pow10(i as nat))) by (nonlinear_arith);
            lemma_pow10_pos(i as nat);
            assert(d * pow10(i as nat) >= pow10(i as nat)) by (nonlinear_arith)
                requires
                    d >= 1,
            ;
            assert(i < 20);
            assert(i + 1 <= exact@);
        }
        if value > u64::MAX / 10 {
            proof {
                let k = (i + 1) as nat;
                lemma_pow10_adds(k, (exact@ - k) as nat);
                lemma_pow10_pos((exact@ - k) as nat);
                assert(d * pow10(k) > u64::MAX);
                lemma_product_large(d * pow10(k), pow10((exact@ - k) as nat), f);
                assert(d * pow10(k) * pow10((exact@ - k) as nat) == d * (pow10(k) * pow10(
                    (exact@ - k) as nat,
                ))) by (nonlinear_arith);
            }
            return u64::MAX;
        }
        value = 10 * value;
        i += 1;
    }
    proof {
        if count != exact@ {
            lemma_pow10_pos(i as nat);
            assert(d * pow10(i as nat) >= pow10(i as nat)) by (nonlinear_arith)
                requires
                    d >= 1,
            ;
        }
    }
    times_capped(value, factor, 0)
}

proof fn lemma_product_large(a: nat, p: nat, f: nat)
    requires
        a > u64::MAX,
        p >= 1,
        f >= 1,
    ensures
        a * p * f > u64::MAX,
{
    assert(a * p >= a) by (nonlinear_arith)
        requires
            p >= 1,
    ;
    assert(a * p * f >= a * p) by (nonlinear_arith)
        requires
            f >= 1,
    ;
}

fn scaled_down(digits: &[char], count: u128, factor: u128, exact: Ghost<nat>) -> (r: (u64, bool))
    requires
        all_digits(digits@),
        0 < factor <= largest_factor(),
        exact@ > 0,
        count == exact@ || (count >= 2 * far() && exact@ >= 2 * far()),
        digits@.len() < far(),
    ensures
        r.0 == capped(number_of(digits@) * (factor as nat) / pow10(exact@)),
        r.1 == (number_of(digits@) * (factor as nat) % pow10(exact@) == 0),
{
    let len: usize = digits.len();
    let ghost d = number_of(digits@);
    let ghost f = factor as nat;
    if count < len as u128 {
        let cut: usize = len - count as usize;
        let whole: &[char] = vstd::slice::slice_subrange(digits, 0, cut);
        let part: &[char] = vstd::slice::slice_subrange(digits, cut, len);
        proof {
            assert(digits@ =~= whole@ + part@);
            lemma_number_concat(whole@, part@);
            assert forall|i: int| 0 <= i < part@.len() implies is_digit(#[trigger] part@[i]) by {
                assert(part@[i] == digits@[cut + i]);
            }
            assert forall|i: int| 0 <= i < whole@.len() implies is_digit(#[trigger] whole@[i]) by {
                assert(whole@[i] == digits@[i]);
            }
            lemma_pow10_pos(part@.len());
            let p = pow10(part@.len()) as int;
            let w = number_of(whole@) as int;
            let v = number_of(part@) as int;
            let g = factor as int;
            assert((w * p + v) * g == (w * g) * p + v * g) by (nonlinear_arith);
            lemma_hoist_over_denominator(v * g, w * g, p as nat);
            lemma_mod_multiples_vanish(w * g, v * g, p);
            assert(p * (w * g) == (w * g) * p) by (nonlinear_arith);
            assert(d * f / pow10(exact@) == w * g + v * g / p);
            assert(d * f % pow10(exact@) == v * g % p);
        }
        let (fraction, is_whole): (u128, bool) = fraction_of(part, factor);
        let ghost total = number_of(whole@) * f + fraction as nat;
        assert(d * f / pow10(exact@) == total);
        let value: u64 = match read_number(whole) {
            Some(v) => times_capped(v, factor, fraction),
            None => {
                proof {
                    let w = number_of(whole@);
                    assert(w * f >= w) by (nonlinear_arith)
                        requires
                            f >= 1,
                    ;
                }
                u64::MAX
            },
        };
        (value, is_whole)
    } else {
        let (first, first_whole): (u128, bool) = fraction_of(digits, factor);
        let mut rest: u128 = first;
        let mut is_whole: bool = first_whole;
        let ghost top = rest as int;
        let zeros: u128 = count - len as u128;
        let mut i: u128 = 0;
        assert(top / 1 == top);
        assert(top % 1 == 0);
        while i < zeros && rest > 0
            invariant
                i <= zeros,
                i <= 26,
                rest == top / (pow10(i as nat) as int),
                is_whole == (first_whole && top % (pow10(i as nat) as int) == 0),
                0 <= top < largest_factor(),
            decreases zeros - i,
        {
            proof {
                let p = pow10(i as nat) as int;
                lemma_pow10_pos(i as nat);
                vstd::arithmetic::div_mod::lemma_fundamental_div_mod(top, p);
                let q = top / p;
                assert(q >= 0) by (nonlinear_arith)
                    requires
                        q == top / p,
                        top >= 0,
                        p > 0,
                ;
                assert(q * p == p * q) by (nonlinear_arith);
                lemma_division_step(q, top % p, p);
                assert((top % p) / p == 0) by (nonlinear_arith)
                    requires
                        0 <= top % p < p,
                ;
                assert((top % p) % p == top % p) by (nonlinear_arith)
                    requires
                        0 <= top % p < p,
                ;
                assert(p * 10 == pow10((i + 1) as nat));
                if i >= 26 {
                    assert(q == 0) by (nonlinear_arith)
                        requires
                            q == top / p,
                            0 <= top < p,
                    ;
                }
            }
            if rest % 10 != 0 {
                is_whole = false;
            }
            rest = rest / 10;
            i += 1;
        }
        proof {
            let n = digits@.len();
            let z = (exact@ - n) as nat;
            let pn = pow10(n) as int;
            let pz = pow10(z) as int;
            let pi = pow10(i as nat) as int;
            let df = (d * f) as int;
            lemma_pow10_pos(n);
            lemma_pow10_pos(z);
            lemma_pow10_pos(i as nat);
            lemma_pow10_adds(n, z);
            lemma_div_denominator(df, pn, pz);
            lemma_mod_breakdown(df, pn, pz);
            assert(df >= 0) by (nonlinear_arith)
                requires
                    df == d * f,
            ;
            assert(df / pow10(exact@) as int == top / pz);
            let y = top % pz;
            assert(df % (pow10(exact@) as int) == pn * y + df % pn);
            assert(pn * y + df % pn == 0 <==> y == 0 && df % pn == 0) by (nonlinear_arith)
                requires
                    pn > 0,
                    y >= 0,
                    df % pn >= 0,
            ;
            if i < z {
                let rest_pow = pow10((z - i) as nat) as int;
                lemma_pow10_adds(i as nat, (z - i) as nat);
                lemma_pow10_pos((z - i) as nat);
                if rest == 0 {
                    lemma_div_denominator(top, pi, rest_pow);
                    assert(0int / rest_pow == 0) by (nonlinear_arith)
                        requires
                            rest_pow >= 1,
                    ;
                    vstd::arithmetic::div_mod::lemma_fundamental_div_mod(top, pi);
                    assert(top < pi);
                    assert(pi <= pz) by (nonlinear_arith)
                        requires
                            pz == pi * rest_pow,
                            rest_pow >= 1,
                            pi >= 1,
                    ;
                    assert(top % pz == top && top % pi == top) by (nonlinear_arith)
                        requires
                            0 <= top < pi,
                            pi <= pz,
                    ;
                }
            }
            assert(rest == top / pz);
        }
        if rest > 0xffff_ffff_ffff_ffff {
            (u64::MAX, is_whole)
        } else {
            (rest as u64, is_whole)
        }
    }
}

/// A number that was read: its digits, and its scale.
pub struct ReadDecimal {
    pub negative: bool,
    pub digits: Vec<char>,
    pub scale: Scale,
    pub exact: Ghost<int>,
}

impl ReadDecimal {
    /// The number that was read.
    pub open spec fn stands_for(&self, d: Decimal) -> bool {
        &&& self.negative == d.negative
        &&& self.digits@ == d.digits
        &&& self.exact@ == d.scale
        &&& self.scale.stands_for(d.scale)
        &&& all_digits(self.digits@)
        &&& self.digits@.len() < far()
    }
}

fn end_of_run(s: &[char], from: usize) -> (r: usize)
    requires
        from <= s@.len(),
    ensures
        r == run_end(s@, from as int),
        from <= r <= s@.len(),
{
    let mut i: usize = from;
    while i < s.len() && '0' <= s[i] && s[i] <= '9'
        invariant
            from <= i <= s@.len(),
            run_end(s@, from as int) == run_end(s@, i as int),
        decreases s@.len() - i,
    {
        i += 1;
    }
    i
}

fn has_only_digits(s: &[char]) -> (r: bool)
    ensures
        r == all_digits(s@),
{
    let mut i: usize = 0;
    while i < s.len()
        invariant
            i <= s@.len(),
            forall|j: int| 0 <= j < i ==> is_digit(#[trigger] s@[j]),
        decreases s@.len() - i,
    {
        if !('0' <= s[i] && s[i] <= '9') {
            assert(!is_digit(s@[i as int]));
            return false;
        }
        i += 1;
    }
    true
}

fn skip_sign(s: &[char]) -> (r: &[char])
    ensures
        r@ == unsigned_part(s@),
{
    if s.len() > 0 && (s[0] == '+' || s[0] == '-') {
        let t: &[char] = vstd::slice::slice_subrange(s, 1, s.len());
        assert(t@ =~= s@.skip(1));
        t
    } else {
        s
    }
}

/// The number that digits spell; very large ones are not told apart.
fn read_far(digits: &[char]) -> (r: u128)
    requires
        all_digits(digits@),
    ensures
        r == number_of(digits@) || (r >= 4 * far() && number_of(digits@) >= 4 * far()),
        r < 0x1000_0000_0000_0000_0000_0000_0000,
{
    let mut value: u128 = 0;
    let mut over: bool = false;
    let mut i: usize = 0;
    assert(digits@.take(0) =~= Seq::empty());
    while i < digits.len()
        invariant
            all_digits(digits@),
            i <= digits@.len(),
            value < 0x1000_0000_0000_0000_0000_0000_0000,
            !over ==> value == number_of(digits@.take(i as int)),
            over ==> value >= 4 * far() && number_of(digits@.take(i as int)) >= 4 * far(),
        decreases digits@.len() - i,
    {
        let c: char = digits[i];
        proof {
            assert(is_digit(digits@[i as int]));
            assert(digits@.take(i + 1).drop_last() =~= digits@.take(i as int));
            assert(digits@.take(i + 1).last() == c);
        }
        let d: u128 = (c as u32 - 48) as u128;
        if !over {
            let next: u128 = 10 * value + d;
            if next >= 0x40_0000_0000_0000_0000_0000_0000 {
                over = true;
                value = 0x40_0000_0000_0000_0000_0000_0000;
            } else {
                value = next;
            }
        }
        i += 1;
    }
    assert(digits@.take(i as int) =~= digits@);
    value
}

/// Reads a decimal number.
pub fn read_decimal(s: &[char]) -> (r: Option<ReadDecimal>)
    ensures
        match decimal_of(s@) {
            Some(d) => r matches Some(n) && n.stands_for(d),
            None => r is None,
        },
{
    let negative: bool = s.len() > 0 && s[0] == '-';
    let t: &[char] = skip_sign(s);
    let len: usize = t.len();
    let a: usize = end_of_run(t, 0);
    let pointed: bool = a < len && t[a] == '.';
    let b: usize = if pointed {
        end_of_run(t, a + 1)
    } else {
        a
    };
    let mut digits: Vec<char> = Vec::new();
    digits.extend_from_slice(vstd::slice::slice_subrange(t, 0, a));
    let mut behind: usize = 0;
    if pointed {
        digits.extend_from_slice(vstd::slice::slice_subrange(t, a + 1, b));
        behind = b - (a + 1);
    }
    let ghost fraction = if pointed {
        t@.subrange(a + 1, b as int)
    } else {
        Seq::empty()
    };
    proof {
        lemma_run_end(t@, 0);
        if pointed {
            lemma_run_end(t@, a + 1);
        }
        assert(digits@ =~= t@.subrange(0, a as int) + fraction);
        assert forall|i: int| 0 <= i < digits@.len() implies is_digit(#[trigger] digits@[i]) by {
            if i < a {
                assert(digits@[i] == t@.subrange(0, a as int)[i]);
            } else {
                assert(digits@[i] == fraction[i - a]);
            }
        }
        assert(behind == fraction.len());
    }
    if digits.len() == 0 {
        return None;
    }
    let n: usize = digits.len();
    if b == len {
        let scale = Scale { behind_point: behind > 0, count: behind as u128 };
        return Some(ReadDecimal { negative, digits, scale, exact: Ghost(fraction.len() as int) });
    }
    if t[b] != 'e' {
        return None;
    }
    let e: &[char] = vstd::slice::slice_subrange(t, b + 1, len);
    assert(e@ =~= t@.skip(b + 1));
    let e_digits: &[char] = skip_sign(e);
    if e_digits.len() == 0 || !has_only_digits(e_digits) {
        return None;
    }
    let size: u128 = read_far(e_digits);
    let ghost exact: int = fraction.len() - exponent_of(e@)->0;
    let scale: Scale = if e[0] == '-' {
        let count: u128 = behind as u128 + size;
        Scale { behind_point: count > 0, count }
    } else if behind as u128 > size {
        Scale { behind_point: true, count: behind as u128 - size }
    } else {
        Scale { behind_point: false, count: size - behind as u128 }
    };
    assert(scale.stands_for(exact));
    Some(ReadDecimal { negative, digits, scale, exact: Ghost(exact) })
}

/// What follows a leading plus sign, if there is one.
pub open spec fn without_plus(s: Seq<char>) -> Seq<char> {
    if s.len() > 0 && s[0] == '+' {
        s.skip(1)
    } else {
        s
    }
}

/// The whole number that text spells: digits, perhaps after a plus sign, that
/// fit into 64 bits.
pub open spec fn whole_number(s: Seq<char>) -> Option<u64> {
    let digits = without_plus(s);
    if digits.len() > 0 && all_digits(digits) && number_of(digits) <= u64::MAX {
        Some(number_of(digits) as u64)
    } else {
        None
    }
}

proof fn lemma_decimal_digits(n: nat)
    ensures
        decimal(n).len() > 0,
        all_digits(decimal(n)),
        number_of(decimal(n)) == n,
    decreases n,
{
    reveal_with_fuel(number_of, 2);
    if n >= 10 {
        lemma_decimal_digits(n / 10);
        assert(decimal(n).drop_last() =~= decimal(n / 10));
    } else {
        assert(decimal(n).drop_last() =~= Seq::empty());
    }
}

/// A number that is written in decimal is read back as the number.
pub proof fn law_decimal_roundtrip(n: u64)
    ensures
        whole_number(decimal(n as nat)) == Some(n),
        all_digits(decimal(n as nat)),
{
    lemma_decimal_digits(n as nat);
    assert(is_digit(decimal(n as nat)[0]));
}

/// Reads a whole number.
pub fn read_whole(s: &[char]) -> (r: Option<u64>)
    ensures
        r == whole_number(s@),
{
    let digits: &[char] = if s.len() > 0 && s[0] == '+' {
        vstd::slice::slice_subrange(s, 1, s.len())
    } else {
        s
    };
    assert(digits@ =~= without_plus(s@));
    if digits.len() == 0 || !has_only_digits(digits) {
        return None;
    }
    read_number(digits)
}

proof fn lemma_run_stops(s: Seq<char>, from: int, end: int)
    requires
        0 <= from <= end <= s.len(),
        forall|i: int| from <= i < end ==> is_digit(#[trigger] s[i]),
        end < s.len() ==> !is_digit(s[end]),
    ensures
        run_end(s, from) == end,
    decreases end - from,
{
    if from < end {
        lemma_run_stops(s, from + 1, end);
    }
}

/// Digits, perhaps with a point and more digits behind them.
pub open spec fn with_point(before: Seq<char>, pointed: bool, behind: Seq<char>) -> Seq<char> {
    if pointed {
        before + seq!['.'] + behind
    } else {
        before
    }
}

/// A number with digits before the point, and perhaps a point and digits behind
/// it, is read as all the digits, with as many behind the point as stand there.
pub proof fn law_digits_around_point_are_read(before: Seq<char>, pointed: bool, behind: Seq<char>)
    requires
        before.len() > 0,
        all_digits(before),
        all_digits(behind),
        !pointed ==> behind.len() == 0,
    ensures
        decimal_of(with_point(before, pointed, behind)) == Some(
            Decimal { negative: false, digits: before + behind, scale: behind.len() as int },
        ),
        decimal_of(seq!['-'] + with_point(before, pointed, behind)) == Some(
            Decimal { negative: true, digits: before + behind, scale: behind.len() as int },
        ),
        decimal_of(seq!['+'] + with_point(before, pointed, behind)) == Some(
            Decimal { negative: false, digits: before + behind, scale: behind.len() as int },
        ),
{
    let t = with_point(before, pointed, behind);
    let n = before.len() as int;
    assert(is_digit(before[0]));
    assert(t[0] == before[0]);
    assert forall|i: int| 0 <= i < n implies is_digit(#[trigger] t[i]) by {
        assert(t[i] == before[i]);
    }
    lemma_run_stops(t, 0, n);
    assert(t.subrange(0, n) =~= before);
    if pointed {
        assert forall|i: int| n + 1 <= i < t.len() implies is_digit(#[trigger] t[i]) by {
            assert(t[i] == behind[i - n - 1]);
        }
        lemma_run_stops(t, n + 1, t.len() as int);
        assert(t.subrange(n + 1, t.len() as int) =~= behind);
    } else {
        assert(before + behind =~= before);
        assert(behind =~= Seq::empty());
    }
    assert((seq!['-'] + t).skip(1) =~= t);
    assert((seq!['+'] + t).skip(1) =~= t);
}

/// Digits spell a number by their places: one digit more multiplies by ten and
/// adds the digit, and the ten digits stand for nought to nine.
pub proof fn law_digits_spell_by_place(s: Seq<char>, d: nat)
    requires
        d < 10,
    ensures
        number_of(Seq::empty()) == 0,
        number_of(s.push((48 + d) as u8 as char)) == 10 * number_of(s) + d,
        is_digit((48 + d) as u8 as char),
{
    let c = (48 + d) as u8 as char;
    assert(s.push(c).drop_last() =~= s);
    let x: u8 = (48 + d) as u8;
    assert(x as char as u32 == 48 + d);
}

/// A whole number is read where text is digits, perhaps behind a plus sign, and
/// fits into 64 bits, and nowhere else.
pub proof fn law_whole_numbers_are_read(s: Seq<char>)
    ensures
        whole_number(s) is Some ==> s.len() > 0 && (is_digit(s[0]) || s[0] == '+') && is_digit(
            s.last(),
        ),
        s.len() > 0 && all_digits(s) && number_of(s) <= u64::MAX ==> whole_number(s) == Some(
            number_of(s) as u64,
        ),
        s.len() > 0 && all_digits(s) && number_of(s) <= u64::MAX ==> whole_number(seq!['+'] + s)
            == Some(number_of(s) as u64),
        s.len() > 0 && all_digits(s) && number_of(s) > u64::MAX ==> whole_number(s) is None,
{
    if whole_number(s) is Some {
        let digits = without_plus(s);
        assert(is_digit(digits[digits.len() - 1]));
        assert(is_digit(digits[0]));
    }
    if s.len() > 0 && all_digits(s) {
        assert(is_digit(s[0]));
        assert((seq!['+'] + s).skip(1) =~= s);
    }
}

} // verus!
