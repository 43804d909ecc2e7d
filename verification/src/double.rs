//! Numbers in double precision: what is left of a number once it is rounded to
//! 53 significant bits, computed on integers.

use vstd::arithmetic::div_mod::{
    lemma_div_denominator, lemma_fundamental_div_mod, lemma_fundamental_div_mod_converse,
    lemma_mod_breakdown,
};
use vstd::arithmetic::power2::{lemma_pow2_adds, lemma_pow2_pos, lemma_pow2_unfold, pow2};
use vstd::prelude::*;

use crate::decimal::{
    all_digits, capped, digit_value, far, is_digit, is_whole, lemma_number_concat, lemma_pow10_pos,
    number_of, pow10, scaled, scaled_capped, Scale,
};

verus! {

/// `n / d` rounded to the nearest integer, halves to the even one.
pub open spec fn rounded(n: nat, d: nat) -> nat {
    let q = n / d;
    let r = n % d;
    if 2 * r > d || (2 * r == d && q % 2 == 1) {
        q + 1
    } else {
        q
    }
}

/// The position of the highest bit of a number.
pub open spec fn highest_bit(n: nat) -> nat
    decreases n,
{
    if n < 2 {
        0
    } else {
        1 + highest_bit(n / 2)
    }
}

/// `num / den` rounded to 53 significant bits, without its fraction. Below one
/// only what rounds up to one counts, and for that 53 bits behind the point do.
pub open spec fn whole_of_double(num: nat, den: nat) -> nat {
    let n = num / den;
    if n == 0 {
        rounded(num * pow2(53), den) / pow2(53)
    } else {
        let e = highest_bit(n);
        if e <= 52 {
            let u = pow2((52 - e) as nat);
            rounded(num * u, den) / u
        } else {
            let u = pow2((e - 52) as nat);
            rounded(num, den * u) * u
        }
    }
}

proof fn lemma_highest_bit(n: nat, e: nat)
    requires
        n > 0,
        pow2(e) <= n < pow2(e + 1),
    ensures
        highest_bit(n) == e,
    decreases n,
{
    lemma_pow2_unfold(e + 1);
    vstd::arithmetic::power2::lemma2_to64();
    if n < 2 {
        if e > 0 {
            lemma_pow2_unfold(e);
            lemma_pow2_pos((e - 1) as nat);
        }
    } else {
        if e == 0 {
            assert(pow2(1) == 2);
        }
        lemma_pow2_unfold(e);
        lemma_highest_bit(n / 2, (e - 1) as nat);
    }
}

/// Rounds from a quotient of twice the number: `t` is `2 * num / den` without
/// its fraction, `whole` whether there is none.
proof fn lemma_rounded(num: nat, den: nat, t: nat, whole: bool)
    requires
        den > 0,
        t == 2 * num / den,
        whole == (2 * num % den == 0),
    ensures
        rounded(num, den) == t / 2 + (if t % 2 == 1 && (!whole || t / 2 % 2 == 1) {
            1nat
        } else {
            0nat
        }),
{
    let q = num / den;
    let r = num % den;
    lemma_fundamental_div_mod(num as int, den as int);
    let d = den as int;
    assert(2 * num == (2 * q) * d + 2 * r) by (nonlinear_arith)
        requires
            num == d * q + r,
    ;
    if 2 * r < d {
        lemma_fundamental_div_mod_converse(2 * num as int, d, 2 * q as int, 2 * r as int);
    } else {
        assert(2 * num == (2 * q + 1) * d + (2 * r - d)) by (nonlinear_arith)
            requires
                2 * num == (2 * q) * d + 2 * r,
        ;
        lemma_fundamental_div_mod_converse(2 * num as int, d, (2 * q + 1) as int, 2 * r - d);
    }
}

/// Half of a quotient, rounded to even: `t` is twice the number without its
/// fraction, `whole` whether there is none.
fn round_half(t: u64, whole: bool) -> (r: u64)
    ensures
        r == t / 2 + (if t % 2 == 1 && (!whole || t / 2 % 2 == 1) {
            1int
        } else {
            0int
        }),
{
    if t % 2 == 1 && (!whole || t / 2 % 2 == 1) {
        t / 2 + 1
    } else {
        t / 2
    }
}

/// The position of the highest bit, and the bit.
fn find_highest_bit(n: u64) -> (r: (u32, u64))
    requires
        n > 0,
    ensures
        r.0 == highest_bit(n as nat),
        r.0 < 64,
        r.1 == pow2(r.0 as nat),
        r.1 <= n,
{
    let mut e: u32 = 0;
    let mut p: u64 = 1;
    proof {
        vstd::arithmetic::power2::lemma2_to64();
    }
    while n / 2 >= p
        invariant
            p == pow2(e as nat),
            1 <= p <= n,
            e < 64,
        decreases n - p,
    {
        proof {
            lemma_pow2_unfold((e + 1) as nat);
            if e >= 63 {
                vstd::arithmetic::power2::lemma2_to64();
                vstd::arithmetic::power2::lemma2_to64_rest();
            }
        }
        p = 2 * p;
        e = e + 1;
    }
    proof {
        lemma_pow2_unfold((e + 1) as nat);
        lemma_highest_bit(n as nat, e as nat);
    }
    (e, p)
}

fn power_of_two(e: u32) -> (r: u128)
    requires
        e <= 84,
    ensures
        r == pow2(e as nat),
        1 <= r <= 0x10_0000_0000_0000_0000_0000,
{
    let mut p: u128 = 1;
    let mut i: u32 = 0;
    proof {
        vstd::arithmetic::power2::lemma2_to64();
        lemma_pow2_84();
    }
    while i < e
        invariant
            i <= e <= 84,
            p == pow2(i as nat),
            pow2(84) == 0x10_0000_0000_0000_0000_0000,
            1 <= p <= 0x10_0000_0000_0000_0000_0000,
        decreases e - i,
    {
        proof {
            lemma_pow2_unfold((i + 1) as nat);
            lemma_pow2_adds((i + 1) as nat, (84 - (i + 1)) as nat);
            lemma_pow2_pos((84 - (i + 1)) as nat);
            let a = pow2((i + 1) as nat);
            let b = pow2((84 - (i + 1)) as nat);
            assert(a <= a * b) by (nonlinear_arith)
                requires
                    b >= 1,
            ;
        }
        p = 2 * p;
        i += 1;
    }
    p
}

proof fn lemma_pow2_84()
    ensures
        pow2(84) == 0x10_0000_0000_0000_0000_0000,
{
    vstd::arithmetic::power2::lemma2_to64();
    vstd::arithmetic::power2::lemma2_to64_rest();
    lemma_pow2_adds(64, 20);
}

proof fn lemma_twice_over_twice(a: int, b: int)
    requires
        a >= 0,
        b > 0,
    ensures
        2 * a / (2 * b) == a / b,
        2 * a % (2 * b) == 0 <==> a % b == 0,
{
    lemma_fundamental_div_mod(a, b);
    let q = a / b;
    let r = a % b;
    assert(2 * a == q * (2 * b) + 2 * r) by (nonlinear_arith)
        requires
            a == b * q + r,
    ;
    lemma_fundamental_div_mod_converse(2 * a, 2 * b, q, 2 * r);
}

proof fn lemma_over_power(a: int, den: int, half: int)
    requires
        a >= 0,
        den > 0,
        half > 0,
    ensures
        2 * a / (den * (2 * half)) == a / den / half,
        2 * a % (den * (2 * half)) == 0 <==> a % den == 0 && a / den % half == 0,
{
    assert(den * (2 * half) == 2 * (den * half)) by (nonlinear_arith);
    assert(den * half > 0) by (nonlinear_arith)
        requires
            den > 0,
            half > 0,
    ;
    lemma_twice_over_twice(a, den * half);
    lemma_div_denominator(a, den, half);
    lemma_mod_breakdown(a, den, half);
    let y = a / den % half;
    assert(den * y + a % den == 0 <==> y == 0 && a % den == 0) by (nonlinear_arith)
        requires
            den > 0,
            y >= 0,
            a % den >= 0,
    ;
}

/// Rounds a number from 2 to the 53rd on: `n` is `num / den` without its
/// fraction, `whole` whether there is none.
fn round_large(n: u64, whole: bool, num: Ghost<nat>, den: Ghost<nat>) -> (r: u128)
    requires
        den@ > 0,
        n == num@ / den@,
        whole == (num@ % den@ == 0),
        highest_bit(n as nat) > 52,
    ensures
        r == whole_of_double(num@, den@),
        r <= 0x1_0000_0000_0000_0000,
{
    let (e, p): (u32, u64) = find_highest_bit(n);
    let half: u128 = power_of_two(e - 53);
    proof {
        lemma_pow2_unfold((e - 52) as nat);
        vstd::arithmetic::power2::lemma2_to64();
        lemma_pow2_adds((e - 53) as nat, (10 - (e - 53)) as nat);
        lemma_pow2_pos((10 - (e - 53)) as nat);
        let b = pow2((10 - (e - 53)) as nat);
        assert(half <= half * b) by (nonlinear_arith)
            requires
                b >= 1,
        ;
        assert(half <= 1024);
        lemma_over_power(num@ as int, den@ as int, half as int);
    }
    let h: u64 = half as u64;
    let t: u64 = n / h;
    let all: bool = whole && n % h == 0;
    proof {
        let u = pow2((e - 52) as nat);
        assert(den@ * u > 0) by (nonlinear_arith)
            requires
                den@ > 0,
                u > 0,
        ;
        lemma_rounded(num@, den@ * u, t as nat, all);
    }
    let m: u64 = round_half(t, all);
    proof {
        let w = 2 * half as int;
        lemma_pow2_adds((e - 52) as nat, 53);
        vstd::arithmetic::power2::lemma2_to64_rest();
        lemma_bits_of(n as nat);
        lemma_pow2_adds((e + 1) as nat, (64 - (e + 1)) as nat);
        lemma_pow2_pos((64 - (e + 1)) as nat);
        let a = pow2((e + 1) as nat);
        let b = pow2((64 - (e + 1)) as nat);
        assert(a <= a * b) by (nonlinear_arith)
            requires
                b >= 1,
        ;
        let p53 = pow2(53) as int;
        let g = h as int;
        assert(t < 2 * p53) by (nonlinear_arith)
            requires
                n < w * p53,
                w == 2 * g,
                t == n as int / g,
                g > 0,
        ;
        assert(m * w <= p53 * w) by (nonlinear_arith)
            requires
                m <= p53,
                w > 0,
        ;
        assert(p53 * w == w * p53) by (nonlinear_arith);
    }
    m as u128 * (2 * half)
}

proof fn lemma_very_large(num: nat, den: nat)
    requires
        den > 0,
        num / den >= 0x1_0000_0000_0000_0000,
    ensures
        whole_of_double(num, den) > u64::MAX,
{
    let n = num / den;
    let e = highest_bit(n);
    lemma_bits_of(n);
    vstd::arithmetic::power2::lemma2_to64();
    vstd::arithmetic::power2::lemma2_to64_rest();
    if e < 64 {
        lemma_pow2_adds(e + 1, (64 - (e + 1)) as nat);
        lemma_pow2_pos((64 - (e + 1)) as nat);
        let a = pow2(e + 1);
        let b = pow2((64 - (e + 1)) as nat);
        assert(a <= a * b) by (nonlinear_arith)
            requires
                b >= 1,
        ;
        assert(false);
    }
    let u = pow2((e - 52) as nat);
    lemma_pow2_pos((e - 52) as nat);
    lemma_pow2_adds(52, (e - 52) as nat);
    lemma_div_denominator(num as int, den as int, u as int);
    let q = n / u;
    lemma_fundamental_div_mod(n as int, u as int);
    let top = pow2(52) as int;
    assert(q >= top) by (nonlinear_arith)
        requires
            n == u * q + n % u,
            (n % u) < u,
            n >= top * u,
            u > 0,
    ;
    let m = rounded(num, den * u);
    assert(m >= q);
    assert(m * u >= top * u) by (nonlinear_arith)
        requires
            m >= top,
    ;
    lemma_pow2_adds(64, (e - 64) as nat);
    lemma_pow2_pos((e - 64) as nat);
    let c = pow2((e - 64) as nat);
    assert(pow2(64) <= pow2(64) * c) by (nonlinear_arith)
        requires
            c >= 1,
    ;
}

proof fn lemma_bits_of(n: nat)
    requires
        n > 0,
    ensures
        pow2(highest_bit(n)) <= n < pow2(highest_bit(n) + 1),
    decreases n,
{
    vstd::arithmetic::power2::lemma2_to64();
    if n >= 2 {
        lemma_bits_of(n / 2);
        let e = highest_bit(n / 2);
        lemma_pow2_unfold(e + 1);
        lemma_pow2_unfold(e + 2);
    }
}

/// A decimal number as a fraction: what stands above the line.
pub open spec fn numerator(digits: Seq<char>, scale: int) -> nat {
    if scale <= 0 {
        number_of(digits) * pow10((-scale) as nat)
    } else {
        number_of(digits)
    }
}

/// A decimal number as a fraction: what stands below the line.
pub open spec fn denominator(scale: int) -> nat {
    if scale <= 0 {
        1
    } else {
        pow10(scale as nat)
    }
}

/// A decimal number times two to the power `k`, rounded to 53 significant bits,
/// without its fraction, at most the largest 64-bit number.
pub(crate) fn scale_as_double(digits: &[char], scale: &Scale, k: u32, exact: Ghost<int>) -> (r: u64)
    requires
        all_digits(digits@),
        k <= 30,
        scale.stands_for(exact@),
        digits@.len() < far(),
    ensures
        r == capped(
            whole_of_double(numerator(digits@, exact@) * pow2(k as nat), denominator(exact@)),
        ),
{
    let ghost den = denominator(exact@);
    let ghost d = numerator(digits@, exact@);
    let ghost num = d * pow2(k as nat);
    proof {
        lemma_pow10_pos(exact@ as nat);
        assert(den > 0);
    }
    let factor: u128 = power_of_two(k);
    let (n, whole): (u64, bool) = scaled_capped(digits, scale, factor, exact);
    proof {
        lemma_fraction(digits@, exact@, factor as nat);
    }
    if n == u64::MAX {
        proof {
            if num / den == u64::MAX {
                lemma_pow2_near_top(num, den);
            } else {
                lemma_very_large(num, den);
            }
        }
        return u64::MAX;
    }
    if n >= 0x20_0000_0000_0000 {
        proof {
            vstd::arithmetic::power2::lemma2_to64();
            lemma_bits_of(n as nat);
            lemma_high(n as nat);
        }
        let value: u128 = round_large(n, whole, Ghost(num), Ghost(den));
        return if value > 0xffff_ffff_ffff_ffff {
            u64::MAX
        } else {
            value as u64
        };
    }
    // Bits to keep behind the point.
    let bits: u32 = if n == 0 {
        53
    } else {
        let (e, _): (u32, u64) = find_highest_bit(n);
        proof {
            lemma_bits_of(n as nat);
            lemma_low(n as nat);
        }
        52 - e
    };
    let ghost u = pow2(bits as nat);
    let more: u128 = power_of_two(k + bits + 1);
    let (t, all): (u64, bool) = scaled_capped(digits, scale, more, exact);
    proof {
        lemma_fraction(digits@, exact@, more as nat);
        lemma_pow2_adds(k as nat, (bits + 1) as nat);
        lemma_pow2_unfold((bits + 1) as nat);
        lemma_pow2_pos(bits as nat);
        let f = factor as int;
        assert(d * (f * (2 * u)) == 2 * (d * f * u)) by (nonlinear_arith);
        assert(d * more == 2 * (num * u));
        lemma_small_quotient(num, den, n as nat, bits as nat);
        lemma_rounded(num * u, den, t as nat, all);
    }
    let m: u64 = round_half(t, all);
    let unit: u64 = power_of_two_64(bits);
    m / unit
}

fn power_of_two_64(e: u32) -> (r: u64)
    requires
        e <= 53,
    ensures
        r == pow2(e as nat),
        r > 0,
{
    let p: u128 = power_of_two(e);
    proof {
        vstd::arithmetic::power2::lemma2_to64();
        vstd::arithmetic::power2::lemma2_to64_rest();
        lemma_pow2_adds(e as nat, (53 - e) as nat);
        lemma_pow2_pos((53 - e) as nat);
        let a = pow2(e as nat);
        let b = pow2((53 - e) as nat);
        assert(a <= a * b) by (nonlinear_arith)
            requires
                b >= 1,
        ;
    }
    p as u64
}

proof fn lemma_fraction(digits: Seq<char>, scale: int, factor: nat)
    ensures
        scaled(digits, scale, factor) == numerator(digits, scale) * factor / denominator(scale),
        is_whole(digits, scale, factor) == (numerator(digits, scale) * factor % denominator(scale)
            == 0),
{
}

proof fn lemma_pow2_near_top(num: nat, den: nat)
    requires
        den > 0,
        num / den == u64::MAX,
    ensures
        whole_of_double(num, den) > u64::MAX,
{
    vstd::arithmetic::power2::lemma2_to64();
    vstd::arithmetic::power2::lemma2_to64_rest();
    lemma_highest_bit(u64::MAX as nat, 63);
    let half = 1024int;
    lemma_over_power(num as int, den as int, half);
    let t = 0x3f_ffff_ffff_ffffnat;
    let whole = 2 * num % (den * 2048) == 0;
    assert(pow2(11) == 2048);
    assert(den * (2 * half) == den * 2048);
    lemma_rounded(num, den * 2048, t, whole);
    assert(rounded(num, den * 2048) == 0x20_0000_0000_0000);
    let u = pow2((63 - 52) as nat);
    assert(u == 2048);
    assert(whole_of_double(num, den) == rounded(num, den * u) * u);
}

proof fn lemma_high(n: nat)
    requires
        0x20_0000_0000_0000 <= n,
        n < pow2(highest_bit(n) + 1),
    ensures
        highest_bit(n) > 52,
{
    vstd::arithmetic::power2::lemma2_to64();
    vstd::arithmetic::power2::lemma2_to64_rest();
    let e = highest_bit(n);
    if e <= 52 {
        lemma_pow2_adds(e + 1, (53 - (e + 1)) as nat);
        lemma_pow2_pos((53 - (e + 1)) as nat);
        let a = pow2(e + 1);
        let b = pow2((53 - (e + 1)) as nat);
        assert(a <= a * b) by (nonlinear_arith)
            requires
                b >= 1,
        ;
    }
}

proof fn lemma_low(n: nat)
    requires
        0 < n < 0x20_0000_0000_0000,
        pow2(highest_bit(n)) <= n,
    ensures
        highest_bit(n) <= 52,
{
    vstd::arithmetic::power2::lemma2_to64();
    vstd::arithmetic::power2::lemma2_to64_rest();
    let e = highest_bit(n);
    if e > 52 {
        lemma_pow2_adds(53, (e - 53) as nat);
        lemma_pow2_pos((e - 53) as nat);
        let b = pow2((e - 53) as nat);
        assert(pow2(53) <= pow2(53) * b) by (nonlinear_arith)
            requires
                b >= 1,
        ;
    }
}

proof fn lemma_small_quotient(num: nat, den: nat, n: nat, bits: nat)
    requires
        den > 0,
        n == num / den,
        n == 0 ==> bits == 53,
        n > 0 ==> highest_bit(n) + bits == 52,
    ensures
        2 * (num * pow2(bits)) / den <= u64::MAX,
{
    vstd::arithmetic::power2::lemma2_to64();
    vstd::arithmetic::power2::lemma2_to64_rest();
    let u = pow2(bits) as int;
    lemma_pow2_pos(bits);
    lemma_fundamental_div_mod(num as int, den as int);
    let d = den as int;
    let c = (n + 1) as int;
    assert(num < c * d) by (nonlinear_arith)
        requires
            num == d * n + num % den,
            (num % den) < d,
            c == n + 1,
    ;
    if n > 0 {
        let e = highest_bit(n);
        lemma_bits_of(n);
        lemma_pow2_adds(e + 1, bits);
        assert(c * u <= pow2(e + 1) * u) by (nonlinear_arith)
            requires
                c <= pow2(e + 1),
                u > 0,
        ;
        assert(e + 1 + bits == 53);
    } else {
        assert(c * u == u) by (nonlinear_arith)
            requires
                c == 1,
        ;
    }
    assert(c * u <= pow2(53));
    let top = 2 * (num * u);
    assert(num * u < (c * u) * d) by (nonlinear_arith)
        requires
            num < c * d,
            u > 0,
    ;
    let p53 = pow2(53) as int;
    assert((c * u) * d <= p53 * d) by (nonlinear_arith)
        requires
            c * u <= p53,
            d > 0,
    ;
    assert(top < (2 * p53) * d) by (nonlinear_arith)
        requires
            top == 2 * (num * u),
            num * u < p53 * d,
    ;
    assert(top / d < 2 * p53) by (nonlinear_arith)
        requires
            top < (2 * p53) * d,
            d > 0,
    ;
}

/// A whole number rounded to 53 significant bits.
pub open spec fn double_of(n: nat) -> nat {
    whole_of_double(n, 1)
}

/// Numbers below two to the 53rd have no more bits than that.
pub proof fn law_small_numbers_are_exact(n: nat)
    requires
        n < 0x20_0000_0000_0000,
    ensures
        double_of(n) == n,
{
    vstd::arithmetic::power2::lemma2_to64();
    vstd::arithmetic::power2::lemma2_to64_rest();
    if n > 0 {
        lemma_bits_of(n);
        lemma_low(n);
        let u = pow2((52 - highest_bit(n)) as nat);
        lemma_pow2_pos((52 - highest_bit(n)) as nat);
        assert(rounded(n * u, 1) == n * u);
        assert(n * u / u == n) by (nonlinear_arith)
            requires
                u > 0,
        ;
    }
}

/// A quotient that is a whole number below two to the 53rd is kept as it is.
pub proof fn law_exact_quotients_are_kept(q: nat, den: nat)
    requires
        q < 0x20_0000_0000_0000,
        den > 0,
    ensures
        whole_of_double(q * den, den) == q,
{
    vstd::arithmetic::power2::lemma2_to64();
    vstd::arithmetic::power2::lemma2_to64_rest();
    lemma_fundamental_div_mod_converse((q * den) as int, den as int, q as int, 0);
    if q > 0 {
        lemma_bits_of(q);
        lemma_low(q);
        let u = pow2((52 - highest_bit(q)) as nat);
        lemma_pow2_pos((52 - highest_bit(q)) as nat);
        assert((q * den) * u == (q * u) * den) by (nonlinear_arith);
        lemma_fundamental_div_mod_converse(
            ((q * den) * u) as int,
            den as int,
            (q * u) as int,
            0,
        );
        assert(rounded((q * den) * u, den) == q * u);
        assert(q * u / u == q) by (nonlinear_arith)
            requires
                u > 0,
        ;
    } else {
        let p = pow2(53);
        assert(0 * den == 0);
        assert(0 * p == 0);
        lemma_fundamental_div_mod_converse(0, den as int, 0, 0);
        assert(rounded(0, den) == 0);
    }
}

/// Rounding goes to the nearest whole number: it is off by half of one at most,
/// and where it is off by just that, it goes to the even one.
pub proof fn law_rounding_is_to_the_nearest(n: nat, d: nat)
    requires
        d > 0,
    ensures
        2 * (rounded(n, d) * d) <= 2 * n + d,
        2 * n <= 2 * (rounded(n, d) * d) + d,
        2 * (rounded(n, d) * d) == 2 * n + d || 2 * n == 2 * (rounded(n, d) * d) + d ==> rounded(
            n,
            d,
        ) % 2 == 0,
{
    let q = n / d;
    let r = n % d;
    lemma_fundamental_div_mod(n as int, d as int);
    assert(d * q == q * d) by (nonlinear_arith);
    assert((q + 1) * d == q * d + d) by (nonlinear_arith);
}

/// Rounds a whole number to 53 significant bits.
pub(crate) fn to_double(n: u64) -> (r: u128)
    ensures
        r == double_of(n as nat),
        r <= 0x1_0000_0000_0000_0000,
{
    if n < 0x20_0000_0000_0000 {
        proof {
            law_small_numbers_are_exact(n as nat);
        }
        return n as u128;
    }
    proof {
        lemma_bits_of(n as nat);
        lemma_high(n as nat);
    }
    round_large(n, true, Ghost(n as nat), Ghost(1nat))
}

// ---------------------------------------------------------------- underflow

/// Whether a decimal number is so small that the nearest number in double
/// precision is zero: at most half of the least one, two to the power -1074.
pub open spec fn vanishes(digits: Seq<char>, scale: int) -> bool {
    numerator(digits, scale) * pow2(1075) <= denominator(scale)
}

/// The number that decimal digits spell, the lowest first.
spec fn big_value(v: Seq<u8>) -> nat
    decreases v.len(),
{
    if v.len() == 0 {
        0
    } else {
        big_value(v.drop_last()) + v.last() as nat * pow10((v.len() - 1) as nat)
    }
}

spec fn big_digits(v: Seq<u8>) -> bool {
    forall|i: int| 0 <= i < v.len() ==> (#[trigger] v[i]) < 10
}

proof fn lemma_big_bound(v: Seq<u8>)
    requires
        big_digits(v),
    ensures
        big_value(v) < pow10(v.len()),
    decreases v.len(),
{
    if v.len() > 0 {
        assert(v[v.len() - 1] < 10);
        assert forall|i: int| 0 <= i < v.drop_last().len() implies (#[trigger] v.drop_last()[i]) < 10 by {
            assert(v.drop_last()[i] == v[i]);
        }
        lemma_big_bound(v.drop_last());
        let p = pow10((v.len() - 1) as nat);
        let x = v.last() as nat;
        assert(x * p <= 9 * p) by (nonlinear_arith)
            requires
                x <= 9,
        ;
    }
}

proof fn lemma_big_zero(v: Seq<u8>)
    requires
        forall|i: int| 0 <= i < v.len() ==> (#[trigger] v[i]) == 0,
    ensures
        big_value(v) == 0,
    decreases v.len(),
{
    if v.len() > 0 {
        assert(v[v.len() - 1] == 0);
        lemma_big_zero(v.drop_last());
        let p = pow10((v.len() - 1) as nat);
        assert(0 * p == 0);
    }
}

/// Doubles a number given by its decimal digits.
fn double_digits(v: &Vec<u8>) -> (r: Vec<u8>)
    requires
        big_digits(v@),
    ensures
        big_digits(r@),
        big_value(r@) == 2 * big_value(v@),
        v@.len() <= r@.len() <= v@.len() + 1,
{
    let mut out: Vec<u8> = Vec::new();
    let mut carry: u8 = 0;
    let mut i: usize = 0;
    assert(v@.take(0) =~= Seq::empty());
    assert(0 * pow10(0) == 0);
    while i < v.len()
        invariant
            big_digits(v@),
            i <= v@.len(),
            out@.len() == i,
            big_digits(out@),
            carry <= 1,
            big_value(out@) + carry * pow10(i as nat) == 2 * big_value(v@.take(i as int)),
        decreases v@.len() - i,
    {
        let ghost before = out@;
        let x: u8 = v[i];
        assert(v@[i as int] < 10);
        let t: u8 = 2 * x + carry;
        out.push(t % 10);
        proof {
            let p = pow10(i as nat) as int;
            let low = (t % 10) as int;
            let high = (t / 10) as int;
            assert(out@.drop_last() =~= before);
            assert(v@.take(i + 1).drop_last() =~= v@.take(i as int));
            assert(v@.take(i + 1).last() == x);
            assert(low * p + high * (10 * p) == 2 * (x * p) + carry * p) by (nonlinear_arith)
                requires
                    low + 10 * high == 2 * x + carry,
            ;
            assert(pow10((i + 1) as nat) == 10 * p);
        }
        carry = t / 10;
        i += 1;
    }
    assert(v@.take(i as int) =~= v@);
    if carry > 0 {
        let ghost before = out@;
        out.push(carry);
        assert(out@.drop_last() =~= before);
    } else {
        assert(0 * pow10(i as nat) == 0);
    }
    out
}

/// Whether a number given by its decimal digits is at most ten to the power
/// `count`.
fn at_most_power(v: &Vec<u8>, count: u128) -> (r: bool)
    requires
        big_digits(v@),
    ensures
        r == (big_value(v@) <= pow10(count as nat)),
{
    let mut n: usize = v.len();
    assert(v@.take(n as int) =~= v@);
    while n > 0 && v[n - 1] == 0
        invariant
            n <= v@.len(),
            big_value(v@.take(n as int)) == big_value(v@),
        decreases n,
    {
        proof {
            assert(v@.take(n as int).drop_last() =~= v@.take(n - 1));
            assert(0 * pow10((n - 1) as nat) == 0);
        }
        n -= 1;
    }
    let ghost top = v@.take(n as int);
    proof {
        assert forall|i: int| 0 <= i < top.len() implies (#[trigger] top[i]) < 10 by {
            assert(top[i] == v@[i]);
        }
        lemma_big_bound(top);
    }
    if n as u128 <= count {
        proof {
            lemma_pow10_monotonic(n as nat, count as nat);
        }
        return true;
    }
    let ghost p = pow10((n - 1) as nat);
    let ghost front = top.drop_last();
    proof {
        let x = top.last() as nat;
        assert(x == v@[n - 1]);
        assert(x >= 1);
        assert(x * p >= p) by (nonlinear_arith)
            requires
                x >= 1,
        ;
    }
    if n as u128 - 1 > count {
        proof {
            lemma_pow10_monotonic((count + 1) as nat, (n - 1) as nat);
            lemma_pow10_pos(count as nat);
        }
        return false;
    }
    if v[n - 1] != 1 {
        proof {
            let x = top.last() as nat;
            assert(x >= 2);
            assert(x * p >= 2 * p) by (nonlinear_arith)
                requires
                    x >= 2,
            ;
            lemma_pow10_pos((n - 1) as nat);
        }
        return false;
    }
    let mut i: usize = 0;
    while i < n - 1
        invariant
            1 <= n <= v@.len(),
            i <= n - 1,
            forall|j: int| 0 <= j < i ==> (#[trigger] v@[j]) == 0,
            p == pow10((n - 1) as nat),
            count == n - 1,
            front == v@.take(n - 1),
            big_value(v@) == big_value(front) + 1 * p,
        decreases n - 1 - i,
    {
        if v[i] != 0 {
            proof {
                lemma_big_positive(front, i as int);
            }
            return false;
        }
        i += 1;
    }
    proof {
        assert forall|j: int| 0 <= j < front.len() implies (#[trigger] front[j]) == 0 by {
            assert(front[j] == v@[j]);
        }
        lemma_big_zero(front);
    }
    true
}

proof fn lemma_big_positive(v: Seq<u8>, i: int)
    requires
        0 <= i < v.len(),
        v[i] > 0,
    ensures
        big_value(v) > 0,
    decreases v.len(),
{
    let p = pow10((v.len() - 1) as nat);
    lemma_pow10_pos((v.len() - 1) as nat);
    if i == v.len() - 1 {
        let x = v.last() as nat;
        assert(x * p >= 1) by (nonlinear_arith)
            requires
                x >= 1,
                p >= 1,
        ;
    } else {
        lemma_big_positive(v.drop_last(), i);
    }
}

proof fn lemma_pow10_monotonic(a: nat, b: nat)
    requires
        a <= b,
    ensures
        pow10(a) <= pow10(b),
        a < b ==> pow10(a) < pow10(b),
    decreases b,
{
    if a < b {
        lemma_pow10_monotonic(a, (b - 1) as nat);
        lemma_pow10_pos((b - 1) as nat);
    }
}

/// The digits of a number, the lowest first.
fn low_first(digits: &[char]) -> (r: Vec<u8>)
    requires
        all_digits(digits@),
    ensures
        big_digits(r@),
        r@.len() == digits@.len(),
        big_value(r@) == number_of(digits@),
{
    let mut out: Vec<u8> = Vec::new();
    let mut i: usize = digits.len();
    assert(digits@.skip(digits@.len() as int) =~= Seq::empty());
    while i > 0
        invariant
            all_digits(digits@),
            i <= digits@.len(),
            out@.len() == digits@.len() - i,
            big_digits(out@),
            big_value(out@) == number_of(digits@.skip(i as int)),
        decreases i,
    {
        let c: char = digits[i - 1];
        let ghost before = out@;
        proof {
            assert(is_digit(digits@[i - 1]));
            let tail = digits@.skip(i as int);
            assert(digits@.skip(i - 1) =~= seq![c] + tail);
            lemma_number_concat(seq![c], tail);
            assert(seq![c].drop_last() =~= Seq::<char>::empty());
            reveal_with_fuel(number_of, 2);
            assert(number_of(seq![c]) == digit_value(c));
        }
        out.push((c as u32 - 48) as u8);
        assert(out@.drop_last() =~= before);
        i -= 1;
    }
    assert(digits@.skip(0) =~= digits@);
    out
}

/// Whether a decimal number vanishes in double precision.
pub(crate) fn does_vanish(digits: &[char], scale: &Scale, exact: Ghost<int>) -> (r: bool)
    requires
        all_digits(digits@),
        scale.stands_for(exact@),
        digits@.len() < far(),
    ensures
        r == vanishes(digits@, exact@),
{
    let ghost d = number_of(digits@);
    let mut v: Vec<u8> = low_first(digits);
    let mut i: u32 = 0;
    proof {
        vstd::arithmetic::power2::lemma2_to64();
        assert(d * 1 == d);
    }
    while i < 1075
        invariant
            i <= 1075,
            big_digits(v@),
            d == number_of(digits@),
            big_value(v@) == d * pow2(i as nat),
            digits@.len() <= v@.len() <= digits@.len() + i,
        decreases 1075 - i,
    {
        v = double_digits(&v);
        proof {
            lemma_pow2_unfold((i + 1) as nat);
            let q = pow2(i as nat);
            assert(d * (2 * q) == 2 * (d * q)) by (nonlinear_arith);
        }
        i += 1;
    }
    let ghost value = d * pow2(1075);
    proof {
        lemma_big_bound(v@);
        lemma_pow2_unfold(1075);
        lemma_pow2_pos(1074);
        let q = pow2(1075) as int;
        if d >= 1 {
            assert(d * q >= q) by (nonlinear_arith)
                requires
                    d >= 1,
                    q > 0,
            ;
        } else {
            assert(0 * q == 0);
        }
    }
    if scale.behind_point {
        proof {
            if scale.count != exact@ {
                lemma_pow10_monotonic(v@.len(), scale.count as nat);
                lemma_pow10_monotonic(v@.len(), exact@ as nat);
            }
        }
        at_most_power(&v, scale.count)
    } else {
        proof {
            let z = pow10((-exact@) as nat) as int;
            let q = pow2(1075) as int;
            lemma_pow10_pos((-exact@) as nat);
            if d >= 1 {
                assert(d * z >= d) by (nonlinear_arith)
                    requires
                        d >= 1,
                        z >= 1,
                ;
                assert((d * z) * q >= q) by (nonlinear_arith)
                    requires
                        d * z >= 1,
                        q > 0,
                ;
            } else {
                assert(0 * z == 0);
                assert(0 * q == 0);
            }
        }
        at_most_power(&v, 0)
    }
}

} // verus!
