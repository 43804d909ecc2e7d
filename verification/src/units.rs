//! Sizes, rates and durations as text.

use vstd::prelude::*;
use vstd::string::*;

use crate::double::{
    double_of, law_rounding_is_to_the_nearest, law_small_numbers_are_exact, rounded, to_double,
};
use crate::text::{decimal, digit, push_decimal, push_decimal2};

verus! {

/// A number of hundredths with two decimal places.
pub open spec fn two_places(hundredths: nat) -> Seq<char> {
    decimal(hundredths / 100) + seq![
        '.',
        digit(hundredths % 100 / 10),
        digit(hundredths % 100 % 10),
    ]
}

/// `n`, in double precision, in units of `unit`, with two decimal places.
pub open spec fn in_units(n: nat, unit: nat) -> Seq<char> {
    two_places(rounded(100 * double_of(n), unit))
}

/// Appends `n` in units of `unit`, with two decimal places.
pub fn push_in_units(s: &mut String, n: u64, unit: u64)
    requires
        unit >= 1024,
    ensures
        final(s)@ == old(s)@ + in_units(n as nat, unit as nat),
{
    let num: u128 = 100 * to_double(n);
    let den: u128 = unit as u128;
    let q: u128 = num / den;
    let r: u128 = num % den;
    proof {
        assert(q < 0xffff_ffff_ffff_ffff) by (nonlinear_arith)
            requires
                num <= 100 * 0x1_0000_0000_0000_0000,
                den >= 1024,
                q == num / den,
        ;
    }
    let mut h: u64 = q as u64;
    if 2 * r > den || (2 * r == den && h % 2 == 1) {
        h = h + 1;
    }
    assert(h as nat == rounded(100 * double_of(n as nat), unit as nat));
    push_decimal(s, h / 100);
    s.push('.');
    push_decimal2(s, h % 100);
    assert(s@ =~= old(s)@ + in_units(n as nat, unit as nat));
}

/// The largest unit, of those from bytes to terabytes, of which there is at
/// least one.
pub open spec fn size_unit(bytes: nat) -> (nat, Seq<char>) {
    if bytes < 1024 {
        (1, " B"@)
    } else if bytes < 1024 * 1024 {
        (1024, " KB"@)
    } else if bytes < 1024 * 1024 * 1024 {
        (1024 * 1024, " MB"@)
    } else if bytes < 1024 * 1024 * 1024 * 1024 {
        (1024 * 1024 * 1024, " GB"@)
    } else {
        (1024 * 1024 * 1024 * 1024, " TB"@)
    }
}

/// A size as it is shown.
pub open spec fn size_text(bytes: nat) -> Seq<char> {
    if bytes == 0 {
        "0 B"@
    } else {
        let (unit, name) = size_unit(bytes);
        in_units(bytes, unit) + name
    }
}

/// A size in its largest unit, with two decimal places.
pub fn format_bytes(bytes: u64) -> (r: String)
    ensures
        r@ == size_text(bytes as nat),
{
    if bytes == 0 {
        return "0 B".to_owned();
    }
    let mut s = String::new();
    if bytes < 1024 {
        push_decimal(&mut s, bytes);
        s.append(".00 B");
        proof {
            reveal_strlit(".00 B");
            reveal_strlit(" B");
            let n = bytes as nat;
            law_small_numbers_are_exact(n);
            assert(100 * n / 1 == 100 * n && 100 * n % 1 == 0);
            assert(rounded(100 * n, 1) == 100 * n);
            assert(100 * n / 100 == n && 100 * n % 100 == 0);
            assert(s@ =~= in_units(n, 1) + " B"@);
        }
    } else if bytes < 1024 * 1024 {
        push_in_units(&mut s, bytes, 1024);
        s.append(" KB");
        assert(s@ =~= size_text(bytes as nat));
    } else if bytes < 1024 * 1024 * 1024 {
        push_in_units(&mut s, bytes, 1024 * 1024);
        s.append(" MB");
        assert(s@ =~= size_text(bytes as nat));
    } else if bytes < 1024 * 1024 * 1024 * 1024 {
        push_in_units(&mut s, bytes, 1024 * 1024 * 1024);
        s.append(" GB");
        assert(s@ =~= size_text(bytes as nat));
    } else {
        push_in_units(&mut s, bytes, 1024 * 1024 * 1024 * 1024);
        s.append(" TB");
        assert(s@ =~= size_text(bytes as nat));
    }
    s
}

/// A duration as it is shown.
pub open spec fn duration_text(secs: nat) -> Seq<char> {
    if secs < 60 {
        decimal(secs) + "s"@
    } else if secs < 3600 {
        decimal(secs / 60) + "m "@ + decimal(secs % 60) + "s"@
    } else {
        decimal(secs / 3600) + "h "@ + decimal(secs % 3600 / 60) + "m "@ + decimal(secs % 60)
            + "s"@
    }
}

/// A duration in hours, minutes and seconds.
pub fn format_duration(secs: u64) -> (r: String)
    ensures
        r@ == duration_text(secs as nat),
{
    let mut s = String::new();
    if secs >= 3600 {
        push_decimal(&mut s, secs / 3600);
        s.append("h ");
        push_decimal(&mut s, secs % 3600 / 60);
        s.append("m ");
    } else if secs >= 60 {
        push_decimal(&mut s, secs / 60);
        s.append("m ");
    }
    push_decimal(&mut s, secs % 60);
    s.append("s");
    assert(s@ =~= duration_text(secs as nat));
    s
}

/// A rate as it is shown.
pub open spec fn bandwidth_text(bytes_per_sec: nat) -> Seq<char> {
    if bytes_per_sec == 0 {
        "unlimited"@
    } else if bytes_per_sec >= 1024 * 1024 * 1024 {
        in_units(bytes_per_sec, 1024 * 1024 * 1024) + " GB/s"@
    } else if bytes_per_sec >= 1024 * 1024 {
        in_units(bytes_per_sec, 1024 * 1024) + " MB/s"@
    } else if bytes_per_sec >= 1024 {
        in_units(bytes_per_sec, 1024) + " KB/s"@
    } else {
        decimal(bytes_per_sec) + " B/s"@
    }
}

/// A rate in its largest unit, with two decimal places; 0 stands for no limit.
pub fn format_bandwidth(bytes_per_sec: u64) -> (r: String)
    ensures
        r@ == bandwidth_text(bytes_per_sec as nat),
{
    if bytes_per_sec == 0 {
        return "unlimited".to_owned();
    }
    let mut s = String::new();
    if bytes_per_sec >= 1024 * 1024 * 1024 {
        push_in_units(&mut s, bytes_per_sec, 1024 * 1024 * 1024);
        s.append(" GB/s");
    } else if bytes_per_sec >= 1024 * 1024 {
        push_in_units(&mut s, bytes_per_sec, 1024 * 1024);
        s.append(" MB/s");
    } else if bytes_per_sec >= 1024 {
        push_in_units(&mut s, bytes_per_sec, 1024);
        s.append(" KB/s");
    } else {
        push_decimal(&mut s, bytes_per_sec);
        s.append(" B/s");
    }
    assert(s@ =~= bandwidth_text(bytes_per_sec as nat));
    s
}

/// A duration says how many hours, minutes and seconds it has: fewer than sixty
/// seconds and, beside hours, fewer than sixty minutes; hours, and minutes
/// without hours, are left out where there are none.
pub proof fn law_duration_adds_up(hours: nat, minutes: nat, seconds: nat)
    requires
        minutes < 60,
        seconds < 60,
    ensures
        hours > 0 ==> duration_text(hours * 3600 + minutes * 60 + seconds) == decimal(hours) + "h "@
            + decimal(minutes) + "m "@ + decimal(seconds) + "s"@,
        minutes > 0 ==> duration_text(minutes * 60 + seconds) == decimal(minutes) + "m "@ + decimal(
            seconds,
        ) + "s"@,
        duration_text(seconds) == decimal(seconds) + "s"@,
{
    lemma_clock(hours, minutes, seconds);
    lemma_clock(0, minutes, seconds);
}

proof fn lemma_clock(h: nat, m: nat, s: nat)
    requires
        m < 60,
        s < 60,
    ensures
        (h * 3600 + m * 60 + s) / 3600 == h,
        (h * 3600 + m * 60 + s) % 3600 / 60 == m,
        (h * 3600 + m * 60 + s) / 60 == 60 * h + m,
        (h * 3600 + m * 60 + s) % 60 == s,
{
}

/// Two places behind the point are tenths and hundredths.
pub proof fn law_two_places(whole: nat, tenths: nat, hundredths: nat)
    requires
        tenths < 10,
        hundredths < 10,
    ensures
        two_places(100 * whole + 10 * tenths + hundredths) == decimal(whole) + seq!['.'] + decimal(
            tenths,
        ) + decimal(hundredths),
{
    let h = 100 * whole + 10 * tenths + hundredths;
    assert(h % 100 == 10 * tenths + hundredths);
    assert(two_places(h) =~= decimal(whole) + seq!['.'] + decimal(tenths) + decimal(hundredths));
}

/// What a size of at least 1024 to the power `k` and less than 1024 times that
/// is counted in: its name, where there are names for it.
pub open spec fn unit_name(k: nat) -> Seq<char> {
    if k == 0 {
        " B"@
    } else if k == 1 {
        " KB"@
    } else if k == 2 {
        " MB"@
    } else if k == 3 {
        " GB"@
    } else {
        " TB"@
    }
}

/// 1024 to the power `k`.
pub open spec fn pow1024(k: nat) -> nat
    decreases k,
{
    if k == 0 {
        1
    } else {
        1024 * pow1024((k - 1) as nat)
    }
}

/// A size below two to the 53rd is shown in the largest unit of which there is
/// at least one, each 1024 times the one before, to the nearest hundredth of it.
pub proof fn law_sizes_are_shown_in_the_largest_unit(bytes: nat, k: nat)
    requires
        0 < bytes < 0x20_0000_0000_0000,
        k <= 4,
        pow1024(k) <= bytes,
        k < 4 ==> bytes < pow1024(k + 1),
    ensures
        exists|hundredths: nat|
            size_text(bytes) == #[trigger] two_places(hundredths) + unit_name(k) && 2 * hundredths
                * pow1024(k) <= 200 * bytes + pow1024(k) && 200 * bytes <= 2 * hundredths * pow1024(
                k,
            ) + pow1024(k),
        0 < k < 4 ==> exists|hundredths: nat|
            bandwidth_text(bytes) == #[trigger] two_places(hundredths) + unit_name(k) + "/s"@ && 2
                * hundredths * pow1024(k) <= 200 * bytes + pow1024(k) && 200 * bytes <= 2
                * hundredths * pow1024(k) + pow1024(k),
        k == 0 ==> bandwidth_text(bytes) == decimal(bytes) + " B/s"@,
{
    reveal_with_fuel(pow1024, 6);
    law_small_numbers_are_exact(bytes);
    let unit = pow1024(k);
    let h = rounded(100 * bytes, unit);
    law_rounding_is_to_the_nearest(100 * bytes, unit);
    assert(2 * (h * unit) == 2 * h * unit) by (nonlinear_arith);
    assert(size_text(bytes) == two_places(h) + unit_name(k));
    reveal_strlit(" KB");
    reveal_strlit(" MB");
    reveal_strlit(" GB");
    reveal_strlit(" KB/s");
    reveal_strlit(" MB/s");
    reveal_strlit(" GB/s");
    reveal_strlit("/s");
    if 0 < k < 4 {
        assert(bandwidth_text(bytes) =~= two_places(h) + unit_name(k) + "/s"@);
    }
}

} // verus!
