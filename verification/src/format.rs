use vstd::prelude::*;
use crate::text::{decimal, push_decimal, digit_char};

verus! {

/// `n / d` rounded to the nearest integer, halves going to the even neighbour.
pub open spec fn round_half_even(n: nat, d: nat) -> nat
    recommends
        d > 0,
{
    let q = n / d;
    let r = n % d;
    if 2 * r > d || (2 * r == d && q % 2 == 1) {
        q + 1
    } else {
        q
    }
}

/// The spacing of the `f64` values around `b`: 1 below 2^53, doubling with
/// every further bit of `b`.
pub open spec fn f64_spacing(b: nat) -> nat
    decreases b,
{
    if b < 0x20_0000_0000_0000 {
        1
    } else {
        2 * f64_spacing(b / 2)
    }
}

/// The exact value of `b as f64`: `b` rounded to the nearest `f64`, ties to even.
pub open spec fn f64_of_u64(b: nat) -> nat {
    round_half_even(b, f64_spacing(b)) * f64_spacing(b)
}

/// `n` in decimal, left-padded with zeros to `width` characters.
pub open spec fn zero_padded(n: nat, width: nat) -> Seq<char> {
    let d = decimal(n);
    if d.len() >= width {
        d
    } else {
        Seq::new((width - d.len()) as nat, |i: int| '0') + d
    }
}

/// `10^k`.
pub open spec fn pow10(k: nat) -> nat
    decreases k,
{
    if k == 0 {
        1
    } else {
        10 * pow10((k - 1) as nat)
    }
}

/// The quotient `num / den` written with `places` digits after the point,
/// rounded to the nearest such number, halves going to the even last digit.
pub open spec fn fixed_point(num: nat, den: nat, places: nat) -> Seq<char> {
    let n = round_half_even(num * pow10(places), den);
    decimal(n / pow10(places)) + seq!['.'] + zero_padded(n % pow10(places), places)
}

pub open spec fn unit_suffix(unit: Seq<char>) -> Seq<char> {
    seq![' '] + unit
}

/// The text that `format_bytes` gives for `bytes`: B below 1024, then KB and MB
/// with one decimal place, GB and TB with two (units of 1024).
pub open spec fn bytes_text(bytes: nat) -> Seq<char> {
    if bytes >= 0x100_0000_0000 {
        fixed_point(f64_of_u64(bytes), 0x100_0000_0000, 2) + unit_suffix(seq!['T', 'B'])
    } else if bytes >= 0x4000_0000 {
        fixed_point(bytes, 0x4000_0000, 2) + unit_suffix(seq!['G', 'B'])
    } else if bytes >= 0x10_0000 {
        fixed_point(bytes, 0x10_0000, 1) + unit_suffix(seq!['M', 'B'])
    } else if bytes >= 0x400 {
        fixed_point(bytes, 0x400, 1) + unit_suffix(seq!['K', 'B'])
    } else {
        decimal(bytes) + unit_suffix(seq!['B'])
    }
}

/// The text that `format_rate` gives: the size text followed by "/s".
pub open spec fn rate_text(bytes_per_sec: nat) -> Seq<char> {
    bytes_text(bytes_per_sec) + seq!['/', 's']
}

/// Whole days of a span of `s` seconds.
pub open spec fn duration_days(s: nat) -> nat {
    s / 86400
}

/// Hours left over after the whole days.
pub open spec fn duration_hours(s: nat) -> nat {
    (s % 86400) / 3600
}

/// Minutes left over after the whole hours.
pub open spec fn duration_minutes(s: nat) -> nat {
    (s % 3600) / 60
}

/// Seconds left over after the whole minutes.
pub open spec fn duration_seconds(s: nat) -> nat {
    s % 60
}

/// The text that `format_duration` gives: the two or three largest non-zero
/// units among days, hours, minutes and seconds, as in "2d 3h 4m",
/// "3h 4m 5s", "4m 5s" or "5s".
pub open spec fn duration_text(s: nat) -> Seq<char> {
    let d = duration_days(s);
    let h = duration_hours(s);
    let m = duration_minutes(s);
    let sec = duration_seconds(s);
    if d > 0 {
        decimal(d) + seq!['d', ' '] + decimal(h) + seq!['h', ' '] + decimal(m) + seq!['m']
    } else if h > 0 {
        decimal(h) + seq!['h', ' '] + decimal(m) + seq!['m', ' '] + decimal(sec) + seq!['s']
    } else if m > 0 {
        decimal(m) + seq!['m', ' '] + decimal(sec) + seq!['s']
    } else {
        decimal(sec) + seq!['s']
    }
}

fn round_half_even_exec(n: u128, d: u128) -> (q: u128)
    requires
        d > 0,
        d <= 0x1_0000_0000_0000_0000,
        n <= 0x1_0000_0000_0000_0000_0000,
    ensures
        q == round_half_even(n as nat, d as nat),
{
    let q = n / d;
    let r = n % d;
    if 2 * r > d || (2 * r == d && q % 2 == 1) {
        q + 1
    } else {
        q
    }
}

/// The exact value of `b as f64`, computed on integers.
fn f64_value_of(b: u64) -> (v: u128)
    ensures
        v == f64_of_u64(b as nat),
        v <= 0x1_0000_0000_0000_1000,
{
    let mut m: u64 = b;
    let mut spacing: u128 = 1;
    while m >= 0x20_0000_0000_0000
        invariant
            1 <= spacing < 0x1000,
            m as nat == (b as nat) / (spacing as nat),
            f64_spacing(b as nat) == spacing * f64_spacing(m as nat),
        decreases m,
    {
        proof {
            vstd::arithmetic::div_mod::lemma_div_denominator(b as int, spacing as int, 2);
            vstd::arithmetic::div_mod::lemma_fundamental_div_mod(b as int, spacing as int);
            assert(spacing < 0x800) by (nonlinear_arith)
                requires
                    m >= 0x20_0000_0000_0000,
                    b >= spacing * m,
                    b < 0x1_0000_0000_0000_0000,
                    spacing >= 1,
            ;
            let fm = f64_spacing((m / 2) as nat);
            assert(f64_spacing(m as nat) == 2 * fm);
            assert(spacing * (2 * fm) == (2 * spacing) * fm) by (nonlinear_arith);
        }
        m = m / 2;
        spacing = spacing * 2;
    }
    assert(f64_spacing(m as nat) == 1);
    assert(f64_spacing(b as nat) == spacing) by (nonlinear_arith)
        requires
            f64_spacing(b as nat) == spacing * f64_spacing(m as nat),
            f64_spacing(m as nat) == 1,
    ;
    let q = round_half_even_exec(b as u128, spacing);
    assert(q <= (b as nat) / (spacing as nat) + 1);
    proof {
        vstd::arithmetic::div_mod::lemma_fundamental_div_mod(b as int, spacing as int);
    }
    assert(q * spacing <= 0x1_0000_0000_0000_1000) by (nonlinear_arith)
        requires
            q <= (b as nat) / (spacing as nat) + 1,
            spacing * ((b as nat) / (spacing as nat)) <= b,
            b < 0x1_0000_0000_0000_0000,
            1 <= spacing < 0x1000,
    ;
    q * spacing
}

proof fn lemma_decimal_short(n: nat)
    ensures
        n < 10 ==> decimal(n).len() == 1,
        10 <= n < 100 ==> decimal(n).len() == 2,
{
    if 10 <= n < 100 {
        assert(decimal(n) == decimal(n / 10).push(digit_char(n % 10)));
        assert(decimal(n / 10).len() == 1);
    }
}

/// Appends `fixed_point(num, den, places)` for one or two places.
fn push_fixed_point(s: &mut String, num: u128, den: u128, places: u8)
    requires
        1 <= places <= 2,
        0 < den <= 0x1_0000_0000_0000_0000,
        num <= 0x2_0000_0000_0000_0000,
    ensures
        final(s)@ == old(s)@ + fixed_point(num as nat, den as nat, places as nat),
{
    let scale: u128 = if places == 1 { 10 } else { 100 };
    assert(pow10(places as nat) == scale) by {
        reveal_with_fuel(pow10, 3);
    }
    let n = round_half_even_exec(num * scale, den);
    let whole = n / scale;
    let frac = n % scale;
    let ghost before = s@;
    push_decimal(s, whole);
    proof {
        reveal_strlit(".");
        reveal_strlit("0");
    }
    s.append(".");
    let ghost mid = s@;
    proof {
        lemma_decimal_short(frac as nat);
    }
    if places == 2 && frac < 10 {
        s.append("0");
        push_decimal(s, frac);
        assert(zero_padded(frac as nat, places as nat) =~= seq!['0'] + decimal(frac as nat));
    } else {
        push_decimal(s, frac);
        assert(zero_padded(frac as nat, places as nat) == decimal(frac as nat));
    }
    assert(s@ =~= before + fixed_point(num as nat, den as nat, places as nat));
}

/// Writes a byte count the way the process table and the disk and network
/// panels show it: "512 B", "1.5 KB", "10.0 MB", "1.25 GB", "2.00 TB".
pub fn format_bytes(bytes: u64) -> (text: String)
    ensures
        text@ == bytes_text(bytes as nat),
{
    let mut s = String::new();
    proof {
        reveal_strlit(" TB");
        reveal_strlit(" GB");
        reveal_strlit(" MB");
        reveal_strlit(" KB");
        reveal_strlit(" B");
    }
    if bytes >= 0x100_0000_0000 {
        let v = f64_value_of(bytes);
        push_fixed_point(&mut s, v, 0x100_0000_0000, 2);
        s.append(" TB");
    } else if bytes >= 0x4000_0000 {
        push_fixed_point(&mut s, bytes as u128, 0x4000_0000, 2);
        s.append(" GB");
    } else if bytes >= 0x10_0000 {
        push_fixed_point(&mut s, bytes as u128, 0x10_0000, 1);
        s.append(" MB");
    } else if bytes >= 0x400 {
        push_fixed_point(&mut s, bytes as u128, 0x400, 1);
        s.append(" KB");
    } else {
        push_decimal(&mut s, bytes as u128);
        s.append(" B");
    }
    assert(s@ =~= bytes_text(bytes as nat));
    s
}

/// Writes a transfer rate: the size text of `bytes_per_sec` followed by "/s".
pub fn format_rate(bytes_per_sec: u64) -> (text: String)
    ensures
        text@ == rate_text(bytes_per_sec as nat),
{
    let mut s = format_bytes(bytes_per_sec);
    proof {
        reveal_strlit("/s");
    }
    s.append("/s");
    s
}

/// Writes a span of seconds as its two or three largest units, as in
/// "1d 2h 3m", "2h 3m 4s", "3m 4s" or "4s".
pub fn format_duration(seconds: u64) -> (text: String)
    ensures
        text@ == duration_text(seconds as nat),
{
    let days = seconds / 86400;
    let hours = (seconds % 86400) / 3600;
    let mins = (seconds % 3600) / 60;
    let secs = seconds % 60;
    let mut s = String::new();
    proof {
        reveal_strlit("d ");
        reveal_strlit("h ");
        reveal_strlit("m ");
        reveal_strlit("m");
        reveal_strlit("s");
    }
    if days > 0 {
        push_decimal(&mut s, days as u128);
        s.append("d ");
        push_decimal(&mut s, hours as u128);
        s.append("h ");
        push_decimal(&mut s, mins as u128);
        s.append("m");
    } else if hours > 0 {
        push_decimal(&mut s, hours as u128);
        s.append("h ");
        push_decimal(&mut s, mins as u128);
        s.append("m ");
        push_decimal(&mut s, secs as u128);
        s.append("s");
    } else if mins > 0 {
        push_decimal(&mut s, mins as u128);
        s.append("m ");
        push_decimal(&mut s, secs as u128);
        s.append("s");
    } else {
        push_decimal(&mut s, secs as u128);
        s.append("s");
    }
    assert(s@ =~= duration_text(seconds as nat));
    s
}

/// The units that `format_duration` shows split the span exactly: the days,
/// hours, minutes and seconds add back up to it, and each unit below days is
/// smaller than the next one up.
pub proof fn lemma_duration_parts(s: nat)
    ensures
        duration_days(s) * 86400 + duration_hours(s) * 3600 + duration_minutes(s) * 60
            + duration_seconds(s) == s,
        duration_hours(s) < 24,
        duration_minutes(s) < 60,
        duration_seconds(s) < 60,
{
    vstd::arithmetic::div_mod::lemma_fundamental_div_mod(s as int, 86400);
    vstd::arithmetic::div_mod::lemma_fundamental_div_mod((s % 86400) as int, 3600);
    vstd::arithmetic::div_mod::lemma_fundamental_div_mod((s % 3600) as int, 60);
    vstd::arithmetic::div_mod::lemma_mod_mod(s as int, 3600, 24);
    vstd::arithmetic::div_mod::lemma_mod_mod(s as int, 60, 60);
    let r = s % 86400;
    assert(r % 3600 == s % 3600);
    assert((s % 3600) % 60 == s % 60);
}

} // verus!
