//! Display text for sizes, durations and numbers.

use vstd::prelude::*;
use vstd::string::*;
use formato::Formato;

verus! {

pub open spec fn digit_char(d: int) -> char {
    if d == 0 { '0' } else if d == 1 { '1' } else if d == 2 { '2' } else if d == 3 { '3' }
    else if d == 4 { '4' } else if d == 5 { '5' } else if d == 6 { '6' } else if d == 7 { '7' }
    else if d == 8 { '8' } else { '9' }
}

/// Decimal digits of `n`, without leading zeros ("0" for zero).
pub open spec fn dec(n: nat) -> Seq<char>
    decreases n,
{
    if n < 10 {
        seq![digit_char(n as int)]
    } else {
        dec(n / 10).push(digit_char((n % 10) as int))
    }
}

fn digit_str(d: u64) -> (r: &'static str)
    requires
        d < 10,
    ensures
        r@ == seq![digit_char(d as int)],
{
    proof {
        reveal_strlit("0");
        reveal_strlit("1");
        reveal_strlit("2");
        reveal_strlit("3");
        reveal_strlit("4");
        reveal_strlit("5");
        reveal_strlit("6");
        reveal_strlit("7");
        reveal_strlit("8");
        reveal_strlit("9");
    }
    if d == 0 { "0" } else if d == 1 { "1" } else if d == 2 { "2" } else if d == 3 { "3" }
    else if d == 4 { "4" } else if d == 5 { "5" } else if d == 6 { "6" } else if d == 7 { "7" }
    else if d == 8 { "8" } else { "9" }
}

/// Decimal representation of `n`.
pub fn decimal(n: u64) -> (r: String)
    ensures
        r@ == dec(n as nat),
    decreases n,
{
    if n < 10 {
        String::from_str(digit_str(n))
    } else {
        let mut s = decimal(n / 10);
        s.append(digit_str(n % 10));
        s
    }
}


/// Three decimal digits of `m`, zero-padded.
pub open spec fn dec3(m: nat) -> Seq<char> {
    seq![digit_char((m / 100) as int), digit_char((m / 10 % 10) as int), digit_char((m % 10) as int)]
}

/// Decimal digits of `n` with a comma before every group of three.
pub open spec fn grouped(n: nat) -> Seq<char>
    decreases n,
{
    if n < 1000 {
        dec(n)
    } else {
        grouped(n / 1000) + seq![','] + dec3(n % 1000)
    }
}

/// Relies on formato's `Formato::formato` for `u64` with the pattern "#,###":
/// the decimal digits with a thousands separator `,` between groups of three.
#[verifier::external_body]
fn group_thousands(n: u64) -> (r: String)
    ensures
        r@ == grouped(n as nat),
{
    n.formato("#,###")
}

/// `val / unit` in tenths, rounded half up.
pub open spec fn tenths_half_up(val: nat, unit: nat) -> nat {
    (val * 10 + unit / 2) / unit
}

/// `val / unit` in tenths, rounded half to even.
pub open spec fn tenths_half_even(val: nat, unit: nat) -> nat {
    let q = val * 10 / unit;
    let r = val * 10 % unit;
    if r * 2 > unit || (r * 2 == unit && q % 2 == 1) {
        q + 1
    } else {
        q
    }
}

/// A number of tenths written with one decimal.
pub open spec fn fixed1(t: nat, thousands: bool) -> Seq<char> {
    (if thousands {
        grouped(t / 10)
    } else {
        dec(t / 10)
    }) + seq!['.'] + dec(t % 10)
}

pub open spec fn nice_size_text(val: nat, thousands: bool) -> Seq<char> {
    if val == 0 {
        seq![]
    } else if val < 5000 {
        dec(val) + seq!['B']
    } else if val < 500 * 1024 {
        fixed1(tenths_half_up(val, 1024), thousands) + seq!['K']
    } else if val < 50000 * 1024 * 1024 {
        fixed1(tenths_half_up(val, 1048576), thousands) + seq!['M']
    } else {
        fixed1(tenths_half_up(val, 1073741824), thousands) + seq!['G']
    }
}

const KIB: u64 = 1024;
const MIB: u64 = 1048576;
const GIB: u64 = 1073741824;

fn tenths_up(val: u64, unit: u64) -> (t: u64)
    requires
        unit >= 1024,
    ensures
        t == tenths_half_up(val as nat, unit as nat),
{
    let x: u128 = (val as u128) * 10 + (unit as u128) / 2;
    proof {
        vstd::arithmetic::div_mod::lemma_div_is_ordered_by_denominator(x as int, 1024, unit as int);
        vstd::arithmetic::div_mod::lemma_div_is_ordered(x as int, (184467440737095516160 + 9223372036854775808) as int, 1024);
    }
    (x / (unit as u128)) as u64
}

fn tenths_even(val: u64, unit: u64) -> (t: u64)
    requires
        unit >= 1024,
    ensures
        t == tenths_half_even(val as nat, unit as nat),
{
    let x: u128 = (val as u128) * 10;
    let u = unit as u128;
    proof {
        vstd::arithmetic::div_mod::lemma_div_is_ordered_by_denominator(x as int, 1024, unit as int);
        vstd::arithmetic::div_mod::lemma_div_is_ordered(x as int, 184467440737095516160int, 1024);
        vstd::arithmetic::div_mod::lemma_mod_bound(x as int, unit as int);
    }
    let q = x / u;
    let r = x % u;
    if r * 2 > u || (r * 2 == u && q % 2 == 1) {
        (q + 1) as u64
    } else {
        q as u64
    }
}

fn write_fixed1(t: u64, thousands: bool) -> (r: String)
    ensures
        r@ == fixed1(t as nat, thousands),
{
    let mut s = if thousands {
        group_thousands(t / 10)
    } else {
        decimal(t / 10)
    };
    proof {
        reveal_strlit(".");
    }
    s.append(".");
    s.append(digit_str(t % 10));
    s
}

fn with_unit(mut s: String, unit: &str) -> (r: String)
    ensures
        r@ == s@ + unit@,
{
    s.append(unit);
    s
}

/// A memory size for display: bytes below 5000, else K, M or G with one decimal.
pub fn nice_size(val: u64) -> (r: String)
    ensures
        r@ == nice_size_text(val as nat, false),
{
    nice_size_ops(val, false)
}

/// As `nice_size`, with thousands separators.
pub fn nice_size_thousands(val: u64) -> (r: String)
    ensures
        r@ == nice_size_text(val as nat, true),
{
    nice_size_ops(val, true)
}

fn nice_size_ops(val: u64, include_thousands: bool) -> (r: String)
    ensures
        r@ == nice_size_text(val as nat, include_thousands),
{
    proof {
        reveal_strlit("B");
        reveal_strlit("K");
        reveal_strlit("M");
        reveal_strlit("G");
    }
    if val == 0 {
        String::new()
    } else if val < 5000 {
        with_unit(decimal(val), "B")
    } else if val < 500 * KIB {
        with_unit(write_fixed1(tenths_up(val, KIB), include_thousands), "K")
    } else if val < 50000 * MIB {
        with_unit(write_fixed1(tenths_up(val, MIB), include_thousands), "M")
    } else {
        with_unit(write_fixed1(tenths_up(val, GIB), include_thousands), "G")
    }
}

/// A size in gibibytes with one decimal, rounded half to even.
pub fn nice_size_g(val: u64) -> (r: String)
    ensures
        r@ == fixed1(tenths_half_even(val as nat, 1073741824), false) + seq!['G'],
{
    proof {
        reveal_strlit("G");
    }
    with_unit(write_fixed1(tenths_even(val, GIB), false), "G")
}

/// A size in gibibytes with one decimal and thousands separators.
pub fn nice_size_g_thousands(val: u64) -> (r: String)
    ensures
        r@ == fixed1(tenths_half_up(val as nat, 1073741824), true) + seq!['G'],
{
    proof {
        reveal_strlit("G");
    }
    with_unit(write_fixed1(tenths_up(val, GIB), true), "G")
}

/// Two digits, zero-padded.
pub open spec fn pad_zero(n: nat) -> Seq<char> {
    if n < 10 {
        seq!['0'] + dec(n)
    } else {
        dec(n)
    }
}

/// Right-aligned in two columns.
pub open spec fn pad_space(n: nat) -> Seq<char> {
    if n < 10 {
        seq![' '] + dec(n)
    } else {
        dec(n)
    }
}

pub open spec fn nice_time_text(t: nat) -> Seq<char> {
    if t < 60 {
        dec(t) + seq!['s']
    } else if t < 3600 {
        pad_zero(t / 60) + seq!['m', ' '] + pad_zero(t % 60) + seq!['s']
    } else if t < 86400 {
        dec(t / 3600) + seq!['h', ' '] + pad_space(t % 3600 / 60) + seq!['m', ' '] + pad_space(
            t % 60,
        ) + seq!['s', ' ']
    } else {
        pad_space(t / 86400) + seq!['d', ' '] + pad_space(t % 86400 / 3600) + seq!['h', ' ']
            + pad_space(t % 3600 / 60) + seq!['m', ' '] + pad_space(t % 60) + seq!['s', ' ']
    }
}

fn padded(n: u64, zero: bool) -> (r: String)
    ensures
        r@ == if zero {
            pad_zero(n as nat)
        } else {
            pad_space(n as nat)
        },
{
    proof {
        reveal_strlit("0");
        reveal_strlit(" ");
    }
    let mut s = if n >= 10 {
        String::new()
    } else if zero {
        String::from_str("0")
    } else {
        String::from_str(" ")
    };
    let d = decimal(n);
    s.append(d.as_str());
    s
}

/// A duration in seconds as seconds, minutes, hours and days.
pub fn nice_time(time_seconds: u64) -> (r: String)
    ensures
        r@ == nice_time_text(time_seconds as nat),
{
    proof {
        reveal_strlit("s");
        reveal_strlit("m ");
        reveal_strlit("h ");
        reveal_strlit("d ");
        reveal_strlit("s ");
    }
    let secs = time_seconds;
    if secs < 60 {
        with_unit(decimal(secs), "s")
    } else if secs < 60 * 60 {
        let s = with_unit(padded(secs / 60, true), "m ");
        let s = with_unit(s, padded(secs % 60, true).as_str());
        with_unit(s, "s")
    } else if secs < 60 * 60 * 24 {
        let s = with_unit(decimal(secs / 3600), "h ");
        let s = with_unit(s, padded(secs % 3600 / 60, false).as_str());
        let s = with_unit(s, "m ");
        let s = with_unit(s, padded(secs % 60, false).as_str());
        with_unit(s, "s ")
    } else {
        let s = with_unit(padded(secs / 86400, false), "d ");
        let s = with_unit(s, padded(secs % 86400 / 3600, false).as_str());
        let s = with_unit(s, "h ");
        let s = with_unit(s, padded(secs % 3600 / 60, false).as_str());
        let s = with_unit(s, "m ");
        let s = with_unit(s, padded(secs % 60, false).as_str());
        with_unit(s, "s ")
    }
}

} // verus!
