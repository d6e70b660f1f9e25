//! Number formatting for the tables and graphs: sizes, rates, clock speeds and durations.
//!
//! Sizes and rates are shown the way a double-precision division followed by a fixed-precision
//! rendering shows them: the integer input is first rounded to the nearest double (53-bit
//! significand, ties to even), and the decimal rendering rounds half to even. Everything here is
//! computed exactly in integers.
use crate::text::{push_char, push_str};
use vstd::prelude::*;

verus! {

/// 2 to the power `n`.
pub open spec fn exp2(n: nat) -> nat
    decreases n,
{
    if n == 0 {
        1
    } else {
        2 * exp2((n - 1) as nat)
    }
}

/// 10 to the power `n`.
pub open spec fn exp10(n: nat) -> nat
    decreases n,
{
    if n == 0 {
        1
    } else {
        10 * exp10((n - 1) as nat)
    }
}

/// `num / den` rounded to the nearest integer, ties to the even one.
pub open spec fn round_half_even(num: nat, den: nat) -> nat {
    let q = num / den;
    let r = num % den;
    if 2 * r > den {
        q + 1
    } else if 2 * r < den {
        q
    } else if q % 2 == 0 {
        q
    } else {
        q + 1
    }
}

/// How many low bits of `b` a double cannot hold (0 below 2^53).
pub open spec fn f64_shift(b: nat) -> nat
    decreases b,
{
    if b < 9007199254740992 {
        0
    } else {
        1 + f64_shift(b / 2)
    }
}

/// The value of the double nearest to the integer `b` (ties to even), as `b as f64` gives it.
pub open spec fn nearest_f64(b: nat) -> nat {
    round_half_even(b, exp2(f64_shift(b))) * exp2(f64_shift(b))
}

/// The character of the decimal digit `d` (`d < 10`).
pub open spec fn digit_char(d: nat) -> char {
    if d == 0 {
        '0'
    } else if d == 1 {
        '1'
    } else if d == 2 {
        '2'
    } else if d == 3 {
        '3'
    } else if d == 4 {
        '4'
    } else if d == 5 {
        '5'
    } else if d == 6 {
        '6'
    } else if d == 7 {
        '7'
    } else if d == 8 {
        '8'
    } else {
        '9'
    }
}

/// Decimal representation of `n`, without leading zeros.
pub open spec fn digits(n: nat) -> Seq<char>
    decreases n,
{
    if n < 10 {
        seq![digit_char(n)]
    } else {
        digits(n / 10).push(digit_char(n % 10))
    }
}

/// The last `w` decimal digits of `n`, zero-padded on the left.
pub open spec fn padded(n: nat, w: nat) -> Seq<char>
    decreases w,
{
    if w == 0 {
        Seq::empty()
    } else {
        padded(n / 10, (w - 1) as nat).push(digit_char(n % 10))
    }
}

/// `n / 10^d` rendered with `d` decimals (`d > 0`).
pub open spec fn fixed(n: nat, d: nat) -> Seq<char> {
    digits(n / exp10(d)) + seq!['.'] + padded(n, d)
}

pub open spec fn bytes_text(b: nat) -> Seq<char> {
    if b < exp2(30) {
        fixed(round_half_even(b * 10, exp2(20)), 1) + " MB"@
    } else {
        fixed(round_half_even(nearest_f64(b) * 100, exp2(30)), 2) + " GB"@
    }
}

pub open spec fn gb_text(b: nat) -> Seq<char> {
    fixed(round_half_even(nearest_f64(b) * 10, exp2(30)), 1) + " GB"@
}

pub open spec fn rate_text(b: nat) -> Seq<char> {
    if nearest_f64(b) * 20 < exp2(20) {
        "0 MB/s"@
    } else {
        fixed(round_half_even(nearest_f64(b) * 10, exp2(20)), 1) + " MB/s"@
    }
}

/// The smallest `t` with `a * 2^t >= 2^53 * c`: scaling `a / c` into the range where a
/// double's significand has exactly 53 bits.
pub open spec fn scale_exp(a: nat, c: nat) -> nat
    decreases (if a >= 9007199254740992 * c { 0 } else { 9007199254740992 * c - a }) when a > 0
{
    if a >= 9007199254740992 * c {
        0
    } else {
        1 + scale_exp(2 * a, c)
    }
}

/// The double nearest to `a / 1000`, times 100, rounded half to even: the two decimals that
/// `{:.2}` prints for it (`a >= 1000`).
pub open spec fn thousandths_centis(a: nat) -> nat {
    let t = scale_exp(a, 1000);
    let sig = round_half_even(a * exp2(t), 2000);
    round_half_even(sig * 200, exp2(t))
}

pub open spec fn hz_text(mhz: nat) -> Seq<char> {
    if mhz == 0 {
        "—"@
    } else if mhz >= 1000 {
        fixed(thousandths_centis(nearest_f64(mhz)), 2) + " GHz"@
    } else {
        digits(mhz) + " MHz"@
    }
}

pub open spec fn uptime_text(total: nat) -> Seq<char> {
    let days = total / 86400;
    let hours = (total % 86400) / 3600;
    let minutes = (total % 3600) / 60;
    let seconds = total % 60;
    let clock = padded(hours, 2) + seq![':'] + padded(minutes, 2) + seq![':'] + padded(seconds, 2);
    if days > 0 {
        digits(days) + seq![':'] + clock
    } else {
        clock
    }
}

/// A share in units of 2^-40 percent with one decimal, rounded half to even, as `{:.1}`
/// renders the double it is.
pub open spec fn percent_text(units: nat) -> Seq<char> {
    fixed(round_half_even(units * 10, 1099511627776), 1) + "%"@
}

fn digit(d: u128) -> (c: char)
    requires
        d < 10,
    ensures
        c == digit_char(d as nat),
{
    match d {
        0 => '0',
        1 => '1',
        2 => '2',
        3 => '3',
        4 => '4',
        5 => '5',
        6 => '6',
        7 => '7',
        8 => '8',
        _ => '9',
    }
}

/// Appends the decimal digits of `n`.
pub fn push_digits(s: &mut String, n: u128)
    ensures
        final(s)@ == old(s)@ + digits(n as nat),
    decreases n,
{
    if n >= 10 {
        push_digits(s, n / 10);
    }
    push_char(s, digit(n % 10));
}

/// Appends the last `w` decimal digits of `n`, zero-padded.
pub fn push_padded(s: &mut String, n: u128, w: u32)
    ensures
        final(s)@ == old(s)@ + padded(n as nat, w as nat),
    decreases w,
{
    if w > 0 {
        push_padded(s, n / 10, w - 1);
        push_char(s, digit(n % 10));
    }
}

proof fn lemma_exp10_small()
    ensures
        exp10(1) == 10,
        exp10(2) == 100,
{
    reveal_with_fuel(exp10, 3);
}

/// Appends `n / 10^d` with `d` decimals, `d` being 1 or 2.
fn push_fixed(s: &mut String, n: u128, d: u32)
    requires
        d == 1 || d == 2,
    ensures
        final(s)@ == old(s)@ + fixed(n as nat, d as nat),
{
    proof {
        lemma_exp10_small();
    }
    let scale: u128 = if d == 1 {
        10
    } else {
        100
    };
    push_digits(s, n / scale);
    push_char(s, '.');
    push_padded(s, n, d);
    proof {
        assert(final(s)@ =~= old(s)@ + fixed(n as nat, d as nat));
    }
}

pub(crate) fn round_half_even_exec(num: u128, den: u128) -> (r: u128)
    requires
        den > 0,
        num < u128::MAX,
    ensures
        r == round_half_even(num as nat, den as nat),
{
    let q = num / den;
    let r = num % den;
    if r > den - r {
        q + 1
    } else if r < den - r {
        q
    } else if q % 2 == 0 {
        q
    } else {
        q + 1
    }
}

proof fn lemma_exp2_values()
    ensures
        exp2(11) == 2048,
        exp2(20) == 1048576,
        exp2(30) == 1073741824,
        exp2(52) == 4503599627370496,
        exp2(53) == 9007199254740992,
        exp2(64) == 18446744073709551616,
{
    reveal_with_fuel(exp2, 12);
    assert(exp2(11) == 2048);
    lemma_exp2_add(11, 9);
    reveal_with_fuel(exp2, 10);
    assert(exp2(9) == 512);
    lemma_exp2_add(20, 10);
    assert(exp2(10) == 1024);
    lemma_exp2_add(30, 22);
    lemma_exp2_add(11, 11);
    assert(exp2(22) == 4194304);
    assert(exp2(30) == 1073741824);
    assert(exp2(52) == exp2(30) * exp2(22));
    let (x30, x22) = (exp2(30), exp2(22));
    assert(x30 * x22 == 4503599627370496) by (nonlinear_arith)
        requires
            x30 == 1073741824,
            x22 == 4194304,
    ;
    lemma_exp2_add(52, 1);
    assert(exp2(53) == exp2(52) * exp2(1));
    lemma_exp2_add(53, 11);
    assert(exp2(64) == exp2(53) * exp2(11));
    let (x53, x11) = (exp2(53), exp2(11));
    assert(x53 * x11 == 18446744073709551616) by (nonlinear_arith)
        requires
            x53 == 9007199254740992,
            x11 == 2048,
    ;
}

proof fn lemma_exp2_mono(a: nat, b: nat)
    requires
        a <= b,
    ensures
        exp2(a) <= exp2(b),
        exp2(a) >= 1,
    decreases b,
{
    if a < b {
        lemma_exp2_mono(a, (b - 1) as nat);
    } else if b > 0 {
        lemma_exp2_mono(0, (b - 1) as nat);
    }
}

proof fn lemma_div_mul_exp2(b: nat, e: nat)
    ensures
        (b / 2) / exp2(e) == b / exp2(e + 1),
{
    lemma_exp2_mono(0, e);
    vstd::arithmetic::div_mod::lemma_div_denominator(b as int, 2, exp2(e) as int);
    assert(exp2(e + 1) == 2 * exp2(e));
    assert(2 * exp2(e) == exp2(e) * 2) by (nonlinear_arith);
}

proof fn lemma_exp2_add(a: nat, b: nat)
    ensures
        exp2(a + b) == exp2(a) * exp2(b),
    decreases b,
{
    if b > 0 {
        let c = (b - 1) as nat;
        lemma_exp2_add(a, c);
        assert(a + b == (a + c) + 1);
        assert(exp2((a + c) + 1) == 2 * exp2(a + c));
        assert(exp2(c + 1) == 2 * exp2(c));
        assert(exp2(b) == 2 * exp2(c));
        assert(exp2(a) * (2 * exp2(c)) == 2 * (exp2(a) * exp2(c))) by (nonlinear_arith);
        assert(exp2(a) * exp2(b) == exp2(a) * (2 * exp2(c)));
        assert(exp2(a + b) == 2 * (exp2(a) * exp2(c)));
    } else {
        assert(exp2(0) == 1);
        assert(a + b == a);
    }
}

/// After removing `f64_shift(b)` low bits, what is left fits a 53-bit significand, and uses
/// all 53 bits whenever bits were removed.
proof fn lemma_shift_significand(b: nat)
    ensures
        b / exp2(f64_shift(b)) < exp2(53),
        f64_shift(b) > 0 ==> b / exp2(f64_shift(b)) >= exp2(52),
    decreases b,
{
    lemma_exp2_values();
    if b >= exp2(53) {
        lemma_shift_significand(b / 2);
        let k = f64_shift(b / 2);
        lemma_div_mul_exp2(b, k);
        if k == 0 {
            assert(exp2(53) == 2 * exp2(52));
        }
    }
}

proof fn lemma_shift_bound(b: nat)
    requires
        b < exp2(64),
    ensures
        f64_shift(b) <= 11,
        b / exp2(f64_shift(b)) < exp2(53),
{
    lemma_shift_significand(b);
    let k = f64_shift(b);
    if k > 11 {
        lemma_exp2_mono(0, k);
        let q = b / exp2(k);
        assert(q * exp2(k) <= b) by {
            vstd::arithmetic::div_mod::lemma_fundamental_div_mod(b as int, exp2(k) as int);
        }
        assert(exp2(52) * exp2(k) <= q * exp2(k)) by (nonlinear_arith)
            requires
                exp2(52) <= q,
        {
        }
        lemma_exp2_add(52, k);
        lemma_exp2_mono(64, 52 + k);
        assert(false);
    }
}

/// The double nearest to `b`, as an integer (what `b as f64` holds).
pub fn nearest_f64_exec(b: u64) -> (r: u128)
    ensures
        r == nearest_f64(b as nat),
        r <= exp2(64),
{
    proof {
        lemma_exp2_values();
        lemma_shift_bound(b as nat);
    }
    let mut x: u64 = b;
    let mut p: u128 = 1;
    let ghost mut e: nat = 0;
    while x >= 9007199254740992
        invariant
            p == exp2(e),
            x == (b as nat) / exp2(e),
            f64_shift(b as nat) == e + f64_shift(x as nat),
            f64_shift(b as nat) <= 11,
            exp2(53) == 9007199254740992,
            exp2(11) == 2048,
        decreases x,
    {
        proof {
            assert(f64_shift(x as nat) >= 1);
            lemma_exp2_mono(e + 1, 11);
            lemma_exp2_mono(0, e);
            assert(exp2(e + 1) == 2 * exp2(e));
            vstd::arithmetic::div_mod::lemma_div_denominator(b as int, exp2(e) as int, 2);
            assert(exp2(e) * 2 == exp2(e + 1));
        }
        x = x / 2;
        p = p * 2;
        proof {
            e = e + 1;
        }
    }
    proof {
        lemma_exp2_mono(e, 11);
        lemma_exp2_mono(0, e);
    }
    let m = round_half_even_exec(b as u128, p);
    proof {
        assert(m <= exp2(53));
        assert(m * p <= exp2(53) * 2048) by (nonlinear_arith)
            requires
                m <= exp2(53),
                p <= 2048,
        {
        }
    }
    m * p
}

proof fn lemma_nearest_f64_ge(b: nat)
    requires
        b >= 1000,
    ensures
        nearest_f64(b) >= 1000,
{
    lemma_exp2_values();
    let k = f64_shift(b);
    lemma_shift_significand(b);
    if k == 0 {
        assert(exp2(0) == 1);
        assert(b / 1 == b);
        assert(b % 1 == 0);
        assert(round_half_even(b, 1) == b);
        assert(nearest_f64(b) == b);
    } else {
        let p = exp2(k);
        lemma_exp2_mono(0, k);
        let q = b / p;
        assert(round_half_even(b, p) >= q);
        assert(q * p >= q) by (nonlinear_arith)
            requires
                p >= 1,
        ;
        assert(round_half_even(b, p) * p >= q * p) by (nonlinear_arith)
            requires
                round_half_even(b, p) >= q,
        ;
    }
}

/// A size in bytes as the GUI shows it: "512.0 MB" below 1 GiB, "3.00 GB" from there on.
pub fn bytes(size: u64) -> (s: String)
    ensures
        s@ == bytes_text(size as nat),
{
    proof {
        lemma_exp2_values();
    }
    let mut s = String::new();
    if size < 1073741824 {
        let n = round_half_even_exec(size as u128 * 10, 1048576);
        push_fixed(&mut s, n, 1);
        push_str(&mut s, " MB");
    } else {
        let f = nearest_f64_exec(size);
        let n = round_half_even_exec(f * 100, 1073741824);
        push_fixed(&mut s, n, 2);
        push_str(&mut s, " GB");
    }
    s
}

/// A size in gigabytes with one decimal, e.g. "12.4 GB".
pub fn gb(bytes: u64) -> (s: String)
    ensures
        s@ == gb_text(bytes as nat),
{
    proof {
        lemma_exp2_values();
    }
    let mut s = String::new();
    let f = nearest_f64_exec(bytes);
    let n = round_half_even_exec(f * 10, 1073741824);
    push_fixed(&mut s, n, 1);
    push_str(&mut s, " GB");
    s
}

/// A transfer rate in bytes per second as megabytes per second with one decimal; rates below
/// 0.05 MB/s read "0 MB/s".
pub fn rate(bytes_per_sec: u64) -> (s: String)
    ensures
        s@ == rate_text(bytes_per_sec as nat),
{
    proof {
        lemma_exp2_values();
    }
    let f = nearest_f64_exec(bytes_per_sec);
    if f * 20 < 1048576 {
        let mut s = String::new();
        push_str(&mut s, "0 MB/s");
        s
    } else {
        let mut s = String::new();
        let n = round_half_even_exec(f * 10, 1048576);
        push_fixed(&mut s, n, 1);
        push_str(&mut s, " MB/s");
        s
    }
}

/// A clock speed in MHz: "—" when unknown (0), "800 MHz" below 1 GHz, "3.40 GHz" from there on.
pub fn hz(mhz: u64) -> (s: String)
    ensures
        s@ == hz_text(mhz as nat),
{
    let mut s = String::new();
    if mhz == 0 {
        push_str(&mut s, "—");
    } else if mhz >= 1000 {
        proof {
            lemma_exp2_values();
            lemma_nearest_f64_ge(mhz as nat);
        }
        let a = nearest_f64_exec(mhz);
        proof {
            assert(exp2(0) == 1);
        }
        let mut x: u128 = a;
        let mut p: u128 = 1;
        let ghost mut t: nat = 0;
        while x < 9007199254740992000
            invariant
                x == a * exp2(t),
                p == exp2(t),
                1 <= p <= x,
                a >= 1000,
                x <= 18446744073709551616,
                scale_exp(a as nat, 1000) == t + scale_exp(x as nat, 1000),
            decreases (if x >= 9007199254740992000 { 0 } else { 9007199254740992000 - x }),
        {
            x = x * 2;
            p = p * 2;
            proof {
                t = t + 1;
                assert(exp2(t) == 2 * exp2((t - 1) as nat));
                assert(a * (2 * exp2((t - 1) as nat)) == 2 * (a * exp2((t - 1) as nat)))
                    by (nonlinear_arith);
            }
        }
        let sig = round_half_even_exec(x, 2000);
        let n = round_half_even_exec(sig * 200, p);
        push_fixed(&mut s, n, 2);
        push_str(&mut s, " GHz");
    } else {
        push_digits(&mut s, mhz as u128);
        push_str(&mut s, " MHz");
    }
    s
}

/// A duration in whole seconds as "hh:mm:ss", with a leading "d:" once it exceeds a day.
pub fn uptime(total_seconds: u64) -> (s: String)
    ensures
        s@ == uptime_text(total_seconds as nat),
{
    let total = total_seconds;
    let days = total / 86400;
    let hours = (total % 86400) / 3600;
    let minutes = (total % 3600) / 60;
    let seconds = total % 60;
    let mut s = String::new();
    if days > 0 {
        push_digits(&mut s, days as u128);
        push_char(&mut s, ':');
    }
    push_padded(&mut s, hours as u128, 2);
    push_char(&mut s, ':');
    push_padded(&mut s, minutes as u128, 2);
    push_char(&mut s, ':');
    push_padded(&mut s, seconds as u128, 2);
    proof {
        assert(s@ =~= uptime_text(total_seconds as nat));
    }
    s
}

/// A CPU share given in units of 2^-40 percent, with one decimal: 9.8% of a core reads "9.8%".
pub fn percent(units: u64) -> (s: String)
    ensures
        s@ == percent_text(units as nat),
{
    let mut s = String::new();
    let n = round_half_even_exec(units as u128 * 10, 1099511627776);
    push_fixed(&mut s, n, 1);
    push_str(&mut s, "%");
    s
}

} // verus!
