//! Text formatting of sensor values for theme widgets: right-aligned
//! integers with units, binary-prefixed byte counts and uptimes.

use vstd::prelude::*;
use vstd::string::StringExecFns;
use vstd::string::StrSliceExecFns;
use crate::text::{all_digits, digit_value, digits_value, parse_unsigned, str_eq};

verus! {

/// The ASCII digit for `d` (`0 <= d < 10`).
pub open spec fn digit_char(d: int) -> char {
    if d == 0 { '0' }
    else if d == 1 { '1' }
    else if d == 2 { '2' }
    else if d == 3 { '3' }
    else if d == 4 { '4' }
    else if d == 5 { '5' }
    else if d == 6 { '6' }
    else if d == 7 { '7' }
    else if d == 8 { '8' }
    else { '9' }
}

/// Decimal digits of `n`, most significant first, without leading zeros.
pub open spec fn dec(n: nat) -> Seq<char>
    decreases n,
{
    if n < 10 {
        seq![digit_char(n as int)]
    } else {
        dec(n / 10).push(digit_char((n % 10) as int))
    }
}

proof fn lemma_digit_char_code(d: int)
    requires
        0 <= d < 10,
    ensures
        digit_char(d) as int == '0' as int + d,
{
    assert('0' as int == 48 && '1' as int == 49 && '2' as int == 50 && '3' as int == 51 && '4' as int == 52);
    assert('5' as int == 53 && '6' as int == 54 && '7' as int == 55 && '8' as int == 56 && '9' as int == 57);
}

/// The decimal text of `n` reads back as `n`: it is made of the digits
/// `0` to `9` only, has no leading zero, and parses as `n` again.
pub proof fn lemma_dec_reads_back(n: nat)
    ensures
        digits_value(dec(n), 10) == n,
        forall|i: int| 0 <= i < dec(n).len() ==> '0' <= #[trigger] dec(n)[i] <= '9',
        all_digits(dec(n), 10),
        parse_unsigned(dec(n), 10) == Some(n),
        dec(n).len() >= 1,
        n >= 10 ==> dec(n)[0] != '0',
    decreases n,
{
    if n < 10 {
        lemma_digit_char_code(n as int);
        assert(dec(n) == seq![digit_char(n as int)]);
        assert(dec(n).drop_last() =~= Seq::<char>::empty());
        assert(digits_value(dec(n), 10) == digits_value(Seq::<char>::empty(), 10) * 10 + digit_value(digit_char(n as int), 10).unwrap());
    } else {
        lemma_digit_char_code((n % 10) as int);
        lemma_dec_reads_back(n / 10);
        let p = dec(n / 10);
        assert(dec(n) == p.push(digit_char((n % 10) as int)));
        assert(dec(n).drop_last() =~= p);
        assert(dec(n).last() == digit_char((n % 10) as int));
        assert(digits_value(dec(n), 10) == digits_value(p, 10) * 10 + digit_value(digit_char((n % 10) as int), 10).unwrap());
        assert(n == (n / 10) * 10 + n % 10);
        assert forall|i: int| 0 <= i < dec(n).len() implies '0' <= #[trigger] dec(n)[i] <= '9' by {
            if i < p.len() {
                assert(dec(n)[i] == p[i]);
            }
        }
        if n / 10 >= 10 {
            assert(dec(n)[0] == p[0]);
        } else {
            assert(p == seq![digit_char((n / 10) as int)]);
            assert(dec(n)[0] == p[0]);
        }
    }
}

/// Decimal rendering of a signed integer (`-` then the magnitude).
pub open spec fn int_dec(v: int) -> Seq<char> {
    if v < 0 { seq!['-'] + dec((-v) as nat) } else { dec(v as nat) }
}

/// `s` right-aligned in a field of `w` characters (spaces on the left).
pub open spec fn pad_left(s: Seq<char>, w: int) -> Seq<char> {
    if s.len() >= w { s } else { Seq::new((w - s.len()) as nat, |i: int| ' ') + s }
}

/// Two-digit zero-padded decimal (`n < 100`).
pub open spec fn dec2(n: nat) -> Seq<char> {
    if n < 10 { seq!['0'] + dec(n) } else { dec(n) }
}

proof fn lemma_dec_len(n: nat)
    ensures
        dec(n).len() >= 1,
        n < 10 ==> dec(n).len() == 1,
        10 <= n < 100 ==> dec(n).len() == 2,
    decreases n,
{
    if n >= 10 {
        lemma_dec_len(n / 10);
    }
}

/// Appends the single digit `d`.
fn push_digit(out: &mut String, d: u64)
    requires
        d < 10,
    ensures
        final(out)@ == old(out)@.push(digit_char(d as int)),
{
    let s: &str = if d == 0 { "0" }
        else if d == 1 { "1" }
        else if d == 2 { "2" }
        else if d == 3 { "3" }
        else if d == 4 { "4" }
        else if d == 5 { "5" }
        else if d == 6 { "6" }
        else if d == 7 { "7" }
        else if d == 8 { "8" }
        else { "9" };
    proof {
        reveal_strlit("0");
        reveal_strlit("1");
        reveal_strlit("2");
        reveal_strlit("3");
        reveal_strlit("4");
        reveal_strlit("5");
        reveal_strlit("6");
        reveal_strlit("7");
        reveal_strlit("8");
        reveal_strlit("9");
    }
    out.append(s);
    assert(out@ =~= old(out)@.push(digit_char(d as int)));
}

/// Appends the decimal digits of `n`.
pub fn push_dec(out: &mut String, n: u64)
    ensures
        final(out)@ == old(out)@ + dec(n as nat),
    decreases n,
{
    if n >= 10 {
        push_dec(out, n / 10);
        push_digit(out, n % 10);
        assert(final(out)@ =~= old(out)@ + dec(n as nat)) by {
            assert(dec(n as nat) == dec((n / 10) as nat).push(digit_char((n % 10) as int)));
        }
    } else {
        push_digit(out, n);
        assert(out@ =~= old(out)@ + dec(n as nat));
    }
}

/// Decimal string of `n`.
pub fn dec_string(n: u64) -> (s: String)
    ensures
        s@ == dec(n as nat),
{
    let mut s = String::new();
    push_dec(&mut s, n);
    assert(s@ =~= dec(n as nat));
    s
}

/// Appends `n` as at least two digits.
fn push_dec2(out: &mut String, n: u64)
    requires
        n < 100,
    ensures
        final(out)@ == old(out)@ + dec2(n as nat),
{
    if n < 10 {
        push_digit(out, 0);
    }
    push_dec(out, n);
    assert(out@ =~= old(out)@ + dec2(n as nat)) by {
        reveal_with_fuel(dec, 2);
    }
}

/// Appends `v` in decimal, with a leading `-` when negative.
fn push_int(out: &mut String, v: i64)
    ensures
        final(out)@ == old(out)@ + int_dec(v as int),
{
    if v < 0 {
        out.append("-");
        proof {
            reveal_strlit("-");
        }
        let mag: u64 = if v == i64::MIN { 9223372036854775808u64 } else { (-v) as u64 };
        push_dec(out, mag);
        assert(out@ =~= old(out)@ + int_dec(v as int));
    } else {
        push_dec(out, v as u64);
        assert(out@ =~= old(out)@ + int_dec(v as int));
    }
}

/// The right-aligned integer of [`fmt_value`], with its unit.
pub open spec fn fmt_value_spec(v: int, min_size: int, unit: Seq<char>, show_unit: bool) -> Seq<char> {
    pad_left(int_dec(v), min_size) + (if show_unit && unit.len() > 0 { unit } else { Seq::empty() })
}

/// `v` right-aligned in `min_size` columns, followed by `unit` when
/// `show_unit` is set and the unit is not empty.
pub fn fmt_value(v: i64, min_size: usize, unit: &str, show_unit: bool) -> (s: String)
    ensures
        s@ == fmt_value_spec(v as int, min_size as int, unit@, show_unit),
{
    let mut digits = String::new();
    push_int(&mut digits, v);
    let n = digits.as_str().unicode_len();
    let mut s = String::new();
    let mut i: usize = n;
    while i < min_size
        invariant
            n <= i <= min_size || (i == n && n >= min_size),
            s@ == Seq::new((i - n) as nat, |k: int| ' '),
        decreases min_size - i,
    {
        s.append(" ");
        proof {
            reveal_strlit(" ");
        }
        assert(s@ =~= Seq::new((i + 1 - n) as nat, |k: int| ' '));
        i = i + 1;
    }
    s.append(digits.as_str());
    assert(s@ =~= pad_left(int_dec(v as int), min_size as int));
    if show_unit && unit.unicode_len() > 0 {
        s.append(unit);
    }
    assert(s@ =~= fmt_value_spec(v as int, min_size as int, unit@, show_unit));
    s
}

/// `x as i64` for a `u64`: two's-complement reinterpretation.
pub open spec fn as_signed(x: int) -> int {
    if x < 0x8000_0000_0000_0000 { x } else { x - 0x1_0000_0000_0000_0000 }
}

/// Integer division rounding toward zero, as Rust's `/`.
pub open spec fn trunc_div(a: int, b: int) -> int {
    if a >= 0 { a / b } else { -((-a) / b) }
}

/// `bytes as i64 / d` in Rust for a positive divisor.
fn signed_div(bytes: u64, d: u64) -> (q: i64)
    requires
        d >= 2,
    ensures
        q as int == trunc_div(as_signed(bytes as int), d as int),
{
    if bytes < 0x8000_0000_0000_0000u64 {
        (bytes / d) as i64
    } else {
        let mag: u64 = 0xFFFF_FFFF_FFFF_FFFFu64 - bytes + 1;
        let q = mag / d;
        assert(q * d <= mag) by (nonlinear_arith)
            requires q == mag / d, d >= 2;
        assert(q <= mag / 2) by (nonlinear_arith)
            requires q * d <= mag, d >= 2;
        assert(-(as_signed(bytes as int)) == mag as int);
        -(q as i64)
    }
}

/// Bytes as whole mebibytes (` M`), five columns wide.
pub fn fmt_mega(bytes: u64, show_unit: bool) -> (s: String)
    ensures
        s@ == fmt_value_spec(trunc_div(as_signed(bytes as int), 1048576), 5, " M"@, show_unit),
{
    let q = signed_div(bytes, 1048576);
    proof {
        let a = as_signed(bytes as int);
        if a < 0 {
            assert((-a) / 1024 / 1024 == (-a) / 1048576) by {
                vstd::arithmetic::div_mod::lemma_div_denominator(-a, 1024, 1024);
            }
        }
    }
    fmt_value(q, 5, " M", show_unit)
}

/// Bytes as whole gigabytes (` G`, 10^9), five columns wide.
pub fn fmt_giga(bytes: u64, show_unit: bool) -> (s: String)
    ensures
        s@ == fmt_value_spec(trunc_div(as_signed(bytes as int), 1_000_000_000), 5, " G"@, show_unit),
{
    let q = signed_div(bytes, 1_000_000_000);
    fmt_value(q, 5, " G", show_unit)
}

/// `secs` as `H:MM:SS`, prefixed by `1 day, ` or `D days, ` from one day
/// on (the form of a `timedelta` as text).
pub open spec fn uptime_spec(secs: nat) -> Seq<char> {
    let d = secs / 86400;
    let r = secs % 86400;
    let hms = dec(r / 3600) + seq![':'] + dec2((r % 3600) / 60) + seq![':'] + dec2(r % 60);
    if d == 1 {
        dec(d) + " day, "@ + hms
    } else if d > 1 {
        dec(d) + " days, "@ + hms
    } else {
        hms
    }
}

/// Two-digit decimals read back as their number.
pub proof fn lemma_dec2_reads_back(n: nat)
    requires
        n < 100,
    ensures
        dec2(n).len() == 2,
        digits_value(dec2(n), 10) == n,
        parse_unsigned(dec2(n), 10) == Some(n),
{
    lemma_dec_reads_back(n);
    lemma_dec_len(n);
    if n < 10 {
        let t = seq!['0'] + dec(n);
        assert(t.drop_last() =~= seq!['0']);
        assert(t.last() == dec(n).last());
        assert(dec(n).drop_last() =~= Seq::<char>::empty());
        assert(seq!['0'].drop_last() =~= Seq::<char>::empty());
        assert(digits_value(seq!['0'], 10) == digits_value(Seq::<char>::empty(), 10) * 10 + digit_value('0', 10).unwrap());
        assert(digits_value(dec(n), 10) == digits_value(dec(n).drop_last(), 10) * 10 + digit_value(dec(n).last(), 10).unwrap());
        assert(digits_value(t, 10) == digits_value(t.drop_last(), 10) * 10 + digit_value(t.last(), 10).unwrap());
    }
}

/// An uptime of `d` days, `h` hours, `m` minutes and `s` seconds (each
/// below its next unit) reads `H:MM:SS`, after `1 day, ` or `D days, ` when
/// there is at least one day.
#[verifier::spinoff_prover]
pub proof fn lemma_uptime_fields(secs: nat, d: nat, h: nat, m: nat, s: nat)
    requires
        h < 24,
        m < 60,
        s < 60,
        secs == d * 86400 + h * 3600 + m * 60 + s,
    ensures
        uptime_spec(secs) == (if d == 0 {
            Seq::<char>::empty()
        } else if d == 1 {
            "1 day, "@
        } else {
            dec(d) + " days, "@
        }) + dec(h) + seq![':'] + dec2(m) + seq![':'] + dec2(s),
{
    let ms = m * 60 + s;
    let r = h * 3600 + ms;
    assert(ms < 3600);
    assert(r < 86400);
    vstd::arithmetic::div_mod::lemma_fundamental_div_mod_converse(secs as int, 86400, d as int, r as int);
    vstd::arithmetic::div_mod::lemma_fundamental_div_mod_converse(r as int, 3600, h as int, ms as int);
    vstd::arithmetic::div_mod::lemma_fundamental_div_mod_converse(ms as int, 60, m as int, s as int);
    vstd::arithmetic::div_mod::lemma_fundamental_div_mod_converse(r as int, 60, (h * 60 + m) as int, s as int);
    assert(secs / 86400 == d && secs % 86400 == r);
    assert(r / 3600 == h && (r % 3600) / 60 == m && r % 60 == s);
    reveal_strlit("1 day, ");
    reveal_strlit(" day, ");
    if d == 1 {
        assert(dec(1) == seq!['1']);
        assert(dec(d) + " day, "@ =~= "1 day, "@);
    }
}

/// Appends `H:MM:SS`.
fn push_hms(out: &mut String, h: u64, m: u64, sec: u64)
    requires
        m < 60,
        sec < 60,
    ensures
        final(out)@ == old(out)@ + dec(h as nat) + seq![':'] + dec2(m as nat) + seq![':'] + dec2(sec as nat),
{
    push_dec(out, h);
    out.append(":");
    push_dec2(out, m);
    out.append(":");
    push_dec2(out, sec);
    proof {
        reveal_strlit(":");
    }
    assert(out@ =~= old(out)@ + dec(h as nat) + seq![':'] + dec2(m as nat) + seq![':'] + dec2(sec as nat));
}

/// Duration in seconds as `H:MM:SS`, preceded by `1 day, ` or `N days, `
/// when it spans at least one whole day.
#[verifier::spinoff_prover]
pub fn fmt_uptime(secs: u64) -> (s: String)
    ensures
        s@ == uptime_spec(secs as nat),
{
    let d = secs / 86400;
    let r = secs % 86400;
    let h = r / 3600;
    let r2 = r % 3600;
    let m = r2 / 60;
    let sec = r2 % 60;
    let mut s = String::new();
    let ghost mut pre: Seq<char> = Seq::empty();
    if d == 1 {
        push_dec(&mut s, d);
        s.append(" day, ");
        proof {
            pre = dec(d as nat) + " day, "@;
        }
    } else if d > 1 {
        push_dec(&mut s, d);
        s.append(" days, ");
        proof {
            pre = dec(d as nat) + " days, "@;
        }
    }
    assert(s@ =~= pre);
    push_hms(&mut s, h, m, sec);
    assert(s@ =~= uptime_spec(secs as nat));
    s
}

/// Index of the binary unit `B K M G T P` that `bytes2human` picks:
/// the largest `k <= 5` with `n >= 1024^k`.
pub open spec fn unit_index(n: nat) -> nat {
    if n < 0x400 { 0 }
    else if n < 0x10_0000 { 1 }
    else if n < 0x4000_0000 { 2 }
    else if n < 0x100_0000_0000 { 3 }
    else if n < 0x4_0000_0000_0000 { 4 }
    else { 5 }
}

/// `1024^k` for `k <= 5`.
pub open spec fn pow1024(k: nat) -> nat {
    if k == 0 { 1 }
    else if k == 1 { 0x400 }
    else if k == 2 { 0x10_0000 }
    else if k == 3 { 0x4000_0000 }
    else if k == 4 { 0x100_0000_0000 }
    else { 0x4_0000_0000_0000 }
}

/// Unit letter of index `k`.
pub open spec fn unit_char(k: nat) -> char {
    if k == 0 { 'B' }
    else if k == 1 { 'K' }
    else if k == 2 { 'M' }
    else if k == 3 { 'G' }
    else if k == 4 { 'T' }
    else { 'P' }
}

/// `num / den` rounded to the nearest integer, ties to even.
pub open spec fn round_half_even(num: nat, den: nat) -> nat {
    let q = num / den;
    let r = num % den;
    if 2 * r < den { q }
    else if 2 * r > den { q + 1 }
    else if q % 2 == 0 { q }
    else { q + 1 }
}

/// Spacing of `f64` values around `n` (`n < 2^64`): `2^e` where `e` is
/// the number of bits of `n` beyond the 53-bit significand.
pub open spec fn f64_ulp(n: nat) -> nat {
    if n < 0x20_0000_0000_0000 { 1 }
    else if n < 0x40_0000_0000_0000 { 2 }
    else if n < 0x80_0000_0000_0000 { 4 }
    else if n < 0x100_0000_0000_0000 { 8 }
    else if n < 0x200_0000_0000_0000 { 16 }
    else if n < 0x400_0000_0000_0000 { 32 }
    else if n < 0x800_0000_0000_0000 { 64 }
    else if n < 0x1000_0000_0000_0000 { 128 }
    else if n < 0x2000_0000_0000_0000 { 256 }
    else if n < 0x4000_0000_0000_0000 { 512 }
    else if n < 0x8000_0000_0000_0000 { 1024 }
    else { 2048 }
}

/// Value of `n as f64`: round to nearest representable, ties to even.
pub open spec fn f64_of(n: nat) -> nat {
    round_half_even(n, f64_ulp(n)) * f64_ulp(n)
}

/// Text of `bytes2human(n)`: whole bytes below 1 KiB, otherwise the
/// `f64` quotient by the unit rounded to one decimal.
pub open spec fn bytes2human_spec(n: nat) -> Seq<char> {
    let k = unit_index(n);
    if k == 0 {
        dec(n).push('B')
    } else {
        let t = round_half_even(10 * f64_of(n), pow1024(k));
        dec(t / 10) + seq!['.', digit_char((t % 10) as int), unit_char(k)]
    }
}

/// `bytes2human` picks the largest of the units `B K M G T P` (powers of
/// 1024) that the count reaches, and below 1 KiB writes the count itself
/// followed by `B`.
pub proof fn lemma_human_unit(n: nat, k: nat)
    ensures
        pow1024(0) == 1,
        k < 5 ==> pow1024(k + 1) == 1024 * pow1024(k),
        unit_index(n) <= 5,
        pow1024(unit_index(n)) <= n || n == 0,
        unit_index(n) < 5 ==> n < 1024 * pow1024(unit_index(n)),
        seq![unit_char(0), unit_char(1), unit_char(2), unit_char(3), unit_char(4), unit_char(5)] == seq![
            'B',
            'K',
            'M',
            'G',
            'T',
            'P',
        ],
        n < 1024 ==> bytes2human_spec(n) == dec(n) + seq!['B'],
{
    if n < 1024 {
        assert(bytes2human_spec(n) =~= dec(n) + seq!['B']);
    }
}

/// `num / den` rounded half to even (exec form).
fn round_div_even(num: u128, den: u128) -> (q: u128)
    requires
        0 < den < 0x1_0000_0000_0000_0000_0000,
        num < 0x1_0000_0000_0000_0000_0000,
    ensures
        q as nat == round_half_even(num as nat, den as nat),
{
    let q = num / den;
    let r = num % den;
    assert(q <= num) by (nonlinear_arith)
        requires q == num / den, den > 0;
    if 2 * r < den {
        q
    } else if 2 * r > den {
        q + 1
    } else if q % 2 == 0 {
        q
    } else {
        q + 1
    }
}

/// Human-readable byte count with binary units (`B K M G T P`), one
/// decimal from `K` on.
pub fn bytes2human(n: u64) -> (s: String)
    ensures
        s@ == bytes2human_spec(n as nat),
{
    let k: u64 = if n < 0x400 { 0 }
        else if n < 0x10_0000 { 1 }
        else if n < 0x4000_0000 { 2 }
        else if n < 0x100_0000_0000 { 3 }
        else if n < 0x4_0000_0000_0000 { 4 }
        else { 5 };
    let mut s = String::new();
    if k == 0 {
        push_dec(&mut s, n);
        s.append("B");
        proof {
            reveal_strlit("B");
        }
        assert(s@ =~= bytes2human_spec(n as nat));
        return s;
    }
    let ulp: u128 = if n < 0x20_0000_0000_0000 { 1 }
        else if n < 0x40_0000_0000_0000 { 2 }
        else if n < 0x80_0000_0000_0000 { 4 }
        else if n < 0x100_0000_0000_0000 { 8 }
        else if n < 0x200_0000_0000_0000 { 16 }
        else if n < 0x400_0000_0000_0000 { 32 }
        else if n < 0x800_0000_0000_0000 { 64 }
        else if n < 0x1000_0000_0000_0000 { 128 }
        else if n < 0x2000_0000_0000_0000 { 256 }
        else if n < 0x4000_0000_0000_0000 { 512 }
        else if n < 0x8000_0000_0000_0000 { 1024 }
        else { 2048 };
    assert(ulp as nat == f64_ulp(n as nat));
    let m = round_div_even(n as u128, ulp);
    assert(m * ulp <= n as int + ulp) by (nonlinear_arith)
        requires
            m <= (n as int) / (ulp as int) + 1,
            ulp > 0,
    {
        assert(((n as int) / (ulp as int)) * (ulp as int) <= n as int);
    }
    let fl: u128 = m * ulp;
    let den: u128 = if k == 1 { 0x400 }
        else if k == 2 { 0x10_0000 }
        else if k == 3 { 0x4000_0000 }
        else if k == 4 { 0x100_0000_0000 }
        else { 0x4_0000_0000_0000 };
    let t = round_div_even(10 * fl, den);
    assert(t <= 0x1_0000_0000_0000_0000) by (nonlinear_arith)
        requires
            t <= (10 * fl as int) / (den as int) + 1,
            den >= 1024,
            fl <= 0x1_0000_0000_0000_0800;
    let whole: u64 = (t / 10) as u64;
    let frac: u64 = (t % 10) as u64;
    push_dec(&mut s, whole);
    s.append(".");
    push_digit(&mut s, frac);
    let u: &str = if k == 1 { "K" } else if k == 2 { "M" } else if k == 3 { "G" } else if k == 4 { "T" } else { "P" };
    s.append(u);
    proof {
        reveal_strlit(".");
        reveal_strlit("K");
        reveal_strlit("M");
        reveal_strlit("G");
        reveal_strlit("T");
        reveal_strlit("P");
    }
    assert(s@ =~= bytes2human_spec(n as nat));
    s
}

/// The strftime pattern of a `DATE` widget's `FORMAT`: `short`, `long` and
/// `full` have their own; anything else reads as `medium`.
pub open spec fn date_pattern_spec(format: Seq<char>) -> Seq<char> {
    if format == "short"@ {
        "%-m/%-d/%y"@
    } else if format == "long"@ {
        "%B %-d, %Y"@
    } else if format == "full"@ {
        "%A, %B %-d, %Y"@
    } else {
        "%b %-d, %Y"@
    }
}

/// The strftime pattern of a `TIME` widget's `FORMAT`: `short` drops the
/// seconds, `long` and `full` add the time zone; anything else reads as
/// `medium`.
pub open spec fn time_pattern_spec(format: Seq<char>) -> Seq<char> {
    if format == "short"@ {
        "%-I:%M %p"@
    } else if format == "long"@ || format == "full"@ {
        "%-I:%M:%S %p %Z"@
    } else {
        "%-I:%M:%S %p"@
    }
}

/// Pattern that a date is formatted with.
pub fn date_pattern(format: &str) -> (p: &'static str)
    ensures
        p@ == date_pattern_spec(format@),
{
    if str_eq(format, "short") {
        "%-m/%-d/%y"
    } else if str_eq(format, "long") {
        "%B %-d, %Y"
    } else if str_eq(format, "full") {
        "%A, %B %-d, %Y"
    } else {
        "%b %-d, %Y"
    }
}

/// Pattern that a time of day is formatted with.
pub fn time_pattern(format: &str) -> (p: &'static str)
    ensures
        p@ == time_pattern_spec(format@),
{
    if str_eq(format, "short") {
        "%-I:%M %p"
    } else if str_eq(format, "long") || str_eq(format, "full") {
        "%-I:%M:%S %p %Z"
    } else {
        "%-I:%M:%S %p"
    }
}

} // verus!
