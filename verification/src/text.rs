//! String helpers with exact character-level contracts: comparison,
//! ASCII case folding, whitespace trimming and Rust-style integer parsing.

use vstd::prelude::*;
use vstd::string::StrSliceExecFns;

verus! {

/// `String::push`: claims that the string gains `c` at its end and is
/// otherwise unchanged.
#[verifier::external_body]
pub(crate) fn push_char(s: &mut String, c: char)
    ensures
        final(s)@ == old(s)@.push(c),
{
    s.push(c);
}

/// ASCII lower-casing of one character; other characters are unchanged.
pub open spec fn lower(c: char) -> char {
    if 'A' <= c && c <= 'Z' { ((c as int) + 32) as char } else { c }
}

/// ASCII lower-casing of a whole string.
pub open spec fn lower_seq(s: Seq<char>) -> Seq<char> {
    Seq::new(s.len(), |i: int| lower(s[i]))
}

/// Copy of `s` with `A`..`Z` mapped to `a`..`z`.
pub fn ascii_lowercase(s: &str) -> (r: String)
    ensures
        r@ == lower_seq(s@),
{
    let n = s.unicode_len();
    let mut r = String::new();
    let mut i: usize = 0;
    while i < n
        invariant
            i <= n,
            n == s@.len(),
            r@ == lower_seq(s@.subrange(0, i as int)),
        decreases n - i,
    {
        let c = s.get_char(i);
        let l = if 'A' <= c && c <= 'Z' { ((c as u32) + 32) as u8 as char } else { c };
        assert(l == lower(c));
        push_char(&mut r, l);
        assert(r@ =~= lower_seq(s@.subrange(0, i + 1)));
        i = i + 1;
    }
    assert(s@.subrange(0, n as int) =~= s@);
    r
}

/// Character-wise equality of two strings.
pub fn str_eq(a: &str, b: &str) -> (r: bool)
    ensures
        r == (a@ == b@),
{
    let n = a.unicode_len();
    if n != b.unicode_len() {
        return false;
    }
    let mut i: usize = 0;
    while i < n
        invariant
            i <= n,
            n == a@.len(),
            n == b@.len(),
            a@.subrange(0, i as int) == b@.subrange(0, i as int),
        decreases n - i,
    {
        if a.get_char(i) != b.get_char(i) {
            assert(a@[i as int] != b@[i as int]);
            return false;
        }
        assert(a@.subrange(0, i + 1) =~= b@.subrange(0, i + 1)) by {
            assert(a@.subrange(0, i + 1) =~= a@.subrange(0, i as int).push(a@[i as int]));
            assert(b@.subrange(0, i + 1) =~= b@.subrange(0, i as int).push(b@[i as int]));
        }
        i = i + 1;
    }
    assert(a@ =~= a@.subrange(0, n as int));
    assert(b@ =~= b@.subrange(0, n as int));
    true
}

/// Equality after ASCII lower-casing `a` (`b` is compared as is).
pub fn lower_eq(a: &str, b: &str) -> (r: bool)
    ensures
        r == (lower_seq(a@) == b@),
{
    let n = a.unicode_len();
    if n != b.unicode_len() {
        assert(lower_seq(a@).len() != b@.len());
        return false;
    }
    let mut i: usize = 0;
    while i < n
        invariant
            i <= n,
            n == a@.len(),
            n == b@.len(),
            forall|k: int| 0 <= k < i ==> lower(a@[k]) == b@[k],
        decreases n - i,
    {
        let c = a.get_char(i);
        let l = if 'A' <= c && c <= 'Z' { ((c as u32) + 32) as u8 as char } else { c };
        assert(l == lower(c));
        if l != b.get_char(i) {
            assert(lower_seq(a@)[i as int] != b@[i as int]);
            return false;
        }
        i = i + 1;
    }
    assert(lower_seq(a@) =~= b@);
    true
}

/// `prefix` is a prefix of `s`.
pub open spec fn has_prefix(s: Seq<char>, prefix: Seq<char>) -> bool {
    prefix.len() <= s.len() && s.subrange(0, prefix.len() as int) == prefix
}

/// Whether `s` starts with `prefix`.
pub fn starts_with(s: &str, prefix: &str) -> (r: bool)
    ensures
        r == has_prefix(s@, prefix@),
{
    let n = s.unicode_len();
    let m = prefix.unicode_len();
    if m > n {
        return false;
    }
    let head = s.substring_char(0, m);
    str_eq(head, prefix)
}

/// Unicode `White_Space` characters (what `str::trim` removes).
pub open spec fn is_ws(c: char) -> bool {
    let u = c as int;
    ||| 9 <= u <= 13
    ||| u == 0x20
    ||| u == 0x85
    ||| u == 0xA0
    ||| u == 0x1680
    ||| 0x2000 <= u <= 0x200A
    ||| u == 0x2028
    ||| u == 0x2029
    ||| u == 0x202F
    ||| u == 0x205F
    ||| u == 0x3000
}

pub(crate) fn ws(c: char) -> (b: bool)
    ensures
        b == is_ws(c),
{
    let u = c as u32;
    (9 <= u && u <= 13) || u == 0x20 || u == 0x85 || u == 0xA0 || u == 0x1680 || (0x2000 <= u
        && u <= 0x200A) || u == 0x2028 || u == 0x2029 || u == 0x202F || u == 0x205F || u == 0x3000
}

/// `s` without leading whitespace.
pub open spec fn trim_start(s: Seq<char>) -> Seq<char>
    decreases s.len(),
{
    if s.len() > 0 && is_ws(s[0]) { trim_start(s.drop_first()) } else { s }
}

/// `s` without trailing whitespace.
pub open spec fn trim_end(s: Seq<char>) -> Seq<char>
    decreases s.len(),
{
    if s.len() > 0 && is_ws(s.last()) { trim_end(s.drop_last()) } else { s }
}

/// `s` without leading and trailing whitespace.
pub open spec fn trim_spec(s: Seq<char>) -> Seq<char> {
    trim_end(trim_start(s))
}

pub(crate) proof fn lemma_trim_start_at(s: Seq<char>, i: int)
    requires
        0 <= i <= s.len(),
        forall|k: int| 0 <= k < i ==> is_ws(#[trigger] s[k]),
        i < s.len() ==> !is_ws(s[i]),
    ensures
        trim_start(s) == s.subrange(i, s.len() as int),
    decreases i,
{
    if i == 0 {
        assert(s.subrange(0, s.len() as int) =~= s);
    } else {
        let t = s.drop_first();
        assert forall|k: int| 0 <= k < i - 1 implies is_ws(#[trigger] t[k]) by {
            assert(t[k] == s[k + 1]);
        }
        lemma_trim_start_at(t, i - 1);
        assert(t.subrange(i - 1, t.len() as int) =~= s.subrange(i, s.len() as int));
    }
}

proof fn lemma_trim_end_at(s: Seq<char>, j: int)
    requires
        0 <= j <= s.len(),
        forall|k: int| j <= k < s.len() ==> is_ws(#[trigger] s[k]),
        j > 0 ==> !is_ws(s[j - 1]),
    ensures
        trim_end(s) == s.subrange(0, j),
    decreases s.len() - j,
{
    if j == s.len() {
        assert(s.subrange(0, j) =~= s);
    } else {
        let t = s.drop_last();
        assert(is_ws(s[s.len() - 1]));
        assert forall|k: int| j <= k < t.len() implies is_ws(#[trigger] t[k]) by {
            assert(t[k] == s[k]);
        }
        lemma_trim_end_at(t, j);
        assert(t.subrange(0, j) =~= s.subrange(0, j));
    }
}

/// `s` with leading and trailing Unicode whitespace removed (`str::trim`).
pub fn trim(s: &str) -> (r: &str)
    ensures
        r@ == trim_spec(s@),
{
    let n = s.unicode_len();
    let mut a: usize = 0;
    while a < n && ws(s.get_char(a))
        invariant
            a <= n,
            n == s@.len(),
            forall|k: int| 0 <= k < a ==> is_ws(#[trigger] s@[k]),
        decreases n - a,
    {
        a = a + 1;
    }
    proof {
        lemma_trim_start_at(s@, a as int);
    }
    let mut b: usize = n;
    while b > a && ws(s.get_char(b - 1))
        invariant
            a <= b <= n,
            n == s@.len(),
            forall|k: int| b <= k < n ==> is_ws(#[trigger] s@[k]),
        decreases b,
    {
        b = b - 1;
    }
    proof {
        let t = s@.subrange(a as int, n as int);
        assert forall|k: int| (b - a) <= k < t.len() implies is_ws(#[trigger] t[k]) by {
            assert(t[k] == s@[a + k]);
        }
        if b > a {
            assert(t[b - a - 1] == s@[b - 1]);
        }
        lemma_trim_end_at(t, b - a);
        assert(t.subrange(0, b - a) =~= s@.subrange(a as int, b as int));
    }
    s.substring_char(a, b)
}

/// Value of a digit in base `radix` (`0-9`, then `a-z` / `A-Z`), if any.
pub open spec fn digit_value(c: char, radix: nat) -> Option<nat> {
    let u = c as int;
    let v: int = if 48 <= u <= 57 { u - 48 }
        else if 97 <= u <= 122 { u - 97 + 10 }
        else if 65 <= u <= 90 { u - 65 + 10 }
        else { 99 };
    if v < radix { Some(v as nat) } else { None }
}

/// All characters of `d` are digits in base `radix`.
pub open spec fn all_digits(d: Seq<char>, radix: nat) -> bool {
    forall|i: int| 0 <= i < d.len() ==> (#[trigger] digit_value(d[i], radix)) is Some
}

/// The number written by the digits `d` (most significant first).
pub open spec fn digits_value(d: Seq<char>, radix: nat) -> nat
    decreases d.len(),
{
    if d.len() == 0 {
        0
    } else {
        digits_value(d.drop_last(), radix) * radix + digit_value(d.last(), radix).unwrap()
    }
}

/// Magnitude parsed by Rust's `from_str_radix` for an unsigned type:
/// an optional `+` then at least one digit (no range check yet).
pub open spec fn parse_unsigned(s: Seq<char>, radix: nat) -> Option<nat> {
    let d = if s.len() > 0 && s[0] == '+' { s.drop_first() } else { s };
    if d.len() > 0 && all_digits(d, radix) { Some(digits_value(d, radix)) } else { None }
}

/// Value parsed by Rust's `from_str_radix` for a signed type: an
/// optional `+` or `-` then at least one digit (no range check yet).
pub open spec fn parse_signed(s: Seq<char>, radix: nat) -> Option<int> {
    if s.len() > 0 && s[0] == '-' {
        let d = s.drop_first();
        if d.len() > 0 && all_digits(d, radix) { Some(-(digits_value(d, radix) as int)) } else { None }
    } else {
        match parse_unsigned(s, radix) {
            Some(v) => Some(v as int),
            None => None,
        }
    }
}

fn digit_of(c: char, radix: u32) -> (r: Option<u32>)
    requires
        2 <= radix <= 36,
    ensures
        r matches Some(v) ==> digit_value(c, radix as nat) == Some(v as nat),
        r is None ==> digit_value(c, radix as nat) is None,
{
    let u = c as u32;
    let v: u32 = if 48 <= u && u <= 57 { u - 48 }
        else if 97 <= u && u <= 122 { u - 97 + 10 }
        else if 65 <= u && u <= 90 { u - 65 + 10 }
        else { 99 };
    if v < radix { Some(v) } else { None }
}

proof fn lemma_digits_value_push(d: Seq<char>, c: char, radix: nat)
    ensures
        digits_value(d.push(c), radix) == digits_value(d, radix) * radix + digit_value(c, radix).unwrap(),
{
    assert(d.push(c).drop_last() =~= d);
}

/// Digits of `s` from index `start` on, as a number not above `limit`;
/// `None` when a character is not a digit, there is no digit, or the
/// number exceeds `limit`.
fn parse_digits(s: &str, start: usize, radix: u32, limit: u64) -> (r: Option<u64>)
    requires
        2 <= radix <= 36,
        start <= s@.len(),
    ensures
        ({
            let d = s@.subrange(start as int, s@.len() as int);
            match r {
                Some(v) => d.len() > 0 && all_digits(d, radix as nat) && v == digits_value(d, radix as nat)
                    && v <= limit,
                None => !(d.len() > 0 && all_digits(d, radix as nat) && digits_value(d, radix as nat) <= limit),
            }
        }),
{
    let n = s.unicode_len();
    if start >= n {
        return None;
    }
    let ghost full = s@.subrange(start as int, n as int);
    let mut acc: u64 = 0;
    let mut i: usize = start;
    while i < n
        invariant
            start <= i <= n,
            n == s@.len(),
            2 <= radix <= 36,
            full == s@.subrange(start as int, n as int),
            all_digits(s@.subrange(start as int, i as int), radix as nat),
            acc as nat == digits_value(s@.subrange(start as int, i as int), radix as nat),
            acc <= limit,
        decreases n - i,
    {
        let c = s.get_char(i);
        let ghost pre = s@.subrange(start as int, i as int);
        assert(s@.subrange(start as int, i + 1) =~= pre.push(c));
        proof {
            lemma_digits_value_push(pre, c, radix as nat);
        }
        match digit_of(c, radix) {
            None => {
                assert(full[i - start] == c);
                assert(!all_digits(full, radix as nat));
                return None;
            },
            Some(dv) => {
                assert(acc as int * radix as int <= 0xFFFF_FFFF_FFFF_FFFF * 36) by (nonlinear_arith)
                    requires acc <= 0xFFFF_FFFF_FFFF_FFFFu64, radix <= 36;
                let big: u128 = acc as u128 * radix as u128 + dv as u128;
                if big > limit as u128 {
                    proof {
                        if all_digits(full, radix as nat) {
                            lemma_digits_prefix_bound(full, (i + 1 - start) as int, radix as nat);
                            assert(full.subrange(0, (i + 1 - start) as int) =~= pre.push(c));
                        }
                    }
                    return None;
                }
                acc = big as u64;
            },
        }
        i = i + 1;
    }
    assert(s@.subrange(start as int, n as int) =~= full);
    Some(acc)
}

proof fn lemma_digits_prefix_bound(d: Seq<char>, k: int, radix: nat)
    requires
        0 <= k <= d.len(),
        radix >= 1,
        all_digits(d, radix),
    ensures
        digits_value(d.subrange(0, k), radix) <= digits_value(d, radix),
    decreases d.len() - k,
{
    if k < d.len() {
        lemma_digits_prefix_bound(d, k + 1, radix);
        let p = d.subrange(0, k + 1);
        assert(p.drop_last() =~= d.subrange(0, k));
        assert(digit_value(d[k], radix) is Some);
        assert(digits_value(p, radix) == digits_value(d.subrange(0, k), radix) * radix + digit_value(
            d[k],
            radix,
        ).unwrap());
        assert(digits_value(d.subrange(0, k), radix) * radix >= digits_value(d.subrange(0, k), radix))
            by (nonlinear_arith)
            requires radix >= 1;
    } else {
        assert(d.subrange(0, k) =~= d);
    }
}

/// `u64::from_str_radix`-style parse with an upper bound `limit` (the
/// type's maximum): `None` exactly when Rust's parse fails.
pub fn parse_uint(s: &str, radix: u32, limit: u64) -> (r: Option<u64>)
    requires
        2 <= radix <= 36,
    ensures
        r matches Some(v) ==> parse_unsigned(s@, radix as nat) == Some(v as nat) && v <= limit,
        r is None ==> !(parse_unsigned(s@, radix as nat) matches Some(v) && v <= limit),
{
    let n = s.unicode_len();
    let start: usize = if n > 0 && s.get_char(0) == '+' { 1 } else { 0 };
    let r = parse_digits(s, start, radix, limit);
    proof {
        let d = if s@.len() > 0 && s@[0] == '+' { s@.drop_first() } else { s@ };
        assert(d =~= s@.subrange(start as int, n as int));
    }
    r
}

/// `i64`-range signed parse (`from_str_radix` for a signed type whose
/// range is `-neg_limit ..= pos_limit`).
pub fn parse_int(s: &str, radix: u32, neg_limit: u64, pos_limit: u64) -> (r: Option<i64>)
    requires
        2 <= radix <= 36,
        neg_limit <= 0x8000_0000_0000_0000,
        pos_limit < 0x8000_0000_0000_0000,
    ensures
        r matches Some(v) ==> parse_signed(s@, radix as nat) == Some(v as int) && -(neg_limit as int) <= v
            <= pos_limit,
        r is None ==> !(parse_signed(s@, radix as nat) matches Some(v) && -(neg_limit as int) <= v
            <= pos_limit),
{
    let n = s.unicode_len();
    if n > 0 && s.get_char(0) == '-' {
        let r = parse_digits(s, 1, radix, neg_limit);
        assert(s@.drop_first() =~= s@.subrange(1, n as int));
        match r {
            Some(m) => {
                if m == 0x8000_0000_0000_0000u64 {
                    Some(i64::MIN)
                } else {
                    Some(-(m as i64))
                }
            },
            None => None,
        }
    } else {
        match parse_uint(s, radix, pos_limit) {
            Some(m) => Some(m as i64),
            None => None,
        }
    }
}

} // verus!
