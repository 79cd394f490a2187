//! Text helpers: decimal rendering, digit grouping, ASCII case folding and
//! byte-to-text decoding.

use vstd::prelude::*;

verus! {

/// The character of decimal digit `d`.
pub open spec fn digit_char(d: nat) -> char {
    (48 + d) as char
}

/// Decimal representation of `n`, most significant digit first, no leading zeros.
pub open spec fn decimal(n: nat) -> Seq<char>
    decreases n,
{
    if n < 10 {
        seq![digit_char(n)]
    } else {
        decimal(n / 10).push(digit_char(n % 10))
    }
}

/// `d` with a `,` inserted before every group of three digits counted from the right.
pub open spec fn group_thousands(d: Seq<char>) -> Seq<char>
    decreases d.len(),
{
    if d.len() <= 3 {
        d
    } else {
        group_thousands(d.subrange(0, d.len() - 3)) + seq![','] + d.subrange(d.len() - 3, d.len() as int)
    }
}

/// ASCII letters `A`..`Z` mapped to lower case; every other character unchanged.
pub open spec fn ascii_lower(c: char) -> char {
    if 'A' <= c && c <= 'Z' {
        ((c as u32) + 32) as char
    } else {
        c
    }
}

/// `s` with its ASCII letters in lower case.
pub open spec fn lower_ascii(s: Seq<char>) -> Seq<char> {
    s.map_values(|c: char| ascii_lower(c))
}

/// Text of `bytes` decoded as UTF-8, each invalid sequence replaced by U+FFFD.
pub uninterp spec fn lossy_text(bytes: Seq<u8>) -> Seq<char>;

/// `String::from_utf8_lossy(bytes).into_owned()`: the bytes decoded as UTF-8,
/// each invalid sequence replaced by the replacement character. The decoding
/// is named, not stated; of it the contract says only what the standard
/// library documents plainly: valid ASCII bytes decode to the same characters.
#[verifier::external_body]
pub(crate) fn decode_lossy(bytes: &[u8]) -> (s: String)
    ensures
        s@ == lossy_text(bytes@),
        (forall|i: int| 0 <= i < bytes@.len() ==> bytes@[i] < 128) ==> s@ == bytes@.map_values(
            |b: u8| b as char,
        ),
{
    String::from_utf8_lossy(bytes).into_owned()
}

/// `String::push`: appends `c` to `s`.
#[verifier::external_body]
pub(crate) fn push_char(s: &mut String, c: char)
    ensures
        final(s)@ == old(s)@.push(c),
{
    s.push(c)
}

/// The character of a decimal digit.
pub fn digit(d: u8) -> (c: char)
    requires
        d < 10,
    ensures
        c == digit_char(d as nat),
{
    (48u8 + d) as char
}

/// The decimal digits of `n`, most significant first.
pub fn decimal_digits(n: u64) -> (v: Vec<char>)
    ensures
        v@ == decimal(n as nat),
    decreases n,
{
    if n < 10 {
        let mut v: Vec<char> = Vec::new();
        v.push(digit(n as u8));
        v
    } else {
        let mut v = decimal_digits(n / 10);
        v.push(digit((n % 10) as u8));
        v
    }
}

/// Append the characters of `cs` to `s`.
pub fn push_chars(s: &mut String, cs: &Vec<char>)
    ensures
        final(s)@ == old(s)@ + cs@,
{
    let mut i: usize = 0;
    while i < cs.len()
        invariant
            i <= cs.len(),
            s@ == old(s)@ + cs@.subrange(0, i as int),
        decreases cs.len() - i,
    {
        push_char(s, cs[i]);
        proof {
            assert(cs@.subrange(0, i + 1) == cs@.subrange(0, i as int).push(cs@[i as int]));
        }
        i = i + 1;
    }
    proof {
        assert(cs@.subrange(0, cs.len() as int) == cs@);
    }
}

/// Decimal representation of `n`.
pub fn decimal_string(n: u64) -> (s: String)
    ensures
        s@ == decimal(n as nat),
{
    let digits = decimal_digits(n);
    let mut s = String::new();
    push_chars(&mut s, &digits);
    s
}

/// The first `i` characters of `d`, each preceded by a `,` when it starts a
/// group of three digits counted from the right (but not at the very front).
pub open spec fn grouped_prefix(d: Seq<char>, i: int) -> Seq<char>
    decreases i,
{
    if i <= 0 {
        seq![]
    } else {
        let before = grouped_prefix(d, i - 1);
        let sep = if i - 1 > 0 && (d.len() - (i - 1)) % 3 == 0 { seq![','] } else { seq![] };
        before + sep + seq![d[i - 1]]
    }
}

proof fn lemma_grouped_prefix_take(d: Seq<char>, m: int, i: int)
    requires
        0 <= i <= m <= d.len(),
        (d.len() - m) % 3 == 0,
    ensures
        grouped_prefix(d, i) == grouped_prefix(d.subrange(0, m), i),
    decreases i,
{
    if i > 0 {
        lemma_grouped_prefix_take(d, m, i - 1);
        let a = d.subrange(0, m);
        assert((d.len() - (i - 1)) % 3 == (a.len() - (i - 1)) % 3);
    }
}

proof fn lemma_grouped_prefix_all(d: Seq<char>)
    ensures
        grouped_prefix(d, d.len() as int) == group_thousands(d),
    decreases d.len(),
{
    let n = d.len() as int;
    if n <= 3 {
        assert(grouped_prefix(d, 0) == Seq::<char>::empty());
        if n >= 1 {
            assert(grouped_prefix(d, 1) == seq![d[0]]);
        }
        if n >= 2 {
            assert(grouped_prefix(d, 2) == seq![d[0], d[1]]);
        }
        if n >= 3 {
            assert(grouped_prefix(d, 3) == seq![d[0], d[1], d[2]]);
        }
        if n == 0 {
            assert(d == Seq::<char>::empty());
        }
        assert(grouped_prefix(d, n) == d);
    } else {
        let a = d.subrange(0, n - 3);
        lemma_grouped_prefix_take(d, n - 3, n - 3);
        lemma_grouped_prefix_all(a);
        assert(a.len() == n - 3);
        let g = grouped_prefix(d, n - 3);
        assert(grouped_prefix(d, n - 2) == g + seq![','] + seq![d[n - 3]]);
        assert(grouped_prefix(d, n - 1) == g + seq![','] + seq![d[n - 3]] + seq![d[n - 2]]);
        assert(grouped_prefix(d, n) == g + seq![','] + seq![d[n - 3]] + seq![d[n - 2]] + seq![d[n - 1]]);
        assert(d.subrange(n - 3, n) == seq![d[n - 3], d[n - 2], d[n - 1]]);
        assert(grouped_prefix(d, n) == group_thousands(a) + seq![','] + d.subrange(n - 3, n));
    }
}

/// Row count with thousands separators, e.g. `1,234,567`.
pub fn format_count(n: u64) -> (s: String)
    ensures
        s@ == group_thousands(decimal(n as nat)),
{
    let digits = decimal_digits(n);
    let len = digits.len();
    let mut out = String::new();
    let mut i: usize = 0;
    while i < len
        invariant
            len == digits.len(),
            i <= len,
            out@ == grouped_prefix(digits@, i as int),
        decreases len - i,
    {
        if i > 0 && (len - i) % 3 == 0 {
            push_char(&mut out, ',');
        }
        push_char(&mut out, digits[i]);
        proof {
            let before = grouped_prefix(digits@, i as int);
            if i > 0 && (len - i) % 3 == 0 {
                assert(out@ == before + seq![','] + seq![digits@[i as int]]);
            } else {
                assert(out@ == before + Seq::<char>::empty() + seq![digits@[i as int]]);
            }
        }
        i = i + 1;
    }
    proof {
        lemma_grouped_prefix_all(digits@);
    }
    out
}

/// `1024` raised to `k`.
pub open spec fn kib_pow(k: nat) -> nat
    decreases k,
{
    if k == 0 {
        1
    } else {
        1024 * kib_pow((k - 1) as nat)
    }
}

/// Index into B, KB, MB, GB, TB, PB of the unit a byte size is shown in: the
/// largest `u <= 5` with `1024^u <= n` (0 when `n < 1024`).
pub fn byte_unit(n: u64) -> (u: usize)
    ensures
        u <= 5,
        u == 0 || kib_pow(u as nat) <= n,
        u == 5 || n < kib_pow((u + 1) as nat),
{
    let mut v: u64 = n;
    let mut u: usize = 0;
    proof {
        assert(kib_pow(0) == 1);
        assert(n as int / 1 == n as int);
    }
    while v >= 1024 && u < 5
        invariant
            u <= 5,
            v as int == n as int / kib_pow(u as nat) as int,
            kib_pow(u as nat) > 0,
            u > 0 ==> v >= 1,
        decreases 5 - u,
    {
        proof {
            vstd::arithmetic::div_mod::lemma_div_denominator(n as int, kib_pow(u as nat) as int, 1024);
            assert(kib_pow((u + 1) as nat) == kib_pow(u as nat) * 1024);
        }
        v = v / 1024;
        u = u + 1;
    }
    proof {
        let p = kib_pow(u as nat) as int;
        vstd::arithmetic::div_mod::lemma_fundamental_div_mod(n as int, p);
        let ni = n as int;
        let r = ni % p;
        assert(u == 0 || p <= ni) by (nonlinear_arith)
            requires ni == p * v + r, v >= 1 || u == 0, r >= 0, p > 0;
        assert(kib_pow((u + 1) as nat) == 1024 * kib_pow(u as nat));
        assert(u == 5 || ni < kib_pow((u + 1) as nat)) by (nonlinear_arith)
            requires ni == p * v + r, u == 5 || v < 1024, r < p, kib_pow((u + 1) as nat) == 1024 * p;
    }
    u
}

} // verus!
