//! Byte-level text utilities shared by the message decoders.
//!
//! Navigation messages are column-aligned ASCII, so every routine here works
//! on byte strings. A numeric field is kept as its *token*: the trimmed
//! bytes of its fixed-width column, with the FORTRAN exponent marker `D`
//! rewritten to `E`. The grammar of a well-formed token and the exact
//! decimal value it denotes are both specified here.

use vstd::prelude::*;
use vstd::slice::slice_subrange;
use vstd::slice::slice_to_vec;

verus! {

/// Bytes treated as blank when trimming a token: space, horizontal tab,
/// carriage return and line feed.
pub open spec fn is_blank(b: u8) -> bool {
    b == 32 || b == 9 || b == 13 || b == 10
}

/// ASCII decimal digit.
pub open spec fn is_digit(b: u8) -> bool {
    48 <= b && b <= 57
}

/// Index of the first byte satisfying `p`, or the length when none does.
pub open spec fn find_first(s: Seq<u8>, p: spec_fn(u8) -> bool) -> nat
    decreases s.len(),
{
    if s.len() == 0 {
        0
    } else if p(s[0]) {
        0
    } else {
        1 + find_first(s.drop_first(), p)
    }
}

pub proof fn lemma_find_first_range(s: Seq<u8>, p: spec_fn(u8) -> bool)
    ensures
        0 <= find_first(s, p) <= s.len(),
        forall|j: int| 0 <= j < find_first(s, p) ==> !p(s[j]),
        find_first(s, p) < s.len() ==> p(s[find_first(s, p) as int]),
    decreases s.len(),
{
    if s.len() > 0 && !p(s[0]) {
        lemma_find_first_range(s.drop_first(), p);
        assert forall|j: int| 0 <= j < find_first(s, p) implies !p(s[j]) by {
            if j > 0 {
                assert(s.drop_first()[j - 1] == s[j]);
            }
        }
    }
}

/// A scan that saw no hit before `i`, and a hit (or the end) at `i`,
/// has found `find_first`.
pub proof fn lemma_find_first_at(s: Seq<u8>, p: spec_fn(u8) -> bool, i: int)
    requires
        0 <= i <= s.len(),
        forall|j: int| 0 <= j < i ==> !p(s[j]),
        i == s.len() || p(s[i]),
    ensures
        find_first(s, p) == i,
    decreases i,
{
    if i == 0 {
    } else {
        assert(!p(s[0]));
        lemma_find_first_at(s.drop_first(), p, i - 1);
    }
}

/// Leading blanks of a token.
pub open spec fn leading_blanks(s: Seq<u8>) -> int {
    find_first(s, |b: u8| !is_blank(b)) as int
}

/// Trailing blanks of a token.
pub open spec fn trailing_blanks(s: Seq<u8>) -> int {
    find_first(s.reverse(), |b: u8| !is_blank(b)) as int
}

/// The token with its leading and trailing blanks removed.
pub open spec fn trimmed(s: Seq<u8>) -> Seq<u8> {
    if leading_blanks(s) == s.len() {
        Seq::empty()
    } else {
        s.subrange(leading_blanks(s), s.len() - trailing_blanks(s))
    }
}

/// The token with every FORTRAN exponent marker `D` rewritten to the
/// standard marker `E`.
pub open spec fn d_to_e(s: Seq<u8>) -> Seq<u8> {
    s.map_values(|b: u8| if b == 68 { 69u8 } else { b })
}

/// The stored form of a raw field token: trimmed, then `D` -> `E`.
pub open spec fn norm_token(s: Seq<u8>) -> Seq<u8> {
    d_to_e(trimmed(s))
}

/// Trims leading and trailing blanks from a byte string.
pub fn trim(s: &[u8]) -> (r: &[u8])
    ensures
        r@ == trimmed(s@),
{
    let n: usize = s.len();
    let mut a: usize = 0;
    while a < n && (s[a] == 32 || s[a] == 9 || s[a] == 13 || s[a] == 10)
        invariant
            0 <= a <= n == s@.len(),
            forall|j: int| 0 <= j < a ==> is_blank(s@[j]),
        decreases n - a,
    {
        a = a + 1;
    }
    proof {
        lemma_find_first_at(s@, |b: u8| !is_blank(b), a as int);
    }
    if a == n {
        proof {
            assert(s@.subrange(n as int, n as int) =~= Seq::<u8>::empty());
        }
        return slice_subrange(s, n, n);
    }
    let mut b: usize = n;
    while b > a + 1 && (s[b - 1] == 32 || s[b - 1] == 9 || s[b - 1] == 13 || s[b - 1] == 10)
        invariant
            a < b <= n == s@.len(),
            forall|j: int| b <= j < n ==> is_blank(s@[j]),
            !is_blank(s@[a as int]),
        decreases b,
    {
        b = b - 1;
    }
    proof {
        // the byte at b - 1 is not blank: either the scan stopped on it,
        // or it is the byte at a itself
        assert(!is_blank(s@[b - 1]));
        assert forall|j: int| 0 <= j < n - b implies !(!is_blank(s@.reverse()[j])) by {
            assert(s@.reverse()[j] == s@[n - 1 - j]);
        }
        assert(s@.reverse()[n - b] == s@[b - 1]);
        lemma_find_first_at(s@.reverse(), |x: u8| !is_blank(x), n - b);
        assert(trailing_blanks(s@) == n - b);
    }
    slice_subrange(s, a, b)
}

/// Rewrites every `D` to `E`, leaving all other bytes alone.
pub fn replace_d_with_e(s: &[u8]) -> (r: Vec<u8>)
    ensures
        r@ == d_to_e(s@),
{
    let mut out: Vec<u8> = Vec::new();
    let mut i: usize = 0;
    while i < s.len()
        invariant
            0 <= i <= s@.len(),
            out@ == d_to_e(s@.take(i as int)),
        decreases s@.len() - i,
    {
        let c: u8 = s[i];
        if c == 68 {
            out.push(69);
        } else {
            out.push(c);
        }
        i = i + 1;
        proof {
            assert(d_to_e(s@.take(i as int)) =~= d_to_e(s@.take(i - 1)).push(
                if s@[i - 1] == 68 { 69u8 } else { s@[i - 1] },
            ));
        }
    }
    proof {
        assert(s@.take(s@.len() as int) =~= s@);
    }
    out
}

/// Whether every byte of `s` is a decimal digit.
pub open spec fn all_digits(s: Seq<u8>) -> bool {
    forall|i: int| 0 <= i < s.len() ==> is_digit(s[i])
}

/// `s` without one leading `+` or `-`.
pub open spec fn unsigned_part(s: Seq<u8>) -> Seq<u8> {
    if s.len() > 0 && (s[0] == 43 || s[0] == 45) {
        s.drop_first()
    } else {
        s
    }
}

/// Whether `s` carries a leading minus sign.
pub open spec fn is_negative(s: Seq<u8>) -> bool {
    s.len() > 0 && s[0] == 45
}

/// Index of the first exponent marker (`e` or `E`), or the length.
pub open spec fn exp_marker_pos(s: Seq<u8>) -> int {
    find_first(s, |b: u8| b == 101 || b == 69) as int
}

/// Index of the first decimal point, or the length.
pub open spec fn dot_pos(s: Seq<u8>) -> int {
    find_first(s, |b: u8| b == 46) as int
}

/// The digits of an unsigned mantissa: the bytes around its decimal point.
pub open spec fn mantissa_digits(m: Seq<u8>) -> Seq<u8> {
    if dot_pos(m) == m.len() {
        m
    } else {
        m.take(dot_pos(m)) + m.skip(dot_pos(m) + 1)
    }
}

/// How many mantissa digits lie behind the decimal point.
pub open spec fn frac_len(m: Seq<u8>) -> int {
    if dot_pos(m) == m.len() {
        0
    } else {
        m.len() - dot_pos(m) - 1
    }
}

/// An unsigned mantissa: digits with at most one decimal point somewhere
/// among them, and at least one digit.
pub open spec fn is_mantissa(m: Seq<u8>) -> bool {
    all_digits(mantissa_digits(m)) && mantissa_digits(m).len() > 0
}

/// An exponent suffix: an optional sign followed by at least one digit.
pub open spec fn is_exp_suffix(t: Seq<u8>) -> bool {
    all_digits(unsigned_part(t)) && unsigned_part(t).len() > 0
}

/// A well-formed floating-point field token: an optional sign, a mantissa,
/// and an optional exponent part introduced by `e` or `E`.
pub open spec fn is_float_token(s: Seq<u8>) -> bool {
    let b = unsigned_part(s);
    let e = exp_marker_pos(b);
    &&& is_mantissa(b.take(e))
    &&& (e == b.len() || is_exp_suffix(b.skip(e + 1)))
}

/// The value of a digit string read as a decimal integer.
pub open spec fn digits_val(s: Seq<u8>) -> int
    decreases s.len(),
{
    if s.len() == 0 {
        0
    } else {
        digits_val(s.drop_last()) * 10 + (s.last() - 48)
    }
}

/// Ten to the `n`.
pub open spec fn pow10(n: nat) -> int
    decreases n,
{
    if n == 0 {
        1
    } else {
        10 * pow10((n - 1) as nat)
    }
}

/// The integer mantissa of a well-formed token (never negative).
pub open spec fn token_mantissa(s: Seq<u8>) -> int {
    let b = unsigned_part(s);
    digits_val(mantissa_digits(b.take(exp_marker_pos(b))))
}

/// The power of ten that scales the integer mantissa: the written exponent
/// less the number of fraction digits.
pub open spec fn token_scale(s: Seq<u8>) -> int {
    let b = unsigned_part(s);
    let e = exp_marker_pos(b);
    let written = if e == b.len() {
        0
    } else {
        let t = b.skip(e + 1);
        if is_negative(t) {
            -digits_val(unsigned_part(t))
        } else {
            digits_val(unsigned_part(t))
        }
    };
    written - frac_len(b.take(e))
}

pub proof fn lemma_all_digits_concat(a: Seq<u8>, b: Seq<u8>)
    ensures
        all_digits(a + b) <==> (all_digits(a) && all_digits(b)),
{
    if all_digits(a) && all_digits(b) {
        assert forall|i: int| 0 <= i < (a + b).len() implies is_digit((a + b)[i]) by {
            if i < a.len() {
                assert((a + b)[i] == a[i]);
            } else {
                assert((a + b)[i] == b[i - a.len()]);
            }
        }
    }
    if all_digits(a + b) {
        assert forall|i: int| 0 <= i < a.len() implies is_digit(a[i]) by {
            assert(a[i] == (a + b)[i]);
        }
        assert forall|i: int| 0 <= i < b.len() implies is_digit(b[i]) by {
            assert(b[i] == (a + b)[a.len() + i]);
        }
    }
}

/// Whether every byte of `s` is a decimal digit.
pub fn digits_only(s: &[u8]) -> (r: bool)
    ensures
        r == all_digits(s@),
{
    let mut i: usize = 0;
    while i < s.len()
        invariant
            0 <= i <= s@.len(),
            forall|j: int| 0 <= j < i ==> is_digit(s@[j]),
        decreases s@.len() - i,
    {
        let c: u8 = s[i];
        if c < 48 || c > 57 {
            return false;
        }
        i = i + 1;
    }
    true
}

/// Index of the first exponent marker, or the length.
pub fn find_marker(s: &[u8]) -> (i: usize)
    ensures
        i as int == exp_marker_pos(s@),
        0 <= i <= s@.len(),
{
    let mut i: usize = 0;
    while i < s.len() && s[i] != 101 && s[i] != 69
        invariant
            0 <= i <= s@.len(),
            forall|j: int| 0 <= j < i ==> !(s@[j] == 101 || s@[j] == 69),
        decreases s@.len() - i,
    {
        i = i + 1;
    }
    proof {
        lemma_find_first_at(s@, |b: u8| b == 101 || b == 69, i as int);
    }
    i
}

/// Index of the first decimal point, or the length.
pub fn find_dot(s: &[u8]) -> (i: usize)
    ensures
        i as int == dot_pos(s@),
        0 <= i <= s@.len(),
{
    let mut i: usize = 0;
    while i < s.len() && s[i] != 46
        invariant
            0 <= i <= s@.len(),
            forall|j: int| 0 <= j < i ==> !(s@[j] == 46),
        decreases s@.len() - i,
    {
        i = i + 1;
    }
    proof {
        lemma_find_first_at(s@, |b: u8| b == 46, i as int);
    }
    i
}

/// `s` without one leading `+` or `-`, as a slice.
fn strip_sign(s: &[u8]) -> (r: &[u8])
    ensures
        r@ == unsigned_part(s@),
{
    if s.len() > 0 && (s[0] == 43 || s[0] == 45) {
        let r = slice_subrange(s, 1, s.len());
        proof {
            assert(r@ =~= s@.drop_first());
        }
        r
    } else {
        let r = slice_subrange(s, 0, s.len());
        proof {
            assert(r@ =~= s@);
        }
        r
    }
}

/// Whether `s` is a well-formed floating-point field token.
pub fn is_float_text(s: &[u8]) -> (r: bool)
    ensures
        r == is_float_token(s@),
{
    let b = strip_sign(s);
    let e = find_marker(b);
    let m = slice_subrange(b, 0, e);
    proof {
        assert(m@ =~= b@.take(e as int));
    }
    let d = find_dot(m);
    let mant_ok: bool;
    if d == m.len() {
        mant_ok = m.len() > 0 && digits_only(m);
        proof {
            assert(mantissa_digits(m@) == m@);
        }
    } else {
        let ints = slice_subrange(m, 0, d);
        let frac = slice_subrange(m, d + 1, m.len());
        mant_ok = m.len() > 1 && digits_only(ints) && digits_only(frac);
        proof {
            assert(ints@ =~= m@.take(d as int));
            assert(frac@ =~= m@.skip(d + 1));
            lemma_all_digits_concat(ints@, frac@);
            assert(mantissa_digits(m@) == ints@ + frac@);
            assert(mantissa_digits(m@).len() == m@.len() - 1);
        }
    }
    let exp_ok: bool;
    if e == b.len() {
        exp_ok = true;
    } else {
        let t = slice_subrange(b, e + 1, b.len());
        proof {
            assert(t@ =~= b@.skip(e + 1));
        }
        let u = strip_sign(t);
        exp_ok = u.len() > 0 && digits_only(u);
    }
    mant_ok && exp_ok
}


pub proof fn lemma_pow10_19()
    ensures
        pow10(19) == 10_000_000_000_000_000_000,
{
    reveal_with_fuel(pow10, 20);
}

pub proof fn lemma_pow10_10()
    ensures
        pow10(10) == 10_000_000_000,
{
    reveal_with_fuel(pow10, 11);
}

pub proof fn lemma_pow10_28()
    ensures
        pow10(28) == 10_000_000_000_000_000_000_000_000_000,
{
    reveal_with_fuel(pow10, 29);
}

pub proof fn lemma_pow10_add(a: nat, b: nat)
    ensures
        pow10(a + b) == pow10(a) * pow10(b),
    decreases a,
{
    if a > 0 {
        lemma_pow10_add((a - 1) as nat, b);
        assert(pow10(a + b) == 10 * pow10((a - 1 + b) as nat));
        assert(10 * (pow10((a - 1) as nat) * pow10(b)) == (10 * pow10((a - 1) as nat)) * pow10(
            b,
        )) by (nonlinear_arith);
    }
}

pub proof fn lemma_pow10_pos(n: nat)
    ensures
        pow10(n) >= 1,
    decreases n,
{
    if n > 0 {
        lemma_pow10_pos((n - 1) as nat);
    }
}

pub proof fn lemma_pow10_mono(a: nat, b: nat)
    requires
        a <= b,
    ensures
        pow10(a) <= pow10(b),
    decreases b,
{
    if a < b {
        lemma_pow10_mono(a, (b - 1) as nat);
        lemma_pow10_pos((b - 1) as nat);
    }
}

pub proof fn lemma_digits_val_bound(s: Seq<u8>)
    requires
        all_digits(s),
    ensures
        0 <= digits_val(s) < pow10(s.len() as nat),
    decreases s.len(),
{
    if s.len() > 0 {
        assert(all_digits(s.drop_last())) by {
            assert(forall|i: int| 0 <= i < s.len() - 1 ==> s.drop_last()[i] == s[i]);
        }
        lemma_digits_val_bound(s.drop_last());
        assert(is_digit(s.last()));
    }
}

/// Ten to the `n`, executable.
pub fn pow10_u64(n: u64) -> (r: u64)
    requires
        n <= 19,
    ensures
        r as int == pow10(n as nat),
{
    proof {
        lemma_pow10_19();
    }
    let mut r: u64 = 1;
    let mut i: u64 = 0;
    while i < n
        invariant
            0 <= i <= n <= 19,
            r as int == pow10(i as nat),
        decreases n - i,
    {
        proof {
            lemma_pow10_19();
            lemma_pow10_mono((i + 1) as nat, 19);
            lemma_pow10_pos(i as nat);
            assert(pow10((i + 1) as nat) == 10 * pow10(i as nat));
        }
        r = r * 10;
        i = i + 1;
    }
    r
}

/// Reads a digit string as a decimal integer.
pub fn digits_to_u64(s: &[u8]) -> (r: u64)
    requires
        all_digits(s@),
        s@.len() <= 19,
    ensures
        r as int == digits_val(s@),
{
    proof {
        lemma_pow10_19();
    }
    let mut acc: u64 = 0;
    let mut i: usize = 0;
    while i < s.len()
        invariant
            0 <= i <= s@.len() <= 19,
            all_digits(s@),
            acc as int == digits_val(s@.take(i as int)),
            (acc as int) < pow10(i as nat),
        decreases s@.len() - i,
    {
        proof {
            assert(s@.take(i + 1).drop_last() =~= s@.take(i as int));
            assert(s@.take(i + 1).last() == s@[i as int]);
            assert(all_digits(s@.take(i + 1))) by {
                assert(forall|j: int| 0 <= j < i + 1 ==> s@.take(i + 1)[j] == s@[j]);
            }
            lemma_digits_val_bound(s@.take(i + 1));
            lemma_pow10_mono((i + 1) as nat, 19);
            lemma_pow10_19();
            assert(is_digit(s@[i as int]));
            assert(pow10((i + 1) as nat) == 10 * pow10(i as nat));
        }
        acc = acc * 10 + (s[i] - 48) as u64;
        i = i + 1;
    }
    proof {
        assert(s@.take(s@.len() as int) =~= s@);
    }
    acc
}

/// `m * 10^scale`, rounded to the nearest integer, half away from zero
/// (`m` is never negative here).
pub open spec fn scaled_round(m: int, scale: int) -> int {
    if scale >= 0 {
        m * pow10(scale as nat)
    } else {
        let p = pow10((-scale) as nat);
        m / p + if 2 * (m % p) >= p {
            1int
        } else {
            0int
        }
    }
}

/// `m * 10^scale`, truncated toward zero (`m` is never negative here).
pub open spec fn scaled_trunc(m: int, scale: int) -> int {
    if scale >= 0 {
        m * pow10(scale as nat)
    } else {
        m / pow10((-scale) as nat)
    }
}

/// Saturating conversion of a non-negative integer to `u32`.
pub open spec fn clamp_u32(v: int) -> u32 {
    if v > 0xFFFF_FFFF {
        0xFFFF_FFFFu32
    } else if v < 0 {
        0u32
    } else {
        v as u32
    }
}

/// The token's value rounded to the nearest whole number, half away from
/// zero, then saturated into `u32` (negative values give 0).
pub open spec fn token_round_u32(s: Seq<u8>) -> u32 {
    if is_negative(s) {
        0u32
    } else {
        clamp_u32(scaled_round(token_mantissa(s), token_scale(s)))
    }
}

/// The token's value truncated toward zero, then saturated into `u32`
/// (negative values give 0).
pub open spec fn token_trunc_u32(s: Seq<u8>) -> u32 {
    if is_negative(s) {
        0u32
    } else {
        clamp_u32(scaled_trunc(token_mantissa(s), token_scale(s)))
    }
}

/// Converts a well-formed token to `u32`, rounding half away from zero when
/// `round` is set and truncating toward zero otherwise, exactly as the
/// decimal notation reads.
#[verifier::rlimit(60)]
pub fn token_to_u32(s: &[u8], round: bool) -> (r: u32)
    requires
        is_float_token(s@),
        s@.len() <= 19,
    ensures
        round ==> r == token_round_u32(s@),
        !round ==> r == token_trunc_u32(s@),
{
    if s.len() > 0 && s[0] == 45 {
        return 0;
    }
    let b = strip_sign(s);
    let e = find_marker(b);
    let m = slice_subrange(b, 0, e);
    proof {
        assert(m@ =~= b@.take(e as int));
    }
    let d = find_dot(m);
    let mut dig: Vec<u8>;
    let fl: usize;
    if d == m.len() {
        dig = slice_to_vec(m);
        fl = 0;
        proof {
            assert(dig@ == mantissa_digits(m@));
        }
    } else {
        dig = slice_to_vec(slice_subrange(m, 0, d));
        let frac = slice_subrange(m, d + 1, m.len());
        let mut k: usize = 0;
        while k < frac.len()
            invariant
                0 <= k <= frac@.len(),
                dig@ == m@.take(d as int) + frac@.take(k as int),
                frac@ =~= m@.skip(d + 1),
            decreases frac@.len() - k,
        {
            dig.push(frac[k]);
            k = k + 1;
            proof {
                assert(m@.take(d as int) + frac@.take(k as int) =~= (m@.take(d as int)
                    + frac@.take(k - 1)).push(frac@[k - 1]));
            }
        }
        fl = m.len() - d - 1;
        proof {
            assert(frac@.take(frac@.len() as int) =~= frac@);
            assert(dig@ == mantissa_digits(m@));
        }
    }
    proof {
        assert(all_digits(dig@) && dig@.len() > 0);
        lemma_digits_val_bound(dig@);
        lemma_pow10_mono(dig@.len() as nat, 19);
        lemma_pow10_19();
    }
    let mval: u64 = digits_to_u64(dig.as_slice());
    let exp_neg: bool;
    let exp_mag: u64;
    if e < b.len() {
        let t = slice_subrange(b, e + 1, b.len());
        proof {
            assert(t@ =~= b@.skip(e + 1));
        }
        exp_neg = t.len() > 0 && t[0] == 45;
        let u = strip_sign(t);
        exp_mag = digits_to_u64(u);
    } else {
        exp_neg = false;
        exp_mag = 0;
    }
    let scale: i128 = (if exp_neg {
        -(exp_mag as i128)
    } else {
        exp_mag as i128
    }) - (fl as i128);
    proof {
        assert(mval as int == token_mantissa(s@));
        assert(scale as int == token_scale(s@));
    }
    if mval == 0 {
        proof {
            assert(scaled_round(0, scale as int) == 0 && scaled_trunc(0, scale as int) == 0) by {
                if scale >= 0 {
                    assert(0 * pow10(scale as nat) == 0);
                } else {
                    let p = pow10((-scale) as nat);
                    lemma_pow10_pos((-scale) as nat);
                    vstd::arithmetic::div_mod::lemma_basic_div(0, p);
                    vstd::arithmetic::div_mod::lemma_small_mod(0, p as nat);
                    assert(0int / p == 0);
                    assert(0int % p == 0);
                }
            }
        }
        return 0;
    }
    if scale >= 10 {
        proof {
            lemma_pow10_mono(10, scale as nat);
            lemma_pow10_10();
            assert(mval as int * pow10(scale as nat) >= pow10(scale as nat)) by (nonlinear_arith)
                requires
                    mval >= 1,
                    pow10(scale as nat) >= 0,
            ;
        }
        return 0xFFFF_FFFF;
    }
    if scale >= 0 {
        let p = pow10_u64(scale as u64);
        proof {
            lemma_pow10_28();
            lemma_pow10_add(19, 9);
            lemma_pow10_mono(scale as nat, 9);
            lemma_pow10_pos(scale as nat);
            assert((mval as int) * (p as int) < pow10(19) * pow10(9)) by (nonlinear_arith)
                requires
                    0 <= (mval as int) < pow10(19),
                    0 < (p as int) <= pow10(9),
            ;
        }
        let v: u128 = (mval as u128) * (p as u128);
        proof {
            assert(mval as int * p as int == v as int);
        }
        if v > 0xFFFF_FFFF {
            0xFFFF_FFFF
        } else {
            v as u32
        }
    } else {
        let neg_scale: i128 = -scale;
        if neg_scale >= 20 {
            proof {
                lemma_pow10_mono(20, neg_scale as nat);
                assert(pow10(20) == 10 * pow10(19));
                let p = pow10(neg_scale as nat);
                assert((mval as int) < p);
                vstd::arithmetic::div_mod::lemma_basic_div(mval as int, p);
                vstd::arithmetic::div_mod::lemma_small_mod(mval as nat, p as nat);
                assert(2 * (mval as int % p) < p);
            }
            return 0;
        }
        let p = pow10_u64(neg_scale as u64);
        proof {
            lemma_pow10_pos(neg_scale as nat);
        }
        let q: u64 = mval / p;
        let rem: u64 = mval % p;
        let up: bool = round && (2 as u128) * (rem as u128) >= (p as u128);
        let v: u64 = q + if up {
            1
        } else {
            0
        };
        if v > 0xFFFF_FFFF {
            0xFFFF_FFFF
        } else {
            v as u32
        }
    }
}


/// The blank-separated tokens of `s`, in order.
pub open spec fn blank_split(s: Seq<u8>) -> Seq<Seq<u8>>
    decreases s.len(),
    via blank_split_decreases
{
    if s.len() == 0 {
        Seq::empty()
    } else if is_blank(s[0]) {
        blank_split(s.drop_first())
    } else {
        let k = find_first(s, |b: u8| is_blank(b));
        seq![s.take(k as int)] + blank_split(s.skip(k as int))
    }
}

#[via_fn]
proof fn blank_split_decreases(s: Seq<u8>) {
    if s.len() > 0 && !is_blank(s[0]) {
        lemma_find_first_range(s, |b: u8| is_blank(b));
        if find_first(s, |b: u8| is_blank(b)) == 0 {
            assert(is_blank(s[0]));
        }
    }
}

/// Splits `s` into its blank-separated tokens.
pub fn split_blanks(s: &[u8]) -> (r: Vec<Vec<u8>>)
    ensures
        r@.map_values(|t: Vec<u8>| t@) == blank_split(s@),
{
    let mut out: Vec<Vec<u8>> = Vec::new();
    let mut i: usize = 0;
    proof {
        assert(Seq::<Vec<u8>>::empty().map_values(|t: Vec<u8>| t@) =~= Seq::<Seq<u8>>::empty());
        assert(s@.skip(0) =~= s@);
        assert(Seq::<Seq<u8>>::empty() + blank_split(s@) =~= blank_split(s@));
    }
    while i < s.len()
        invariant
            0 <= i <= s@.len(),
            blank_split(s@) == out@.map_values(|t: Vec<u8>| t@) + blank_split(s@.skip(i as int)),
        decreases s@.len() - i,
    {
        let c: u8 = s[i];
        if c == 32 || c == 9 || c == 13 || c == 10 {
            proof {
                assert(s@.skip(i as int).drop_first() =~= s@.skip(i + 1));
            }
            i = i + 1;
        } else {
            let start: usize = i;
            let mut j: usize = i + 1;
            while j < s.len() && s[j] != 32 && s[j] != 9 && s[j] != 13 && s[j] != 10
                invariant
                    start < j <= s@.len(),
                    forall|q: int| start <= q < j ==> !is_blank(s@[q]),
                decreases s@.len() - j,
            {
                j = j + 1;
            }
            let tok: Vec<u8> = slice_to_vec(slice_subrange(s, start, j));
            proof {
                let ghost sub = s@.skip(start as int);
                assert forall|q: int| 0 <= q < (j - start) implies !is_blank(sub[q]) by {
                    assert(sub[q] == s@[start + q]);
                }
                if j < s@.len() {
                    assert(sub[j - start] == s@[j as int]);
                }
                lemma_find_first_at(sub, |b: u8| is_blank(b), j - start);
                assert(sub.take(j - start) =~= s@.subrange(start as int, j as int));
                assert(sub.skip(j - start) =~= s@.skip(j as int));
                assert(blank_split(sub) == seq![tok@] + blank_split(s@.skip(j as int)));
                let ghost f = |t: Vec<u8>| t@;
                assert(out@.push(tok).map_values(f) =~= out@.map_values(f).push(tok@));
                assert(out@.map_values(f) + (seq![tok@] + blank_split(s@.skip(j as int))) =~= (
                out@.map_values(f).push(tok@)) + blank_split(s@.skip(j as int)));
            }
            out.push(tok);
            i = j;
        }
    }
    proof {
        assert(s@.skip(s@.len() as int) =~= Seq::<u8>::empty());
        assert(out@.map_values(|t: Vec<u8>| t@) + Seq::<Seq<u8>>::empty() =~= out@.map_values(
            |t: Vec<u8>| t@,
        ));
    }
    out
}


/// Whether two byte strings are equal.
pub fn bytes_eq(a: &[u8], b: &[u8]) -> (r: bool)
    ensures
        r == (a@ == b@),
{
    if a.len() != b.len() {
        return false;
    }
    let mut i: usize = 0;
    while i < a.len()
        invariant
            0 <= i <= a@.len() == b@.len(),
            forall|j: int| 0 <= j < i ==> a@[j] == b@[j],
        decreases a@.len() - i,
    {
        if a[i] != b[i] {
            return false;
        }
        i = i + 1;
    }
    proof {
        assert(a@ =~= b@);
    }
    true
}

} // verus!


