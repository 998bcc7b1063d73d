//! Size normalization: "12.3 MiB" to an exact byte count.
//!
//! A size string is `"<number> <unit>"` with a single space separator.  The
//! numeric portion is an unsigned decimal with an optional fraction; the
//! recognized units `KiB`, `MiB` and `GiB` (case-insensitive) scale it by a
//! power of 1024, and any other unit leaves the value as it stands — a
//! deliberate lenient fallback.  The scaled value is truncated toward zero.
//! The arithmetic is exact: no rounding happens before truncation.
//!
//! Inputs outside this shape are `MalformedSize`: a missing separator, a
//! sign, an exponent, a second dot, a non-digit, no digit at all, more than
//! 19 significant digits, or a result over `u64::MAX`.

use vstd::prelude::*;
use vstd::string::StringSliceAdditionalSpecFns;

use crate::scan::{find_byte, find_byte_spec, lemma_find_byte_first};
use crate::types::Error;

verus! {

pub open spec fn pow10(n: nat) -> nat
    decreases n,
{
    if n == 0 {
        1
    } else {
        10 * pow10((n - 1) as nat)
    }
}

pub open spec fn is_digit(b: u8) -> bool {
    48 <= b && b <= 57
}

pub open spec fn all_digits(s: Seq<u8>) -> bool {
    forall|i: int| 0 <= i < s.len() ==> is_digit(s[i])
}

pub open spec fn digit_val(b: u8) -> nat {
    (b - 48) as nat
}

/// The value of a digit string read as a decimal number.
pub open spec fn digits_val(s: Seq<u8>) -> nat
    decreases s.len(),
{
    if s.len() == 0 {
        0
    } else {
        digits_val(s.drop_last()) * 10 + digit_val(s.last())
    }
}

/// The numeric portion split at its first dot: integer digits, fraction digits.
pub open spec fn num_split(num: Seq<u8>) -> (Seq<u8>, Seq<u8>) {
    match find_byte_spec(num, 46, 0) {
        None => (num, Seq::<u8>::empty()),
        Some(d) => (num.take(d), num.skip(d + 1)),
    }
}

/// A well-formed numeric portion: digits around at most one dot, at least
/// one digit, and at most 19 significant digits so the mantissa is a `u64`.
pub open spec fn num_wf(num: Seq<u8>) -> bool {
    let (a, b) = num_split(num);
    all_digits(a) && all_digits(b) && a.len() + b.len() >= 1 && a.len() + b.len() <= 19
}

/// All digits of the numeric portion read as one integer.
pub open spec fn mantissa(num: Seq<u8>) -> nat {
    let (a, b) = num_split(num);
    digits_val(a + b)
}

/// How many of the digits stand after the dot.
pub open spec fn frac_len(num: Seq<u8>) -> nat {
    num_split(num).1.len()
}

pub open spec fn lower_byte(b: u8) -> u8 {
    if 65 <= b && b <= 90 {
        (b + 32) as u8
    } else {
        b
    }
}

/// ASCII-case-insensitive equality of byte strings.
pub open spec fn ieq(a: Seq<u8>, b: Seq<u8>) -> bool {
    a.len() == b.len() && forall|i: int| 0 <= i < a.len() ==> lower_byte(a[i]) == lower_byte(b[i])
}

/// The multiplier of a unit token; an unrecognized unit multiplies by 1.
pub open spec fn unit_mult(u: Seq<u8>) -> nat {
    if ieq(u, "KiB".spec_bytes()) {
        1024
    } else if ieq(u, "MiB".spec_bytes()) {
        1048576
    } else if ieq(u, "GiB".spec_bytes()) {
        1073741824
    } else {
        1
    }
}

/// The exact byte count: mantissa times multiplier, truncated at the
/// fraction's power of ten.
pub open spec fn size_value(num: Seq<u8>, unit: Seq<u8>) -> nat {
    mantissa(num) * unit_mult(unit) / pow10(frac_len(num))
}

/// What `parse_size` computes from the raw bytes of a size string:
/// `None` where the string is not `"<well-formed number> <unit>"`.
pub open spec fn size_result(s: Seq<u8>) -> Option<nat> {
    match find_byte_spec(s, 32, 0) {
        None => None,
        Some(sp) => {
            let num = s.take(sp);
            let unit = s.skip(sp + 1);
            if num_wf(num) {
                Some(size_value(num, unit))
            } else {
                None
            }
        },
    }
}

pub proof fn lemma_pow10_pos(n: nat)
    ensures
        pow10(n) >= 1,
    decreases n,
{
    if n > 0 {
        lemma_pow10_pos((n - 1) as nat);
    }
}

pub proof fn lemma_pow10_mono(m: nat, n: nat)
    requires
        m <= n,
    ensures
        pow10(m) <= pow10(n),
    decreases n,
{
    if m < n {
        lemma_pow10_mono(m, (n - 1) as nat);
    }
}

pub proof fn lemma_pow10_19()
    ensures
        pow10(19) == 10_000_000_000_000_000_000,
{
    reveal_with_fuel(pow10, 20);
}

/// A digit string of length `l` is worth less than `10^l`.
pub proof fn lemma_digits_val_bound(s: Seq<u8>)
    requires
        all_digits(s),
    ensures
        digits_val(s) < pow10(s.len()),
    decreases s.len(),
{
    if s.len() > 0 {
        assert(all_digits(s.drop_last()));
        lemma_digits_val_bound(s.drop_last());
        assert(digit_val(s.last()) <= 9);
    }
}

fn digits_ok(s: &[u8]) -> (r: bool)
    ensures
        r == all_digits(s@),
{
    let s_len = s.len();
    let mut i: usize = 0;
    while i < s_len
        invariant
            i <= s@.len(),
            s_len == s@.len(),
            forall|j: int| 0 <= j < i ==> is_digit(s@[j]),
        decreases s@.len() - i,
    {
        if s[i] < 48 || s[i] > 57 {
            return false;
        }
        i += 1;
    }
    true
}

fn digits_to_val(s: &[u8]) -> (v: u64)
    requires
        all_digits(s@),
        s@.len() <= 19,
    ensures
        v as nat == digits_val(s@),
{
    let s_len = s.len();
    let mut acc: u64 = 0;
    let mut i: usize = 0;
    while i < s_len
        invariant
            i <= s@.len(),
            s_len == s@.len(),
            s@.len() <= 19,
            all_digits(s@),
            acc as nat == digits_val(s@.take(i as int)),
            (acc as nat) < pow10(i as nat),
        decreases s@.len() - i,
    {
        proof {
            lemma_pow10_mono(i as nat + 1, 19);
            lemma_pow10_19();
            assert(s@.take(i as int + 1).drop_last() =~= s@.take(i as int));
            assert(s@.take(i as int + 1).last() == s@[i as int]);
        }
        let d = s[i] - 48;
        acc = acc * 10 + d as u64;
        i += 1;
    }
    proof {
        assert(s@.take(s@.len() as int) =~= s@);
    }
    acc
}

fn pow10_exec(n: usize) -> (r: u64)
    requires
        n <= 19,
    ensures
        r as nat == pow10(n as nat),
{
    let mut p: u64 = 1;
    let mut i: usize = 0;
    while i < n
        invariant
            i <= n,
            n <= 19,
            p as nat == pow10(i as nat),
        decreases n - i,
    {
        proof {
            lemma_pow10_mono(i as nat + 1, 19);
            lemma_pow10_19();
        }
        p = p * 10;
        i += 1;
    }
    p
}

fn ieq_bytes(a: &[u8], b: &[u8]) -> (r: bool)
    ensures
        r == ieq(a@, b@),
{
    if a.len() != b.len() {
        return false;
    }
    let a_len = a.len();
    let mut i: usize = 0;
    while i < a_len
        invariant
            i <= a@.len(),
            a_len == a@.len(),
            a@.len() == b@.len(),
            forall|j: int| 0 <= j < i ==> lower_byte(a@[j]) == lower_byte(b@[j]),
        decreases a@.len() - i,
    {
        let ca = a[i];
        let cb = b[i];
        let la = if 65 <= ca && ca <= 90 {
            ca + 32
        } else {
            ca
        };
        let lb = if 65 <= cb && cb <= 90 {
            cb + 32
        } else {
            cb
        };
        if la != lb {
            return false;
        }
        i += 1;
    }
    true
}

fn unit_multiplier(u: &[u8]) -> (m: u64)
    ensures
        m as nat == unit_mult(u@),
{
    if ieq_bytes(u, "KiB".as_bytes()) {
        1024
    } else if ieq_bytes(u, "MiB".as_bytes()) {
        1048576
    } else if ieq_bytes(u, "GiB".as_bytes()) {
        1073741824
    } else {
        1
    }
}

/// Normalize the raw bytes of a size string to an exact byte count.
///
/// Returns `Ok(v)` exactly where the bytes are a well-formed
/// `"<number> <unit>"` whose truncated, scaled value `v` fits a `u64`, and
/// `MalformedSize` on every other input.
pub fn parse_size_bytes(b: &[u8]) -> (r: Result<u64, Error>)
    ensures
        ({
            let sr = size_result(b@);
            match r {
                Ok(v) => sr == Some(v as nat),
                Err(e) => e == Error::MalformedSize && match sr {
                    None => true,
                    Some(n) => n > u64::MAX,
                },
            }
        }),
{
    let b_len = b.len();
    let sp = match find_byte(b, 32, 0) {
        None => {
            return Err(Error::MalformedSize);
        },
        Some(i) => i,
    };
    let num: &[u8] = &b[0..sp];
    let unit: &[u8] = &b[sp + 1..b_len];
    proof {
        assert(num@ =~= b@.take(sp as int));
        assert(unit@ =~= b@.skip(sp as int + 1));
    }
    let (int_part, frac_part): (&[u8], &[u8]) = match find_byte(num, 46, 0) {
        None => (num, &num[num.len()..num.len()]),
        Some(d) => (&num[0..d], &num[d + 1..num.len()]),
    };
    proof {
        assert(int_part@ =~= num_split(num@).0);
        assert(frac_part@ =~= num_split(num@).1);
    }
    if !digits_ok(int_part) || !digits_ok(frac_part) {
        return Err(Error::MalformedSize);
    }
    let n_digits = int_part.len() + frac_part.len();
    if n_digits < 1 || n_digits > 19 {
        return Err(Error::MalformedSize);
    }
    let mut digits: Vec<u8> = Vec::new();
    let mut i: usize = 0;
    while i < int_part.len()
        invariant
            i <= int_part@.len(),
            digits@ =~= int_part@.take(i as int),
        decreases int_part@.len() - i,
    {
        digits.push(int_part[i]);
        i += 1;
    }
    let mut k: usize = 0;
    while k < frac_part.len()
        invariant
            k <= frac_part@.len(),
            digits@ =~= int_part@ + frac_part@.take(k as int),
        decreases frac_part@.len() - k,
    {
        digits.push(frac_part[k]);
        k += 1;
    }
    proof {
        assert(digits@ =~= int_part@ + frac_part@);
    }
    let m: u64 = digits_to_val(digits.as_slice());
    let mult: u64 = unit_multiplier(unit);
    let p: u64 = pow10_exec(frac_part.len());
    proof {
        lemma_digits_val_bound(digits@);
        lemma_pow10_mono(digits@.len() as nat, 19);
        lemma_pow10_19();
        lemma_pow10_pos(frac_part@.len() as nat);
        assert((m as nat) * (mult as nat) <= 10_000_000_000_000_000_000 * 1073741824) by (nonlinear_arith)
            requires
                (m as nat) <= 10_000_000_000_000_000_000,
                (mult as nat) <= 1073741824,
        ;
    }
    let prod: u128 = (m as u128) * (mult as u128);
    let v128: u128 = prod / (p as u128);
    if v128 > u64::MAX as u128 {
        return Err(Error::MalformedSize);
    }
    Ok(v128 as u64)
}

/// Normalize a human-readable size string to an exact byte count.
///
/// Returns `Ok(v)` exactly where the string is a well-formed
/// `"<number> <unit>"` whose truncated, scaled value `v` fits a `u64`, and
/// `MalformedSize` on every other input.
pub fn parse_size(size: &str) -> (r: Result<u64, Error>)
    ensures
        ({
            let sr = size_result(size.spec_bytes());
            match r {
                Ok(v) => sr == Some(v as nat),
                Err(e) => e == Error::MalformedSize && match sr {
                    None => true,
                    Some(n) => n > u64::MAX,
                },
            }
        }),
{
    parse_size_bytes(size.as_bytes())
}

/// The three recognized unit tokens start with distinct letters.
proof fn lemma_unit_tokens()
    ensures
        "KiB".spec_bytes().len() == 3 && "KiB".spec_bytes()[0] == 75u8,
        "MiB".spec_bytes().len() == 3 && "MiB".spec_bytes()[0] == 77u8,
        "GiB".spec_bytes().len() == 3 && "GiB".spec_bytes()[0] == 71u8,
{
    reveal_strlit("KiB");
    reveal_strlit("MiB");
    reveal_strlit("GiB");
    assert(vstd::utf8::is_ascii_chars("KiB"@));
    assert(vstd::utf8::is_ascii_chars("MiB"@));
    assert(vstd::utf8::is_ascii_chars("GiB"@));
    vstd::utf8::is_ascii_chars_encode_utf8("KiB"@);
    vstd::utf8::is_ascii_chars_encode_utf8("MiB"@);
    vstd::utf8::is_ascii_chars_encode_utf8("GiB"@);
}

/// A size string assembled from a space-free numeric portion and a unit is
/// split back at that space: the result is the scaled numeric value.
pub proof fn lemma_size_result_concat(num: Seq<u8>, unit: Seq<u8>)
    requires
        forall|i: int| 0 <= i < num.len() ==> num[i] != 32,
        num_wf(num),
    ensures
        size_result(num + seq![32u8] + unit) == Some(size_value(num, unit)),
{
    let s = num + seq![32u8] + unit;
    assert(s[num.len() as int] == 32);
    assert forall|j: int| 0 <= j < num.len() implies s[j] != 32 by {
        assert(s[j] == num[j]);
    }
    lemma_find_byte_first(s, 32, 0, num.len() as int);
    assert(s.take(num.len() as int) =~= num);
    assert(s.skip(num.len() as int + 1) =~= unit);
}

/// For every valid size string with a binary unit, the returned count is the
/// numeric value scaled by that unit's power of 1024, truncated to an integer.
pub proof fn lemma_binary_unit_scaling(num: Seq<u8>, unit: Seq<u8>)
    requires
        forall|i: int| 0 <= i < num.len() ==> num[i] != 32,
        num_wf(num),
    ensures
        ieq(unit, "KiB".spec_bytes()) ==> size_result(num + seq![32u8] + unit) == Some(
            mantissa(num) * 1024 / pow10(frac_len(num)),
        ),
        ieq(unit, "MiB".spec_bytes()) ==> size_result(num + seq![32u8] + unit) == Some(
            mantissa(num) * 1048576 / pow10(frac_len(num)),
        ),
        ieq(unit, "GiB".spec_bytes()) ==> size_result(num + seq![32u8] + unit) == Some(
            mantissa(num) * 1073741824 / pow10(frac_len(num)),
        ),
{
    lemma_size_result_concat(num, unit);
    lemma_unit_tokens();
    if ieq(unit, "MiB".spec_bytes()) && ieq(unit, "KiB".spec_bytes()) {
        assert(lower_byte(unit[0]) == lower_byte(75u8));
        assert(lower_byte(unit[0]) == lower_byte(77u8));
        assert(false);
    }
    if ieq(unit, "GiB".spec_bytes()) && ieq(unit, "KiB".spec_bytes()) {
        assert(lower_byte(unit[0]) == lower_byte(75u8));
        assert(lower_byte(unit[0]) == lower_byte(71u8));
        assert(false);
    }
    if ieq(unit, "GiB".spec_bytes()) && ieq(unit, "MiB".spec_bytes()) {
        assert(lower_byte(unit[0]) == lower_byte(77u8));
        assert(lower_byte(unit[0]) == lower_byte(71u8));
        assert(false);
    }
}

/// For every size string with an unrecognized unit, the numeric value passes
/// through unscaled: the lenient fallback multiplies by one.
pub proof fn lemma_unknown_unit_passthrough(num: Seq<u8>, unit: Seq<u8>)
    requires
        forall|i: int| 0 <= i < num.len() ==> num[i] != 32,
        num_wf(num),
        !ieq(unit, "KiB".spec_bytes()),
        !ieq(unit, "MiB".spec_bytes()),
        !ieq(unit, "GiB".spec_bytes()),
    ensures
        size_result(num + seq![32u8] + unit) == Some(mantissa(num) / pow10(frac_len(num))),
{
    lemma_size_result_concat(num, unit);
    assert(mantissa(num) * 1 == mantissa(num));
}

} // verus!
