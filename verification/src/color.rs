//! Color specification parser.
//!
//! A specification is either a named literal (case-insensitive, surrounding
//! whitespace ignored) or a comma-separated list of 1 to 4 channel fields:
//! gray, gray + alpha, RGB, or RGBA. A field with a decimal point is a
//! fractional value, optionally with an exponent part, clamped to
//! [0.0, 1.0] and scaled to [0, 255] (truncating, with at most nine digits
//! of the final fraction carrying precision); otherwise it is an unsigned
//! integer clamped to [0, 255]. Any other field count is an unknown color;
//! a field that parses neither way names itself in the error.

use vstd::prelude::*;
use vstd::slice::{slice_subrange, slice_index_get};
use crate::chars::{
    is_digit, digit_val, lower_spec, trim_spec, trim_ex, lower_ex, chars_of, chars_eq_str,
    is_digit_ex, lemma_trim_idempotent, chars_to_string,
};
use crate::raster::Color;

verus! {

/// Why a color specification was rejected.
#[derive(Debug)]
pub enum ParseError {
    /// Not a known literal and not a 1-4 field channel list.
    UnknownColor,
    /// The named field is neither a valid integer nor a valid decimal.
    InvalidChannel(String),
}

/// The outcome the parser owes for a given input.
pub enum ColorParse {
    Parsed(Color),
    Unknown,
    BadChannel(Seq<char>),
}

/// Value of a digit string, most significant first.
pub open spec fn digits_value(d: Seq<char>) -> int
    decreases d.len(),
{
    if d.len() == 0 {
        0
    } else {
        digits_value(d.subrange(0, d.len() - 1)) * 10 + digit_val(d[d.len() - 1])
    }
}

pub open spec fn all_digits(d: Seq<char>) -> bool {
    forall|i: int| 0 <= i < d.len() ==> is_digit(#[trigger] d[i])
}

/// Ten to the `n`th power.
pub open spec fn pow10(n: nat) -> int
    decreases n,
{
    if n == 0 {
        1
    } else {
        10 * pow10((n - 1) as nat)
    }
}

proof fn lemma_digits_value_nonneg(d: Seq<char>)
    requires
        all_digits(d),
    ensures
        digits_value(d) >= 0,
    decreases d.len(),
{
    if d.len() > 0 {
        let pre = d.subrange(0, d.len() - 1);
        assert(forall|i: int| 0 <= i < pre.len() ==> #[trigger] pre[i] == d[i]);
        lemma_digits_value_nonneg(pre);
        assert(digits_value(pre) * 10 >= 0) by (nonlinear_arith)
            requires
                digits_value(pre) >= 0,
        ;
    }
}

/// The value of a digit string dominates the value of any of its prefixes.
proof fn lemma_digits_value_prefix(d: Seq<char>, k: int)
    requires
        all_digits(d),
        0 <= k <= d.len(),
    ensures
        digits_value(d.subrange(0, k)) <= digits_value(d),
    decreases d.len() - k,
{
    if k < d.len() {
        let pre = d.subrange(0, d.len() - 1);
        assert(forall|i: int| 0 <= i < pre.len() ==> #[trigger] pre[i] == d[i]);
        assert(pre.subrange(0, k) =~= d.subrange(0, k));
        lemma_digits_value_prefix(pre, k);
        lemma_digits_value_nonneg(pre);
        assert(digits_value(pre) * 10 >= digits_value(pre)) by (nonlinear_arith)
            requires
                digits_value(pre) >= 0,
        ;
    } else {
        assert(d.subrange(0, k) =~= d);
    }
}

/// Integer channel field: optional leading `+`, then digits; the value is
/// clamped to 255, but a value beyond `u32::MAX` is rejected outright.
pub open spec fn spec_parse_uint(t: Seq<char>) -> Option<u8> {
    let d = if t.len() > 0 && t[0] == '+' {
        t.subrange(1, t.len() as int)
    } else {
        t
    };
    if d.len() == 0 || !all_digits(d) {
        None
    } else if digits_value(d) > u32::MAX {
        None
    } else if digits_value(d) > 255 {
        Some(255u8)
    } else {
        Some(digits_value(d) as u8)
    }
}

/// Index of the first dot of `b`, or `b.len()` if there is none.
pub open spec fn dot_pos(b: Seq<char>) -> int
    decreases b.len(),
{
    if b.len() == 0 {
        0
    } else if b[0] == '.' {
        0
    } else {
        1 + dot_pos(b.subrange(1, b.len() as int))
    }
}

/// A decimal body `ipart.fpart`: a dot, digits everywhere else, and at least
/// one digit.
pub open spec fn is_decimal_body(b: Seq<char>) -> bool {
    &&& dot_pos(b) < b.len()
    &&& b.len() >= 2
    &&& forall|i: int| 0 <= i < b.len() && i != dot_pos(b) ==> is_digit(#[trigger] b[i])
}

proof fn lemma_dot_pos_props(b: Seq<char>)
    ensures
        0 <= dot_pos(b) <= b.len(),
        dot_pos(b) < b.len() ==> b[dot_pos(b)] == '.',
        forall|j: int| 0 <= j < dot_pos(b) ==> #[trigger] b[j] != '.',
    decreases b.len(),
{
    if b.len() > 0 && b[0] != '.' {
        let rest = b.subrange(1, b.len() as int);
        lemma_dot_pos_props(rest);
        assert(forall|j: int| 0 <= j < rest.len() ==> #[trigger] rest[j] == b[j + 1]);
        assert forall|j: int| 0 <= j < dot_pos(b) implies #[trigger] b[j] != '.' by {
            if j >= 1 {
                assert(rest[j - 1] != '.');
            }
        }
    }
}

proof fn lemma_dot_pos_of(b: Seq<char>, k: int)
    requires
        0 <= k < b.len(),
        b[k] == '.',
        forall|j: int| 0 <= j < k ==> #[trigger] b[j] != '.',
    ensures
        dot_pos(b) == k,
    decreases k,
{
    if k > 0 {
        let rest = b.subrange(1, b.len() as int);
        assert(forall|j: int| 0 <= j < rest.len() ==> #[trigger] rest[j] == b[j + 1]);
        lemma_dot_pos_of(rest, k - 1);
    }
}

/// Scaled byte of the fractional digits: `floor(frac * 255)` computed on the
/// first nine fractional digits.
pub open spec fn frac_byte(fpart: Seq<char>) -> int {
    let f9 = if fpart.len() > 9 {
        fpart.subrange(0, 9)
    } else {
        fpart
    };
    digits_value(f9) * 255 / pow10(f9.len())
}

/// An exponent marker.
pub open spec fn is_exp_marker(c: char) -> bool {
    c == 'e' || c == 'E'
}

/// Index of the first exponent marker of `b`, or `b.len()` if there is none.
pub open spec fn marker_pos(b: Seq<char>) -> int
    decreases b.len(),
{
    if b.len() == 0 {
        0
    } else if is_exp_marker(b[0]) {
        0
    } else {
        1 + marker_pos(b.subrange(1, b.len() as int))
    }
}

proof fn lemma_marker_pos_props(b: Seq<char>)
    ensures
        0 <= marker_pos(b) <= b.len(),
        marker_pos(b) < b.len() ==> is_exp_marker(b[marker_pos(b)]),
        forall|j: int| 0 <= j < marker_pos(b) ==> !is_exp_marker(#[trigger] b[j]),
    decreases b.len(),
{
    if b.len() > 0 && !is_exp_marker(b[0]) {
        let rest = b.subrange(1, b.len() as int);
        lemma_marker_pos_props(rest);
        assert(forall|j: int| 0 <= j < rest.len() ==> #[trigger] rest[j] == b[j + 1]);
        assert forall|j: int| 0 <= j < marker_pos(b) implies !is_exp_marker(#[trigger] b[j]) by {
            if j >= 1 {
                assert(!is_exp_marker(rest[j - 1]));
            }
        }
    }
}

proof fn lemma_marker_pos_of(b: Seq<char>, k: int)
    requires
        0 <= k < b.len(),
        is_exp_marker(b[k]),
        forall|j: int| 0 <= j < k ==> !is_exp_marker(#[trigger] b[j]),
    ensures
        marker_pos(b) == k,
    decreases k,
{
    if k > 0 {
        let rest = b.subrange(1, b.len() as int);
        assert(forall|j: int| 0 <= j < rest.len() ==> #[trigger] rest[j] == b[j + 1]);
        lemma_marker_pos_of(rest, k - 1);
    }
}

/// The digits of an exponent part, after its optional sign.
pub open spec fn exp_digits(ep: Seq<char>) -> Seq<char> {
    if ep.len() > 0 && (ep[0] == '+' || ep[0] == '-') {
        ep.subrange(1, ep.len() as int)
    } else {
        ep
    }
}

/// A valid exponent part: an optional sign, then at least one digit.
pub open spec fn valid_exp_part(ep: Seq<char>) -> bool {
    exp_digits(ep).len() >= 1 && all_digits(exp_digits(ep))
}

/// Signed value of an exponent part.
pub open spec fn exp_value(ep: Seq<char>) -> int {
    if ep.len() > 0 && ep[0] == '-' {
        -digits_value(exp_digits(ep))
    } else {
        digits_value(exp_digits(ep))
    }
}

/// Whether a digit string has a nonzero digit, i.e. a nonzero value.
pub open spec fn has_nonzero_digit(d: Seq<char>) -> bool {
    exists|i: int| 0 <= i < d.len() && #[trigger] d[i] != '0'
}

/// `n` zero digits.
pub open spec fn zero_digits(n: nat) -> Seq<char> {
    Seq::new(n, |i: int| '0')
}

/// The channel byte of a non-negative decimal with mantissa digits `m` and
/// the decimal point after the first `pp` of them (`pp` may fall outside
/// `m` after an exponent shift): 0 for a zero value, 255 for a value of at
/// least one, the scaled fraction otherwise.
pub open spec fn decimal_byte(m: Seq<char>, pp: int) -> int {
    let ip = if pp < 0 {
        0
    } else if pp > m.len() {
        m.len() as int
    } else {
        pp
    };
    if !has_nonzero_digit(m) {
        0
    } else if pp >= m.len() {
        255
    } else if has_nonzero_digit(m.subrange(0, ip)) {
        255
    } else {
        frac_byte(
            zero_digits(if pp < 0 { (-pp) as nat } else { 0 }) + m.subrange(ip, m.len() as int),
        )
    }
}

/// Decimal channel field: optional sign, digits around a single dot in the
/// mantissa, an optional exponent (`e` or `E`, optional sign, digits); the
/// value is clamped to [0.0, 1.0] and scaled to [0, 255], truncating.
pub open spec fn spec_parse_decimal(t: Seq<char>) -> Option<u8> {
    let neg = t.len() > 0 && t[0] == '-';
    let b = if t.len() > 0 && (t[0] == '+' || t[0] == '-') {
        t.subrange(1, t.len() as int)
    } else {
        t
    };
    let em = marker_pos(b);
    let mant = b.subrange(0, em);
    if !(is_decimal_body(mant) && (em == b.len() || valid_exp_part(
        b.subrange(em + 1, b.len() as int),
    ))) {
        None
    } else if neg {
        Some(0u8)
    } else {
        let d = dot_pos(mant);
        let m = mant.subrange(0, d) + mant.subrange(d + 1, mant.len() as int);
        let e = if em == b.len() {
            0int
        } else {
            exp_value(b.subrange(em + 1, b.len() as int))
        };
        Some(decimal_byte(m, d + e) as u8)
    }
}

/// A channel field: trimmed, then read as a decimal if it contains a dot and
/// as an unsigned integer otherwise.
pub open spec fn spec_parse_channel(field: Seq<char>) -> Option<u8> {
    let t = trim_spec(field);
    if exists|i: int| 0 <= i < t.len() && t[i] == '.' {
        spec_parse_decimal(t)
    } else {
        spec_parse_uint(t)
    }
}

#[verifier::loop_isolation(false)]
fn parse_uint_ex(t: &[char]) -> (r: Option<u8>)
    ensures
        r == spec_parse_uint(t@),
{
    let d: &[char] = if t.len() > 0 && *slice_index_get(t, 0) == '+' {
        slice_subrange(t, 1, t.len())
    } else {
        t
    };
    if d.len() == 0 {
        return None;
    }
    let mut i: usize = 0;
    while i < d.len()
        invariant
            0 <= i <= d@.len(),
            forall|j: int| 0 <= j < i ==> is_digit(#[trigger] d@[j]),
        decreases d@.len() - i,
    {
        if !is_digit_ex(*slice_index_get(d, i)) {
            return None;
        }
        i = i + 1;
    }
    assert(all_digits(d@));
    let mut value: u64 = 0;
    let mut k: usize = 0;
    proof {
        assert(d@.subrange(0, 0) =~= Seq::<char>::empty());
    }
    while k < d.len()
        invariant
            0 <= k <= d@.len(),
            all_digits(d@),
            value == digits_value(d@.subrange(0, k as int)),
            value <= u32::MAX,
        decreases d@.len() - k,
    {
        let c = *slice_index_get(d, k);
        let dg: u64 = (c as u8 - 48) as u64;
        proof {
            assert(d@.subrange(0, k + 1).subrange(0, k as int) =~= d@.subrange(0, k as int));
            assert(d@.subrange(0, k + 1)[k as int] == d@[k as int]);
            assert(dg == digit_val(d@[k as int]));
        }
        let next: u64 = value * 10 + dg;
        if next > u32::MAX as u64 {
            proof {
                lemma_digits_value_prefix(d@, k + 1);
            }
            return None;
        }
        value = next;
        k = k + 1;
    }
    proof {
        assert(d@.subrange(0, d@.len() as int) =~= d@);
    }
    if value > 255 {
        Some(255)
    } else {
        Some(value as u8)
    }
}

proof fn lemma_pow10_pos(n: nat)
    ensures
        pow10(n) >= 1,
    decreases n,
{
    if n > 0 {
        lemma_pow10_pos((n - 1) as nat);
    }
}

proof fn lemma_pow10_mono(a: nat, b: nat)
    requires
        a <= b,
    ensures
        pow10(a) <= pow10(b),
    decreases b,
{
    if a < b {
        lemma_pow10_mono(a, (b - 1) as nat);
        lemma_pow10_pos((b - 1) as nat);
        assert(pow10(b) == 10 * pow10((b - 1) as nat));
    }
}

proof fn lemma_pow10_values()
    ensures
        pow10(0) == 1,
        pow10(1) == 10,
        pow10(2) == 100,
        pow10(3) == 1000,
        pow10(4) == 10000,
        pow10(5) == 100000,
        pow10(6) == 1000000,
        pow10(7) == 10000000,
        pow10(8) == 100000000,
        pow10(9) == 1000000000,
{
    assert(pow10(0) == 1);
    assert(pow10(1) == 10);
    assert(pow10(2) == 100);
    assert(pow10(3) == 1000);
    assert(pow10(4) == 10000);
    assert(pow10(5) == 100000);
    assert(pow10(6) == 1000000);
    assert(pow10(7) == 10000000);
    assert(pow10(8) == 100000000);
    assert(pow10(9) == 1000000000);
}

fn pow10_u64(n: usize) -> (r: u64)
    requires
        n <= 9,
    ensures
        r == pow10(n as nat),
        r >= 1,
{
    proof {
        lemma_pow10_values();
    }
    if n == 0 {
        1
    } else if n == 1 {
        10
    } else if n == 2 {
        100
    } else if n == 3 {
        1000
    } else if n == 4 {
        10000
    } else if n == 5 {
        100000
    } else if n == 6 {
        1000000
    } else if n == 7 {
        10000000
    } else if n == 8 {
        100000000
    } else {
        1000000000
    }
}

proof fn lemma_digits_value_bound(d: Seq<char>)
    requires
        all_digits(d),
    ensures
        0 <= digits_value(d) < pow10(d.len()),
    decreases d.len(),
{
    if d.len() == 0 {
    } else {
        let pre = d.subrange(0, d.len() - 1);
        assert(forall|i: int| 0 <= i < pre.len() ==> #[trigger] pre[i] == d[i]);
        lemma_digits_value_bound(pre);
        assert(digits_value(pre) * 10 + digit_val(d[d.len() - 1]) < 10 * pow10(pre.len()))
            by (nonlinear_arith)
            requires
                digits_value(pre) < pow10(pre.len()),
                digits_value(pre) >= 0,
                0 <= digit_val(d[d.len() - 1]) <= 9,
        ;
    }
}

fn marker_pos_ex(b: &[char]) -> (r: usize)
    ensures
        r == marker_pos(b@),
        r <= b@.len(),
    decreases b@.len(),
{
    if b.len() == 0 {
        0
    } else {
        let c = *slice_index_get(b, 0);
        if c == 'e' || c == 'E' {
            0
        } else {
            1 + marker_pos_ex(slice_subrange(b, 1, b.len()))
        }
    }
}

/// Scans a mantissa for its single dot: `Some` of the dot's index when the
/// text is digits around one dot, `None` otherwise.
#[verifier::loop_isolation(false)]
fn scan_decimal_body(b: &[char]) -> (r: Option<usize>)
    ensures
        match r {
            Some(d) => is_decimal_body(b@) && d == dot_pos(b@) && 0 <= d < b@.len(),
            None => !is_decimal_body(b@),
        },
{
    let mut dot: usize = 0;
    let mut seen_dot: bool = false;
    let mut i: usize = 0;
    while i < b.len()
        invariant
            0 <= i <= b@.len(),
            seen_dot ==> 0 <= dot < i && b@[dot as int] == '.',
            forall|j: int| 0 <= j < i && j != dot ==> is_digit(#[trigger] b@[j]),
            !seen_dot ==> forall|j: int| 0 <= j < i ==> is_digit(#[trigger] b@[j]),
            !seen_dot ==> dot == 0,
        decreases b@.len() - i,
    {
        let c = *slice_index_get(b, i);
        if c == '.' {
            if seen_dot {
                proof {
                    assert forall|j: int| 0 <= j < dot implies b@[j] != '.' by {
                        assert(is_digit(b@[j]));
                    }
                    lemma_dot_pos_of(b@, dot as int);
                    assert(!is_decimal_body(b@)) by {
                        if is_decimal_body(b@) {
                            assert(is_digit(b@[i as int]));
                        }
                    }
                }
                return None;
            }
            dot = i;
            seen_dot = true;
        } else if !is_digit_ex(c) {
            proof {
                lemma_dot_pos_props(b@);
                assert(!is_decimal_body(b@)) by {
                    if is_decimal_body(b@) {
                        if i as int == dot_pos(b@) {
                            assert(b@[i as int] == '.');
                        } else {
                            assert(is_digit(b@[i as int]));
                        }
                    }
                }
            }
            return None;
        }
        i = i + 1;
    }
    if !seen_dot || b.len() < 2 {
        proof {
            lemma_dot_pos_props(b@);
            assert(!is_decimal_body(b@)) by {
                if is_decimal_body(b@) && !seen_dot {
                    assert(is_digit(b@[dot_pos(b@)]));
                    assert(b@[dot_pos(b@)] == '.');
                }
            }
        }
        return None;
    }
    proof {
        assert forall|j: int| 0 <= j < dot implies b@[j] != '.' by {
            assert(is_digit(b@[j]));
        }
        lemma_dot_pos_of(b@, dot as int);
        assert(is_decimal_body(b@));
    }
    Some(dot)
}

/// Reads an exponent part's digits: the magnitude, saturated just past
/// `cap`, with the saturation noted; `None` when the part is malformed.
#[verifier::loop_isolation(false)]
fn parse_exp_part(ep: &[char], cap: u128) -> (r: Option<(u128, bool)>)
    requires
        cap <= 36893488147419103232,
    ensures
        match r {
            Some(p) => {
                &&& valid_exp_part(ep@)
                &&& (p.1 ==> digits_value(exp_digits(ep@)) > cap)
                &&& (!p.1 ==> p.0 == digits_value(exp_digits(ep@)) && p.0 <= cap)
            },
            None => !valid_exp_part(ep@),
        },
{
    let ed: &[char] = if ep.len() > 0 && (*slice_index_get(ep, 0) == '+' || *slice_index_get(
        ep,
        0,
    ) == '-') {
        slice_subrange(ep, 1, ep.len())
    } else {
        ep
    };
    if ed.len() == 0 {
        return None;
    }
    let mut i: usize = 0;
    while i < ed.len()
        invariant
            0 <= i <= ed@.len(),
            forall|j: int| 0 <= j < i ==> is_digit(#[trigger] ed@[j]),
        decreases ed@.len() - i,
    {
        if !is_digit_ex(*slice_index_get(ed, i)) {
            return None;
        }
        i = i + 1;
    }
    assert(all_digits(ed@));
    let mut mag: u128 = 0;
    let mut sat: bool = false;
    let mut k: usize = 0;
    proof {
        assert(ed@.subrange(0, 0) =~= Seq::<char>::empty());
    }
    while k < ed.len() && !sat
        invariant
            0 <= k <= ed@.len(),
            all_digits(ed@),
            cap <= 36893488147419103232,
            !sat ==> mag == digits_value(ed@.subrange(0, k as int)) && mag <= cap,
            sat ==> digits_value(ed@.subrange(0, k as int)) > cap,
        decreases ed@.len() - k,
    {
        let c = *slice_index_get(ed, k);
        let dg: u128 = (c as u8 - 48) as u128;
        proof {
            assert(ed@.subrange(0, k + 1).subrange(0, k as int) =~= ed@.subrange(0, k as int));
            assert(ed@.subrange(0, k + 1)[k as int] == ed@[k as int]);
            assert(dg == digit_val(ed@[k as int]));
        }
        let next: u128 = mag * 10 + dg;
        if next > cap {
            sat = true;
        } else {
            mag = next;
        }
        k = k + 1;
    }
    proof {
        if sat {
            assert(ed@.subrange(0, ed@.len() as int) =~= ed@);
            lemma_digits_value_prefix(ed@, k as int);
        } else {
            assert(ed@.subrange(0, ed@.len() as int) =~= ed@);
        }
    }
    Some((mag, sat))
}

/// The scaled byte of up to nine fractional digits:
/// `floor(digits * 255 / 10^len)`.
#[verifier::loop_isolation(false)]
fn frac9_byte_ex(f9: &[char]) -> (r: u64)
    requires
        all_digits(f9@),
        f9@.len() <= 9,
    ensures
        r as int == digits_value(f9@) * 255 / pow10(f9@.len()),
        r < 256,
{
    let mut fval: u64 = 0;
    let mut k: usize = 0;
    proof {
        assert(f9@.subrange(0, 0) =~= Seq::<char>::empty());
        lemma_digits_value_bound(f9@);
    }
    while k < f9.len()
        invariant
            0 <= k <= f9@.len() <= 9,
            all_digits(f9@),
            fval == digits_value(f9@.subrange(0, k as int)),
            fval <= 999999999,
        decreases f9@.len() - k,
    {
        let c = *slice_index_get(f9, k);
        let dg: u64 = (c as u8 - 48) as u64;
        proof {
            assert(f9@.subrange(0, k + 1).subrange(0, k as int) =~= f9@.subrange(0, k as int));
            assert(f9@.subrange(0, k + 1)[k as int] == f9@[k as int]);
            assert(dg == digit_val(f9@[k as int]));
            let sub = f9@.subrange(0, k + 1);
            assert(forall|m: int| 0 <= m < sub.len() ==> is_digit(#[trigger] sub[m]));
            lemma_digits_value_bound(sub);
            lemma_pow10_mono(sub.len(), 9);
            lemma_pow10_values();
        }
        fval = fval * 10 + dg;
        k = k + 1;
    }
    proof {
        assert(f9@.subrange(0, f9@.len() as int) =~= f9@);
    }
    let denom: u64 = pow10_u64(f9.len());
    let scaled: u64 = fval * 255 / denom;
    proof {
        lemma_digits_value_bound(f9@);
        assert(digits_value(f9@) * 255 / pow10(f9@.len()) < 256) by (nonlinear_arith)
            requires
                0 <= digits_value(f9@) < pow10(f9@.len()),
                pow10(f9@.len()) >= 1,
        ;
    }
    scaled
}

#[verifier::loop_isolation(false)]
#[verifier::rlimit(100)]
fn parse_decimal_ex(t: &[char]) -> (r: Option<u8>)
    ensures
        r == spec_parse_decimal(t@),
{
    let neg = t.len() > 0 && *slice_index_get(t, 0) == '-';
    let b: &[char] = if t.len() > 0 && (*slice_index_get(t, 0) == '+' || *slice_index_get(t, 0)
        == '-') {
        slice_subrange(t, 1, t.len())
    } else {
        t
    };
    // mantissa and exponent split at the first marker
    let em = marker_pos_ex(b);
    let mant = slice_subrange(b, 0, em);
    let dot: usize = match scan_decimal_body(mant) {
        Some(d) => d,
        None => {
            return None;
        },
    };
    // the exponent's magnitude, saturated just past where it stops mattering
    let cap: u128 = b.len() as u128 + 16;
    let mut eneg: bool = false;
    let mut emag: u128 = 0;
    let mut esat: bool = false;
    if em < b.len() {
        let ep = slice_subrange(b, em + 1, b.len());
        eneg = ep.len() > 0 && *slice_index_get(ep, 0) == '-';
        match parse_exp_part(ep, cap) {
            Some((mag, sat)) => {
                emag = mag;
                esat = sat;
            },
            None => {
                return None;
            },
        }
    }
    let ghost espec: int = if em == b@.len() {
        0int
    } else {
        exp_value(b@.subrange(em + 1, b@.len() as int))
    };
    proof {
        if em < b@.len() {
            if esat {
                assert(espec == if eneg {
                    -digits_value(exp_digits(b@.subrange(em + 1, b@.len() as int)))
                } else {
                    digits_value(exp_digits(b@.subrange(em + 1, b@.len() as int)))
                });
            }
        }
    }
    if neg {
        return Some(0);
    }
    let byte = mant_byte_ex(mant, dot, eneg, emag, esat, cap, Ghost(espec));
    Some(byte as u8)
}

/// The channel byte of a validated non-negative mantissa under an exponent
/// shift of `espec` places, whose magnitude the caller has read into
/// `emag`, saturated past `cap` when `esat` is set.
#[verifier::loop_isolation(false)]
#[verifier::rlimit(100)]
fn mant_byte_ex(
    mant: &[char],
    dot: usize,
    eneg: bool,
    emag: u128,
    esat: bool,
    cap: u128,
    espec: Ghost<int>,
) -> (r: u64)
    requires
        is_decimal_body(mant@),
        dot == dot_pos(mant@),
        mant@.len() + 16 <= cap,
        cap <= 36893488147419103232,
        esat ==> (if eneg {
            espec@ < -(cap as int)
        } else {
            espec@ > cap as int
        }),
        !esat ==> emag <= cap && espec@ == (if eneg {
            -(emag as int)
        } else {
            emag as int
        }),
    ensures
        r as int == decimal_byte(
            mant@.subrange(0, dot_pos(mant@)) + mant@.subrange(
                dot_pos(mant@) + 1,
                mant@.len() as int,
            ),
            dot_pos(mant@) + espec@,
        ),
        r <= 255,
{
    // the mantissa's digits with the dot taken out
    let ghost m = mant@.subrange(0, dot as int) + mant@.subrange(dot + 1, mant@.len() as int);
    let ghost pp: int = dot + espec@;
    let mut mvec: Vec<char> = Vec::new();
    let mut j: usize = 0;
    while j < mant.len()
        invariant
            0 <= j <= mant@.len(),
            0 <= dot < mant@.len(),
            is_decimal_body(mant@),
            dot == dot_pos(mant@),
            j <= dot ==> mvec@ == mant@.subrange(0, j as int),
            j > dot ==> mvec@ == mant@.subrange(0, dot as int) + mant@.subrange(dot + 1, j as int),
        decreases mant@.len() - j,
    {
        if j != dot {
            mvec.push(*slice_index_get(mant, j));
            proof {
                if j < dot {
                    assert(mvec@ =~= mant@.subrange(0, j + 1));
                } else {
                    assert(mvec@ =~= mant@.subrange(0, dot as int) + mant@.subrange(
                        dot + 1,
                        j + 1,
                    ));
                }
            }
        } else {
            proof {
                assert(mant@.subrange(0, dot as int) + mant@.subrange(dot + 1, dot + 1)
                    =~= mant@.subrange(0, dot as int));
            }
        }
        j = j + 1;
    }
    proof {
        assert(mvec@ == m);
        assert(m.len() == mant@.len() - 1);
        assert forall|i: int| 0 <= i < m.len() implies is_digit(#[trigger] m[i]) by {
            if i < dot {
                assert(m[i] == mant@[i]);
            } else {
                assert(m[i] == mant@[i + 1]);
            }
        }
    }
    let mlen: usize = mvec.len();
    // a mantissa of zeros is silence whatever the exponent
    let mut anyz: bool = false;
    let mut k: usize = 0;
    while k < mlen
        invariant
            0 <= k <= mlen == mvec@.len(),
            mvec@ == m,
            anyz ==> exists|i: int| 0 <= i < k && #[trigger] m[i] != '0',
            !anyz ==> forall|i: int| 0 <= i < k ==> #[trigger] m[i] == '0',
        decreases mlen - k,
    {
        if mvec[k] != '0' {
            anyz = true;
            proof {
                assert(0 <= k < m.len() && m[k as int] != '0');
            }
        }
        k = k + 1;
    }
    if !anyz {
        proof {
            assert(!has_nonzero_digit(m));
        }
        return 0;
    }
    assert(has_nonzero_digit(m));
    if esat {
        if !eneg {
            // the point moves past every digit: the value is at least one
            proof {
                assert(espec@ > cap);
                assert(pp >= m.len());
            }
            return 255;
        } else {
            // the point moves at least nine places down: every digit that
            // could reach the first nine fractional places is a padded zero
            proof {
                assert(espec@ < -(cap as int));
                assert(pp <= -9);
                lemma_decimal_byte_deep_fraction(m, pp);
            }
            return 0;
        }
    }
    let e128: i128 = if eneg {
        -(emag as i128)
    } else {
        emag as i128
    };
    let pp128: i128 = dot as i128 + e128;
    proof {
        assert(pp128 == pp);
    }
    if pp128 >= mlen as i128 {
        return 255;
    }
    let ipcount: usize = if pp128 <= 0 {
        0
    } else {
        pp128 as usize
    };
    let ghost ip: int = if pp < 0 {
        0
    } else {
        pp
    };
    proof {
        assert(ipcount == ip);
    }
    // a nonzero digit before the point: the value is at least one
    let mut ipz: bool = false;
    let mut q: usize = 0;
    let ghost mpre = m.subrange(0, ip);
    while q < ipcount
        invariant
            0 <= q <= ipcount <= mlen == mvec@.len(),
            mvec@ == m,
            mpre == m.subrange(0, ipcount as int),
            ipz ==> exists|i: int| 0 <= i < q && #[trigger] mpre[i] != '0',
            !ipz ==> forall|i: int| 0 <= i < q ==> #[trigger] mpre[i] == '0',
        decreases ipcount - q,
    {
        if mvec[q] != '0' {
            ipz = true;
            proof {
                assert(0 <= q < mpre.len() && mpre[q as int] != '0');
            }
        }
        q = q + 1;
    }
    if ipz {
        proof {
            assert(has_nonzero_digit(m.subrange(0, ip)));
        }
        return 255;
    }
    proof {
        assert(!has_nonzero_digit(m.subrange(0, ip)));
    }
    // collect the first nine fractional places: padded zeros, then digits
    let z128: i128 = if pp128 < 0 {
        -pp128
    } else {
        0
    };
    let ghost fd = zero_digits(if pp < 0 { (-pp) as nat } else { 0 }) + m.subrange(ip, m.len() as int);
    if z128 >= 9 {
        proof {
            lemma_decimal_byte_deep_fraction(m, pp);
        }
        return 0;
    }
    let z: usize = z128 as usize;
    let avail: usize = mlen - ipcount;
    let room: usize = 9 - z;
    let take: usize = if avail > room {
        room
    } else {
        avail
    };
    let mut f9vec: Vec<char> = Vec::new();
    let mut w: usize = 0;
    while w < z
        invariant
            0 <= w <= z,
            f9vec@.len() == w,
            forall|i: int| 0 <= i < w ==> #[trigger] f9vec@[i] == '0',
        decreases z - w,
    {
        f9vec.push('0');
        w = w + 1;
    }
    let mut v: usize = 0;
    while v < take
        invariant
            0 <= v <= take,
            take + ipcount <= mlen == mvec@.len(),
            mvec@ == m,
            f9vec@.len() == z + v,
            forall|i: int| 0 <= i < z ==> #[trigger] f9vec@[i] == '0',
            forall|i: int| z <= i < z + v ==> #[trigger] f9vec@[i] == m[ipcount + i - z],
        decreases take - v,
    {
        f9vec.push(mvec[ipcount + v]);
        v = v + 1;
    }
    let ghost f9 = if fd.len() > 9 {
        fd.subrange(0, 9)
    } else {
        fd
    };
    proof {
        assert(fd.len() == (z as int) + (m.len() - ip));
        assert(f9vec@.len() == z + take);
        assert(f9vec@ =~= f9);
        assert forall|i: int| 0 <= i < f9vec@.len() implies is_digit(#[trigger] f9vec@[i]) by {
            if i >= z {
                assert(f9vec@[i] == m[ipcount + i - z]);
            }
        }
    }
    let byte = frac9_byte_ex(f9vec.as_slice());
    proof {
        assert(byte as int == frac_byte(fd));
        assert(decimal_byte(m, pp) == frac_byte(fd));
    }
    proof {
        assert(byte as int == decimal_byte(m, pp));
    }
    byte
}

/// When the decimal point sits nine or more places below the digits, the
/// first nine fractional places are all padded zeros and the byte is zero.
proof fn lemma_decimal_byte_deep_fraction(m: Seq<char>, pp: int)
    requires
        pp <= -9,
    ensures
        decimal_byte(m, pp) == 0 || !has_nonzero_digit(m) || m.len() == 0,
        has_nonzero_digit(m) && m.len() > 0 ==> decimal_byte(m, pp) == 0,
{
    if has_nonzero_digit(m) && m.len() > 0 {
        let fd = zero_digits((-pp) as nat) + m.subrange(0, m.len() as int);
        assert(fd.len() >= 9);
        let f9 = if fd.len() > 9 {
            fd.subrange(0, 9)
        } else {
            fd
        };
        assert(forall|k: int| 0 <= k < 9 ==> #[trigger] fd[k] == '0');
        assert(forall|k: int| 0 <= k < f9.len() ==> #[trigger] f9[k] == '0');
        lemma_digits_all_zero(f9);
        lemma_pow10_pos(f9.len());
        assert(0 * 255 == 0);
        assert(frac_byte(fd) == 0);
    }
}

proof fn lemma_digits_all_zero(d: Seq<char>)
    requires
        forall|m: int| 0 <= m < d.len() ==> #[trigger] d[m] == '0',
    ensures
        digits_value(d) == 0,
    decreases d.len(),
{
    if d.len() > 0 {
        let pre = d.subrange(0, d.len() - 1);
        assert(forall|m: int| 0 <= m < pre.len() ==> #[trigger] pre[m] == d[m]);
        lemma_digits_all_zero(pre);
    }
}

proof fn lemma_digits_nonzero(d: Seq<char>)
    requires
        all_digits(d),
        exists|m: int| 0 <= m < d.len() && #[trigger] d[m] != '0',
    ensures
        digits_value(d) >= 1,
    decreases d.len(),
{
    let pre = d.subrange(0, d.len() - 1);
    assert(forall|m: int| 0 <= m < pre.len() ==> #[trigger] pre[m] == d[m]);
    let m = choose|m: int| 0 <= m < d.len() && #[trigger] d[m] != '0';
    lemma_digits_value_nonneg(pre);
    if m == d.len() - 1 {
        assert(digit_val(d[d.len() - 1]) >= 1);
        assert(digits_value(pre) * 10 >= 0) by (nonlinear_arith)
            requires
                digits_value(pre) >= 0,
        ;
    } else {
        assert(0 <= m < pre.len() && pre[m] != '0');
        lemma_digits_nonzero(pre);
        assert(digits_value(pre) * 10 >= 10) by (nonlinear_arith)
            requires
                digits_value(pre) >= 1,
        ;
    }
}

/// One channel field, trimmed and parsed; the decimal reading applies exactly
/// when the field contains a dot.
pub fn parse_channel_ex(field: &[char]) -> (r: Option<u8>)
    ensures
        r == spec_parse_channel(field@),
{
    let t = trim_ex(field);
    let mut has_dot: bool = false;
    let mut i: usize = 0;
    while i < t.len()
        invariant
            0 <= i <= t@.len(),
            has_dot == exists|j: int| 0 <= j < i && #[trigger] t@[j] == '.',
        decreases t@.len() - i,
    {
        if *slice_index_get(t, i) == '.' {
            has_dot = true;
        }
        i = i + 1;
    }
    if has_dot {
        parse_decimal_ex(t)
    } else {
        parse_uint_ex(t)
    }
}


/// The views of a sequence of character vectors.
pub open spec fn views_of(s: Seq<Vec<char>>) -> Seq<Seq<char>> {
    Seq::new(s.len(), |i: int| s[i]@)
}

/// Comma-splitting, walking `s` with the current field accumulated in `cur`.
pub open spec fn split_acc(s: Seq<char>, cur: Seq<char>) -> Seq<Seq<char>>
    decreases s.len(),
{
    if s.len() == 0 {
        seq![cur]
    } else if s[0] == ',' {
        seq![cur] + split_acc(s.subrange(1, s.len() as int), Seq::empty())
    } else {
        split_acc(s.subrange(1, s.len() as int), cur.push(s[0]))
    }
}

/// The comma-separated fields of `s`; always at least one field.
pub open spec fn split_commas(s: Seq<char>) -> Seq<Seq<char>> {
    split_acc(s, Seq::empty())
}

/// The fields of `s`, split on commas.
#[verifier::loop_isolation(false)]
pub fn split_commas_ex(s: &[char]) -> (r: Vec<Vec<char>>)
    ensures
        views_of(r@) == split_commas(s@),
{
    let mut fields: Vec<Vec<char>> = Vec::new();
    let mut cur: Vec<char> = Vec::new();
    let mut i: usize = 0;
    proof {
        assert(s@.subrange(0, s@.len() as int) =~= s@);
        assert(views_of(fields@) + split_acc(s@, cur@) =~= split_acc(s@, cur@));
    }
    while i < s.len()
        invariant
            0 <= i <= s@.len(),
            split_commas(s@) == views_of(fields@) + split_acc(
                s@.subrange(i as int, s@.len() as int),
                cur@,
            ),
        decreases s@.len() - i,
    {
        let ghost rem = s@.subrange(i as int, s@.len() as int);
        proof {
            assert(rem.subrange(1, rem.len() as int) =~= s@.subrange(i + 1, s@.len() as int));
            assert(rem[0] == s@[i as int]);
        }
        let c = *slice_index_get(s, i);
        if c == ',' {
            let done = cur;
            cur = Vec::new();
            let ghost before = fields@;
            fields.push(done);
            proof {
                assert(views_of(fields@) =~= views_of(before).push(done@));
                assert(views_of(before) + (seq![done@] + split_acc(
                    s@.subrange(i + 1, s@.len() as int),
                    Seq::empty(),
                )) =~= views_of(fields@) + split_acc(
                    s@.subrange(i + 1, s@.len() as int),
                    Seq::empty(),
                ));
            }
        } else {
            cur.push(c);
        }
        i = i + 1;
    }
    proof {
        assert(s@.subrange(s@.len() as int, s@.len() as int) =~= Seq::<char>::empty());
    }
    let ghost before = fields@;
    fields.push(cur);
    proof {
        assert(views_of(fields@) =~= views_of(before).push(fields@[fields@.len() - 1]@));
        assert(views_of(before) + seq![fields@[fields@.len() - 1]@] =~= views_of(fields@));
        assert(views_of(fields@) =~= split_commas(s@));
    }
    fields
}


/// The channel-list reading of already split fields: gray, gray + alpha,
/// RGB, or RGBA; any other count is unknown; fields are read left to right
/// and the first bad one names the error.
pub open spec fn spec_fields_color(fields: Seq<Seq<char>>) -> ColorParse {
    if fields.len() == 1 {
        match spec_parse_channel(fields[0]) {
            Some(l) => ColorParse::Parsed(Color { red: l, green: l, blue: l, alpha: 255 }),
            None => ColorParse::BadChannel(trim_spec(fields[0])),
        }
    } else if fields.len() == 2 {
        match spec_parse_channel(fields[0]) {
            Some(l) => match spec_parse_channel(fields[1]) {
                Some(a) => ColorParse::Parsed(Color { red: l, green: l, blue: l, alpha: a }),
                None => ColorParse::BadChannel(trim_spec(fields[1])),
            },
            None => ColorParse::BadChannel(trim_spec(fields[0])),
        }
    } else if fields.len() == 3 {
        match spec_parse_channel(fields[0]) {
            Some(r) => match spec_parse_channel(fields[1]) {
                Some(g) => match spec_parse_channel(fields[2]) {
                    Some(b) => ColorParse::Parsed(Color { red: r, green: g, blue: b, alpha: 255 }),
                    None => ColorParse::BadChannel(trim_spec(fields[2])),
                },
                None => ColorParse::BadChannel(trim_spec(fields[1])),
            },
            None => ColorParse::BadChannel(trim_spec(fields[0])),
        }
    } else if fields.len() == 4 {
        match spec_parse_channel(fields[0]) {
            Some(r) => match spec_parse_channel(fields[1]) {
                Some(g) => match spec_parse_channel(fields[2]) {
                    Some(b) => match spec_parse_channel(fields[3]) {
                        Some(a) => ColorParse::Parsed(Color { red: r, green: g, blue: b, alpha: a }),
                        None => ColorParse::BadChannel(trim_spec(fields[3])),
                    },
                    None => ColorParse::BadChannel(trim_spec(fields[2])),
                },
                None => ColorParse::BadChannel(trim_spec(fields[1])),
            },
            None => ColorParse::BadChannel(trim_spec(fields[0])),
        }
    } else {
        ColorParse::Unknown
    }
}

/// What parsing a color specification yields: the input is trimmed and
/// lowercased; a known literal gives its color, anything else is split on
/// commas and read as channel fields.
pub open spec fn spec_parse_color(s: Seq<char>) -> ColorParse {
    let t = lower_spec(trim_spec(s));
    if t == "transparent"@ || t == "none"@ {
        ColorParse::Parsed(Color { red: 0, green: 0, blue: 0, alpha: 0 })
    } else if t == "red"@ {
        ColorParse::Parsed(Color { red: 255, green: 0, blue: 0, alpha: 255 })
    } else if t == "yellow"@ {
        ColorParse::Parsed(Color { red: 255, green: 255, blue: 0, alpha: 255 })
    } else if t == "green"@ {
        ColorParse::Parsed(Color { red: 0, green: 255, blue: 0, alpha: 255 })
    } else if t == "blue"@ {
        ColorParse::Parsed(Color { red: 0, green: 0, blue: 255, alpha: 255 })
    } else if t == "cyan"@ {
        ColorParse::Parsed(Color { red: 0, green: 255, blue: 255, alpha: 255 })
    } else if t == "magenta"@ {
        ColorParse::Parsed(Color { red: 255, green: 0, blue: 255, alpha: 255 })
    } else if t == "white"@ {
        ColorParse::Parsed(Color { red: 255, green: 255, blue: 255, alpha: 255 })
    } else if t == "black"@ {
        ColorParse::Parsed(Color { red: 0, green: 0, blue: 0, alpha: 255 })
    } else {
        spec_fields_color(split_commas(t))
    }
}

fn invalid_channel_err(field: &[char]) -> (e: ParseError)
    ensures
        e matches ParseError::InvalidChannel(f) && f@ == trim_spec(field@),
{
    let t = trim_ex(field);
    let v = vstd::slice::slice_to_vec(t);
    ParseError::InvalidChannel(chars_to_string(&v))
}

/// Parses a color specification: a case-insensitive literal keyword, or a
/// comma-separated list of 1 to 4 channel fields, with surrounding
/// whitespace ignored. Returns exactly what `spec_parse_color` prescribes:
/// the parsed color, `UnknownColor` for an unrecognized shape, or
/// `InvalidChannel` naming the first unreadable field.
pub fn parse_into_color(s: &str) -> (r: Result<Color, ParseError>)
    ensures
        match r {
            Ok(c) => spec_parse_color(s@) == ColorParse::Parsed(c),
            Err(ParseError::UnknownColor) => spec_parse_color(s@) == ColorParse::Unknown,
            Err(ParseError::InvalidChannel(f)) => spec_parse_color(s@) == ColorParse::BadChannel(
                f@,
            ),
        },
{
    let cs = chars_of(s);
    let tr = trim_ex(cs.as_slice());
    let low = lower_ex(tr);
    if chars_eq_str(low.as_slice(), "transparent") || chars_eq_str(low.as_slice(), "none") {
        return Ok(Color::new(0, 0, 0, 0));
    }
    if chars_eq_str(low.as_slice(), "red") {
        return Ok(Color::new(255, 0, 0, 255));
    }
    if chars_eq_str(low.as_slice(), "yellow") {
        return Ok(Color::new(255, 255, 0, 255));
    }
    if chars_eq_str(low.as_slice(), "green") {
        return Ok(Color::new(0, 255, 0, 255));
    }
    if chars_eq_str(low.as_slice(), "blue") {
        return Ok(Color::new(0, 0, 255, 255));
    }
    if chars_eq_str(low.as_slice(), "cyan") {
        return Ok(Color::new(0, 255, 255, 255));
    }
    if chars_eq_str(low.as_slice(), "magenta") {
        return Ok(Color::new(255, 0, 255, 255));
    }
    if chars_eq_str(low.as_slice(), "white") {
        return Ok(Color::new(255, 255, 255, 255));
    }
    if chars_eq_str(low.as_slice(), "black") {
        return Ok(Color::new(0, 0, 0, 255));
    }
    let fields = split_commas_ex(low.as_slice());
    let ghost fv = views_of(fields@);
    if fields.len() == 1 {
        match parse_channel_ex(fields[0].as_slice()) {
            Some(l) => Ok(Color::new(l, l, l, 255)),
            None => Err(invalid_channel_err(fields[0].as_slice())),
        }
    } else if fields.len() == 2 {
        match parse_channel_ex(fields[0].as_slice()) {
            Some(l) => match parse_channel_ex(fields[1].as_slice()) {
                Some(a) => Ok(Color::new(l, l, l, a)),
                None => Err(invalid_channel_err(fields[1].as_slice())),
            },
            None => Err(invalid_channel_err(fields[0].as_slice())),
        }
    } else if fields.len() == 3 {
        match parse_channel_ex(fields[0].as_slice()) {
            Some(red) => match parse_channel_ex(fields[1].as_slice()) {
                Some(green) => match parse_channel_ex(fields[2].as_slice()) {
                    Some(blue) => Ok(Color::new(red, green, blue, 255)),
                    None => Err(invalid_channel_err(fields[2].as_slice())),
                },
                None => Err(invalid_channel_err(fields[1].as_slice())),
            },
            None => Err(invalid_channel_err(fields[0].as_slice())),
        }
    } else if fields.len() == 4 {
        match parse_channel_ex(fields[0].as_slice()) {
            Some(red) => match parse_channel_ex(fields[1].as_slice()) {
                Some(green) => match parse_channel_ex(fields[2].as_slice()) {
                    Some(blue) => match parse_channel_ex(fields[3].as_slice()) {
                        Some(alpha) => Ok(Color::new(red, green, blue, alpha)),
                        None => Err(invalid_channel_err(fields[3].as_slice())),
                    },
                    None => Err(invalid_channel_err(fields[2].as_slice())),
                },
                None => Err(invalid_channel_err(fields[1].as_slice())),
            },
            None => Err(invalid_channel_err(fields[0].as_slice())),
        }
    } else {
        Err(ParseError::UnknownColor)
    }
}

/// Surrounding whitespace never changes what a color specification means.
pub proof fn lemma_parse_color_trim_insensitive(s: Seq<char>)
    ensures
        spec_parse_color(s) == spec_parse_color(trim_spec(s)),
{
    lemma_trim_idempotent(s);
}

/// Surrounding whitespace never changes what a channel field means.
pub proof fn lemma_parse_channel_trim_insensitive(f: Seq<char>)
    ensures
        spec_parse_channel(f) == spec_parse_channel(trim_spec(f)),
{
    lemma_trim_idempotent(f);
}


/// Parses a single channel field: the trimmed text read as a decimal if it
/// contains a dot, as an unsigned integer otherwise; a field that is neither
/// names itself in the error.
pub fn parse_to_u8(s: &str) -> (r: Result<u8, ParseError>)
    ensures
        match r {
            Ok(v) => spec_parse_channel(s@) == Some(v),
            Err(ParseError::InvalidChannel(f)) => spec_parse_channel(s@) is None && f@
                == trim_spec(s@),
            Err(ParseError::UnknownColor) => false,
        },
{
    let cs = chars_of(s);
    match parse_channel_ex(cs.as_slice()) {
        Some(v) => Ok(v),
        None => Err(invalid_channel_err(cs.as_slice())),
    }
}


/// Whitespace around individual fields never changes what a channel list
/// means: trimming every field gives the same outcome, error included.
pub proof fn lemma_fields_trim_insensitive(fields: Seq<Seq<char>>)
    ensures
        spec_fields_color(fields.map_values(|f: Seq<char>| trim_spec(f))) == spec_fields_color(
            fields,
        ),
{
    let trimmed = fields.map_values(|f: Seq<char>| trim_spec(f));
    assert(trimmed.len() == fields.len());
    assert forall|i: int| 0 <= i < fields.len() implies #[trigger] trimmed[i] == trim_spec(
        fields[i],
    ) by {
    }
    if 1 <= fields.len() <= 4 {
        assert forall|i: int| 0 <= i < fields.len() implies spec_parse_channel(#[trigger] trimmed[i])
            == spec_parse_channel(fields[i]) && trim_spec(trimmed[i]) == trim_spec(fields[i]) by {
            lemma_parse_channel_trim_insensitive(fields[i]);
            lemma_trim_idempotent(fields[i]);
        }
    }
}

} // verus!
