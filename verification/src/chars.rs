//! Character-level helpers for the color parser and path handling:
//! whitespace trimming, keyword-width lowercasing, digits, and comparison of
//! char sequences with string literals.

use vstd::prelude::*;
use vstd::slice::{slice_subrange, slice_index_get};
use vstd::string::StrSliceExecFns;

verus! {

/// Whitespace as Unicode defines it (the White_Space property), the kind
/// trimmed around color specifications and fields.
pub open spec fn is_space(c: char) -> bool {
    ||| c == '\u{0009}'
    ||| c == '\u{000A}'
    ||| c == '\u{000B}'
    ||| c == '\u{000C}'
    ||| c == '\u{000D}'
    ||| c == ' '
    ||| c == '\u{0085}'
    ||| c == '\u{00A0}'
    ||| c == '\u{1680}'
    ||| ('\u{2000}' <= c && c <= '\u{200A}')
    ||| c == '\u{2028}'
    ||| c == '\u{2029}'
    ||| c == '\u{202F}'
    ||| c == '\u{205F}'
    ||| c == '\u{3000}'
}

pub open spec fn is_digit(c: char) -> bool {
    '0' <= c && c <= '9'
}

/// Numeric value of a decimal digit.
pub open spec fn digit_val(c: char) -> int {
    c as int - '0' as int
}

/// Lowercasing of one character, to the width keyword matching needs:
/// ASCII letters fold as usual, and the Kelvin sign, the one character
/// outside ASCII whose lowercase form is an ASCII letter, folds to `k`.
/// Every other character is left alone.
pub open spec fn lower_char(c: char) -> char {
    if 'A' <= c && c <= 'Z' {
        ((c as u8) + 32) as char
    } else if c == '\u{212A}' {
        'k'
    } else {
        c
    }
}

/// Lowercasing of a sequence, character by character.
pub open spec fn lower_spec(s: Seq<char>) -> Seq<char> {
    Seq::new(s.len(), |i: int| lower_char(s[i]))
}

/// `s` without its leading whitespace.
pub open spec fn trim_front_spec(s: Seq<char>) -> Seq<char>
    decreases s.len(),
{
    if s.len() > 0 && is_space(s[0]) {
        trim_front_spec(s.subrange(1, s.len() as int))
    } else {
        s
    }
}

/// `s` without its trailing whitespace.
pub open spec fn trim_back_spec(s: Seq<char>) -> Seq<char>
    decreases s.len(),
{
    if s.len() > 0 && is_space(s[s.len() - 1]) {
        trim_back_spec(s.subrange(0, s.len() - 1))
    } else {
        s
    }
}

/// `s` without surrounding whitespace.
pub open spec fn trim_spec(s: Seq<char>) -> Seq<char> {
    trim_back_spec(trim_front_spec(s))
}

pub fn is_space_ex(c: char) -> (b: bool)
    ensures
        b == is_space(c),
{
    c == '\u{0009}' || c == '\u{000A}' || c == '\u{000B}' || c == '\u{000C}' || c == '\u{000D}'
        || c == ' ' || c == '\u{0085}' || c == '\u{00A0}' || c == '\u{1680}' || ('\u{2000}' <= c
        && c <= '\u{200A}') || c == '\u{2028}' || c == '\u{2029}' || c == '\u{202F}'
        || c == '\u{205F}' || c == '\u{3000}'
}

pub fn is_digit_ex(c: char) -> (b: bool)
    ensures
        b == is_digit(c),
{
    '0' <= c && c <= '9'
}

pub fn lower_char_ex(c: char) -> (r: char)
    ensures
        r == lower_char(c),
{
    if 'A' <= c && c <= 'Z' {
        ((c as u8) + 32) as char
    } else if c == '\u{212A}' {
        'k'
    } else {
        c
    }
}

/// The characters of `s`, in order.
pub fn chars_of(s: &str) -> (v: Vec<char>)
    ensures
        v@ == s@,
{
    let n = s.unicode_len();
    let mut v: Vec<char> = Vec::new();
    let mut i: usize = 0;
    while i < n
        invariant
            0 <= i <= n,
            n == s@.len(),
            v@ =~= s@.subrange(0, i as int),
        decreases n - i,
    {
        v.push(s.get_char(i));
        proof {
            assert(v@ =~= s@.subrange(0, i + 1));
        }
        i = i + 1;
    }
    proof {
        assert(v@ =~= s@);
    }
    v
}

fn trim_front_ex<'a>(s: &'a [char]) -> (r: &'a [char])
    ensures
        r@ == trim_front_spec(s@),
    decreases s@.len(),
{
    if s.len() > 0 && is_space_ex(*slice_index_get(s, 0)) {
        trim_front_ex(slice_subrange(s, 1, s.len()))
    } else {
        s
    }
}

fn trim_back_ex<'a>(s: &'a [char]) -> (r: &'a [char])
    ensures
        r@ == trim_back_spec(s@),
    decreases s@.len(),
{
    if s.len() > 0 && is_space_ex(*slice_index_get(s, s.len() - 1)) {
        trim_back_ex(slice_subrange(s, 0, s.len() - 1))
    } else {
        s
    }
}

/// `s` without surrounding whitespace.
pub fn trim_ex<'a>(s: &'a [char]) -> (r: &'a [char])
    ensures
        r@ == trim_spec(s@),
{
    trim_back_ex(trim_front_ex(s))
}

/// Lowercasing of a character vector.
pub fn lower_ex(s: &[char]) -> (r: Vec<char>)
    ensures
        r@ == lower_spec(s@),
{
    let mut r: Vec<char> = Vec::new();
    let mut i: usize = 0;
    while i < s.len()
        invariant
            0 <= i <= s@.len(),
            r@.len() == i,
            forall|j: int| 0 <= j < i ==> #[trigger] r@[j] == lower_char(s@[j]),
        decreases s@.len() - i,
    {
        r.push(lower_char_ex(*slice_index_get(s, i)));
        i = i + 1;
    }
    proof {
        assert(r@ =~= lower_spec(s@));
    }
    r
}

/// Whether the characters of `s` are exactly those of `lit`.
pub fn chars_eq_str(s: &[char], lit: &str) -> (b: bool)
    ensures
        b == (s@ == lit@),
{
    let n = lit.unicode_len();
    if s.len() != n {
        proof {
            assert(s@.len() != lit@.len());
        }
        return false;
    }
    let mut i: usize = 0;
    while i < n
        invariant
            0 <= i <= n,
            n == s@.len() == lit@.len(),
            forall|j: int| 0 <= j < i ==> #[trigger] s@[j] == lit@[j],
        decreases n - i,
    {
        if *slice_index_get(s, i) != lit.get_char(i) {
            proof {
                assert(s@[i as int] != lit@[i as int]);
            }
            return false;
        }
        i = i + 1;
    }
    proof {
        assert(s@ =~= lit@);
    }
    true
}

/// Relies on String's FromIterator over characters: collecting characters
/// yields the string of exactly those characters.
#[verifier::external_body]
pub(crate) fn chars_to_string(v: &Vec<char>) -> (s: String)
    ensures
        s@ == v@,
{
    v.iter().collect()
}

/// Trimming is idempotent: a trimmed string trims to itself.
pub proof fn lemma_trim_idempotent(s: Seq<char>)
    ensures
        trim_spec(trim_spec(s)) == trim_spec(s),
{
    lemma_trim_front_no_leading(s);
    lemma_trim_back_prefix_of(trim_front_spec(s));
    lemma_trim_back_no_trailing(trim_front_spec(s));
    let t = trim_spec(s);
    if t.len() > 0 {
        assert(!is_space(t[0]));
        assert(!is_space(t[t.len() - 1]));
    }
    assert(trim_front_spec(t) == t);
    assert(trim_back_spec(t) == t);
}

proof fn lemma_trim_front_no_leading(s: Seq<char>)
    ensures
        trim_front_spec(s).len() > 0 ==> !is_space(trim_front_spec(s)[0]),
    decreases s.len(),
{
    if s.len() > 0 && is_space(s[0]) {
        lemma_trim_front_no_leading(s.subrange(1, s.len() as int));
    }
}

proof fn lemma_trim_back_no_trailing(s: Seq<char>)
    ensures
        trim_back_spec(s).len() > 0 ==> !is_space(
            trim_back_spec(s)[trim_back_spec(s).len() - 1],
        ),
    decreases s.len(),
{
    if s.len() > 0 && is_space(s[s.len() - 1]) {
        lemma_trim_back_no_trailing(s.subrange(0, s.len() - 1));
    }
}

proof fn lemma_trim_back_prefix_of(s: Seq<char>)
    ensures
        trim_back_spec(s).len() <= s.len(),
        forall|i: int|
            0 <= i < trim_back_spec(s).len() ==> #[trigger] trim_back_spec(s)[i] == s[i],
    decreases s.len(),
{
    if s.len() > 0 && is_space(s[s.len() - 1]) {
        lemma_trim_back_prefix_of(s.subrange(0, s.len() - 1));
    }
}

} // verus!
