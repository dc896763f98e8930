//! Character classes and scanning primitives over lines of text.
//!
//! Lines are viewed as `Seq<char>`.  The spec functions here define, once
//! and for all, what "skip the whitespace", "the end of this token" and
//! "this line contains that substring" mean; the exec functions compute
//! them and the lemmas state their basic properties.

use vstd::prelude::*;
use vstd::string::StrSliceExecFns;

verus! {

/// A whitespace character: the Unicode `White_Space` set, which is what
/// Rust's `char::is_whitespace` and `str::trim_start` go by.
pub open spec fn is_space(c: char) -> bool {
    ||| c == ' '
    ||| c == '\t'
    ||| c == '\n'
    ||| c == '\u{b}'
    ||| c == '\u{c}'
    ||| c == '\r'
    ||| c == '\u{85}'
    ||| c == '\u{a0}'
    ||| c == '\u{1680}'
    ||| c == '\u{2000}'
    ||| c == '\u{2001}'
    ||| c == '\u{2002}'
    ||| c == '\u{2003}'
    ||| c == '\u{2004}'
    ||| c == '\u{2005}'
    ||| c == '\u{2006}'
    ||| c == '\u{2007}'
    ||| c == '\u{2008}'
    ||| c == '\u{2009}'
    ||| c == '\u{200a}'
    ||| c == '\u{2028}'
    ||| c == '\u{2029}'
    ||| c == '\u{202f}'
    ||| c == '\u{205f}'
    ||| c == '\u{3000}'
}

pub fn is_space_char(c: char) -> (r: bool)
    ensures
        r == is_space(c),
{
    c == ' ' || c == '\t' || c == '\n' || c == '\u{b}' || c == '\u{c}' || c == '\r'
        || c == '\u{85}' || c == '\u{a0}' || c == '\u{1680}' || c == '\u{2000}' || c == '\u{2001}'
        || c == '\u{2002}' || c == '\u{2003}' || c == '\u{2004}' || c == '\u{2005}'
        || c == '\u{2006}' || c == '\u{2007}' || c == '\u{2008}' || c == '\u{2009}'
        || c == '\u{200a}' || c == '\u{2028}' || c == '\u{2029}' || c == '\u{202f}'
        || c == '\u{205f}' || c == '\u{3000}'
}

/// An ASCII decimal digit.
pub open spec fn is_digit(c: char) -> bool {
    48 <= c as int <= 57
}

pub fn is_digit_char(c: char) -> (r: bool)
    ensures
        r == is_digit(c),
{
    let u: u32 = c as u32;
    48 <= u && u <= 57
}

/// A character admitted in the loose IPv6 shape: a hex digit or a colon.
pub open spec fn is_hex_or_colon(c: char) -> bool {
    ||| is_digit(c)
    ||| 97 <= c as int <= 102
    ||| 65 <= c as int <= 70
    ||| c as int == 58
}

pub fn is_hex_or_colon_char(c: char) -> (r: bool)
    ensures
        r == is_hex_or_colon(c),
{
    let u: u32 = c as u32;
    (48 <= u && u <= 57) || (97 <= u && u <= 102) || (65 <= u && u <= 70) || u == 58
}

/// The first position at or after `i` holding a non-whitespace character,
/// or the end of `s`.
pub open spec fn skip_spaces(s: Seq<char>, i: int) -> int
    decreases s.len() - i,
{
    if i < 0 || i >= s.len() || !is_space(s[i]) {
        i
    } else {
        skip_spaces(s, i + 1)
    }
}

/// The first position at or after `i` holding whitespace, or the end of
/// `s`: the end of the token that starts at `i`.
pub open spec fn token_end(s: Seq<char>, i: int) -> int
    decreases s.len() - i,
{
    if i < 0 || i >= s.len() || is_space(s[i]) {
        i
    } else {
        token_end(s, i + 1)
    }
}

/// The first position at or after `i` holding `'#'`, or the end of `s`.
pub open spec fn comment_start(s: Seq<char>, i: int) -> int
    decreases s.len() - i,
{
    if i < 0 || i >= s.len() || s[i] == '#' {
        i
    } else {
        comment_start(s, i + 1)
    }
}

/// The end of the ASCII digit run that starts at `i`.
pub open spec fn digits_end(s: Seq<char>, i: int) -> int
    decreases s.len() - i,
{
    if i < 0 || i >= s.len() || !is_digit(s[i]) {
        i
    } else {
        digits_end(s, i + 1)
    }
}

pub proof fn lemma_skip_spaces(s: Seq<char>, i: int)
    requires
        0 <= i <= s.len(),
    ensures
        i <= skip_spaces(s, i) <= s.len(),
        forall|k: int| i <= k < skip_spaces(s, i) ==> is_space(s[k]),
        skip_spaces(s, i) < s.len() ==> !is_space(s[skip_spaces(s, i)]),
    decreases s.len() - i,
{
    if i < s.len() && is_space(s[i]) {
        lemma_skip_spaces(s, i + 1);
    }
}

pub proof fn lemma_token_end(s: Seq<char>, i: int)
    requires
        0 <= i <= s.len(),
    ensures
        i <= token_end(s, i) <= s.len(),
        forall|k: int| i <= k < token_end(s, i) ==> !is_space(s[k]),
        token_end(s, i) < s.len() ==> is_space(s[token_end(s, i)]),
        i < s.len() && !is_space(s[i]) ==> token_end(s, i) > i,
    decreases s.len() - i,
{
    if i < s.len() && !is_space(s[i]) {
        lemma_token_end(s, i + 1);
    }
}

pub proof fn lemma_comment_start(s: Seq<char>, i: int)
    requires
        0 <= i <= s.len(),
    ensures
        i <= comment_start(s, i) <= s.len(),
        forall|k: int| i <= k < comment_start(s, i) ==> s[k] != '#',
        comment_start(s, i) < s.len() ==> s[comment_start(s, i)] == '#',
    decreases s.len() - i,
{
    if i < s.len() && s[i] != '#' {
        lemma_comment_start(s, i + 1);
    }
}

pub proof fn lemma_digits_end(s: Seq<char>, i: int)
    requires
        0 <= i <= s.len(),
    ensures
        i <= digits_end(s, i) <= s.len(),
        forall|k: int| i <= k < digits_end(s, i) ==> is_digit(s[k]),
        digits_end(s, i) < s.len() ==> !is_digit(s[digits_end(s, i)]),
    decreases s.len() - i,
{
    if i < s.len() && is_digit(s[i]) {
        lemma_digits_end(s, i + 1);
    }
}

pub proof fn lemma_skip_spaces_at(s: Seq<char>, i: int, e: int)
    requires
        0 <= i <= e <= s.len(),
        forall|k: int| i <= k < e ==> is_space(#[trigger] s[k]),
        e == s.len() || !is_space(s[e]),
    ensures
        skip_spaces(s, i) == e,
    decreases e - i,
{
    if i < e {
        lemma_skip_spaces_at(s, i + 1, e);
    }
}

pub proof fn lemma_token_end_at(s: Seq<char>, i: int, e: int)
    requires
        0 <= i <= e <= s.len(),
        forall|k: int| i <= k < e ==> !is_space(#[trigger] s[k]),
        e == s.len() || is_space(s[e]),
    ensures
        token_end(s, i) == e,
    decreases e - i,
{
    if i < e {
        lemma_token_end_at(s, i + 1, e);
    }
}

pub proof fn lemma_comment_start_at(s: Seq<char>, i: int, e: int)
    requires
        0 <= i <= e <= s.len(),
        forall|k: int| i <= k < e ==> #[trigger] s[k] != '#',
        e == s.len() || s[e] == '#',
    ensures
        comment_start(s, i) == e,
    decreases e - i,
{
    if i < e {
        lemma_comment_start_at(s, i + 1, e);
    }
}

/// Scanning a suffix of `s` agrees with scanning `s` itself, shifted by
/// where the suffix starts.
pub proof fn lemma_scan_shift(s: Seq<char>, d: int, i: int)
    requires
        0 <= d <= i <= s.len(),
    ensures
        skip_spaces(s, i) == d + skip_spaces(s.subrange(d, s.len() as int), i - d),
        token_end(s, i) == d + token_end(s.subrange(d, s.len() as int), i - d),
        digits_end(s, i) == d + digits_end(s.subrange(d, s.len() as int), i - d),
    decreases s.len() - i,
{
    let t = s.subrange(d, s.len() as int);
    if i < s.len() {
        assert(t[i - d] == s[i]);
        lemma_scan_shift(s, d, i + 1);
    }
}

pub fn skip_spaces_in(s: &str, i: usize) -> (r: usize)
    requires
        i <= s@.len(),
    ensures
        r as int == skip_spaces(s@, i as int),
        i <= r <= s@.len(),
{
    let n: usize = s.unicode_len();
    let mut j: usize = i;
    while j < n && is_space_char(s.get_char(j))
        invariant
            i <= j <= n,
            n as int == s@.len(),
            skip_spaces(s@, i as int) == skip_spaces(s@, j as int),
        decreases n - j,
    {
        j = j + 1;
    }
    j
}

pub fn token_end_in(s: &str, i: usize) -> (r: usize)
    requires
        i <= s@.len(),
    ensures
        r as int == token_end(s@, i as int),
        i <= r <= s@.len(),
{
    let n: usize = s.unicode_len();
    let mut j: usize = i;
    while j < n && !is_space_char(s.get_char(j))
        invariant
            i <= j <= n,
            n as int == s@.len(),
            token_end(s@, i as int) == token_end(s@, j as int),
        decreases n - j,
    {
        j = j + 1;
    }
    j
}

pub fn comment_start_in(s: &str, i: usize) -> (r: usize)
    requires
        i <= s@.len(),
    ensures
        r as int == comment_start(s@, i as int),
        i <= r <= s@.len(),
{
    let n: usize = s.unicode_len();
    let mut j: usize = i;
    while j < n && s.get_char(j) != '#'
        invariant
            i <= j <= n,
            n as int == s@.len(),
            comment_start(s@, i as int) == comment_start(s@, j as int),
        decreases n - j,
    {
        j = j + 1;
    }
    j
}

pub fn digits_end_in(s: &str, i: usize) -> (r: usize)
    requires
        i <= s@.len(),
    ensures
        r as int == digits_end(s@, i as int),
        i <= r <= s@.len(),
{
    let n: usize = s.unicode_len();
    let mut j: usize = i;
    while j < n && is_digit_char(s.get_char(j))
        invariant
            i <= j <= n,
            n as int == s@.len(),
            digits_end(s@, i as int) == digits_end(s@, j as int),
        decreases n - j,
    {
        j = j + 1;
    }
    j
}

/// Character-for-character string equality.
pub fn str_eq(a: &str, b: &str) -> (r: bool)
    ensures
        r == (a@ == b@),
{
    let na: usize = a.unicode_len();
    let nb: usize = b.unicode_len();
    if na != nb {
        return false;
    }
    let mut k: usize = 0;
    while k < na
        invariant
            k <= na,
            na as int == a@.len(),
            na as int == b@.len(),
            forall|t: int| 0 <= t < k ==> a@[t] == b@[t],
        decreases na - k,
    {
        if a.get_char(k) != b.get_char(k) {
            return false;
        }
        k = k + 1;
    }
    proof {
        assert(a@ =~= b@);
    }
    true
}

/// `needle` occurs in `hay` as a contiguous run of characters.
pub open spec fn contains_seq(hay: Seq<char>, needle: Seq<char>) -> bool {
    exists|k: int|
        0 <= k && k + needle.len() <= hay.len() && #[trigger] hay.subrange(
            k,
            k + needle.len() as int,
        ) == needle
}

fn match_at(hay: &str, k: usize, needle: &str) -> (r: bool)
    requires
        k + needle@.len() <= hay@.len(),
        hay@.len() <= usize::MAX,
    ensures
        r == (hay@.subrange(k as int, k as int + needle@.len() as int) == needle@),
{
    let nn: usize = needle.unicode_len();
    let mut t: usize = 0;
    while t < nn
        invariant
            t <= nn,
            nn as int == needle@.len(),
            k + nn <= hay@.len(),
            hay@.len() <= usize::MAX,
            forall|u: int| 0 <= u < t ==> hay@[k + u] == needle@[u],
        decreases nn - t,
    {
        if hay.get_char(k + t) != needle.get_char(t) {
            proof {
                let sub = hay@.subrange(k as int, k as int + needle@.len() as int);
                assert(sub[t as int] != needle@[t as int]);
            }
            return false;
        }
        t = t + 1;
    }
    proof {
        assert(hay@.subrange(k as int, k as int + needle@.len() as int) =~= needle@);
    }
    true
}

/// Substring search, the way the duplicate pre-filter needs it.
pub fn contains_str(hay: &str, needle: &str) -> (r: bool)
    ensures
        r == contains_seq(hay@, needle@),
{
    let nh: usize = hay.unicode_len();
    let nn: usize = needle.unicode_len();
    if nn > nh {
        return false;
    }
    let last: usize = nh - nn;
    let mut k: usize = 0;
    loop
        invariant
            nh as int == hay@.len(),
            nn as int == needle@.len(),
            nn <= nh,
            last == nh - nn,
            k <= last,
            forall|j: int|
                0 <= j < k ==> #[trigger] hay@.subrange(j, j + needle@.len() as int) != needle@,
        decreases last - k,
    {
        if match_at(hay, k, needle) {
            return true;
        }
        if k == last {
            proof {
                assert forall|j: int|
                    0 <= j && j + needle@.len() <= hay@.len() implies #[trigger] hay@.subrange(
                    j,
                    j + needle@.len() as int,
                ) != needle@ by {
                    if j < k as int {
                    } else {
                        assert(j == k as int);
                    }
                }
            }
            return false;
        }
        k = k + 1;
    }
}

} // verus!
