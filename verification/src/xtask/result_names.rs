//! How the benchmark aggregator reads the names of Callgrind outputs and the paths of Criterion
//! estimates: the grammar of a result's name, and the join keys that it gives.
use vstd::prelude::*;

use crate::exercises::command::{is_ws, parse_usize, usize_written};
use crate::xtask::aggregate::{
    apply_segments, build_join_keys, callgrind_workload, infer_payload, infer_variant,
    join_key_text, normalize_callgrind_workload, payload_named, segment_fields, split_function_taxonomy,
    split_pairs, starts_with, taxonomy_from, text_starts_with, variant_named, JoinKeys, JoinModel,
};
use crate::xtask::bench_runner::{infix_at, infix_here, lowercase};
use vstd::utf8::encode_utf8;

verus! {

/// A decimal digit in Unicode's sense (general category `Nd`), as a regular expression's `\d`
/// reads it.
pub open spec fn is_decimal_digit(c: char) -> bool {
    let u = c as u32;
    ||| 0x30 <= u <= 0x39
    ||| 0x660 <= u <= 0x669
    ||| 0x6F0 <= u <= 0x6F9
    ||| 0x7C0 <= u <= 0x7C9
    ||| 0x966 <= u <= 0x96F
    ||| 0x9E6 <= u <= 0x9EF
    ||| 0xA66 <= u <= 0xA6F
    ||| 0xAE6 <= u <= 0xAEF
    ||| 0xB66 <= u <= 0xB6F
    ||| 0xBE6 <= u <= 0xBEF
    ||| 0xC66 <= u <= 0xC6F
    ||| 0xCE6 <= u <= 0xCEF
    ||| 0xD66 <= u <= 0xD6F
    ||| 0xDE6 <= u <= 0xDEF
    ||| 0xE50 <= u <= 0xE59
    ||| 0xED0 <= u <= 0xED9
    ||| 0xF20 <= u <= 0xF29
    ||| 0x1040 <= u <= 0x1049
    ||| 0x1090 <= u <= 0x1099
    ||| 0x17E0 <= u <= 0x17E9
    ||| 0x1810 <= u <= 0x1819
    ||| 0x1946 <= u <= 0x194F
    ||| 0x19D0 <= u <= 0x19D9
    ||| 0x1A80 <= u <= 0x1A89
    ||| 0x1A90 <= u <= 0x1A99
    ||| 0x1B50 <= u <= 0x1B59
    ||| 0x1BB0 <= u <= 0x1BB9
    ||| 0x1C40 <= u <= 0x1C49
    ||| 0x1C50 <= u <= 0x1C59
    ||| 0xA620 <= u <= 0xA629
    ||| 0xA8D0 <= u <= 0xA8D9
    ||| 0xA900 <= u <= 0xA909
    ||| 0xA9D0 <= u <= 0xA9D9
    ||| 0xA9F0 <= u <= 0xA9F9
    ||| 0xAA50 <= u <= 0xAA59
    ||| 0xABF0 <= u <= 0xABF9
    ||| 0xFF10 <= u <= 0xFF19
    ||| 0x104A0 <= u <= 0x104A9
    ||| 0x10D30 <= u <= 0x10D39
    ||| 0x10D40 <= u <= 0x10D49
    ||| 0x11066 <= u <= 0x1106F
    ||| 0x110F0 <= u <= 0x110F9
    ||| 0x11136 <= u <= 0x1113F
    ||| 0x111D0 <= u <= 0x111D9
    ||| 0x112F0 <= u <= 0x112F9
    ||| 0x11450 <= u <= 0x11459
    ||| 0x114D0 <= u <= 0x114D9
    ||| 0x11650 <= u <= 0x11659
    ||| 0x116C0 <= u <= 0x116C9
    ||| 0x116D0 <= u <= 0x116E3
    ||| 0x11730 <= u <= 0x11739
    ||| 0x118E0 <= u <= 0x118E9
    ||| 0x11950 <= u <= 0x11959
    ||| 0x11BF0 <= u <= 0x11BF9
    ||| 0x11C50 <= u <= 0x11C59
    ||| 0x11D50 <= u <= 0x11D59
    ||| 0x11DA0 <= u <= 0x11DA9
    ||| 0x11F50 <= u <= 0x11F59
    ||| 0x16130 <= u <= 0x16139
    ||| 0x16A60 <= u <= 0x16A69
    ||| 0x16AC0 <= u <= 0x16AC9
    ||| 0x16B50 <= u <= 0x16B59
    ||| 0x16D70 <= u <= 0x16D79
    ||| 0x1CCF0 <= u <= 0x1CCF9
    ||| 0x1D7CE <= u <= 0x1D7FF
    ||| 0x1E140 <= u <= 0x1E149
    ||| 0x1E2F0 <= u <= 0x1E2F9
    ||| 0x1E4F0 <= u <= 0x1E4F9
    ||| 0x1E5F1 <= u <= 0x1E5FA
    ||| 0x1E950 <= u <= 0x1E959
    ||| 0x1FBF0 <= u <= 0x1FBF9
}

/// Whether `c` is a Unicode decimal digit.
pub fn decimal_digit(c: char) -> (r: bool)
    ensures
        r == is_decimal_digit(c),
{
    let u = c as u32;
    (0x30 <= u && u <= 0x39) ||
        (0x660 <= u && u <= 0x669) ||
        (0x6F0 <= u && u <= 0x6F9) ||
        (0x7C0 <= u && u <= 0x7C9) ||
        (0x966 <= u && u <= 0x96F) ||
        (0x9E6 <= u && u <= 0x9EF) ||
        (0xA66 <= u && u <= 0xA6F) ||
        (0xAE6 <= u && u <= 0xAEF) ||
        (0xB66 <= u && u <= 0xB6F) ||
        (0xBE6 <= u && u <= 0xBEF) ||
        (0xC66 <= u && u <= 0xC6F) ||
        (0xCE6 <= u && u <= 0xCEF) ||
        (0xD66 <= u && u <= 0xD6F) ||
        (0xDE6 <= u && u <= 0xDEF) ||
        (0xE50 <= u && u <= 0xE59) ||
        (0xED0 <= u && u <= 0xED9) ||
        (0xF20 <= u && u <= 0xF29) ||
        (0x1040 <= u && u <= 0x1049) ||
        (0x1090 <= u && u <= 0x1099) ||
        (0x17E0 <= u && u <= 0x17E9) ||
        (0x1810 <= u && u <= 0x1819) ||
        (0x1946 <= u && u <= 0x194F) ||
        (0x19D0 <= u && u <= 0x19D9) ||
        (0x1A80 <= u && u <= 0x1A89) ||
        (0x1A90 <= u && u <= 0x1A99) ||
        (0x1B50 <= u && u <= 0x1B59) ||
        (0x1BB0 <= u && u <= 0x1BB9) ||
        (0x1C40 <= u && u <= 0x1C49) ||
        (0x1C50 <= u && u <= 0x1C59) ||
        (0xA620 <= u && u <= 0xA629) ||
        (0xA8D0 <= u && u <= 0xA8D9) ||
        (0xA900 <= u && u <= 0xA909) ||
        (0xA9D0 <= u && u <= 0xA9D9) ||
        (0xA9F0 <= u && u <= 0xA9F9) ||
        (0xAA50 <= u && u <= 0xAA59) ||
        (0xABF0 <= u && u <= 0xABF9) ||
        (0xFF10 <= u && u <= 0xFF19) ||
        (0x104A0 <= u && u <= 0x104A9) ||
        (0x10D30 <= u && u <= 0x10D39) ||
        (0x10D40 <= u && u <= 0x10D49) ||
        (0x11066 <= u && u <= 0x1106F) ||
        (0x110F0 <= u && u <= 0x110F9) ||
        (0x11136 <= u && u <= 0x1113F) ||
        (0x111D0 <= u && u <= 0x111D9) ||
        (0x112F0 <= u && u <= 0x112F9) ||
        (0x11450 <= u && u <= 0x11459) ||
        (0x114D0 <= u && u <= 0x114D9) ||
        (0x11650 <= u && u <= 0x11659) ||
        (0x116C0 <= u && u <= 0x116C9) ||
        (0x116D0 <= u && u <= 0x116E3) ||
        (0x11730 <= u && u <= 0x11739) ||
        (0x118E0 <= u && u <= 0x118E9) ||
        (0x11950 <= u && u <= 0x11959) ||
        (0x11BF0 <= u && u <= 0x11BF9) ||
        (0x11C50 <= u && u <= 0x11C59) ||
        (0x11D50 <= u && u <= 0x11D59) ||
        (0x11DA0 <= u && u <= 0x11DA9) ||
        (0x11F50 <= u && u <= 0x11F59) ||
        (0x16130 <= u && u <= 0x16139) ||
        (0x16A60 <= u && u <= 0x16A69) ||
        (0x16AC0 <= u && u <= 0x16AC9) ||
        (0x16B50 <= u && u <= 0x16B59) ||
        (0x16D70 <= u && u <= 0x16D79) ||
        (0x1CCF0 <= u && u <= 0x1CCF9) ||
        (0x1D7CE <= u && u <= 0x1D7FF) ||
        (0x1E140 <= u && u <= 0x1E149) ||
        (0x1E2F0 <= u && u <= 0x1E2F9) ||
        (0x1E4F0 <= u && u <= 0x1E4F9) ||
        (0x1E5F1 <= u && u <= 0x1E5FA) ||
        (0x1E950 <= u && u <= 0x1E959) ||
        (0x1FBF0 <= u && u <= 0x1FBF9)
}

/// Whether `c` is white space in Unicode's sense.
pub fn white_space(c: char) -> (r: bool)
    ensures
        r == is_ws(c),
{
    let u = c as u32;
    (9 <= u && u <= 13) || u == 32 || u == 0x85 || u == 0xA0 || u == 0x1680 || (0x2000 <= u && u
        <= 0x200A) || u == 0x2028 || u == 0x2029 || u == 0x202F || u == 0x205F || u == 0x3000
}

/// A character that may stand in the name of a Callgrind target: `a` to `z`, `0` to `9`, `_`.
pub open spec fn is_name_char(c: char) -> bool {
    ('a' <= c && c <= 'z') || ('0' <= c && c <= '9') || c == '_'
}

/// Whether `c` may stand in the name of a Callgrind target.
pub fn name_char(c: char) -> (r: bool)
    ensures
        r == is_name_char(c),
{
    ('a' <= c && c <= 'z') || ('0' <= c && c <= '9') || c == '_'
}

/// Where the run of digits that starts at `i` ends.
pub open spec fn digits_end(s: Seq<char>, i: int) -> int
    decreases s.len() - i,
{
    if 0 <= i < s.len() && is_decimal_digit(s[i]) {
        digits_end(s, i + 1)
    } else {
        i
    }
}

/// Where the run of name characters that starts at `i` ends.
pub open spec fn name_end(s: Seq<char>, i: int) -> int
    decreases s.len() - i,
{
    if 0 <= i < s.len() && is_name_char(s[i]) {
        name_end(s, i + 1)
    } else {
        i
    }
}

proof fn lemma_digits_end(s: Seq<char>, i: int)
    requires
        0 <= i <= s.len(),
    ensures
        i <= digits_end(s, i) <= s.len(),
        forall|j: int| i <= j < digits_end(s, i) ==> is_decimal_digit(#[trigger] s[j]),
    decreases s.len() - i,
{
    if i < s.len() && is_decimal_digit(s[i]) {
        lemma_digits_end(s, i + 1);
    }
}

proof fn lemma_name_end(s: Seq<char>, i: int)
    requires
        0 <= i <= s.len(),
    ensures
        i <= name_end(s, i) <= s.len(),
    decreases s.len() - i,
{
    if i < s.len() && is_name_char(s[i]) {
        lemma_name_end(s, i + 1);
    }
}

/// The end of the run of digits in `s` that starts at `i`.
fn digits_end_text(s: &str, n: usize, i: usize) -> (r: usize)
    requires
        n == s@.len(),
        i <= n,
    ensures
        r == digits_end(s@, i as int),
{
    let mut j = i;
    while j < n && decimal_digit(s.get_char(j))
        invariant
            n == s@.len(),
            i <= j <= n,
            digits_end(s@, i as int) == digits_end(s@, j as int),
        decreases n - j,
    {
        j = j + 1;
    }
    j
}

/// The end of the run of name characters in `s` that starts at `i`.
fn name_end_text(s: &str, n: usize, i: usize) -> (r: usize)
    requires
        n == s@.len(),
        i <= n,
    ensures
        r == name_end(s@, i as int),
{
    let mut j = i;
    while j < n && name_char(s.get_char(j))
        invariant
            n == s@.len(),
            i <= j <= n,
            name_end(s@, i as int) == name_end(s@, j as int),
        decreases n - j,
    {
        j = j + 1;
    }
    j
}

/// Whether `pat` occurs in `s` at `i`.
fn literal_at(s: &str, n: usize, pat: &str, i: usize) -> (r: bool)
    requires
        n == s@.len(),
        i <= n,
    ensures
        r == infix_at(s@, pat@, i as int),
{
    let m = pat.unicode_len();
    if m > n - i {
        false
    } else {
        infix_here(s, pat, i, m)
    }
}

/// The end of a Callgrind output name at `e`: `.out`, or `.`, digits and `.out`.
pub open spec fn out_follows(s: Seq<char>, e: int) -> bool {
    ||| infix_at(s, ".out"@, e)
    ||| (0 <= e < s.len() && s[e] == '.' && digits_end(s, e + 1) > e + 1 && infix_at(
        s,
        ".out"@,
        digits_end(s, e + 1),
    ))
}

/// The size text that a Callgrind output name gives at `k`: `.n`, then decimal digits and a
/// `k` if one follows them, then the end of the name (see `out_follows`).
pub open spec fn size_at(s: Seq<char>, k: int) -> Option<Seq<char>> {
    if infix_at(s, ".n"@, k) {
        let d = digits_end(s, k + 2);
        let e = if d < s.len() && s[d] == 'k' {
            d + 1
        } else {
            d
        };
        if d > k + 2 && out_follows(s, e) {
            Some(s.subrange(k + 2, e))
        } else {
            None
        }
    } else {
        None
    }
}

/// Whether a Callgrind output name ends at `e` (see `out_follows`).
fn out_follows_text(s: &str, n: usize, e: usize) -> (r: bool)
    requires
        n == s@.len(),
        e <= n,
    ensures
        r == out_follows(s@, e as int),
{
    if literal_at(s, n, ".out", e) {
        return true;
    }
    if e < n && s.get_char(e) == '.' {
        let f = digits_end_text(s, n, e + 1);
        proof {
            lemma_digits_end(s@, e + 1);
        }
        f > e + 1 && literal_at(s, n, ".out", f)
    } else {
        false
    }
}

/// The size text of a Callgrind output name at `k` (see `size_at`), with where it starts and
/// ends.
fn size_at_text(s: &str, n: usize, k: usize) -> (r: Option<(usize, usize)>)
    requires
        n == s@.len(),
        k <= n,
    ensures
        match r {
            Some((a, b)) => a == k + 2 && a <= b <= n && size_at(s@, k as int) == Some(
                s@.subrange(a as int, b as int),
            ),
            None => size_at(s@, k as int) is None,
        },
{
    if !literal_at(s, n, ".n", k) {
        return None;
    }
    proof {
        reveal_strlit(".n");
    }
    let d = digits_end_text(s, n, k + 2);
    proof {
        lemma_digits_end(s@, k + 2);
    }
    let e = if d < n && s.get_char(d) == 'k' {
        d + 1
    } else {
        d
    };
    if d > k + 2 && out_follows_text(s, n, e) {
        Some((k + 2, e))
    } else {
        None
    }
}

/// The name and the size text of a Callgrind output file at `i`: `callgrind.`, a target name of
/// `callgrind_` and one or more name characters, then a size (see `size_at`).
pub open spec fn name_match_at(s: Seq<char>, i: int) -> Option<(Seq<char>, Seq<char>)> {
    if infix_at(s, "callgrind.callgrind_"@, i) {
        let e = name_end(s, i + 20);
        if e > i + 20 {
            match size_at(s, e) {
                Some(z) => Some((s.subrange(i + 10, e), z)),
                None => None,
            }
        } else {
            None
        }
    } else {
        None
    }
}

/// The leftmost name match at `i` or after it.
pub open spec fn first_name_match(s: Seq<char>, i: int) -> Option<(Seq<char>, Seq<char>)>
    decreases s.len() - i,
{
    if 0 <= i < s.len() {
        match name_match_at(s, i) {
            Some(m) => Some(m),
            None => first_name_match(s, i + 1),
        }
    } else {
        None
    }
}

pub proof fn lemma_first_name_match(s: Seq<char>, i: int)
    requires
        0 <= i,
    ensures
        match first_name_match(s, i) {
            Some(m) => m.0.len() > 10,
            None => true,
        },
    decreases s.len() - i,
{
    if 0 <= i < s.len() {
        if name_match_at(s, i) is None {
            lemma_first_name_match(s, i + 1);
        } else {
            lemma_name_end(s, i + 20);
        }
    }
}

/// The leftmost size at `k` or after it.
pub open spec fn first_size(s: Seq<char>, k: int) -> Option<Seq<char>>
    decreases s.len() - k,
{
    if 0 <= k < s.len() {
        match size_at(s, k) {
            Some(z) => Some(z),
            None => first_size(s, k + 1),
        }
    } else {
        None
    }
}

/// The name match at `i` (see `name_match_at`), as the bounds of the name and of the size.
fn name_match_at_text(s: &str, n: usize, i: usize) -> (r: Option<(usize, usize, usize, usize)>)
    requires
        n == s@.len(),
        i <= n,
    ensures
        match r {
            Some((a, b, c, d)) => a <= b <= n && c <= d <= n && name_match_at(s@, i as int)
                == Some((s@.subrange(a as int, b as int), s@.subrange(c as int, d as int))),
            None => name_match_at(s@, i as int) is None,
        },
{
    if !literal_at(s, n, "callgrind.callgrind_", i) {
        return None;
    }
    proof {
        reveal_strlit("callgrind.callgrind_");
    }
    let e = name_end_text(s, n, i + 20);
    proof {
        lemma_name_end(s@, i + 20);
    }
    if e <= i + 20 {
        return None;
    }
    match size_at_text(s, n, e) {
        Some((c, d)) => Some((i + 10, e, c, d)),
        None => None,
    }
}

/// The leftmost name match in `s` (see `first_name_match`), as bounds.
fn first_name_match_text(s: &str, n: usize) -> (r: Option<(usize, usize, usize, usize)>)
    requires
        n == s@.len(),
    ensures
        match r {
            Some((a, b, c, d)) => a <= b <= n && c <= d <= n && first_name_match(s@, 0) == Some(
                (s@.subrange(a as int, b as int), s@.subrange(c as int, d as int)),
            ),
            None => first_name_match(s@, 0) is None,
        },
{
    let mut i: usize = 0;
    while i < n
        invariant
            n == s@.len(),
            i <= n,
            first_name_match(s@, 0) == first_name_match(s@, i as int),
        decreases n - i,
    {
        let m = name_match_at_text(s, n, i);
        if m.is_some() {
            return m;
        }
        i = i + 1;
    }
    None
}

/// The leftmost size in `s` (see `first_size`), as bounds.
fn first_size_text(s: &str, n: usize) -> (r: Option<(usize, usize)>)
    requires
        n == s@.len(),
    ensures
        match r {
            Some((a, b)) => a <= b <= n && first_size(s@, 0) == Some(
                s@.subrange(a as int, b as int),
            ),
            None => first_size(s@, 0) is None,
        },
{
    let mut k: usize = 0;
    while k < n
        invariant
            n == s@.len(),
            k <= n,
            first_size(s@, 0) == first_size(s@, k as int),
        decreases n - k,
    {
        let m = size_at_text(s, n, k);
        if m.is_some() {
            return m;
        }
        k = k + 1;
    }
    None
}

/// A character that ends a legacy token: white space or `/`.
pub open spec fn is_sep(c: char) -> bool {
    is_ws(c) || c == '/'
}

/// Where the run of characters other than separators that starts at `i` ends.
pub open spec fn run_end(s: Seq<char>, i: int) -> int
    decreases s.len() - i,
{
    if 0 <= i < s.len() && !is_sep(s[i]) {
        run_end(s, i + 1)
    } else {
        i
    }
}

pub proof fn lemma_run_end(s: Seq<char>, i: int)
    requires
        0 <= i <= s.len(),
    ensures
        i <= run_end(s, i) <= s.len(),
    decreases s.len() - i,
{
    if i < s.len() && !is_sep(s[i]) {
        lemma_run_end(s, i + 1);
    }
}

/// A legacy token starts at `j`: `callgrind__` and a character other than a separator.
pub open spec fn token_at(s: Seq<char>, j: int) -> bool {
    infix_at(s, "callgrind__"@, j) && j + 11 < s.len() && !is_sep(s[j + 11])
}

/// Where the leftmost legacy token at `i` or after it starts.
pub open spec fn next_token(s: Seq<char>, i: int) -> Option<int>
    decreases s.len() - i,
{
    if 0 <= i < s.len() {
        if token_at(s, i) {
            Some(i)
        } else {
            next_token(s, i + 1)
        }
    } else {
        None
    }
}

pub proof fn lemma_next_token(s: Seq<char>, i: int)
    requires
        0 <= i,
    ensures
        match next_token(s, i) {
            Some(j) => i <= j && token_at(s, j),
            None => true,
        },
    decreases s.len() - i,
{
    if 0 <= i < s.len() && !token_at(s, i) {
        lemma_next_token(s, i + 1);
    }
}

/// The last of the legacy tokens found from `i` on, left to right and without overlap: each is
/// `callgrind__` and the run of characters other than separators that follows it.
pub open spec fn last_token(s: Seq<char>, i: int) -> Option<Seq<char>>
    decreases s.len() - i,
{
    if 0 <= i {
        match next_token(s, i) {
            Some(j) => {
                proof {
                    lemma_next_token(s, i);
                    lemma_run_end(s, j + 12);
                }
                let e = run_end(s, j + 11);
                match last_token(s, e) {
                    Some(t) => Some(t),
                    None => Some(s.subrange(j, e)),
                }
            },
            None => None,
        }
    } else {
        None
    }
}

/// Whether `c` ends a legacy token.
fn sep_char(c: char) -> (r: bool)
    ensures
        r == is_sep(c),
{
    white_space(c) || c == '/'
}

/// The end of the run of characters other than separators in `s` that starts at `i`.
fn run_end_text(s: &str, n: usize, i: usize) -> (r: usize)
    requires
        n == s@.len(),
        i <= n,
    ensures
        r == run_end(s@, i as int),
{
    let mut j = i;
    while j < n && !sep_char(s.get_char(j))
        invariant
            n == s@.len(),
            i <= j <= n,
            run_end(s@, i as int) == run_end(s@, j as int),
        decreases n - j,
    {
        j = j + 1;
    }
    j
}

/// Where the leftmost legacy token at `i` or after it starts (see `next_token`).
fn next_token_text(s: &str, n: usize, i: usize) -> (r: Option<usize>)
    requires
        n == s@.len(),
        i <= n,
    ensures
        match r {
            Some(j) => next_token(s@, i as int) == Some(j as int),
            None => next_token(s@, i as int) is None,
        },
{
    let mut j = i;
    while j < n
        invariant
            n == s@.len(),
            i <= j <= n,
            next_token(s@, i as int) == next_token(s@, j as int),
        decreases n - j,
    {
        if 11 < n - j && literal_at(s, n, "callgrind__", j) && !sep_char(s.get_char(j + 11)) {
            return Some(j);
        }
        j = j + 1;
    }
    None
}

/// The last legacy token in `s` (see `last_token`).
fn last_token_text(s: &str) -> (r: Option<String>)
    ensures
        match r {
            Some(t) => last_token(s@, 0) == Some(t@),
            None => last_token(s@, 0) is None,
        },
{
    let n = s.unicode_len();
    let mut i: usize = 0;
    let mut found: Option<(usize, usize)> = None;
    let mut done = false;
    while !done
        invariant
            n == s@.len(),
            i <= n,
            found matches Some((a, b)) ==> a <= b <= n,
            done ==> last_token(s@, i as int) is None,
            last_token(s@, 0) == match last_token(s@, i as int) {
                Some(t) => Some(t),
                None => match found {
                    Some((a, b)) => Some(s@.subrange(a as int, b as int)),
                    None => None,
                },
            },
        decreases n - i + (if done { 0int } else { 1int }),
    {
        match next_token_text(s, n, i) {
            Some(j) => {
                proof {
                    lemma_next_token(s@, i as int);
                    lemma_run_end(s@, j + 12);
                }
                let e = run_end_text(s, n, j + 11);
                found = Some((j, e));
                i = e;
            },
            None => {
                done = true;
            },
        }
    }
    match found {
        Some((a, b)) => Some(String::from_str(s.substring_char(a, b))),
        None => None,
    }
}

/// What a size text stands for: the number that its digits write as Rust's integer parsing
/// reads them, times a thousand where the text ends in `k`; nothing where they do not parse.
pub open spec fn size_token(t: Seq<char>) -> Option<int> {
    if t.len() > 0 && t.last() == 'k' {
        match usize_written(encode_utf8(t.drop_last())) {
            Some(v) => Some(v * 1000),
            None => None,
        }
    } else {
        match usize_written(encode_utf8(t)) {
            Some(v) => Some(v as int),
            None => None,
        }
    }
}

/// A size text that reading can hold: plain digits always can (a number too large for a
/// `usize` is simply no number); a `k` size can when its digits, times a thousand, still fit
/// a `usize`.
pub open spec fn size_fits(t: Seq<char>) -> bool {
    t.len() > 0 && t.last() == 'k' ==> match usize_written(encode_utf8(t.drop_last())) {
        Some(v) => v * 1000 <= usize::MAX,
        None => true,
    }
}

/// The size that a size text gives: the number it stands for, or 0.
pub open spec fn size_value(t: Seq<char>) -> usize {
    match size_token(t) {
        Some(v) => v as usize,
        None => 0,
    }
}

/// Reads a size text (see `size_token`).
pub fn parse_size_token(token: &str) -> (r: Option<usize>)
    requires
        size_fits(token@),
    ensures
        match r {
            Some(v) => size_token(token@) == Some(v as int),
            None => size_token(token@) is None,
        },
{
    let n = token.unicode_len();
    if n > 0 && token.get_char(n - 1) == 'k' {
        let value = token.substring_char(0, n - 1);
        proof {
            assert(value@ =~= token@.drop_last());
        }
        match parse_usize(value) {
            Some(v) => Some(v * 1000),
            None => None,
        }
    } else {
        parse_usize(token)
    }
}

/// The size that a size text in `s` from `a` to `b` gives (see `size_value`).
fn size_value_text(s: &str, a: usize, b: usize) -> (r: usize)
    requires
        a <= b <= s@.len(),
        size_fits(s@.subrange(a as int, b as int)),
    ensures
        r == size_value(s@.subrange(a as int, b as int)),
{
    match parse_size_token(s.substring_char(a, b)) {
        Some(v) => v,
        None => 0,
    }
}

/// The operations that a Callgrind target name may hold, in the order they are tried.
pub open spec fn callgrind_operation(k: int) -> Seq<char> {
    if k == 0 {
        "contains_temporal"@
    } else if k == 1 {
        "contains_zipf"@
    } else if k == 2 {
        "contains_mixed"@
    } else if k == 3 {
        "push_pop"@
    } else if k == 4 {
        "insert"@
    } else if k == 5 {
        "remove"@
    } else if k == 6 {
        "mix"@
    } else {
        "thrash"@
    }
}

fn callgrind_operation_text(k: usize) -> (r: &'static str)
    requires
        k < 8,
    ensures
        r@ == callgrind_operation(k as int),
{
    match k {
        0 => "contains_temporal",
        1 => "contains_zipf",
        2 => "contains_mixed",
        3 => "push_pop",
        4 => "insert",
        5 => "remove",
        6 => "mix",
        _ => "thrash",
    }
}

/// Where `p` first occurs in `s` at `i` or after it.
pub open spec fn first_at(s: Seq<char>, p: Seq<char>, i: int) -> Option<int>
    decreases s.len() - i,
{
    if 0 <= i < s.len() {
        if infix_at(s, p, i) {
            Some(i)
        } else {
            first_at(s, p, i + 1)
        }
    } else {
        None
    }
}

/// Where `p` first occurs in `s` (see `first_at`).
fn first_at_text(s: &str, p: &str) -> (r: Option<usize>)
    ensures
        match r {
            Some(x) => first_at(s@, p@, 0) == Some(x as int),
            None => first_at(s@, p@, 0) is None,
        },
{
    let n = s.unicode_len();
    let mut i: usize = 0;
    while i < n
        invariant
            n == s@.len(),
            i <= n,
            first_at(s@, p@, 0) == first_at(s@, p@, i as int),
        decreases n - i,
    {
        if literal_at(s, n, p, i) {
            return Some(i);
        }
        i = i + 1;
    }
    None
}

/// The workload, operation and implementation in the rest of a Callgrind target name, trying
/// the operations from `k` on: the first operation that occurs as `_op_` splits the rest at
/// its first occurrence.
pub open spec fn callgrind_split(rest: Seq<char>, k: int) -> Option<
    (Seq<char>, Seq<char>, Seq<char>),
>
    decreases 8 - k,
{
    if 0 <= k < 8 {
        let op = callgrind_operation(k);
        let tok = seq!['_'] + op + seq!['_'];
        match first_at(rest, tok, 0) {
            Some(x) => Some((rest.take(x), op, rest.skip(x + tok.len()))),
            None => callgrind_split(rest, k + 1),
        }
    } else {
        None
    }
}

/// The join keys of a Callgrind operation: the workload with its `_u64` put back where its
/// name leaves it out, and the variant that the implementation tells.
pub open spec fn callgrind_keys(
    w: Seq<char>,
    p: Seq<char>,
    o: Seq<char>,
    i: Seq<char>,
    size: usize,
) -> JoinModel {
    let w2 = callgrind_workload(w, p);
    let v = variant_named(lowercase(i));
    (w2, p, o, i, size, v, join_key_text(w2, p, o, i, size, v))
}

/// The join keys that a Callgrind output name in the current format gives: the leftmost
/// name match, whose target name (not one of the legacy `callgrind__` kind) splits into
/// workload, operation and implementation; the payload is what the workload tells.
pub open spec fn named_join(path: Seq<char>) -> Option<JoinModel> {
    match first_name_match(path, 0) {
        Some(m) => if starts_with(m.0, "callgrind__"@) {
            None
        } else {
            match callgrind_split(m.0.skip(10), 0) {
                Some(parts) => Some(
                    callgrind_keys(
                        parts.0,
                        payload_named(lowercase(parts.0 + seq![' '])),
                        parts.1,
                        parts.2,
                        size_value(m.1),
                    ),
                ),
                None => None,
            }
        },
        None => None,
    }
}

/// The join keys that a legacy token gives: the last token in the path and the command, split
/// at `__` into segments that give the workload, operation and implementation (all three
/// needed) and the payload (`u64` when absent); the size is the leftmost one in the path, or 0.
pub open spec fn legacy_join(path: Seq<char>, command: Seq<char>) -> Option<JoinModel> {
    match last_token(path + seq![' '] + command, 0) {
        Some(t) => {
            let f = apply_segments((None, None, None, None, None), split_pairs(t));
            if f.0 is Some && f.2 is Some && f.3 is Some {
                let p = match f.1 {
                    Some(x) => x,
                    None => "u64"@,
                };
                let size = match first_size(path, 0) {
                    Some(z) => size_value(z),
                    None => 0,
                };
                Some(callgrind_keys(f.0->0, p, f.2->0, f.3->0, size))
            } else {
                None
            }
        },
        None => None,
    }
}

/// The join keys of a Callgrind output: those of its name in the current format, else those
/// of a legacy token.
pub open spec fn callgrind_join_of(path: Seq<char>, command: Seq<char>) -> Option<JoinModel> {
    match named_join(path) {
        Some(j) => Some(j),
        None => legacy_join(path, command),
    }
}

/// Every size text that reading a Callgrind output parses stands for a number that a `usize`
/// holds: that of the name match, and the leftmost one in the path where a legacy token is read.
pub open spec fn callgrind_sizes_fit(path: Seq<char>, command: Seq<char>) -> bool {
    &&& match first_name_match(path, 0) {
        Some(m) => size_fits(m.1),
        None => true,
    }
    &&& (named_join(path) is None && last_token(path + seq![' '] + command, 0) is Some) ==> match first_size(path, 0) {
        Some(z) => size_fits(z),
        None => true,
    }
}

/// The text of an optional command: the command, or nothing.
pub open spec fn command_text(command: Option<&str>) -> Seq<char> {
    match command {
        Some(c) => c@,
        None => Seq::empty(),
    }
}

/// Splits the rest of a Callgrind target name (see `callgrind_split`): where the workload
/// ends, which operation, and where the implementation starts.
fn callgrind_split_text(rest: &str) -> (r: Option<(usize, usize, usize)>)
    ensures
        match r {
            Some((x, k, y)) => x <= y <= rest@.len() && k < 8 && callgrind_split(rest@, 0) == Some(
                (rest@.take(x as int), callgrind_operation(k as int), rest@.skip(y as int)),
            ),
            None => callgrind_split(rest@, 0) is None,
        },
{
    proof {
        reveal_strlit("_");
    }
    let n = rest.unicode_len();
    let mut k: usize = 0;
    while k < 8
        invariant
            n == rest@.len(),
            k <= 8,
            callgrind_split(rest@, 0) == callgrind_split(rest@, k as int),
        decreases 8 - k,
    {
        let op = callgrind_operation_text(k);
        let mut tok = String::from_str("_");
        tok.append(op);
        tok.append("_");
        proof {
            reveal_strlit("_");
            assert("_"@ =~= seq!['_']);
            assert(tok@ =~= seq!['_'] + op@ + seq!['_']);
        }
        match first_at_text(rest, tok.as_str()) {
            Some(x) => {
                let m = tok.as_str().unicode_len();
                proof {
                    lemma_first_at(rest@, tok@, 0);
                }
                return Some((x, k, x + m));
            },
            None => {},
        }
        k = k + 1;
    }
    None
}

proof fn lemma_first_at(s: Seq<char>, p: Seq<char>, i: int)
    requires
        0 <= i,
    ensures
        match first_at(s, p, i) {
            Some(x) => i <= x && infix_at(s, p, x),
            None => true,
        },
    decreases s.len() - i,
{
    if 0 <= i < s.len() && !infix_at(s, p, i) {
        lemma_first_at(s, p, i + 1);
    }
}

/// The join keys of a Callgrind operation (see `callgrind_keys`).
fn callgrind_keys_text(w: &str, p: &str, o: &str, i: &str, size: usize) -> (r: JoinKeys)
    ensures
        r@ == callgrind_keys(w@, p@, o@, i@, size),
{
    let w2 = normalize_callgrind_workload(w, p);
    let v = infer_variant(i);
    build_join_keys(w2.as_str(), p, o, i, size, v.as_str())
}

/// The join keys that a Callgrind output name in the current format gives (see
/// `named_join`).
fn named_join_text(path: &str) -> (r: Option<JoinKeys>)
    requires
        match first_name_match(path@, 0) {
            Some(m) => size_fits(m.1),
            None => true,
        },
    ensures
        match r {
            Some(j) => named_join(path@) == Some(j@),
            None => named_join(path@) is None,
        },
{
    let n = path.unicode_len();
    match first_name_match_text(path, n) {
        None => None,
        Some((a, b, c, d)) => {
            let name = path.substring_char(a, b);
            let size = size_value_text(path, c, d);
            if text_starts_with(name, "callgrind__") {
                return None;
            }
            let ghost nm = name@;
            let m = name.unicode_len();
            proof {
                reveal_strlit("callgrind__");
                reveal_strlit("callgrind.callgrind_");
                lemma_first_name_match(path@, 0);
            }
            let rest = name.substring_char(10, m);
            proof {
                assert(rest@ =~= nm.skip(10));
            }
            match callgrind_split_text(rest) {
                Some((x, k, y)) => {
                    let w = rest.substring_char(0, x);
                    let imp = rest.substring_char(y, m - 10);
                    let op = callgrind_operation_text(k);
                    proof {
                        reveal_strlit("");
                        assert(w@ =~= rest@.take(x as int));
                        assert(imp@ =~= rest@.skip(y as int));
                        assert(w@ + seq![' '] + ""@ =~= w@ + seq![' ']);
                    }
                    let payload = infer_payload(w, "");
                    Some(callgrind_keys_text(w, payload.as_str(), op, imp, size))
                },
                None => None,
            }
        },
    }
}

/// The join keys that a legacy token gives (see `legacy_join`).
fn legacy_join_text(path: &str, command: Option<&str>) -> (r: Option<JoinKeys>)
    requires
        last_token(path@ + seq![' '] + command_text(command), 0) is Some ==> match first_size(
            path@,
            0,
        ) {
            Some(z) => size_fits(z),
            None => true,
        },
    ensures
        match r {
            Some(j) => legacy_join(path@, command_text(command)) == Some(j@),
            None => legacy_join(path@, command_text(command)) is None,
        },
{
    let mut source = String::from_str(path);
    source.append(" ");
    match command {
        Some(c) => source.append(c),
        None => {},
    }
    proof {
        reveal_strlit(" ");
        assert(" "@ =~= seq![' ']);
        assert(source@ =~= path@ + seq![' '] + command_text(command));
    }
    let token = match last_token_text(source.as_str()) {
        Some(t) => t,
        None => return None,
    };
    let (w, p, o, i, _) = segment_fields(token.as_str());
    let n = path.unicode_len();
    let size = match first_size_text(path, n) {
        Some((c, d)) => size_value_text(path, c, d),
        None => 0,
    };
    match (w, o, i) {
        (Some(w), Some(o), Some(i)) => {
            let p = match p {
                Some(x) => x,
                None => String::from_str("u64"),
            };
            Some(callgrind_keys_text(w.as_str(), p.as_str(), o.as_str(), i.as_str(), size))
        },
        _ => None,
    }
}

/// The join keys of a Callgrind output, from the path of its file and the command that made
/// it (see `callgrind_join_of`).
pub fn parse_callgrind_join(path: &str, command: Option<&str>) -> (r: Option<JoinKeys>)
    requires
        callgrind_sizes_fit(path@, command_text(command)),
    ensures
        match r {
            Some(j) => callgrind_join_of(path@, command_text(command)) == Some(j@),
            None => callgrind_join_of(path@, command_text(command)) is None,
        },
{
    let named = named_join_text(path);
    if named.is_some() {
        return named;
    }
    legacy_join_text(path, command)
}

/// A path with each `\` turned into `/`.
pub open spec fn slashed(s: Seq<char>) -> Seq<char> {
    s.map_values(|c: char| if c == '\\' { '/' } else { c })
}

/// Where the last `/` in `s` stands.
pub open spec fn last_slash(s: Seq<char>) -> Option<int>
    decreases s.len(),
{
    if s.len() == 0 {
        None
    } else if s.last() == '/' {
        Some(s.len() - 1)
    } else {
        last_slash(s.drop_last())
    }
}

pub proof fn lemma_last_slash(s: Seq<char>)
    ensures
        match last_slash(s) {
            Some(a) => 0 <= a < s.len() && s[a] == '/' && forall|j: int|
                a < j < s.len() ==> s[j] != '/',
            None => forall|j: int| 0 <= j < s.len() ==> s[j] != '/',
        },
    decreases s.len(),
{
    if s.len() > 0 && s.last() != '/' {
        lemma_last_slash(s.drop_last());
        assert forall|j: int| 0 <= j < s.len() - 1 implies s.drop_last()[j] == s[j] by {}
    }
}

/// `s` holds no line break.
pub open spec fn one_line(s: Seq<char>) -> bool {
    forall|j: int| 0 <= j < s.len() ==> s[j] != '\n'
}

/// The group, function and size of a Criterion estimates path: `group/function/size` followed
/// by `/new/estimates.json`, where the group is one or more characters other than a line
/// break, and the function and the size are one or more characters other than `/`.
pub open spec fn criterion_parts(rel: Seq<char>) -> Option<(Seq<char>, Seq<char>, Seq<char>)> {
    if rel.len() >= 19 && rel.skip(rel.len() - 19) == "/new/estimates.json"@ {
        let body = rel.take(rel.len() - 19);
        match last_slash(body) {
            Some(a) => match last_slash(body.take(a)) {
                Some(b) => {
                    let group = body.take(b);
                    let function = body.subrange(b + 1, a);
                    let size = body.skip(a + 1);
                    if group.len() > 0 && function.len() > 0 && size.len() > 0 && one_line(group) {
                        Some((group, function, size))
                    } else {
                        None
                    }
                },
                None => None,
            },
            None => None,
        }
    } else {
        None
    }
}

/// What a Criterion estimates path tells: the path with `/` separators, its group, function
/// and sample, and its join keys.
pub struct CriterionPath {
    pub path: String,
    pub group: String,
    pub function: String,
    pub sample: String,
    pub join: JoinKeys,
}

/// A Criterion estimates path as plain values: path, group, function, sample and join keys.
pub type CriterionModel = (Seq<char>, Seq<char>, Seq<char>, Seq<char>, JoinModel);

impl View for CriterionPath {
    type V = CriterionModel;

    open spec fn view(&self) -> CriterionModel {
        (self.path@, self.group@, self.function@, self.sample@, self.join@)
    }
}

/// What a Criterion estimates path relative to its root gives: its parts (see
/// `criterion_parts`), a size that Rust's integer parsing reads as a `usize`, and the join keys
/// that they make, with the group as the workload; or the message for a path that does not
/// have that form, or for a size that is not a number.
pub open spec fn criterion_path_of(raw: Seq<char>) -> Result<CriterionModel, Seq<char>> {
    let rel = slashed(raw);
    match criterion_parts(rel) {
        None => Err("unexpected criterion path format: "@ + rel),
        Some(parts) => match usize_written(encode_utf8(parts.2)) {
            None => Err("expected numeric size in criterion path, got: "@ + parts.2),
            Some(size) => {
                let g = parts.0;
                let f = parts.1;
                let o = taxonomy_from(f, 0).0;
                let i = taxonomy_from(f, 0).1;
                let p = payload_named(lowercase(g + seq![' '] + f));
                let v = variant_named(lowercase(i));
                Ok((rel, g, f, "new"@, (g, p, o, i, size, v, join_key_text(g, p, o, i, size, v))))
            },
        },
    }
}

/// `s` with each `\` turned into `/`.
fn slashed_text(s: &str) -> (r: String)
    ensures
        r@ == slashed(s@),
{
    proof {
        reveal_strlit("/");
    }
    let n = s.unicode_len();
    let mut r = String::from_str("");
    proof {
        reveal_strlit("");
    }
    let mut i: usize = 0;
    while i < n
        invariant
            n == s@.len(),
            i <= n,
            r@ == slashed(s@.take(i as int)),
        decreases n - i,
    {
        let ghost before = r@;
        if s.get_char(i) == '\\' {
            r.append("/");
        } else {
            r.append(s.substring_char(i, i + 1));
        }
        proof {
            reveal_strlit("/");
            assert("/"@ =~= seq!['/']);
            assert(s@.subrange(i as int, i + 1) =~= seq![s@[i as int]]);
            assert(s@.take(i + 1) =~= s@.take(i as int).push(s@[i as int]));
            assert(slashed(s@.take(i + 1)) =~= slashed(s@.take(i as int)).push(
                if s@[i as int] == '\\' { '/' } else { s@[i as int] },
            ));
        }
        i = i + 1;
    }
    proof {
        assert(s@.take(n as int) =~= s@);
    }
    r
}

/// Where the last `/` in `s` before `end` stands.
fn last_slash_text(s: &str, end: usize) -> (r: Option<usize>)
    requires
        end <= s@.len(),
    ensures
        match r {
            Some(a) => last_slash(s@.take(end as int)) == Some(a as int),
            None => last_slash(s@.take(end as int)) is None,
        },
{
    let mut j = end;
    while j > 0
        invariant
            j <= end <= s@.len(),
            last_slash(s@.take(end as int)) == last_slash(s@.take(j as int)),
        decreases j,
    {
        if s.get_char(j - 1) == '/' {
            return Some(j - 1);
        }
        proof {
            assert(s@.take(j as int).drop_last() =~= s@.take(j - 1));
        }
        j = j - 1;
    }
    None
}

/// Whether `s` holds no line break.
fn one_line_text(s: &str) -> (r: bool)
    ensures
        r == one_line(s@),
{
    let n = s.unicode_len();
    let mut j: usize = 0;
    while j < n
        invariant
            n == s@.len(),
            j <= n,
            forall|k: int| 0 <= k < j ==> s@[k] != '\n',
        decreases n - j,
    {
        if s.get_char(j) == '\n' {
            return false;
        }
        j = j + 1;
    }
    true
}

/// The message for a Criterion path that does not have the expected form.
fn bad_format(rel: &str) -> (r: String)
    ensures
        r@ == "unexpected criterion path format: "@ + rel@,
{
    let mut m = String::from_str("unexpected criterion path format: ");
    m.append(rel);
    m
}

/// What a Criterion estimates path relative to its root tells (see `criterion_path_of`).
pub fn parse_criterion_path(raw: &str) -> (r: Result<CriterionPath, String>)
    ensures
        match r {
            Ok(c) => criterion_path_of(raw@) == Ok::<CriterionModel, Seq<char>>(c@),
            Err(e) => criterion_path_of(raw@) == Err::<CriterionModel, Seq<char>>(e@),
        },
{
    let rel = slashed_text(raw);
    let t = rel.as_str();
    let ghost rl = t@;
    let n = t.unicode_len();
    proof {
        reveal_strlit("/new/estimates.json");
    }
    if n < 19 || !literal_at(t, n, "/new/estimates.json", n - 19) {
        proof {
            if n >= 19 {
                assert(rl.subrange(n - 19, n as int) =~= rl.skip(n - 19));
            }
        }
        return Err(bad_format(t));
    }
    let end = n - 19;
    let ghost body = rl.take(end as int);
    proof {
        assert(rl.subrange(n - 19, n as int) =~= rl.skip(n - 19));
    }
    let a = match last_slash_text(t, end) {
        Some(a) => a,
        None => return Err(bad_format(t)),
    };
    proof {
        lemma_last_slash(body);
        assert(body.take(a as int) =~= rl.take(a as int));
    }
    let b = match last_slash_text(t, a) {
        Some(b) => b,
        None => return Err(bad_format(t)),
    };
    proof {
        lemma_last_slash(rl.take(a as int));
    }
    let group = t.substring_char(0, b);
    let function = t.substring_char(b + 1, a);
    let size_raw = t.substring_char(a + 1, end);
    proof {
        assert(group@ =~= body.take(b as int));
        assert(function@ =~= body.subrange(b + 1, a as int));
        assert(size_raw@ =~= body.skip(a + 1));
    }
    if b == 0 || a == b + 1 || end == a + 1 || !one_line_text(group) {
        return Err(bad_format(t));
    }
    let size = match parse_usize(size_raw) {
        Some(v) => v,
        None => {
            let mut m = String::from_str("expected numeric size in criterion path, got: ");
            m.append(size_raw);
            return Err(m);
        },
    };
    let (operation, implementation) = split_function_taxonomy(function);
    let payload = infer_payload(group, function);
    let variant = infer_variant(implementation.as_str());
    let join = build_join_keys(
        group,
        payload.as_str(),
        operation.as_str(),
        implementation.as_str(),
        size,
        variant.as_str(),
    );
    proof {
        reveal_strlit("new");
        assert(criterion_parts(rl) == Some((group@, function@, size_raw@)));
        assert(slashed(raw@) == rl);
    }
    Ok(
        CriterionPath {
            path: String::from_str(t),
            group: String::from_str(group),
            function: String::from_str(function),
            sample: String::from_str("new"),
            join,
        },
    )
}

} // verus!
