//! How the graph, social-network and province applications colour the lines of their output:
//! each line gets a style from what it starts with, ends with or holds.
use vstd::prelude::*;

use crate::exercises::command::{parse_usize, usize_written};
use crate::exercises::names::name_is;
use crate::xtask::aggregate::{starts_with, text_starts_with};
use crate::xtask::bench_runner::{has_infix, text_contains, trim_start};
use crate::xtask::result_names::white_space;
use vstd::utf8::encode_utf8;

verus! {

/// The style of an output line: plain; an analysis heading; a loaded notice; a clear or an
/// alarming cycle report; a section title; a danger title; a member line with its colour (0 to
/// 3, in turn); a detail line; a summary; an expected-output line; a tip; an indented line.
#[derive(Clone, Copy, Debug, PartialEq, Eq, Structural)]
pub enum LineStyle {
    Plain,
    Heading,
    Loaded,
    Clear,
    Alarm,
    Section,
    Danger,
    Member(usize),
    Detail,
    Summary,
    Expected,
    Tip,
    Indented,
}

/// `p` ends `s`.
pub open spec fn ends_with(s: Seq<char>, p: Seq<char>) -> bool {
    p.len() <= s.len() && s.skip(s.len() - p.len()) == p
}

/// An ASCII digit.
pub open spec fn is_ascii_digit(c: char) -> bool {
    '0' <= c && c <= '9'
}

/// Where the run of ASCII digits that starts at `i` ends.
pub open spec fn ascii_digits_end(s: Seq<char>, i: int) -> int
    decreases s.len() - i,
{
    if 0 <= i < s.len() && is_ascii_digit(s[i]) {
        ascii_digits_end(s, i + 1)
    } else {
        i
    }
}

proof fn lemma_ascii_digits_end(s: Seq<char>, i: int)
    requires
        0 <= i <= s.len(),
    ensures
        i <= ascii_digits_end(s, i) <= s.len(),
    decreases s.len() - i,
{
    if i < s.len() && is_ascii_digit(s[i]) {
        lemma_ascii_digits_end(s, i + 1);
    }
}

/// A member line: the letter, then a digit.
pub open spec fn member_line(t: Seq<char>, letter: char) -> bool {
    t.len() >= 2 && t[0] == letter && is_ascii_digit(t[1])
}

/// The colour of a member line: its number (the digits after the letter; 1 when they do not
/// fit a `usize`) less one, stopping at zero, taken modulo the four colours.
pub open spec fn member_colour(t: Seq<char>) -> usize {
    let v: int = match usize_written(encode_utf8(t.subrange(1, ascii_digits_end(t, 1)))) {
        Some(n) => n as int,
        None => 1,
    };
    ((if v == 0 {
        0
    } else {
        v - 1
    }) % 4) as usize
}

/// The style of a line of the graph application's output.
pub open spec fn graph_line_style(line: Seq<char>) -> LineStyle {
    let t = trim_start(line);
    if ends_with(line, "Analysis"@) {
        LineStyle::Heading
    } else if ends_with(line, "Loaded"@) {
        LineStyle::Loaded
    } else if has_infix(t, "Cycle Detection:"@) {
        if has_infix(t, "No cycle"@) {
            LineStyle::Clear
        } else {
            LineStyle::Alarm
        }
    } else if t == "Components:"@ {
        LineStyle::Section
    } else if t == "Cycle-causing edges:"@ {
        LineStyle::Danger
    } else if member_line(t, 'C') && has_infix(line, "members"@) {
        LineStyle::Member(member_colour(t))
    } else if t.len() > 0 && is_ascii_digit(t[0]) && has_infix(line, "("@) {
        LineStyle::Detail
    } else if starts_with(t, "Connected Components:"@) || starts_with(t, "Nodes:"@) {
        LineStyle::Summary
    } else if starts_with(t, "Tip:"@) {
        LineStyle::Tip
    } else if starts_with(line, "  "@) {
        LineStyle::Indented
    } else {
        LineStyle::Plain
    }
}

/// The style of a line of the social-network or province application's output, given its
/// section title, member letter and word, and its two summary openings.
pub open spec fn grouped_line_style(
    line: Seq<char>,
    section: Seq<char>,
    letter: char,
    word: Seq<char>,
    total: Seq<char>,
    count: Seq<char>,
) -> LineStyle {
    let t = trim_start(line);
    if ends_with(line, "Analysis"@) {
        LineStyle::Heading
    } else if ends_with(line, "Loaded"@) {
        LineStyle::Loaded
    } else if t == section {
        LineStyle::Section
    } else if member_line(t, letter) && has_infix(line, word) {
        LineStyle::Member(member_colour(t))
    } else if starts_with(t, total) || starts_with(t, count) {
        LineStyle::Summary
    } else if starts_with(t, "Expected"@) {
        LineStyle::Expected
    } else if starts_with(t, "Tip:"@) {
        LineStyle::Tip
    } else if starts_with(line, "  "@) {
        LineStyle::Indented
    } else {
        LineStyle::Plain
    }
}

/// The style of a line of the social-network application's output.
pub open spec fn social_line_style(line: Seq<char>) -> LineStyle {
    grouped_line_style(line, "Groups:"@, 'G', "users"@, "Total friend groups:"@, "Users:"@)
}

/// The style of a line of the province application's output.
pub open spec fn province_line_style(line: Seq<char>) -> LineStyle {
    grouped_line_style(line, "Provinces:"@, 'P', "cities"@, "Total Provinces:"@, "Cities:"@)
}

/// `s` without the white space at its start.
fn trim_start_text(s: &str) -> (r: &str)
    ensures
        r@ == trim_start(s@),
{
    let n = s.unicode_len();
    let mut a: usize = 0;
    proof {
        assert(s@.skip(0) =~= s@);
    }
    while a < n && white_space(s.get_char(a))
        invariant
            n == s@.len(),
            a <= n,
            trim_start(s@) == trim_start(s@.skip(a as int)),
        decreases n - a,
    {
        proof {
            assert(s@.skip(a as int).drop_first() =~= s@.skip(a + 1));
        }
        a = a + 1;
    }
    proof {
        assert(s@.subrange(a as int, n as int) =~= s@.skip(a as int));
    }
    s.substring_char(a, n)
}

/// Whether `p` ends `s`.
fn text_ends_with(s: &str, p: &str) -> (r: bool)
    ensures
        r == ends_with(s@, p@),
{
    let n = s.unicode_len();
    let m = p.unicode_len();
    if m > n {
        return false;
    }
    let tail = s.substring_char(n - m, n);
    proof {
        assert(tail@ =~= s@.skip(n - m));
    }
    name_is(tail, p)
}

/// The colour of a member line (see `member_colour`).
fn member_colour_of(t: &str) -> (r: usize)
    requires
        t@.len() >= 2,
    ensures
        r == member_colour(t@),
{
    let n = t.unicode_len();
    let mut e: usize = 1;
    while e < n && ('0' <= t.get_char(e) && t.get_char(e) <= '9')
        invariant
            n == t@.len(),
            1 <= e <= n,
            ascii_digits_end(t@, 1) == ascii_digits_end(t@, e as int),
        decreases n - e,
    {
        e = e + 1;
    }
    let v: usize = match parse_usize(t.substring_char(1, e)) {
        Some(x) => x,
        None => 1,
    };
    let idx = if v == 0 {
        0
    } else {
        v - 1
    };
    idx % 4
}

/// The style of a line of the graph application's output (see `graph_line_style`).
pub fn graph_output_line_style(line: &str) -> (r: LineStyle)
    ensures
        r == graph_line_style(line@),
{
    let t = trim_start_text(line);
    if text_ends_with(line, "Analysis") {
        LineStyle::Heading
    } else if text_ends_with(line, "Loaded") {
        LineStyle::Loaded
    } else if text_contains(t, "Cycle Detection:") {
        if text_contains(t, "No cycle") {
            LineStyle::Clear
        } else {
            LineStyle::Alarm
        }
    } else if name_is(t, "Components:") {
        LineStyle::Section
    } else if name_is(t, "Cycle-causing edges:") {
        LineStyle::Danger
    } else if t.unicode_len() >= 2 && t.get_char(0) == 'C' && ('0' <= t.get_char(1) && t.get_char(1)
        <= '9') && text_contains(line, "members") {
        LineStyle::Member(member_colour_of(t))
    } else if t.unicode_len() > 0 && ('0' <= t.get_char(0) && t.get_char(0) <= '9')
        && text_contains(line, "(") {
        LineStyle::Detail
    } else if text_starts_with(t, "Connected Components:") || text_starts_with(t, "Nodes:") {
        LineStyle::Summary
    } else if text_starts_with(t, "Tip:") {
        LineStyle::Tip
    } else if text_starts_with(line, "  ") {
        LineStyle::Indented
    } else {
        LineStyle::Plain
    }
}

/// The style of a grouped line (see `grouped_line_style`).
fn grouped_output_line_style(
    line: &str,
    section: &str,
    letter: char,
    word: &str,
    total: &str,
    count: &str,
) -> (r: LineStyle)
    ensures
        r == grouped_line_style(line@, section@, letter, word@, total@, count@),
{
    let t = trim_start_text(line);
    if text_ends_with(line, "Analysis") {
        LineStyle::Heading
    } else if text_ends_with(line, "Loaded") {
        LineStyle::Loaded
    } else if name_is(t, section) {
        LineStyle::Section
    } else if t.unicode_len() >= 2 && t.get_char(0) == letter && ('0' <= t.get_char(1)
        && t.get_char(1) <= '9') && text_contains(line, word) {
        LineStyle::Member(member_colour_of(t))
    } else if text_starts_with(t, total) || text_starts_with(t, count) {
        LineStyle::Summary
    } else if text_starts_with(t, "Expected") {
        LineStyle::Expected
    } else if text_starts_with(t, "Tip:") {
        LineStyle::Tip
    } else if text_starts_with(line, "  ") {
        LineStyle::Indented
    } else {
        LineStyle::Plain
    }
}

/// The style of a line of the social-network application's output (see
/// `social_line_style`).
pub fn social_output_line_style(line: &str) -> (r: LineStyle)
    ensures
        r == social_line_style(line@),
{
    grouped_output_line_style(line, "Groups:", 'G', "users", "Total friend groups:", "Users:")
}

/// The style of a line of the province application's output (see `province_line_style`).
pub fn province_output_line_style(line: &str) -> (r: LineStyle)
    ensures
        r == province_line_style(line@),
{
    grouped_output_line_style(line, "Provinces:", 'P', "cities", "Total Provinces:", "Cities:")
}

} // verus!
