//! Decimal text of integers, as the applications print them.
use vstd::prelude::*;

verus! {

/// The character of a decimal digit.
pub open spec fn digit_char(d: nat) -> char {
    (48 + d) as char
}

/// The decimal digits of `n`, without leading zeros.
pub open spec fn digits_text(n: nat) -> Seq<char>
    decreases n,
{
    if n < 10 {
        seq![digit_char(n)]
    } else {
        digits_text(n / 10).push(digit_char(n % 10))
    }
}

/// The decimal text of `x`: its digits, after a `-` when it is negative.
pub open spec fn decimal_text(x: int) -> Seq<char> {
    if x < 0 {
        seq!['-'] + digits_text((-x) as nat)
    } else {
        digits_text(x as nat)
    }
}

/// The one-character text of the digit `d`.
fn digit_str(d: u64) -> (r: &'static str)
    requires
        d < 10,
    ensures
        r@ == seq![digit_char(d as nat)],
{
    proof {
        reveal_strlit("0");
        reveal_strlit("1");
        reveal_strlit("2");
        reveal_strlit("3");
        reveal_strlit("4");
        reveal_strlit("5");
        reveal_strlit("6");
        reveal_strlit("7");
        reveal_strlit("8");
        reveal_strlit("9");
    }
    match d {
        0 => "0",
        1 => "1",
        2 => "2",
        3 => "3",
        4 => "4",
        5 => "5",
        6 => "6",
        7 => "7",
        8 => "8",
        _ => "9",
    }
}

/// The decimal digits of `n`, without leading zeros.
fn digits_of(n: u64) -> (r: String)
    ensures
        r@ == digits_text(n as nat),
    decreases n,
{
    if n < 10 {
        String::from_str(digit_str(n))
    } else {
        let mut r = digits_of(n / 10);
        r.append(digit_str(n % 10));
        r
    }
}

/// The decimal text of an `i32`, as its `Display` implementation writes it: the digits
/// without leading zeros, after a `-` when it is negative.
pub(crate) fn int_text(x: i32) -> (r: String)
    ensures
        r@ == decimal_text(x as int),
{
    if x < 0 {
        let m: i64 = -(x as i64);
        let mut r = String::from_str("-");
        let d = digits_of(m as u64);
        r.append(d.as_str());
        proof {
            reveal_strlit("-");
        }
        r
    } else {
        digits_of(x as u64)
    }
}

/// The decimal text of a `usize`, as its `Display` implementation writes it.
pub(crate) fn usize_text(n: usize) -> (r: String)
    ensures
        r@ == decimal_text(n as int),
{
    digits_of(n as u64)
}

/// The decimal text of a `u64`, as its `Display` implementation writes it.
pub(crate) fn u64_text(n: u64) -> (r: String)
    ensures
        r@ == decimal_text(n as int),
{
    digits_of(n)
}

/// The text of an optional value: its decimal text, or `None`.
pub fn format_option(value: Option<i32>) -> (r: String)
    ensures
        r@ == match value {
            Some(v) => decimal_text(v as int),
            None => "None"@,
        },
{
    match value {
        Some(v) => int_text(v),
        None => String::from_str("None"),
    }
}

/// The decimal texts of `s`, separated by `, `.
pub open spec fn members_joined(s: Seq<usize>) -> Seq<char>
    decreases s.len(),
{
    if s.len() == 0 {
        Seq::empty()
    } else if s.len() == 1 {
        decimal_text(s[0] as int)
    } else {
        members_joined(s.drop_last()) + seq![',', ' '] + decimal_text(s.last() as int)
    }
}

/// A set of members written as `{1, 2, 3}`.
pub fn format_members(members: &[usize]) -> (r: String)
    ensures
        r@ == seq!['{'] + members_joined(members@) + seq!['}'],
{
    proof {
        reveal_strlit("{");
        reveal_strlit(", ");
        reveal_strlit("}");
    }
    let mut out = String::from_str("{");
    let mut i: usize = 0;
    while i < members.len()
        invariant
            i <= members@.len(),
            out@ == seq!['{'] + members_joined(members@.take(i as int)),
        decreases members@.len() - i,
    {
        proof {
            reveal_strlit(", ");
        }
        if i > 0 {
            out.append(", ");
        }
        let t = usize_text(members[i]);
        out.append(t.as_str());
        proof {
            let s = members@.take(i + 1);
            assert(s.drop_last() =~= members@.take(i as int));
            assert(s.last() == members@[i as int]);
            if i == 0 {
                assert(members@.take(0) =~= Seq::<usize>::empty());
                assert(out@ =~= seq!['{'] + members_joined(s));
            } else {
                assert(out@ =~= seq!['{'] + members_joined(s));
            }
        }
        i = i + 1;
    }
    out.append("}");
    proof {
        assert(members@.take(members@.len() as int) =~= members@);
    }
    out
}

} // verus!
