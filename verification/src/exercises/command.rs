//! Command lines of the exercise applications: splitting a line into words, matching a
//! command word without regard to ASCII case, and reading integer arguments.
use vstd::prelude::*;
use vstd::string::StringSliceAdditionalSpecFns;

verus! {

/// Whether `c` is white space in the sense of Unicode's `White_Space` property.
pub open spec fn is_ws(c: char) -> bool {
    let u = c as u32;
    ||| 9 <= u <= 13
    ||| u == 32
    ||| u == 0x85
    ||| u == 0xA0
    ||| u == 0x1680
    ||| 0x2000 <= u <= 0x200A
    ||| u == 0x2028
    ||| u == 0x2029
    ||| u == 0x202F
    ||| u == 0x205F
    ||| u == 0x3000
}

/// The words of `s`: its maximal runs of characters that are not white space, in order.
pub open spec fn ws_words(s: Seq<char>) -> Seq<Seq<char>>
    decreases s.len(),
{
    if s.len() == 0 {
        Seq::empty()
    } else {
        let prev = ws_words(s.drop_last());
        let c = s.last();
        if is_ws(c) {
            prev
        } else if s.len() >= 2 && !is_ws(s[s.len() - 2]) {
            prev.update(prev.len() - 1, prev.last().push(c))
        } else {
            prev.push(seq![c])
        }
    }
}

/// Splits `s` into its words, as `str::split_whitespace` does: the maximal runs of characters
/// that are not white space, in order.
fn split_words<'a>(s: &'a str) -> (r: Vec<&'a str>)
    ensures
        r@.len() == ws_words(s@).len(),
        forall|i: int| 0 <= i < r@.len() ==> (#[trigger] r@[i])@ == ws_words(s@)[i],
{
    let n = s.unicode_len();
    let mut words: Vec<&'a str> = Vec::new();
    let mut start: usize = 0;
    let mut in_word = false;
    let mut i: usize = 0;
    proof {
        assert(s@.take(0) =~= Seq::<char>::empty());
    }
    while i < n
        invariant
            n == s@.len(),
            i <= n,
            in_word == (i > 0 && !is_ws(s@[i - 1])),
            in_word ==> start < i,
            ws_words(s@.take(i as int)).len() == words@.len() + (if in_word { 1int } else { 0int }),
            forall|j: int| 0 <= j < words@.len() ==> (#[trigger] words@[j])@ == ws_words(
                s@.take(i as int),
            )[j],
            in_word ==> ws_words(s@.take(i as int)).last() == s@.subrange(start as int, i as int),
        decreases n - i,
    {
        let ghost prev = ws_words(s@.take(i as int));
        let ghost next = s@.take(i + 1);
        proof {
            assert(next.drop_last() =~= s@.take(i as int));
            assert(next.last() == s@[i as int]);
            if i > 0 {
                assert(next[next.len() - 2] == s@[i - 1]);
            }
        }
        let c = s.get_char(i);
        if crate::xtask::result_names::white_space(c) {
            if in_word {
                words.push(s.substring_char(start, i));
                in_word = false;
            }
            proof {
                assert(ws_words(next) == prev);
            }
        } else {
            if in_word {
                proof {
                    assert(ws_words(next) == prev.update(prev.len() - 1, prev.last().push(c)));
                    assert(s@.subrange(start as int, i + 1) =~= s@.subrange(start as int, i as int).push(c));
                }
            } else {
                start = i;
                in_word = true;
                proof {
                    assert(ws_words(next) == prev.push(seq![c]));
                    assert(s@.subrange(i as int, i + 1) =~= seq![c]);
                }
            }
        }
        i = i + 1;
    }
    proof {
        assert(s@.take(n as int) =~= s@);
    }
    if in_word {
        words.push(s.substring_char(start, n));
    }
    words
}

/// The words of a command line, or the error for a line with none.
pub fn parse_command_parts(input: &str) -> (r: Result<Vec<&str>, String>)
    ensures
        match r {
            Ok(parts) => ws_words(input@).len() > 0 && parts@.len() == ws_words(input@).len()
                && forall|i: int| 0 <= i < parts@.len() ==> (#[trigger] parts@[i])@ == ws_words(
                input@,
            )[i],
            Err(e) => ws_words(input@).len() == 0 && e@ == "Command cannot be empty."@,
        },
{
    let parts = split_words(input);
    if parts.len() == 0 {
        return Err(String::from_str("Command cannot be empty."));
    }
    Ok(parts)
}

/// The ASCII upper-case form of a byte: `a` to `z` become `A` to `Z`, other bytes stay.
pub open spec fn upper_byte(b: u8) -> u8 {
    if 97 <= b <= 122 {
        (b - 32) as u8
    } else {
        b
    }
}

/// The ASCII upper-case form of a byte string.
pub open spec fn upper_ascii(b: Seq<u8>) -> Seq<u8> {
    b.map_values(|x: u8| upper_byte(x))
}

/// Whether `s`, upper-cased in ASCII, is `w`.
pub fn word_is(s: &str, w: &str) -> (r: bool)
    ensures
        r == (upper_ascii(s.spec_bytes()) == w.spec_bytes()),
{
    let a = s.as_bytes();
    let b = w.as_bytes();
    if a.len() != b.len() {
        proof {
            assert(upper_ascii(a@).len() != b@.len());
        }
        return false;
    }
    let mut i: usize = 0;
    while i < a.len()
        invariant
            a@ == s.spec_bytes(),
            b@ == w.spec_bytes(),
            a@.len() == b@.len(),
            i <= a@.len(),
            forall|j: int| 0 <= j < i ==> upper_byte(#[trigger] a@[j]) == b@[j],
        decreases a@.len() - i,
    {
        let x = a[i];
        let ux = if 97 <= x && x <= 122 {
            x - 32
        } else {
            x
        };
        if ux != b[i] {
            proof {
                assert(upper_ascii(a@)[i as int] != b@[i as int]);
            }
            return false;
        }
        i = i + 1;
    }
    proof {
        assert(upper_ascii(a@) =~= b@);
    }
    true
}

/// Every byte is an ASCII digit.
pub open spec fn all_digits(b: Seq<u8>) -> bool {
    forall|i: int| 0 <= i < b.len() ==> 48 <= #[trigger] b[i] <= 57
}

/// The number that a run of ASCII digits writes in decimal.
pub open spec fn digits_value(b: Seq<u8>) -> nat
    decreases b.len(),
{
    if b.len() == 0 {
        0
    } else {
        digits_value(b.drop_last()) * 10 + (b.last() - 48) as nat
    }
}

/// The integer that `b` writes as Rust's integer parsing reads it: an optional `+` (or `-`
/// when `signed`), then one or more ASCII digits and nothing else.
pub open spec fn int_written(b: Seq<u8>, signed: bool) -> Option<int> {
    if b.len() == 0 {
        None
    } else if b[0] == 43 || (b[0] == 45 && signed) {
        if b.len() > 1 && all_digits(b.skip(1)) {
            if b[0] == 43 {
                Some(digits_value(b.skip(1)) as int)
            } else {
                Some(-digits_value(b.skip(1)))
            }
        } else {
            None
        }
    } else if all_digits(b) {
        Some(digits_value(b) as int)
    } else {
        None
    }
}

/// What `str::parse::<i32>` gives for text with these bytes.
pub open spec fn i32_written(b: Seq<u8>) -> Option<i32> {
    match int_written(b, true) {
        Some(v) => if i32::MIN <= v <= i32::MAX {
            Some(v as i32)
        } else {
            None
        },
        None => None,
    }
}

/// What `str::parse::<usize>` gives for text with these bytes.
pub open spec fn usize_written(b: Seq<u8>) -> Option<usize> {
    match int_written(b, false) {
        Some(v) => if 0 <= v <= usize::MAX {
            Some(v as usize)
        } else {
            None
        },
        None => None,
    }
}

/// Digits keep a number from shrinking: a longer run of digits writes at least as much.
proof fn lemma_digits_grow(b: Seq<u8>, i: int, j: int)
    requires
        0 <= i <= j <= b.len(),
        all_digits(b),
    ensures
        digits_value(b.take(i)) <= digits_value(b.take(j)),
    decreases j - i,
{
    if i < j {
        lemma_digits_grow(b, i, j - 1);
        assert(b.take(j).drop_last() =~= b.take(j - 1));
    }
}

/// Reads the digits of `b` from position `start` to the end: their value if they are one or
/// more ASCII digits writing at most `limit`.
fn read_digits(b: &[u8], start: usize, limit: u128) -> (r: Option<u128>)
    requires
        start <= b@.len(),
        limit <= u64::MAX,
    ensures
        r == (if start < b@.len() && all_digits(b@.skip(start as int)) && digits_value(
            b@.skip(start as int),
        ) <= limit {
            Some(digits_value(b@.skip(start as int)) as u128)
        } else {
            None::<u128>
        }),
{
    let ghost d = b@.skip(start as int);
    if start >= b.len() {
        return None;
    }
    let mut acc: u128 = 0;
    let mut i: usize = start;
    while i < b.len()
        invariant
            start <= i <= b@.len(),
            d == b@.skip(start as int),
            limit <= u64::MAX,
            all_digits(d.take(i - start)),
            acc == digits_value(d.take(i - start)),
            acc <= limit,
        decreases b@.len() - i,
    {
        let x = b[i];
        if x < 48 || x > 57 {
            proof {
                assert(d[i - start] == x);
            }
            return None;
        }
        let ghost k = (i - start) as int;
        proof {
            assert(d.take(k + 1).drop_last() =~= d.take(k));
            assert(d.take(k + 1).last() == x);
            assert(all_digits(d.take(k + 1)));
        }
        acc = acc * 10 + (x - 48) as u128;
        if acc > limit {
            proof {
                if all_digits(d) {
                    assert(d.take(d.len() as int) =~= d);
                    lemma_digits_grow(d, k + 1, d.len() as int);
                }
            }
            return None;
        }
        i = i + 1;
    }
    proof {
        assert(d.take(i - start) =~= d);
    }
    Some(acc)
}

/// Reads `s` as an `i32` the way `str::parse::<i32>` does.
pub fn parse_i32(s: &str) -> (r: Option<i32>)
    ensures
        r == i32_written(s.spec_bytes()),
{
    let b = s.as_bytes();
    if b.len() == 0 {
        return None;
    }
    if b[0] == 45 {
        match read_digits(b, 1, 2147483648) {
            Some(v) => {
                let neg: i64 = -(v as i64);
                Some(neg as i32)
            },
            None => None,
        }
    } else if b[0] == 43 {
        match read_digits(b, 1, 2147483647) {
            Some(v) => Some(v as i32),
            None => None,
        }
    } else {
        proof {
            assert(b@.skip(0) =~= b@);
        }
        match read_digits(b, 0, 2147483647) {
            Some(v) => Some(v as i32),
            None => None,
        }
    }
}

/// Reads `s` as a `usize` the way `str::parse::<usize>` does.
pub fn parse_usize(s: &str) -> (r: Option<usize>)
    ensures
        r == usize_written(s.spec_bytes()),
{
    let b = s.as_bytes();
    if b.len() == 0 {
        return None;
    }
    let start: usize = if b[0] == 43 {
        1
    } else {
        0
    };
    proof {
        assert(b@.skip(0) =~= b@);
    }
    match read_digits(b, start, usize::MAX as u128) {
        Some(v) => Some(v as usize),
        None => None,
    }
}

} // verus!
