//! Textual parsing of coordinate pairs: a pair is two signed decimal
//! numerals split at the first occurrence of a separator character.

use vstd::prelude::*;
use vstd::string::StrSliceExecFns;

verus! {

/// The character is a decimal digit.
pub open spec fn is_digit(c: char) -> bool {
    '0' as int <= c as int && c as int <= '9' as int
}

/// The numeric value of a digit character.
pub open spec fn digit_val(c: char) -> int {
    c as int - '0' as int
}

/// Every character of `s` is a decimal digit.
pub open spec fn all_digits(s: Seq<char>) -> bool {
    forall|i: int| 0 <= i < s.len() ==> is_digit(#[trigger] s[i])
}

/// The value of a digit string, most significant digit first.
pub open spec fn digits_val(s: Seq<char>) -> int
    decreases s.len(),
{
    if s.len() == 0 {
        0
    } else {
        digits_val(s.drop_last()) * 10 + digit_val(s.last())
    }
}

/// The sign of a numeral and its digit part: a leading `-` or `+` is
/// stripped and determines the sign; otherwise the numeral is positive.
pub open spec fn sign_split(s: Seq<char>) -> (int, Seq<char>) {
    if s.len() > 0 && s[0] == '-' {
        (-1, s.subrange(1, s.len() as int))
    } else if s.len() > 0 && s[0] == '+' {
        (1, s.subrange(1, s.len() as int))
    } else {
        (1, s)
    }
}

/// The value a signed decimal numeral denotes, if `s` is one: an optional
/// sign, then at least one digit, denoting a value in `i32` range.
pub open spec fn parse_i32_spec(s: Seq<char>) -> Option<i32> {
    let (sign, body) = sign_split(s);
    if body.len() == 0 || !all_digits(body) {
        None
    } else if i32::MIN <= sign * digits_val(body) <= i32::MAX {
        Some((sign * digits_val(body)) as i32)
    } else {
        None
    }
}

/// The index of the first occurrence of `sep` in `s`, if any.
pub open spec fn find_sep(s: Seq<char>, sep: char) -> Option<int>
    decreases s.len(),
{
    if s.len() == 0 {
        None
    } else if s[0] == sep {
        Some(0)
    } else {
        match find_sep(s.subrange(1, s.len() as int), sep) {
            None => None,
            Some(i) => Some(i + 1),
        }
    }
}

/// What pair parsing yields: split at the first separator, read each side
/// as a signed decimal numeral, and succeed only if both sides parse.
pub open spec fn parse_pair_spec(s: Seq<char>, sep: char) -> Option<(i32, i32)> {
    match find_sep(s, sep) {
        None => None,
        Some(i) => match (
            parse_i32_spec(s.subrange(0, i)),
            parse_i32_spec(s.subrange(i + 1, s.len() as int)),
        ) {
            (Some(l), Some(r)) => Some((l, r)),
            _ => None,
        },
    }
}

proof fn lemma_find_sep_at(s: Seq<char>, sep: char, i: int)
    requires
        0 <= i < s.len(),
        s[i] == sep,
        forall|j: int| 0 <= j < i ==> s[j] != sep,
    ensures
        find_sep(s, sep) == Some(i),
    decreases i,
{
    if i > 0 {
        lemma_find_sep_at(s.subrange(1, s.len() as int), sep, i - 1);
    }
}

proof fn lemma_find_sep_none(s: Seq<char>, sep: char)
    requires
        forall|j: int| 0 <= j < s.len() ==> s[j] != sep,
    ensures
        find_sep(s, sep) is None,
    decreases s.len(),
{
    if s.len() > 0 {
        lemma_find_sep_none(s.subrange(1, s.len() as int), sep);
    }
}

/// A digit string denotes a non-negative value.
proof fn lemma_digits_val_nonneg(s: Seq<char>)
    requires
        all_digits(s),
    ensures
        digits_val(s) >= 0,
    decreases s.len(),
{
    if s.len() > 0 {
        lemma_digits_val_nonneg(s.drop_last());
    }
}

/// Extending a digit string on the right can only grow its value.
proof fn lemma_digits_val_prefix(s: Seq<char>, i: int)
    requires
        0 <= i <= s.len(),
        all_digits(s),
    ensures
        digits_val(s.subrange(0, i)) <= digits_val(s),
    decreases s.len() - i,
{
    if i == s.len() {
        assert(s.subrange(0, i) =~= s);
    } else {
        lemma_digits_val_prefix(s, i + 1);
        let t = s.subrange(0, i + 1);
        assert(t.drop_last() =~= s.subrange(0, i));
        lemma_digits_val_nonneg(s.subrange(0, i));
        assert(digits_val(s.subrange(0, i)) * 10 >= digits_val(s.subrange(0, i))) by (nonlinear_arith)
            requires
                digits_val(s.subrange(0, i)) >= 0,
        ;
    }
}

/// The index of the first occurrence of `sep`, scanning left to right.
fn find_char(s: &str, sep: char) -> (r: Option<usize>)
    ensures
        match r {
            Some(i) => i < s@.len() && s@[i as int] == sep && (forall|j: int|
                0 <= j < i ==> s@[j] != sep),
            None => forall|j: int| 0 <= j < s@.len() ==> s@[j] != sep,
        },
{
    let n: usize = s.unicode_len();
    let mut i: usize = 0;
    while i < n
        invariant
            i <= n,
            n == s@.len(),
            forall|j: int| 0 <= j < i ==> s@[j] != sep,
        decreases n - i,
    {
        if s.get_char(i) == sep {
            return Some(i);
        }
        i = i + 1;
    }
    None
}

/// Reads the signed decimal numeral standing in `s[start..end]`
/// (character indices).
fn parse_i32_range(s: &str, start: usize, end: usize) -> (r: Option<i32>)
    requires
        start <= end <= s@.len(),
    ensures
        r == parse_i32_spec(s@.subrange(start as int, end as int)),
{
    let ghost t = s@.subrange(start as int, end as int);
    if start == end {
        return None;
    }
    let c0: char = s.get_char(start);
    let neg: bool = c0 == '-';
    let body_start: usize = if c0 == '-' || c0 == '+' {
        start + 1
    } else {
        start
    };
    let ghost body = s@.subrange(body_start as int, end as int);
    proof {
        assert(sign_split(t) == (if neg { -1int } else { 1int }, body)) by {
            if c0 == '-' || c0 == '+' {
                assert(t.subrange(1, t.len() as int) =~= body);
            }
        }
    }
    if body_start == end {
        return None;
    }
    let mut mag: u64 = 0;
    let mut k: usize = body_start;
    while k < end
        invariant
            body_start <= k <= end <= s@.len(),
            body_start < end,
            t == s@.subrange(start as int, end as int),
            body == s@.subrange(body_start as int, end as int),
            sign_split(t) == (if neg {
                -1int
            } else {
                1int
            }, body),
            all_digits(body.subrange(0, k - body_start)),
            mag == digits_val(body.subrange(0, k - body_start)),
            mag <= 2147483648,
        decreases end - k,
    {
        let c: char = s.get_char(k);
        let u: u32 = c as u32;
        proof {
            assert(body[k - body_start] == s@[k as int]);
        }
        if u < 48 || u > 57 {
            proof {
                assert(!is_digit(body[k - body_start]));
                assert(!all_digits(body));
                assert(sign_split(t).1 == body);
                assert(parse_i32_spec(t) is None);
            }
            return None;
        }
        let d: u64 = (u - 48) as u64;
        let next: u64 = mag * 10 + d;
        proof {
            let done = (k - body_start) as int;
            assert(body.subrange(0, done + 1).drop_last() =~= body.subrange(0, done));
            assert(body.subrange(0, done + 1).last() == body[done]);
            assert(digit_val(body[done]) == d as int);
            assert(digits_val(body.subrange(0, done + 1)) == mag * 10 + d);
        }
        if next > 2147483648 {
            proof {
                let done1 = (k - body_start) as int + 1;
                if all_digits(body) {
                    lemma_digits_val_prefix(body, done1);
                    lemma_digits_val_nonneg(body);
                    assert(digits_val(body) > 2147483648);
                    if neg {
                        assert(sign_split(t).0 * digits_val(body) == -digits_val(body));
                    } else {
                        assert(sign_split(t).0 * digits_val(body) == digits_val(body));
                    }
                }
                assert(parse_i32_spec(t) == None::<i32>);
            }
            return None;
        }
        mag = next;
        k = k + 1;
    }
    proof {
        assert(body.subrange(0, body.len() as int) =~= body);
        assert(all_digits(body));
        assert(mag == digits_val(body));
        lemma_digits_val_nonneg(body);
    }
    let res: Option<i32> = if neg {
        if mag == 2147483648 {
            Some(i32::MIN)
        } else {
            Some(-(mag as i32))
        }
    } else {
        if mag > 2147483647 {
            None
        } else {
            Some(mag as i32)
        }
    };
    proof {
        if neg {
            assert(sign_split(t).0 * digits_val(body) == -(mag as int));
        } else {
            assert(sign_split(t).0 == 1);
            assert(mag as int == digits_val(body));
            assert(sign_split(t).0 * digits_val(body) == mag as int);
        }
        assert(res == parse_i32_spec(t));
    }
    res
}

/// Splits `s` at the first occurrence of `separator` and reads each side
/// as a signed decimal numeral; yields the two values exactly when a
/// separator is present and both sides are well-formed numerals in range.
pub fn parse_pair(s: &str, separator: char) -> (r: Option<(i32, i32)>)
    ensures
        r == parse_pair_spec(s@, separator),
{
    let n: usize = s.unicode_len();
    match find_char(s, separator) {
        None => {
            proof {
                lemma_find_sep_none(s@, separator);
            }
            None
        },
        Some(i) => {
            proof {
                lemma_find_sep_at(s@, separator, i as int);
            }
            let left = parse_i32_range(s, 0, i);
            let right = parse_i32_range(s, i + 1, n);
            match (left, right) {
                (Some(l), Some(r)) => Some((l, r)),
                _ => None,
            }
        },
    }
}

} // verus!
