//! Reading a coordinate pair such as `1000x750` from a command-line
//! argument: the text left and right of the first separator, each an
//! unsigned decimal number (one optional leading plus sign, then a
//! non-empty digit run) whose value fits 64 bits.
use vstd::prelude::*;
use vstd::arithmetic::div_mod::{
    lemma_fundamental_div_mod,
    lemma_mod_division_less_than_divisor,
};
use crate::fixed::lemma_mul_le_mono;

verus! {

/// A decimal digit.
pub open spec fn is_digit(c: char) -> bool {
    48 <= (c as u32) && (c as u32) <= 57
}

/// The numeric value of one decimal digit.
pub open spec fn digit_val(c: char) -> int {
    (c as u32) - 48
}

/// Every character is a decimal digit.
pub open spec fn all_digits(s: Seq<char>) -> bool {
    forall|i: int| 0 <= i < s.len() ==> is_digit(#[trigger] s[i])
}

/// The value of a digit string read most-significant first.
pub open spec fn digits_value(s: Seq<char>) -> int
    decreases s.len(),
{
    if s.len() == 0 {
        0
    } else {
        digits_value(s.drop_last()) * 10 + digit_val(s.last())
    }
}

/// The digit run of an unsigned decimal literal: everything after one
/// optional leading plus sign.
pub open spec fn digits_part(s: Seq<char>) -> Seq<char> {
    if s.len() >= 1 && s[0] == '+' {
        s.subrange(1, s.len() as int)
    } else {
        s
    }
}

/// The value an unsigned decimal literal stands for.
pub open spec fn u64_value(s: Seq<char>) -> int {
    digits_value(digits_part(s))
}

/// A string that `parse_u64` accepts, the grammar of unsigned `from_str`:
/// one optional leading plus sign, then a non-empty run of decimal digits,
/// with a value that fits in 64 bits.
pub open spec fn valid_u64_digits(s: Seq<char>) -> bool {
    &&& digits_part(s).len() >= 1
    &&& all_digits(digits_part(s))
    &&& digits_value(digits_part(s)) <= u64::MAX
}

/// The index of the first occurrence of `sep`, or -1 if there is none.
pub open spec fn sep_index(s: Seq<char>, sep: char) -> int
    decreases s.len(),
{
    if s.len() == 0 {
        -1
    } else if s[0] == sep {
        0
    } else if sep_index(s.subrange(1, s.len() as int), sep) < 0 {
        -1
    } else {
        1 + sep_index(s.subrange(1, s.len() as int), sep)
    }
}

/// A digit string's value is never negative.
proof fn lemma_digits_value_nonneg(s: Seq<char>)
    requires
        all_digits(s),
    ensures
        digits_value(s) >= 0,
    decreases s.len(),
{
    if s.len() > 0 {
        assert(all_digits(s.drop_last())) by {
            assert(forall|i: int|
                0 <= i < s.len() - 1 ==> s.drop_last()[i] == #[trigger] s[i]);
        }
        lemma_digits_value_nonneg(s.drop_last());
        assert(is_digit(s.last()));
    }
}

/// Extending a digit string only increases its value: a prefix's value is at
/// most the whole string's value.
proof fn lemma_digits_prefix_le(s: Seq<char>, k: int)
    requires
        all_digits(s),
        0 <= k <= s.len(),
    ensures
        digits_value(s.subrange(0, k)) <= digits_value(s),
    decreases s.len(),
{
    if k == s.len() {
        assert(s.subrange(0, k) =~= s);
    } else {
        let shorter = s.drop_last();
        assert(all_digits(shorter)) by {
            assert(forall|i: int|
                0 <= i < s.len() - 1 ==> shorter[i] == #[trigger] s[i]);
        }
        assert(s.subrange(0, k) =~= shorter.subrange(0, k));
        lemma_digits_prefix_le(shorter, k);
        lemma_digits_value_nonneg(shorter);
        assert(is_digit(s.last()));
        assert(digits_value(shorter) <= digits_value(shorter) * 10) by (nonlinear_arith)
            requires digits_value(shorter) >= 0;
    }
}

/// If `sep` first occurs at index `i`, then `sep_index` names `i`.
proof fn lemma_sep_index_first(s: Seq<char>, sep: char, i: int)
    requires
        0 <= i < s.len(),
        s[i] == sep,
        forall|j: int| 0 <= j < i ==> s[j] != sep,
    ensures
        sep_index(s, sep) == i,
    decreases s.len(),
{
    if i == 0 {
    } else {
        let rest = s.subrange(1, s.len() as int);
        assert(forall|j: int| 0 <= j < rest.len() ==> rest[j] == #[trigger] s[j + 1]);
        lemma_sep_index_first(rest, sep, i - 1);
    }
}

/// If `sep` occurs nowhere, `sep_index` is negative.
proof fn lemma_sep_index_none(s: Seq<char>, sep: char)
    requires
        forall|j: int| 0 <= j < s.len() ==> s[j] != sep,
    ensures
        sep_index(s, sep) < 0,
    decreases s.len(),
{
    if s.len() > 0 {
        let rest = s.subrange(1, s.len() as int);
        assert(forall|j: int| 0 <= j < rest.len() ==> rest[j] == #[trigger] s[j + 1]);
        lemma_sep_index_none(rest, sep);
    }
}

/// Parses an unsigned decimal literal (one optional leading `+`, then a
/// non-empty digit run) into its value; anything else, and any value that
/// does not fit 64 bits, is rejected as None.
pub fn parse_u64(s: &str) -> (r: Option<u64>)
    ensures
        valid_u64_digits(s@) ==> r == Some(u64_value(s@) as u64),
        !valid_u64_digits(s@) ==> r is None,
{
    let n = s.unicode_len();
    let start: usize = if n >= 1 && s.get_char(0) == '+' {
        1
    } else {
        0
    };
    proof {
        assert(digits_part(s@) =~= s@.subrange(start as int, n as int));
    }
    if n == start {
        return None;
    }
    let mut acc: u64 = 0;
    let mut i: usize = start;
    while i < n
        invariant
            start <= i <= n,
            n == s@.len(),
            digits_part(s@) == s@.subrange(start as int, n as int),
            all_digits(s@.subrange(start as int, i as int)),
            acc == digits_value(s@.subrange(start as int, i as int)),
        decreases n - i,
    {
        let c = s.get_char(i);
        let u = c as u32;
        if u < 48 || u > 57 {
            proof {
                assert(digits_part(s@)[i as int - start as int] == s@[i as int]);
                assert(!all_digits(digits_part(s@)));
            }
            return None;
        }
        let d: u64 = (u - 48) as u64;
        let limit: u64 = (u64::MAX - d) / 10;
        proof {
            lemma_fundamental_div_mod(u64::MAX - d, 10);
            lemma_mod_division_less_than_divisor(u64::MAX - d, 10);
            assert(s@.subrange(start as int, i as int + 1).drop_last()
                =~= s@.subrange(start as int, i as int));
            assert(s@.subrange(start as int, i as int + 1).last() == s@[i as int]);
        }
        if acc > limit {
            proof {
                // Ten times the prefix value already exceeds u64::MAX, and a
                // longer digit string is never smaller, so the whole literal's
                // value cannot fit.
                lemma_mul_le_mono(limit as int + 1, acc as int, 10);
                if valid_u64_digits(s@) {
                    lemma_digits_prefix_le(digits_part(s@), i as int + 1 - start as int);
                    assert(digits_part(s@).subrange(0, i as int + 1 - start as int)
                        =~= s@.subrange(start as int, i as int + 1));
                }
            }
            return None;
        }
        proof {
            lemma_mul_le_mono(acc as int, limit as int, 10);
        }
        acc = acc * 10 + d;
        assert(acc == digits_value(s@.subrange(start as int, i as int + 1)));
        i = i + 1;
    }
    Some(acc)
}

/// Splits `s` at the first occurrence of `separator` and parses both sides
/// as unsigned decimal values: `parse_pair("1000x750", 'x')` is the pair
/// (1000, 750). Rejected as None: a string without the separator, and a
/// side that `parse_u64` rejects.
pub fn parse_pair(s: &str, separator: char) -> (r: Option<(u64, u64)>)
    ensures
        sep_index(s@, separator) < 0 ==> r is None,
        sep_index(s@, separator) >= 0 ==> ({
            let i = sep_index(s@, separator);
            let left = s@.subrange(0, i);
            let right = s@.subrange(i + 1, s@.len() as int);
            if valid_u64_digits(left) && valid_u64_digits(right) {
                r == Some((u64_value(left) as u64, u64_value(right) as u64))
            } else {
                r is None
            }
        }),
{
    let n = s.unicode_len();
    let mut i: usize = 0;
    while i < n
        invariant
            i <= n,
            n == s@.len(),
            forall|j: int| 0 <= j < i ==> s@[j] != separator,
        decreases n - i,
    {
        if s.get_char(i) == separator {
            proof {
                lemma_sep_index_first(s@, separator, i as int);
            }
            let left = s.substring_char(0, i);
            let right = s.substring_char(i + 1, n);
            let a = match parse_u64(left) {
                Some(v) => v,
                None => {
                    return None;
                },
            };
            let b = match parse_u64(right) {
                Some(v) => v,
                None => {
                    return None;
                },
            };
            return Some((a, b));
        }
        i = i + 1;
    }
    proof {
        lemma_sep_index_none(s@, separator);
    }
    None
}

} // verus!
