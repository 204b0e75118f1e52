//! Decimal numbers as the clients and the event source send them.
use vstd::prelude::*;

verus! {

broadcast use vstd::string::group_string_axioms;

/// `c` is one of the ASCII digits `0`-`9`.
pub open spec fn is_digit(c: char) -> bool {
    '0' <= c && c <= '9'
}

/// The value of the digit `c`.
pub open spec fn digit_value(c: char) -> int {
    c as int - '0' as int
}

/// Every character of `s` is a digit.
pub open spec fn all_digits(s: Seq<char>) -> bool {
    forall|i: int| 0 <= i < s.len() ==> #[trigger] is_digit(s[i])
}

/// The value of the digits `s` read in base 10 (0 for no digits).
pub open spec fn decimal_value(s: Seq<char>) -> int
    decreases s.len(),
{
    if s.len() == 0 {
        0
    } else {
        decimal_value(s.drop_last()) * 10 + digit_value(s.last())
    }
}

/// `s` without its leading `+`, if it has one.
pub open spec fn unsigned_digits(s: Seq<char>) -> Seq<char> {
    if s.len() > 0 && s[0] == '+' {
        s.drop_first()
    } else {
        s
    }
}

/// What reading `s` as a decimal `u32` gives: an optional `+` followed by one
/// or more digits whose value fits in a `u32`; anything else (whitespace
/// included) is refused.
pub open spec fn parse_u32_spec(s: Seq<char>) -> Option<u32> {
    let d = unsigned_digits(s);
    if d.len() > 0 && all_digits(d) && decimal_value(d) <= u32::MAX {
        Some(decimal_value(d) as u32)
    } else {
        None
    }
}

proof fn lemma_decimal_value_prefix(s: Seq<char>, k: int)
    requires
        all_digits(s),
        0 <= k <= s.len(),
    ensures
        0 <= decimal_value(s.subrange(0, k)) <= decimal_value(s),
    decreases s.len(),
{
    if s.len() > 0 {
        if k == s.len() {
            assert(s.subrange(0, k) =~= s);
            lemma_decimal_value_prefix(s.drop_last(), k - 1);
            assert(s.drop_last().subrange(0, k - 1) =~= s.drop_last());
            assert(is_digit(s[s.len() - 1]));
        } else {
            assert(all_digits(s.drop_last())) by {
                assert forall|i: int| 0 <= i < s.drop_last().len() implies #[trigger] is_digit(
                    s.drop_last()[i],
                ) by {
                    assert(is_digit(s[i]));
                }
            }
            lemma_decimal_value_prefix(s.drop_last(), k);
            assert(s.drop_last().subrange(0, k) =~= s.subrange(0, k));
            lemma_decimal_value_prefix(s.drop_last(), s.len() - 1);
            assert(s.drop_last().subrange(0, s.len() - 1) =~= s.drop_last());
            assert(is_digit(s[s.len() - 1]));
        }
    }
}

/// Reads `s` as a decimal `u32`: an optional `+` and then only digits.
pub fn parse_u32(s: &str) -> (r: Option<u32>)
    ensures
        r == parse_u32_spec(s@),
{
    let ghost chars = s@;
    let mut value: u32 = 0;
    let ghost mut seen: int = 0;
    let ghost mut start: int = 0;
    let mut first = true;
    let mut has_digit = false;
    for c in it: s.chars()
        invariant
            chars == s@,
            it.seq() == chars,
            seen == it.index(),
            seen <= chars.len(),
            first == (seen == 0),
            has_digit == (start < seen),
            0 <= start <= seen,
            start <= 1,
            start == 1 ==> chars.len() > 0 && chars[0] == '+',
            seen > 0 && chars[0] == '+' ==> start == 1,
            all_digits(chars.subrange(start, seen)),
            value == decimal_value(chars.subrange(start, seen)),
    {
        assert(chars[seen] == c);
        if first && c == '+' {
            proof {
                start = 1;
            }
            assert(chars.subrange(1, 1) =~= Seq::<char>::empty());
        } else if '0' <= c && c <= '9' {
            let digit = (c as u32) - ('0' as u32);
            let ghost prefix = chars.subrange(start, seen);
            let ghost next = chars.subrange(start, seen + 1);
            assert(next.drop_last() =~= prefix);
            assert(all_digits(next));
            assert(digit == digit_value(c));
            if value > (u32::MAX - digit) / 10 {
                proof {
                    assert(value * 10 + digit > u32::MAX) by (nonlinear_arith)
                        requires
                            value > (u32::MAX - digit) / 10,
                            digit <= 9,
                    ;
                    assert(decimal_value(next) == decimal_value(prefix) * 10 + digit_value(c));
                    let d = unsigned_digits(chars);
                    assert(d =~= chars.subrange(start, chars.len() as int));
                    if all_digits(d) {
                        lemma_decimal_value_prefix(d, seen + 1 - start);
                        assert(d.subrange(0, seen + 1 - start) =~= next);
                    }
                }
                return None;
            }
            value = value * 10 + digit;
            has_digit = true;
        } else {
            proof {
                let d = unsigned_digits(chars);
                assert(d =~= chars.subrange(start, chars.len() as int));
                assert(!is_digit(d[seen - start]));
            }
            return None;
        }
        first = false;
        proof {
            seen = seen + 1;
        }
    }
    proof {
        let d = unsigned_digits(chars);
        assert(d =~= chars.subrange(start, chars.len() as int));
    }
    if !has_digit {
        None
    } else {
        Some(value)
    }
}

} // verus!
