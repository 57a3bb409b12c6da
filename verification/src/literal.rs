use vstd::prelude::*;

verus! {

/// Whether `c` is one of the ten decimal digits.
pub open spec fn is_digit(c: char) -> bool {
    '0' <= c <= '9'
}

/// The number a run of decimal digits denotes, most significant digit first.
pub open spec fn digits_value(digits: Seq<char>) -> nat
    decreases digits.len(),
{
    if digits.len() == 0 {
        0
    } else {
        digits_value(digits.drop_last()) * 10 + (digits.last() as nat - '0' as nat) as nat
    }
}

/// Whether every character of `digits` is a decimal digit.
pub open spec fn all_digits(digits: Seq<char>) -> bool {
    forall|i: int| 0 <= i < digits.len() ==> is_digit(#[trigger] digits[i])
}

/// The digits of a literal: the text without its optional sign.
pub open spec fn literal_digits(text: Seq<char>) -> Seq<char> {
    if text.len() > 0 && (text[0] == '-' || text[0] == '+') {
        text.skip(1)
    } else {
        text
    }
}

/// Whether a literal carries a minus sign.
pub open spec fn literal_negative(text: Seq<char>) -> bool {
    text.len() > 0 && text[0] == '-'
}

/// The value of a signed 32-bit decimal literal: an optional `+` or `-`,
/// then at least one digit and nothing else, denoting a number from
/// -2147483648 to 2147483647. Any other text has no value.
pub open spec fn literal_value(text: Seq<char>) -> Option<i32> {
    let digits = literal_digits(text);
    let magnitude = digits_value(digits) as int;
    let value = if literal_negative(text) { -magnitude } else { magnitude };
    if digits.len() > 0 && all_digits(digits) && i32::MIN <= value <= i32::MAX {
        Some(value as i32)
    } else {
        None
    }
}

/// The value of a literal as a native word: sign-extended.
pub open spec fn literal_word(text: Seq<char>) -> i64 {
    literal_value(text)->0 as i64
}

/// Appending a digit never makes the denoted number smaller.
pub proof fn lemma_digits_value_push(digits: Seq<char>, c: char)
    requires
        is_digit(c),
    ensures
        digits_value(digits.push(c)) == digits_value(digits) * 10 + (c as nat - '0' as nat),
        digits_value(digits.push(c)) >= digits_value(digits),
{
    assert(digits.push(c).drop_last() =~= digits);
}

/// Whether a literal starts with a sign.
pub open spec fn literal_signed(text: Seq<char>) -> bool {
    text.len() > 0 && (text[0] == '-' || text[0] == '+')
}

/// The digits among the first `k` characters of a literal.
pub open spec fn digits_before(text: Seq<char>, k: int) -> Seq<char> {
    if k > 0 && literal_signed(text) {
        text.subrange(1, k)
    } else {
        text.take(k)
    }
}

/// Reads a signed 32-bit decimal literal.
pub fn parse_i32(text: &str) -> (value: Option<i32>)
    ensures
        value == literal_value(text@),
{
    let mut first = true;
    let mut negative = false;
    let mut seen_digit = false;
    let mut valid = true;
    let mut overflow = false;
    let mut magnitude: i64 = 0;
    for c in iter: text.chars()
        invariant
            iter.seq() == text@,
            first == (iter.index() == 0),
            negative == (iter.index() > 0 && literal_negative(text@)),
            seen_digit == (digits_before(text@, iter.index() as int).len() > 0),
            valid == all_digits(digits_before(text@, iter.index() as int)),
            0 <= magnitude <= 2147483648,
            valid && !overflow ==> magnitude == digits_value(
                digits_before(text@, iter.index() as int),
            ),
            valid && overflow ==> digits_value(digits_before(text@, iter.index() as int))
                > 2147483648,
    {
        let ghost k = iter.index() as int;
        let ghost before = digits_before(text@, k);
        let ghost after = digits_before(text@, k + 1);
        assert(c == text@[k]);
        if first && (c == '-' || c == '+') {
            negative = c == '-';
            assert(after =~= Seq::<char>::empty());
        } else {
            assert(after =~= before.push(c));
            if '0' <= c && c <= '9' {
                seen_digit = true;
                proof {
                    if valid {
                        lemma_digits_value_push(before, c);
                    }
                    assert(all_digits(before) ==> all_digits(after));
                    assert(all_digits(after) ==> all_digits(before)) by {
                        if all_digits(after) {
                            assert forall|i: int| 0 <= i < before.len() implies is_digit(
                                #[trigger] before[i],
                            ) by {
                                assert(before[i] == after[i]);
                            }
                        }
                    }
                }
                if !overflow {
                    let digit: i64 = (c as u32 - '0' as u32) as i64;
                    let next: i64 = magnitude * 10 + digit;
                    if next > 2147483648 {
                        overflow = true;
                    } else {
                        magnitude = next;
                    }
                }
            } else {
                valid = false;
                assert(!is_digit(after[after.len() - 1]));
                seen_digit = true;
            }
        }
        first = false;
    }
    proof {
        assert(text@.take(text@.len() as int) =~= text@);
        assert(text@.subrange(1, text@.len() as int) =~= text@.skip(1));
        assert(digits_before(text@, text@.len() as int) =~= literal_digits(text@));
    }
    if !valid || !seen_digit || overflow {
        None
    } else if negative {
        Some((-magnitude) as i32)
    } else if magnitude == 2147483648 {
        None
    } else {
        Some(magnitude as i32)
    }
}

} // verus!
