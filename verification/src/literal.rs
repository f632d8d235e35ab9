//! Integer literals: what number a piece of source text denotes.

use vstd::prelude::*;

verus! {

/// Whether `byte` is an ASCII decimal digit.
pub open spec fn is_digit(byte: u8) -> bool {
    48 <= byte <= 57
}

/// Whether `text` is a sequence of one or more decimal digits.
pub open spec fn is_digits(text: Seq<u8>) -> bool {
    text.len() > 0 && forall|i: int| 0 <= i < text.len() ==> is_digit(#[trigger] text[i])
}

/// The number that the decimal digits `digits` denote.
pub open spec fn digits_value(digits: Seq<u8>) -> nat
    decreases digits.len(),
{
    if digits.len() == 0 {
        0
    } else {
        (10 * digits_value(digits.drop_last()) + (digits.last() - 48)) as nat
    }
}

/// The integer that `text` denotes: an optional sign, `+` or `-`, then one or
/// more decimal digits, with a value that fits in 64 bits. Anything else
/// denotes no integer.
pub open spec fn int_literal(text: Seq<u8>) -> Option<i64> {
    let signed = text.len() > 0 && (text[0] == 45 || text[0] == 43);
    let negative = text.len() > 0 && text[0] == 45;
    let digits = if signed {
        text.drop_first()
    } else {
        text
    };
    let value = if negative {
        -(digits_value(digits) as int)
    } else {
        digits_value(digits) as int
    };
    if is_digits(digits) && i64::MIN <= value <= i64::MAX {
        Some(value as i64)
    } else {
        None
    }
}

/// More digits never denote less.
proof fn lemma_digits_value_grows(digits: Seq<u8>, shorter: int)
    requires
        0 <= shorter <= digits.len(),
        forall|i: int| 0 <= i < digits.len() ==> is_digit(#[trigger] digits[i]),
    ensures
        digits_value(digits.take(shorter)) <= digits_value(digits),
    decreases digits.len() - shorter,
{
    if shorter < digits.len() {
        let next = digits.take(shorter + 1);
        assert(next.drop_last() =~= digits.take(shorter));
        assert(next.last() == digits[shorter]);
        lemma_digits_value_grows(digits, shorter + 1);
    } else {
        assert(digits.take(shorter) =~= digits);
    }
}

/// Reads `text` as a decimal integer.
pub fn parse_int(text: &[u8]) -> (r: Option<i64>)
    ensures
        r == int_literal(text@),
{
    let length = text.len();
    if length == 0 {
        return None;
    }
    let negative = text[0] == 45;
    let first: usize = if text[0] == 45 || text[0] == 43 {
        1
    } else {
        0
    };
    let ghost digits = if first == 1 {
        text@.drop_first()
    } else {
        text@
    };
    if first == length {
        return None;
    }
    let mut below: i64 = 0;
    let mut i: usize = first;
    while i < length
        invariant
            length == text@.len(),
            first <= i <= length,
            first < length,
            first == 0 || first == 1,
            negative == (text@[0] == 45),
            (first == 1) == (text@[0] == 45 || text@[0] == 43),
            digits == (if first == 1 {
                text@.drop_first()
            } else {
                text@
            }),
            digits.len() == length - first,
            forall|j: int| 0 <= j < digits.len() ==> digits[j] == text@[j + first],
            forall|j: int| 0 <= j < i - first ==> is_digit(#[trigger] digits[j]),
            below == -(digits_value(digits.take(i - first)) as int),
        decreases length - i,
    {
        let byte = text[i];
        if byte < 48 || byte > 57 {
            assert(!is_digit(digits[i - first]));
            return None;
        }
        let digit: i64 = (byte - 48) as i64;
        proof {
            let next = digits.take(i - first + 1);
            assert(next.drop_last() =~= digits.take(i - first));
            assert(next.last() == digits[i - first]);
        }
        let grown = match below.checked_mul(10) {
            Some(scaled) => scaled.checked_sub(digit),
            None => None,
        };
        match grown {
            Some(value) => {
                below = value;
            },
            None => {
                proof {
                    if is_digits(digits) {
                        lemma_digits_value_grows(digits, i - first + 1);
                    }
                }
                return None;
            },
        }
        i += 1;
    }
    assert(digits.take(i - first) =~= digits);
    if negative {
        Some(below)
    } else if below == i64::MIN {
        None
    } else {
        Some(-below)
    }
}

} // verus!
