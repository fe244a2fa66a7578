//! Fixed-point parser: a signed decimal with exactly one fractional digit,
//! converted to the value scaled by ten.

use vstd::prelude::*;

verus! {

/// ASCII decimal digit.
pub open spec fn is_ascii_digit(b: u8) -> bool {
    48 <= b && b <= 57
}

/// Unsigned magnitude grammar: one or two integer digits, a dot, and
/// exactly one fractional digit.
pub open spec fn is_valid_temp_mag(s: Seq<u8>) -> bool {
    ||| (s.len() == 3 && is_ascii_digit(s[0]) && s[1] == 46 && is_ascii_digit(s[2]))
    ||| (s.len() == 4 && is_ascii_digit(s[0]) && is_ascii_digit(s[1]) && s[2] == 46
        && is_ascii_digit(s[3]))
}

/// Value grammar: an optional leading minus sign before the magnitude.
pub open spec fn is_valid_temp(s: Seq<u8>) -> bool {
    if s.len() > 0 && s[0] == 45 {
        is_valid_temp_mag(s.skip(1))
    } else {
        is_valid_temp_mag(s)
    }
}

/// Scaled magnitude of a valid unsigned value: the digits read as an
/// integer with the dot removed.
pub open spec fn temp_mag(s: Seq<u8>) -> int {
    if s.len() == 3 {
        (s[0] - 48) * 10 + (s[2] - 48)
    } else {
        (s[0] - 48) * 100 + (s[1] - 48) * 10 + (s[3] - 48)
    }
}

/// Scaled value of a valid value string: the magnitude, negated after a
/// leading minus sign.
pub open spec fn temp_value(s: Seq<u8>) -> int {
    if s.len() > 0 && s[0] == 45 {
        -temp_mag(s.skip(1))
    } else {
        temp_mag(s)
    }
}

/// Every valid value string scales to the documented range.
pub proof fn lemma_temp_value_range(s: Seq<u8>)
    requires
        is_valid_temp(s),
    ensures
        -999 <= temp_value(s) <= 999,
{
}

/// Converts a valid value byte span into its scaled integer.
pub fn parse_temp(temp: &[u8]) -> (t: i16)
    requires
        is_valid_temp(temp@),
    ensures
        t as int == temp_value(temp@),
{
    proof {
        if temp@.len() > 0 && temp@[0] == 45 {
            assert(temp@.skip(1).len() == temp@.len() - 1);
        }
    }
    let neg = temp[0] == 45;
    let s: usize = if neg { 1 } else { 0 };
    proof {
        if neg {
            assert forall|i: int| 0 <= i < temp@.len() - 1 implies temp@.skip(1)[i] == temp@[i
                + 1] by {}
        }
    }
    let mag: i16 = if temp.len() - s == 3 {
        (temp[s] - 48) as i16 * 10 + (temp[s + 2] - 48) as i16
    } else {
        (temp[s] - 48) as i16 * 100 + (temp[s + 1] - 48) as i16 * 10 + (temp[s + 3] - 48) as i16
    };
    if neg {
        -mag
    } else {
        mag
    }
}

/// Validating parse: `Some` exactly on the value grammar, `None` on every
/// other byte span.
pub fn parse_temp_checked(temp: &[u8]) -> (r: Option<i16>)
    ensures
        match r {
            Some(t) => is_valid_temp(temp@) && t as int == temp_value(temp@),
            None => !is_valid_temp(temp@),
        },
{
    let n = temp.len();
    if n == 0 {
        return None;
    }
    let neg = temp[0] == 45;
    let s: usize = if neg { 1 } else { 0 };
    proof {
        if neg {
            assert forall|i: int| 0 <= i < temp@.len() - 1 implies temp@.skip(1)[i] == temp@[i
                + 1] by {}
        }
    }
    let m = n - s;
    let ok = if m == 3 {
        is_digit_byte(temp[s]) && temp[s + 1] == 46 && is_digit_byte(temp[s + 2])
    } else if m == 4 {
        is_digit_byte(temp[s]) && is_digit_byte(temp[s + 1]) && temp[s + 2] == 46 && is_digit_byte(
            temp[s + 3],
        )
    } else {
        false
    };
    if ok {
        Some(parse_temp(temp))
    } else {
        None
    }
}

/// Decides `is_ascii_digit`.
fn is_digit_byte(b: u8) -> (r: bool)
    ensures
        r == is_ascii_digit(b),
{
    48 <= b && b <= 57
}

} // verus!
