//! Reading numbers written in decimal digits.

use vstd::prelude::*;
use vstd::string::{is_ascii, is_ascii_spec_bytes, StringSliceAdditionalSpecFns};

verus! {

/// Whether `c` is one of the digits `0` to `9`.
pub open spec fn is_digit(c: char) -> bool {
    '0' <= c <= '9'
}

/// Whether `s` holds digits only.
pub open spec fn all_digits(s: Seq<char>) -> bool {
    forall|i: int| 0 <= i < s.len() ==> is_digit(#[trigger] s[i])
}

/// The number that the digits of `s` write, the empty string writing zero.
pub open spec fn decimal(s: Seq<char>) -> nat
    decreases s.len(),
{
    if s.len() == 0 {
        0
    } else {
        decimal(s.drop_last()) * 10 + (s.last() as u32 - '0' as u32) as nat
    }
}

/// `s` without a plus sign at its front.
pub open spec fn unsigned_part(s: Seq<char>) -> Seq<char> {
    if s.len() > 0 && s[0] == '+' {
        s.skip(1)
    } else {
        s
    }
}

/// The number up to `max` that `s` writes: one digit or more, a plus sign
/// allowed before them, and nothing else.
pub open spec fn parsed(s: Seq<char>, max: nat) -> Option<nat> {
    let digits = unsigned_part(s);
    if digits.len() == 0 || !all_digits(digits) || decimal(digits) > max {
        None
    } else {
        Some(decimal(digits))
    }
}

proof fn lemma_decimal_grows(s: Seq<char>, k: int)
    requires
        0 <= k <= s.len(),
        all_digits(s),
    ensures
        decimal(s.take(k)) <= decimal(s),
    decreases s.len() - k,
{
    if k < s.len() {
        lemma_decimal_grows(s, k + 1);
        assert(s.take(k + 1).drop_last() =~= s.take(k));
        assert(is_digit(s[k]));
    } else {
        assert(s.take(k) =~= s);
    }
}

/// Reads a number up to `max` from `s`.
pub fn parse_unsigned(s: &str, max: u64) -> (number: Option<u64>)
    ensures
        match number {
            Some(n) => parsed(s@, max as nat) == Some(n as nat),
            None => parsed(s@, max as nat) is None,
        },
{
    let ghost digits = unsigned_part(s@);
    if !s.is_ascii() {
        proof {
            let i = choose|i: int| 0 <= i < s@.len() && !('\0' <= #[trigger] s@[i] <= '\u{7f}');
            if s@[0] == '+' {
                assert(digits[i - 1] == s@[i]);
            } else {
                assert(digits[i] == s@[i]);
            }
        }
        return None;
    }
    let bytes = s.as_bytes();
    proof {
        is_ascii_spec_bytes(s);
    }
    let start: usize = if bytes.len() > 0 && bytes[0] == 43 {
        1
    } else {
        0
    };
    assert(digits =~= s@.skip(start as int));
    if start == bytes.len() {
        return None;
    }
    let mut value: u64 = 0;
    let mut i: usize = start;
    assert(digits.take(0) =~= Seq::empty());
    while i < bytes.len()
        invariant
            start <= i <= bytes.len(),
            bytes.len() == s@.len(),
            bytes@ == s.spec_bytes(),
            forall|j: int| 0 <= j < s@.len() ==> bytes@[j] == s@[j] as u8,
            is_ascii(s),
            digits == s@.skip(start as int),
            digits == unsigned_part(s@),
            all_digits(digits.take(i - start)),
            value == decimal(digits.take(i - start)),
            value <= max,
        decreases bytes.len() - i,
    {
        let byte = bytes[i];
        proof {
            assert(digits[i - start] == s@[i as int]);
            assert(digits.take(i - start + 1).drop_last() =~= digits.take(i - start));
            assert(digits.take(i - start + 1).last() == s@[i as int]);
            assert('\0' <= s@[i as int] <= '\u{7f}');
            assert(byte == s@[i as int] as u8);
            assert(byte as u32 == s@[i as int] as u32);
            assert('0' as u32 == 48 && '9' as u32 == 57);
        }
        if byte < 48 || byte > 57 {
            proof {
                assert(!is_digit(digits[i - start]));
            }
            return None;
        }
        let digit = (byte - 48) as u64;
        if digit > max || value > (max - digit) / 10 {
            proof {
                // The digits read so far already write more than `max`.
                assert(decimal(digits.take(i - start + 1)) == value * 10 + digit);
                assert(value * 10 + digit > max);
                if all_digits(digits) {
                    lemma_decimal_grows(digits, i - start + 1);
                }
            }
            return None;
        }
        value = value * 10 + digit;
        i += 1;
        proof {
            assert forall|j: int| 0 <= j < i - start implies is_digit(
                #[trigger] digits.take(i - start)[j],
            ) by {
                if j < i - start - 1 {
                    assert(digits.take(i - start - 1)[j] == digits.take(i - start)[j]);
                }
            }
        }
    }
    assert(digits.take(i - start) =~= digits);
    Some(value)
}

} // verus!
