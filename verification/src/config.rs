//! The size of the tape, as the host is told it.

use std::str::Chars;
use vstd::prelude::*;
use vstd::std_specs::iter::IteratorSpec;

verus! {

/// The number of cells of the tape where the host names none.
pub const DEFAULT_CAPACITY: usize = 30000;

/// Why a configuration was refused.
#[derive(Debug, Clone, Copy, PartialEq, Eq)]
pub enum ConfigError {
    /// The capacity is not a positive decimal number that a tape can have.
    InvalidCapacity,
}

/// Whether `c` is a decimal digit.
pub open spec fn is_digit(c: char) -> bool {
    '0' <= c <= '9'
}

/// Whether `s` consists of decimal digits only.
pub open spec fn all_digits(s: Seq<char>) -> bool {
    forall|i: int| 0 <= i < s.len() ==> is_digit(#[trigger] s[i])
}

/// The number that the digits `s` write in base ten.
pub open spec fn number_of(s: Seq<char>) -> nat
    decreases s.len(),
{
    if s.len() == 0 {
        0
    } else {
        (number_of(s.drop_last()) * 10 + (s.last() as int - '0' as int)) as nat
    }
}

/// The capacity that the text `s` names, if it names one: `s` is not empty,
/// holds digits only, and writes a number that is positive and no larger
/// than the largest index.
pub open spec fn capacity_of(s: Seq<char>) -> Option<usize> {
    if s.len() > 0 && all_digits(s) && 0 < number_of(s) <= usize::MAX {
        Some(number_of(s) as usize)
    } else {
        None
    }
}

/// A number does not get smaller when digits are written behind it.
pub proof fn lemma_number_of_grows(s: Seq<char>, n: int)
    requires
        all_digits(s),
        0 <= n <= s.len(),
    ensures
        number_of(s.take(n)) <= number_of(s),
    decreases s.len() - n,
{
    if n < s.len() {
        lemma_number_of_grows(s, n + 1);
        assert(s.take(n + 1).drop_last() =~= s.take(n));
        assert(is_digit(s[n]));
        assert(s.take(n + 1).last() == s[n]);
    } else {
        assert(s.take(n) =~= s);
    }
}

/// The capacity of the tape: `DEFAULT_CAPACITY` where the host names none,
/// else the positive decimal number that `value` writes.
pub fn tape_capacity(value: Option<&str>) -> (capacity: Result<usize, ConfigError>)
    ensures
        capacity == match value {
            None => Ok(DEFAULT_CAPACITY),
            Some(text) => match capacity_of(text@) {
                Some(n) => Ok(n),
                None => Err(ConfigError::InvalidCapacity),
            },
        },
{
    let text = match value {
        None => {
            return Ok(DEFAULT_CAPACITY);
        },
        Some(text) => text,
    };
    let mut chars: Chars = text.chars();
    let mut number: usize = 0;
    let mut seen: bool = false;
    let ghost mut at: int = 0;
    assert(text@.take(0) =~= Seq::<char>::empty());
    assert(text@.skip(0) =~= text@);
    loop
        invariant_except_break
            0 <= at <= text@.len(),
            chars.remaining() == text@.skip(at),
            all_digits(text@.take(at)),
            number == number_of(text@.take(at)),
            seen == (at > 0),
        invariant
            value == Some(text),
            chars.decrease() is Some,
        ensures
            at == text@.len(),
            all_digits(text@),
            number == number_of(text@),
            seen == (text@.len() > 0),
        decreases chars.decrease()->0,
    {
        match chars.next() {
            None => {
                assert(text@.take(at) =~= text@);
                break ;
            },
            Some(c) => {
                assert(c == text@[at]);
                assert(text@.skip(at).drop_first() =~= text@.skip(at + 1));
                assert(text@.take(at + 1).drop_last() =~= text@.take(at));
                assert(text@.take(at + 1).last() == c);
                if c < '0' || c > '9' {
                    assert(!is_digit(text@[at]));
                    return Err(ConfigError::InvalidCapacity);
                }
                let digit = (c as u32 - '0' as u32) as usize;
                proof {
                    assert forall|i: int| 0 <= i < at + 1 implies is_digit(
                        #[trigger] text@.take(at + 1)[i],
                    ) by {
                        if i < at {
                            assert(text@.take(at)[i] == text@[i]);
                        }
                    }
                }
                let grown = match number.checked_mul(10) {
                    None => None,
                    Some(tens) => tens.checked_add(digit),
                };
                match grown {
                    None => {
                        proof {
                            if all_digits(text@) {
                                lemma_number_of_grows(text@, at + 1);
                            }
                        }
                        return Err(ConfigError::InvalidCapacity);
                    },
                    Some(total) => {
                        number = total;
                    },
                }
                seen = true;
                proof {
                    at = at + 1;
                }
            },
        }
    }
    if seen && number > 0 {
        Ok(number)
    } else {
        Err(ConfigError::InvalidCapacity)
    }
}

} // verus!
