//! Fixed-point decoding of ASCII temperature tokens.
//!
//! A well-formed token is `-?D[D].D` (integer part one or two digits, one
//! fractional digit, optional leading minus) and decodes to a signed integer
//! number of tenths in `[-999, 999]`.

use vstd::prelude::*;
use crate::MINUS;
use crate::PERIOD;

verus! {

/// ASCII decimal digit.
pub open spec fn is_digit(b: u8) -> bool {
    48 <= b <= 57
}

/// Numeric value of an ASCII digit byte.
pub open spec fn digit_val(b: u8) -> int {
    b - 48
}

/// Magnitude (in tenths) of an unsigned token: `D.D` or `DD.D`.
pub open spec fn unsigned_token_value(s: Seq<u8>) -> int {
    if s.len() == 3 {
        digit_val(s[0]) * 10 + digit_val(s[2])
    } else {
        digit_val(s[0]) * 100 + digit_val(s[1]) * 10 + digit_val(s[3])
    }
}

/// The token matches `D.D` or `DD.D`.
pub open spec fn wf_unsigned_token(s: Seq<u8>) -> bool {
    ||| (s.len() == 3 && is_digit(s[0]) && s[1] == PERIOD && is_digit(s[2]))
    ||| (s.len() == 4 && is_digit(s[0]) && is_digit(s[1]) && s[2] == PERIOD && is_digit(s[3]))
}

/// The token matches `-?D[D].D`.
pub open spec fn wf_token(s: Seq<u8>) -> bool {
    if s.len() > 0 && s[0] == MINUS {
        wf_unsigned_token(s.drop_first())
    } else {
        wf_unsigned_token(s)
    }
}

/// Signed tenths value of a well-formed token.
pub open spec fn token_value(s: Seq<u8>) -> int {
    if s.len() > 0 && s[0] == MINUS {
        -unsigned_token_value(s.drop_first())
    } else {
        unsigned_token_value(s)
    }
}

/// A well-formed token always decodes into `[-999, 999]`.
pub proof fn lemma_token_value_bounds(s: Seq<u8>)
    requires
        wf_token(s),
    ensures
        -999 <= token_value(s) <= 999,
{
}

/// Decide whether a byte string is a well-formed temperature token.
pub fn check_token(s: &[u8]) -> (r: bool)
    ensures
        r == wf_token(s@),
{
    let n = s.len();
    let base: usize = if n > 0 && s[0] == MINUS {
        1
    } else {
        0
    };
    let m = n - base;
    let r = if m == 3 {
        48 <= s[base] && s[base] <= 57 && s[base + 1] == PERIOD && 48 <= s[base + 2] && s[base
            + 2] <= 57
    } else if m == 4 {
        48 <= s[base] && s[base] <= 57 && 48 <= s[base + 1] && s[base + 1] <= 57 && s[base + 2]
            == PERIOD && 48 <= s[base + 3] && s[base + 3] <= 57
    } else {
        false
    };
    proof {
        if n > 0 && s@[0] == MINUS {
            assert(s@.drop_first() =~= s@.subrange(1, n as int));
        }
    }
    r
}

/// Decode a well-formed ASCII fixed-point token into tenths, classifying
/// the shape by the position of the decimal point.
pub fn parse_digits(buffer: &[u8]) -> (r: i32)
    requires
        wf_token(buffer@),
    ensures
        r == token_value(buffer@),
        -999 <= r <= 999,
{
    let n = buffer.len();
    let (neg, base) = if buffer[0] == MINUS {
        (true, 1usize)
    } else {
        (false, 0usize)
    };
    let mag: i32 = if n - base == 3 {
        (buffer[base] as i32 - 48) * 10 + (buffer[base + 2] as i32 - 48)
    } else {
        (buffer[base] as i32 - 48) * 100 + (buffer[base + 1] as i32 - 48) * 10
            + (buffer[base + 3] as i32 - 48)
    };
    proof {
        if buffer@[0] == MINUS {
            assert(buffer@.drop_first() =~= buffer@.subrange(1, n as int));
        }
    }
    if neg {
        -mag
    } else {
        mag
    }
}

} // verus!
