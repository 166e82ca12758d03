//! Word-at-a-time fast paths: loading an 8-byte little-endian window and
//! decoding a temperature token straight out of it.

use vstd::prelude::*;
use crate::decode::{wf_token, token_value, is_digit};
use crate::scanner::{find_from, find_byte_from, lemma_find_from, lemma_find_from_skip};
use crate::PERIOD;
use crate::MINUS;
use crate::SEMICOLON;
use vstd::slice::slice_subrange;

verus! {

/// Repeated separator byte, for the word-wide equality test.
pub const SEMI_PATTERN: u64 = 0x3B3B3B3B3B3B3B3B;

/// Low bit of each byte.
pub const LOW_ONES: u64 = 0x0101010101010101;

/// High bit of each byte.
pub const HIGH_BITS: u64 = 0x8080808080808080;

/// Mask of the lowest byte.
pub const CHAR_MASK0: u64 = 255;

/// Mask of byte 1.
pub const CHAR_MASK1: u64 = 255 << 8;

/// Mask of byte 2.
pub const CHAR_MASK2: u64 = 255 << 16;

/// Mask of byte 3.
pub const CHAR_MASK3: u64 = 255 << 24;

/// Mask of byte 4.
pub const CHAR_MASK4: u64 = 255 << 32;

/// A decimal point in byte 1.
pub const DOT1: u64 = 46 << 8;

/// A decimal point in byte 2.
pub const DOT2: u64 = 46 << 16;

/// Byte `i` of the little-endian word `u`.
pub open spec fn word_byte(u: u64, i: int) -> u8 {
    ((u >> ((8 * i) as u64)) & 0xff) as u8
}

/// The first `n` bytes of the word, as a byte string.
pub open spec fn word_prefix(u: u64, n: int) -> Seq<u8> {
    Seq::new(n as nat, |i: int| word_byte(u, i))
}

/// Length of the token at the start of the word, classified by which byte
/// holds the decimal point: `D.D`, `DD.D`/`-D.D`, or `-DD.D`.
pub open spec fn spec_token_len(u: u64) -> int {
    if word_byte(u, 1) == PERIOD {
        3
    } else if word_byte(u, 2) == PERIOD {
        4
    } else {
        5
    }
}

/// Load 8 bytes as a little-endian word.
pub fn load_u64_le(bytes: &[u8]) -> (r: u64)
    requires
        bytes@.len() >= 8,
    ensures
        forall|i: int| 0 <= i < 8 ==> #[trigger] word_byte(r, i) == bytes@[i],
{
    let b0 = bytes[0] as u64;
    let b1 = bytes[1] as u64;
    let b2 = bytes[2] as u64;
    let b3 = bytes[3] as u64;
    let b4 = bytes[4] as u64;
    let b5 = bytes[5] as u64;
    let b6 = bytes[6] as u64;
    let b7 = bytes[7] as u64;
    let r = b0 | (b1 << 8) | (b2 << 16) | (b3 << 24) | (b4 << 32) | (b5 << 40) | (b6 << 48) | (b7
        << 56);
    proof {
        assert({
            let w = b0 | (b1 << 8) | (b2 << 16) | (b3 << 24) | (b4 << 32) | (b5 << 40) | (b6
                << 48) | (b7 << 56);
            (w >> 0) & 0xff == b0 && (w >> 8) & 0xff == b1 && (w >> 16) & 0xff == b2 && (w >> 24)
                & 0xff == b3 && (w >> 32) & 0xff == b4 && (w >> 40) & 0xff == b5 && (w >> 48)
                & 0xff == b6 && (w >> 56) & 0xff == b7
        }) by (bit_vector)
            requires
                b0 < 256 && b1 < 256 && b2 < 256 && b3 < 256 && b4 < 256 && b5 < 256 && b6 < 256
                    && b7 < 256,
        ;
        assert forall|i: int| 0 <= i < 8 implies #[trigger] word_byte(r, i) == bytes@[i] by {
            if i == 0 {
                assert(word_byte(r, 0) == bytes@[0]);
            } else if i == 1 {
                assert(word_byte(r, 1) == bytes@[1]);
            } else if i == 2 {
                assert(word_byte(r, 2) == bytes@[2]);
            } else if i == 3 {
                assert(word_byte(r, 3) == bytes@[3]);
            } else if i == 4 {
                assert(word_byte(r, 4) == bytes@[4]);
            } else if i == 5 {
                assert(word_byte(r, 5) == bytes@[5]);
            } else if i == 6 {
                assert(word_byte(r, 6) == bytes@[6]);
            } else {
                assert(word_byte(r, 7) == bytes@[7]);
            }
        }
    }
    r
}

/// Find the separator within the word's 8 bytes: the byte index of the first
/// one, or -1 if none. One XOR turns separator bytes into zero bytes; the
/// subtract-and-mask trick raises the high bit of the first zero byte, and
/// the trailing-zero count locates it.
pub fn find_semicolon(word: u64) -> (r: i32)
    ensures
        ({
            let p = find_from(word_prefix(word, 8), 0, 8, SEMICOLON);
            if p == 8 {
                r == -1
            } else {
                r == p
            }
        }),
{
    let m0 = word ^ SEMI_PATTERN;
    let d = m0.wrapping_sub(LOW_ONES);
    let masked = d & (!m0) & HIGH_BITS;
    proof {
        lemma_find_from(word_prefix(word, 8), 0, 8, SEMICOLON);
        assert forall|i: int|
            0 <= i < 8 implies ((word_prefix(word, 8)[i] == SEMICOLON) <==> ((word >> ((8
            * i) as u64)) & 0xff == 59)) by {
            let s = (8 * i) as u64;
            assert((word >> s) & 0xff < 256) by (bit_vector);
        }
    }
    if masked == 0 {
        proof {
            assert((word >> 0) & 0xff != 59 && (word >> 8) & 0xff != 59 && (word >> 16) & 0xff
                != 59 && (word >> 24) & 0xff != 59 && (word >> 32) & 0xff != 59 && (word >> 40)
                & 0xff != 59 && (word >> 48) & 0xff != 59 && (word >> 56) & 0xff
                != 59) by (bit_vector)
                requires
                    (d == (word ^ 0x3B3B3B3B3B3B3B3Bu64) - 0x0101010101010101u64 || d == (word
                        ^ 0x3B3B3B3B3B3B3B3Bu64) - 0x0101010101010101u64
                        + 0x1_0000_0000_0000_0000),
                    0u64 == d & (!(word ^ 0x3B3B3B3B3B3B3B3Bu64)) & 0x8080808080808080u64,
            ;
            let p = find_from(word_prefix(word, 8), 0, 8, SEMICOLON);
            if p < 8 {
                assert(word_prefix(word, 8)[p] == SEMICOLON);
                assert((word >> ((8 * p) as u64)) & 0xff == 59);
                if p == 0 {
                    assert((word >> ((8 * 0) as u64)) & 0xff == 59);
                } else if p == 1 {
                    assert((word >> ((8 * 1) as u64)) & 0xff == 59);
                } else if p == 2 {
                    assert((word >> ((8 * 2) as u64)) & 0xff == 59);
                } else if p == 3 {
                    assert((word >> ((8 * 3) as u64)) & 0xff == 59);
                } else if p == 4 {
                    assert((word >> ((8 * 4) as u64)) & 0xff == 59);
                } else if p == 5 {
                    assert((word >> ((8 * 5) as u64)) & 0xff == 59);
                } else if p == 6 {
                    assert((word >> ((8 * 6) as u64)) & 0xff == 59);
                } else {
                    assert((word >> ((8 * 7) as u64)) & 0xff == 59);
                }
                assert(false);
            }
        }
        return -1;
    }
    let tz = masked.trailing_zeros();
    let r = (tz >> 3) as i32;
    proof {
        let p = find_from(word_prefix(word, 8), 0, 8, SEMICOLON);
        assert(p < 8) by {
            if p == 8 {
                assert(word_prefix(word, 8)[0] != SEMICOLON && word_prefix(word, 8)[1]
                    != SEMICOLON && word_prefix(word, 8)[2] != SEMICOLON && word_prefix(word, 8)[3]
                    != SEMICOLON && word_prefix(word, 8)[4] != SEMICOLON && word_prefix(word, 8)[5]
                    != SEMICOLON && word_prefix(word, 8)[6] != SEMICOLON && word_prefix(word, 8)[7]
                    != SEMICOLON);
                assert((word >> ((8 * 0) as u64)) & 0xff != 59 && (word >> ((8 * 1) as u64))
                    & 0xff != 59 && (word >> ((8 * 2) as u64)) & 0xff != 59 && (word >> ((8
                    * 3) as u64)) & 0xff != 59 && (word >> ((8 * 4) as u64)) & 0xff != 59 && (word
                    >> ((8 * 5) as u64)) & 0xff != 59 && (word >> ((8 * 6) as u64)) & 0xff != 59
                    && (word >> ((8 * 7) as u64)) & 0xff != 59);
                assert(masked == 0u64) by (bit_vector)
                    requires
                        (d == (word ^ 0x3B3B3B3B3B3B3B3Bu64) - 0x0101010101010101u64 || d == (
                        word ^ 0x3B3B3B3B3B3B3B3Bu64) - 0x0101010101010101u64
                            + 0x1_0000_0000_0000_0000),
                        masked == d & (!(word ^ 0x3B3B3B3B3B3B3B3Bu64)) & 0x8080808080808080u64,
                        (word >> 0) & 0xff != 59 && (word >> 8) & 0xff != 59 && (word >> 16)
                            & 0xff != 59 && (word >> 24) & 0xff != 59 && (word >> 32) & 0xff
                            != 59 && (word >> 40) & 0xff != 59 && (word >> 48) & 0xff != 59 && (
                        word >> 56) & 0xff != 59,
                ;
            }
        }
        let k = p as u64;
        assert(word_prefix(word, 8)[p] == SEMICOLON);
        assert((word >> ((8 * p) as u64)) & 0xff == 59);
        assert(((8 * p) as u64) == 8 * k);
        assert((word >> (8 * k)) & 0xff == 59);
        assert(k > 0 ==> word_prefix(word, 8)[0] != SEMICOLON);
        assert(k > 1 ==> word_prefix(word, 8)[1] != SEMICOLON);
        assert(k > 2 ==> word_prefix(word, 8)[2] != SEMICOLON);
        assert(k > 3 ==> word_prefix(word, 8)[3] != SEMICOLON);
        assert(k > 4 ==> word_prefix(word, 8)[4] != SEMICOLON);
        assert(k > 5 ==> word_prefix(word, 8)[5] != SEMICOLON);
        assert(k > 6 ==> word_prefix(word, 8)[6] != SEMICOLON);
        assert(k > 0 ==> (word >> ((8 * 0) as u64)) & 0xff != 59);
        assert(k > 1 ==> (word >> ((8 * 1) as u64)) & 0xff != 59);
        assert(k > 2 ==> (word >> ((8 * 2) as u64)) & 0xff != 59);
        assert(k > 3 ==> (word >> ((8 * 3) as u64)) & 0xff != 59);
        assert(k > 4 ==> (word >> ((8 * 4) as u64)) & 0xff != 59);
        assert(k > 5 ==> (word >> ((8 * 5) as u64)) & 0xff != 59);
        assert(k > 6 ==> (word >> ((8 * 6) as u64)) & 0xff != 59);
        assert((masked >> (8 * k + 7)) & 1u64 == 1u64) by (bit_vector)
            requires
                (d == (word ^ 0x3B3B3B3B3B3B3B3Bu64) - 0x0101010101010101u64 || d == (word
                    ^ 0x3B3B3B3B3B3B3B3Bu64) - 0x0101010101010101u64 + 0x1_0000_0000_0000_0000),
                masked == d & (!(word ^ 0x3B3B3B3B3B3B3B3Bu64)) & 0x8080808080808080u64,
                k < 8,
                (word >> (8 * k)) & 0xff == 59,
                (k > 0 ==> (word >> 0) & 0xff != 59) && (k > 1 ==> (word >> 8) & 0xff != 59) && (
                k > 2 ==> (word >> 16) & 0xff != 59) && (k > 3 ==> (word >> 24) & 0xff != 59) && (
                k > 4 ==> (word >> 32) & 0xff != 59) && (k > 5 ==> (word >> 40) & 0xff != 59) && (
                k > 6 ==> (word >> 48) & 0xff != 59),
        ;
        assert forall|jj: u64| jj < 8 * k + 7 implies (masked >> jj) & 1u64 == 0u64 by {
            assert((masked >> jj) & 1u64 == 0u64) by (bit_vector)
                requires
                    (d == (word ^ 0x3B3B3B3B3B3B3B3Bu64) - 0x0101010101010101u64 || d == (word
                        ^ 0x3B3B3B3B3B3B3B3Bu64) - 0x0101010101010101u64
                        + 0x1_0000_0000_0000_0000),
                    masked == d & (!(word ^ 0x3B3B3B3B3B3B3B3Bu64)) & 0x8080808080808080u64,
                    k < 8,
                    jj < 8 * k + 7,
                    (word >> (8 * k)) & 0xff == 59,
                    (k > 0 ==> (word >> 0) & 0xff != 59) && (k > 1 ==> (word >> 8) & 0xff != 59)
                        && (k > 2 ==> (word >> 16) & 0xff != 59) && (k > 3 ==> (word >> 24)
                        & 0xff != 59) && (k > 4 ==> (word >> 32) & 0xff != 59) && (k > 5 ==> (
                    word >> 40) & 0xff != 59) && (k > 6 ==> (word >> 48) & 0xff != 59),
            ;
        }
        vstd::std_specs::bits::axiom_u64_trailing_zeros(masked);
        let tzs = vstd::std_specs::bits::u64_trailing_zeros(masked);
        assert(tzs < 64);
        assert(tzs as u64 == 8 * k + 7) by {
            if (tzs as u64) < 8 * k + 7 {
                assert((masked >> tzs as u64) & 1u64 == 0u64);
                assert(false);
            }
            if (tzs as u64) > 8 * k + 7 {
                assert((masked >> (8 * k + 7)) & 1u64 == 0u64);
                assert(false);
            }
        }
        assert(tz >> 3 == k as u32) by (bit_vector)
            requires
                tz == 8 * (k as u32) + 7,
                k < 8,
        ;
    }
    r
}

/// First separator in `data[from..end]`, or `end` if none: read the buffer a
/// word at a time while at least 8 bytes remain, falling back to a byte-wise
/// scan near the end of the range.
pub fn find_sep_from(data: &[u8], from: usize, end: usize) -> (r: usize)
    requires
        from <= end <= data@.len(),
    ensures
        r == find_from(data@, from as int, end as int, SEMICOLON),
{
    let ghost s = data@;
    let mut i = from;
    while i <= end && end - i >= 8
        invariant
            from <= i <= end <= s.len(),
            s == data@,
            find_from(s, from as int, end as int, SEMICOLON) == find_from(
                s,
                i as int,
                end as int,
                SEMICOLON,
            ),
        decreases end - i,
    {
        let w = load_u64_le(slice_subrange(data, i, end));
        let idx = find_semicolon(w);
        proof {
            assert forall|j: int| 0 <= j < 8 implies word_prefix(w, 8)[j] == s[i + j] by {
                assert(word_byte(w, j) == s.subrange(i as int, end as int)[j]);
            }
            lemma_find_from(word_prefix(w, 8), 0, 8, SEMICOLON);
            lemma_find_from(s, i as int, end as int, SEMICOLON);
        }
        if idx >= 0 {
            let r = i + (idx as usize);
            proof {
                let p = find_from(word_prefix(w, 8), 0, 8, SEMICOLON);
                assert(s[i + p] == SEMICOLON);
                let f = find_from(s, i as int, end as int, SEMICOLON);
                if f < i + p {
                    assert(word_prefix(w, 8)[f - i] != SEMICOLON);
                    assert(false);
                }
                if f > i + p {
                    assert(s[i + p] != SEMICOLON);
                    assert(false);
                }
            }
            return r;
        }
        proof {
            let p = find_from(word_prefix(w, 8), 0, 8, SEMICOLON);
            assert(p == 8);
            assert forall|m: int| i <= m < i + 8 implies s[m] != SEMICOLON by {
                assert(word_prefix(w, 8)[m - i] != SEMICOLON);
            }
            lemma_find_from_skip(s, i as int, i + 8, end as int, SEMICOLON);
        }
        i += 8;
    }
    find_byte_from(data, i, end, SEMICOLON)
}

/// Byte-wise fallback: the station name before the first separator, and how
/// many bytes to step past it.
pub fn scan_city_slow(data: &[u8]) -> (r: (&[u8], usize))
    ensures
        ({
            let sep = find_from(data@, 0, data@.len() as int, SEMICOLON);
            &&& r.0@ == data@.subrange(0, sep)
            &&& r.1 == if sep < data@.len() {
                sep + 1
            } else {
                sep
            }
        }),
{
    let n = data.len();
    let pos = crate::scanner::find_byte_from(data, 0, n, SEMICOLON);
    proof {
        lemma_find_from(data@, 0, n as int, SEMICOLON);
    }
    if pos < n {
        (vstd::slice::slice_subrange(data, 0, pos), pos + 1)
    } else {
        proof {
            assert(data@.subrange(0, n as int) =~= data@);
        }
        (data, n)
    }
}

/// Decode the fixed-point token at the start of the word by masked byte
/// tests, without touching the buffer again. Returns the tenths value and
/// the bytes consumed, terminator included.
pub fn parse_number(u: u64) -> (r: (i16, usize))
    requires
        wf_token(word_prefix(u, spec_token_len(u))),
    ensures
        r.0 as int == token_value(word_prefix(u, spec_token_len(u))),
        r.1 == spec_token_len(u) + 1,
        -999 <= r.0 <= 999,
{
    proof {
        assert((u & 255u64) == (u >> 0) & 0xff && ((u & (255u64 << 8)) >> 8) == (u >> 8) & 0xff
            && ((u & (255u64 << 16)) >> 16) == (u >> 16) & 0xff && ((u & (255u64 << 24)) >> 24)
            == (u >> 24) & 0xff && ((u & (255u64 << 32)) >> 32) == (u >> 32) & 0xff && ((u & (
        255u64 << 8)) == (46u64 << 8) <==> (u >> 8) & 0xff == 46) && ((u & (255u64 << 16)) == (
        46u64 << 16) <==> (u >> 16) & 0xff == 46) && (u >> 0) & 0xff < 256 && (u >> 8) & 0xff
            < 256 && (u >> 16) & 0xff < 256 && (u >> 24) & 0xff < 256 && (u >> 32) & 0xff
            < 256) by (bit_vector);
        crate::decode::lemma_token_value_bounds(word_prefix(u, spec_token_len(u)));
    }
    let ghost tok = word_prefix(u, spec_token_len(u));
    if (u & CHAR_MASK1) == DOT1 {
        // D.D
        let ones = ((u & CHAR_MASK0) - 48) * 10;
        let tenths = ((u & CHAR_MASK2) >> 16) - 48;
        proof {
            assert(tok[0] == word_byte(u, 0) && tok[2] == word_byte(u, 2));
            assert(is_digit(word_byte(u, 0)) && is_digit(word_byte(u, 2)));
        }
        ((ones + tenths) as i16, 4)
    } else if (u & CHAR_MASK2) == DOT2 {
        // DD.D or -D.D
        let v0 = u & CHAR_MASK0;
        let neg = v0 == 45;
        proof {
            assert(tok[0] == word_byte(u, 0) && tok[1] == word_byte(u, 1) && tok[3] == word_byte(
                u,
                3,
            ));
            if word_byte(u, 0) == MINUS {
                assert(tok.drop_first() =~= word_prefix(u, 4).subrange(1, 4));
                assert(tok.drop_first()[0] == word_byte(u, 1) && tok.drop_first()[2] == word_byte(
                    u,
                    3,
                ));
                assert(is_digit(word_byte(u, 1)) && is_digit(word_byte(u, 3)));
            } else {
                assert(is_digit(word_byte(u, 0)) && is_digit(word_byte(u, 1)) && is_digit(
                    word_byte(u, 3),
                ));
            }
        }
        let tens = if neg {
            0
        } else {
            (v0 - 48) * 100
        };
        let ones = (((u & CHAR_MASK1) >> 8) - 48) * 10;
        let tenths = ((u & CHAR_MASK3) >> 24) - 48;
        let temp_u = ones + tenths + tens;
        let val = temp_u as i16;
        let val = if neg {
            -val
        } else {
            val
        };
        (val, 5)
    } else {
        // -DD.D
        proof {
            assert(tok[0] == word_byte(u, 0) && tok[1] == word_byte(u, 1) && tok[2] == word_byte(
                u,
                2,
            ) && tok[4] == word_byte(u, 4));
            assert(word_byte(u, 0) == MINUS);
            assert(tok.drop_first() =~= word_prefix(u, 5).subrange(1, 5));
            assert(tok.drop_first()[0] == word_byte(u, 1) && tok.drop_first()[1] == word_byte(
                u,
                2,
            ) && tok.drop_first()[3] == word_byte(u, 4));
            assert(is_digit(word_byte(u, 1)) && is_digit(word_byte(u, 2)) && is_digit(
                word_byte(u, 4),
            ));
        }
        let tens = (((u & CHAR_MASK1) >> 8) - 48) * 100;
        let ones = (((u & CHAR_MASK2) >> 16) - 48) * 10;
        let tenths = ((u & CHAR_MASK4) >> 32) - 48;
        let t = (tens + ones + tenths) as i16;
        (-t, 6)
    }
}

} // verus!
