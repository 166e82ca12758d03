//! Rendering tenths values back to their ASCII fixed-point form.

use vstd::prelude::*;
use crate::{MINUS, PERIOD};
use crate::decode::{wf_token, token_value};

verus! {

/// ASCII digit byte of `d`.
pub open spec fn spec_digit(d: int) -> u8 {
    (48 + d) as u8
}

/// Unsigned rendering of `a` tenths: one or two integer digits, a point, and
/// the fractional digit.
pub open spec fn spec_render_abs(a: int) -> Seq<u8> {
    let ip = a / 10;
    let f = a % 10;
    (if ip >= 10 {
        seq![spec_digit(ip / 10), spec_digit(ip % 10)]
    } else {
        seq![spec_digit(ip)]
    }) + seq![PERIOD, spec_digit(f)]
}

/// Rendering of a signed tenths value with exactly one fractional digit.
pub open spec fn spec_render_tenths(v: int) -> Seq<u8> {
    if v < 0 {
        seq![MINUS] + spec_render_abs(-v)
    } else {
        spec_render_abs(v)
    }
}

/// Append the rendering of `v` tenths to `out`.
pub fn render_tenths(v: i32, out: &mut Vec<u8>)
    requires
        -999 <= v <= 999,
    ensures
        final(out)@ == old(out)@ + spec_render_tenths(v as int),
{
    let a: i32 = if v < 0 {
        out.push(MINUS);
        -v
    } else {
        v
    };
    let ip = a / 10;
    let f = (a % 10) as u8;
    if ip >= 10 {
        out.push(48 + (ip / 10) as u8);
        out.push(48 + (ip % 10) as u8);
    } else {
        out.push(48 + ip as u8);
    }
    out.push(PERIOD);
    out.push(48 + f);
    proof {
        assert(out@ =~= old(out)@ + spec_render_tenths(v as int));
    }
}

/// Decoding a rendered tenths value yields the value back: rendering writes a
/// well-formed token and the decoder inverts it, for every representable
/// tenths value.
pub proof fn lemma_render_decode_roundtrip(v: int)
    requires
        -999 <= v <= 999,
    ensures
        wf_token(spec_render_tenths(v)),
        token_value(spec_render_tenths(v)) == v,
{
    if v < 0 {
        let s = spec_render_tenths(v);
        assert(s.drop_first() =~= spec_render_abs(-v));
    }
}

} // verus!
