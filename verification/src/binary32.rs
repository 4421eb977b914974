//! Exact IEEE-754 binary32 encoding of heights given in 1/256 metre.
//!
//! Every integer `raw` with |raw| ≤ 2^23 has an exact single-precision
//! value `raw / 256`; this module computes its bit pattern with integer
//! arithmetic, so that elevation grids can be stored and compared as the
//! same 32-bit words a floating-point decoder would produce.

use vstd::prelude::*;
use vstd::arithmetic::power2::*;
use vstd::arithmetic::div_mod::lemma_fundamental_div_mod_converse;

verus! {

/// Largest magnitude accepted by `encode_256ths`: 2^23.
pub const MAX_MAGNITUDE: i32 = 0x80_0000;

/// The sign bit of a binary32 pattern.
pub open spec fn sign_field(bits: u32) -> int {
    bits as int / 0x8000_0000
}

/// The biased exponent of a binary32 pattern.
pub open spec fn exponent_field(bits: u32) -> int {
    (bits as int / 0x80_0000) % 256
}

/// The fraction (mantissa without the hidden bit) of a binary32 pattern.
pub open spec fn fraction_field(bits: u32) -> int {
    bits as int % 0x80_0000
}

/// The absolute value of `x`.
pub open spec fn abs(x: int) -> int {
    if x < 0 {
        -x
    } else {
        x
    }
}

/// `bits` is the binary32 encoding of the number `raw / 256`: zero is +0.0,
/// any other value is the normal number ±(2^23 + fraction)·2^(exponent − 150).
pub open spec fn encodes_256ths(bits: u32, raw: int) -> bool {
    if raw == 0 {
        bits == 0
    } else {
        let e = exponent_field(bits);
        &&& (sign_field(bits) == 1) == (raw < 0)
        &&& 1 <= e <= 142
        &&& abs(raw) * pow2((142 - e) as nat) == 0x80_0000 + fraction_field(bits)
    }
}

proof fn lemma_fields(s: int, e: int, f: int, bits: u32)
    requires
        s == 0 || s == 1,
        0 <= e < 256,
        e <= 142,
        0 <= f < 0x80_0000,
        bits as int == s * 0x8000_0000 + e * 0x80_0000 + f,
    ensures
        sign_field(bits) == s,
        exponent_field(bits) == e,
        fraction_field(bits) == f,
{
    lemma_fundamental_div_mod_converse(bits as int, 0x80_0000, s * 256 + e, f);
    lemma_fundamental_div_mod_converse(s * 256 + e, 256, s, e);
    lemma_fundamental_div_mod_converse(bits as int, 0x8000_0000, s, e * 0x80_0000 + f);
}

/// The binary32 bit pattern of `raw / 256`.
pub fn encode_256ths(raw: i32) -> (bits: u32)
    requires
        -MAX_MAGNITUDE <= raw <= MAX_MAGNITUDE,
    ensures
        encodes_256ths(bits, raw as int),
{
    if raw == 0 {
        return 0;
    }
    let neg = raw < 0;
    let mut mag: u32 = if neg {
        (0 - raw) as u32
    } else {
        raw as u32
    };
    let mut e: u32 = 142;
    proof {
        lemma2_to64();
    }
    assert(pow2(0) == 1);
    assert(mag as int == abs(raw as int));
    assert(pow2((142 - e) as nat) == 1);
    assert(mag as int == abs(raw as int) * pow2((142 - e) as nat)) by (nonlinear_arith)
        requires
            pow2((142 - e) as nat) == 1,
            mag as int == abs(raw as int),
    ;
    while mag < 0x80_0000
        invariant
            119 <= e <= 142,
            mag as int == abs(raw as int) * pow2((142 - e) as nat),
            pow2((142 - e) as nat) <= mag,
            mag < 0x100_0000,
        decreases e,
    {
        proof {
            lemma2_to64();
            if e <= 119 {
                lemma_pow2_strictly_increases(23, (142 - e) as nat);
            }
            lemma_pow2_unfold((142 - e + 1) as nat);
        }
        mag = mag * 2;
        e = e - 1;
        assert(pow2((142 - e) as nat) == 2 * pow2((142 - (e + 1)) as nat));
        assert(mag as int == abs(raw as int) * pow2((142 - e) as nat)) by (nonlinear_arith)
            requires
                mag as int == 2 * (abs(raw as int) * pow2((142 - (e + 1)) as nat)),
                pow2((142 - e) as nat) == 2 * pow2((142 - (e + 1)) as nat),
        ;
    }
    let sign: u32 = if neg {
        0x8000_0000
    } else {
        0
    };
    let frac = mag - 0x80_0000;
    let bits = sign + e * 0x80_0000 + frac;
    proof {
        lemma_fields(if neg {
            1
        } else {
            0
        }, e as int, frac as int, bits);
    }
    bits
}

/// Two bit patterns that encode the same value are equal: the encoding
/// pins the result down.
pub proof fn law_encoding_unique(b1: u32, b2: u32, raw: int)
    requires
        encodes_256ths(b1, raw),
        encodes_256ths(b2, raw),
    ensures
        b1 == b2,
{
    if raw != 0 {
        let e1 = exponent_field(b1);
        let e2 = exponent_field(b2);
        let a = abs(raw);
        lemma2_to64();
        if e1 < e2 {
            lemma_pow2_adds((142 - e2) as nat, (e2 - e1) as nat);
            lemma_pow2_strictly_increases(0, (e2 - e1) as nat);
            assert(a * pow2((142 - e1) as nat) == (a * pow2((142 - e2) as nat)) * pow2(
                (e2 - e1) as nat,
            )) by (nonlinear_arith)
                requires
                    pow2((142 - e1) as nat) == pow2((142 - e2) as nat) * pow2((e2 - e1) as nat),
            ;
            assert((a * pow2((142 - e2) as nat)) * pow2((e2 - e1) as nat) >= 2 * (a * pow2(
                (142 - e2) as nat,
            ))) by (nonlinear_arith)
                requires
                    pow2((e2 - e1) as nat) >= 2,
                    a * pow2((142 - e2) as nat) >= 0,
            ;
            assert(false);
        } else if e2 < e1 {
            lemma_pow2_adds((142 - e1) as nat, (e1 - e2) as nat);
            lemma_pow2_strictly_increases(0, (e1 - e2) as nat);
            assert(a * pow2((142 - e2) as nat) == (a * pow2((142 - e1) as nat)) * pow2(
                (e1 - e2) as nat,
            )) by (nonlinear_arith)
                requires
                    pow2((142 - e2) as nat) == pow2((142 - e1) as nat) * pow2((e1 - e2) as nat),
            ;
            assert((a * pow2((142 - e1) as nat)) * pow2((e1 - e2) as nat) >= 2 * (a * pow2(
                (142 - e1) as nat,
            ))) by (nonlinear_arith)
                requires
                    pow2((e1 - e2) as nat) >= 2,
                    a * pow2((142 - e1) as nat) >= 0,
            ;
            assert(false);
        }
        let s = sign_field(b1);
        let f = fraction_field(b1);
        assert(b1 as int == s * 0x8000_0000 + e1 * 0x80_0000 + f) by {
            lemma_fundamental_div_mod_converse(b1 as int, 0x80_0000, b1 as int / 0x80_0000, f);
            lemma_fundamental_div_mod_converse(b1 as int / 0x80_0000, 256, b1 as int / 0x80_0000 / 256, e1);
            vstd::arithmetic::div_mod::lemma_div_denominator(b1 as int, 0x80_0000, 256);
        }
        assert(b2 as int == s * 0x8000_0000 + e1 * 0x80_0000 + f) by {
            lemma_fundamental_div_mod_converse(b2 as int, 0x80_0000, b2 as int / 0x80_0000, fraction_field(b2));
            lemma_fundamental_div_mod_converse(b2 as int / 0x80_0000, 256, b2 as int / 0x80_0000 / 256, e2);
            vstd::arithmetic::div_mod::lemma_div_denominator(b2 as int, 0x80_0000, 256);
        }
    }
}

} // verus!
