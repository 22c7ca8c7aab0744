//! Single-precision numbers by their bits.

use vstd::arithmetic::power2::{
    lemma2_to64, lemma_pow2_adds, lemma_pow2_pos, lemma_pow2_strictly_increases, lemma_pow2_unfold,
    pow2,
};
use vstd::prelude::*;

verus! {

/// The significant digits that the bits hold, without the leading one.
pub open spec fn fraction(bits: u32) -> int {
    bits as int % 0x80_0000
}

/// The exponent that the bits hold.
pub open spec fn exponent(bits: u32) -> int {
    bits as int / 0x80_0000 % 256
}

/// The bits are those of a number, one of the infinities among them.
pub open spec fn is_number(bits: u32) -> bool {
    exponent(bits) < 255 || fraction(bits) == 0
}

/// The number without its sign, in units of the smallest number above zero,
/// which is two to the power of -149. Infinity is taken for the number that
/// would come after the largest.
pub open spec fn magnitude(bits: u32) -> int {
    if exponent(bits) == 0 {
        fraction(bits)
    } else {
        (0x80_0000 + fraction(bits)) * pow2((exponent(bits) - 1) as nat)
    }
}

/// The number, in the same units.
pub open spec fn scaled(bits: u32) -> int {
    if bits < 0x8000_0000 {
        magnitude(bits)
    } else {
        -magnitude(bits)
    }
}

/// One, in the same units.
pub open spec fn one() -> int {
    pow2(149) as int
}

/// Of two numbers without a sign the one with the larger bits is larger.
pub proof fn lemma_magnitude_ascends(a: u32, b: u32)
    requires
        a < b < 0x8000_0000,
    ensures
        0 <= magnitude(a) < magnitude(b),
{
    let fa = fraction(a);
    let fb = fraction(b);
    let ea = exponent(a);
    let eb = exponent(b);
    assert(a == 0x80_0000 * ea + fa);
    assert(b == 0x80_0000 * eb + fb);
    assert(ea <= eb);
    if eb > 0 {
        let q = pow2((eb - 1) as nat) as int;
        lemma_pow2_pos((eb - 1) as nat);
        if ea == 0 {
            assert((0x80_0000 + fb) * q >= 0x80_0000) by (nonlinear_arith)
                requires
                    q >= 1,
                    fb >= 0,
            ;
        } else {
            let p = pow2((ea - 1) as nat) as int;
            lemma_pow2_pos((ea - 1) as nat);
            assert(0 <= (0x80_0000 + fa) * p) by (nonlinear_arith)
                requires
                    p >= 1,
                    fa >= 0,
            ;
            if ea == eb {
                assert((0x80_0000 + fa) * p < (0x80_0000 + fb) * p) by (nonlinear_arith)
                    requires
                        p >= 1,
                        fa < fb,
                ;
            } else {
                lemma_pow2_unfold(ea as nat);
                if ea < eb - 1 {
                    lemma_pow2_strictly_increases(ea as nat, (eb - 1) as nat);
                }
                assert(q >= 2 * p);
                assert((0x80_0000 + fa) * p < (0x80_0000 + fb) * q) by (nonlinear_arith)
                    requires
                        p >= 1,
                        q >= 2 * p,
                        0 <= fa < 0x80_0000,
                        fb >= 0,
                ;
            }
        }
    }
}

/// The sign of a number is its first bit; only zero has both.
pub proof fn lemma_signs(bits: u32)
    ensures
        magnitude(bits) >= 0,
        magnitude(bits) == 0 <==> bits == 0 || bits == 0x8000_0000,
        bits >= 0x8000_0000 ==> magnitude(bits) == magnitude((bits - 0x8000_0000) as u32),
{
    if bits >= 0x8000_0000 {
        let rest = (bits - 0x8000_0000) as u32;
        assert(fraction(bits) == fraction(rest));
        assert(exponent(bits) == exponent(rest));
        if rest > 0 {
            lemma_magnitude_ascends(0, rest);
        }
    } else if bits > 0 {
        lemma_magnitude_ascends(0, bits);
    }
    assert(magnitude(0) == 0);
}

/// Twice the number with bits `0x3f00_0000` is one.
pub proof fn lemma_half_bits()
    ensures
        2 * scaled(0x3f00_0000) == one(),
{
    let bits = 0x3f00_0000u32;
    assert(exponent(bits) == 126 && fraction(bits) == 0);
    lemma_pow2_adds(23, 125);
    lemma_pow2_unfold(149);
    lemma_small_powers();
}

proof fn lemma_small_powers()
    ensures
        pow2(23) == 0x80_0000,
        pow2(26) == 0x400_0000,
{
    lemma2_to64();
}

/// The numbers with bits `0x3e4c_cccd` and `0x3f4c_cccd`, and those just below.
pub proof fn lemma_fifth_bits()
    ensures
        5 * scaled(0x3e4c_cccd) == one() + pow2(123),
        5 * scaled(0x3e4c_cccc) == one() - 4 * pow2(123),
        5 * scaled(0x3f4c_cccd) == 4 * one() + pow2(125),
        5 * scaled(0x3f4c_cccc) == 4 * one() - 4 * pow2(125),
        scaled(0x3e4c_cccd) == 13421773 * pow2(123),
        scaled(0x3f4c_cccd) == 13421773 * pow2(125),
{
    lemma_small_powers();
    lemma_pow2_adds(26, 123);
    lemma_pow2_unfold(124);
    lemma_pow2_unfold(125);
    assert(exponent(0x3e4c_cccd) == 124 && fraction(0x3e4c_cccd) == 5033165);
    assert(exponent(0x3e4c_cccc) == 124 && fraction(0x3e4c_cccc) == 5033164);
    assert(exponent(0x3f4c_cccd) == 126 && fraction(0x3f4c_cccd) == 5033165);
    assert(exponent(0x3f4c_cccc) == 126 && fraction(0x3f4c_cccc) == 5033164);
}

}
