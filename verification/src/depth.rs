//! Depths as integer keys, and the test that decides which fragment is drawn.

use vstd::arithmetic::power2::{
    lemma_pow2_pos, lemma_pow2_strictly_increases, lemma_pow2_unfold, pow2,
};
use vstd::prelude::*;

verus! {

/// Depth stored in every cell of a cleared depth buffer: the key of the most
/// negative finite depth. Nothing at or below it is ever drawn.
pub const DEPTH_FLOOR: i32 = -2139095039;

/// The integer by which a depth is compared, from the bit pattern of the
/// depth as an IEEE 754 single-precision number: the magnitude bits, negated
/// when the sign bit is set, so that a larger depth has a larger key and both
/// zeros share the key `0`. `None` for a pattern that is not a number.
pub open spec fn depth_key_of(bits: u32) -> Option<i32> {
    let magnitude = bits & 0x7fff_ffffu32;
    if magnitude > 0x7f80_0000u32 {
        None
    } else if bits & 0x8000_0000u32 != 0 {
        Some((-(magnitude as int)) as i32)
    } else {
        Some(magnitude as i32)
    }
}

/// Computes the key by which a depth is compared.
pub fn depth_key(bits: u32) -> (key: Option<i32>)
    ensures
        key == depth_key_of(bits),
        key matches Some(k) ==> -0x7f80_0000 <= k <= 0x7f80_0000,
{
    let magnitude: u32 = bits & 0x7fff_ffffu32;
    if magnitude > 0x7f80_0000u32 {
        None
    } else if bits & 0x8000_0000u32 != 0 {
        Some(-(magnitude as i32))
    } else {
        Some(magnitude as i32)
    }
}

/// Whether a fragment of depth `depth` is drawn over a cell that holds
/// `stored`: only when it is strictly greater.
pub open spec fn depth_passes(stored: i32, depth: i32) -> bool {
    stored < depth
}

/// The depth a cell holds after a fragment of depth `depth` was tested
/// against it.
pub open spec fn depth_after(stored: i32, depth: i32) -> i32 {
    if depth_passes(stored, depth) {
        depth
    } else {
        stored
    }
}

/// On a cleared cell every fragment above the floor is drawn, and after it
/// only a strictly greater one; a drawn fragment leaves its own depth behind.
pub proof fn lemma_depth_test_monotone(first: i32, second: i32)
    requires
        first > DEPTH_FLOOR,
    ensures
        depth_passes(DEPTH_FLOOR, first),
        depth_after(DEPTH_FLOOR, first) == first,
        depth_passes(depth_after(DEPTH_FLOOR, first), second) <==> second > first,
        depth_after(depth_after(DEPTH_FLOOR, first), second) >= first,
{
}

/// Bits 23 to 30 of a pattern: the exponent field.
pub open spec fn exponent_of(bits: u32) -> int {
    ((bits >> 23) & 0xffu32) as int
}

/// The low 23 bits of a pattern: the fraction field.
pub open spec fn fraction_of(bits: u32) -> int {
    (bits & 0x7f_ffffu32) as int
}

/// How large the number behind a pattern is, counted in steps of the
/// smallest positive number (two to the power -149). Infinity counts as two
/// to the power 128.
pub open spec fn scaled_magnitude(bits: u32) -> int {
    if exponent_of(bits) == 0 {
        fraction_of(bits)
    } else {
        (0x80_0000 + fraction_of(bits)) * pow2((exponent_of(bits) - 1) as nat)
    }
}

/// The number behind a pattern, counted in steps of the smallest positive
/// number.
pub open spec fn scaled_depth(bits: u32) -> int {
    if bits & 0x8000_0000u32 != 0 {
        -scaled_magnitude(bits)
    } else {
        scaled_magnitude(bits)
    }
}

/// The magnitude grows with the exponent first and with the fraction second.
pub proof fn lemma_scaled_magnitude_grows(e1: int, f1: int, e2: int, f2: int)
    requires
        0 <= e1 <= e2,
        0 <= f1 < 0x80_0000,
        0 <= f2 < 0x80_0000,
        e1 < e2 || f1 < f2,
    ensures
        (if e1 == 0 {
            f1
        } else {
            (0x80_0000 + f1) * pow2((e1 - 1) as nat)
        }) < (if e2 == 0 {
            f2
        } else {
            (0x80_0000 + f2) * pow2((e2 - 1) as nat)
        }),
{
    if e2 > 0 {
        let unit_high = pow2((e2 - 1) as nat);
        lemma_pow2_pos((e2 - 1) as nat);
        if e1 == 0 {
            assert(0x80_0000 <= (0x80_0000 + f2) * unit_high) by (nonlinear_arith)
                requires
                    0 <= f2,
                    1 <= unit_high,
            ;
        } else {
            let unit_low = pow2((e1 - 1) as nat);
            lemma_pow2_pos((e1 - 1) as nat);
            if e1 == e2 {
                assert((0x80_0000 + f1) * unit_low < (0x80_0000 + f2) * unit_low) by (nonlinear_arith)
                    requires
                        f1 < f2,
                        1 <= unit_low,
                ;
            } else {
                lemma_pow2_unfold(e1 as nat);
                if e1 < e2 - 1 {
                    lemma_pow2_strictly_increases(e1 as nat, (e2 - 1) as nat);
                }
                let doubled = pow2(e1 as nat);
                assert(doubled == 2 * unit_low);
                assert(doubled <= unit_high);
                assert((0x80_0000 + f1) * unit_low < 0x80_0000 * doubled) by (nonlinear_arith)
                    requires
                        f1 < 0x80_0000,
                        doubled == 2 * unit_low,
                        1 <= unit_low,
                ;
                assert(0x80_0000 * doubled <= (0x80_0000 + f2) * unit_high) by (nonlinear_arith)
                    requires
                        0 <= f2,
                        1 <= doubled <= unit_high,
                ;
            }
        }
    }
}

/// Keys order patterns as the numbers behind them: of two patterns that are
/// numbers, the one behind the larger number has the larger key, and two
/// patterns share a key exactly when the numbers are equal.
pub proof fn lemma_depth_key_orders(a: u32, b: u32)
    requires
        depth_key_of(a) is Some,
        depth_key_of(b) is Some,
    ensures
        depth_key_of(a)->0 < depth_key_of(b)->0 <==> scaled_depth(a) < scaled_depth(b),
        depth_key_of(a)->0 == depth_key_of(b)->0 <==> scaled_depth(a) == scaled_depth(b),
{
    lemma_magnitude_orders(a, b);
    lemma_magnitude_orders(b, a);
    lemma_magnitude_orders(a, 0);
    lemma_magnitude_orders(0, a);
    lemma_magnitude_orders(b, 0);
    lemma_magnitude_orders(0, b);
    assert(0u32 & 0x7fff_ffffu32 == 0 && (0u32 >> 23) & 0xffu32 == 0 && 0u32 & 0x7f_ffffu32 == 0)
        by (bit_vector);
}

/// The magnitude bits of two patterns compare as the magnitudes of the
/// numbers behind them.
pub proof fn lemma_magnitude_orders(a: u32, b: u32)
    ensures
        (a & 0x7fff_ffffu32) < (b & 0x7fff_ffffu32) <==> scaled_magnitude(a) < scaled_magnitude(b),
        (a & 0x7fff_ffffu32) <= 0x7fff_ffffu32,
{
    let (ea, fa) = (exponent_of(a), fraction_of(a));
    let (eb, fb) = (exponent_of(b), fraction_of(b));
    lemma_fields(a);
    lemma_fields(b);
    if ea < eb || (ea == eb && fa < fb) {
        lemma_scaled_magnitude_grows(ea, fa, eb, fb);
    } else if eb < ea || (ea == eb && fb < fa) {
        lemma_scaled_magnitude_grows(eb, fb, ea, fa);
    }
}

/// The magnitude bits of a pattern are its exponent field followed by its
/// fraction field.
pub proof fn lemma_fields(bits: u32)
    ensures
        (bits & 0x7fff_ffffu32) == exponent_of(bits) * 0x80_0000 + fraction_of(bits),
        0 <= exponent_of(bits) <= 255,
        0 <= fraction_of(bits) < 0x80_0000,
{
    assert((bits & 0x7fff_ffffu32) == ((bits >> 23) & 0xffu32) * 0x80_0000u32 + (bits
        & 0x7f_ffffu32)) by (bit_vector);
    assert(((bits >> 23) & 0xffu32) <= 255) by (bit_vector);
    assert((bits & 0x7f_ffffu32) < 0x80_0000u32) by (bit_vector);
}

} // verus!
