//! Relative price spread between two protocols' quotes, computed
//! exactly by cross-multiplication.
//!
//! The spread of two scaled prices is `|pa − pb| / min(pa, pb) · 100`
//! percent. It is never materialized as a rounded number: threshold
//! checks and the descending ranking both compare the exact rationals.
//! A zero base price leaves the spread undefined; such a pair never
//! meets a threshold and is dropped by the detector rather than ranked
//! as the largest spread.

use vstd::prelude::*;
use crate::limbs::{limbs_val, limbs_from_u128, mul_limbs_by_u64, add_limbs, shl_limbs, limbs_le};
use crate::price::{pow10, lemma_pow10_adds, lemma_pow10_values};
use vstd::arithmetic::power2::{pow2, lemma2_to64};

verus! {

/// The absolute difference of two scaled prices.
pub open spec fn price_diff(pa: nat, pb: nat) -> nat {
    if pa >= pb {
        (pa - pb) as nat
    } else {
        (pb - pa) as nat
    }
}

/// The smaller of two scaled prices: the base of the relative spread.
pub open spec fn price_base(pa: nat, pb: nat) -> nat {
    if pa <= pb {
        pa
    } else {
        pb
    }
}

/// Whether the relative spread `|pa − pb| / min(pa, pb) · 100`, in
/// percent, is at least the threshold `t`, a percentage carried with
/// twelve decimal places. A zero base never meets a threshold.
pub open spec fn spread_meets(pa: nat, pb: nat, t: nat) -> bool {
    price_base(pa, pb) > 0 && price_diff(pa, pb) * 100 * pow10(12) >= t * price_base(pa, pb)
}

/// Whether the spread of the first price pair is at least that of the
/// second, compared exactly by cross-multiplication.
pub open spec fn spread_ge(pa1: nat, pb1: nat, pa2: nat, pb2: nat) -> bool {
    price_diff(pa1, pb1) * price_base(pa2, pb2) >= price_diff(pa2, pb2) * price_base(pa1, pb1)
}

/// Multiplies two 128-bit values into a limb sequence.
fn widemul_u128(a: u128, b: u128) -> (r: Vec<u64>)
    ensures
        limbs_val(r@) == a * b,
{
    let la = limbs_from_u128(a);
    let lo: u64 = (b % 0x10000000000000000) as u64;
    let hi: u64 = (b / 0x10000000000000000) as u64;
    let p1 = mul_limbs_by_u64(&la, lo);
    let p2 = shl_limbs(&mul_limbs_by_u64(&la, hi), 1);
    let r = add_limbs(&p1, &p2);
    proof {
        vstd::arithmetic::div_mod::lemma_fundamental_div_mod(b as int, 0x10000000000000000);
        lemma2_to64();
        assert(limbs_val(r@) == a * lo + pow2(64) * (a * hi));
        assert(a * lo + 0x10000000000000000 * (a * hi) == a * (lo + 0x10000000000000000 * hi))
            by (nonlinear_arith);
        assert(b as int == 0x10000000000000000 * hi + lo);
    }
    r
}

/// Decides whether the spread of two scaled prices is at least the
/// threshold (a percentage with twelve decimal places).
pub fn spread_meets_threshold(pa: u128, pb: u128, threshold_scaled: u128) -> (r: bool)
    ensures
        r == spread_meets(pa as nat, pb as nat, threshold_scaled as nat),
{
    let base: u128 = if pa <= pb {
        pa
    } else {
        pb
    };
    if base == 0 {
        return false;
    }
    let diff: u128 = if pa >= pb {
        pa - pb
    } else {
        pb - pa
    };
    let lhs = mul_limbs_by_u64(&limbs_from_u128(diff), 100_000_000_000_000);
    let rhs = widemul_u128(threshold_scaled, base);
    proof {
        lemma_pow10_values();
        lemma_pow10_adds(2, 12);
        assert(diff as nat * 100 * pow10(12) == diff as nat * (100 * pow10(12)))
            by (nonlinear_arith);
    }
    limbs_le(&rhs, &lhs)
}

/// Decides whether the spread of the first price pair is at least that
/// of the second.
pub fn spread_order_ge(pa1: u128, pb1: u128, pa2: u128, pb2: u128) -> (r: bool)
    ensures
        r == spread_ge(pa1 as nat, pb1 as nat, pa2 as nat, pb2 as nat),
{
    let diff1: u128 = if pa1 >= pb1 {
        pa1 - pb1
    } else {
        pb1 - pa1
    };
    let base1: u128 = if pa1 <= pb1 {
        pa1
    } else {
        pb1
    };
    let diff2: u128 = if pa2 >= pb2 {
        pa2 - pb2
    } else {
        pb2 - pa2
    };
    let base2: u128 = if pa2 <= pb2 {
        pa2
    } else {
        pb2
    };
    let lhs = widemul_u128(diff1, base2);
    let rhs = widemul_u128(diff2, base1);
    limbs_le(&rhs, &lhs)
}

/// The relative spread is order-independent: swapping the two prices
/// changes neither its numerator, nor its base, nor whether a
/// threshold is met.
pub proof fn lemma_spread_symmetric(pa: nat, pb: nat, t: nat)
    ensures
        price_diff(pa, pb) == price_diff(pb, pa),
        price_base(pa, pb) == price_base(pb, pa),
        spread_meets(pa, pb, t) == spread_meets(pb, pa, t),
{
}

} // verus!
