//! Price normalization: exact fixed-point exchange rates.
//!
//! A price is a `u128` carrying twelve decimal places (`PRICE_SCALE`).
//! The reserve-pair formula is `reserve_b / reserve_a · 10^(db − da)`;
//! the concentrated-liquidity formula is `sqrt_price² / 2^128 ·
//! 10^(db − da)`. Both are computed exactly over limb sequences and
//! rounded down once at the end; a zero divisor or a result too large
//! for `u128` yields `None` rather than a fabricated value.

use vstd::prelude::*;
use vstd::arithmetic::power2::{pow2, lemma_pow2_adds, lemma2_to64};
use vstd::arithmetic::div_mod::{
    lemma_div_denominator, lemma_div_multiples_vanish_quotient, lemma_fundamental_div_mod_converse_div,
};
use crate::limbs::{
    limbs_val, limbs_from_u64, limbs_from_u128, mul_limbs_by_u64, add_limbs, shl_limbs,
    div_limbs_by_u64, limbs_to_u128, lemma_limbs_split, lemma_limbs_bound, lemma_limbs_zero,
};

verus! {

/// Prices carry twelve decimal places.
pub const PRICE_SCALE: u128 = 1_000_000_000_000;

/// Ten to the `e`.
pub open spec fn pow10(e: nat) -> nat
    decreases e,
{
    if e == 0 {
        1
    } else {
        10 * pow10((e - 1) as nat)
    }
}

/// Powers of ten multiply by adding exponents.
pub proof fn lemma_pow10_adds(e1: nat, e2: nat)
    ensures
        pow10(e1 + e2) == pow10(e1) * pow10(e2),
    decreases e1,
{
    if e1 == 0 {
        assert(pow10(0) == 1);
        assert(1 * pow10(e2) == pow10(e2));
    } else {
        lemma_pow10_adds((e1 - 1) as nat, e2);
        assert(pow10((e1 + e2 - 1) as nat) == pow10((e1 - 1) as nat) * pow10(e2));
        assert(10 * (pow10((e1 - 1) as nat) * pow10(e2)) == (10 * pow10((e1 - 1) as nat)) * pow10(
            e2,
        )) by (nonlinear_arith);
        assert(pow10(e1 + e2) == 10 * pow10((e1 + e2 - 1) as nat));
        assert(pow10(e1) == 10 * pow10((e1 - 1) as nat));
    }
}

/// Every power of ten is positive.
pub proof fn lemma_pow10_pos(e: nat)
    ensures
        pow10(e) >= 1,
    decreases e,
{
    if e > 0 {
        lemma_pow10_pos((e - 1) as nat);
    }
}

/// The small powers of ten, as literals.
pub proof fn lemma_pow10_values()
    ensures
        pow10(0) == 1,
        pow10(1) == 10,
        pow10(2) == 100,
        pow10(12) == 1_000_000_000_000,
        pow10(14) == 100_000_000_000_000,
        pow10(19) == 10_000_000_000_000_000_000,
{
    reveal_with_fuel(pow10, 21);
}

/// The scaled reserve-pair price: `rb / ra · 10^(db − da)`, carried with
/// twelve decimal places and rounded down.
pub open spec fn reserve_price_scaled(ra: nat, rb: nat, da: nat, db: nat) -> nat {
    (rb * pow10(12 + db)) / (ra * pow10(da))
}

/// The scaled concentrated-liquidity price: `(s² / 2^128) · 10^(db − da)`,
/// carried with twelve decimal places and rounded down.
pub open spec fn sqrt_price_scaled(s: nat, da: nat, db: nat) -> nat {
    (s * s * pow10(12 + db)) / (pow2(128) * pow10(da))
}

/// Ten to the `k`, as a word.
pub fn pow10_u64(k: u32) -> (r: u64)
    requires
        k <= 19,
    ensures
        r == pow10(k as nat),
{
    let mut r: u64 = 1;
    let mut i: u32 = 0;
    proof {
        lemma_pow10_values();
    }
    while i < k
        invariant
            i <= k <= 19,
            r == pow10(i as nat),
        decreases k - i,
    {
        proof {
            lemma_pow10_adds((i + 1) as nat, (19 - i - 1) as nat);
            lemma_pow10_pos((19 - i - 1) as nat);
            lemma_pow10_values();
            assert(pow10((i + 1) as nat) * 1 <= pow10((i + 1) as nat) * pow10((19 - i - 1) as nat))
                by (nonlinear_arith)
                requires
                    pow10((19 - i - 1) as nat) >= 1,
            ;
            assert(pow10((i + 1) as nat) == 10 * pow10(i as nat));
        }
        r = r * 10;
        i += 1;
    }
    r
}

/// Multiplies a limb sequence by `10^k`.
pub fn mul_limbs_pow10(a: Vec<u64>, k: u32) -> (r: Vec<u64>)
    ensures
        limbs_val(r@) == limbs_val(a@) * pow10(k as nat),
{
    let mut v = a;
    let ghost orig = v@;
    let mut rem: u32 = k;
    let ghost mut done: nat = 0nat;
    proof {
        assert(limbs_val(v@) * 1 == limbs_val(v@)) by (nonlinear_arith);
    }
    while rem > 19
        invariant
            done + rem == k,
            limbs_val(v@) == limbs_val(orig) * pow10(done),
        decreases rem,
    {
        let chunk = pow10_u64(19);
        v = mul_limbs_by_u64(&v, chunk);
        rem = rem - 19;
        proof {
            lemma_pow10_adds(done, 19);
            assert((limbs_val(orig) * pow10(done)) * pow10(19) == limbs_val(orig) * (pow10(done)
                * pow10(19))) by (nonlinear_arith);
            done = done + 19;
        }
    }
    let last = pow10_u64(rem);
    let r = mul_limbs_by_u64(&v, last);
    proof {
        lemma_pow10_adds(done, rem as nat);
        assert((limbs_val(orig) * pow10(done)) * pow10(rem as nat) == limbs_val(orig) * (pow10(
            done,
        ) * pow10(rem as nat))) by (nonlinear_arith);
    }
    r
}

/// Divides a limb sequence by `10^k`, rounding down.
pub fn div_limbs_pow10(a: Vec<u64>, k: u32) -> (r: Vec<u64>)
    ensures
        limbs_val(r@) == limbs_val(a@) / pow10(k as nat),
{
    let mut v = a;
    let ghost orig = v@;
    let mut rem: u32 = k;
    let ghost mut done: nat = 0nat;
    proof {
        lemma_pow10_values();
        assert(limbs_val(v@) / 1 == limbs_val(v@)) by (nonlinear_arith);
    }
    while rem > 19
        invariant
            done + rem == k,
            limbs_val(v@) == limbs_val(orig) / pow10(done),
        decreases rem,
    {
        let chunk = pow10_u64(19);
        proof {
            lemma_pow10_pos(19);
        }
        let (q, _r) = div_limbs_by_u64(&v, chunk);
        proof {
            lemma_fundamental_div_mod_converse_div(
                limbs_val(v@) as int,
                pow10(19) as int,
                limbs_val(q@) as int,
                _r as int,
            );
            lemma_pow10_pos(done);
            lemma_pow10_pos(19);
            lemma_div_denominator(limbs_val(orig) as int, pow10(done) as int, pow10(19) as int);
            lemma_pow10_adds(done, 19);
            done = done + 19;
        }
        v = q;
        rem = rem - 19;
    }
    let chunk = pow10_u64(rem);
    proof {
        lemma_pow10_pos(rem as nat);
    }
    let (q, _r) = div_limbs_by_u64(&v, chunk);
    proof {
        lemma_fundamental_div_mod_converse_div(
            limbs_val(v@) as int,
            pow10(rem as nat) as int,
            limbs_val(q@) as int,
            _r as int,
        );
        lemma_pow10_pos(done);
        lemma_div_denominator(limbs_val(orig) as int, pow10(done) as int, pow10(rem as nat) as int);
        lemma_pow10_adds(done, rem as nat);
    }
    q
}

/// Derives the scaled price from a reserve pair and the two assets'
/// decimal precisions. `None` when `reserve_a` is zero (the rate is
/// undefined) or the scaled price exceeds `u128::MAX`.
pub fn price_from_reserves(reserve_a: u64, reserve_b: u64, decimals_a: u8, decimals_b: u8) -> (r:
    Option<u128>)
    ensures
        reserve_a == 0 ==> r is None,
        reserve_a > 0 ==> ((r is Some <==> reserve_price_scaled(
            reserve_a as nat,
            reserve_b as nat,
            decimals_a as nat,
            decimals_b as nat,
        ) <= u128::MAX) && (r is Some ==> r->Some_0 == reserve_price_scaled(
            reserve_a as nat,
            reserve_b as nat,
            decimals_a as nat,
            decimals_b as nat,
        ))),
{
    if reserve_a == 0 {
        return None;
    }
    let e_num: u32 = 12 + decimals_b as u32;
    let e_den: u32 = decimals_a as u32;
    let k_num: u32 = if e_num >= e_den {
        e_num - e_den
    } else {
        0
    };
    let k_den: u32 = if e_den > e_num {
        e_den - e_num
    } else {
        0
    };
    let v = mul_limbs_pow10(limbs_from_u64(reserve_b), k_num);
    let (q1, _r1) = div_limbs_by_u64(&v, reserve_a);
    let q2 = div_limbs_pow10(q1, k_den);
    proof {
        let ra = reserve_a as int;
        let rb = reserve_b as int;
        let c: nat = if e_num >= e_den {
            e_den as nat
        } else {
            e_num as nat
        };
        lemma_pow10_pos(c);
        lemma_pow10_pos(k_num as nat);
        lemma_pow10_pos(k_den as nat);
        lemma_pow10_adds(k_num as nat, c);
        lemma_pow10_adds(k_den as nat, c);
        lemma_fundamental_div_mod_converse_div(
            limbs_val(v@) as int,
            ra,
            limbs_val(q1@) as int,
            _r1 as int,
        );
        lemma_div_denominator(limbs_val(v@) as int, ra, pow10(k_den as nat) as int);
        assert(ra * pow10(k_den as nat) > 0) by (nonlinear_arith)
            requires
                ra >= 1,
                pow10(k_den as nat) >= 1,
        ;
        // the common factor 10^c cancels from numerator and denominator
        lemma_div_multiples_vanish_quotient(
            pow10(c) as int,
            rb * pow10(k_num as nat),
            ra * pow10(k_den as nat),
        );
        assert(pow10(c) * (rb * pow10(k_num as nat)) == rb * pow10((12 + decimals_b) as nat))
            by (nonlinear_arith)
            requires
                pow10((k_num + c) as nat) == pow10(k_num as nat) * pow10(c),
                pow10((12 + decimals_b) as nat) == pow10((k_num + c) as nat),
        ;
        assert(pow10(c) * (ra * pow10(k_den as nat)) == ra * pow10(decimals_a as nat))
            by (nonlinear_arith)
            requires
                pow10((k_den + c) as nat) == pow10(k_den as nat) * pow10(c),
                pow10(decimals_a as nat) == pow10((k_den + c) as nat),
        ;
    }
    limbs_to_u128(&q2)
}

/// Squares a 128-bit value into a limb sequence.
fn square_u128(s: u128) -> (r: Vec<u64>)
    ensures
        limbs_val(r@) == s * s,
{
    let ls = limbs_from_u128(s);
    let lo: u64 = (s % 0x10000000000000000) as u64;
    let hi: u64 = (s / 0x10000000000000000) as u64;
    let p1 = mul_limbs_by_u64(&ls, lo);
    let p2 = shl_limbs(&mul_limbs_by_u64(&ls, hi), 1);
    let r = add_limbs(&p1, &p2);
    proof {
        vstd::arithmetic::div_mod::lemma_fundamental_div_mod(s as int, 0x10000000000000000);
        lemma2_to64();
        assert(limbs_val(r@) == s * lo + pow2(64) * (s * hi));
        assert(s * lo + 0x10000000000000000 * (s * hi) == s * (lo + 0x10000000000000000 * hi))
            by (nonlinear_arith);
        assert(s as int == 0x10000000000000000 * hi + lo);
    }
    r
}

/// Drops the low 128 bits of a limb sequence: division by `2^128`.
fn shr_limbs_128(a: &Vec<u64>) -> (r: Vec<u64>)
    ensures
        limbs_val(r@) == limbs_val(a@) / pow2(128),
{
    proof {
        lemma_pow2_adds(64, 64);
        lemma2_to64();
    }
    let n = a.len();
    if n <= 2 {
        let r: Vec<u64> = Vec::new();
        proof {
            lemma_limbs_bound(a@);
            if n == 2 {
                assert(64 * a@.len() == 128);
            } else if n == 1 {
                vstd::arithmetic::power2::lemma_pow2_strictly_increases(64, 128);
            } else {
                vstd::arithmetic::power2::lemma_pow2_pos(128);
            }
            assert(limbs_val(a@) / pow2(128) == 0) by {
                vstd::arithmetic::div_mod::lemma_basic_div(
                    limbs_val(a@) as int,
                    pow2(128) as int,
                );
            }
            assert(limbs_val(r@) == 0);
        }
        return r;
    }
    let mut r: Vec<u64> = Vec::new();
    let mut j: usize = 2;
    while j < n
        invariant
            n == a@.len(),
            2 <= j <= n,
            r@.len() == j - 2,
            forall|m: int| 0 <= m < j - 2 ==> r@[m] == a@[m + 2],
        decreases n - j,
    {
        r.push(a[j]);
        j += 1;
    }
    proof {
        assert(r@ =~= a@.skip(2));
        lemma_limbs_split(a@, 2);
        lemma_limbs_bound(a@.take(2));
        assert(a@.take(2).len() == 2 && 64 * a@.take(2).len() == 128);
        vstd::arithmetic::power2::lemma_pow2_pos(128);
        assert(limbs_val(a@) == limbs_val(a@.skip(2)) * pow2(128) + limbs_val(a@.take(2)))
            by (nonlinear_arith)
            requires
                limbs_val(a@) == limbs_val(a@.take(2)) + pow2(128) * limbs_val(a@.skip(2)),
        ;
        lemma_fundamental_div_mod_converse_div(
            limbs_val(a@) as int,
            pow2(128) as int,
            limbs_val(a@.skip(2)) as int,
            limbs_val(a@.take(2)) as int,
        );
    }
    r
}

/// Derives the scaled price from a concentrated-liquidity square-root
/// price and the two assets' decimal precisions. `None` when the scaled
/// price exceeds `u128::MAX`.
pub fn price_from_sqrt_price(sqrt_price: u128, decimals_a: u8, decimals_b: u8) -> (r: Option<
    u128,
>)
    ensures
        r is Some <==> sqrt_price_scaled(
            sqrt_price as nat,
            decimals_a as nat,
            decimals_b as nat,
        ) <= u128::MAX,
        r is Some ==> r->Some_0 == sqrt_price_scaled(
            sqrt_price as nat,
            decimals_a as nat,
            decimals_b as nat,
        ),
{
    let sq = square_u128(sqrt_price);
    let e_num: u32 = 12 + decimals_b as u32;
    let e_den: u32 = decimals_a as u32;
    let k_num: u32 = if e_num >= e_den {
        e_num - e_den
    } else {
        0
    };
    let k_den: u32 = if e_den > e_num {
        e_den - e_num
    } else {
        0
    };
    let v = mul_limbs_pow10(sq, k_num);
    let q1 = shr_limbs_128(&v);
    let q2 = div_limbs_pow10(q1, k_den);
    proof {
        let s2 = (sqrt_price * sqrt_price) as int;
        let c: nat = if e_num >= e_den {
            e_den as nat
        } else {
            e_num as nat
        };
        lemma_pow10_pos(c);
        lemma_pow10_pos(k_num as nat);
        lemma_pow10_pos(k_den as nat);
        lemma_pow10_adds(k_num as nat, c);
        lemma_pow10_adds(k_den as nat, c);
        vstd::arithmetic::power2::lemma_pow2_pos(128);
        lemma_div_denominator(
            limbs_val(v@) as int,
            pow2(128) as int,
            pow10(k_den as nat) as int,
        );
        assert(pow2(128) * pow10(k_den as nat) > 0) by (nonlinear_arith)
            requires
                pow2(128) >= 1,
                pow10(k_den as nat) >= 1,
        ;
        lemma_div_multiples_vanish_quotient(
            pow10(c) as int,
            s2 * pow10(k_num as nat),
            pow2(128) as int * pow10(k_den as nat),
        );
        assert(pow10(c) * (s2 * pow10(k_num as nat)) == s2 * pow10((12 + decimals_b) as nat))
            by (nonlinear_arith)
            requires
                pow10((k_num + c) as nat) == pow10(k_num as nat) * pow10(c),
                pow10((12 + decimals_b) as nat) == pow10((k_num + c) as nat),
        ;
        assert(pow10(c) * (pow2(128) as int * pow10(k_den as nat)) == pow2(128) * pow10(
            decimals_a as nat,
        )) by (nonlinear_arith)
            requires
                pow10((k_den + c) as nat) == pow10(k_den as nat) * pow10(c),
                pow10(decimals_a as nat) == pow10((k_den + c) as nat),
        ;
    }
    limbs_to_u128(&q2)
}

/// With equal decimal precision on both assets, the scaled reserve-pair
/// price is exactly the raw reserve ratio carried to twelve decimal
/// places: no decimal adjustment is applied.
pub proof fn lemma_price_equal_decimals(ra: nat, rb: nat, d: nat)
    requires
        ra > 0,
    ensures
        reserve_price_scaled(ra, rb, d, d) == (rb * pow10(12)) / ra,
{
    lemma_pow10_pos(d);
    lemma_pow10_pos(12);
    lemma_pow10_adds(12, d);
    lemma_div_multiples_vanish_quotient(pow10(d) as int, (rb * pow10(12)) as int, ra as int);
    assert(pow10(d) as int * (rb * pow10(12)) as int == (rb * pow10(12 + d)) as int)
        by (nonlinear_arith)
        requires
            pow10(12 + d) == pow10(12) * pow10(d),
    ;
    assert(pow10(d) as int * ra as int == (ra * pow10(d)) as int) by (nonlinear_arith);
}

} // verus!
