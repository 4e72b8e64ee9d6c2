//! Exact unsigned arithmetic on sequences of 64-bit limbs, least
//! significant limb first.
//!
//! Square-root prices are 128-bit and their squares need 256 bits; spread
//! comparisons cross-multiply 128-bit fixed-point prices. The handful of
//! verified limb operations here (multiply by a word, add, shift, divide
//! by a word, compare) cover everything the price and spread math needs.

use vstd::prelude::*;
use vstd::arithmetic::power2::{pow2, lemma_pow2_adds, lemma2_to64};
use vstd::arithmetic::div_mod::{lemma_fundamental_div_mod, lemma_fundamental_div_mod_converse};

verus! {

/// The numeric value of a limb sequence, least significant limb first.
pub open spec fn limbs_val(s: Seq<u64>) -> nat
    decreases s.len(),
{
    if s.len() == 0 {
        0
    } else {
        s[0] as nat + 0x10000000000000000 * limbs_val(s.drop_first())
    }
}

/// Appending a limb adds its value at the next place.
pub proof fn lemma_limbs_push(s: Seq<u64>, x: u64)
    ensures
        limbs_val(s.push(x)) == limbs_val(s) + x * pow2(64 * s.len()),
    decreases s.len(),
{
    if s.len() == 0 {
        assert(s.push(x).drop_first() =~= Seq::<u64>::empty());
        assert(pow2(0) == 1) by {
            lemma2_to64();
        }
        assert(limbs_val(s.push(x)) == x as nat + 0x10000000000000000 * limbs_val(
            s.push(x).drop_first(),
        ));
        assert(limbs_val(s) == 0);
        assert(x * pow2(0) == x) by (nonlinear_arith)
            requires
                pow2(0) == 1,
        ;
    } else {
        assert(s.push(x).drop_first() =~= s.drop_first().push(x));
        lemma_limbs_push(s.drop_first(), x);
        lemma_pow2_adds(64, 64 * (s.len() - 1) as nat);
        assert(pow2(64) == 0x10000000000000000) by {
            lemma2_to64();
        }
        assert(0x10000000000000000 * (limbs_val(s.drop_first()) + x * pow2(
            64 * (s.len() - 1) as nat,
        )) == 0x10000000000000000 * limbs_val(s.drop_first()) + x * (0x10000000000000000 * pow2(
            64 * (s.len() - 1) as nat,
        ))) by (nonlinear_arith);
    }
}

/// A sequence of `n` limbs denotes a value below `2^(64 n)`.
pub proof fn lemma_limbs_bound(s: Seq<u64>)
    ensures
        limbs_val(s) < pow2(64 * s.len()),
    decreases s.len(),
{
    if s.len() == 0 {
        assert(pow2(0) == 1) by {
            lemma2_to64();
        }
    } else {
        lemma_limbs_bound(s.drop_first());
        lemma_pow2_adds(64, 64 * (s.len() - 1) as nat);
        assert(pow2(64) == 0x10000000000000000) by {
            lemma2_to64();
        }
        assert(0x10000000000000000 * limbs_val(s.drop_first()) <= 0x10000000000000000 * (pow2(
            64 * (s.len() - 1) as nat,
        ) - 1)) by (nonlinear_arith)
            requires
                limbs_val(s.drop_first()) <= pow2(64 * (s.len() - 1) as nat) - 1,
        ;
    }
}

/// A sequence of zero limbs denotes zero.
pub proof fn lemma_limbs_zero(s: Seq<u64>)
    requires
        forall|j: int| 0 <= j < s.len() ==> s[j] == 0,
    ensures
        limbs_val(s) == 0,
    decreases s.len(),
{
    if s.len() > 0 {
        lemma_limbs_zero(s.drop_first());
    }
}

/// If some limb is nonzero, the value is nonzero.
pub proof fn lemma_limbs_nonzero(s: Seq<u64>, j: int)
    requires
        0 <= j < s.len(),
        s[j] != 0,
    ensures
        limbs_val(s) > 0,
    decreases j,
{
    if j == 0 {
    } else {
        lemma_limbs_nonzero(s.drop_first(), j - 1);
    }
}

/// Splitting a limb sequence splits its value at a power-of-two place.
pub proof fn lemma_limbs_split(s: Seq<u64>, k: int)
    requires
        0 <= k <= s.len(),
    ensures
        limbs_val(s) == limbs_val(s.take(k)) + pow2(64 * k as nat) * limbs_val(s.skip(k)),
    decreases k,
{
    if k == 0 {
        assert(s.take(0) =~= Seq::<u64>::empty());
        assert(s.skip(0) =~= s);
        assert(limbs_val(s.take(0)) == 0);
        assert(pow2(0) == 1) by {
            lemma2_to64();
        }
        let t = limbs_val(s);
        assert(pow2(0) * t == t) by (nonlinear_arith)
            requires
                pow2(0) == 1,
        ;
    } else {
        let rest = s.drop_first();
        lemma_limbs_split(rest, k - 1);
        assert(s.take(k).drop_first() =~= rest.take(k - 1));
        assert(s.skip(k) =~= rest.skip(k - 1));
        assert(s.take(k).len() == k && s.take(k)[0] == s[0]);
        lemma_pow2_adds(64, 64 * (k - 1) as nat);
        assert(pow2(64) == 0x10000000000000000) by {
            lemma2_to64();
        }
        assert(0x10000000000000000 * (limbs_val(rest.take(k - 1)) + pow2(64 * (k - 1) as nat)
            * limbs_val(rest.skip(k - 1))) == 0x10000000000000000 * limbs_val(rest.take(k - 1)) + (
        0x10000000000000000 * pow2(64 * (k - 1) as nat)) * limbs_val(rest.skip(k - 1)))
            by (nonlinear_arith);
        assert(limbs_val(s.take(k)) == s[0] as nat + 0x10000000000000000 * limbs_val(
            rest.take(k - 1),
        ));
        assert(limbs_val(s) == s[0] as nat + 0x10000000000000000 * limbs_val(rest));
    }
}

/// The two limbs of a 128-bit value.
pub fn limbs_from_u128(x: u128) -> (r: Vec<u64>)
    ensures
        r@.len() == 2,
        limbs_val(r@) == x,
{
    let lo: u64 = (x % 0x10000000000000000) as u64;
    let hi: u64 = (x / 0x10000000000000000) as u64;
    let mut r: Vec<u64> = Vec::new();
    r.push(lo);
    r.push(hi);
    proof {
        lemma_fundamental_div_mod(x as int, 0x10000000000000000);
        assert(r@.drop_first() =~= seq![hi]);
        assert(r@.drop_first().drop_first() =~= Seq::<u64>::empty());
        assert(limbs_val(r@.drop_first().drop_first()) == 0);
        assert(limbs_val(r@.drop_first()) == hi as nat + 0x10000000000000000 * limbs_val(
            r@.drop_first().drop_first(),
        ));
        assert(limbs_val(r@) == lo as nat + 0x10000000000000000 * limbs_val(r@.drop_first()));
    }
    r
}

/// The single limb of a 64-bit value.
pub fn limbs_from_u64(x: u64) -> (r: Vec<u64>)
    ensures
        r@.len() == 1,
        limbs_val(r@) == x,
{
    let mut r: Vec<u64> = Vec::new();
    r.push(x);
    proof {
        assert(r@.drop_first() =~= Seq::<u64>::empty());
        assert(limbs_val(r@.drop_first()) == 0);
        assert(limbs_val(r@) == x as nat + 0x10000000000000000 * limbs_val(r@.drop_first()));
    }
    r
}

/// Multiplies a limb sequence by a single word.
pub fn mul_limbs_by_u64(a: &Vec<u64>, b: u64) -> (r: Vec<u64>)
    ensures
        limbs_val(r@) == limbs_val(a@) * b,
        r@.len() == a@.len() + 1,
{
    let n = a.len();
    let mut r: Vec<u64> = Vec::new();
    let mut carry: u64 = 0;
    let mut i: usize = 0;
    proof {
        assert(a@.take(0) =~= Seq::<u64>::empty());
        assert(limbs_val(a@.take(0)) == 0);
        assert(limbs_val(r@) == 0);
        lemma2_to64();
        assert(carry * pow2(0) == 0 && 0 * b == 0) by (nonlinear_arith)
            requires
                carry == 0,
        ;
    }
    while i < n
        invariant
            n == a@.len(),
            i <= n,
            r@.len() == i,
            limbs_val(r@) + carry * pow2(64 * i as nat) == limbs_val(a@.take(i as int)) * b,
        decreases n - i,
    {
        proof {
            assert((a@[i as int] as int) * (b as int) <= 0xffffffffffffffff * 0xffffffffffffffff)
                by (nonlinear_arith)
                requires
                    a@[i as int] <= 0xffffffffffffffff,
                    b <= 0xffffffffffffffff,
            ;
        }
        let p: u128 = (a[i] as u128) * (b as u128) + (carry as u128);
        let lo: u64 = (p % 0x10000000000000000) as u64;
        let hi: u64 = (p / 0x10000000000000000) as u64;
        let ghost old_r = r@;
        let ghost old_carry = carry;
        r.push(lo);
        carry = hi;
        proof {
            lemma_fundamental_div_mod(p as int, 0x10000000000000000);
            lemma_limbs_push(old_r, lo);
            lemma_limbs_push(a@.take(i as int), a@[i as int]);
            assert(a@.take(i + 1) =~= a@.take(i as int).push(a@[i as int]));
            lemma_pow2_adds(64 * i as nat, 64);
            lemma2_to64();
            let p2 = pow2(64 * i as nat);
            assert(limbs_val(old_r) + lo * p2 + hi * (p2 * 0x10000000000000000) == limbs_val(
                a@.take(i as int),
            ) * b + (a@[i as int] * b) * p2) by (nonlinear_arith)
                requires
                    limbs_val(old_r) + old_carry * p2 == limbs_val(a@.take(i as int)) * b,
                    a@[i as int] * b + old_carry == hi * 0x10000000000000000 + lo,
            ;
            assert((limbs_val(a@.take(i as int)) + a@[i as int] * p2) * b == limbs_val(
                a@.take(i as int),
            ) * b + (a@[i as int] * b) * p2) by (nonlinear_arith);
        }
        i += 1;
    }
    let ghost pre = r@;
    r.push(carry);
    proof {
        lemma_limbs_push(pre, carry);
        assert(a@.take(n as int) =~= a@);
    }
    r
}

/// Adds two limb sequences.
pub fn add_limbs(a: &Vec<u64>, b: &Vec<u64>) -> (r: Vec<u64>)
    ensures
        limbs_val(r@) == limbs_val(a@) + limbs_val(b@),
{
    let na = a.len();
    let nb = b.len();
    let n = if na > nb {
        na
    } else {
        nb
    };
    let mut r: Vec<u64> = Vec::new();
    let mut carry: u64 = 0;
    let mut i: usize = 0;
    proof {
        assert(a@.take(0) =~= Seq::<u64>::empty());
        assert(b@.take(0) =~= Seq::<u64>::empty());
        assert(limbs_val(a@.take(0)) == 0 && limbs_val(b@.take(0)) == 0);
        assert(limbs_val(r@) == 0);
        lemma2_to64();
        assert(carry * pow2(0) == 0) by (nonlinear_arith)
            requires
                carry == 0,
        ;
    }
    while i < n
        invariant
            na == a@.len(),
            nb == b@.len(),
            n == if na > nb {
                na
            } else {
                nb
            },
            i <= n,
            r@.len() == i,
            carry <= 1,
            limbs_val(r@) + carry * pow2(64 * i as nat) == limbs_val(
                a@.take(if i < na {
                    i as int
                } else {
                    na as int
                }),
            ) + limbs_val(
                b@.take(if i < nb {
                    i as int
                } else {
                    nb as int
                }),
            ),
        decreases n - i,
    {
        let xa: u64 = if i < na {
            a[i]
        } else {
            0
        };
        let xb: u64 = if i < nb {
            b[i]
        } else {
            0
        };
        let p: u128 = (xa as u128) + (xb as u128) + (carry as u128);
        let lo: u64 = (p % 0x10000000000000000) as u64;
        let hi: u64 = (p / 0x10000000000000000) as u64;
        let ghost old_r = r@;
        let ghost old_carry = carry;
        r.push(lo);
        carry = hi;
        proof {
            lemma_fundamental_div_mod(p as int, 0x10000000000000000);
            lemma_limbs_push(old_r, lo);
            lemma_pow2_adds(64 * i as nat, 64);
            lemma2_to64();
            let p2 = pow2(64 * i as nat);
            if i < na {
                lemma_limbs_push(a@.take(i as int), a@[i as int]);
                assert(a@.take(i + 1) =~= a@.take(i as int).push(a@[i as int]));
            } else {
                assert(a@.take(na as int) =~= a@.take(na as int));
            }
            if i < nb {
                lemma_limbs_push(b@.take(i as int), b@[i as int]);
                assert(b@.take(i + 1) =~= b@.take(i as int).push(b@[i as int]));
            }
            assert(limbs_val(old_r) + lo * p2 + hi * (p2 * 0x10000000000000000) == limbs_val(old_r)
                + old_carry * p2 + xa * p2 + xb * p2) by (nonlinear_arith)
                requires
                    xa + xb + old_carry == hi * 0x10000000000000000 + lo,
            ;
        }
        i += 1;
    }
    let ghost pre = r@;
    r.push(carry);
    proof {
        lemma_limbs_push(pre, carry);
        assert(a@.take(na as int) =~= a@);
        assert(b@.take(nb as int) =~= b@);
    }
    r
}

/// Shifts a limb sequence left by `k` whole limbs.
pub fn shl_limbs(a: &Vec<u64>, k: usize) -> (r: Vec<u64>)
    requires
        a@.len() + k <= usize::MAX,
    ensures
        limbs_val(r@) == pow2(64 * k as nat) * limbs_val(a@),
        r@.len() == a@.len() + k,
{
    let mut r: Vec<u64> = Vec::new();
    let mut i: usize = 0;
    while i < k
        invariant
            i <= k,
            r@.len() == i,
            forall|j: int| 0 <= j < i ==> r@[j] == 0,
        decreases k - i,
    {
        r.push(0);
        i += 1;
    }
    let na = a.len();
    let mut j: usize = 0;
    while j < na
        invariant
            na == a@.len(),
            na + k <= usize::MAX,
            j <= na,
            r@.len() == k + j,
            forall|m: int| 0 <= m < k ==> r@[m] == 0,
            forall|m: int| 0 <= m < j ==> r@[k + m] == a@[m],
        decreases na - j,
    {
        r.push(a[j]);
        j += 1;
    }
    proof {
        lemma_limbs_split(r@, k as int);
        lemma_limbs_zero(r@.take(k as int));
        assert(r@.skip(k as int) =~= a@);
    }
    r
}

/// Divides a limb sequence by a word, returning quotient and remainder.
pub fn div_limbs_by_u64(a: &Vec<u64>, d: u64) -> (qr: (Vec<u64>, u64))
    requires
        d >= 1,
    ensures
        limbs_val(a@) == limbs_val(qr.0@) * d + qr.1,
        qr.1 < d,
        qr.0@.len() == a@.len(),
{
    let n = a.len();
    let mut q_rev: Vec<u64> = Vec::new();
    let mut rem: u64 = 0;
    let mut i: usize = n;
    proof {
        assert(a@.skip(n as int) =~= Seq::<u64>::empty());
        assert(q_rev@.reverse() =~= Seq::<u64>::empty());
        assert(limbs_val(a@.skip(n as int)) == 0);
        assert(limbs_val(q_rev@.reverse()) == 0);
        assert(limbs_val(q_rev@.reverse()) * d == 0) by (nonlinear_arith)
            requires
                limbs_val(q_rev@.reverse()) == 0,
        ;
    }
    while i > 0
        invariant
            n == a@.len(),
            i <= n,
            q_rev@.len() == n - i,
            rem < d,
            d >= 1,
            limbs_val(a@.skip(i as int)) == limbs_val(q_rev@.reverse()) * d + rem,
        decreases i,
    {
        i -= 1;
        let cur: u128 = (rem as u128) * 0x10000000000000000 + (a[i] as u128);
        let qd128: u128 = cur / (d as u128);
        let r2: u64 = (cur % (d as u128)) as u64;
        proof {
            lemma_fundamental_div_mod(cur as int, d as int);
            assert(cur < d * 0x10000000000000000) by (nonlinear_arith)
                requires
                    rem < d,
                    cur == rem * 0x10000000000000000 + a@[i as int],
                    a@[i as int] < 0x10000000000000000,
            ;
            assert(qd128 < 0x10000000000000000) by (nonlinear_arith)
                requires
                    cur as int == d * qd128 + (cur as int % (d as int)),
                    cur as int % (d as int) >= 0,
                    cur < d * 0x10000000000000000,
                    d >= 1,
            ;
        }
        let qd: u64 = qd128 as u64;
        let ghost old_rev = q_rev@.reverse();
        let ghost old_rem = rem;
        rem = r2;
        q_rev.push(qd);
        proof {
            assert(q_rev@.reverse() =~= seq![qd] + old_rev);
            assert(q_rev@.reverse().drop_first() =~= old_rev);
            assert(limbs_val(q_rev@.reverse()) == qd + 0x10000000000000000 * limbs_val(old_rev));
            assert(a@.skip(i as int).drop_first() =~= a@.skip(i + 1));
            assert(limbs_val(a@.skip(i as int)) == a@[i as int] + 0x10000000000000000 * limbs_val(
                a@.skip(i + 1),
            ));
            assert(a@[i as int] + 0x10000000000000000 * (limbs_val(old_rev) * d + old_rem) == (qd
                + 0x10000000000000000 * limbs_val(old_rev)) * d + rem) by (nonlinear_arith)
                requires
                    old_rem * 0x10000000000000000 + a@[i as int] == d * qd + rem,
            ;
        }
    }
    let m = q_rev.len();
    let mut q: Vec<u64> = Vec::new();
    let mut j: usize = 0;
    while j < m
        invariant
            m == q_rev@.len(),
            j <= m,
            q@.len() == j,
            forall|t: int| 0 <= t < j ==> q@[t] == q_rev@[m - 1 - t],
        decreases m - j,
    {
        q.push(q_rev[m - 1 - j]);
        j += 1;
    }
    proof {
        assert(q@ =~= q_rev@.reverse());
        assert(a@.skip(0) =~= a@);
    }
    (q, rem)
}

/// Converts a limb sequence back to `u128` when its value fits.
pub fn limbs_to_u128(a: &Vec<u64>) -> (r: Option<u128>)
    ensures
        r is Some <==> limbs_val(a@) <= u128::MAX,
        r is Some ==> r->Some_0 == limbs_val(a@),
{
    let n = a.len();
    let mut i: usize = 2;
    while i < n
        invariant
            n == a@.len(),
            2 <= i,
            forall|j: int| 2 <= j < i ==> a@[j] == 0,
        decreases n - i,
    {
        if a[i] != 0 {
            proof {
                lemma_limbs_split(a@, 2);
                lemma_limbs_nonzero(a@.skip(2), i - 2);
                lemma_pow2_adds(64, 64);
                lemma2_to64();
                assert(pow2(128) * limbs_val(a@.skip(2)) >= pow2(128) * 1) by (nonlinear_arith)
                    requires
                        limbs_val(a@.skip(2)) >= 1,
                        pow2(128) > 0,
                ;
            }
            return None;
        }
        i += 1;
    }
    let lo: u64 = if n >= 1 {
        a[0]
    } else {
        0
    };
    let hi: u64 = if n >= 2 {
        a[1]
    } else {
        0
    };
    let v: u128 = (lo as u128) + (hi as u128) * 0x10000000000000000;
    proof {
        if n >= 2 {
            lemma_limbs_split(a@, 2);
            lemma_limbs_zero(a@.skip(2));
            assert(a@.take(2).drop_first() =~= seq![a@[1]]);
            assert(a@.take(2).drop_first().drop_first() =~= Seq::<u64>::empty());
            assert(limbs_val(a@.take(2).drop_first().drop_first()) == 0);
            assert(limbs_val(a@.take(2).drop_first()) == a@[1] as nat + 0x10000000000000000
                * limbs_val(a@.take(2).drop_first().drop_first()));
            assert(a@.take(2)[0] == a@[0]);
            assert(limbs_val(a@.take(2)) == a@[0] as nat + 0x10000000000000000 * limbs_val(
                a@.take(2).drop_first(),
            ));
            lemma_pow2_adds(64, 64);
            lemma2_to64();
            assert(pow2(128) * limbs_val(a@.skip(2)) == 0) by (nonlinear_arith)
                requires
                    limbs_val(a@.skip(2)) == 0,
            ;
        } else if n == 1 {
            assert(a@.drop_first() =~= Seq::<u64>::empty());
            assert(limbs_val(a@.drop_first()) == 0);
            assert(limbs_val(a@) == a@[0] as nat + 0x10000000000000000 * limbs_val(
                a@.drop_first(),
            ));
        } else {
            assert(limbs_val(a@) == 0);
        }
    }
    Some(v)
}

/// Compares the values of two limb sequences.
pub fn limbs_le(a: &Vec<u64>, b: &Vec<u64>) -> (r: bool)
    ensures
        r <==> limbs_val(a@) <= limbs_val(b@),
{
    let na = a.len();
    let nb = b.len();
    let m = if na > nb {
        na
    } else {
        nb
    };
    let mut i: usize = m;
    while i > 0
        invariant
            na == a@.len(),
            nb == b@.len(),
            m == if na > nb {
                na
            } else {
                nb
            },
            i <= m,
            forall|j: int|
                i <= j < m ==> limb_at(a@, j) == limb_at(b@, j),
        decreases i,
    {
        i -= 1;
        let xa: u64 = if i < na {
            a[i]
        } else {
            0
        };
        let xb: u64 = if i < nb {
            b[i]
        } else {
            0
        };
        if xa != xb {
            proof {
                lemma_limbs_msd_compare(a@, b@, i as int, m as int);
            }
            return xa < xb;
        }
    }
    proof {
        lemma_limbs_pad_eq(a@, b@, m as int);
    }
    true
}

/// The limb at `j`, or zero past the end.
pub open spec fn limb_at(s: Seq<u64>, j: int) -> u64 {
    if 0 <= j < s.len() {
        s[j]
    } else {
        0
    }
}

/// A sequence padded with zero limbs keeps its value.
proof fn lemma_limbs_pad(s: Seq<u64>, m: int)
    requires
        s.len() <= m,
    ensures
        limbs_val(Seq::new(m as nat, |j: int| limb_at(s, j))) == limbs_val(s),
    decreases m - s.len(),
{
    let padded = Seq::new(m as nat, |j: int| limb_at(s, j));
    if s.len() == m {
        assert(padded =~= s);
    } else {
        lemma_limbs_pad(s.push(0), m);
        assert(Seq::new(m as nat, |j: int| limb_at(s.push(0), j)) =~= padded);
        lemma_limbs_push(s, 0);
    }
}

/// Two sequences equal limb by limb (with zero padding) have equal values.
proof fn lemma_limbs_pad_eq(a: Seq<u64>, b: Seq<u64>, m: int)
    requires
        a.len() <= m,
        b.len() <= m,
        forall|j: int| 0 <= j < m ==> limb_at(a, j) == limb_at(b, j),
    ensures
        limbs_val(a) == limbs_val(b),
{
    lemma_limbs_pad(a, m);
    lemma_limbs_pad(b, m);
    assert(Seq::new(m as nat, |j: int| limb_at(a, j)) =~= Seq::new(
        m as nat,
        |j: int| limb_at(b, j),
    ));
}

/// If the most significant differing limb of `a` is smaller, so is its value.
proof fn lemma_limbs_msd_compare(a: Seq<u64>, b: Seq<u64>, i: int, m: int)
    requires
        a.len() <= m,
        b.len() <= m,
        0 <= i < m,
        forall|j: int| i < j < m ==> limb_at(a, j) == limb_at(b, j),
    ensures
        limb_at(a, i) < limb_at(b, i) ==> limbs_val(a) < limbs_val(b),
        limb_at(a, i) > limb_at(b, i) ==> limbs_val(a) > limbs_val(b),
{
    let pa = Seq::new(m as nat, |j: int| limb_at(a, j));
    let pb = Seq::new(m as nat, |j: int| limb_at(b, j));
    lemma_limbs_pad(a, m);
    lemma_limbs_pad(b, m);
    if pa[i] != pb[i] {
        lemma_limbs_split(pa, i);
        lemma_limbs_split(pb, i);
        assert(pa.skip(i).drop_first() =~= pb.skip(i).drop_first()) by {
            assert(forall|t: int|
                0 <= t < m - i - 1 ==> pa.skip(i).drop_first()[t] == pb.skip(i).drop_first()[t]);
        }
        let tail = limbs_val(pa.skip(i).drop_first());
        assert(limbs_val(pa.skip(i)) == pa[i] + 0x10000000000000000 * tail);
        assert(limbs_val(pb.skip(i)) == pb[i] + 0x10000000000000000 * tail);
        lemma_limbs_bound(pa.take(i));
        lemma_limbs_bound(pb.take(i));
        let p2 = pow2(64 * i as nat);
        assert(p2 > 0) by {
            vstd::arithmetic::power2::lemma_pow2_pos(64 * i as nat);
        }
        if pa[i] < pb[i] {
            assert(limbs_val(pa.take(i)) + p2 * limbs_val(pa.skip(i)) < limbs_val(pb.take(i)) + p2
                * limbs_val(pb.skip(i))) by (nonlinear_arith)
                requires
                    limbs_val(pa.take(i)) < p2,
                    limbs_val(pb.take(i)) >= 0,
                    limbs_val(pa.skip(i)) < limbs_val(pb.skip(i)),
                    p2 > 0,
            ;
        } else {
            assert(limbs_val(pb.take(i)) + p2 * limbs_val(pb.skip(i)) < limbs_val(pa.take(i)) + p2
                * limbs_val(pa.skip(i))) by (nonlinear_arith)
                requires
                    limbs_val(pb.take(i)) < p2,
                    limbs_val(pa.take(i)) >= 0,
                    limbs_val(pb.skip(i)) < limbs_val(pa.skip(i)),
                    p2 > 0,
            ;
        }
    }
}

} // verus!
