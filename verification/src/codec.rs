//! Little-endian byte encoding: the numeric value of a byte sequence,
//! verified readers at fixed offsets, and a verified writer.
//!
//! Every pool account field that the decoders read is a fixed-width
//! little-endian unsigned integer; `le_val` is the single mathematical
//! meaning they all share.

use vstd::prelude::*;
use vstd::arithmetic::power2::{pow2, lemma_pow2_adds, lemma2_to64};

verus! {

/// The numeric value of a byte sequence read as a little-endian integer.
pub open spec fn le_val(s: Seq<u8>) -> nat
    decreases s.len(),
{
    if s.len() == 0 {
        0
    } else {
        s[0] as nat + 256 * le_val(s.drop_first())
    }
}

/// Appending a byte adds its value at the next power-of-two place.
pub proof fn lemma_le_val_push(s: Seq<u8>, x: u8)
    ensures
        le_val(s.push(x)) == le_val(s) + x * pow2(8 * s.len()),
    decreases s.len(),
{
    if s.len() == 0 {
        assert(s.push(x).drop_first() =~= Seq::<u8>::empty());
        assert(pow2(0) == 1) by {
            lemma2_to64();
        }
        assert(le_val(s.push(x)) == x as nat + 256 * le_val(s.push(x).drop_first()));
        assert(le_val(s) == 0);
        assert(x * pow2(0) == x) by (nonlinear_arith)
            requires
                pow2(0) == 1,
        ;
    } else {
        assert(s.push(x).drop_first() =~= s.drop_first().push(x));
        lemma_le_val_push(s.drop_first(), x);
        lemma_pow2_adds(8, 8 * (s.len() - 1) as nat);
        assert(pow2(8) == 256) by {
            lemma2_to64();
        }
        assert(256 * (le_val(s.drop_first()) + x * pow2(8 * (s.len() - 1) as nat)) == 256
            * le_val(s.drop_first()) + x * (256 * pow2(8 * (s.len() - 1) as nat)))
            by (nonlinear_arith);
    }
}

/// A sequence of `n` bytes denotes a value below `2^(8 n)`.
pub proof fn lemma_le_val_bound(s: Seq<u8>)
    ensures
        le_val(s) < pow2(8 * s.len()),
    decreases s.len(),
{
    if s.len() == 0 {
        assert(pow2(0) == 1) by {
            lemma2_to64();
        }
    } else {
        lemma_le_val_bound(s.drop_first());
        lemma_pow2_adds(8, 8 * (s.len() - 1) as nat);
        assert(pow2(8) == 256) by {
            lemma2_to64();
        }
        assert(256 * le_val(s.drop_first()) <= 256 * (pow2(8 * (s.len() - 1) as nat) - 1))
            by (nonlinear_arith)
            requires
                le_val(s.drop_first()) <= pow2(8 * (s.len() - 1) as nat) - 1,
        ;
    }
}

/// Two byte sequences of equal length with the same value are equal.
pub proof fn lemma_le_val_injective(a: Seq<u8>, b: Seq<u8>)
    requires
        a.len() == b.len(),
        le_val(a) == le_val(b),
    ensures
        a == b,
    decreases a.len(),
{
    if a.len() > 0 {
        let v = le_val(a);
        assert(a[0] as nat == v % 256 && le_val(a.drop_first()) == v / 256) by {
            vstd::arithmetic::div_mod::lemma_fundamental_div_mod_converse(
                v as int,
                256,
                le_val(a.drop_first()) as int,
                a[0] as int,
            );
        }
        assert(b[0] as nat == v % 256 && le_val(b.drop_first()) == v / 256) by {
            vstd::arithmetic::div_mod::lemma_fundamental_div_mod_converse(
                v as int,
                256,
                le_val(b.drop_first()) as int,
                b[0] as int,
            );
        }
        lemma_le_val_injective(a.drop_first(), b.drop_first());
        assert(a =~= b) by {
            assert(forall|i: int|
                1 <= i < a.len() ==> a[i] == a.drop_first()[i - 1] && b[i] == b.drop_first()[i
                    - 1]);
        }
    } else {
        assert(a =~= b);
    }
}

/// Reads the little-endian `u64` stored at `data[off .. off + 8]`.
pub fn read_u64_le(data: &Vec<u8>, off: usize) -> (r: u64)
    requires
        off + 8 <= data@.len(),
    ensures
        r == le_val(data@.subrange(off as int, off + 8)),
{
    let n = data.len();
    let mut acc: u64 = 0;
    let mut i: usize = 0;
    while i < 8
        invariant
            off + 8 <= n == data@.len(),
            i <= 8,
            acc == le_val(data@.subrange(off + 8 - i, off + 8)),
        decreases 8 - i,
    {
        let tail = Ghost(data@.subrange(off + 8 - i, off + 8));
        let full = Ghost(data@.subrange(off + 8 - (i + 1), off + 8));
        proof {
            lemma_le_val_bound(tail@);
            lemma2_to64();
            if 8 * i < 56 {
                vstd::arithmetic::power2::lemma_pow2_strictly_increases(8 * i as nat, 56);
            }
            assert(pow2(56) * 256 == pow2(64)) by {
                lemma_pow2_adds(56, 8);
            }
            assert(full@.drop_first() =~= tail@);
        }
        let b = data[off + (7 - i)];
        acc = acc * 256 + (b as u64);
        i += 1;
    }
    proof {
        assert(data@.subrange(off as int, off + 8) =~= data@.subrange(off + 8 - 8, off + 8));
    }
    acc
}

/// Reads the little-endian `u128` stored at `data[off .. off + 16]`.
pub fn read_u128_le(data: &Vec<u8>, off: usize) -> (r: u128)
    requires
        off + 16 <= data@.len(),
    ensures
        r == le_val(data@.subrange(off as int, off + 16)),
{
    let n = data.len();
    let mut acc: u128 = 0;
    let mut i: usize = 0;
    while i < 16
        invariant
            off + 16 <= n == data@.len(),
            i <= 16,
            acc == le_val(data@.subrange(off + 16 - i, off + 16)),
        decreases 16 - i,
    {
        let tail = Ghost(data@.subrange(off + 16 - i, off + 16));
        let full = Ghost(data@.subrange(off + 16 - (i + 1), off + 16));
        proof {
            lemma_le_val_bound(tail@);
            lemma2_to64();
            if 8 * i < 120 {
                vstd::arithmetic::power2::lemma_pow2_strictly_increases(8 * i as nat, 120);
            }
            assert(pow2(120) * 256 == pow2(128)) by {
                lemma_pow2_adds(120, 8);
            }
            assert(pow2(128) == pow2(64) * pow2(64)) by {
                lemma_pow2_adds(64, 64);
            }
            assert(full@.drop_first() =~= tail@);
        }
        let b = data[off + (15 - i)];
        acc = acc * 256 + (b as u128);
        i += 1;
    }
    proof {
        assert(data@.subrange(off as int, off + 16) =~= data@.subrange(off + 16 - 16, off + 16));
    }
    acc
}

/// Writes `v` as its eight little-endian bytes.
pub fn encode_u64_le(v: u64) -> (r: Vec<u8>)
    ensures
        r@.len() == 8,
        le_val(r@) == v,
{
    let mut r: Vec<u8> = Vec::new();
    let mut x: u64 = v;
    let mut i: usize = 0;
    proof {
        lemma2_to64();
        assert(le_val(r@) == 0);
        assert(x * pow2(0) == x) by (nonlinear_arith)
            requires
                pow2(0) == 1,
        ;
    }
    while i < 8
        invariant
            i <= 8,
            r@.len() == i,
            le_val(r@) + x * pow2(8 * i as nat) == v,
        decreases 8 - i,
    {
        let b: u8 = (x % 256) as u8;
        let ghost old_r = r@;
        let ghost old_x = x;
        r.push(b);
        x = x / 256;
        proof {
            lemma_le_val_push(old_r, b);
            lemma_pow2_adds(8 * i as nat, 8);
            lemma2_to64();
            assert(old_x == 256 * (old_x / 256) + old_x % 256) by {
                vstd::arithmetic::div_mod::lemma_fundamental_div_mod(old_x as int, 256);
            }
            assert((old_x % 256) * pow2(8 * i as nat) + (old_x / 256) * (pow2(8 * i as nat) * 256)
                == old_x * pow2(8 * i as nat)) by (nonlinear_arith)
                requires
                    old_x == 256 * (old_x / 256) + old_x % 256,
            ;
        }
        i += 1;
    }
    proof {
        if x > 0 {
            lemma2_to64();
            assert(x * pow2(64) >= 1 * pow2(64)) by {
                vstd::arithmetic::mul::lemma_mul_inequality(1, x as int, pow2(64) as int);
            }
        }
        assert(x * pow2(64) == 0 ==> le_val(r@) == v);
        assert(x == 0 ==> x * pow2(64) == 0);
    }
    r
}

} // verus!
