//! Account decoders: fixed-offset binary layouts of the supported pool
//! protocols and of the asset-metadata (mint) account.
//!
//! Decoding is a pure transform. A buffer shorter than the protocol's
//! fixed account size is rejected with `TooShort`; numeric content is
//! never a reason to fail. Fields sit at fixed byte offsets after a
//! fixed-size leading discriminator region.

use vstd::prelude::*;
use crate::codec::{le_val, read_u64_le, read_u128_le, encode_u64_le, lemma_le_val_injective};

verus! {

/// Why a raw account buffer could not be decoded.
#[derive(Clone, Copy, Debug, PartialEq, Eq, Structural)]
pub enum DecodeError {
    /// The buffer is shorter than the protocol's fixed account size.
    TooShort,
    /// A tagged optional or boolean field holds an invalid tag byte.
    InvalidTag,
}

/// Fixed size of a reserve-pair pool account.
pub const RESERVE_POOL_ACCOUNT_SIZE: usize = 396;

/// Fixed size of a concentrated-liquidity (whirlpool) account.
pub const WHIRLPOOL_ACCOUNT_SIZE: usize = 1328;

/// Fixed size of an asset-metadata (mint) account.
pub const MINT_ACCOUNT_SIZE: usize = 82;

/// Decoded state of a reserve-pair pool: two asset identifiers, two
/// vault identifiers, and the two reserve magnitudes.
#[derive(Debug)]
pub struct ReservePool {
    pub token_mint_a: Vec<u8>,
    pub token_mint_b: Vec<u8>,
    pub token_vault_a: Vec<u8>,
    pub token_vault_b: Vec<u8>,
    pub reserve_a: u64,
    pub reserve_b: u64,
}

/// Decoded state of a concentrated-liquidity pool: its liquidity, its
/// square-root price, and the two assets' decimal precisions.
#[derive(Debug)]
pub struct WhirlpoolState {
    pub liquidity: u128,
    pub sqrt_price: u128,
    pub decimals_a: u8,
    pub decimals_b: u8,
}

/// Copies `data[off .. off + len]` into a fresh vector.
fn copy_bytes(data: &Vec<u8>, off: usize, len: usize) -> (r: Vec<u8>)
    requires
        off + len <= data@.len(),
    ensures
        r@ == data@.subrange(off as int, off + len),
{
    let n = data.len();
    let mut r: Vec<u8> = Vec::new();
    let mut i: usize = 0;
    while i < len
        invariant
            off + len <= n == data@.len(),
            i <= len,
            r@.len() == i,
            forall|j: int| 0 <= j < i ==> r@[j] == data@[off + j],
        decreases len - i,
    {
        r.push(data[off + i]);
        i += 1;
    }
    proof {
        assert(r@ =~= data@.subrange(off as int, off + len));
    }
    r
}

/// Decodes a reserve-pair pool account. After the 8-byte discriminator
/// come four 32-byte keys and the two reserves as little-endian `u64`s.
/// Fails with `TooShort`, and only then, when the buffer is shorter
/// than the fixed account size.
pub fn decode_reserve_pool(data: &Vec<u8>) -> (r: Result<ReservePool, DecodeError>)
    ensures
        r is Err <==> data@.len() < RESERVE_POOL_ACCOUNT_SIZE,
        r is Err ==> r->Err_0 == DecodeError::TooShort,
        r matches Ok(p) ==> {
            &&& p.token_mint_a@ == data@.subrange(8, 40)
            &&& p.token_mint_b@ == data@.subrange(40, 72)
            &&& p.token_vault_a@ == data@.subrange(72, 104)
            &&& p.token_vault_b@ == data@.subrange(104, 136)
            &&& p.reserve_a == le_val(data@.subrange(136, 144))
            &&& p.reserve_b == le_val(data@.subrange(144, 152))
        },
{
    if data.len() < RESERVE_POOL_ACCOUNT_SIZE {
        return Err(DecodeError::TooShort);
    }
    Ok(
        ReservePool {
            token_mint_a: copy_bytes(data, 8, 32),
            token_mint_b: copy_bytes(data, 40, 32),
            token_vault_a: copy_bytes(data, 72, 32),
            token_vault_b: copy_bytes(data, 104, 32),
            reserve_a: read_u64_le(data, 136),
            reserve_b: read_u64_le(data, 144),
        },
    )
}

/// Decodes a concentrated-liquidity pool account: the 128-bit liquidity
/// and square-root price, and the two trailing decimal-precision bytes,
/// all at fixed offsets. Fails with `TooShort`, and only then, when the
/// buffer is shorter than the fixed account size.
pub fn decode_whirlpool(data: &Vec<u8>) -> (r: Result<WhirlpoolState, DecodeError>)
    ensures
        r is Err <==> data@.len() < WHIRLPOOL_ACCOUNT_SIZE,
        r is Err ==> r->Err_0 == DecodeError::TooShort,
        r matches Ok(w) ==> {
            &&& w.liquidity == le_val(data@.subrange(1224, 1240))
            &&& w.sqrt_price == le_val(data@.subrange(1240, 1256))
            &&& w.decimals_a == data@[1264]
            &&& w.decimals_b == data@[1265]
        },
{
    if data.len() < WHIRLPOOL_ACCOUNT_SIZE {
        return Err(DecodeError::TooShort);
    }
    Ok(
        WhirlpoolState {
            liquidity: read_u128_le(data, 1224),
            sqrt_price: read_u128_le(data, 1240),
            decimals_a: data[1264],
            decimals_b: data[1265],
        },
    )
}

/// A four-byte optional tag is valid when it encodes zero or one.
pub open spec fn tag_valid(s: Seq<u8>, off: int) -> bool {
    s[off] <= 1 && s[off + 1] == 0 && s[off + 2] == 0 && s[off + 3] == 0
}

/// Whether an asset-metadata account passes the structural checks of
/// its fixed layout: both optional-authority tags and the
/// initialization flag encode zero or one.
pub open spec fn mint_well_formed(s: Seq<u8>) -> bool {
    tag_valid(s, 0) && s[45] <= 1 && tag_valid(s, 46)
}

/// Reads the decimal-precision byte of an asset-metadata account. The
/// fixed 82-byte layout holds an optional authority (tag at 0), the
/// supply, the decimals byte at 44, the initialization flag at 45 and a
/// second optional authority (tag at 46). Fails with `TooShort` when
/// the buffer is shorter than the account size and with `InvalidTag`
/// when a tag or flag byte is out of range.
pub fn decode_mint_decimals(data: &Vec<u8>) -> (r: Result<u8, DecodeError>)
    ensures
        data@.len() < MINT_ACCOUNT_SIZE ==> r == Result::<u8, DecodeError>::Err(
            DecodeError::TooShort,
        ),
        data@.len() >= MINT_ACCOUNT_SIZE && !mint_well_formed(data@) ==> r == Result::<
            u8,
            DecodeError,
        >::Err(DecodeError::InvalidTag),
        data@.len() >= MINT_ACCOUNT_SIZE && mint_well_formed(data@) ==> r == Result::<
            u8,
            DecodeError,
        >::Ok(data@[44]),
{
    if data.len() < MINT_ACCOUNT_SIZE {
        return Err(DecodeError::TooShort);
    }
    let tag_a_ok = data[0] <= 1 && data[1] == 0 && data[2] == 0 && data[3] == 0;
    let init_ok = data[45] <= 1;
    let tag_f_ok = data[46] <= 1 && data[47] == 0 && data[48] == 0 && data[49] == 0;
    if !(tag_a_ok && init_ok && tag_f_ok) {
        return Err(DecodeError::InvalidTag);
    }
    Ok(data[44])
}

/// Re-encodes the two reserves of a decoded pool as the sixteen bytes
/// of the account's reserve region.
pub fn encode_reserves(pool: &ReservePool) -> (r: Vec<u8>)
    ensures
        r@.len() == 16,
        le_val(r@.subrange(0, 8)) == pool.reserve_a,
        le_val(r@.subrange(8, 16)) == pool.reserve_b,
{
    let mut r = encode_u64_le(pool.reserve_a);
    let mut tail = encode_u64_le(pool.reserve_b);
    let ghost head = r@;
    let ghost second = tail@;
    r.append(&mut tail);
    proof {
        assert(r@.subrange(0, 8) =~= head);
        assert(r@.subrange(8, 16) =~= second);
    }
    r
}

/// Decoding followed by re-encoding the numeric reserve fields
/// reproduces the reserve region of the original account bytes.
pub proof fn lemma_reserve_roundtrip(data: Seq<u8>, enc: Seq<u8>)
    requires
        data.len() >= RESERVE_POOL_ACCOUNT_SIZE,
        enc.len() == 16,
        le_val(enc.subrange(0, 8)) == le_val(data.subrange(136, 144)),
        le_val(enc.subrange(8, 16)) == le_val(data.subrange(144, 152)),
    ensures
        enc == data.subrange(136, 152),
{
    lemma_le_val_injective(enc.subrange(0, 8), data.subrange(136, 144));
    lemma_le_val_injective(enc.subrange(8, 16), data.subrange(144, 152));
    assert(enc =~= data.subrange(136, 152)) by {
        assert(forall|i: int|
            0 <= i < 8 ==> enc[i] == enc.subrange(0, 8)[i] && data.subrange(136, 152)[i]
                == data.subrange(136, 144)[i]);
        assert(forall|i: int|
            8 <= i < 16 ==> enc[i] == enc.subrange(8, 16)[i - 8] && data.subrange(136, 152)[i]
                == data.subrange(144, 152)[i - 8]);
    }
}

} // verus!
