use dexarb::decode::{
    decode_mint_decimals, decode_reserve_pool, decode_whirlpool, encode_reserves, DecodeError,
    MINT_ACCOUNT_SIZE, RESERVE_POOL_ACCOUNT_SIZE, WHIRLPOOL_ACCOUNT_SIZE,
};

fn reserve_pool_bytes(reserve_a: u64, reserve_b: u64) -> Vec<u8> {
    let mut data = vec![0u8; RESERVE_POOL_ACCOUNT_SIZE];
    for (i, b) in (8..40).enumerate() {
        data[b] = i as u8 + 1;
    }
    for (i, b) in (40..72).enumerate() {
        data[b] = i as u8 + 101;
    }
    data[136..144].copy_from_slice(&reserve_a.to_le_bytes());
    data[144..152].copy_from_slice(&reserve_b.to_le_bytes());
    data
}

#[test]
fn decodes_reserve_pool_fields() {
    let data = reserve_pool_bytes(123_456_789, 987_654_321);
    let pool = decode_reserve_pool(&data).unwrap();
    assert_eq!(pool.reserve_a, 123_456_789);
    assert_eq!(pool.reserve_b, 987_654_321);
    assert_eq!(pool.token_mint_a, data[8..40].to_vec());
    assert_eq!(pool.token_mint_b, data[40..72].to_vec());
    assert_eq!(pool.token_vault_a, data[72..104].to_vec());
    assert_eq!(pool.token_vault_b, data[104..136].to_vec());
}

#[test]
fn short_reserve_pool_buffer_fails_with_too_short() {
    for len in [0usize, 1, 8, 100, RESERVE_POOL_ACCOUNT_SIZE - 1] {
        let data = vec![0u8; len];
        assert_eq!(decode_reserve_pool(&data).unwrap_err(), DecodeError::TooShort);
    }
}

#[test]
fn reserve_roundtrip_reproduces_numeric_region() {
    let data = reserve_pool_bytes(0xDEAD_BEEF_0102_0304, 7);
    let pool = decode_reserve_pool(&data).unwrap();
    let enc = encode_reserves(&pool);
    assert_eq!(enc.as_slice(), &data[136..152]);
}

#[test]
fn zero_reserves_are_valid_data() {
    let data = reserve_pool_bytes(0, 0);
    let pool = decode_reserve_pool(&data).unwrap();
    assert_eq!(pool.reserve_a, 0);
    assert_eq!(pool.reserve_b, 0);
}

fn whirlpool_bytes(liquidity: u128, sqrt_price: u128, da: u8, db: u8) -> Vec<u8> {
    let mut data = vec![0u8; WHIRLPOOL_ACCOUNT_SIZE];
    data[1224..1240].copy_from_slice(&liquidity.to_le_bytes());
    data[1240..1256].copy_from_slice(&sqrt_price.to_le_bytes());
    data[1264] = da;
    data[1265] = db;
    data
}

#[test]
fn decodes_whirlpool_fields() {
    let data = whirlpool_bytes(42, 1 << 64, 6, 9);
    let w = decode_whirlpool(&data).unwrap();
    assert_eq!(w.liquidity, 42);
    assert_eq!(w.sqrt_price, 1 << 64);
    assert_eq!(w.decimals_a, 6);
    assert_eq!(w.decimals_b, 9);
}

#[test]
fn short_whirlpool_buffer_fails_with_too_short() {
    let data = vec![0u8; WHIRLPOOL_ACCOUNT_SIZE - 1];
    assert_eq!(decode_whirlpool(&data).unwrap_err(), DecodeError::TooShort);
}

#[test]
fn mint_decimals_read_at_fixed_offset() {
    let mut data = vec![0u8; MINT_ACCOUNT_SIZE];
    data[44] = 9;
    data[45] = 1;
    assert_eq!(decode_mint_decimals(&data).unwrap(), 9);
}

#[test]
fn mint_with_bad_tag_fails_with_invalid_tag() {
    let mut data = vec![0u8; MINT_ACCOUNT_SIZE];
    data[44] = 6;
    data[0] = 2;
    assert_eq!(decode_mint_decimals(&data).unwrap_err(), DecodeError::InvalidTag);
    let mut data = vec![0u8; MINT_ACCOUNT_SIZE];
    data[45] = 7;
    assert_eq!(decode_mint_decimals(&data).unwrap_err(), DecodeError::InvalidTag);
}

#[test]
fn short_mint_fails_with_too_short() {
    let data = vec![0u8; MINT_ACCOUNT_SIZE - 1];
    assert_eq!(decode_mint_decimals(&data).unwrap_err(), DecodeError::TooShort);
}
