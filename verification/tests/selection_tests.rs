use dexarb::decode::{RESERVE_POOL_ACCOUNT_SIZE, WHIRLPOOL_ACCOUNT_SIZE};
use dexarb::dex::{
    quote_from_accounts, select_pool_state, select_reserve_pool, select_whirlpool, MeteoraDex,
    OrcaDex, QuoteError, reference_mints,
};
use dexarb::price::PRICE_SCALE;

fn reserve_account(reserve_a: u64, reserve_b: u64) -> Vec<u8> {
    let mut data = vec![0u8; RESERVE_POOL_ACCOUNT_SIZE];
    data[136..144].copy_from_slice(&reserve_a.to_le_bytes());
    data[144..152].copy_from_slice(&reserve_b.to_le_bytes());
    data
}

fn whirlpool_account(liquidity: u128) -> Vec<u8> {
    let mut data = vec![0u8; WHIRLPOOL_ACCOUNT_SIZE];
    data[1224..1240].copy_from_slice(&liquidity.to_le_bytes());
    data
}

#[test]
fn selects_highest_liquidity_reserve_pool() {
    // total liquidities 10, 50, 30: the pool with 50 must win
    let accounts = vec![
        reserve_account(4, 6),
        reserve_account(20, 30),
        reserve_account(10, 20),
    ];
    assert_eq!(select_reserve_pool(&accounts).unwrap(), Some(1));
}

#[test]
fn selects_highest_liquidity_whirlpool() {
    let accounts = vec![
        whirlpool_account(10),
        whirlpool_account(50),
        whirlpool_account(30),
    ];
    assert_eq!(select_whirlpool(&accounts).unwrap(), Some(1));
}

#[test]
fn first_seen_wins_liquidity_ties() {
    let accounts = vec![
        reserve_account(25, 25),
        reserve_account(20, 30),
        reserve_account(1, 1),
    ];
    assert_eq!(select_reserve_pool(&accounts).unwrap(), Some(0));
}

#[test]
fn no_accounts_is_an_absent_quote() {
    let accounts: Vec<Vec<u8>> = Vec::new();
    assert_eq!(select_reserve_pool(&accounts).unwrap(), None);
    assert_eq!(select_whirlpool(&accounts).unwrap(), None);
}

#[test]
fn undecodable_accounts_fail_with_no_valid_pool() {
    // accounts were returned, but all are too short to decode
    let accounts = vec![vec![0u8; 10], vec![0u8; 100]];
    assert_eq!(
        select_reserve_pool(&accounts).unwrap_err(),
        QuoteError::NoValidPool
    );
    assert_eq!(
        select_whirlpool(&accounts).unwrap_err(),
        QuoteError::NoValidPool
    );
}

#[test]
fn undecodable_candidates_are_skipped_not_selected() {
    let accounts = vec![vec![0u8; 10], reserve_account(1, 1)];
    assert_eq!(select_reserve_pool(&accounts).unwrap(), Some(1));
}

#[test]
fn meteora_filters_describe_the_pair_query() {
    let dex = MeteoraDex::new(None);
    assert_eq!(dex.program_id, "LBUZKhRxPF3XUpBCjp4YzTKgLccjZhTSDM9YuVaPwxo");
    let custom = MeteoraDex::new(Some("CustomProgram111"));
    assert_eq!(custom.program_id, "CustomProgram111");
    let token_a = vec![1u8; 32];
    let token_b = vec![2u8; 32];
    let f = dex.pool_filters(&token_a, &token_b);
    assert_eq!(f.data_size, 396);
    assert_eq!(f.memcmps.len(), 2);
    assert_eq!(f.memcmps[0].offset, 8);
    assert_eq!(f.memcmps[0].bytes, token_a);
    assert_eq!(f.memcmps[1].offset, 40);
    assert_eq!(f.memcmps[1].bytes, token_b);
}

#[test]
fn orca_filters_describe_the_token_query() {
    let dex = OrcaDex::new();
    let token = vec![3u8; 32];
    let f = dex.pool_filters(&token);
    assert_eq!(f.data_size, 1328);
    assert_eq!(f.memcmps.len(), 1);
    assert_eq!(f.memcmps[0].offset, 8);
    assert_eq!(f.memcmps[0].bytes, token);
}

#[test]
fn select_pool_state_decodes_the_best_pool() {
    let accounts = vec![reserve_account(4, 6), reserve_account(20, 30)];
    let pool = select_pool_state(&accounts).unwrap().unwrap();
    assert_eq!(pool.reserve_a, 20);
    assert_eq!(pool.reserve_b, 30);
}

#[test]
fn whirlpool_quote_comes_from_the_best_pool() {
    // the higher-liquidity pool carries sqrt price 2^64 (raw price 1)
    let mut best = whirlpool_account(50);
    best[1240..1256].copy_from_slice(&(1u128 << 64).to_le_bytes());
    best[1264] = 6;
    best[1265] = 6;
    let mut other = whirlpool_account(10);
    other[1240..1256].copy_from_slice(&(1u128 << 65).to_le_bytes());
    other[1264] = 6;
    other[1265] = 6;
    let accounts = vec![other, best];
    assert_eq!(quote_from_accounts(&accounts).unwrap(), Some(PRICE_SCALE));
    let empty: Vec<Vec<u8>> = Vec::new();
    assert_eq!(quote_from_accounts(&empty).unwrap(), None);
    let junk = vec![vec![0u8; 4]];
    assert_eq!(
        quote_from_accounts(&junk).unwrap_err(),
        QuoteError::NoValidPool
    );
}

#[test]
fn reference_assets_come_in_priority_order() {
    let refs = reference_mints();
    assert_eq!(refs.len(), 2);
    assert_eq!(refs[0], "EPjFWdd5AufqSSqeM2qN1xzybapC8G4wEGGkZwyTDt1v");
    assert_eq!(refs[1], "So111111111111111111111111111111111111111123");
}
