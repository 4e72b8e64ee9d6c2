use dexarb::decode::MINT_ACCOUNT_SIZE;
use dexarb::dex::{DexKind, DexType, MeteoraDex, OrcaDex, QuoteError, quote_from_pool};
use dexarb::decode::decode_reserve_pool;
use dexarb::price::PRICE_SCALE;
use dexarb::price_fetcher::{PriceFetcher, TokenEntry};

const NOW: i64 = 1_700_000_000;

fn fetcher() -> PriceFetcher {
    let mut f = PriceFetcher::new();
    f.add_dex(DexType::Meteora(MeteoraDex::new(None)));
    f.add_dex(DexType::Orca(OrcaDex::new()));
    f
}

fn token(address: &str) -> TokenEntry {
    TokenEntry {
        address: address.to_string(),
        name: None,
    }
}

#[test]
fn one_token_quoted_by_both_protocols_beyond_threshold() {
    let f = fetcher();
    let tokens = vec![token("T1")];
    // protocol A quotes 2.0, protocol B quotes 2.1
    let outcomes = vec![Some(2 * PRICE_SCALE), Some(2_100_000_000_000)];
    let opps = f.find_arbitrage_opportunities(
        &tokens,
        &outcomes,
        PRICE_SCALE, // threshold 1.0%
        DexKind::Meteora,
        DexKind::Orca,
        NOW,
    );
    assert_eq!(opps.len(), 1);
    let opp = &opps[0];
    assert_eq!(opp.token_address, "T1");
    assert_eq!(opp.token_name, None);
    assert_eq!(opp.price_a, 2 * PRICE_SCALE);
    assert_eq!(opp.price_b, 2_100_000_000_000);
    assert_eq!(opp.timestamp, NOW);
    // spread = 0.1 / 2.0 * 100 = exactly 5 percent
    let (diff, base) = opp.spread_parts();
    assert_eq!(diff, 100_000_000_000);
    assert_eq!(base, 2 * PRICE_SCALE);
    assert_eq!(diff * 100, 5 * base);
}

#[test]
fn threshold_above_spread_excludes_the_token() {
    let f = fetcher();
    let tokens = vec![token("T1")];
    let outcomes = vec![Some(2 * PRICE_SCALE), Some(2_100_000_000_000)];
    let opps = f.find_arbitrage_opportunities(
        &tokens,
        &outcomes,
        10 * PRICE_SCALE, // threshold 10.0%
        DexKind::Meteora,
        DexKind::Orca,
        NOW,
    );
    assert_eq!(opps.len(), 0);
}

#[test]
fn single_protocol_quote_excludes_the_token() {
    let f = fetcher();
    let tokens = vec![token("T1")];
    // only protocol A quotes; protocol B failed
    let outcomes = vec![Some(2 * PRICE_SCALE), None];
    let opps = f.find_arbitrage_opportunities(
        &tokens,
        &outcomes,
        PRICE_SCALE,
        DexKind::Meteora,
        DexKind::Orca,
        NOW,
    );
    assert_eq!(opps.len(), 0);
}

#[test]
fn zero_price_pair_is_undefined_and_dropped() {
    let f = fetcher();
    let tokens = vec![token("T1")];
    let outcomes = vec![Some(0), Some(2 * PRICE_SCALE)];
    let opps = f.find_arbitrage_opportunities(
        &tokens,
        &outcomes,
        0,
        DexKind::Meteora,
        DexKind::Orca,
        NOW,
    );
    assert_eq!(opps.len(), 0);
}

#[test]
fn opportunities_are_ranked_by_descending_spread() {
    let f = fetcher();
    let tokens = vec![token("T1"), token("T2"), token("T3")];
    let outcomes = vec![
        Some(100 * PRICE_SCALE),
        Some(105 * PRICE_SCALE), // 5%
        Some(100 * PRICE_SCALE),
        Some(150 * PRICE_SCALE), // 50%
        Some(100 * PRICE_SCALE),
        Some(120 * PRICE_SCALE), // 20%
    ];
    let opps = f.find_arbitrage_opportunities(
        &tokens,
        &outcomes,
        PRICE_SCALE,
        DexKind::Meteora,
        DexKind::Orca,
        NOW,
    );
    assert_eq!(opps.len(), 3);
    assert_eq!(opps[0].token_address, "T2");
    assert_eq!(opps[1].token_address, "T3");
    assert_eq!(opps[2].token_address, "T1");
}

#[test]
fn same_outcomes_always_yield_the_same_result() {
    // the aggregate is a pure function of the per-pair outcome vector,
    // however the underlying requests were interleaved
    let f = fetcher();
    let tokens = vec![token("T1"), token("T2")];
    let outcomes = vec![
        Some(2 * PRICE_SCALE),
        Some(2_100_000_000_000),
        None,
        Some(PRICE_SCALE),
    ];
    let a = f.find_arbitrage_opportunities(
        &tokens, &outcomes, PRICE_SCALE, DexKind::Meteora, DexKind::Orca, NOW,
    );
    let b = f.find_arbitrage_opportunities(
        &tokens, &outcomes, PRICE_SCALE, DexKind::Meteora, DexKind::Orca, NOW,
    );
    assert_eq!(a.len(), b.len());
    for (x, y) in a.iter().zip(b.iter()) {
        assert_eq!(x.token_address, y.token_address);
        assert_eq!(x.price_a, y.price_a);
        assert_eq!(x.price_b, y.price_b);
    }
}

#[test]
fn failing_pairs_only_affect_their_own_slot() {
    let f = fetcher();
    let tokens = vec![token("T1"), token("T2")];
    let outcomes_all = vec![
        Some(2 * PRICE_SCALE),
        Some(2_100_000_000_000),
        Some(PRICE_SCALE),
        Some(PRICE_SCALE),
    ];
    // T2's second request now fails; T1's opportunity must be unchanged
    let outcomes_partial = vec![
        Some(2 * PRICE_SCALE),
        Some(2_100_000_000_000),
        Some(PRICE_SCALE),
        None,
    ];
    let a = f.find_arbitrage_opportunities(
        &tokens, &outcomes_all, PRICE_SCALE, DexKind::Meteora, DexKind::Orca, NOW,
    );
    let b = f.find_arbitrage_opportunities(
        &tokens, &outcomes_partial, PRICE_SCALE, DexKind::Meteora, DexKind::Orca, NOW,
    );
    assert_eq!(a.len(), 1);
    assert_eq!(b.len(), 1);
    assert_eq!(a[0].token_address, "T1");
    assert_eq!(b[0].token_address, "T1");
    assert_eq!(a[0].price_a, b[0].price_a);
    assert_eq!(a[0].price_b, b[0].price_b);
}

#[test]
fn collect_prices_keeps_one_slot_per_pair() {
    let f = fetcher();
    let tokens = vec![token("T1"), token("T2")];
    let outcomes = vec![Some(7), None, None, Some(9)];
    let prices = f.collect_prices(&tokens, &outcomes, NOW);
    assert_eq!(prices.len(), 2);
    assert_eq!(prices[0].token_address, "T1");
    assert_eq!(prices[0].dex, DexKind::Meteora);
    assert_eq!(prices[0].price_scaled, 7);
    assert_eq!(prices[0].timestamp, NOW);
    assert_eq!(prices[1].token_address, "T2");
    assert_eq!(prices[1].dex, DexKind::Orca);
    assert_eq!(prices[1].price_scaled, 9);
}

#[test]
fn request_count_is_tokens_times_protocols() {
    let f = fetcher();
    assert_eq!(f.request_count(0), Some(0));
    assert_eq!(f.request_count(5), Some(10));
    assert_eq!(f.request_count(usize::MAX), None);
}

#[test]
fn dex_names_follow_the_variant() {
    assert_eq!(DexType::Meteora(MeteoraDex::new(None)).name(), "Meteora");
    assert_eq!(DexType::Orca(OrcaDex::new()).name(), "Orca");
}

#[test]
fn quote_from_pool_uses_mint_decimals() {
    let mut data = vec![0u8; 396];
    data[136..144].copy_from_slice(&2u64.to_le_bytes());
    data[144..152].copy_from_slice(&4u64.to_le_bytes());
    let pool = decode_reserve_pool(&data).unwrap();
    let mut mint_a = vec![0u8; MINT_ACCOUNT_SIZE];
    mint_a[44] = 6;
    let mut mint_b = vec![0u8; MINT_ACCOUNT_SIZE];
    mint_b[44] = 6;
    assert_eq!(
        quote_from_pool(&pool, &mint_a, &mint_b).unwrap(),
        Some(2 * PRICE_SCALE)
    );
    // malformed metadata fails the whole quote, not defaulted to zero
    let bad = vec![0u8; 10];
    assert_eq!(
        quote_from_pool(&pool, &bad, &mint_b).unwrap_err(),
        QuoteError::DecimalsUnavailable
    );
}
