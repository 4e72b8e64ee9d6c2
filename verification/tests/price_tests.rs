use dexarb::price::{price_from_reserves, price_from_sqrt_price, PRICE_SCALE};

#[test]
fn equal_decimals_price_is_raw_reserve_ratio() {
    // reserves 2 and 4 with matching precision: exactly the ratio 2.0
    assert_eq!(price_from_reserves(2, 4, 6, 6), Some(2 * PRICE_SCALE));
    // same reserves at another matching precision: no adjustment either
    assert_eq!(price_from_reserves(2, 4, 9, 9), Some(2 * PRICE_SCALE));
    // a non-integer ratio keeps twelve decimal places
    assert_eq!(price_from_reserves(3, 4, 6, 6), Some(1_333_333_333_333));
}

#[test]
fn decimal_adjustment_scales_by_precision_difference() {
    // ratio 1, token B carries three more decimals: price 10^3
    assert_eq!(price_from_reserves(1, 1, 6, 9), Some(1000 * PRICE_SCALE));
    // ratio 1, token A carries three more decimals: price 10^-3
    assert_eq!(price_from_reserves(1, 1, 9, 6), Some(PRICE_SCALE / 1000));
}

#[test]
fn zero_reserve_a_yields_no_price() {
    assert_eq!(price_from_reserves(0, 5, 6, 6), None);
}

#[test]
fn sqrt_price_formula() {
    // sqrt price 2^64 encodes a raw price of exactly 1
    assert_eq!(price_from_sqrt_price(1u128 << 64, 6, 6), Some(PRICE_SCALE));
    // sqrt price 2^65 encodes a raw price of exactly 4
    assert_eq!(price_from_sqrt_price(1u128 << 65, 6, 6), Some(4 * PRICE_SCALE));
    // decimal adjustment applies on top of the squared ratio
    assert_eq!(price_from_sqrt_price(1u128 << 64, 6, 8), Some(100 * PRICE_SCALE));
}

#[test]
fn zero_sqrt_price_is_a_zero_price() {
    assert_eq!(price_from_sqrt_price(0, 6, 6), Some(0));
}

#[test]
fn price_beyond_fixed_point_range_yields_none() {
    // reserve ratio u64::MAX with a huge positive decimal adjustment
    assert_eq!(price_from_reserves(1, u64::MAX, 0, 30), None);
    // the largest sqrt price with a large adjustment overflows too
    assert_eq!(price_from_sqrt_price(u128::MAX, 0, 10), None);
}
