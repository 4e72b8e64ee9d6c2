use dexarb::price::PRICE_SCALE;
use dexarb::spread::{spread_meets_threshold, spread_order_ge};

#[test]
fn spread_of_100_and_105_is_exactly_five_percent() {
    let p1 = 100 * PRICE_SCALE;
    let p2 = 105 * PRICE_SCALE;
    // 5 / 100 * 100 = 5.0 percent: meets any threshold up to 5%
    assert!(spread_meets_threshold(p1, p2, 5 * PRICE_SCALE));
    assert!(spread_meets_threshold(p1, p2, PRICE_SCALE));
    // and not a hair more
    assert!(!spread_meets_threshold(p1, p2, 5 * PRICE_SCALE + 1));
}

#[test]
fn spread_is_order_independent() {
    let p1 = 100 * PRICE_SCALE;
    let p2 = 105 * PRICE_SCALE;
    for t in [0, 1, PRICE_SCALE, 5 * PRICE_SCALE, 5 * PRICE_SCALE + 1] {
        assert_eq!(
            spread_meets_threshold(p1, p2, t),
            spread_meets_threshold(p2, p1, t)
        );
    }
    assert!(spread_order_ge(p1, p2, p2, p1));
    assert!(spread_order_ge(p2, p1, p1, p2));
}

#[test]
fn zero_price_leaves_spread_undefined() {
    // a zero base price would divide by zero; such a pair never qualifies
    assert!(!spread_meets_threshold(0, 100 * PRICE_SCALE, 0));
    assert!(!spread_meets_threshold(100 * PRICE_SCALE, 0, 1));
    assert!(!spread_meets_threshold(0, 0, 0));
}

#[test]
fn equal_prices_have_zero_spread() {
    let p = 7 * PRICE_SCALE;
    assert!(spread_meets_threshold(p, p, 0));
    assert!(!spread_meets_threshold(p, p, 1));
}

#[test]
fn spread_ordering_compares_exact_rationals() {
    // 10% spread vs 5% spread
    let a = (100 * PRICE_SCALE, 110 * PRICE_SCALE);
    let b = (100 * PRICE_SCALE, 105 * PRICE_SCALE);
    assert!(spread_order_ge(a.0, a.1, b.0, b.1));
    assert!(!spread_order_ge(b.0, b.1, a.0, a.1));
}
