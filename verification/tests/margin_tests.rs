use perp_engine::decimal::Dec;
use perp_engine::margin::MarginCalculator;
use perp_engine::models::{MarginType, Side};

#[test]
fn liquidation_price_isolated_long() {
    // entry 100, leverage 10, isolated: 100 * (1 - 0.1 + 0.005 + 0.001) = 90.6
    let entry = Dec::from_int(100);
    let lev = Dec::from_int(10);
    let liq = MarginCalculator::calculate_liquidation_price(entry, Side::Buy, lev, MarginType::Isolated);
    assert_eq!(liq.m, 90_600_000);
    assert!(MarginCalculator::is_position_liquidated(
        Dec::new(90_500_000),
        entry,
        Side::Buy,
        lev,
        MarginType::Isolated
    ));
    assert!(!MarginCalculator::is_position_liquidated(
        Dec::new(90_700_000),
        entry,
        Side::Buy,
        lev,
        MarginType::Isolated
    ));
}

#[test]
fn required_margin_isolated_and_cross() {
    // 10 * 100 / 10 = 100 isolated; 110 cross.
    let q = Dec::from_int(10);
    let p = Dec::from_int(100);
    let lev = Dec::from_int(10);
    let iso = MarginCalculator::calculate_required_margin(q, p, lev, MarginType::Isolated);
    assert_eq!(iso.m, 100_000_000);
    let cross = MarginCalculator::calculate_required_margin(q, p, lev, MarginType::Cross);
    assert_eq!(cross.m, 110_000_000);
}

#[test]
fn decimal_arithmetic_is_exact_at_scale() {
    let a = Dec::from_int(3);
    let b = Dec::new(500_000); // 0.5
    assert_eq!(a.mul(b).m, 1_500_000);
    assert_eq!(a.div(Dec::from_int(2)).m, 1_500_000);
    assert_eq!(a.add(b).m, 3_500_000);
    assert_eq!(a.sub(b).m, 2_500_000);
}
