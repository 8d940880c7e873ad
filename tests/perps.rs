use imlob::{
    FeeStructure, FundingRate, InsuranceFund, LiquidationEngine, MarkPrice, OraclePrice, OrderBookError,
    PositionManager, PositionSide, PriceScalar,
};

fn d(mantissa: i64, scale: u32) -> PriceScalar {
    PriceScalar::new(mantissa, scale)
}

fn n(v: i64) -> PriceScalar {
    PriceScalar::new(v, 0)
}

#[test]
fn liquidation_at_the_leverage_cap() {
    let engine = LiquidationEngine::new();
    let mut manager = PositionManager::new();
    let position = manager
        .open_position(1, PositionSide::Long, n(10), n(1000), n(100), &engine)
        .unwrap();
    assert!(position.leverage.same_value(&n(100)));
    assert!(position.liquidation_price.same_value(&d(99992, 2)));
    assert!(position.bankruptcy_price.same_value(&n(990)));
    assert!(engine.should_liquidate(&position, position.liquidation_price));

    let untouched = manager.update_positions(d(99993, 2), &engine).unwrap();
    assert!(untouched.is_empty());
    assert_eq!(manager.position_count(), 1);
    let liquidated = manager.update_positions(d(99992, 2), &engine).unwrap();
    assert_eq!(liquidated, vec![1]);
    assert_eq!(manager.position_count(), 0);
    assert!(manager.total_long_interest().is_zero());
}

#[test]
fn short_liquidation_price_and_pnl() {
    let engine = LiquidationEngine::new();
    let mut manager = PositionManager::new();
    let position = manager
        .open_position(2, PositionSide::Short, n(4), n(500), n(40), &engine)
        .unwrap();
    // leverage 50: 500 * (1 + 0.008 / 50) = 500.08
    assert!(position.leverage.same_value(&n(50)));
    assert!(position.liquidation_price.same_value(&d(50008, 2)));
    assert!(position.bankruptcy_price.same_value(&n(510)));
    assert!(engine.should_liquidate(&position, d(50008, 2)));
    assert!(!engine.should_liquidate(&position, d(50007, 2)));
    let pnl = LiquidationEngine::calculate_pnl(&position, n(490)).unwrap();
    assert!(pnl.same_value(&n(40)));
    let ratio = engine.calculate_margin_ratio(&position, n(500)).unwrap();
    assert!(ratio.same_value(&d(2, 2)));
}

#[test]
fn open_position_rejections() {
    let engine = LiquidationEngine::new();
    let mut manager = PositionManager::new();
    assert_eq!(
        manager.open_position(1, PositionSide::Long, n(1_000_001), n(1), n(1_000_000), &engine),
        Err(OrderBookError::InvalidQuantity)
    );
    assert_eq!(
        manager.open_position(1, PositionSide::Long, n(0), n(1), n(1), &engine),
        Err(OrderBookError::InvalidQuantity)
    );
    assert_eq!(
        manager.open_position(1, PositionSide::Long, n(1), n(100), n(0), &engine),
        Err(OrderBookError::InsufficientMargin { required: 1, provided: 0 })
    );
    match manager.open_position(1, PositionSide::Long, n(10), n(1000), n(99), &engine) {
        Err(OrderBookError::InvalidLeverage(l)) => assert!(l.gt(&n(100))),
        other => panic!("unexpected {:?}", other),
    }
    assert_eq!(manager.position_count(), 0);
    assert!(manager.total_long_interest().is_zero());
}

#[test]
fn insufficient_margin_reports_rounded_requirement() {
    let engine = LiquidationEngine {
        initial_margin: d(5, 1),
        ..LiquidationEngine::new()
    };
    let mut manager = PositionManager::new();
    // notional 1000, leverage 2, but half of the notional is required.
    assert_eq!(
        manager.open_position(3, PositionSide::Long, n(10), n(100), n(400), &engine),
        Err(OrderBookError::InsufficientMargin { required: 500, provided: 400 })
    );
}

#[test]
fn open_interest_follows_open_and_close() {
    let engine = LiquidationEngine::new();
    let mut manager = PositionManager::new();
    manager.open_position(5, PositionSide::Long, n(3), n(100), n(10), &engine).unwrap();
    manager.open_position(2, PositionSide::Short, d(25, 1), n(100), n(10), &engine).unwrap();
    manager.open_position(9, PositionSide::Long, n(4), n(100), n(10), &engine).unwrap();
    assert!(manager.total_long_interest().same_value(&n(7)));
    assert!(manager.total_short_interest().same_value(&d(25, 1)));
    // Reopening replaces the trader's position and moves its size.
    manager.open_position(5, PositionSide::Short, n(1), n(100), n(10), &engine).unwrap();
    assert!(manager.total_long_interest().same_value(&n(4)));
    assert!(manager.total_short_interest().same_value(&d(35, 1)));
    let closed = manager.close_position(9).unwrap();
    assert_eq!(closed.trader_id, 9);
    assert!(manager.total_long_interest().is_zero());
    assert_eq!(
        manager.close_position(9),
        Err(OrderBookError::PositionNotFound { trader_id: 9 })
    );
    assert_eq!(manager.position_count(), 2);
}

#[test]
fn funding_moves_margin_between_sides() {
    let engine = LiquidationEngine::new();
    let mut manager = PositionManager::new();
    manager.open_position(1, PositionSide::Long, n(10), n(1000), n(200), &engine).unwrap();
    manager.open_position(2, PositionSide::Short, n(10), n(1000), n(200), &engine).unwrap();
    let mut funding = FundingRate::new();
    funding.add_price_sample(n(1010), n(1000), 0);
    funding.add_price_sample(n(1010), n(1000), 60);
    let rate = funding.calculate_funding_rate(100).unwrap();
    assert!(rate.same_value(&d(1, 2)));
    let payments = manager.apply_funding(&funding).unwrap();
    assert_eq!(payments.len(), 2);
    assert_eq!(payments[0].0, 1);
    assert!(payments[0].1.same_value(&d(-1, 1)));
    assert_eq!(payments[1].0, 2);
    assert!(payments[1].1.same_value(&d(1, 1)));
    assert!(manager.position(1).unwrap().margin.same_value(&d(1999, 1)));
    assert!(manager.position(2).unwrap().margin.same_value(&d(2001, 1)));
}

#[test]
fn fees_on_notional() {
    let fees = FeeStructure::new();
    assert!(fees.calculate_fee(true, n(10000)).unwrap().same_value(&n(-1)));
    assert!(fees.calculate_fee(false, n(10000)).unwrap().same_value(&n(5)));
    assert_eq!(fees.funding_interval, 28800);
}

#[test]
fn insurance_fund_contributions_and_payouts() {
    let mut fund = InsuranceFund::new(n(1000));
    fund.add_contribution(n(250)).unwrap();
    assert!(fund.balance.same_value(&n(1250)));
    assert!(fund.contributions.same_value(&n(250)));
    assert_eq!(fund.process_payout(n(2000)), Ok(false));
    assert!(fund.balance.same_value(&n(1250)));
    assert_eq!(fund.process_payout(n(1250)), Ok(true));
    assert!(fund.balance.is_zero());
    assert!(fund.payouts.same_value(&n(1250)));
}

#[test]
fn adl_triggers_below_threshold() {
    let engine = LiquidationEngine::new();
    // 1 000 000 / 10 000 000 = 0.1 < 0.8
    assert!(engine.should_trigger_adl());
    let rich = LiquidationEngine {
        insurance_fund: n(9_000_000),
        ..LiquidationEngine::new()
    };
    assert!(!rich.should_trigger_adl());
}

#[test]
fn mark_price_from_quotes() {
    let mut mark = MarkPrice::new();
    assert_eq!(mark.calculate(n(0), n(1001), n(1000)), Err(OrderBookError::InvalidPrice));
    assert_eq!(
        mark.calculate(n(1002), n(1001), n(1000)),
        Err(OrderBookError::MarketManipulation)
    );
    mark.calculate(n(999), n(1001), n(1000)).unwrap();
    assert!(mark.fair_price.same_value(&n(1000)));
    assert!(mark.funding_basis.is_zero());
    // (1000.001 + 2000) / 3
    assert!(mark.price.gt(&n(1000)));
    assert!(mark.price.lt(&d(1000001, 3)));
    assert_eq!(mark.price_samples.len(), 1);
    mark.calculate(n(1009), n(1011), n(1000)).unwrap();
    // 0.9 * 0 + 0.1 * (1010 - 1000)
    assert!(mark.funding_basis.same_value(&n(1)));
}

#[test]
fn oracle_update_and_twap() {
    let mut oracle = OraclePrice::new(n(1000));
    assert!(oracle.get_twap(5).unwrap().same_value(&n(1000)));
    oracle.update(n(1000), n(0)).unwrap();
    oracle.update(n(1010), d(5, 4)).unwrap();
    assert_eq!(oracle.timestamp, 2);
    // 1010 * 1.0005
    assert!(oracle.price.same_value(&d(1010505, 3)));
    assert!(oracle.get_twap(1).unwrap().same_value(&d(1010505, 3)));
    // (1010.505 + 1000) / 2
    assert!(oracle.get_twap(10).unwrap().same_value(&d(10052525, 4)));
}

#[test]
fn twap_premium_weights_by_time() {
    let mut funding = FundingRate::new();
    assert!(funding.calculate_twap_premium(28800).unwrap().is_zero());
    funding.add_price_sample(n(1010), n(1000), 0);
    funding.add_price_sample(n(1000), n(1000), 180);
    // weights 180 and 60: 0.01 * 180 / 240
    assert!(funding.calculate_twap_premium(28800).unwrap().same_value(&d(75, 4)));
    // only the newest sample is within 60 seconds
    assert!(funding.calculate_twap_premium(60).unwrap().is_zero());
    assert!(!funding.should_apply_funding(28799));
    assert!(funding.should_apply_funding(28800));
}

#[test]
fn funding_rate_is_clamped_and_scheduled() {
    let mut funding = FundingRate::new();
    funding.add_price_sample(n(1100), n(1000), 0);
    let rate = funding.calculate_funding_rate(50).unwrap();
    assert!(rate.same_value(&d(1, 2)));
    assert!(funding.premium_index.same_value(&d(1, 1)));
    assert_eq!(funding.next_funding_time, 50 + 28800);
    funding.add_price_sample(n(900), n(1000), 60);
    funding.add_price_sample(n(900), n(1000), 6000);
    let rate = funding.calculate_funding_rate(6000).unwrap();
    assert!(rate.same_value(&d(-1, 2)));
    let long = funding.calculate_funding_payment(n(10), true).unwrap();
    assert!(long.same_value(&d(1, 1)));
}

#[test]
fn imbalance_ratio() {
    let mut funding = FundingRate::new();
    assert!(funding.get_imbalance_ratio().unwrap().is_zero());
    funding.update_open_interest(n(30), n(10));
    assert!(funding.get_imbalance_ratio().unwrap().same_value(&d(5, 1)));
}

#[test]
fn profit_is_zero_at_entry_and_flips_with_side() {
    let engine = LiquidationEngine::new();
    let mut manager = PositionManager::new();
    let long = manager.open_position(1, PositionSide::Long, n(3), n(200), n(60), &engine).unwrap();
    let short = manager.open_position(2, PositionSide::Short, n(3), n(200), n(60), &engine).unwrap();
    assert!(LiquidationEngine::calculate_pnl(&long, d(2000, 1)).unwrap().is_zero());
    assert!(LiquidationEngine::calculate_pnl(&long, n(205)).unwrap().same_value(&n(15)));
    assert!(LiquidationEngine::calculate_pnl(&short, n(205)).unwrap().same_value(&n(-15)));
}

#[test]
fn non_positive_leverage_is_rejected() {
    let engine = LiquidationEngine::new();
    let mut manager = PositionManager::new();
    match manager.open_position(1, PositionSide::Long, n(5), n(0), n(10), &engine) {
        Err(OrderBookError::InvalidLeverage(l)) => assert!(l.is_zero()),
        other => panic!("unexpected {:?}", other),
    }
    match manager.open_position(1, PositionSide::Short, n(5), n(-20), n(10), &engine) {
        Err(OrderBookError::InvalidLeverage(l)) => assert!(l.is_negative()),
        other => panic!("unexpected {:?}", other),
    }
    assert_eq!(manager.position_count(), 0);
}
