use perp_engine::decimal::Dec;
use perp_engine::exchange::Exchange;
use perp_engine::funding::FundingCalculator;
use perp_engine::models::{
    Account, MarginType, Order, OrderBook, OrderError, OrderType, Position, PositionType, Side,
    TimeInForce,
};

fn order(
    id: u128,
    user: u128,
    sym: &str,
    side: Side,
    ot: OrderType,
    tif: TimeInForce,
    price: i64,
    qty: i64,
    lev: Option<i64>,
) -> Order {
    Order {
        id,
        user_id: user,
        symbol: String::from(sym),
        side,
        order_type: ot,
        price: Dec::from_int(price),
        quantity: Dec::from_int(qty),
        filled_quantity: Dec::new(0),
        leverage: lev.map(Dec::from_int),
        time_in_force: tif,
        created_at: 0,
        updated_at: 0,
    }
}

#[test]
fn empty_book_limit_post() {
    // buys 10 @ 100 limit GTC on an empty book: no trades, one bid
    let mut book = OrderBook::new(String::from("S"));
    let o = order(1, 7, "S", Side::Buy, OrderType::Limit, TimeInForce::GTC, 100, 10, None);
    let trades = book.add_order(o, 1).unwrap();
    assert!(trades.is_empty());
    let (bids, asks) = book.get_depth(1);
    assert_eq!(bids.len(), 1);
    assert_eq!(bids[0].0.m, 100_000_000);
    assert_eq!(bids[0].1.m, 10_000_000);
    assert!(asks.is_empty());
}

#[test]
fn crossing_market_taker() {
    // resting asks (101, 5) and (102, 5); buy 8 market
    let mut book = OrderBook::new(String::from("S"));
    book.add_order(order(11, 1, "S", Side::Sell, OrderType::Limit, TimeInForce::GTC, 101, 5, None), 1).unwrap();
    book.add_order(order(12, 1, "S", Side::Sell, OrderType::Limit, TimeInForce::GTC, 102, 5, None), 2).unwrap();
    let trades = book
        .add_order(order(13, 2, "S", Side::Buy, OrderType::Market, TimeInForce::GTC, 0, 8, None), 3)
        .unwrap();
    assert_eq!(trades.len(), 2);
    assert_eq!(trades[0].price.m, 101_000_000);
    assert_eq!(trades[0].quantity.m, 5_000_000);
    assert_eq!(trades[0].seller_order_id, 11);
    assert_eq!(trades[1].price.m, 102_000_000);
    assert_eq!(trades[1].quantity.m, 3_000_000);
    assert_eq!(trades[1].seller_order_id, 12);
    // first ask fully filled and removed; second has 2 remaining
    assert_eq!(book.asks.len(), 1);
    assert_eq!(book.asks[0].id, 12);
    assert_eq!(book.asks[0].filled_quantity.m, 3_000_000);
    let (_, asks) = book.get_depth(1);
    assert_eq!(asks[0].1.m, 2_000_000);
    assert!(book.bids.is_empty());
}

#[test]
fn partial_fill_then_rest() {
    // resting ask (101, 3); buy 10 @ 101 limit GTC
    let mut book = OrderBook::new(String::from("S"));
    book.add_order(order(21, 1, "S", Side::Sell, OrderType::Limit, TimeInForce::GTC, 101, 3, None), 1).unwrap();
    let trades = book
        .add_order(order(22, 2, "S", Side::Buy, OrderType::Limit, TimeInForce::GTC, 101, 10, None), 2)
        .unwrap();
    assert_eq!(trades.len(), 1);
    assert_eq!(trades[0].price.m, 101_000_000);
    assert_eq!(trades[0].quantity.m, 3_000_000);
    assert_eq!(book.bids.len(), 1);
    assert_eq!(book.bids[0].id, 22);
    assert_eq!(book.bids[0].quantity.m, 7_000_000);
    assert_eq!(book.bids[0].filled_quantity.m, 0);
    assert!(book.asks.is_empty());
}

#[test]
fn side_flip_credits_realized_pnl() {
    // long 5 @ 100 with margin; a sell fill of 8 @ 120 flips it
    let mut account = Account::new(9);
    account.positions.push(Position {
        user_id: 9,
        symbol: String::from("S"),
        side: Side::Buy,
        position_type: PositionType::Margin,
        quantity: Dec::from_int(5),
        entry_price: Dec::from_int(100),
        leverage: Some(Dec::from_int(10)),
        margin_type: Some(MarginType::Isolated),
        margin: Some(Dec::from_int(50)),
        liquidation_price: None,
        updated_at: 0,
    });
    account
        .update_position(
            String::from("S"),
            Side::Sell,
            Dec::from_int(8),
            Dec::from_int(120),
            PositionType::Margin,
            &Some(Dec::from_int(10)),
            &Some(MarginType::Isolated),
            1,
        )
        .unwrap();
    let p = &account.positions[0];
    assert_eq!(p.side, Side::Sell);
    assert_eq!(p.quantity.m, 3_000_000);
    assert_eq!(p.entry_price.m, 120_000_000);
    // realized pnl (120 - 100) * 5 = 100 credited: 50 + 100 = 150
    assert_eq!(p.margin.unwrap().m, 150_000_000);
}

#[test]
fn weighted_average_entry() {
    // 10 @ 100 then 10 @ 110: entry (10*100 + 10*110) / 20 = 105
    let mut account = Account::new(9);
    for (qty, px, id) in [(10i64, 100i64, 1i64), (10, 110, 2)] {
        let _ = id;
        account
            .update_position(
                String::from("S"),
                Side::Buy,
                Dec::from_int(qty),
                Dec::from_int(px),
                PositionType::Margin,
                &Some(Dec::from_int(10)),
                &Some(MarginType::Isolated),
                1,
            )
            .unwrap();
    }
    let p = &account.positions[0];
    assert_eq!(p.quantity.m, 20_000_000);
    assert_eq!(p.entry_price.m, 105_000_000);
}

#[test]
fn funding_rate_clamped_and_scheduled() {
    // mark 101 / index 100: premium 0.01, raw 0.0101, clamped 0.00075
    let mut fc = FundingCalculator::new(3_600_000, 0);
    let rate = fc.calculate_funding_rate(
        String::from("S"),
        Dec::from_int(101),
        Dec::from_int(100),
        Dec::from_int(1000),
        Dec::from_int(1000),
    );
    assert_eq!(rate.rate.m, 750);
    assert_eq!(rate.next_funding_time, 3_600_000);
    // deeply negative premium clamps at the other bound
    let rate2 = fc.calculate_funding_rate(
        String::from("S"),
        Dec::from_int(50),
        Dec::from_int(100),
        Dec::from_int(0),
        Dec::from_int(0),
    );
    assert_eq!(rate2.rate.m, -750);
    assert_eq!(fc.get_funding_history().len(), 2);
}

#[test]
fn funding_payment_long_pays_short_receives() {
    let mut fc = FundingCalculator::new(1000, 0);
    let rate = fc.calculate_funding_rate(
        String::from("S"),
        Dec::from_int(101),
        Dec::from_int(100),
        Dec::from_int(1000),
        Dec::from_int(1000),
    );
    let mk = |side: Side| Position {
        user_id: 1,
        symbol: String::from("S"),
        side,
        position_type: PositionType::Margin,
        quantity: Dec::from_int(2),
        entry_price: Dec::from_int(100),
        leverage: Some(Dec::from_int(10)),
        margin_type: Some(MarginType::Isolated),
        margin: Some(Dec::from_int(50)),
        liquidation_price: None,
        updated_at: 0,
    };
    let mut positions = vec![mk(Side::Buy), mk(Side::Sell)];
    // payment = 2 * 100 * 0.00075 = 0.15
    fc.apply_funding(&mut positions, &rate, 2000).unwrap();
    assert_eq!(positions[0].margin.unwrap().m, 49_850_000);
    assert_eq!(positions[1].margin.unwrap().m, 50_150_000);
    assert_eq!(fc.get_funding_payments().len(), 2);
    assert_eq!(fc.get_funding_payments()[0].payment.m, 150_000);
}

#[test]
fn funding_before_due_time_is_a_no_op() {
    let mut fc = FundingCalculator::new(1000, 0);
    let rate = fc.calculate_funding_rate(
        String::from("S"),
        Dec::from_int(101),
        Dec::from_int(100),
        Dec::from_int(0),
        Dec::from_int(0),
    );
    let mut positions = vec![];
    fc.apply_funding(&mut positions, &rate, 500).unwrap();
    assert!(fc.get_funding_payments().is_empty());
}

#[test]
fn funding_error_on_negative_margin() {
    let mut fc = FundingCalculator::new(1000, 0);
    let rate = fc.calculate_funding_rate(
        String::from("S"),
        Dec::from_int(101),
        Dec::from_int(100),
        Dec::from_int(1000),
        Dec::from_int(1000),
    );
    let mut positions = vec![Position {
        user_id: 1,
        symbol: String::from("S"),
        side: Side::Buy,
        position_type: PositionType::Margin,
        quantity: Dec::from_int(2),
        entry_price: Dec::from_int(100),
        leverage: Some(Dec::from_int(10)),
        margin_type: Some(MarginType::Isolated),
        margin: Some(Dec::new(100_000)), // 0.1, less than the 0.15 owed
        liquidation_price: None,
        updated_at: 0,
    }];
    let r = fc.apply_funding(&mut positions, &rate, 2000);
    assert_eq!(r, Err(OrderError::FundingError));
    // the batch failed: nothing was touched
    assert_eq!(positions[0].margin.unwrap().m, 100_000);
    assert!(fc.get_funding_payments().is_empty());
}

#[test]
fn ioc_never_rests() {
    let mut book = OrderBook::new(String::from("S"));
    let trades = book
        .add_order(order(31, 1, "S", Side::Buy, OrderType::Limit, TimeInForce::IOC, 100, 10, None), 1)
        .unwrap();
    assert!(trades.is_empty());
    assert!(book.bids.is_empty());
    assert!(book.asks.is_empty());
}

#[test]
fn fok_fills_whole_or_nothing() {
    let mut book = OrderBook::new(String::from("S"));
    book.add_order(order(41, 1, "S", Side::Sell, OrderType::Limit, TimeInForce::GTC, 101, 5, None), 1).unwrap();
    // asks only 5: a FOK buy of 8 is rejected and nothing changes
    let r = book.add_order(
        order(42, 2, "S", Side::Buy, OrderType::Limit, TimeInForce::FOK, 101, 8, None),
        2,
    );
    assert!(matches!(r, Err(OrderError::InvalidOrder)));
    assert_eq!(book.asks.len(), 1);
    assert_eq!(book.asks[0].filled_quantity.m, 0);
    // a FOK buy of 5 fills completely
    let trades = book
        .add_order(order(43, 2, "S", Side::Buy, OrderType::Limit, TimeInForce::FOK, 101, 5, None), 3)
        .unwrap();
    assert_eq!(trades.len(), 1);
    assert_eq!(trades[0].quantity.m, 5_000_000);
    assert!(book.asks.is_empty());
    assert!(book.bids.is_empty());
}

#[test]
fn stop_orders_are_rejected() {
    let mut book = OrderBook::new(String::from("S"));
    let r = book.add_order(
        order(51, 1, "S", Side::Buy, OrderType::Stop, TimeInForce::GTC, 100, 1, None),
        1,
    );
    assert!(matches!(r, Err(OrderError::InvalidOrder)));
}

#[test]
fn cancel_missing_order_not_found() {
    let mut book = OrderBook::new(String::from("S"));
    assert_eq!(book.cancel_order(99, Side::Buy), Err(OrderError::OrderNotFound));
}

#[test]
fn leveraged_cancel_refunds_exactly() {
    // place a leveraged limit order that does not cross, then cancel:
    // the quote balance is restored exactly
    let mut ex = Exchange::new(vec![String::from("S")], 1000, String::from("USDT"), 0);
    ex.create_account(7);
    ex.accounts[0].deposit(String::from("USDT"), Dec::from_int(1000));
    ex.update_market_data("S", Dec::from_int(100), Dec::from_int(100), Dec::from_int(0), Dec::from_int(0), 10);
    let o = order(61, 7, "S", Side::Buy, OrderType::Limit, TimeInForce::GTC, 100, 10, Some(10));
    let trades = ex.place_order(o, 20).unwrap();
    assert!(trades.is_empty());
    // required margin = 10 * 100 / 10 = 100 locked
    assert_eq!(ex.accounts[0].get_balance("USDT").m, 900_000_000);
    ex.cancel_order(7, String::from("S"), 61, Side::Buy).unwrap();
    assert_eq!(ex.accounts[0].get_balance("USDT").m, 1_000_000_000);
}

#[test]
fn placement_errors() {
    let mut ex = Exchange::new(vec![String::from("S")], 1000, String::from("USDT"), 0);
    ex.create_account(7);
    ex.update_market_data("S", Dec::from_int(100), Dec::from_int(100), Dec::from_int(0), Dec::from_int(0), 0);
    // unknown symbol
    let o = order(1, 7, "X", Side::Buy, OrderType::Limit, TimeInForce::GTC, 100, 1, None);
    assert!(matches!(ex.place_order(o, 10), Err(OrderError::InvalidOrder)));
    // stale market data (older than 30 s)
    let o = order(2, 7, "S", Side::Buy, OrderType::Limit, TimeInForce::GTC, 100, 1, None);
    assert!(matches!(ex.place_order(o, 40_000), Err(OrderError::InvalidOrder)));
    // unknown account
    let o = order(3, 8, "S", Side::Buy, OrderType::Limit, TimeInForce::GTC, 100, 1, None);
    assert!(matches!(ex.place_order(o, 10), Err(OrderError::OrderNotFound)));
    // leveraged order without balance
    let o = order(4, 7, "S", Side::Buy, OrderType::Limit, TimeInForce::GTC, 100, 1, Some(10));
    assert!(matches!(ex.place_order(o, 10), Err(OrderError::InsufficientBalance)));
}

#[test]
fn would_liquidate_rejected() {
    // an existing long margin position far above the mark: buying
    // more would sit at or past its liquidation price
    let mut ex = Exchange::new(vec![String::from("S")], 1000, String::from("USDT"), 0);
    ex.create_account(7);
    ex.accounts[0].deposit(String::from("USDT"), Dec::from_int(100_000));
    ex.accounts[0].positions.push(Position {
        user_id: 7,
        symbol: String::from("S"),
        side: Side::Buy,
        position_type: PositionType::Margin,
        quantity: Dec::from_int(10),
        entry_price: Dec::from_int(100),
        leverage: Some(Dec::from_int(10)),
        margin_type: Some(MarginType::Isolated),
        margin: None,
        liquidation_price: None,
        updated_at: 0,
    });
    // mark 50 is far below the hypothetical entry's liquidation price
    ex.update_market_data("S", Dec::from_int(50), Dec::from_int(50), Dec::from_int(0), Dec::from_int(0), 0);
    let o = order(5, 7, "S", Side::Buy, OrderType::Limit, TimeInForce::GTC, 100, 1, Some(10));
    assert!(matches!(ex.place_order(o, 10), Err(OrderError::WouldLiquidate)));
}

#[test]
fn exchange_matches_and_settles_both_sides() {
    let mut ex = Exchange::new(vec![String::from("S")], 1000, String::from("USDT"), 0);
    ex.create_account(1);
    ex.create_account(2);
    ex.update_market_data("S", Dec::from_int(100), Dec::from_int(100), Dec::from_int(0), Dec::from_int(0), 0);
    let sell = order(71, 1, "S", Side::Sell, OrderType::Limit, TimeInForce::GTC, 100, 5, None);
    assert!(ex.place_order(sell, 1).unwrap().is_empty());
    let buy = order(72, 2, "S", Side::Buy, OrderType::Limit, TimeInForce::GTC, 100, 5, None);
    let trades = ex.place_order(buy, 2).unwrap();
    assert_eq!(trades.len(), 1);
    assert_eq!(trades[0].price.m, 100_000_000);
    assert_eq!(trades[0].quantity.m, 5_000_000);
    assert_eq!(trades[0].buyer_order_id, 72);
    assert_eq!(trades[0].seller_order_id, 71);
    assert_eq!(ex.get_last_trade_price("S").unwrap().m, 100_000_000);
    // both parties hold mirrored positions
    let buyer = ex.get_account(2).unwrap();
    assert_eq!(buyer.positions[0].side, Side::Buy);
    assert_eq!(buyer.positions[0].quantity.m, 5_000_000);
    assert_eq!(buyer.positions[0].entry_price.m, 100_000_000);
    let seller = ex.get_account(1).unwrap();
    assert_eq!(seller.positions[0].side, Side::Sell);
    assert_eq!(seller.positions[0].quantity.m, 5_000_000);
}

#[test]
fn run_funding_returns_clamped_rates() {
    let mut ex = Exchange::new(vec![String::from("S")], 1000, String::from("USDT"), 0);
    ex.update_market_data("S", Dec::from_int(101), Dec::from_int(100), Dec::from_int(1000), Dec::from_int(1000), 5);
    let rates = ex.run_funding(10).unwrap();
    assert_eq!(rates.len(), 1);
    assert_eq!(rates[0].rate.m, 750);
    assert!(-750 <= rates[0].rate.m && rates[0].rate.m <= 750);
}

#[test]
fn deposit_withdraw_and_default_balance() {
    let mut a = Account::new(3);
    assert_eq!(a.get_balance("USDT").m, 0);
    a.deposit(String::from("USDT"), Dec::from_int(10));
    a.deposit(String::from("USDT"), Dec::from_int(5));
    assert_eq!(a.get_balance("USDT").m, 15_000_000);
    // withdraw reads without subtracting
    assert_eq!(a.withdraw(String::from("USDT")).m, 15_000_000);
    assert_eq!(a.get_balance("USDT").m, 15_000_000);
    assert_eq!(a.get_balance("BTC").m, 0);
}

#[test]
fn error_messages() {
    assert_eq!(OrderError::InsufficientBalance.message(), "Insufficient balance");
    assert_eq!(OrderError::OrderNotFound.message(), "Order not found");
}

#[test]
fn reducing_fill_checks_folded_side() {
    // a long 10 @ 100; selling 5 leveraged at mark 120 leaves the
    // position long and safe, so the margin pre-check passes
    let mut ex = Exchange::new(vec![String::from("S")], 1000, String::from("USDT"), 0);
    ex.create_account(7);
    ex.accounts[0].deposit(String::from("USDT"), Dec::from_int(100_000));
    ex.accounts[0].positions.push(Position {
        user_id: 7,
        symbol: String::from("S"),
        side: Side::Buy,
        position_type: PositionType::Margin,
        quantity: Dec::from_int(10),
        entry_price: Dec::from_int(100),
        leverage: Some(Dec::from_int(10)),
        margin_type: Some(MarginType::Isolated),
        margin: None,
        liquidation_price: None,
        updated_at: 0,
    });
    ex.update_market_data("S", Dec::from_int(120), Dec::from_int(120), Dec::from_int(0), Dec::from_int(0), 0);
    let o = order(6, 7, "S", Side::Sell, OrderType::Limit, TimeInForce::GTC, 120, 5, Some(10));
    let trades = ex.place_order(o, 10).unwrap();
    assert!(trades.is_empty());
    // the remainder rests on the asks
    assert_eq!(ex.order_books[0].asks.len(), 1);
}
