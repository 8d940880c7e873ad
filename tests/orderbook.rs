use imlob::{OrderBook, OrderBookError, PriceScalar, Side, Trade};

fn d(mantissa: i64, scale: u32) -> PriceScalar {
    PriceScalar::new(mantissa, scale)
}

fn n(v: i64) -> PriceScalar {
    PriceScalar::new(v, 0)
}

#[test]
fn test_empty_book() {
    let book = OrderBook::new();
    assert!(book.is_empty());
    assert_eq!(book.best_buy(), None);
    assert_eq!(book.best_sell(), None);
    assert_eq!(book.buy_depth(), 0);
    assert_eq!(book.sell_depth(), 0);
}

#[test]
fn test_place_buy_order_no_match() {
    let mut book = OrderBook::new();
    let trades = book.place_order(Side::Buy, n(100), n(10), 1).unwrap();
    assert!(trades.is_empty());
    assert_eq!(book.best_buy(), Some((n(100), n(10))));
    assert_eq!(book.best_sell(), None);
    assert!(!book.is_empty());
}

#[test]
fn test_place_sell_order_no_match() {
    let mut book = OrderBook::new();
    let trades = book.place_order(Side::Sell, n(100), n(10), 1).unwrap();
    assert!(trades.is_empty());
    assert_eq!(book.best_buy(), None);
    assert_eq!(book.best_sell(), Some((n(100), n(10))));
}

#[test]
fn test_full_match() {
    let mut book = OrderBook::new();
    book.place_order(Side::Buy, n(100), n(10), 1).unwrap();
    let trades = book.place_order(Side::Sell, n(100), n(10), 2).unwrap();

    assert_eq!(trades.len(), 1);
    assert_eq!(
        trades[0],
        Trade {
            price: n(100),
            quantity: n(10),
            maker_id: 1,
            taker_id: 2,
        }
    );

    assert!(book.is_empty());
}

#[test]
fn test_partial_fill() {
    let mut book = OrderBook::new();
    book.place_order(Side::Buy, n(100), n(10), 1).unwrap();
    let trades = book.place_order(Side::Sell, n(100), n(5), 2).unwrap();

    assert_eq!(trades.len(), 1);
    assert_eq!(trades[0].quantity, n(5));
    assert_eq!(book.best_buy(), Some((n(100), n(5))));
    assert_eq!(book.best_sell(), None);
}

#[test]
fn test_multiple_price_levels() {
    let mut book = OrderBook::new();
    book.place_order(Side::Buy, n(99), n(10), 1).unwrap();
    book.place_order(Side::Buy, n(100), n(10), 2).unwrap();
    book.place_order(Side::Buy, n(101), n(10), 3).unwrap();

    assert_eq!(book.best_buy(), Some((n(101), n(10))));

    let trades = book.place_order(Side::Sell, n(99), n(25), 4).unwrap();

    assert_eq!(trades.len(), 3);
    assert_eq!(trades[0].price, n(101));
    assert_eq!(trades[0].quantity, n(10));
    assert_eq!(trades[1].price, n(100));
    assert_eq!(trades[1].quantity, n(10));
    assert_eq!(trades[2].price, n(99));
    assert_eq!(trades[2].quantity, n(5));

    assert_eq!(book.best_buy(), Some((n(99), n(5))));
    assert_eq!(book.best_sell(), None);
}

#[test]
fn test_price_time_priority() {
    let mut book = OrderBook::new();
    book.place_order(Side::Buy, n(100), n(10), 1).unwrap();
    book.place_order(Side::Buy, n(100), n(10), 2).unwrap();
    book.place_order(Side::Buy, n(100), n(10), 3).unwrap();

    assert_eq!(book.best_buy(), Some((n(100), n(30))));

    let trades = book.place_order(Side::Sell, n(100), n(25), 4).unwrap();

    assert_eq!(trades.len(), 3);
    assert_eq!(trades[0].maker_id, 1);
    assert_eq!(trades[0].quantity, n(10));
    assert_eq!(trades[1].maker_id, 2);
    assert_eq!(trades[1].quantity, n(10));
    assert_eq!(trades[2].maker_id, 3);
    assert_eq!(trades[2].quantity, n(5));

    assert_eq!(book.best_buy(), Some((n(100), n(5))));
}

#[test]
fn test_remainder_added_to_book() {
    let mut book = OrderBook::new();
    book.place_order(Side::Buy, n(100), n(10), 1).unwrap();
    let trades = book.place_order(Side::Sell, n(101), n(20), 2).unwrap();

    assert!(trades.is_empty());
    assert_eq!(book.best_buy(), Some((n(100), n(10))));
    assert_eq!(book.best_sell(), Some((n(101), n(20))));
}

#[test]
fn test_aggressive_buy_matches_multiple_sells() {
    let mut book = OrderBook::new();
    book.place_order(Side::Sell, n(100), n(10), 1).unwrap();
    book.place_order(Side::Sell, n(101), n(10), 2).unwrap();
    book.place_order(Side::Sell, n(102), n(10), 3).unwrap();

    assert_eq!(book.best_sell(), Some((n(100), n(10))));

    let trades = book.place_order(Side::Buy, n(102), n(25), 4).unwrap();

    assert_eq!(trades.len(), 3);
    assert_eq!(trades[0].price, n(100));
    assert_eq!(trades[1].price, n(101));
    assert_eq!(trades[2].price, n(102));
    assert_eq!(trades[2].quantity, n(5));

    assert_eq!(book.best_sell(), Some((n(102), n(5))));
    assert_eq!(book.best_buy(), None);
}

#[test]
fn test_zero_quantity_order() {
    let mut book = OrderBook::new();
    let result = book.place_order(Side::Buy, n(100), n(0), 1);
    assert!(result.is_err());
    assert!(book.is_empty());
}

#[test]
fn test_clear_book() {
    let mut book = OrderBook::new();
    book.place_order(Side::Buy, n(100), n(10), 1).unwrap();
    book.place_order(Side::Sell, n(101), n(10), 2).unwrap();

    assert!(!book.is_empty());
    book.clear();
    assert!(book.is_empty());
}

#[test]
fn test_trade_at_maker_price() {
    let mut book = OrderBook::new();
    book.place_order(Side::Buy, n(102), n(10), 1).unwrap();

    let trades = book.place_order(Side::Sell, n(100), n(10), 2).unwrap();

    assert_eq!(trades.len(), 1);
    assert_eq!(trades[0].price, n(102));
    assert_eq!(trades[0].maker_id, 1);
    assert_eq!(trades[0].taker_id, 2);
}

#[test]
fn test_decimal_precision() {
    let mut book = OrderBook::new();
    book.place_order(Side::Buy, d(10050, 2), d(1025, 2), 1).unwrap();
    let trades = book.place_order(Side::Sell, d(10025, 2), d(5125, 3), 2).unwrap();

    assert_eq!(trades.len(), 1);
    assert_eq!(trades[0].price, d(10050, 2));
    assert_eq!(trades[0].quantity, d(5125, 3));
    assert_eq!(book.best_buy(), Some((d(10050, 2), d(5125, 3))));
}

#[test]
fn rejects_quantity_above_cap_and_price_out_of_bounds() {
    let mut book = OrderBook::new();
    assert_eq!(
        book.place_order(Side::Buy, n(100), n(1_000_001), 1),
        Err(OrderBookError::InvalidQuantity)
    );
    assert_eq!(
        book.place_order(Side::Buy, n(100), n(-3), 1),
        Err(OrderBookError::InvalidQuantity)
    );
    assert_eq!(
        book.place_order(Side::Sell, d(5, 1), n(1), 1),
        Err(OrderBookError::InvalidPrice)
    );
    assert_eq!(
        book.place_order(Side::Sell, n(1_000_001), n(1), 1),
        Err(OrderBookError::InvalidPrice)
    );
    // The bounds themselves are accepted.
    assert_eq!(book.place_order(Side::Buy, n(1), n(1_000_000), 2), Ok(vec![]));
    assert_eq!(book.place_order(Side::Sell, n(1_000_000), n(1), 3), Ok(vec![]));
    assert!(book.is_empty() == false);
}

#[test]
fn remainder_beyond_the_decimal_range_is_rounded_and_matching_succeeds() {
    let mut book = OrderBook::new();
    book.place_order(Side::Buy, n(1), PriceScalar::new(1, 28), 1).unwrap();
    assert_eq!(book.sequence(), 1);
    // 1 000 000 minus 10^-28 needs 35 significant digits; the decimal crate rounds it.
    let trades = book.place_order(Side::Sell, n(1), n(1_000_000), 2).unwrap();
    assert_eq!(trades.len(), 1);
    assert_eq!(trades[0].quantity, PriceScalar::new(1, 28));
    assert_eq!(trades[0].maker_id, 1);
    assert_eq!(book.sequence(), 2);
    assert_eq!(book.best_buy(), None);
    let (price, total) = book.best_sell().unwrap();
    assert!(price.same_value(&n(1)));
    assert!(total.same_value(&n(1_000_000)));
}

#[test]
fn level_total_beyond_the_decimal_range_is_still_reported() {
    let mut book = OrderBook::new();
    book.place_order(Side::Buy, n(100), n(1_000_000), 1).unwrap();
    book.place_order(Side::Buy, n(100), PriceScalar::new(1, 28), 2).unwrap();
    let (price, total) = book.best_buy().unwrap();
    assert_eq!(price, n(100));
    assert!(total.same_value(&n(1_000_000)));
    assert_eq!(book.buy_levels(5).len(), 1);
    assert_eq!(book.buy_depth(), 1);
}

#[test]
fn rejected_order_leaves_the_book_and_counter() {
    let mut book = OrderBook::new();
    book.place_order(Side::Buy, n(100), n(10), 1).unwrap();
    let before = book.sequence();
    assert_eq!(book.place_order(Side::Sell, n(100), n(0), 2), Err(OrderBookError::InvalidQuantity));
    assert_eq!(book.sequence(), before);
    assert_eq!(book.best_buy(), Some((n(100), n(10))));
}

#[test]
fn round_trip_leaves_an_empty_book() {
    let mut book = OrderBook::new();
    assert_eq!(book.place_order(Side::Sell, n(250), d(75, 1), 7), Ok(vec![]));
    let trades = book.place_order(Side::Buy, n(250), d(75, 1), 8).unwrap();
    assert_eq!(
        trades,
        vec![Trade {
            price: n(250),
            quantity: d(75, 1),
            maker_id: 7,
            taker_id: 8,
        }]
    );
    assert!(book.is_empty());
}

#[test]
fn best_bid_stays_below_best_ask() {
    let mut book = OrderBook::new();
    let prices = [100, 103, 99, 101, 102, 98, 104, 100, 101];
    for (i, p) in prices.iter().enumerate() {
        let side = if i % 2 == 0 { Side::Buy } else { Side::Sell };
        book.place_order(side, n(*p), n(3 + i as i64), i as u64 + 1).unwrap();
        if let (Some((bid, _)), Some((ask, _))) = (book.best_buy(), book.best_sell()) {
            assert!(bid.lt(&ask));
        }
    }
}

#[test]
fn trades_improve_on_the_taker_limit_and_conserve_quantity() {
    let mut book = OrderBook::new();
    book.place_order(Side::Sell, n(100), n(4), 1).unwrap();
    book.place_order(Side::Sell, n(101), n(6), 2).unwrap();
    book.place_order(Side::Sell, n(103), n(5), 3).unwrap();
    let trades = book.place_order(Side::Buy, n(102), n(12), 4).unwrap();
    assert_eq!(trades.len(), 2);
    let mut filled = PriceScalar::zero();
    for t in &trades {
        assert!(t.price.le(&n(102)));
        filled = filled.checked_add(t.quantity).unwrap();
    }
    assert!(filled.same_value(&n(10)));
    // The remaining 2 rest as the best bid, below the 103 ask.
    assert_eq!(book.best_buy(), Some((n(102), n(2))));
    assert_eq!(book.best_sell(), Some((n(103), n(5))));
}

#[test]
fn levels_and_depth_are_best_first() {
    let mut book = OrderBook::new();
    book.place_order(Side::Buy, n(99), n(1), 1).unwrap();
    book.place_order(Side::Buy, n(101), n(2), 2).unwrap();
    book.place_order(Side::Buy, n(100), n(3), 3).unwrap();
    book.place_order(Side::Buy, n(101), n(4), 4).unwrap();
    book.place_order(Side::Sell, n(105), n(5), 5).unwrap();
    book.place_order(Side::Sell, n(104), n(6), 6).unwrap();
    assert_eq!(book.buy_depth(), 3);
    assert_eq!(book.sell_depth(), 2);
    assert_eq!(book.buy_levels(2), vec![(n(101), n(6)), (n(100), n(3))]);
    assert_eq!(book.buy_levels(10), vec![(n(101), n(6)), (n(100), n(3)), (n(99), n(1))]);
    assert_eq!(book.sell_levels(10), vec![(n(104), n(6)), (n(105), n(5))]);
    assert_eq!(book.sell_levels(0), vec![]);
}

#[test]
fn sequence_advances_once_per_accepted_order() {
    let mut book = OrderBook::new();
    assert_eq!(book.sequence(), 0);
    book.place_order(Side::Buy, n(100), n(10), 1).unwrap();
    book.place_order(Side::Sell, n(100), n(4), 2).unwrap();
    assert_eq!(book.sequence(), 2);
    assert!(book.place_order(Side::Sell, n(100), n(0), 3).is_err());
    assert!(book.place_order(Side::Sell, n(0), n(1), 4).is_err());
    assert_eq!(book.sequence(), 2);
    book.clear();
    book.place_order(Side::Sell, n(101), n(1), 5).unwrap();
    assert_eq!(book.sequence(), 3);
}
