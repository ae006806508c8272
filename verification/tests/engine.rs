use order_engine::engine::{validate, EngineError, OrderEngine};
use order_engine::money::{Money, MAX_ORDER_UNITS};
use order_engine::order::{Order, OrderKind, OrderStatus, OrderType};

fn order(id: u128, pair: &str, side: OrderType, kind: OrderKind, amount: i64, price: Option<i64>) -> Order {
    Order::from_parts(
        id,
        0,
        500 + id,
        pair.to_string(),
        side,
        kind,
        Money::from_whole(amount),
        price.map(Money::from_whole),
    )
}

fn is_invalid(e: &EngineError) -> bool {
    matches!(e, EngineError::InvalidOrder(_))
}

#[test]
fn engine_starts_with_the_common_pairs() {
    let engine = OrderEngine::new(4);
    assert_eq!(engine.workers(), 4);
    let mut pairs = engine.get_pairs();
    pairs.sort();
    assert_eq!(pairs, vec!["ADA/USDT", "BTC/USDT", "ETH/USDT", "SOL/USDT"]);
    let book = engine.get_orderbook("BTC/USDT").expect("seeded");
    assert_eq!(book.pair, "BTC/USDT");
    assert!(book.bids.is_empty() && book.asks.is_empty());
    assert!(engine.get_orderbook("XRP/USDT").is_none());
    assert!(engine.get_orderbook_snapshot("XRP/USDT").is_none());
}

#[test]
fn engine_matches_within_a_pair_and_reports_the_order() {
    let mut engine = OrderEngine::new(1);
    let first = engine
        .add_order(order(1, "BTC/USDT", OrderType::Sell, OrderKind::Limit, 2, Some(100)))
        .expect("admitted");
    assert!(first.trades.is_empty());
    assert_eq!(first.updated_order.as_ref().map(|o| o.status), Some(OrderStatus::Pending));
    let second = engine
        .add_order(order(2, "BTC/USDT", OrderType::Buy, OrderKind::Limit, 1, Some(105)))
        .expect("admitted");
    assert_eq!(second.trades.len(), 1);
    assert_eq!(second.trades[0].price, Money::from_whole(100));
    assert_eq!(second.trades[0].amount, Money::from_whole(1));
    let updated = second.updated_order.expect("reported");
    assert_eq!(updated.status, OrderStatus::Filled);
    assert_eq!(updated.filled, Money::from_whole(1));
    let shot = engine.get_orderbook_snapshot("BTC/USDT").expect("known pair");
    assert_eq!(shot.pair, "BTC/USDT");
    assert!(shot.bids.is_empty());
    assert_eq!(shot.asks, vec![(Money::from_whole(100), Money::from_whole(1))]);
    assert_eq!(shot.best_bid, None);
    assert_eq!(shot.best_ask, Some(Money::from_whole(100)));
    assert_eq!(shot.spread, None);
}

#[test]
fn engine_creates_a_book_for_a_new_pair() {
    let mut engine = OrderEngine::new(1);
    assert!(engine.get_orderbook("DOT/USDT").is_none());
    engine
        .add_order(order(1, "DOT/USDT", OrderType::Buy, OrderKind::Limit, 3, Some(7)))
        .expect("admitted");
    let book = engine.get_orderbook("DOT/USDT").expect("created");
    assert_eq!(book.get_best_bid(), Some(Money::from_whole(7)));
    assert_eq!(engine.get_pairs().len(), 5);
    let other = engine.get_orderbook("BTC/USDT").expect("seeded");
    assert!(other.bids.is_empty());
}

#[test]
fn engine_cancel_distinguishes_unknown_pair_from_unknown_order() {
    let mut engine = OrderEngine::new(1);
    match engine.cancel_order("XRP/USDT", 1) {
        Err(EngineError::OrderBookNotFound(pair)) => assert_eq!(pair, "XRP/USDT"),
        _ => panic!("an unknown pair is an error"),
    }
    assert!(matches!(engine.cancel_order("BTC/USDT", 1), Ok(None)));
    engine
        .add_order(order(1, "BTC/USDT", OrderType::Sell, OrderKind::Limit, 1, Some(100)))
        .expect("admitted");
    let gone = engine.cancel_order("BTC/USDT", 1).expect("known pair").expect("resting");
    assert_eq!(gone.id, 1);
    assert_eq!(gone.status, OrderStatus::Cancelled);
    assert!(matches!(engine.cancel_order("BTC/USDT", 1), Ok(None)));
    let shot = engine.get_orderbook_snapshot("BTC/USDT").expect("known pair");
    assert_eq!(shot.best_ask, None);
}

#[test]
fn intake_refuses_invalid_orders() {
    let mut engine = OrderEngine::new(1);
    let zero = order(1, "BTC/USDT", OrderType::Buy, OrderKind::Limit, 0, Some(10));
    let negative = order(2, "BTC/USDT", OrderType::Buy, OrderKind::Limit, -1, Some(10));
    let no_price = order(3, "BTC/USDT", OrderType::Buy, OrderKind::Limit, 1, None);
    let bad_price = order(4, "BTC/USDT", OrderType::Sell, OrderKind::Limit, 1, Some(0));
    let priced_market = order(5, "BTC/USDT", OrderType::Sell, OrderKind::Market, 1, Some(-5));
    let mut huge = order(6, "BTC/USDT", OrderType::Sell, OrderKind::Limit, 1, Some(5));
    huge.amount = Money::from_units(MAX_ORDER_UNITS + 1);
    let mut touched = order(7, "BTC/USDT", OrderType::Sell, OrderKind::Limit, 2, Some(5));
    touched.filled = Money::from_whole(1);
    let mut stale = order(8, "BTC/USDT", OrderType::Sell, OrderKind::Limit, 2, Some(5));
    stale.status = OrderStatus::Cancelled;
    for bad in [zero, negative, no_price, bad_price, priced_market, huge, touched, stale] {
        assert!(validate(&bad).as_ref().err().map(is_invalid).unwrap_or(false));
        assert!(engine.add_order(bad).as_ref().err().map(is_invalid).unwrap_or(false));
    }
    let book = engine.get_orderbook("BTC/USDT").expect("seeded");
    assert!(book.bids.is_empty() && book.asks.is_empty());
    let mut largest = order(9, "BTC/USDT", OrderType::Sell, OrderKind::Limit, 1, Some(5));
    largest.amount = Money::from_units(MAX_ORDER_UNITS);
    assert!(validate(&largest).is_ok());
    assert!(validate(&order(10, "BTC/USDT", OrderType::Buy, OrderKind::Market, 1, None)).is_ok());
    assert!(validate(&order(11, "BTC/USDT", OrderType::Buy, OrderKind::Market, 1, Some(5))).is_ok());
}
