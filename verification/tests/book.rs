use order_engine::money::Money;
use order_engine::order::{Order, OrderKind, OrderStatus, OrderType, Trade};
use order_engine::orderbook::OrderBook;

fn units(tenths: i64) -> Money {
    Money::from_units(tenths as i128 * 10_000_000)
}

fn limit(id: u128, side: OrderType, tenths: i64, price: i64) -> Order {
    Order::from_parts(
        id,
        id as i64,
        1000 + id,
        "BTC/USDT".to_string(),
        side,
        OrderKind::Limit,
        units(tenths),
        Some(Money::from_whole(price)),
    )
}

fn market(id: u128, side: OrderType, tenths: i64) -> Order {
    Order::from_parts(
        id,
        id as i64,
        1000 + id,
        "BTC/USDT".to_string(),
        side,
        OrderKind::Market,
        units(tenths),
        None,
    )
}

fn book() -> OrderBook {
    OrderBook::new("BTC/USDT".to_string())
}

fn level_ids(book: &OrderBook, asks: bool, level: usize) -> Vec<u128> {
    let side = if asks { &book.asks } else { &book.bids };
    side[level].orders.iter().map(|o| o.id).collect()
}

#[test]
fn simple_cross() {
    let mut b = book();
    let (t0, sell) = b.submit(limit(1, OrderType::Sell, 10, 100));
    assert!(t0.is_empty());
    assert_eq!(sell.status, OrderStatus::Pending);
    let (trades, buy) = b.submit(limit(2, OrderType::Buy, 10, 100));
    assert_eq!(trades.len(), 1);
    assert_eq!(trades[0].amount, units(10));
    assert_eq!(trades[0].price, Money::from_whole(100));
    assert_eq!(trades[0].buy_order_id, 2);
    assert_eq!(trades[0].sell_order_id, 1);
    assert_eq!(trades[0].buyer_id, 1002);
    assert_eq!(trades[0].seller_id, 1001);
    assert_eq!(trades[0].pair, "BTC/USDT");
    assert_eq!(buy.status, OrderStatus::Filled);
    assert_eq!(buy.filled, units(10));
    assert!(b.bids.is_empty());
    assert!(b.asks.is_empty());
    assert_eq!(b.get_best_bid(), None);
    assert_eq!(b.get_best_ask(), None);
}

#[test]
fn price_improvement_for_taker() {
    let mut b = book();
    b.add_order(limit(1, OrderType::Sell, 20, 100));
    let (trades, buy) = b.submit(limit(2, OrderType::Buy, 10, 105));
    assert_eq!(trades.len(), 1);
    assert_eq!(trades[0].price, Money::from_whole(100));
    assert_eq!(trades[0].amount, units(10));
    assert_eq!(buy.status, OrderStatus::Filled);
    assert_eq!(b.get_best_ask(), Some(Money::from_whole(100)));
    assert_eq!(b.asks.len(), 1);
    let resting = &b.asks[0].orders[0];
    assert_eq!(resting.id, 1);
    assert_eq!(resting.status, OrderStatus::Partial);
    assert_eq!(resting.remaining_amount(), units(10));
    assert!(b.bids.is_empty());
}

#[test]
fn partial_fill_across_two_levels() {
    let mut b = book();
    b.add_order(limit(1, OrderType::Sell, 10, 100));
    b.add_order(limit(2, OrderType::Sell, 20, 101));
    let (trades, buy) = b.submit(limit(3, OrderType::Buy, 25, 101));
    assert_eq!(trades.len(), 2);
    assert_eq!(trades[0].amount, units(10));
    assert_eq!(trades[0].price, Money::from_whole(100));
    assert_eq!(trades[0].sell_order_id, 1);
    assert_eq!(trades[1].amount, units(15));
    assert_eq!(trades[1].price, Money::from_whole(101));
    assert_eq!(trades[1].sell_order_id, 2);
    assert_eq!(buy.remaining_amount(), Money::zero());
    assert_eq!(buy.status, OrderStatus::Filled);
    assert_eq!(b.asks.len(), 1);
    assert_eq!(b.asks[0].price, Money::from_whole(101));
    assert_eq!(b.asks[0].orders.len(), 1);
    assert_eq!(b.asks[0].orders[0].remaining_amount(), units(5));
    assert!(b.bids.is_empty());
}

#[test]
fn fifo_within_level() {
    let mut b = book();
    b.add_order(limit(1, OrderType::Sell, 10, 100));
    b.add_order(limit(2, OrderType::Sell, 10, 100));
    assert_eq!(level_ids(&b, true, 0), vec![1, 2]);
    let trades = b.add_order(limit(3, OrderType::Buy, 10, 100));
    assert_eq!(trades.len(), 1);
    assert_eq!(trades[0].sell_order_id, 1);
    assert_eq!(level_ids(&b, true, 0), vec![2]);
    let left = &b.asks[0].orders[0];
    assert_eq!(left.filled, Money::zero());
    assert_eq!(left.status, OrderStatus::Pending);
}

#[test]
fn market_order_with_insufficient_liquidity() {
    let mut b = book();
    b.add_order(limit(1, OrderType::Buy, 10, 90));
    let (trades, order) = b.submit(market(2, OrderType::Buy, 10));
    assert!(trades.is_empty());
    assert_eq!(order.status, OrderStatus::Cancelled);
    assert_eq!(order.filled, Money::zero());
    assert!(b.asks.is_empty());
    assert_eq!(b.bids.len(), 1);
    assert_eq!(level_ids(&b, false, 0), vec![1]);
}

#[test]
fn market_order_partly_filled_drops_the_rest() {
    let mut b = book();
    b.add_order(limit(1, OrderType::Sell, 10, 100));
    let (trades, order) = b.submit(market(2, OrderType::Buy, 30));
    assert_eq!(trades.len(), 1);
    assert_eq!(trades[0].amount, units(10));
    assert_eq!(order.status, OrderStatus::Partial);
    assert_eq!(order.filled, units(10));
    assert!(b.asks.is_empty());
    assert!(b.bids.is_empty());
}

#[test]
fn market_sell_crosses_every_bid_price() {
    let mut b = book();
    b.add_order(limit(1, OrderType::Buy, 10, 90));
    b.add_order(limit(2, OrderType::Buy, 10, 95));
    let (trades, order) = b.submit(market(3, OrderType::Sell, 20));
    assert_eq!(trades.len(), 2);
    assert_eq!(trades[0].price, Money::from_whole(95));
    assert_eq!(trades[0].buy_order_id, 2);
    assert_eq!(trades[0].sell_order_id, 3);
    assert_eq!(trades[1].price, Money::from_whole(90));
    assert_eq!(trades[1].buy_order_id, 1);
    assert_eq!(order.status, OrderStatus::Filled);
    assert!(b.bids.is_empty());
}

#[test]
fn cancel_of_resting() {
    let mut b = book();
    b.add_order(limit(1, OrderType::Sell, 10, 100));
    let gone = b.cancel_order(1);
    let gone = gone.expect("the order rests on the book");
    assert_eq!(gone.id, 1);
    assert_eq!(gone.status, OrderStatus::Cancelled);
    assert_eq!(b.get_best_ask(), None);
    assert!(b.asks.is_empty());
    assert!(b.cancel_order(1).is_none());
    assert!(b.asks.is_empty());
    assert!(b.bids.is_empty());
}

#[test]
fn cancel_in_the_middle_keeps_the_others_in_order() {
    let mut b = book();
    b.add_order(limit(1, OrderType::Buy, 10, 90));
    b.add_order(limit(2, OrderType::Buy, 10, 90));
    b.add_order(limit(3, OrderType::Buy, 10, 90));
    b.add_order(limit(4, OrderType::Buy, 10, 95));
    assert_eq!(b.cancel_order(2).map(|o| o.id), Some(2));
    assert_eq!(b.bids.len(), 2);
    assert_eq!(level_ids(&b, false, 0), vec![1, 3]);
    assert_eq!(level_ids(&b, false, 1), vec![4]);
    assert!(b.cancel_order(99).is_none());
    assert_eq!(b.get_best_bid(), Some(Money::from_whole(95)));
    assert_eq!(b.cancel_order(4).map(|o| o.id), Some(4));
    assert_eq!(b.get_best_bid(), Some(Money::from_whole(90)));
}

#[test]
fn limit_order_below_the_best_ask_rests() {
    let mut b = book();
    b.add_order(limit(1, OrderType::Sell, 10, 100));
    let (trades, order) = b.submit(limit(2, OrderType::Buy, 10, 99));
    assert!(trades.is_empty());
    assert_eq!(order.status, OrderStatus::Pending);
    assert_eq!(b.get_best_bid(), Some(Money::from_whole(99)));
    assert_eq!(b.get_best_ask(), Some(Money::from_whole(100)));
    assert_eq!(b.get_spread(), Some(Money::from_whole(1)));
}

#[test]
fn residual_of_a_limit_order_rests_as_partial() {
    let mut b = book();
    b.add_order(limit(1, OrderType::Sell, 10, 100));
    let (trades, order) = b.submit(limit(2, OrderType::Buy, 30, 100));
    assert_eq!(trades.len(), 1);
    assert_eq!(order.status, OrderStatus::Partial);
    assert_eq!(order.filled, units(10));
    assert!(b.asks.is_empty());
    assert_eq!(b.bids.len(), 1);
    assert_eq!(b.bids[0].price, Money::from_whole(100));
    assert_eq!(b.bids[0].orders[0].id, 2);
    assert_eq!(b.bids[0].orders[0].status, OrderStatus::Partial);
    assert_eq!(b.bids[0].orders[0].remaining_amount(), units(20));
}

#[test]
fn sides_are_kept_from_worst_to_best() {
    let mut b = book();
    b.add_order(limit(1, OrderType::Sell, 10, 102));
    b.add_order(limit(2, OrderType::Sell, 10, 100));
    b.add_order(limit(3, OrderType::Sell, 10, 101));
    b.add_order(limit(4, OrderType::Buy, 10, 97));
    b.add_order(limit(5, OrderType::Buy, 10, 99));
    b.add_order(limit(6, OrderType::Buy, 10, 98));
    let asks: Vec<Money> = b.asks.iter().map(|l| l.price).collect();
    let bids: Vec<Money> = b.bids.iter().map(|l| l.price).collect();
    assert_eq!(asks, vec![Money::from_whole(102), Money::from_whole(101), Money::from_whole(100)]);
    assert_eq!(bids, vec![Money::from_whole(97), Money::from_whole(98), Money::from_whole(99)]);
    assert!(b.get_best_bid().unwrap().units < b.get_best_ask().unwrap().units);
    assert!(b.bids.iter().all(|l| !l.orders.is_empty()));
    assert!(b.asks.iter().all(|l| !l.orders.is_empty()));
}

#[test]
fn taker_walks_prices_from_best_to_worse() {
    let mut b = book();
    b.add_order(limit(1, OrderType::Sell, 10, 102));
    b.add_order(limit(2, OrderType::Sell, 10, 100));
    b.add_order(limit(3, OrderType::Sell, 10, 101));
    b.add_order(limit(4, OrderType::Sell, 10, 100));
    let (trades, order) = b.submit(limit(9, OrderType::Buy, 35, 102));
    let makers: Vec<u128> = trades.iter().map(|t| t.sell_order_id).collect();
    let prices: Vec<Money> = trades.iter().map(|t| t.price).collect();
    assert_eq!(makers, vec![2, 4, 3, 1]);
    assert_eq!(
        prices,
        vec![
            Money::from_whole(100),
            Money::from_whole(100),
            Money::from_whole(101),
            Money::from_whole(102)
        ]
    );
    let sum: i128 = trades.iter().map(|t| t.amount.units).sum();
    assert_eq!(sum, order.filled.units);
    assert_eq!(order.filled, units(35));
    assert_eq!(b.asks[0].orders[0].remaining_amount(), units(5));
}

#[test]
fn depth_sums_what_is_left_at_each_price() {
    let mut b = book();
    b.add_order(limit(1, OrderType::Sell, 10, 101));
    b.add_order(limit(2, OrderType::Sell, 25, 101));
    b.add_order(limit(3, OrderType::Sell, 10, 103));
    b.add_order(limit(4, OrderType::Buy, 10, 99));
    b.add_order(limit(5, OrderType::Buy, 10, 98));
    b.add_order(limit(6, OrderType::Buy, 5, 99));
    b.add_order(limit(7, OrderType::Buy, 5, 101));
    assert_eq!(
        b.ask_depth(),
        vec![(Money::from_whole(101), units(30)), (Money::from_whole(103), units(10))]
    );
    assert_eq!(
        b.bid_depth(),
        vec![(Money::from_whole(99), units(15)), (Money::from_whole(98), units(10))]
    );
    let shot = b.snapshot();
    assert_eq!(shot.pair, "BTC/USDT");
    assert_eq!(shot.bids, b.bid_depth());
    assert_eq!(shot.asks, b.ask_depth());
    assert_eq!(shot.best_bid, Some(Money::from_whole(99)));
    assert_eq!(shot.best_ask, Some(Money::from_whole(101)));
    assert_eq!(shot.spread, Some(Money::from_whole(2)));
}

#[test]
fn order_lifecycle() {
    let mut o = limit(1, OrderType::Buy, 10, 100);
    assert!(o.is_buy() && !o.is_sell() && o.is_limit() && !o.is_market());
    assert_eq!(o.remaining_amount(), units(10));
    o.fill(units(4));
    assert_eq!(o.status, OrderStatus::Partial);
    assert_eq!(o.filled, units(4));
    assert_eq!(o.remaining_amount(), units(6));
    o.fill(units(6));
    assert_eq!(o.status, OrderStatus::Filled);
    assert_eq!(o.remaining_amount(), Money::zero());
    o.cancel();
    assert_eq!(o.status, OrderStatus::Cancelled);
    let copy = o.clone();
    assert_eq!(copy.id, o.id);
    assert_eq!(copy.pair, o.pair);
    assert_eq!(copy.filled, o.filled);
}

#[test]
fn new_orders_and_trades_draw_fresh_identifiers() {
    let a = Order::new(7, "ETH/USDT".to_string(), OrderType::Sell, OrderKind::Limit, units(10), Some(Money::from_whole(5)));
    let b = Order::new(8, "ETH/USDT".to_string(), OrderType::Buy, OrderKind::Market, units(10), None);
    assert_ne!(a.id, b.id);
    assert_eq!(a.user_id, 7);
    assert_eq!(a.pair, "ETH/USDT");
    assert_eq!(a.filled, Money::zero());
    assert_eq!(a.status, OrderStatus::Pending);
    assert!(a.created_at > 0);
    assert!(b.is_market() && b.price.is_none());
    let t = Trade::new(&b, &a, units(10), Money::from_whole(5));
    let u = Trade::new(&b, &a, units(10), Money::from_whole(5));
    assert_ne!(t.id, u.id);
    assert_eq!(t.buy_order_id, b.id);
    assert_eq!(t.sell_order_id, a.id);
    assert_eq!(t.buyer_id, 8);
    assert_eq!(t.seller_id, 7);
    assert_eq!(t.pair, "ETH/USDT");
    assert!(t.timestamp > 0);
    let v = Trade::from_parts(3, 4, &b, &a, units(2), Money::from_whole(6));
    assert_eq!((v.id, v.timestamp, v.amount, v.price), (3, 4, units(2), Money::from_whole(6)));
}

#[test]
fn money_arithmetic_is_exact() {
    assert_eq!(Money::from_whole(3).units, 300_000_000);
    assert_eq!(Money::from_whole(-2).units, -200_000_000);
    assert_eq!(Money::from_units(5).checked_add(Money::from_units(7)), Some(Money::from_units(12)));
    assert_eq!(Money::from_units(i128::MAX).checked_add(Money::from_units(1)), None);
    assert_eq!(Money::from_units(5).checked_sub(Money::from_units(7)), Some(Money::from_units(-2)));
    assert_eq!(Money::from_units(i128::MIN).checked_sub(Money::from_units(1)), None);
    assert_eq!(Money::from_units(5).min(Money::from_units(7)), Money::from_units(5));
    assert_eq!(Money::from_units(9).min(Money::from_units(7)), Money::from_units(7));
    assert!(Money::from_units(1).is_positive());
    assert!(!Money::zero().is_positive());
}

#[test]
fn decimals_are_rescaled_exactly_or_refused() {
    assert_eq!(Money::from_scaled(25, 1), Some(Money::from_units(250_000_000)));
    assert_eq!(Money::from_scaled(100, 0), Some(Money::from_whole(100)));
    assert_eq!(Money::from_scaled(12345678, 8), Some(Money::from_units(12345678)));
    assert_eq!(Money::from_scaled(1234567800, 10), Some(Money::from_units(12345678)));
    assert_eq!(Money::from_scaled(-1234567800, 10), Some(Money::from_units(-12345678)));
    assert_eq!(Money::from_scaled(-15, 1), Some(Money::from_units(-150_000_000)));
    assert_eq!(Money::from_scaled(1, 9), None);
    assert_eq!(Money::from_scaled(1234567801, 10), None);
    assert_eq!(Money::from_scaled(0, 28), Some(Money::zero()));
    assert_eq!(Money::from_scaled(i128::MAX, 0), None);
    assert_eq!(Money::from_scaled(i128::MIN, 7), None);
}

#[test]
fn market_order_ignores_a_price_that_it_carries() {
    let mut b = book();
    b.add_order(limit(1, OrderType::Sell, 10, 100));
    let mut taker = market(2, OrderType::Buy, 20);
    taker.price = Some(Money::from_whole(50));
    let (trades, order) = b.submit(taker);
    assert_eq!(trades.len(), 1);
    assert_eq!(trades[0].price, Money::from_whole(100));
    assert_eq!(order.status, OrderStatus::Partial);
    assert!(b.bids.is_empty() && b.asks.is_empty());
}

#[test]
fn cancel_looks_through_each_side_from_the_lowest_price_up() {
    let mut b = book();
    b.add_order(limit(7, OrderType::Sell, 10, 101));
    b.add_order(limit(7, OrderType::Sell, 20, 100));
    b.add_order(limit(8, OrderType::Buy, 10, 90));
    b.add_order(limit(8, OrderType::Buy, 20, 91));
    let ask = b.cancel_order(7).expect("resting");
    assert_eq!(ask.price, Some(Money::from_whole(100)));
    assert_eq!(b.get_best_ask(), Some(Money::from_whole(101)));
    let bid = b.cancel_order(8).expect("resting");
    assert_eq!(bid.price, Some(Money::from_whole(90)));
    assert_eq!(b.get_best_bid(), Some(Money::from_whole(91)));
    assert!(b.cancel_order(7).is_some());
    assert!(b.cancel_order(7).is_none());
}
