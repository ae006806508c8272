use order_engine::engine::OrderEngine;
use order_engine::gateway::{
    decode_order, fill_notices, handle_cancel_order, handle_get_orderbook, handle_message,
    handle_new_order, parse_order_kind, parse_order_type, place_order, CancelOrderData,
    IncomingMessage, OrderBookRequest, OrderData, OutgoingMessage,
};
use order_engine::money::Money;
use order_engine::order::{Order, OrderKind, OrderStatus, OrderType, Trade};

const MAKER: &str = "00000000-0000-0000-0000-0000000000a1";
const TAKER: &str = "00000000-0000-0000-0000-0000000000b2";
const USER: &str = "67e55044-10b1-426f-9247-bb680e5fe0c8";

fn request(id: Option<&str>, side: &str, kind: &str, amount: i64, price: Option<i64>) -> OrderData {
    OrderData {
        id: id.map(|s| s.to_string()),
        user_id: USER.to_string(),
        pair: "BTC/USDT".to_string(),
        order_type: side.to_string(),
        order_kind: kind.to_string(),
        amount: Money::from_whole(amount),
        price: price.map(Money::from_whole),
        timestamp: Some(5),
    }
}

fn error_text(m: &OutgoingMessage) -> Option<&str> {
    match m {
        OutgoingMessage::Error { message } => Some(message.as_str()),
        _ => None,
    }
}

#[test]
fn wire_words_for_side_and_kind() {
    assert_eq!(parse_order_type(&"buy".to_string()), Some(OrderType::Buy));
    assert_eq!(parse_order_type(&"sell".to_string()), Some(OrderType::Sell));
    assert_eq!(parse_order_type(&"Buy".to_string()), None);
    assert_eq!(parse_order_type(&"".to_string()), None);
    assert_eq!(parse_order_kind(&"market".to_string()), Some(OrderKind::Market));
    assert_eq!(parse_order_kind(&"limit".to_string()), Some(OrderKind::Limit));
    assert_eq!(parse_order_kind(&"stop".to_string()), None);
}

#[test]
fn decoding_reads_identifiers_and_ignores_the_client_time() {
    let order = decode_order(request(Some(MAKER), "sell", "limit", 2, Some(100)), 77, 1234)
        .expect("decodable");
    assert_eq!(order.id, 0xa1);
    assert_eq!(order.user_id, 0x67e55044_10b1_426f_9247_bb680e5fe0c8);
    assert_eq!(order.pair, "BTC/USDT");
    assert_eq!(order.order_type, OrderType::Sell);
    assert_eq!(order.order_kind, OrderKind::Limit);
    assert_eq!(order.amount, Money::from_whole(2));
    assert_eq!(order.price, Some(Money::from_whole(100)));
    assert_eq!(order.filled, Money::zero());
    assert_eq!(order.status, OrderStatus::Pending);
    assert_eq!(order.created_at, 1234);
    let unnamed = decode_order(request(None, "buy", "market", 2, None), 77, 1234).expect("decodable");
    assert_eq!(unnamed.id, 77);
    assert!(decode_order(request(Some("not-an-id"), "buy", "limit", 1, Some(1)), 1, 1).is_err());
    assert!(decode_order(request(None, "hold", "limit", 1, Some(1)), 1, 1).is_err());
    assert!(decode_order(request(None, "buy", "iceberg", 1, Some(1)), 1, 1).is_err());
    let mut stranger = request(None, "buy", "limit", 1, Some(1));
    stranger.user_id = "nobody".to_string();
    assert!(decode_order(stranger, 1, 1).is_err());
}

#[test]
fn each_trade_is_reported_once_to_the_taker() {
    let mut engine = OrderEngine::new(1);
    assert!(handle_new_order(&mut engine, request(Some(MAKER), "sell", "limit", 1, Some(100))).is_empty());
    assert!(handle_new_order(&mut engine, request(None, "sell", "limit", 2, Some(101))).is_empty());
    let replies = handle_new_order(&mut engine, request(Some(TAKER), "buy", "limit", 2, Some(101)));
    assert_eq!(replies.len(), 2);
    match &replies[0] {
        OutgoingMessage::OrderFilled { data } => {
            assert_eq!(data.order_id, TAKER);
            assert_eq!(data.filled_amount, Money::from_whole(1));
            assert_eq!(data.executed_price, Money::from_whole(100));
        }
        _ => panic!("a fill notice comes first"),
    }
    match &replies[1] {
        OutgoingMessage::OrderFilled { data } => {
            assert_eq!(data.order_id, TAKER);
            assert_eq!(data.filled_amount, Money::from_whole(1));
            assert_eq!(data.executed_price, Money::from_whole(101));
        }
        _ => panic!("a fill notice comes second"),
    }
}

#[test]
fn undecodable_and_invalid_orders_are_answered_by_one_error() {
    let mut engine = OrderEngine::new(1);
    let replies = handle_new_order(&mut engine, request(None, "hold", "limit", 1, Some(1)));
    assert_eq!(replies.len(), 1);
    assert_eq!(error_text(&replies[0]), Some("Invalid order type: hold"));
    let replies = handle_new_order(&mut engine, request(None, "buy", "limit", 0, Some(1)));
    assert_eq!(replies.len(), 1);
    assert_eq!(
        error_text(&replies[0]),
        Some("Failed to process order: Invalid order: amount must be positive")
    );
    let book = engine.get_orderbook("BTC/USDT").expect("seeded");
    assert!(book.bids.is_empty() && book.asks.is_empty());
}

#[test]
fn cancel_requests_are_answered() {
    let mut engine = OrderEngine::new(1);
    handle_new_order(&mut engine, request(Some(MAKER), "sell", "limit", 1, Some(100)));
    let cancel = |id: &str, pair: &str| CancelOrderData { order_id: id.to_string(), pair: pair.to_string() };
    match handle_cancel_order(&mut engine, cancel(MAKER, "BTC/USDT")) {
        OutgoingMessage::OrderCancelled { data } => {
            assert_eq!(data.order_id, MAKER);
            assert_eq!(data.reason, "User requested");
        }
        _ => panic!("the order was resting"),
    }
    let again = handle_cancel_order(&mut engine, cancel(MAKER, "BTC/USDT"));
    assert_eq!(error_text(&again), Some("Order not found"));
    let unknown = handle_cancel_order(&mut engine, cancel(MAKER, "XRP/USDT"));
    assert_eq!(
        error_text(&unknown),
        Some("Failed to cancel order: Order book not found for pair: XRP/USDT")
    );
    let unreadable = handle_cancel_order(&mut engine, cancel("zz", "BTC/USDT"));
    assert_eq!(error_text(&unreadable), Some("Invalid order id: zz"));
}

#[test]
fn book_requests_are_answered() {
    let mut engine = OrderEngine::new(1);
    handle_new_order(&mut engine, request(None, "sell", "limit", 1, Some(100)));
    handle_new_order(&mut engine, request(None, "buy", "limit", 3, Some(98)));
    match handle_get_orderbook(&engine, OrderBookRequest { pair: "BTC/USDT".to_string() }) {
        OutgoingMessage::OrderBookSnapshot { data } => {
            assert_eq!(data.pair, "BTC/USDT");
            assert_eq!(data.bids, vec![(Money::from_whole(98), Money::from_whole(3))]);
            assert_eq!(data.asks, vec![(Money::from_whole(100), Money::from_whole(1))]);
            assert_eq!(data.best_bid, Some(Money::from_whole(98)));
            assert_eq!(data.best_ask, Some(Money::from_whole(100)));
            assert_eq!(data.spread, Some(Money::from_whole(2)));
        }
        _ => panic!("the pair has a book"),
    }
    let missing = handle_get_orderbook(&engine, OrderBookRequest { pair: "XRP/USDT".to_string() });
    assert_eq!(error_text(&missing), Some("Order book not found for pair: XRP/USDT"));
}

#[test]
fn requests_are_dispatched_by_kind() {
    let mut engine = OrderEngine::new(1);
    let placed = handle_message(
        &mut engine,
        IncomingMessage::NewOrder { data: request(Some(MAKER), "buy", "limit", 1, Some(50)) },
    );
    assert!(placed.is_empty());
    let shown = handle_message(
        &mut engine,
        IncomingMessage::GetOrderBook { data: OrderBookRequest { pair: "BTC/USDT".to_string() } },
    );
    assert_eq!(shown.len(), 1);
    assert!(matches!(shown[0], OutgoingMessage::OrderBookSnapshot { .. }));
    let gone = handle_message(
        &mut engine,
        IncomingMessage::CancelOrder {
            data: CancelOrderData { order_id: MAKER.to_string(), pair: "BTC/USDT".to_string() },
        },
    );
    assert_eq!(gone.len(), 1);
    assert!(matches!(gone[0], OutgoingMessage::OrderCancelled { .. }));
}

#[test]
fn notices_and_placement_from_plain_values() {
    let buy = Order::from_parts(1, 0, 10, "BTC/USDT".to_string(), OrderType::Buy, OrderKind::Limit, Money::from_whole(1), Some(Money::from_whole(9)));
    let sell = Order::from_parts(2, 0, 11, "BTC/USDT".to_string(), OrderType::Sell, OrderKind::Limit, Money::from_whole(1), Some(Money::from_whole(9)));
    let trades = vec![Trade::from_parts(5, 6, &buy, &sell, Money::from_whole(1), Money::from_whole(9))];
    let notices = fill_notices(1, &trades);
    assert_eq!(notices.len(), 1);
    match &notices[0] {
        OutgoingMessage::OrderFilled { data } => {
            assert_eq!(data.order_id, "00000000-0000-0000-0000-000000000001");
            assert_eq!(data.filled_amount, Money::from_whole(1));
            assert_eq!(data.executed_price, Money::from_whole(9));
        }
        _ => panic!("a fill notice"),
    }
    let mut engine = OrderEngine::new(1);
    assert!(place_order(&mut engine, sell).is_empty());
    let replies = place_order(&mut engine, buy);
    assert_eq!(replies.len(), 1);
    assert!(matches!(replies[0], OutgoingMessage::OrderFilled { .. }));
}
