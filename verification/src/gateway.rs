//! The gateway's decisions: from a decoded request to the engine call that it
//! stands for, and from the engine's answer to the messages to send back.

use vstd::prelude::*;
use vstd::string::StringExecFns;
use crate::money::Money;
use crate::order::{Order, OrderKind, OrderStatus, OrderType, Trade, Fill, fresh_id, now_micros};
use crate::orderbook::{submit_spec, cancel_spec, fills_of};
use crate::engine::{OrderEngine, OrderBookSnapshot, book_for, snapshot_shows, refusal};

verus! {

/// A request to place an order, as decoded from the wire.
#[derive(Debug)]
pub struct OrderData {
    pub id: Option<String>,
    pub user_id: String,
    pub pair: String,
    pub order_type: String,
    pub order_kind: String,
    pub amount: Money,
    pub price: Option<Money>,
    pub timestamp: Option<i64>,
}

/// A request to cancel an order.
#[derive(Debug)]
pub struct CancelOrderData {
    pub order_id: String,
    pub pair: String,
}

/// A request for the state of a book.
#[derive(Debug)]
pub struct OrderBookRequest {
    pub pair: String,
}

/// A request, by kind.
#[derive(Debug)]
#[allow(inconsistent_fields)]
pub enum IncomingMessage {
    NewOrder { data: OrderData },
    CancelOrder { data: CancelOrderData },
    GetOrderBook { data: OrderBookRequest },
}

/// The notice of one execution of an order.
#[derive(Debug)]
pub struct OrderFilledData {
    pub order_id: String,
    pub filled_amount: Money,
    pub executed_price: Money,
}

/// The notice of an order's progress.
#[derive(Debug)]
pub struct OrderPartialData {
    pub order_id: String,
    pub partial_fill: Money,
    pub remaining_amount: Money,
}

/// The notice of a cancellation.
#[derive(Debug)]
pub struct OrderCancelledData {
    pub order_id: String,
    pub reason: String,
}

/// The state of a book as sent out.
#[derive(Debug)]
pub struct OrderBookSnapshotData {
    pub pair: String,
    pub bids: Vec<(Money, Money)>,
    pub asks: Vec<(Money, Money)>,
    pub best_bid: Option<Money>,
    pub best_ask: Option<Money>,
    pub spread: Option<Money>,
}

/// A message to send back, by kind.
#[derive(Debug)]
#[allow(inconsistent_fields)]
pub enum OutgoingMessage {
    OrderFilled { data: OrderFilledData },
    OrderPartial { data: OrderPartialData },
    OrderCancelled { data: OrderCancelledData },
    OrderBookSnapshot { data: OrderBookSnapshotData },
    Error { message: String },
}

/// The identifier that `uuid` reads from a text, if it reads one.
pub uninterp spec fn id_of_text(text: Seq<char>) -> Option<u128>;

/// The text that `uuid` writes for an identifier.
pub uninterp spec fn text_of_id(id: u128) -> Seq<char>;

/// Reads an identifier with `uuid::Uuid::parse_str` and hands on its 128-bit
/// value, or `None` where the text is no identifier. What is read depends on
/// the text alone.
#[verifier::external_body]
fn parse_id(text: &str) -> (id: Option<u128>)
    ensures
        id == id_of_text(text@),
{
    uuid::Uuid::parse_str(text).ok().map(|u| u.as_u128())
}

/// Writes an identifier as `uuid::Uuid` displays it (`Uuid::from_u128`, then
/// its `Display`). The text depends on the identifier alone.
#[verifier::external_body]
fn id_text(id: u128) -> (text: String)
    ensures
        text@ == text_of_id(id),
{
    uuid::Uuid::from_u128(id).to_string()
}

/// The side that a wire text names.
pub open spec fn side_of(text: Seq<char>) -> Option<OrderType> {
    if text == "buy"@ {
        Some(OrderType::Buy)
    } else if text == "sell"@ {
        Some(OrderType::Sell)
    } else {
        None
    }
}

/// The kind of order that a wire text names.
pub open spec fn kind_of(text: Seq<char>) -> Option<OrderKind> {
    if text == "market"@ {
        Some(OrderKind::Market)
    } else if text == "limit"@ {
        Some(OrderKind::Limit)
    } else {
        None
    }
}

/// Reads the side of an order: `buy` or `sell`, nothing else.
pub fn parse_order_type(text: &String) -> (side: Option<OrderType>)
    ensures
        side == side_of(text@),
{
    if *text == "buy".to_owned() {
        Some(OrderType::Buy)
    } else if *text == "sell".to_owned() {
        Some(OrderType::Sell)
    } else {
        None
    }
}

/// Reads the kind of an order: `market` or `limit`, nothing else.
pub fn parse_order_kind(text: &String) -> (kind: Option<OrderKind>)
    ensures
        kind == kind_of(text@),
{
    if *text == "market".to_owned() {
        Some(OrderKind::Market)
    } else if *text == "limit".to_owned() {
        Some(OrderKind::Limit)
    } else {
        None
    }
}

/// The identifier that a request asks for: the one it names, or `fresh`
/// where it names none; nothing where it names one that cannot be read.
pub open spec fn wanted_id(data: OrderData, fresh: u128) -> Option<u128> {
    match data.id {
        Some(text) => id_of_text(text@),
        None => Some(fresh),
    }
}

/// A request can be decoded: its identifiers, its side and its kind can all
/// be read.
pub open spec fn decodable(data: OrderData) -> bool {
    &&& wanted_id(data, 0).is_some()
    &&& id_of_text(data.user_id@).is_some()
    &&& side_of(data.order_type@).is_some()
    &&& kind_of(data.order_kind@).is_some()
}

/// The order that a request stands for, given the identifier to use where it
/// names none and the time of intake. The time that the request itself names
/// plays no part.
pub open spec fn decoded(data: OrderData, fresh: u128, now: i64) -> Order {
    Order {
        id: wanted_id(data, fresh).unwrap(),
        user_id: id_of_text(data.user_id@).unwrap(),
        pair: data.pair,
        order_type: side_of(data.order_type@).unwrap(),
        order_kind: kind_of(data.order_kind@).unwrap(),
        amount: data.amount,
        price: data.price,
        filled: Money { units: 0 },
        status: OrderStatus::Pending,
        created_at: now,
    }
}

/// What is said of a request that cannot be decoded: the first of its parts
/// that cannot be read, in the order identifier, user, side, kind.
pub open spec fn decode_refusal(data: OrderData) -> Seq<char> {
    if wanted_id(data, 0).is_none() {
        "Invalid order id: "@ + data.id.unwrap()@
    } else if id_of_text(data.user_id@).is_none() {
        "Invalid user id: "@ + data.user_id@
    } else if side_of(data.order_type@).is_none() {
        "Invalid order type: "@ + data.order_type@
    } else {
        "Invalid order kind: "@ + data.order_kind@
    }
}

/// Decodes a request into an order, or says what could not be read.
pub fn decode_order(data: OrderData, fresh: u128, now: i64) -> (order: Result<Order, String>)
    ensures
        order.is_ok() == decodable(data),
        order.is_ok() ==> order.unwrap() == decoded(data, fresh, now),
        order.is_err() ==> order.unwrap_err()@ == decode_refusal(data),
{
    let id: u128 = match &data.id {
        Some(text) => match parse_id(text.as_str()) {
            Some(id) => id,
            None => {
                return Err(String::from_str("Invalid order id: ").concat(text.as_str()));
            },
        },
        None => fresh,
    };
    let user_id: u128 = match parse_id(data.user_id.as_str()) {
        Some(id) => id,
        None => {
            return Err(String::from_str("Invalid user id: ").concat(data.user_id.as_str()));
        },
    };
    let order_type: OrderType = match parse_order_type(&data.order_type) {
        Some(side) => side,
        None => {
            return Err(String::from_str("Invalid order type: ").concat(data.order_type.as_str()));
        },
    };
    let order_kind: OrderKind = match parse_order_kind(&data.order_kind) {
        Some(kind) => kind,
        None => {
            return Err(String::from_str("Invalid order kind: ").concat(data.order_kind.as_str()));
        },
    };
    Ok(Order::from_parts(id, now, user_id, data.pair, order_type, order_kind, data.amount, data.price))
}

/// Message `m` is the notice of fill `f` for the order whose identifier is
/// written `id`.
pub open spec fn is_fill_notice(m: OutgoingMessage, id: Seq<char>, f: Fill) -> bool {
    match m {
        OutgoingMessage::OrderFilled { data } => {
            &&& data.order_id@ == id
            &&& data.filled_amount.units == f.amount
            &&& data.executed_price.units == f.price
        },
        _ => false,
    }
}

/// Messages `ms` are the notices of `fills`, one each and in their order.
pub open spec fn are_fill_notices(ms: Seq<OutgoingMessage>, id: Seq<char>, fills: Seq<Fill>) -> bool {
    &&& ms.len() == fills.len()
    &&& forall|k: int| 0 <= k < ms.len() ==> is_fill_notice(#[trigger] ms[k], id, fills[k])
}

/// Message `m` is the error message that says `text`.
pub open spec fn is_error(m: OutgoingMessage, text: Seq<char>) -> bool {
    m matches OutgoingMessage::Error { message } && message@ == text
}

/// Messages `ms` are the error message that says `text` and nothing else.
pub open spec fn is_one_error(ms: Seq<OutgoingMessage>, text: Seq<char>) -> bool {
    ms.len() == 1 && is_error(ms[0], text)
}

/// What is said of an order that the engine refused at intake.
pub open spec fn intake_refusal(order: Order) -> Seq<char> {
    "Failed to process order: "@ + ("Invalid order: "@ + refusal(order))
}

/// One notice for each trade of the order with identifier `order_id`.
pub fn fill_notices(order_id: u128, trades: &Vec<Trade>) -> (notices: Vec<OutgoingMessage>)
    ensures
        are_fill_notices(notices@, text_of_id(order_id), fills_of(trades@)),
{
    let n: usize = trades.len();
    let mut notices: Vec<OutgoingMessage> = Vec::new();
    let mut k: usize = 0;
    while k < n
        invariant
            k <= n,
            n == trades@.len(),
            are_fill_notices(notices@, text_of_id(order_id), fills_of(trades@).subrange(0, k as int)),
        decreases n - k,
    {
        let trade: &Trade = &trades[k];
        notices.push(
            OutgoingMessage::OrderFilled {
                data: OrderFilledData {
                    order_id: id_text(order_id),
                    filled_amount: trade.amount,
                    executed_price: trade.price,
                },
            },
        );
        k = k + 1;
    }
    assert(fills_of(trades@).subrange(0, n as int) =~= fills_of(trades@));
    notices
}

/// Registry `after` and messages `replies` are what placing the admissible
/// order `order` makes of registry `before`: the order was submitted to the
/// book of its pair, and there is one notice for each fill, in their order.
pub open spec fn placed(
    before: Map<Seq<char>, crate::orderbook::BookView>,
    after: Map<Seq<char>, crate::orderbook::BookView>,
    replies: Seq<OutgoingMessage>,
    order: Order,
) -> bool {
    let out = submit_spec(book_for(before, order.pair@), order);
    &&& after == before.insert(order.pair@, out.book)
    &&& are_fill_notices(replies, text_of_id(order.id), out.fills)
}

/// Hands an order to the engine and says what to send back: a notice for
/// each trade where the engine took the order in, one error message where it
/// refused it.
pub fn place_order(engine: &mut OrderEngine, order: Order) -> (replies: Vec<OutgoingMessage>)
    requires
        old(engine).wf(),
    ensures
        final(engine).wf(),
        order.admissible() ==> placed(old(engine)@, final(engine)@, replies@, order),
        !order.admissible() ==> final(engine)@ == old(engine)@ && is_one_error(
            replies@,
            intake_refusal(order),
        ),
{
    let order_id: u128 = order.id;
    match engine.add_order(order) {
        Ok(response) => fill_notices(order_id, &response.trades),
        Err(e) => {
            let message: String = String::from_str("Failed to process order: ").concat(
                e.message().as_str(),
            );
            let mut replies: Vec<OutgoingMessage> = Vec::new();
            replies.push(OutgoingMessage::Error { message });
            replies
        },
    }
}

/// Messages `replies` and registry `after` answer a request for a new order
/// on registry `before`: a request that cannot be decoded, or that stands for
/// an order that is not admissible, changes nothing and gets one error
/// message that says why; any other is placed, under some fresh identifier where it names
/// none and at some time of intake.
pub open spec fn order_answered(
    before: Map<Seq<char>, crate::orderbook::BookView>,
    after: Map<Seq<char>, crate::orderbook::BookView>,
    data: OrderData,
    replies: Seq<OutgoingMessage>,
) -> bool {
    if decodable(data) && decoded(data, 0, 0).admissible() {
        exists|fresh: u128, now: i64| placed(before, after, replies, #[trigger] decoded(data, fresh, now))
    } else if decodable(data) {
        after == before && is_one_error(replies, intake_refusal(decoded(data, 0, 0)))
    } else {
        after == before && is_one_error(replies, decode_refusal(data))
    }
}

/// Message `reply` and registry `after` answer a request to cancel on
/// registry `before`: where the identifier can be read and the pair has a
/// book, the order is cancelled in it, and the reply is the notice of that, or
/// an error message where the book holds no such order; otherwise nothing
/// changes and the reply is an error message.
pub open spec fn cancel_answered(
    before: Map<Seq<char>, crate::orderbook::BookView>,
    after: Map<Seq<char>, crate::orderbook::BookView>,
    data: CancelOrderData,
    reply: OutgoingMessage,
) -> bool {
    match id_of_text(data.order_id@) {
        Some(id) => if before.contains_key(data.pair@) {
            let out = cancel_spec(before[data.pair@], id);
            &&& after == before.insert(data.pair@, out.book)
            &&& match out.order {
                Some(_) => (reply matches OutgoingMessage::OrderCancelled { data: gone }
                    && gone.order_id@ == data.order_id@ && gone.reason@ == "User requested"@),
                None => is_error(reply, "Order not found"@),
            }
        } else {
            after == before && is_error(
                reply,
                "Failed to cancel order: "@ + ("Order book not found for pair: "@ + data.pair@),
            )
        },
        None => after == before && is_error(reply, "Invalid order id: "@ + data.order_id@),
    }
}

/// Message `reply` answers a request for the state of a book in `registry`:
/// the snapshot of the book, or an error message where the pair has none.
pub open spec fn book_answered(
    registry: Map<Seq<char>, crate::orderbook::BookView>,
    data: OrderBookRequest,
    reply: OutgoingMessage,
) -> bool {
    if registry.contains_key(data.pair@) {
        reply matches OutgoingMessage::OrderBookSnapshot { data: shown } && snapshot_shows(
            carried(shown),
            registry[data.pair@],
        )
    } else {
        is_error(reply, "Order book not found for pair: "@ + data.pair@)
    }
}

/// The snapshot that a message carries.
pub open spec fn carried(data: OrderBookSnapshotData) -> OrderBookSnapshot {
    OrderBookSnapshot {
        pair: data.pair,
        bids: data.bids,
        asks: data.asks,
        best_bid: data.best_bid,
        best_ask: data.best_ask,
        spread: data.spread,
    }
}

/// Takes in a request for a new order: decodes it, stamps it with a fresh
/// identifier where it names none and with the time of intake, hands it to
/// the engine, and says what to send back. A request that cannot be decoded
/// changes nothing and is answered by one error message.
pub fn handle_new_order(engine: &mut OrderEngine, data: OrderData) -> (replies: Vec<OutgoingMessage>)
    requires
        old(engine).wf(),
    ensures
        final(engine).wf(),
        order_answered(old(engine)@, final(engine)@, data, replies@),
{
    let fresh: u128 = fresh_id();
    let now: i64 = now_micros();
    match decode_order(data, fresh, now) {
        Ok(order) => {
            let ghost before = engine@;
            let replies = place_order(engine, order);
            proof {
                if order.admissible() {
                    assert(placed(before, engine@, replies@, decoded(data, fresh, now)));
                }
            }
            replies
        },
        Err(message) => {
            let mut replies: Vec<OutgoingMessage> = Vec::new();
            replies.push(OutgoingMessage::Error { message });
            replies
        },
    }
}

/// Takes in a request to cancel an order and says what to send back: the
/// notice of the cancellation where the order was resting, an error message
/// where the identifier cannot be read, the pair has no book, or the book
/// holds no such order.
pub fn handle_cancel_order(engine: &mut OrderEngine, data: CancelOrderData) -> (reply: OutgoingMessage)
    requires
        old(engine).wf(),
    ensures
        final(engine).wf(),
        cancel_answered(old(engine)@, final(engine)@, data, reply),
{
    let id: u128 = match parse_id(data.order_id.as_str()) {
        Some(id) => id,
        None => {
            return OutgoingMessage::Error {
                message: String::from_str("Invalid order id: ").concat(data.order_id.as_str()),
            };
        },
    };
    match engine.cancel_order(data.pair.as_str(), id) {
        Ok(Some(_)) => OutgoingMessage::OrderCancelled {
            data: OrderCancelledData {
                order_id: data.order_id,
                reason: "User requested".to_owned(),
            },
        },
        Ok(None) => OutgoingMessage::Error { message: "Order not found".to_owned() },
        Err(e) => OutgoingMessage::Error {
            message: String::from_str("Failed to cancel order: ").concat(e.message().as_str()),
        },
    }
}

/// Takes in a request for the state of a book and says what to send back:
/// the snapshot of the book, or an error message where the pair has none.
pub fn handle_get_orderbook(engine: &OrderEngine, data: OrderBookRequest) -> (reply: OutgoingMessage)
    requires
        engine.wf(),
    ensures
        book_answered(engine@, data, reply),
{
    match engine.get_orderbook_snapshot(data.pair.as_str()) {
        Some(snapshot) => OutgoingMessage::OrderBookSnapshot {
            data: OrderBookSnapshotData {
                pair: snapshot.pair,
                bids: snapshot.bids,
                asks: snapshot.asks,
                best_bid: snapshot.best_bid,
                best_ask: snapshot.best_ask,
                spread: snapshot.spread,
            },
        },
        None => OutgoingMessage::Error {
            message: String::from_str("Order book not found for pair: ").concat(data.pair.as_str()),
        },
    }
}

/// Takes in one request of any kind and says what to send back.
pub fn handle_message(engine: &mut OrderEngine, message: IncomingMessage) -> (replies: Vec<OutgoingMessage>)
    requires
        old(engine).wf(),
    ensures
        final(engine).wf(),
        match message {
            IncomingMessage::NewOrder { data } => order_answered(
                old(engine)@,
                final(engine)@,
                data,
                replies@,
            ),
            IncomingMessage::CancelOrder { data } => replies@.len() == 1 && cancel_answered(
                old(engine)@,
                final(engine)@,
                data,
                replies@[0],
            ),
            IncomingMessage::GetOrderBook { data } => replies@.len() == 1 && final(engine)@ == old(
                engine,
            )@ && book_answered(old(engine)@, data, replies@[0]),
        },
{
    match message {
        IncomingMessage::NewOrder { data } => handle_new_order(engine, data),
        IncomingMessage::CancelOrder { data } => {
            let reply = handle_cancel_order(engine, data);
            let mut replies: Vec<OutgoingMessage> = Vec::new();
            replies.push(reply);
            replies
        },
        IncomingMessage::GetOrderBook { data } => {
            let reply = handle_get_orderbook(engine, data);
            let mut replies: Vec<OutgoingMessage> = Vec::new();
            replies.push(reply);
            replies
        },
    }
}

} // verus!
