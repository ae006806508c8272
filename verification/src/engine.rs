//! The engine: a registry of order books by trading pair, with intake
//! validation and routing of each operation to the book of its pair.

use vstd::prelude::*;
use vstd::string::StringExecFns;
use dashmap::DashMap;
use crate::money::{Money, MAX_ORDER_UNITS};
use crate::order::{Order, OrderKind, OrderStatus, OrderType, Trade};
use crate::orderbook::{
    OrderBook, BookView, book_ok, submit_spec, cancel_spec, fills_of, quotes, depth, opposing,
    fills_fair, prices_worsen, total, opposite, best_first,
};
use crate::registry::{books, registry_new, registry_insert, registry_remove, registry_get, registry_keys};

verus! {

/// What an engine operation gives: its result, or the reason why not.
pub type EngineResult<T> = Result<T, EngineError>;

/// What the engine reports instead of a result.
#[derive(Debug)]
pub enum EngineError {
    /// No book exists for the pair named.
    OrderBookNotFound(String),
    /// The order was refused at intake, for the reason given.
    InvalidOrder(String),
    /// The engine could not carry the operation out.
    ProcessingError(String),
}

/// The text that describes an error.
pub open spec fn error_text(e: EngineError) -> Seq<char> {
    match e {
        EngineError::OrderBookNotFound(pair) => "Order book not found for pair: "@ + pair@,
        EngineError::InvalidOrder(reason) => "Invalid order: "@ + reason@,
        EngineError::ProcessingError(reason) => "Processing error: "@ + reason@,
    }
}

impl EngineError {
    /// The error described in words.
    pub fn message(&self) -> (text: String)
        ensures
            text@ == error_text(*self),
    {
        match self {
            EngineError::OrderBookNotFound(pair) => String::from_str(
                "Order book not found for pair: ",
            ).concat(pair.as_str()),
            EngineError::InvalidOrder(reason) => String::from_str("Invalid order: ").concat(
                reason.as_str(),
            ),
            EngineError::ProcessingError(reason) => String::from_str("Processing error: ").concat(
                reason.as_str(),
            ),
        }
    }
}

/// An operation addressed to the engine.
#[derive(Debug, Clone)]
pub enum EngineMessage {
    NewOrder(Order),
    CancelOrder(u128),
    GetOrderBook(String),
}

/// What a submission gave: the trades, and the order as it ended.
#[derive(Debug, Clone)]
pub struct EngineResponse {
    pub trades: Vec<Trade>,
    pub updated_order: Option<Order>,
}

/// The aggregated state of one book: each side's levels as price and open
/// amount, best price first, with the top of the book.
#[derive(Debug, Clone)]
pub struct OrderBookSnapshot {
    pub pair: String,
    pub bids: Vec<(Money, Money)>,
    pub asks: Vec<(Money, Money)>,
    pub best_bid: Option<Money>,
    pub best_ask: Option<Money>,
    pub spread: Option<Money>,
}

/// `top` is the price of the best level of `side`, or nothing where the side
/// is empty.
pub open spec fn is_best(top: Option<Money>, side: Seq<crate::orderbook::LevelView>) -> bool {
    &&& top.is_some() == (side.len() > 0)
    &&& top.is_some() ==> top.unwrap().units == side.last().price
}

/// Snapshot `s` shows `book`: its pair, the depth of both sides with the
/// amount at each price being the sum of what is left of the orders resting
/// there, the best prices, and their difference where both exist.
pub open spec fn snapshot_shows(s: OrderBookSnapshot, book: BookView) -> bool {
    &&& s.pair@ == book.pair
    &&& quotes(s.bids@) == depth(book.bids)
    &&& quotes(s.asks@) == depth(book.asks)
    &&& best_first(OrderType::Buy, quotes(s.bids@))
    &&& best_first(OrderType::Sell, quotes(s.asks@))
    &&& is_best(s.best_bid, book.bids)
    &&& is_best(s.best_ask, book.asks)
    &&& s.spread.is_some() == (book.bids.len() > 0 && book.asks.len() > 0)
    &&& s.spread.is_some() ==> s.spread.unwrap().units == book.asks.last().price
        - book.bids.last().price
}

impl OrderBook {
    /// The aggregated state of the book as it stands.
    pub fn snapshot(&self) -> (s: OrderBookSnapshot)
        requires
            self.wf(),
        ensures
            snapshot_shows(s, self@),
    {
        OrderBookSnapshot {
            pair: self.pair.clone(),
            bids: self.bid_depth(),
            asks: self.ask_depth(),
            best_bid: self.get_best_bid(),
            best_ask: self.get_best_ask(),
            spread: self.get_spread(),
        }
    }
}

/// The book of `pair` in `registry`, or the empty book where it has none yet.
pub open spec fn book_for(registry: Map<Seq<char>, BookView>, pair: Seq<char>) -> BookView {
    if registry.contains_key(pair) {
        registry[pair]
    } else {
        BookView { pair, bids: Seq::empty(), asks: Seq::empty() }
    }
}

/// The empty book of `pair`.
pub open spec fn empty_book(pair: Seq<char>) -> BookView {
    BookView { pair, bids: Seq::empty(), asks: Seq::empty() }
}

/// The books that a new engine starts with.
pub open spec fn seeded() -> Map<Seq<char>, BookView> {
    Map::empty().insert("BTC/USDT"@, empty_book("BTC/USDT"@)).insert(
        "ETH/USDT"@,
        empty_book("ETH/USDT"@),
    ).insert("SOL/USDT"@, empty_book("SOL/USDT"@)).insert("ADA/USDT"@, empty_book("ADA/USDT"@))
}

/// The reason for which an order that is not admissible is refused: the first
/// of the intake rules that it breaks.
pub open spec fn refusal(order: Order) -> Seq<char> {
    if order.amount.units <= 0 {
        "amount must be positive"@
    } else if order.amount.units > MAX_ORDER_UNITS {
        "amount is too large"@
    } else if order.filled.units != 0 {
        "order is already filled in part"@
    } else if order.status != OrderStatus::Pending {
        "order is not pending"@
    } else if order.price.is_some() {
        "price must be positive"@
    } else {
        "limit order without a price"@
    }
}

/// Checks an order at intake: its size is positive and within the largest
/// order size, nothing of it is filled yet, a price that it names is
/// positive, and it names one where it is a limit order.
pub fn validate(order: &Order) -> (checked: Result<(), EngineError>)
    ensures
        checked.is_ok() == order.admissible(),
        checked.is_err() ==> (checked.unwrap_err() matches EngineError::InvalidOrder(reason)
            && reason@ == refusal(*order)),
{
    if order.amount.units <= 0 {
        return Err(EngineError::InvalidOrder("amount must be positive".to_owned()));
    }
    if order.amount.units > MAX_ORDER_UNITS {
        return Err(EngineError::InvalidOrder("amount is too large".to_owned()));
    }
    if order.filled.units != 0 {
        return Err(EngineError::InvalidOrder("order is already filled in part".to_owned()));
    }
    match order.status {
        OrderStatus::Pending => {},
        _ => {
            return Err(EngineError::InvalidOrder("order is not pending".to_owned()));
        },
    }
    match order.price {
        Some(p) => if p.units <= 0 {
            Err(EngineError::InvalidOrder("price must be positive".to_owned()))
        } else {
            Ok(())
        },
        None => match order.order_kind {
            OrderKind::Limit => Err(EngineError::InvalidOrder("limit order without a price".to_owned())),
            OrderKind::Market => Ok(()),
        },
    }
}

/// The matching engine: one order book per trading pair.
pub struct OrderEngine {
    orderbooks: DashMap<String, OrderBook>,
    workers: usize,
}

impl View for OrderEngine {
    type V = Map<Seq<char>, BookView>;

    closed spec fn view(&self) -> Map<Seq<char>, BookView> {
        books(self.orderbooks)
    }
}

impl OrderEngine {
    /// Every book satisfies the book invariant and is held under its own pair.
    pub open spec fn wf(&self) -> bool {
        forall|p: Seq<char>| #[trigger]
            self@.contains_key(p) ==> book_ok(self@[p]) && self@[p].pair == p
    }

    /// The number of workers that the engine was set up for.
    pub closed spec fn worker_count(&self) -> usize {
        self.workers
    }

    /// An engine set up for `workers` workers, with an empty book for each of
    /// the common pairs.
    pub fn new(workers: usize) -> (engine: OrderEngine)
        ensures
            engine.wf(),
            engine@ == seeded(),
            engine.worker_count() == workers,
    {
        let mut orderbooks: DashMap<String, OrderBook> = registry_new();
        let btc: String = "BTC/USDT".to_owned();
        registry_insert(&mut orderbooks, btc.clone(), OrderBook::new(btc));
        let eth: String = "ETH/USDT".to_owned();
        registry_insert(&mut orderbooks, eth.clone(), OrderBook::new(eth));
        let sol: String = "SOL/USDT".to_owned();
        registry_insert(&mut orderbooks, sol.clone(), OrderBook::new(sol));
        let ada: String = "ADA/USDT".to_owned();
        registry_insert(&mut orderbooks, ada.clone(), OrderBook::new(ada));
        let engine = OrderEngine { orderbooks, workers };
        assert(engine@ =~= seeded());
        engine
    }

    /// The number of workers that the engine was set up for.
    pub fn workers(&self) -> (n: usize)
        ensures
            n == self.worker_count(),
    {
        self.workers
    }

    /// Takes in an order: refuses it as invalid where it is not admissible,
    /// else submits it to the book of its pair, which is created where the
    /// pair is new, and reports the trades and the order as it ended.
    pub fn add_order(&mut self, order: Order) -> (done: EngineResult<EngineResponse>)
        requires
            old(self).wf(),
        ensures
            final(self).wf(),
            old(self)@.dom().subset_of(final(self)@.dom()),
            done.is_ok() == order.admissible(),
            match done {
                Ok(response) => {
                    let out = submit_spec(book_for(old(self)@, order.pair@), order);
                    &&& final(self)@ == old(self)@.insert(order.pair@, out.book)
                    &&& response.updated_order == Some(out.order)
                    &&& fills_of(response.trades@) == out.fills
                    &&& fills_fair(
                        order,
                        opposing(book_for(old(self)@, order.pair@), order.order_type),
                        out.fills,
                    )
                    &&& prices_worsen(opposite(order.order_type), out.fills)
                    &&& out.order.filled.units == total(out.fills)
                    &&& out.order.filled.units <= order.amount.units
                },
                Err(e) => {
                    &&& e matches EngineError::InvalidOrder(reason) && reason@ == refusal(order)
                    &&& final(self)@ == old(self)@
                },
            },
    {
        match validate(&order) {
            Err(e) => {
                return Err(e);
            },
            Ok(_) => {},
        }
        let pair: String = order.pair.clone();
        let ghost before = self@;
        let mut book: OrderBook = match registry_remove(&mut self.orderbooks, pair.as_str()) {
            Some(held) => held,
            None => OrderBook::new(pair.clone()),
        };
        assert(book@ == book_for(before, order.pair@));
        let (trades, updated) = book.submit(order);
        registry_insert(&mut self.orderbooks, pair, book);
        assert(self@ =~= before.insert(order.pair@, book@));
        Ok(EngineResponse { trades, updated_order: Some(updated) })
    }

    /// Cancels the order `order_id` in the book of `pair`. Fails where the
    /// pair has no book; succeeds with `None`, and changes nothing, where the
    /// book holds no such order.
    pub fn cancel_order(&mut self, pair: &str, order_id: u128) -> (done: EngineResult<Option<Order>>)
        requires
            old(self).wf(),
        ensures
            final(self).wf(),
            old(self)@.dom().subset_of(final(self)@.dom()),
            done.is_ok() == old(self)@.contains_key(pair@),
            match done {
                Ok(found) => {
                    let out = cancel_spec(old(self)@[pair@], order_id);
                    &&& found == out.order
                    &&& final(self)@ == old(self)@.insert(pair@, out.book)
                },
                Err(e) => {
                    &&& e matches EngineError::OrderBookNotFound(named) && named@ == pair@
                    &&& final(self)@ == old(self)@
                },
            },
    {
        let ghost before = self@;
        match registry_remove(&mut self.orderbooks, pair) {
            Some(held) => {
                let mut book: OrderBook = held;
                assert(before.contains_key(pair@));
                assert(book@ == before[pair@]);
                let found = book.cancel_order(order_id);
                registry_insert(&mut self.orderbooks, pair.to_owned(), book);
                assert(self@ =~= before.insert(pair@, book@));
                Ok(found)
            },
            None => {
                assert(self@ =~= before);
                Err(EngineError::OrderBookNotFound(pair.to_owned()))
            },
        }
    }

    /// A copy of the book of `pair`, if it has one.
    pub fn get_orderbook(&self, pair: &str) -> (book: Option<OrderBook>)
        requires
            self.wf(),
        ensures
            book.is_some() == self@.contains_key(pair@),
            book.is_some() ==> book.unwrap()@ == self@[pair@] && book.unwrap().wf(),
    {
        let book = registry_get(&self.orderbooks, pair);
        proof {
            if book.is_some() {
                assert(self@.contains_key(pair@));
                assert(book.unwrap()@ == self@[pair@]);
            }
        }
        book
    }

    /// The aggregated state of the book of `pair`, if it has one.
    pub fn get_orderbook_snapshot(&self, pair: &str) -> (shot: Option<OrderBookSnapshot>)
        requires
            self.wf(),
        ensures
            shot.is_some() == self@.contains_key(pair@),
            shot.is_some() ==> snapshot_shows(shot.unwrap(), self@[pair@]),
    {
        match registry_get(&self.orderbooks, pair) {
            Some(book) => {
                assert(self@.contains_key(pair@));
                assert(book@ == self@[pair@]);
                Some(book.snapshot())
            },
            None => None,
        }
    }

    /// The pairs that have a book, each once, in no particular order.
    pub fn get_pairs(&self) -> (pairs: Vec<String>)
        ensures
            forall|k: int| 0 <= k < pairs@.len() ==> self@.contains_key(#[trigger] pairs@[k]@),
            forall|p: Seq<char>|
                self@.contains_key(p) ==> exists|k: int| 0 <= k < pairs@.len() && #[trigger] pairs@[k]@ == p,
            forall|a: int, b: int|
                0 <= a < b < pairs@.len() ==> (#[trigger] pairs@[a])@ != (#[trigger] pairs@[b])@,
    {
        registry_keys(&self.orderbooks)
    }
}

} // verus!
