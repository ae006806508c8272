//! Orders, their lifecycle, and the trades that matching produces.

use vstd::prelude::*;
use crate::money::{Money, MAX_ORDER_UNITS};

verus! {

/// The side of the book an order is on.
#[derive(Clone, Copy, Debug, PartialEq, Eq, Structural)]
pub enum OrderType {
    Buy,
    Sell,
}

/// Whether an order names a price or takes whatever the book offers.
#[derive(Clone, Copy, Debug, PartialEq, Eq, Structural)]
pub enum OrderKind {
    Market,
    Limit,
}

/// Where an order stands in its lifecycle.
#[derive(Clone, Copy, Debug, PartialEq, Eq, Structural)]
pub enum OrderStatus {
    Pending,
    Partial,
    Filled,
    Cancelled,
}

/// One order, incoming or resting.
#[derive(Debug)]
pub struct Order {
    pub id: u128,
    pub user_id: u128,
    pub pair: String,
    pub order_type: OrderType,
    pub order_kind: OrderKind,
    pub amount: Money,
    pub price: Option<Money>,
    pub filled: Money,
    pub status: OrderStatus,
    pub created_at: i64,
}

/// Draws a fresh 128-bit identifier from `uuid::Uuid::new_v4`. The value is
/// random, so nothing is claimed of it. `new_v4` gives up where the operating
/// system has no randomness to hand out.
#[verifier::external_body]
pub(crate) fn fresh_id() -> (id: u128) {
    uuid::Uuid::new_v4().as_u128()
}

/// Reads the wall clock through `chrono::Utc::now`, in microseconds since the
/// Unix epoch. The value depends on the moment of the call, so nothing is
/// claimed of it. `Utc::now` gives up where the system clock stands before
/// 1970.
#[verifier::external_body]
pub(crate) fn now_micros() -> (t: i64) {
    chrono::Utc::now().timestamp_micros()
}

impl Clone for Order {
    fn clone(&self) -> (copy: Order)
        ensures
            copy == *self,
    {
        Order {
            id: self.id,
            user_id: self.user_id,
            pair: self.pair.clone(),
            order_type: self.order_type,
            order_kind: self.order_kind,
            amount: self.amount,
            price: self.price,
            filled: self.filled,
            status: self.status,
            created_at: self.created_at,
        }
    }
}

impl Order {
    /// What is left to execute: `amount - filled`.
    pub open spec fn remaining(&self) -> int {
        self.amount.units - self.filled.units
    }

    /// The order's limit price in units, or 0 where it has none.
    pub open spec fn limit(&self) -> int {
        match self.price {
            Some(p) => p.units as int,
            None => 0,
        }
    }

    /// The size is positive and within the largest order size, and the filled
    /// part lies between zero and the size.
    pub open spec fn sized(&self) -> bool {
        &&& 0 < self.amount.units <= MAX_ORDER_UNITS
        &&& 0 <= self.filled.units <= self.amount.units
    }

    /// What the engine admits at intake: a fresh order (nothing filled,
    /// `Pending`) of positive size, whose price is positive where it names
    /// one, and which names one where it is a limit order.
    pub open spec fn admissible(&self) -> bool {
        &&& 0 < self.amount.units <= MAX_ORDER_UNITS
        &&& self.filled.units == 0
        &&& self.status == OrderStatus::Pending
        &&& self.price.is_some() ==> self.price.unwrap().units > 0
        &&& self.order_kind == OrderKind::Limit ==> self.price.is_some()
    }

    /// The order after `x` more units have executed.
    pub open spec fn filled_by(self, x: int) -> Order {
        Order {
            filled: Money { units: (self.filled.units + x) as i128 },
            status: if self.filled.units + x >= self.amount.units {
                OrderStatus::Filled
            } else {
                OrderStatus::Partial
            },
            ..self
        }
    }

    /// The order with its status set to `Cancelled`.
    pub open spec fn cancelled(self) -> Order {
        Order { status: OrderStatus::Cancelled, ..self }
    }

    /// Builds a fresh order from its identifier, its intake time and what the
    /// participant asked for.
    pub fn from_parts(
        id: u128,
        created_at: i64,
        user_id: u128,
        pair: String,
        order_type: OrderType,
        order_kind: OrderKind,
        amount: Money,
        price: Option<Money>,
    ) -> (order: Order)
        ensures
            order == (Order {
                id,
                user_id,
                pair,
                order_type,
                order_kind,
                amount,
                price,
                filled: Money { units: 0 },
                status: OrderStatus::Pending,
                created_at,
            }),
    {
        Order {
            id,
            user_id,
            pair,
            order_type,
            order_kind,
            amount,
            price,
            filled: Money::zero(),
            status: OrderStatus::Pending,
            created_at,
        }
    }

    /// A fresh order with a newly drawn identifier, stamped with the current
    /// time. Everything but those two fields is fixed by the arguments.
    pub fn new(
        user_id: u128,
        pair: String,
        order_type: OrderType,
        order_kind: OrderKind,
        amount: Money,
        price: Option<Money>,
    ) -> (order: Order)
        ensures
            order == (Order {
                id: order.id,
                user_id,
                pair,
                order_type,
                order_kind,
                amount,
                price,
                filled: Money { units: 0 },
                status: OrderStatus::Pending,
                created_at: order.created_at,
            }),
    {
        let id: u128 = fresh_id();
        let created_at: i64 = now_micros();
        Order::from_parts(id, created_at, user_id, pair, order_type, order_kind, amount, price)
    }

    /// What is left to execute.
    pub fn remaining_amount(&self) -> (left: Money)
        requires
            self.sized(),
        ensures
            left.units == self.remaining(),
    {
        Money { units: self.amount.units - self.filled.units }
    }

    /// Records the execution of `amount` more units: `filled` grows by it, and
    /// the status becomes `Filled` where nothing is left, `Partial` otherwise.
    pub fn fill(&mut self, amount: Money)
        requires
            old(self).sized(),
            0 <= amount.units <= old(self).remaining(),
        ensures
            *final(self) == old(self).filled_by(amount.units as int),
            final(self).sized(),
            final(self).remaining() == old(self).remaining() - amount.units,
    {
        self.filled = Money { units: self.filled.units + amount.units };
        if self.filled.units >= self.amount.units {
            self.status = OrderStatus::Filled;
        } else {
            self.status = OrderStatus::Partial;
        }
    }

    /// Marks the order as cancelled; nothing else changes.
    pub fn cancel(&mut self)
        ensures
            *final(self) == old(self).cancelled(),
    {
        self.status = OrderStatus::Cancelled;
    }

    /// True for a buy order.
    pub fn is_buy(&self) -> (b: bool)
        ensures
            b == (self.order_type == OrderType::Buy),
    {
        matches!(self.order_type, OrderType::Buy)
    }

    /// True for a sell order.
    pub fn is_sell(&self) -> (b: bool)
        ensures
            b == (self.order_type == OrderType::Sell),
    {
        matches!(self.order_type, OrderType::Sell)
    }

    /// True for a market order.
    pub fn is_market(&self) -> (b: bool)
        ensures
            b == (self.order_kind == OrderKind::Market),
    {
        matches!(self.order_kind, OrderKind::Market)
    }

    /// True for a limit order.
    pub fn is_limit(&self) -> (b: bool)
        ensures
            b == (self.order_kind == OrderKind::Limit),
    {
        matches!(self.order_kind, OrderKind::Limit)
    }
}

/// What a trade records of an execution, apart from its own identifier and
/// timestamp.
pub ghost struct Fill {
    pub buy_order_id: u128,
    pub sell_order_id: u128,
    pub buyer_id: u128,
    pub seller_id: u128,
    pub pair: String,
    pub amount: int,
    pub price: int,
}

/// One execution between a buy order and a sell order.
#[derive(Debug)]
pub struct Trade {
    pub id: u128,
    pub buy_order_id: u128,
    pub sell_order_id: u128,
    pub buyer_id: u128,
    pub seller_id: u128,
    pub pair: String,
    pub amount: Money,
    pub price: Money,
    pub timestamp: i64,
}

/// The execution of `amount` at `price` between `buy_order` and `sell_order`.
pub open spec fn fill_between(buy_order: Order, sell_order: Order, amount: int, price: int) -> Fill {
    Fill {
        buy_order_id: buy_order.id,
        sell_order_id: sell_order.id,
        buyer_id: buy_order.user_id,
        seller_id: sell_order.user_id,
        pair: buy_order.pair,
        amount,
        price,
    }
}

impl View for Trade {
    type V = Fill;

    open spec fn view(&self) -> Fill {
        Fill {
            buy_order_id: self.buy_order_id,
            sell_order_id: self.sell_order_id,
            buyer_id: self.buyer_id,
            seller_id: self.seller_id,
            pair: self.pair,
            amount: self.amount.units as int,
            price: self.price.units as int,
        }
    }
}

impl Clone for Trade {
    fn clone(&self) -> (copy: Trade)
        ensures
            copy == *self,
    {
        Trade {
            id: self.id,
            buy_order_id: self.buy_order_id,
            sell_order_id: self.sell_order_id,
            buyer_id: self.buyer_id,
            seller_id: self.seller_id,
            pair: self.pair.clone(),
            amount: self.amount,
            price: self.price,
            timestamp: self.timestamp,
        }
    }
}

impl Trade {
    /// Builds the record of an execution from its identifier, its time and the
    /// two orders as they stood.
    pub fn from_parts(
        id: u128,
        timestamp: i64,
        buy_order: &Order,
        sell_order: &Order,
        amount: Money,
        price: Money,
    ) -> (trade: Trade)
        ensures
            trade@ == fill_between(*buy_order, *sell_order, amount.units as int, price.units as int),
            trade.id == id,
            trade.timestamp == timestamp,
            trade.amount == amount,
            trade.price == price,
    {
        Trade {
            id,
            buy_order_id: buy_order.id,
            sell_order_id: sell_order.id,
            buyer_id: buy_order.user_id,
            seller_id: sell_order.user_id,
            pair: buy_order.pair.clone(),
            amount,
            price,
            timestamp,
        }
    }

    /// The record of an execution, with a newly drawn identifier and the
    /// current time. Everything else is fixed by the arguments.
    pub fn new(buy_order: &Order, sell_order: &Order, amount: Money, price: Money) -> (trade: Trade)
        ensures
            trade@ == fill_between(*buy_order, *sell_order, amount.units as int, price.units as int),
            trade.amount == amount,
            trade.price == price,
    {
        let id: u128 = fresh_id();
        let timestamp: i64 = now_micros();
        Trade::from_parts(id, timestamp, buy_order, sell_order, amount, price)
    }
}

} // verus!
