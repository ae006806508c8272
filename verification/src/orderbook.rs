//! The per-pair order book: two sides of price levels, each a FIFO of resting
//! limit orders, with matching under price/time priority.

use vstd::prelude::*;
use std::collections::VecDeque;
use crate::money::{Money, MAX_ORDER_UNITS};
use crate::order::{Order, OrderType, OrderKind, OrderStatus, Trade, Fill, fill_between};

verus! {

/// All resting orders at one price on one side, the first to match in front.
#[derive(Debug)]
pub struct PriceLevel {
    pub price: Money,
    pub orders: VecDeque<Order>,
}

/// A price level as a mathematical value.
pub ghost struct LevelView {
    pub price: int,
    pub orders: Seq<Order>,
}

impl View for PriceLevel {
    type V = LevelView;

    open spec fn view(&self) -> LevelView {
        LevelView { price: self.price.units as int, orders: self.orders@ }
    }
}

impl Clone for PriceLevel {
    fn clone(&self) -> (copy: PriceLevel)
        ensures
            copy@ == self@,
    {
        let n: usize = self.orders.len();
        let mut orders: VecDeque<Order> = VecDeque::new();
        let mut j: usize = 0;
        while j < n
            invariant
                j <= n,
                n == self.orders@.len(),
                orders@ =~= self.orders@.subrange(0, j as int),
            decreases n - j,
        {
            orders.push_back(self.orders[j].clone());
            j = j + 1;
        }
        assert(orders@ =~= self.orders@);
        PriceLevel { price: self.price, orders }
    }
}

/// A copy of one side of a book.
fn clone_side(side: &Vec<PriceLevel>) -> (copy: Vec<PriceLevel>)
    ensures
        levels(copy@) == levels(side@),
{
    let n: usize = side.len();
    let mut copy: Vec<PriceLevel> = Vec::new();
    let mut i: usize = 0;
    while i < n
        invariant
            i <= n,
            n == side@.len(),
            levels(copy@) =~= levels(side@).subrange(0, i as int),
        decreases n - i,
    {
        let ghost before = copy@;
        copy.push(side[i].clone());
        assert(levels(copy@) =~= levels(before).push(side@[i as int]@));
        i = i + 1;
    }
    assert(levels(copy@) =~= levels(side@));
    copy
}

/// One side of a book as a sequence of level values, in storage order: from
/// the worst price to the best, so that the best level is the last.
pub open spec fn levels(side: Seq<PriceLevel>) -> Seq<LevelView> {
    Seq::new(side.len(), |i: int| side[i]@)
}

/// The fills that a sequence of trades records.
pub open spec fn fills_of(trades: Seq<Trade>) -> Seq<Fill> {
    Seq::new(trades.len(), |i: int| trades[i]@)
}

/// The side that an order of side `side` trades against.
pub open spec fn opposite(side: OrderType) -> OrderType {
    match side {
        OrderType::Buy => OrderType::Sell,
        OrderType::Sell => OrderType::Buy,
    }
}

/// Among resting orders of side `side`, price `p` has priority over price `q`:
/// the higher bid, the lower ask.
pub open spec fn better(side: OrderType, p: int, q: int) -> bool {
    match side {
        OrderType::Buy => p > q,
        OrderType::Sell => p < q,
    }
}

/// What holds of every order resting on side `side` at `price` in the book of
/// `pair`: a limit order of that side and price, not yet exhausted, `Pending`
/// while untouched and `Partial` afterwards.
pub open spec fn resting_ok(o: Order, side: OrderType, price: int, pair: Seq<char>) -> bool {
    &&& o.order_type == side
    &&& o.order_kind == OrderKind::Limit
    &&& o.price.is_some()
    &&& o.price.unwrap().units == price
    &&& o.pair@ == pair
    &&& 0 < o.amount.units <= MAX_ORDER_UNITS
    &&& 0 <= o.filled.units < o.amount.units
    &&& o.status == if o.filled.units == 0 {
        OrderStatus::Pending
    } else {
        OrderStatus::Partial
    }
}

/// A level has a positive price and at least one order, all resting there.
pub open spec fn level_ok(l: LevelView, side: OrderType, pair: Seq<char>) -> bool {
    &&& l.price > 0
    &&& l.orders.len() > 0
    &&& forall|j: int| 0 <= j < l.orders.len() ==> resting_ok(#[trigger] l.orders[j], side, l.price, pair)
}

/// A side holds well-formed levels at strictly improving prices.
pub open spec fn side_ok(s: Seq<LevelView>, side: OrderType, pair: Seq<char>) -> bool {
    &&& forall|i: int| 0 <= i < s.len() ==> level_ok(#[trigger] s[i], side, pair)
    &&& forall|i: int, j: int|
        0 <= i < j < s.len() ==> better(side, (#[trigger] s[j]).price, (#[trigger] s[i]).price)
}

/// The incoming order `taker` may trade at `price`: a market order at any
/// price, a buy limit at or below its own, a sell limit at or above its own.
pub open spec fn crosses(taker: Order, price: int) -> bool {
    match taker.order_kind {
        OrderKind::Market => true,
        OrderKind::Limit => match taker.order_type {
            OrderType::Buy => taker.limit() >= price,
            OrderType::Sell => taker.limit() <= price,
        },
    }
}

/// The record of `taker` executing `x` against `maker` at `price`.
pub open spec fn fill_of(taker: Order, maker: Order, x: int, price: int) -> Fill {
    match taker.order_type {
        OrderType::Buy => fill_between(taker, maker, x, price),
        OrderType::Sell => fill_between(maker, taker, x, price),
    }
}

/// Matching is over: the taker is exhausted, the side is empty, or its best
/// price is out of the taker's reach.
pub open spec fn stops(side: Seq<LevelView>, taker: Order) -> bool {
    ||| taker.remaining() <= 0
    ||| side.len() == 0
    ||| side.last().orders.len() == 0
    ||| !crosses(taker, side.last().price)
}

/// What matching leaves: the resting side, the incoming order, and the fills
/// in the order in which they happened.
pub ghost struct MatchOutcome {
    pub side: Seq<LevelView>,
    pub taker: Order,
    pub fills: Seq<Fill>,
}

/// The smaller of two integers.
pub open spec fn min_int(a: int, b: int) -> int {
    if a <= b { a } else { b }
}

/// Matches `taker` against `side` (best level last), continuing after the
/// fills in `fills`. Each step takes the head of the best level, executes the
/// smaller of the two remainders at that level's price, and drops the head
/// where it is exhausted, and the level with it where it was the last.
pub open spec fn match_from(side: Seq<LevelView>, taker: Order, fills: Seq<Fill>) -> MatchOutcome
    decreases side.len(), (if side.len() > 0 { side.last().orders.len() } else { 0 }),
{
    if stops(side, taker) {
        MatchOutcome { side, taker, fills }
    } else {
        let best = side.len() - 1;
        let level = side[best];
        let maker = level.orders[0];
        let x = min_int(taker.remaining(), maker.remaining());
        let fills2 = fills.push(fill_of(taker, maker, x, level.price));
        let taker2 = taker.filled_by(x);
        let maker2 = maker.filled_by(x);
        if maker2.remaining() > 0 {
            MatchOutcome {
                side: side.update(best, LevelView { orders: level.orders.update(0, maker2), ..level }),
                taker: taker2,
                fills: fills2,
            }
        } else if level.orders.len() == 1 {
            match_from(side.drop_last(), taker2, fills2)
        } else {
            match_from(
                side.update(best, LevelView { orders: level.orders.drop_first(), ..level }),
                taker2,
                fills2,
            )
        }
    }
}

/// The identifier of the resting order in a fill of `taker`.
pub open spec fn maker_id(taker: Order, f: Fill) -> u128 {
    match taker.order_type {
        OrderType::Buy => f.sell_order_id,
        OrderType::Sell => f.buy_order_id,
    }
}

/// The identifier of the incoming order in a fill of `taker`.
pub open spec fn taker_id(taker: Order, f: Fill) -> u128 {
    match taker.order_type {
        OrderType::Buy => f.buy_order_id,
        OrderType::Sell => f.sell_order_id,
    }
}

/// An order with identifier `id` rests on `side` at `price`.
pub open spec fn resting_at(side: Seq<LevelView>, id: u128, price: int) -> bool {
    exists|i: int, j: int|
        0 <= i < side.len() && 0 <= j < side[i].orders.len() && side[i].price == price && (
        #[trigger] side[i].orders[j]).id == id
}

/// Every fill has a positive amount and a positive price, is at a price that
/// `taker` accepts, names the taker's pair, and executes at the price at
/// which its resting counterparty stood on `before`.
pub open spec fn fills_fair(taker: Order, before: Seq<LevelView>, fills: Seq<Fill>) -> bool {
    forall|k: int|
        0 <= k < fills.len() ==> {
            let f = #[trigger] fills[k];
            &&& f.amount > 0
            &&& f.price > 0
            &&& crosses(taker, f.price)
            &&& taker_id(taker, f) == taker.id
            &&& f.pair@ == taker.pair@
            &&& resting_at(before, maker_id(taker, f), f.price)
        }
}

/// From one fill to the next the price never improves for the taker: asks
/// are taken at ascending prices, bids at descending ones. `side` is the side
/// of the resting orders.
pub open spec fn prices_worsen(side: OrderType, fills: Seq<Fill>) -> bool {
    forall|k: int, l: int|
        0 <= k < l < fills.len() ==> !better(side, (#[trigger] fills[l]).price, (#[trigger] fills[k]).price)
}

/// The sum of the amounts of `fills`.
pub open spec fn total(fills: Seq<Fill>) -> int
    decreases fills.len(),
{
    if fills.len() == 0 {
        0
    } else {
        total(fills.drop_last()) + fills.last().amount
    }
}

/// Only orders at the front of the priority order have been taken from
/// `before`: in `after` every level but the best is as it was, levels better
/// than that are gone, and the best level is the tail of what it was, of which
/// only the head may have been filled further.
pub open spec fn priority_kept(before: Seq<LevelView>, after: Seq<LevelView>) -> bool {
    &&& after.len() <= before.len()
    &&& forall|i: int| 0 <= i < after.len() - 1 ==> #[trigger] after[i] == before[i]
    &&& after.len() > 0 ==> {
        let m = after.len() - 1;
        let d = before[m].orders.len() - after[m].orders.len();
        &&& after[m].price == before[m].price
        &&& 0 <= d
        &&& after[m].orders.len() > 0
        &&& advanced(before[m].orders[d], after[m].orders[0])
        &&& forall|j: int|
            1 <= j < after[m].orders.len() ==> #[trigger] after[m].orders[j] == before[m].orders[d + j]
    }
}

/// The head of the best level of `after` is an order of `before`, untouched.
pub open spec fn head_untouched(before: Seq<LevelView>, after: Seq<LevelView>) -> bool {
    after.len() > 0 ==> {
        let m = after.len() - 1;
        after[m].orders[0] == before[m].orders[before[m].orders.len() - after[m].orders.len()]
    }
}

/// Order `after` is order `before` with more of it executed, or untouched:
/// only `filled` and `status` may differ, `filled` has not shrunk nor passed
/// the size, and the status follows from the fills.
pub open spec fn advanced(before: Order, after: Order) -> bool {
    &&& after == (Order { filled: after.filled, status: after.status, ..before })
    &&& before.filled.units <= after.filled.units <= before.amount.units
    &&& after.status == if after.filled.units == before.filled.units {
        before.status
    } else if after.filled.units == before.amount.units {
        OrderStatus::Filled
    } else {
        OrderStatus::Partial
    }
}

/// The sum of what is left to execute of `orders`.
pub open spec fn open_amount(orders: Seq<Order>) -> int
    decreases orders.len(),
{
    if orders.len() == 0 {
        0
    } else {
        orders[0].remaining() + open_amount(orders.drop_first())
    }
}

/// The sum of what is left to execute of all the orders resting on `side`.
pub open spec fn side_open(side: Seq<LevelView>) -> int
    decreases side.len(),
{
    if side.len() == 0 {
        0
    } else {
        side_open(side.drop_last()) + open_amount(side.last().orders)
    }
}

/// What matching needs to know of the incoming order: a valid size, and a
/// price where it is a limit order.
pub open spec fn taker_ok(taker: Order) -> bool {
    &&& taker.sized()
    &&& taker.order_kind == OrderKind::Limit ==> taker.price.is_some()
}

fn crosses_price(taker: &Order, price: Money) -> (b: bool)
    ensures
        b == crosses(*taker, price.units as int),
{
    let lim: i128 = match taker.price {
        Some(p) => p.units,
        None => 0i128,
    };
    match taker.order_kind {
        OrderKind::Market => true,
        OrderKind::Limit => match taker.order_type {
            OrderType::Buy => lim >= price.units,
            OrderType::Sell => lim <= price.units,
        },
    }
}

/// Runs the matching loop for `taker` against the opposing `side`.
fn match_against(side: &mut Vec<PriceLevel>, taker: &mut Order) -> (trades: Vec<Trade>)
    requires
        taker_ok(*old(taker)),
        side_ok(levels(old(side)@), opposite(old(taker).order_type), old(taker).pair@),
    ensures
        ({
            let out = match_from(levels(old(side)@), *old(taker), Seq::empty());
            &&& levels(final(side)@) == out.side
            &&& *final(taker) == out.taker
            &&& fills_of(trades@) == out.fills
        }),
        side_ok(levels(final(side)@), opposite(old(taker).order_type), old(taker).pair@),
        stops(levels(final(side)@), *final(taker)),
        priority_kept(levels(old(side)@), levels(final(side)@)),
        advanced(*old(taker), *final(taker)),
        fills_fair(*old(taker), levels(old(side)@), fills_of(trades@)),
        prices_worsen(opposite(old(taker).order_type), fills_of(trades@)),
        final(taker).filled.units == old(taker).filled.units + total(fills_of(trades@)),
        side_open(levels(old(side)@)) == side_open(levels(final(side)@)) + total(fills_of(trades@)),
{
    let mut trades: Vec<Trade> = Vec::new();
    let ghost start_side = levels(side@);
    let ghost start_taker = *taker;
    let ghost rs = opposite(taker.order_type);
    let ghost pair = taker.pair@;
    assert(fills_of(trades@) =~= Seq::<Fill>::empty());
    loop
        invariant_except_break
            head_untouched(start_side, levels(side@)),
        invariant
            taker_ok(*taker),
            taker.order_type == start_taker.order_type,
            taker.pair@ == pair,
            rs == opposite(taker.order_type),
            side_ok(levels(side@), rs, pair),
            side_ok(start_side, rs, pair),
            priority_kept(start_side, levels(side@)),
            advanced(start_taker, *taker),
            fills_fair(start_taker, start_side, fills_of(trades@)),
            prices_worsen(rs, fills_of(trades@)),
            side@.len() > 0 ==> forall|k: int|
                0 <= k < trades@.len() ==> !better(
                    rs,
                    levels(side@).last().price,
                    (#[trigger] fills_of(trades@)[k]).price,
                ),
            taker.filled.units == start_taker.filled.units + total(fills_of(trades@)),
            side_open(start_side) == side_open(levels(side@)) + total(fills_of(trades@)),
            match_from(levels(side@), *taker, fills_of(trades@)) == match_from(
                start_side,
                start_taker,
                Seq::empty(),
            ),
        ensures
            stops(levels(side@), *taker),
        decreases side.len(), (if side.len() > 0 { side@.last().orders@.len() } else { 0 }),
    {
        if !taker.remaining_amount().is_positive() || side.len() == 0 {
            break;
        }
        let best: usize = side.len() - 1;
        let price: Money = side[best].price;
        assert(levels(side@)[best as int] == side@[best as int]@);
        if !crosses_price(taker, price) {
            break;
        }
        let ghost side0 = levels(side@);
        let ghost taker0 = *taker;
        let ghost fills0 = fills_of(trades@);
        assert(level_ok(side0[best as int], rs, pair));
        let mut level: PriceLevel = side.pop().unwrap();
        assert(levels(side@) =~= side0.drop_last());
        let mut maker: Order = level.orders.pop_front().unwrap();
        let ghost maker0 = maker;
        assert(maker0 == side0[best as int].orders[0]);
        assert(resting_ok(maker0, rs, price.units as int, pair));
        let x: Money = taker.remaining_amount().min(maker.remaining_amount());
        let trade: Trade = match taker.order_type {
            OrderType::Buy => Trade::new(taker, &maker, x, price),
            OrderType::Sell => Trade::new(&maker, taker, x, price),
        };
        trades.push(trade);
        let ghost fill = fill_of(taker0, maker0, x.units as int, price.units as int);
        assert(fills_of(trades@) =~= fills0.push(fill));
        proof {
            let m = best as int;
            let d = start_side[m].orders.len() - side0[m].orders.len();
            assert(start_side[m].orders[d] == maker0);
            assert(resting_at(start_side, maker0.id, price.units as int));
            assert(fills0.push(fill).drop_last() =~= fills0);
            assert(level_ok(start_side[m], rs, pair));
            assert(side_open(side0) == side_open(side0.drop_last()) + open_amount(side0[m].orders));
            assert(open_amount(side0[m].orders) == maker0.remaining() + open_amount(
                side0[m].orders.drop_first(),
            ));
            assert(total(fills0.push(fill)) == total(fills0) + x.units);
        }
        taker.fill(x);
        maker.fill(x);
        if maker.remaining_amount().is_positive() {
            level.orders.push_front(maker);
            side.push(level);
            assert(level.orders@ =~= side0[best as int].orders.update(0, maker));
            assert(levels(side@) =~= side0.update(best as int, level@));
            assert(side_ok(levels(side@), rs, pair));
            assert(level.orders@.drop_first() =~= side0[best as int].orders.drop_first());
            assert(levels(side@).drop_last() =~= side0.drop_last());
            assert(levels(side@).last() == level@);
            assert(open_amount(level@.orders) == maker.remaining() + open_amount(
                level@.orders.drop_first(),
            ));
            break;
        }
        if level.orders.len() > 0 {
            side.push(level);
            assert(level.orders@ =~= side0[best as int].orders.drop_first());
            assert(levels(side@) =~= side0.update(best as int, level@));
            assert(side_ok(levels(side@), rs, pair));
            assert(levels(side@).drop_last() =~= side0.drop_last());
            assert(levels(side@).last() == level@);
        } else {
            assert(side0[best as int].orders.len() == 1);
            assert(side_ok(levels(side@), rs, pair));
            assert(side0[best as int].orders.drop_first().len() == 0);
        }
    }
    trades
}

/// The side with `order` put to rest on it: at the tail of the level at its
/// price where there is one, else in a new level at the place that keeps the
/// prices improving.
pub open spec fn rested(side: Seq<LevelView>, order: Order) -> Seq<LevelView>
    decreases side.len(),
{
    let fresh = LevelView { price: order.limit(), orders: seq![order] };
    if side.len() == 0 {
        seq![fresh]
    } else {
        let best = side.last();
        if best.price == order.limit() {
            side.update(side.len() - 1, LevelView { orders: best.orders.push(order), ..best })
        } else if better(order.order_type, order.limit(), best.price) {
            side.push(fresh)
        } else {
            rested(side.drop_last(), order).push(best)
        }
    }
}

fn better_price(side: OrderType, p: Money, q: Money) -> (b: bool)
    ensures
        b == better(side, p.units as int, q.units as int),
{
    match side {
        OrderType::Buy => p.units > q.units,
        OrderType::Sell => p.units < q.units,
    }
}

/// Puts what is left of a limit order to rest on its own side.
fn rest_order(side: &mut Vec<PriceLevel>, order: Order)
    requires
        side_ok(levels(old(side)@), order.order_type, order.pair@),
        resting_ok(order, order.order_type, order.limit(), order.pair@),
        order.limit() > 0,
    ensures
        levels(final(side)@) == rested(levels(old(side)@), order),
        side_ok(levels(final(side)@), order.order_type, order.pair@),
        final(side)@.len() > 0,
        levels(final(side)@).last().price == (if old(side)@.len() > 0 && !better(
            order.order_type,
            order.limit(),
            levels(old(side)@).last().price,
        ) {
            levels(old(side)@).last().price
        } else {
            order.limit()
        }),
{
    let ghost start = levels(side@);
    let ghost kind = order.order_type;
    let ghost pair = order.pair@;
    let p: Money = match order.price {
        Some(m) => m,
        None => Money { units: 0i128 },
    };
    let mut i: usize = side.len();
    assert(start.subrange(0, i as int) =~= start);
    assert(rested(start, order) + start.subrange(i as int, start.len() as int) =~= rested(start, order));
    while i > 0 && better_price(order.order_type, side[i - 1].price, p)
        invariant
            i <= side.len(),
            start == levels(side@),
            side_ok(start, kind, pair),
            kind == order.order_type,
            p.units == order.limit(),
            forall|k: int| i <= k < start.len() ==> better(kind, (#[trigger] start[k]).price, p.units as int),
            rested(start, order) == rested(start.subrange(0, i as int), order) + start.subrange(
                i as int,
                start.len() as int,
            ),
        decreases i,
    {
        proof {
            let head = start.subrange(0, i as int);
            assert(head.last() == start[i - 1]);
            assert(head.drop_last() =~= start.subrange(0, i - 1));
            assert(rested(head, order) == rested(head.drop_last(), order).push(start[i - 1]));
            assert(rested(head.drop_last(), order).push(start[i - 1]) + start.subrange(
                i as int,
                start.len() as int,
            ) =~= rested(head.drop_last(), order) + start.subrange(i - 1, start.len() as int));
        }
        i = i - 1;
    }
    let ghost head = start.subrange(0, i as int);
    let ghost tail = start.subrange(i as int, start.len() as int);
    if i > 0 && side[i - 1].price.units == p.units {
        let mut level: PriceLevel = side.remove(i - 1);
        level.orders.push_back(order);
        side.insert(i - 1, level);
        proof {
            assert(head.last() == start[i - 1]);
            assert(levels(side@) =~= start.update(i - 1, level@));
            assert(rested(head, order) + tail =~= start.update(i - 1, level@));
        }
    } else {
        let mut queue: VecDeque<Order> = VecDeque::new();
        queue.push_back(order);
        let level: PriceLevel = PriceLevel { price: p, orders: queue };
        side.insert(i, level);
        proof {
            assert(level@.orders =~= seq![order]);
            assert(level@ == (LevelView { price: order.limit(), orders: seq![order] }));
            assert(levels(side@) =~= start.insert(i as int, level@));
            if i > 0 {
                assert(head.last() == start[i - 1]);
                assert(head.push(level@) + tail =~= start.insert(i as int, level@));
            } else {
                assert(head.len() == 0);
                assert(seq![level@] + tail =~= start.insert(i as int, level@));
            }
        }
    }
    proof {
        lemma_rested_keeps_side(start, order, pair);
    }
}

/// The index of the first order in `orders` with identifier `id`, or the
/// length of `orders` where there is none.
pub open spec fn position(orders: Seq<Order>, id: u128) -> int
    decreases orders.len(),
{
    if orders.len() == 0 {
        0
    } else if orders[0].id == id {
        0
    } else {
        1 + position(orders.drop_first(), id)
    }
}

/// The index of the first level of `side` that holds an order with
/// identifier `id`, or the length of `side` where there is none.
pub open spec fn level_position(side: Seq<LevelView>, id: u128) -> int
    decreases side.len(),
{
    if side.len() == 0 {
        0
    } else if position(side[0].orders, id) < side[0].orders.len() {
        0
    } else {
        1 + level_position(side.drop_first(), id)
    }
}

/// The number of levels of `side`, counted from the last one down, that come
/// before the first that holds an order with identifier `id`; the length of
/// `side` where none holds one.
pub open spec fn levels_skipped_from_last(side: Seq<LevelView>, id: u128) -> int
    decreases side.len(),
{
    if side.len() == 0 {
        0
    } else if position(side.last().orders, id) < side.last().orders.len() {
        0
    } else {
        1 + levels_skipped_from_last(side.drop_last(), id)
    }
}

/// Side `side` without the order at place `j` of level `i`, and without that
/// level where the order was alone in it.
pub open spec fn without(side: Seq<LevelView>, i: int, j: int) -> Seq<LevelView> {
    if side[i].orders.len() == 1 {
        side.remove(i)
    } else {
        side.update(i, LevelView { orders: side[i].orders.remove(j), ..side[i] })
    }
}

/// The place in `level` of the first order with identifier `id`.
fn find_in_level(level: &PriceLevel, id: u128) -> (j: usize)
    ensures
        j == position(level@.orders, id),
        j <= level@.orders.len(),
        j < level@.orders.len() ==> level@.orders[j as int].id == id,
{
    let ghost orders = level@.orders;
    let n: usize = level.orders.len();
    let mut j: usize = 0;
    assert(orders.subrange(0, n as int) =~= orders);
    while j < n
        invariant
            j <= n,
            n == orders.len(),
            orders == level.orders@,
            position(orders, id) == j + position(orders.subrange(j as int, n as int), id),
        decreases n - j,
    {
        let ghost rest = orders.subrange(j as int, n as int);
        assert(rest[0] == orders[j as int]);
        if level.orders[j].id == id {
            return j;
        }
        assert(rest.drop_first() =~= orders.subrange(j + 1, n as int));
        j = j + 1;
    }
    j
}

/// The level of `side` in which an order with identifier `id` is found
/// first: going from the first level up, or from the last level down where
/// `from_last` is set. The length of `side` where no level holds one.
pub open spec fn found_level(side: Seq<LevelView>, id: u128, from_last: bool) -> int {
    if !from_last {
        level_position(side, id)
    } else if levels_skipped_from_last(side, id) < side.len() {
        side.len() - 1 - levels_skipped_from_last(side, id)
    } else {
        side.len() as int
    }
}

/// Finds the level and the place in it of the first order with identifier
/// `id`, looking through the levels in the direction asked for.
fn find_order(side: &Vec<PriceLevel>, id: u128, from_last: bool) -> (at: Option<(usize, usize)>)
    ensures
        at.is_some() == (found_level(levels(side@), id, from_last) < side@.len()),
        at.is_some() ==> {
            let (i, j) = at.unwrap();
            &&& i == found_level(levels(side@), id, from_last)
            &&& j == position(levels(side@)[i as int].orders, id)
            &&& j < levels(side@)[i as int].orders.len()
        },
{
    let ghost all = levels(side@);
    let n: usize = side.len();
    let mut t: usize = 0;
    assert(all.subrange(0, n as int) =~= all);
    while t < n
        invariant
            t <= n,
            n == side@.len(),
            all == levels(side@),
            !from_last ==> level_position(all, id) == t + level_position(all.subrange(t as int, n as int), id),
            from_last ==> levels_skipped_from_last(all, id) == t + levels_skipped_from_last(
                all.subrange(0, n - t),
                id,
            ),
        decreases n - t,
    {
        let i: usize = if from_last { n - 1 - t } else { t };
        assert(all[i as int] == side@[i as int]@);
        let j: usize = find_in_level(&side[i], id);
        proof {
            if from_last {
                let rest = all.subrange(0, n - t);
                assert(rest.last() == all[i as int]);
                assert(rest.drop_last() =~= all.subrange(0, n - t - 1));
            } else {
                let rest = all.subrange(t as int, n as int);
                assert(rest[0] == all[i as int]);
                assert(rest.drop_first() =~= all.subrange(t + 1, n as int));
            }
        }
        if j < side[i].orders.len() {
            return Some((i, j));
        }
        t = t + 1;
    }
    None
}

/// Takes the order at place `j` of level `i` off `side` and hands it back
/// cancelled; the level goes with it where it was alone there.
fn take_order(side: &mut Vec<PriceLevel>, i: usize, j: usize, Ghost(kind): Ghost<OrderType>, Ghost(pair): Ghost<Seq<char>>) -> (taken: Order)
    requires
        side_ok(levels(old(side)@), kind, pair),
        i < old(side)@.len(),
        j < levels(old(side)@)[i as int].orders.len(),
    ensures
        taken == levels(old(side)@)[i as int].orders[j as int].cancelled(),
        levels(final(side)@) == without(levels(old(side)@), i as int, j as int),
        side_ok(levels(final(side)@), kind, pair),
        final(side)@.len() > 0 ==> !better(
            kind,
            levels(final(side)@).last().price,
            levels(old(side)@).last().price,
        ),
{
    let ghost before = levels(side@);
    assert(before[i as int] == side@[i as int]@);
    let mut level: PriceLevel = side.remove(i);
    let mut order: Order = level.orders.remove(j).unwrap();
    order.cancel();
    if level.orders.len() > 0 {
        side.insert(i, level);
    }
    proof {
        assert(levels(side@) =~= without(before, i as int, j as int));
        lemma_without_keeps_side(before, i as int, j as int, kind, pair);
    }
    order
}

/// Takes the first order with identifier `id` off `side`, looking through the
/// levels in the direction asked for, and hands it back cancelled; leaves the
/// side alone where no order has that identifier.
fn cancel_in_side(side: &mut Vec<PriceLevel>, id: u128, from_last: bool, Ghost(kind): Ghost<OrderType>, Ghost(pair): Ghost<Seq<char>>) -> (found: Option<Order>)
    requires
        side_ok(levels(old(side)@), kind, pair),
    ensures
        ({
            let before = levels(old(side)@);
            let i = found_level(before, id, from_last);
            if i < before.len() {
                let j = position(before[i].orders, id);
                &&& found == Some(before[i].orders[j].cancelled())
                &&& levels(final(side)@) == without(before, i, j)
            } else {
                &&& found.is_none()
                &&& levels(final(side)@) == before
            }
        }),
        side_ok(levels(final(side)@), kind, pair),
        final(side)@.len() > 0 ==> old(side)@.len() > 0 && !better(
            kind,
            levels(final(side)@).last().price,
            levels(old(side)@).last().price,
        ),
{
    match find_order(side, id, from_last) {
        Some((i, j)) => Some(take_order(side, i, j, Ghost(kind), Ghost(pair))),
        None => None,
    }
}

/// The aggregated depth of a side, best price first: each level's price with
/// the sum of what is left of the orders resting there.
pub open spec fn depth(side: Seq<LevelView>) -> Seq<(int, int)> {
    Seq::new(
        side.len(),
        |k: int| (side[side.len() - 1 - k].price, open_amount(side[side.len() - 1 - k].orders)),
    )
}

/// Rows are in order of priority with no price twice: bids from the highest
/// price down, asks from the lowest price up.
pub open spec fn best_first(side: OrderType, rows: Seq<(int, int)>) -> bool {
    forall|a: int, b: int|
        0 <= a < b < rows.len() ==> better(side, (#[trigger] rows[a]).0, (#[trigger] rows[b]).0)
}

/// Pairs of amounts as pairs of integers.
pub open spec fn quotes(rows: Seq<(Money, Money)>) -> Seq<(int, int)> {
    Seq::new(rows.len(), |k: int| (rows[k].0.units as int, rows[k].1.units as int))
}

/// The sum of what is left of the orders resting at `level`.
fn level_amount(level: &PriceLevel, Ghost(kind): Ghost<OrderType>, Ghost(pair): Ghost<Seq<char>>) -> (sum: Money)
    requires
        level_ok(level@, kind, pair),
    ensures
        sum.units == open_amount(level@.orders),
        sum.units > 0,
{
    let ghost orders = level@.orders;
    let n: usize = level.orders.len();
    let mut sum: i128 = 0;
    let mut j: usize = 0;
    assert(orders.subrange(0, n as int) =~= orders);
    while j < n
        invariant
            j <= n,
            n == orders.len(),
            orders == level.orders@,
            level_ok(level@, kind, pair),
            sum + open_amount(orders.subrange(j as int, n as int)) == open_amount(orders),
            0 <= sum <= j * MAX_ORDER_UNITS,
            j > 0 ==> sum > 0,
        decreases n - j,
    {
        assert(resting_ok(orders[j as int], kind, level@.price, pair));
        assert(orders.subrange(j as int, n as int).drop_first() =~= orders.subrange(j + 1, n as int));
        assert(orders.subrange(j as int, n as int)[0] == orders[j as int]);
        sum = sum + level.orders[j].remaining_amount().units;
        j = j + 1;
    }
    Money { units: sum }
}

/// The aggregated depth of one side of a book, best price first.
fn depth_of(side: &Vec<PriceLevel>, Ghost(kind): Ghost<OrderType>, Ghost(pair): Ghost<Seq<char>>) -> (rows: Vec<(Money, Money)>)
    requires
        side_ok(levels(side@), kind, pair),
    ensures
        quotes(rows@) == depth(levels(side@)),
        best_first(kind, quotes(rows@)),
{
    let n: usize = side.len();
    let mut rows: Vec<(Money, Money)> = Vec::new();
    let mut k: usize = 0;
    while k < n
        invariant
            k <= n,
            n == side.len(),
            side_ok(levels(side@), kind, pair),
            rows@.len() == k,
            forall|a: int| 0 <= a < k ==> (#[trigger] quotes(rows@)[a]) == depth(levels(side@))[a],
        decreases n - k,
    {
        let level: &PriceLevel = &side[n - 1 - k];
        assert(levels(side@)[n - 1 - k] == level@);
        assert(level_ok(levels(side@)[n - 1 - k], kind, pair));
        let sum: Money = level_amount(level, Ghost(kind), Ghost(pair));
        let ghost before = rows@;
        rows.push((level.price, sum));
        assert forall|a: int| 0 <= a < k + 1 implies (#[trigger] quotes(rows@)[a]) == depth(
            levels(side@),
        )[a] by {
            if a < k {
                assert(quotes(rows@)[a] == quotes(before)[a]);
            }
        }
        k = k + 1;
    }
    assert(quotes(rows@) =~= depth(levels(side@)));
    assert forall|a: int, b: int| 0 <= a < b < rows@.len() implies better(
        kind,
        (#[trigger] quotes(rows@)[a]).0,
        (#[trigger] quotes(rows@)[b]).0,
    ) by {
        let s = levels(side@);
        assert(better(kind, s[s.len() - 1 - a].price, s[s.len() - 1 - b].price));
    }
    rows
}

/// An order book: the resting bids and asks of one trading pair. Each side is
/// kept from its worst price to its best, so the best level is the last.
#[derive(Debug)]
pub struct OrderBook {
    pub pair: String,
    pub bids: Vec<PriceLevel>,
    pub asks: Vec<PriceLevel>,
}

/// An order book as a mathematical value.
pub ghost struct BookView {
    pub pair: Seq<char>,
    pub bids: Seq<LevelView>,
    pub asks: Seq<LevelView>,
}

impl View for OrderBook {
    type V = BookView;

    open spec fn view(&self) -> BookView {
        BookView { pair: self.pair@, bids: levels(self.bids@), asks: levels(self.asks@) }
    }
}

/// The best bid is below the best ask wherever both exist.
pub open spec fn uncrossed(b: BookView) -> bool {
    b.bids.len() > 0 && b.asks.len() > 0 ==> b.bids.last().price < b.asks.last().price
}

/// The book's invariant: both sides hold non-empty levels of valid resting
/// orders at strictly improving prices, and the book is not crossed.
pub open spec fn book_ok(b: BookView) -> bool {
    &&& side_ok(b.bids, OrderType::Buy, b.pair)
    &&& side_ok(b.asks, OrderType::Sell, b.pair)
    &&& uncrossed(b)
}

/// In a valid book every bid is below every ask, and no level is empty.
pub proof fn valid_book_at_rest(book: BookView)
    requires
        book_ok(book),
    ensures
        forall|i: int, j: int|
            0 <= i < book.bids.len() && 0 <= j < book.asks.len() ==> (#[trigger] book.bids[i]).price < (
            #[trigger] book.asks[j]).price,
        forall|i: int| 0 <= i < book.bids.len() ==> (#[trigger] book.bids[i]).orders.len() > 0,
        forall|j: int| 0 <= j < book.asks.len() ==> (#[trigger] book.asks[j]).orders.len() > 0,
{
    assert forall|i: int, j: int| 0 <= i < book.bids.len() && 0 <= j < book.asks.len() implies (
    #[trigger] book.bids[i]).price < (#[trigger] book.asks[j]).price by {
        let b = book.bids.len() - 1;
        let a = book.asks.len() - 1;
        assert(book.bids[i].price <= book.bids[b].price);
        assert(book.asks[a].price <= book.asks[j].price);
    }
    assert forall|i: int| 0 <= i < book.bids.len() implies (#[trigger] book.bids[i]).orders.len() > 0 by {
        assert(level_ok(book.bids[i], OrderType::Buy, book.pair));
    }
    assert forall|j: int| 0 <= j < book.asks.len() implies (#[trigger] book.asks[j]).orders.len() > 0 by {
        assert(level_ok(book.asks[j], OrderType::Sell, book.pair));
    }
}

proof fn lemma_match_keeps_side(side: Seq<LevelView>, taker: Order, fills: Seq<Fill>, pair: Seq<char>)
    requires
        side_ok(side, opposite(taker.order_type), pair),
        taker_ok(taker),
    ensures
        ({
            let out = match_from(side, taker, fills);
            &&& side_ok(out.side, opposite(taker.order_type), pair)
            &&& stops(out.side, out.taker)
            &&& out.side.len() <= side.len()
            &&& forall|i: int| 0 <= i < out.side.len() ==> (#[trigger] out.side[i]).price == side[i].price
            &&& advanced(taker, out.taker)
        }),
    decreases side.len(), (if side.len() > 0 { side.last().orders.len() } else { 0 }),
{
    if !stops(side, taker) {
        let rs = opposite(taker.order_type);
        let best = side.len() - 1;
        let level = side[best];
        assert(level_ok(level, rs, pair));
        let maker = level.orders[0];
        assert(resting_ok(maker, rs, level.price, pair));
        let x = min_int(taker.remaining(), maker.remaining());
        let fills2 = fills.push(fill_of(taker, maker, x, level.price));
        let taker2 = taker.filled_by(x);
        let maker2 = maker.filled_by(x);
        if maker2.remaining() > 0 {
            let level2 = LevelView { orders: level.orders.update(0, maker2), ..level };
            let side2 = side.update(best, level2);
            assert forall|j: int| 0 <= j < level2.orders.len() implies resting_ok(
                #[trigger] level2.orders[j],
                rs,
                level2.price,
                pair,
            ) by {
                if j > 0 {
                    assert(level2.orders[j] == level.orders[j]);
                }
            }
            assert forall|i: int| 0 <= i < side2.len() implies level_ok(#[trigger] side2[i], rs, pair) by {
                if i != best {
                    assert(side2[i] == side[i]);
                }
            }
            assert forall|i: int, j: int| 0 <= i < j < side2.len() implies better(
                rs,
                (#[trigger] side2[j]).price,
                (#[trigger] side2[i]).price,
            ) by {
                assert(side2[i].price == side[i].price);
                assert(side2[j].price == side[j].price);
            }
        } else {
            let side2 = if level.orders.len() == 1 {
                side.drop_last()
            } else {
                side.update(best, LevelView { orders: level.orders.drop_first(), ..level })
            };
            if level.orders.len() > 1 {
                let level2 = side2[best];
                assert forall|j: int| 0 <= j < level2.orders.len() implies resting_ok(
                    #[trigger] level2.orders[j],
                    rs,
                    level2.price,
                    pair,
                ) by {
                    assert(level2.orders[j] == level.orders[j + 1]);
                }
            }
            assert forall|i: int| 0 <= i < side2.len() implies level_ok(#[trigger] side2[i], rs, pair) by {
                if i != best {
                    assert(side2[i] == side[i]);
                }
            }
            assert forall|i: int, j: int| 0 <= i < j < side2.len() implies better(
                rs,
                (#[trigger] side2[j]).price,
                (#[trigger] side2[i]).price,
            ) by {
                assert(side2[i].price == side[i].price);
                assert(side2[j].price == side[j].price);
            }
            lemma_match_keeps_side(side2, taker2, fills2, pair);
            let out = match_from(side2, taker2, fills2);
            assert forall|i: int| 0 <= i < out.side.len() implies (#[trigger] out.side[i]).price
                == side[i].price by {
                assert(side2[i].price == side[i].price);
            }
        }
    }
}

/// Price `q` has priority over every price on `side`.
spec fn ahead_of_all(side: Seq<LevelView>, kind: OrderType, q: int) -> bool {
    forall|k: int| 0 <= k < side.len() ==> better(kind, q, (#[trigger] side[k]).price)
}

proof fn lemma_rested_behind(side: Seq<LevelView>, order: Order, q: int)
    requires
        ahead_of_all(side, order.order_type, q),
        better(order.order_type, q, order.limit()),
    ensures
        ahead_of_all(rested(side, order), order.order_type, q),
    decreases side.len(),
{
    let r = rested(side, order);
    if side.len() > 0 {
        let best = side.last();
        if best.price != order.limit() && !better(order.order_type, order.limit(), best.price) {
            let inner = rested(side.drop_last(), order);
            assert forall|k: int| 0 <= k < side.drop_last().len() implies better(
                order.order_type,
                q,
                (#[trigger] side.drop_last()[k]).price,
            ) by {
                assert(side.drop_last()[k] == side[k]);
            }
            lemma_rested_behind(side.drop_last(), order, q);
            assert forall|k: int| 0 <= k < r.len() implies better(
                order.order_type,
                q,
                (#[trigger] r[k]).price,
            ) by {
                if k < inner.len() {
                    assert(r[k] == inner[k]);
                } else {
                    assert(r[k] == side[side.len() - 1]);
                }
            }
        } else {
            assert forall|k: int| 0 <= k < r.len() implies better(
                order.order_type,
                q,
                (#[trigger] r[k]).price,
            ) by {
                if k < side.len() {
                    assert(r[k].price == side[k].price);
                }
            }
        }
    }
}

proof fn lemma_rested_keeps_side(side: Seq<LevelView>, order: Order, pair: Seq<char>)
    requires
        side_ok(side, order.order_type, pair),
        resting_ok(order, order.order_type, order.limit(), pair),
        order.limit() > 0,
    ensures
        side_ok(rested(side, order), order.order_type, pair),
        rested(side, order).len() > 0,
        rested(side, order).last().price == (if side.len() > 0 && !better(
            order.order_type,
            order.limit(),
            side.last().price,
        ) {
            side.last().price
        } else {
            order.limit()
        }),
    decreases side.len(),
{
    let kind = order.order_type;
    let r = rested(side, order);
    if side.len() > 0 {
        let last = side.len() - 1;
        let best = side[last];
        assert(level_ok(best, kind, pair));
        if best.price == order.limit() {
            let level2 = r[last];
            assert forall|j: int| 0 <= j < level2.orders.len() implies resting_ok(
                #[trigger] level2.orders[j],
                kind,
                level2.price,
                pair,
            ) by {
                if j < best.orders.len() {
                    assert(level2.orders[j] == best.orders[j]);
                }
            }
            assert forall|i: int| 0 <= i < r.len() implies level_ok(#[trigger] r[i], kind, pair) by {
                if i != last {
                    assert(r[i] == side[i]);
                }
            }
            assert forall|i: int, j: int| 0 <= i < j < r.len() implies better(
                kind,
                (#[trigger] r[j]).price,
                (#[trigger] r[i]).price,
            ) by {
                assert(r[i].price == side[i].price);
                assert(r[j].price == side[j].price);
            }
        } else if better(kind, order.limit(), best.price) {
            assert forall|i: int| 0 <= i < r.len() implies level_ok(#[trigger] r[i], kind, pair) by {
                if i < side.len() {
                    assert(r[i] == side[i]);
                }
            }
            assert forall|i: int, j: int| 0 <= i < j < r.len() implies better(
                kind,
                (#[trigger] r[j]).price,
                (#[trigger] r[i]).price,
            ) by {
                assert(r[i] == side[i]);
                if j < side.len() {
                    assert(r[j] == side[j]);
                } else {
                    assert(better(kind, side[last].price, side[i].price) || i == last);
                }
            }
        } else {
            let rest = side.drop_last();
            let inner = rested(rest, order);
            assert forall|i: int| 0 <= i < rest.len() implies level_ok(#[trigger] rest[i], kind, pair) by {
                assert(rest[i] == side[i]);
            }
            assert forall|i: int, j: int| 0 <= i < j < rest.len() implies better(
                kind,
                (#[trigger] rest[j]).price,
                (#[trigger] rest[i]).price,
            ) by {
                assert(rest[i] == side[i]);
                assert(rest[j] == side[j]);
            }
            lemma_rested_keeps_side(rest, order, pair);
            assert forall|k: int| 0 <= k < rest.len() implies better(
                kind,
                best.price,
                (#[trigger] rest[k]).price,
            ) by {
                assert(rest[k] == side[k]);
            }
            lemma_rested_behind(rest, order, best.price);
            assert forall|i: int| 0 <= i < r.len() implies level_ok(#[trigger] r[i], kind, pair) by {
                if i < inner.len() {
                    assert(r[i] == inner[i]);
                }
            }
            assert forall|i: int, j: int| 0 <= i < j < r.len() implies better(
                kind,
                (#[trigger] r[j]).price,
                (#[trigger] r[i]).price,
            ) by {
                assert(r[i] == inner[i]);
                if j < inner.len() {
                    assert(r[j] == inner[j]);
                }
            }
        }
    }
}

/// Submitting an admissible order to a valid book of its pair leaves a valid
/// book: no level is empty, prices stay in order, and the book is not
/// crossed.
pub proof fn submit_keeps_book_valid(book: BookView, order: Order)
    requires
        book_ok(book),
        order.admissible(),
        order.pair@ == book.pair,
    ensures
        book_ok(submit_spec(book, order).book),
{
    let against = opposing(book, order.order_type);
    lemma_match_keeps_side(against, order, Seq::empty(), book.pair);
    let m = match_from(against, order, Seq::empty());
    if rests(m.taker) {
        match order.order_type {
            OrderType::Buy => {
                lemma_rested_keeps_side(book.bids, m.taker, book.pair);
            },
            OrderType::Sell => {
                lemma_rested_keeps_side(book.asks, m.taker, book.pair);
            },
        }
    }
    let after = submit_spec(book, order).book;
    if after.bids.len() > 0 && after.asks.len() > 0 {
        let kept = m.side.len() - 1;
        if kept >= 0 {
            assert(m.side[kept].price == against[kept].price);
        }
    }
}

proof fn lemma_without_keeps_side(side: Seq<LevelView>, i: int, j: int, kind: OrderType, pair: Seq<char>)
    requires
        side_ok(side, kind, pair),
        0 <= i < side.len(),
        0 <= j < side[i].orders.len(),
    ensures
        side_ok(without(side, i, j), kind, pair),
        without(side, i, j).len() > 0 ==> !better(kind, without(side, i, j).last().price, side.last().price),
{
    let after = without(side, i, j);
    assert(level_ok(side[i], kind, pair));
    assert forall|a: int| 0 <= a < after.len() implies level_ok(#[trigger] after[a], kind, pair) by {
        if side[i].orders.len() == 1 {
            let a0 = if a < i { a } else { a + 1 };
            assert(after[a] == side[a0]);
        } else if a == i {
            assert forall|b: int| 0 <= b < after[a].orders.len() implies resting_ok(
                #[trigger] after[a].orders[b],
                kind,
                after[a].price,
                pair,
            ) by {
                let b0 = if b < j { b } else { b + 1 };
                assert(after[a].orders[b] == side[i].orders[b0]);
            }
        } else {
            assert(after[a] == side[a]);
        }
    }
    assert forall|a: int, b: int| 0 <= a < b < after.len() implies better(
        kind,
        (#[trigger] after[b]).price,
        (#[trigger] after[a]).price,
    ) by {
        if side[i].orders.len() == 1 {
            let a0 = if a < i { a } else { a + 1 };
            let b0 = if b < i { b } else { b + 1 };
            assert(after[a] == side[a0]);
            assert(after[b] == side[b0]);
        } else {
            assert(after[a].price == side[a].price);
            assert(after[b].price == side[b].price);
        }
    }
    if after.len() > 0 {
        let last = after.len() - 1;
        if side[i].orders.len() == 1 {
            let l0 = if last < i { last } else { last + 1 };
            assert(after[last] == side[l0]);
        } else {
            assert(after[last].price == side[last].price);
        }
    }
}

/// Cancelling in a valid book leaves a valid book: no level is empty, prices
/// stay in order, and the book is not crossed.
pub proof fn cancel_keeps_book_valid(book: BookView, id: u128)
    requires
        book_ok(book),
    ensures
        book_ok(cancel_spec(book, id).book),
{
    lemma_found_level(book.bids, id, false);
    lemma_found_level(book.asks, id, true);
    let b = found_level(book.bids, id, false);
    let a = found_level(book.asks, id, true);
    if b < book.bids.len() {
        lemma_position(book.bids[b].orders, id);
        lemma_without_keeps_side(book.bids, b, position(book.bids[b].orders, id), OrderType::Buy, book.pair);
    } else if a < book.asks.len() {
        lemma_position(book.asks[a].orders, id);
        lemma_without_keeps_side(book.asks, a, position(book.asks[a].orders, id), OrderType::Sell, book.pair);
    }
}

/// The incoming order once matching is over: a market order that found
/// nothing to trade against ends `Cancelled`; any other keeps the status that
/// its fills gave it.
pub open spec fn settled(taker: Order) -> Order {
    if taker.order_kind == OrderKind::Market && taker.filled.units == 0 {
        taker.cancelled()
    } else {
        taker
    }
}

/// What is left of a limit order goes to rest; a market order never does.
pub open spec fn rests(taker: Order) -> bool {
    taker.order_kind == OrderKind::Limit && taker.remaining() > 0
}

/// The side of `book` that an incoming order of side `side` trades against.
pub open spec fn opposing(book: BookView, side: OrderType) -> Seq<LevelView> {
    match side {
        OrderType::Buy => book.asks,
        OrderType::Sell => book.bids,
    }
}

/// What a cancellation leaves: the book, and the order that left it.
pub ghost struct CancelOutcome {
    pub book: BookView,
    pub order: Option<Order>,
}

/// Cancelling `id` in `book`: the first order with that identifier, looked
/// for among the bids and then among the asks, each from the lowest price up,
/// leaves the book and is handed back as `Cancelled`; a level that it leaves
/// empty goes with it. Where no order has the identifier the book stays as it
/// is.
pub open spec fn cancel_spec(book: BookView, id: u128) -> CancelOutcome {
    let b = found_level(book.bids, id, false);
    let a = found_level(book.asks, id, true);
    if b < book.bids.len() {
        let j = position(book.bids[b].orders, id);
        CancelOutcome {
            book: BookView { bids: without(book.bids, b, j), ..book },
            order: Some(book.bids[b].orders[j].cancelled()),
        }
    } else if a < book.asks.len() {
        let j = position(book.asks[a].orders, id);
        CancelOutcome {
            book: BookView { asks: without(book.asks, a, j), ..book },
            order: Some(book.asks[a].orders[j].cancelled()),
        }
    } else {
        CancelOutcome { book, order: None }
    }
}

/// No order on `side` has identifier `id`.
pub open spec fn absent(side: Seq<LevelView>, id: u128) -> bool {
    forall|i: int, j: int|
        0 <= i < side.len() && 0 <= j < side[i].orders.len() ==> (#[trigger] side[i].orders[j]).id != id
}

/// At most one order on `side` has identifier `id`.
pub open spec fn at_most_once(side: Seq<LevelView>, id: u128) -> bool {
    forall|i: int, j: int, k: int, l: int|
        0 <= i < side.len() && 0 <= j < side[i].orders.len() && 0 <= k < side.len() && 0 <= l
            < side[k].orders.len() && (#[trigger] side[i].orders[j]).id == id && (
        #[trigger] side[k].orders[l]).id == id ==> i == k && j == l
}

/// At most one order resting in `book` has identifier `id`.
pub open spec fn carried_once(book: BookView, id: u128) -> bool {
    &&& at_most_once(book.bids, id)
    &&& at_most_once(book.asks, id)
    &&& absent(book.bids, id) || absent(book.asks, id)
}

proof fn lemma_position(orders: Seq<Order>, id: u128)
    ensures
        0 <= position(orders, id) <= orders.len(),
        position(orders, id) < orders.len() ==> orders[position(orders, id)].id == id,
        (forall|j: int| 0 <= j < orders.len() ==> (#[trigger] orders[j]).id != id) ==> position(orders, id)
            == orders.len(),
    decreases orders.len(),
{
    if orders.len() > 0 && orders[0].id != id {
        let rest = orders.drop_first();
        lemma_position(rest, id);
        assert forall|j: int| 0 <= j < rest.len() implies (#[trigger] rest[j]) == orders[j + 1] by {}
        if forall|j: int| 0 <= j < orders.len() ==> (#[trigger] orders[j]).id != id {
            assert forall|j: int| 0 <= j < rest.len() implies (#[trigger] rest[j]).id != id by {
                assert(rest[j] == orders[j + 1]);
            }
        }
    }
}

proof fn lemma_level_position(side: Seq<LevelView>, id: u128)
    ensures
        0 <= level_position(side, id) <= side.len(),
        level_position(side, id) < side.len() ==> position(side[level_position(side, id)].orders, id)
            < side[level_position(side, id)].orders.len(),
        absent(side, id) ==> level_position(side, id) == side.len(),
    decreases side.len(),
{
    if side.len() > 0 {
        lemma_position(side[0].orders, id);
        if absent(side, id) {
            assert forall|j: int| 0 <= j < side[0].orders.len() implies (#[trigger] side[0].orders[j]).id
                != id by {}
        }
        if position(side[0].orders, id) >= side[0].orders.len() {
            let rest = side.drop_first();
            lemma_level_position(rest, id);
            if absent(side, id) {
                assert forall|i: int, j: int|
                    0 <= i < rest.len() && 0 <= j < rest[i].orders.len() implies (
                #[trigger] rest[i].orders[j]).id != id by {
                    assert(rest[i] == side[i + 1]);
                    assert(side[i + 1].orders[j].id != id);
                }
            }
        }
    }
}

proof fn lemma_levels_skipped(side: Seq<LevelView>, id: u128)
    ensures
        0 <= levels_skipped_from_last(side, id) <= side.len(),
        levels_skipped_from_last(side, id) < side.len() ==> position(
            side[side.len() - 1 - levels_skipped_from_last(side, id)].orders,
            id,
        ) < side[side.len() - 1 - levels_skipped_from_last(side, id)].orders.len(),
        absent(side, id) ==> levels_skipped_from_last(side, id) == side.len(),
    decreases side.len(),
{
    if side.len() > 0 {
        let last = side.len() - 1;
        lemma_position(side[last].orders, id);
        if absent(side, id) {
            assert forall|j: int| 0 <= j < side[last].orders.len() implies (
            #[trigger] side[last].orders[j]).id != id by {}
        }
        if position(side[last].orders, id) >= side[last].orders.len() {
            let rest = side.drop_last();
            lemma_levels_skipped(rest, id);
            if absent(side, id) {
                assert forall|i: int, j: int|
                    0 <= i < rest.len() && 0 <= j < rest[i].orders.len() implies (
                #[trigger] rest[i].orders[j]).id != id by {
                    assert(rest[i] == side[i]);
                    assert(side[i].orders[j].id != id);
                }
            }
            if levels_skipped_from_last(rest, id) < rest.len() {
                let r = rest.len() - 1 - levels_skipped_from_last(rest, id);
                assert(rest[r] == side[r]);
            }
        }
    }
}

proof fn lemma_found_level(side: Seq<LevelView>, id: u128, from_last: bool)
    ensures
        0 <= found_level(side, id, from_last) <= side.len(),
        found_level(side, id, from_last) < side.len() ==> position(
            side[found_level(side, id, from_last)].orders,
            id,
        ) < side[found_level(side, id, from_last)].orders.len(),
        absent(side, id) ==> found_level(side, id, from_last) == side.len(),
{
    lemma_level_position(side, id);
    lemma_levels_skipped(side, id);
}

proof fn lemma_without_absent(side: Seq<LevelView>, id: u128, i0: int, j0: int)
    requires
        at_most_once(side, id),
        0 <= i0 < side.len(),
        0 <= j0 < side[i0].orders.len(),
        side[i0].orders[j0].id == id,
    ensures
        absent(without(side, i0, j0), id),
{
    let after = without(side, i0, j0);
    assert forall|i: int, j: int| 0 <= i < after.len() && 0 <= j < after[i].orders.len() implies (
    #[trigger] after[i].orders[j]).id != id by {
        if side[i0].orders.len() == 1 {
            let i1 = if i < i0 { i } else { i + 1 };
            assert(after[i] == side[i1]);
            assert(after[i].orders[j] == side[i1].orders[j]);
            if side[i1].orders[j].id == id {
                assert(i1 == i0);
            }
        } else if i == i0 {
            let j1 = if j < j0 { j } else { j + 1 };
            assert(after[i].orders[j] == side[i0].orders[j1]);
            if side[i0].orders[j1].id == id {
                assert(j1 == j0);
            }
        } else {
            assert(after[i] == side[i]);
            if side[i].orders[j].id == id {
                assert(i == i0);
            }
        }
    }
}

/// Cancelling twice: where at most one resting order has the identifier, a
/// second cancellation of it finds nothing and leaves the book as the first
/// left it; and a cancellation that finds nothing leaves the book as it was.
pub proof fn cancel_twice(book: BookView, id: u128)
    requires
        carried_once(book, id),
    ensures
        cancel_spec(book, id).order.is_none() ==> cancel_spec(book, id).book == book,
        cancel_spec(cancel_spec(book, id).book, id).order.is_none(),
        cancel_spec(cancel_spec(book, id).book, id).book == cancel_spec(book, id).book,
{
    let first = cancel_spec(book, id);
    lemma_found_level(book.bids, id, false);
    lemma_found_level(book.asks, id, true);
    let b = found_level(book.bids, id, false);
    let a = found_level(book.asks, id, true);
    if b < book.bids.len() {
        let j = position(book.bids[b].orders, id);
        lemma_position(book.bids[b].orders, id);
        assert(book.bids[b].orders[j].id == id);
        assert(absent(book.asks, id));
        lemma_without_absent(book.bids, id, b, j);
    } else if a < book.asks.len() {
        let j = position(book.asks[a].orders, id);
        lemma_position(book.asks[a].orders, id);
        lemma_without_absent(book.asks, id, a, j);
    }
    lemma_found_level(first.book.bids, id, false);
    lemma_found_level(first.book.asks, id, true);
}

/// What a submission leaves: the book, the order as it ended, the fills.
pub ghost struct SubmitOutcome {
    pub book: BookView,
    pub order: Order,
    pub fills: Seq<Fill>,
}

/// Submitting `order` to `book`: it is matched against the opposing side, and
/// what is left of a limit order is put to rest on its own side.
pub open spec fn submit_spec(book: BookView, order: Order) -> SubmitOutcome {
    match order.order_type {
        OrderType::Buy => {
            let m = match_from(book.asks, order, Seq::empty());
            SubmitOutcome {
                book: BookView {
                    pair: book.pair,
                    bids: if rests(m.taker) { rested(book.bids, m.taker) } else { book.bids },
                    asks: m.side,
                },
                order: settled(m.taker),
                fills: m.fills,
            }
        },
        OrderType::Sell => {
            let m = match_from(book.bids, order, Seq::empty());
            SubmitOutcome {
                book: BookView {
                    pair: book.pair,
                    bids: m.side,
                    asks: if rests(m.taker) { rested(book.asks, m.taker) } else { book.asks },
                },
                order: settled(m.taker),
                fills: m.fills,
            }
        },
    }
}

impl Clone for OrderBook {
    fn clone(&self) -> (copy: OrderBook)
        ensures
            copy@ == self@,
    {
        OrderBook {
            pair: self.pair.clone(),
            bids: clone_side(&self.bids),
            asks: clone_side(&self.asks),
        }
    }
}

impl OrderBook {
    /// The book's invariant holds.
    pub open spec fn wf(&self) -> bool {
        book_ok(self@)
    }

    /// An empty book for `pair`.
    pub fn new(pair: String) -> (book: OrderBook)
        ensures
            book@ == (BookView { pair: pair@, bids: Seq::empty(), asks: Seq::empty() }),
            book.wf(),
    {
        let book = OrderBook { pair, bids: Vec::new(), asks: Vec::new() };
        assert(book@.bids =~= Seq::empty());
        assert(book@.asks =~= Seq::empty());
        book
    }

    /// Matches an incoming buy order against the asks.
    fn match_buy_order(&mut self, buy_order: &mut Order) -> (trades: Vec<Trade>)
        requires
            old(self).wf(),
            old(buy_order).admissible(),
            old(buy_order).order_type == OrderType::Buy,
            old(buy_order).pair@ == old(self).pair@,
        ensures
            ({
                let out = match_from(old(self)@.asks, *old(buy_order), Seq::empty());
                &&& final(self)@ == (BookView { asks: out.side, ..old(self)@ })
                &&& *final(buy_order) == out.taker
                &&& fills_of(trades@) == out.fills
            }),
            side_ok(final(self)@.asks, OrderType::Sell, old(self).pair@),
            stops(final(self)@.asks, *final(buy_order)),
            priority_kept(old(self)@.asks, final(self)@.asks),
            fills_fair(*old(buy_order), old(self)@.asks, fills_of(trades@)),
            prices_worsen(OrderType::Sell, fills_of(trades@)),
            final(buy_order).filled.units == total(fills_of(trades@)),
            side_open(old(self)@.asks) == side_open(final(self)@.asks) + total(fills_of(trades@)),
            advanced(*old(buy_order), *final(buy_order)),
    {
        match_against(&mut self.asks, buy_order)
    }

    /// Matches an incoming sell order against the bids.
    fn match_sell_order(&mut self, sell_order: &mut Order) -> (trades: Vec<Trade>)
        requires
            old(self).wf(),
            old(sell_order).admissible(),
            old(sell_order).order_type == OrderType::Sell,
            old(sell_order).pair@ == old(self).pair@,
        ensures
            ({
                let out = match_from(old(self)@.bids, *old(sell_order), Seq::empty());
                &&& final(self)@ == (BookView { bids: out.side, ..old(self)@ })
                &&& *final(sell_order) == out.taker
                &&& fills_of(trades@) == out.fills
            }),
            side_ok(final(self)@.bids, OrderType::Buy, old(self).pair@),
            stops(final(self)@.bids, *final(sell_order)),
            priority_kept(old(self)@.bids, final(self)@.bids),
            fills_fair(*old(sell_order), old(self)@.bids, fills_of(trades@)),
            prices_worsen(OrderType::Buy, fills_of(trades@)),
            final(sell_order).filled.units == total(fills_of(trades@)),
            side_open(old(self)@.bids) == side_open(final(self)@.bids) + total(fills_of(trades@)),
            advanced(*old(sell_order), *final(sell_order)),
    {
        match_against(&mut self.bids, sell_order)
    }

    /// Submits `order`: matches it, rests what is left of a limit order, and
    /// hands back the trades in the order in which they happened together
    /// with the order as it ended.
    pub fn submit(&mut self, order: Order) -> (done: (Vec<Trade>, Order))
        requires
            old(self).wf(),
            order.admissible(),
            order.pair@ == old(self).pair@,
        ensures
            // The book stays valid: no empty level, prices in order, not crossed.
            final(self).wf(),
            final(self)@ == submit_spec(old(self)@, order).book,
            done.1 == submit_spec(old(self)@, order).order,
            fills_of(done.0@) == submit_spec(old(self)@, order).fills,
            // Every trade is at the resting order's price, which the taker accepts.
            fills_fair(order, opposing(old(self)@, order.order_type), fills_of(done.0@)),
            // Better prices are taken first.
            prices_worsen(opposite(order.order_type), fills_of(done.0@)),
            // Within a price, orders are taken from the front; what is behind
            // the last one taken is untouched.
            priority_kept(
                opposing(old(self)@, order.order_type),
                opposing(final(self)@, order.order_type),
            ),
            // What the order has filled is what its trades add up to, and so is
            // what has left the opposing side.
            done.1.filled.units == total(fills_of(done.0@)),
            0 <= done.1.filled.units <= order.amount.units,
            side_open(opposing(old(self)@, order.order_type)) == side_open(
                opposing(final(self)@, order.order_type),
            ) + total(fills_of(done.0@)),
    {
        let mut order = order;
        let trades: Vec<Trade> = match order.order_type {
            OrderType::Buy => self.match_buy_order(&mut order),
            OrderType::Sell => self.match_sell_order(&mut order),
        };
        match order.order_kind {
            OrderKind::Limit => {
                if order.remaining_amount().is_positive() {
                    let copy: Order = order.clone();
                    match order.order_type {
                        OrderType::Buy => {
                            rest_order(&mut self.bids, order);
                        },
                        OrderType::Sell => {
                            rest_order(&mut self.asks, order);
                        },
                    }
                    (trades, copy)
                } else {
                    (trades, order)
                }
            },
            OrderKind::Market => {
                if order.filled.units == 0 {
                    order.cancel();
                }
                (trades, order)
            },
        }
    }

    /// Submits `order` and hands back the trades that it produced.
    pub fn add_order(&mut self, order: Order) -> (trades: Vec<Trade>)
        requires
            old(self).wf(),
            order.admissible(),
            order.pair@ == old(self).pair@,
        ensures
            final(self).wf(),
            final(self)@ == submit_spec(old(self)@, order).book,
            fills_of(trades@) == submit_spec(old(self)@, order).fills,
            fills_fair(order, opposing(old(self)@, order.order_type), fills_of(trades@)),
            prices_worsen(opposite(order.order_type), fills_of(trades@)),
            priority_kept(
                opposing(old(self)@, order.order_type),
                opposing(final(self)@, order.order_type),
            ),
            submit_spec(old(self)@, order).order.filled.units == total(fills_of(trades@)),
            side_open(opposing(old(self)@, order.order_type)) == side_open(
                opposing(final(self)@, order.order_type),
            ) + total(fills_of(trades@)),
    {
        let done = self.submit(order);
        done.0
    }

    /// Cancels the resting order with identifier `order_id` and hands it
    /// back, or hands back `None` and changes nothing where no resting order
    /// has that identifier.
    pub fn cancel_order(&mut self, order_id: u128) -> (found: Option<Order>)
        requires
            old(self).wf(),
        ensures
            final(self).wf(),
            final(self)@ == cancel_spec(old(self)@, order_id).book,
            found == cancel_spec(old(self)@, order_id).order,
            found.is_none() ==> final(self)@ == old(self)@,
    {
        let ghost pair = self.pair@;
        match cancel_in_side(&mut self.bids, order_id, false, Ghost(OrderType::Buy), Ghost(pair)) {
            Some(order) => Some(order),
            None => cancel_in_side(&mut self.asks, order_id, true, Ghost(OrderType::Sell), Ghost(pair)),
        }
    }

    /// The aggregated bids, from the highest price down.
    pub fn bid_depth(&self) -> (rows: Vec<(Money, Money)>)
        requires
            self.wf(),
        ensures
            quotes(rows@) == depth(self@.bids),
            best_first(OrderType::Buy, quotes(rows@)),
    {
        depth_of(&self.bids, Ghost(OrderType::Buy), Ghost(self.pair@))
    }

    /// The aggregated asks, from the lowest price up.
    pub fn ask_depth(&self) -> (rows: Vec<(Money, Money)>)
        requires
            self.wf(),
        ensures
            quotes(rows@) == depth(self@.asks),
            best_first(OrderType::Sell, quotes(rows@)),
    {
        depth_of(&self.asks, Ghost(OrderType::Sell), Ghost(self.pair@))
    }

    /// The highest price bid, if any order is bid: the price of the last level
    /// of bids, which in a valid book no other level exceeds.
    pub fn get_best_bid(&self) -> (best: Option<Money>)
        ensures
            best.is_some() == (self@.bids.len() > 0),
            best.is_some() ==> best.unwrap().units == self@.bids.last().price,
            self.wf() && best.is_some() ==> forall|i: int|
                0 <= i < self@.bids.len() ==> (#[trigger] self@.bids[i]).price <= best.unwrap().units,
    {
        let n: usize = self.bids.len();
        if n == 0 {
            None
        } else {
            assert(levels(self.bids@)[n - 1] == self.bids@[n - 1]@);
            Some(self.bids[n - 1].price)
        }
    }

    /// The lowest price asked, if any order is offered: the price of the last
    /// level of asks, which in a valid book no other level undercuts.
    pub fn get_best_ask(&self) -> (best: Option<Money>)
        ensures
            best.is_some() == (self@.asks.len() > 0),
            best.is_some() ==> best.unwrap().units == self@.asks.last().price,
            self.wf() && best.is_some() ==> forall|i: int|
                0 <= i < self@.asks.len() ==> (#[trigger] self@.asks[i]).price >= best.unwrap().units,
    {
        let n: usize = self.asks.len();
        if n == 0 {
            None
        } else {
            assert(levels(self.asks@)[n - 1] == self.asks@[n - 1]@);
            Some(self.asks[n - 1].price)
        }
    }

    /// The best ask less the best bid, where both exist.
    pub fn get_spread(&self) -> (spread: Option<Money>)
        requires
            self.wf(),
        ensures
            spread.is_some() == (self@.bids.len() > 0 && self@.asks.len() > 0),
            spread.is_some() ==> spread.unwrap().units == self@.asks.last().price
                - self@.bids.last().price,
            spread.is_some() ==> spread.unwrap().units > 0,
    {
        match (self.get_best_bid(), self.get_best_ask()) {
            (Some(bid), Some(ask)) => {
                assert(level_ok(self@.bids.last(), OrderType::Buy, self@.pair));
                assert(level_ok(self@.asks.last(), OrderType::Sell, self@.pair));
                Some(Money { units: ask.units - bid.units })
            },
            _ => None,
        }
    }
}

} // verus!
