//! Mathematical model of the order book and of one engine step.
//!
//! A side of the book is a sequence of price levels, strictly ordered by
//! price; each level holds the orders resting at that price, oldest first.
//! The best ask is the first level of the ask sequence, the best bid the
//! last level of the bid sequence.  `step` says, for any book state and any
//! instruction, what the next state is and which events are emitted; the
//! executable engine is proved to follow it exactly.

use vstd::prelude::*;

use crate::order::{Event, Kind, Order, Side, TopLevel};

verus! {

/// One price level: all resting orders share `price`, in arrival order.
#[verifier::ext_equal]
pub struct LevelModel {
    pub price: i32,
    pub orders: Seq<Order>,
}

/// The whole engine state: both books, the cached best levels, and the
/// matching flag.
#[verifier::ext_equal]
pub struct BookModel {
    pub asks: Seq<LevelModel>,
    pub bids: Seq<LevelModel>,
    pub lowest_ask: Option<TopLevel>,
    pub highest_bid: Option<TopLevel>,
    pub matching: bool,
}

/// Aggregate quantity of a sequence of resting orders.
pub open spec fn qty_sum(orders: Seq<Order>) -> int
    decreases orders.len(),
{
    if orders.len() == 0 {
        0
    } else {
        qty_sum(orders.drop_last()) + orders.last().qty
    }
}

/// The levels of one side of the book.
pub open spec fn side_levels(m: BookModel, side: Side) -> Seq<LevelModel> {
    match side {
        Side::Buy => m.bids,
        Side::Sell => m.asks,
    }
}

/// The cached best level of one side.
pub open spec fn side_cache(m: BookModel, side: Side) -> Option<TopLevel> {
    match side {
        Side::Buy => m.highest_bid,
        Side::Sell => m.lowest_ask,
    }
}

/// Index of the best level of a side: lowest price for asks, highest for
/// bids.  Meaningful only for a non-empty side.
pub open spec fn best_index(levels: Seq<LevelModel>, side: Side) -> int {
    match side {
        Side::Sell => 0,
        Side::Buy => levels.len() - 1,
    }
}

/// The current best level of one side of the book, with its aggregate
/// quantity, or `None` when the side is empty.
pub open spec fn book_top(levels: Seq<LevelModel>, side: Side) -> Option<TopLevel> {
    if levels.len() == 0 {
        None
    } else {
        let l = levels[best_index(levels, side)];
        Some(TopLevel { price: l.price, volume: qty_sum(l.orders) as i32 })
    }
}

/// Well-formedness of one level of a book of the given side: non-empty,
/// every order rests at the level's price on that side with a positive
/// quantity, and the aggregate quantity fits an `i32`.
pub open spec fn level_wf(l: LevelModel, side: Side) -> bool {
    &&& l.orders.len() > 0
    &&& forall|j: int|
        0 <= j < l.orders.len() ==> {
            &&& (#[trigger] l.orders[j]).price == l.price
            &&& l.orders[j].qty > 0
            &&& l.orders[j].side == side
            &&& l.orders[j].kind == Kind::New
        }
    &&& qty_sum(l.orders) <= i32::MAX
}

/// Well-formedness of one side of the book: levels strictly sorted by
/// price, each level well formed.
pub open spec fn levels_wf(levels: Seq<LevelModel>, side: Side) -> bool {
    &&& forall|i: int, j: int|
        0 <= i < j < levels.len() ==> (#[trigger] levels[i]).price < (#[trigger] levels[j]).price
    &&& forall|i: int| 0 <= i < levels.len() ==> level_wf(#[trigger] levels[i], side)
}

/// Well-formedness of the whole engine state: both books well formed and
/// each cached best level equal to the recomputed one.
pub open spec fn book_wf(m: BookModel) -> bool {
    &&& levels_wf(m.asks, Side::Sell)
    &&& levels_wf(m.bids, Side::Buy)
    &&& m.lowest_ask == book_top(m.asks, Side::Sell)
    &&& m.highest_bid == book_top(m.bids, Side::Buy)
}

/// The engine state right after construction, and right after a flush.
pub open spec fn empty_book(matching: bool) -> BookModel {
    BookModel {
        asks: Seq::empty(),
        bids: Seq::empty(),
        lowest_ask: None,
        highest_bid: None,
        matching,
    }
}

/// The side an incoming order executes against.
pub open spec fn opposite(side: Side) -> Side {
    match side {
        Side::Buy => Side::Sell,
        Side::Sell => Side::Buy,
    }
}

/// A new order crosses the book when it could execute at once against the
/// opposite side's best level.
pub open spec fn crosses(m: BookModel, order: Order) -> bool {
    match order.side {
        Side::Buy => m.asks.len() > 0 && order.price >= m.asks[0].price,
        Side::Sell => m.bids.len() > 0 && order.price <= m.bids[m.bids.len() - 1].price,
    }
}

/// Index of the first level whose price is at least `price`, or the length
/// when every level is cheaper.
pub open spec fn insert_pos(levels: Seq<LevelModel>, price: i32) -> int
    decreases levels.len(),
{
    if levels.len() == 0 {
        0
    } else if levels[0].price >= price {
        0
    } else {
        1 + insert_pos(levels.drop_first(), price)
    }
}

/// A side of the book after a new order rests in it: appended to its price
/// level when one exists, else a fresh level at the sorted position.
pub open spec fn insert_order(levels: Seq<LevelModel>, order: Order) -> Seq<LevelModel> {
    let i = insert_pos(levels, order.price);
    if i < levels.len() && levels[i].price == order.price {
        levels.update(i, LevelModel { price: order.price, orders: levels[i].orders.push(order) })
    } else {
        levels.insert(i, LevelModel { price: order.price, orders: seq![order] })
    }
}

/// Aggregate quantity resting at exactly `price` on a side, 0 when no such
/// level exists.
pub open spec fn qty_sum_at(levels: Seq<LevelModel>, price: i32) -> int {
    let i = insert_pos(levels, price);
    if i < levels.len() && levels[i].price == price {
        qty_sum(levels[i].orders)
    } else {
        0
    }
}

/// Whether a resting order carries the identity a cancellation names.
pub open spec fn has_id(o: Order, user: i32, user_order_id: i32) -> bool {
    o.user == user && o.user_order_id == user_order_id
}

/// A level's orders after removing every order with the given identity.
pub open spec fn remove_by_id(orders: Seq<Order>, user: i32, user_order_id: i32) -> Seq<Order>
    decreases orders.len(),
{
    if orders.len() == 0 {
        Seq::empty()
    } else {
        let rest = remove_by_id(orders.drop_last(), user, user_order_id);
        if has_id(orders.last(), user, user_order_id) {
            rest
        } else {
            rest.push(orders.last())
        }
    }
}

/// A side of the book after a cancellation: the identified orders removed
/// and any level left empty pruned.
pub open spec fn cancel_levels(levels: Seq<LevelModel>, user: i32, user_order_id: i32) -> Seq<
    LevelModel,
>
    decreases levels.len(),
{
    if levels.len() == 0 {
        Seq::empty()
    } else {
        let rest = cancel_levels(levels.drop_last(), user, user_order_id);
        let kept = remove_by_id(levels.last().orders, user, user_order_id);
        if kept.len() == 0 {
            rest
        } else {
            rest.push(LevelModel { price: levels.last().price, orders: kept })
        }
    }
}

/// Whether a resting order's price allows execution against the incoming
/// order.
pub open spec fn marketable(resting: Order, incoming: Order) -> bool {
    match incoming.side {
        Side::Buy => resting.price <= incoming.price,
        Side::Sell => resting.price >= incoming.price,
    }
}

/// Whether a resting order can be consumed by the incoming order: its
/// price is marketable and the quantities are exactly equal.
pub open spec fn eligible(resting: Order, incoming: Order) -> bool {
    marketable(resting, incoming) && resting.qty == incoming.qty
}

/// Index of the first order eligible against `incoming`, or the length
/// when there is none.
pub open spec fn match_pos(orders: Seq<Order>, incoming: Order) -> int
    decreases orders.len(),
{
    if orders.len() == 0 {
        0
    } else if eligible(orders[0], incoming) {
        0
    } else {
        1 + match_pos(orders.drop_first(), incoming)
    }
}

/// The resting order a match attempt consumes: the first eligible order of
/// the opposite side's single best level, or `None`.  `levels` is the
/// opposite side of the book.
pub open spec fn found_match(levels: Seq<LevelModel>, incoming: Order) -> Option<Order> {
    if levels.len() == 0 {
        None
    } else {
        let l = levels[best_index(levels, opposite(incoming.side))];
        let j = match_pos(l.orders, incoming);
        if j < l.orders.len() {
            Some(l.orders[j])
        } else {
            None
        }
    }
}

/// A side of the book after removing the order at position `j` of level
/// `i`, pruning the level when it becomes empty.
pub open spec fn remove_order_at(levels: Seq<LevelModel>, i: int, j: int) -> Seq<LevelModel> {
    let l = levels[i];
    let kept = l.orders.remove(j);
    if kept.len() == 0 {
        levels.remove(i)
    } else {
        levels.update(i, LevelModel { price: l.price, orders: kept })
    }
}

/// The opposite side of the book after a successful match attempt removed
/// the consumed resting order.
pub open spec fn after_match(levels: Seq<LevelModel>, incoming: Order) -> Seq<LevelModel> {
    let i = best_index(levels, opposite(incoming.side));
    let j = match_pos(levels[i].orders, incoming);
    remove_order_at(levels, i, j)
}

/// The trade event for a consumed resting order, priced at the resting
/// order's price.
pub open spec fn trade_event(incoming: Order, resting: Order) -> Event {
    match incoming.side {
        Side::Buy => Event::Trade {
            buy_user: incoming.user,
            buy_order_id: incoming.user_order_id,
            sell_user: resting.user,
            sell_order_id: resting.user_order_id,
            price: resting.price,
            qty: resting.qty,
        },
        Side::Sell => Event::Trade {
            buy_user: resting.user,
            buy_order_id: resting.user_order_id,
            sell_user: incoming.user,
            sell_order_id: incoming.user_order_id,
            price: resting.price,
            qty: resting.qty,
        },
    }
}

/// The top-of-book events of one side after a mutation: one update when
/// the recomputed best level differs from the cached one, none otherwise.
pub open spec fn tob_events(side: Side, cached: Option<TopLevel>, now: Option<TopLevel>) -> Seq<
    Event,
> {
    if now == cached {
        Seq::empty()
    } else {
        seq![Event::BookUpdate { side, top: now }]
    }
}

/// The state with one side's levels replaced and that side's cached best
/// level recomputed.
pub open spec fn with_side(m: BookModel, side: Side, levels: Seq<LevelModel>) -> BookModel {
    match side {
        Side::Sell => BookModel {
            asks: levels,
            bids: m.bids,
            lowest_ask: book_top(levels, Side::Sell),
            highest_bid: m.highest_bid,
            matching: m.matching,
        },
        Side::Buy => BookModel {
            asks: m.asks,
            bids: levels,
            lowest_ask: m.lowest_ask,
            highest_bid: book_top(levels, Side::Buy),
            matching: m.matching,
        },
    }
}

/// The state with one side's cached best level replaced.
pub open spec fn set_cache(m: BookModel, side: Side, t: Option<TopLevel>) -> BookModel {
    match side {
        Side::Sell => BookModel {
            asks: m.asks,
            bids: m.bids,
            lowest_ask: t,
            highest_bid: m.highest_bid,
            matching: m.matching,
        },
        Side::Buy => BookModel {
            asks: m.asks,
            bids: m.bids,
            lowest_ask: m.lowest_ask,
            highest_bid: t,
            matching: m.matching,
        },
    }
}

/// What the engine may be handed: a new order must have a positive
/// quantity, and the aggregate quantity of its price level must stay
/// within `i32` if it comes to rest there.
pub open spec fn order_ok(m: BookModel, order: Order) -> bool {
    order.kind == Kind::New ==> {
        &&& order.qty > 0
        &&& qty_sum_at(side_levels(m, order.side), order.price) + order.qty <= i32::MAX
    }
}

/// One engine step for a new order.
pub open spec fn step_new(m: BookModel, order: Order) -> (BookModel, Seq<Event>) {
    if !m.matching && crosses(m, order) {
        (m, seq![Event::Reject { user: order.user, user_order_id: order.user_order_id }])
    } else {
        let acc = seq![Event::Accept { user: order.user, user_order_id: order.user_order_id }];
        let opp = opposite(order.side);
        match (if m.matching {
            found_match(side_levels(m, opp), order)
        } else {
            None
        }) {
            Some(resting) => {
                let levels2 = after_match(side_levels(m, opp), order);
                let m2 = with_side(m, opp, levels2);
                (
                    m2,
                    acc + seq![trade_event(order, resting)] + tob_events(
                        opp,
                        side_cache(m, opp),
                        book_top(levels2, opp),
                    ),
                )
            },
            None => {
                let levels2 = insert_order(side_levels(m, order.side), order);
                let m2 = with_side(m, order.side, levels2);
                (
                    m2,
                    acc + tob_events(
                        order.side,
                        side_cache(m, order.side),
                        book_top(levels2, order.side),
                    ),
                )
            },
        }
    }
}

/// One engine step for a cancellation: acknowledged unconditionally, both
/// sides scanned, both best levels rechecked (ask side first).
pub open spec fn step_cancel(m: BookModel, order: Order) -> (BookModel, Seq<Event>) {
    let asks2 = cancel_levels(m.asks, order.user, order.user_order_id);
    let bids2 = cancel_levels(m.bids, order.user, order.user_order_id);
    let ask_top = book_top(asks2, Side::Sell);
    let bid_top = book_top(bids2, Side::Buy);
    let m2 = BookModel {
        asks: asks2,
        bids: bids2,
        lowest_ask: ask_top,
        highest_bid: bid_top,
        matching: m.matching,
    };
    let events = seq![Event::Accept { user: order.user, user_order_id: order.user_order_id }]
        + tob_events(Side::Sell, m.lowest_ask, ask_top) + tob_events(Side::Buy, m.highest_bid, bid_top);
    (m2, events)
}

/// One engine step: the next state and the events emitted, in order, for
/// one instruction applied to a given state.
pub open spec fn step(m: BookModel, order: Order) -> (BookModel, Seq<Event>) {
    match order.kind {
        Kind::New => step_new(m, order),
        Kind::Cancel => step_cancel(m, order),
        Kind::Flush => (empty_book(m.matching), seq![Event::FlushSeparator]),
    }
}

/// The state and the concatenated events after a whole sequence of
/// instructions, applied in order to a starting state.
pub open spec fn run(m: BookModel, orders: Seq<Order>) -> (BookModel, Seq<Event>)
    decreases orders.len(),
{
    if orders.len() == 0 {
        (m, Seq::empty())
    } else {
        let first = step(m, orders.first());
        let rest = run(first.0, orders.drop_first());
        (rest.0, first.1 + rest.1)
    }
}

} // verus!
