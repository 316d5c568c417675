//! The executable order book engine, proved to follow `model::step`.

use vstd::prelude::*;

use crate::lemmas::{
    lemma_book_top_exact, lemma_cancel_levels_wf, lemma_insert_order_wf, lemma_insert_pos_char,
    lemma_match_pos_char, lemma_qty_sum_nonneg, lemma_qty_sum_prefix_le, lemma_qty_sum_take_succ,
    lemma_remove_order_at_wf,
};
use crate::model::{
    after_match, best_index, book_top, book_wf, cancel_levels, crosses, eligible, empty_book,
    found_match, insert_order, level_wf, levels_wf, match_pos, opposite, order_ok, qty_sum,
    qty_sum_at, set_cache, side_cache, side_levels, step, step_cancel, step_new, tob_events,
    trade_event, with_side, BookModel, LevelModel,
};
use crate::order::{Event, Kind, Order, Side, TopLevel};

verus! {

/// One price level of one side of the book: the orders resting at `price`,
/// oldest first.
pub struct Level {
    pub price: i32,
    pub orders: Vec<Order>,
}

impl View for Level {
    type V = LevelModel;

    open spec fn view(&self) -> LevelModel {
        LevelModel { price: self.price, orders: self.orders@ }
    }
}

/// The model of a whole side of the book.
pub open spec fn view_levels(levels: Seq<Level>) -> Seq<LevelModel> {
    Seq::new(levels.len(), |i: int| levels[i]@)
}

/// Aggregate quantity of the orders of one level.
fn level_volume(orders: &Vec<Order>) -> (v: i32)
    requires
        forall|j: int| 0 <= j < orders@.len() ==> (#[trigger] orders@[j]).qty >= 0,
        qty_sum(orders@) <= i32::MAX,
    ensures
        v as int == qty_sum(orders@),
{
    let mut v: i32 = 0;
    let mut j: usize = 0;
    while j < orders.len()
        invariant
            j <= orders@.len(),
            v as int == qty_sum(orders@.take(j as int)),
            forall|k: int| 0 <= k < orders@.len() ==> (#[trigger] orders@[k]).qty >= 0,
            qty_sum(orders@) <= i32::MAX,
        decreases orders@.len() - j,
    {
        proof {
            lemma_qty_sum_take_succ(orders@, j as int);
            lemma_qty_sum_prefix_le(orders@, j as int + 1);
            assert(forall|k: int|
                0 <= k < orders@.take(j as int + 1).len() ==> (#[trigger] orders@.take(
                    j as int + 1,
                )[k]).qty >= 0);
            lemma_qty_sum_nonneg(orders@.take(j as int + 1));
        }
        v = v + orders[j].qty;
        j = j + 1;
    }
    proof {
        assert(orders@.take(orders@.len() as int) =~= orders@);
    }
    v
}

/// The current best level of a side, or `None` when the side is empty.
fn compute_top(levels: &Vec<Level>, side: Side) -> (t: Option<TopLevel>)
    requires
        levels_wf(view_levels(levels@), side),
    ensures
        t == book_top(view_levels(levels@), side),
{
    let ghost m = view_levels(levels@);
    if levels.len() == 0 {
        None
    } else {
        let idx: usize = match side {
            Side::Sell => 0,
            Side::Buy => levels.len() - 1,
        };
        proof {
            assert(idx as int == best_index(m, side));
            assert(level_wf(m[idx as int], side));
            lemma_book_top_exact(m, side);
        }
        let volume = level_volume(&levels[idx].orders);
        Some(TopLevel { price: levels[idx].price, volume })
    }
}

/// Whether a resting order can be consumed by the incoming one.
fn order_eligible(resting: &Order, incoming: &Order) -> (r: bool)
    ensures
        r == eligible(*resting, *incoming),
{
    let price_ok = match incoming.side {
        Side::Buy => resting.price <= incoming.price,
        Side::Sell => resting.price >= incoming.price,
    };
    price_ok && resting.qty == incoming.qty
}

/// Let a new order rest in a side of the book: appended to its price level
/// when one exists, else in a fresh level at the sorted position.
fn book_insert(levels: &mut Vec<Level>, order: Order)
    ensures
        view_levels(final(levels)@) == insert_order(view_levels(old(levels)@), order),
{
    let ghost m = view_levels(levels@);
    let mut idx: usize = 0;
    while idx < levels.len() && levels[idx].price < order.price
        invariant
            idx <= levels@.len(),
            view_levels(levels@) == m,
            forall|k: int| 0 <= k < idx ==> (#[trigger] m[k]).price < order.price,
        decreases levels@.len() - idx,
    {
        idx = idx + 1;
    }
    proof {
        lemma_insert_pos_char(m, order.price, idx as int);
    }
    if idx < levels.len() && levels[idx].price == order.price {
        let mut l = levels.remove(idx);
        l.orders.push(order);
        levels.insert(idx, l);
        proof {
            assert(view_levels(levels@) =~= insert_order(m, order));
        }
    } else {
        let mut orders: Vec<Order> = Vec::new();
        orders.push(order);
        levels.insert(idx, Level { price: order.price, orders });
        proof {
            assert(view_levels(levels@) =~= insert_order(m, order));
        }
    }
}

/// Remove every order with the given identity from a side, pruning any
/// level left empty.
fn book_cancel(levels: &mut Vec<Level>, user: i32, user_order_id: i32)
    ensures
        view_levels(final(levels)@) == cancel_levels(view_levels(old(levels)@), user, user_order_id),
{
    let ghost m = view_levels(levels@);
    let mut result: Vec<Level> = Vec::new();
    let mut i: usize = 0;
    while i < levels.len()
        invariant
            i <= levels@.len(),
            view_levels(levels@) == m,
            view_levels(result@) == cancel_levels(m.take(i as int), user, user_order_id),
        decreases levels@.len() - i,
    {
        let ghost lm = m[i as int];
        let mut kept: Vec<Order> = Vec::new();
        let n = levels[i].orders.len();
        let mut j: usize = 0;
        while j < n
            invariant
                j <= n,
                i < levels@.len(),
                view_levels(levels@) == m,
                lm == m[i as int],
                n == lm.orders.len(),
                kept@ == crate::model::remove_by_id(lm.orders.take(j as int), user, user_order_id),
            decreases n - j,
        {
            let o = levels[i].orders[j];
            proof {
                assert(o == lm.orders[j as int]);
                assert(lm.orders.take(j as int + 1).drop_last() =~= lm.orders.take(j as int));
                assert(lm.orders.take(j as int + 1).last() == o);
            }
            if !(o.user == user && o.user_order_id == user_order_id) {
                kept.push(o);
            }
            j = j + 1;
        }
        proof {
            assert(lm.orders.take(n as int) =~= lm.orders);
        }
        if kept.len() > 0 {
            let price = levels[i].price;
            result.push(Level { price, orders: kept });
        }
        proof {
            assert(m.take(i as int + 1).drop_last() =~= m.take(i as int));
            assert(m.take(i as int + 1).last() == m[i as int]);
            assert(view_levels(result@) =~= cancel_levels(m.take(i as int + 1), user, user_order_id));
        }
        i = i + 1;
    }
    proof {
        assert(m.take(levels@.len() as int) =~= m);
    }
    *levels = result;
}

/// Attempt one match in the opposite side of the book: consume and return
/// the first resting order of the single best level that is eligible
/// against `incoming`, or leave the side unchanged.
fn book_match(levels: &mut Vec<Level>, incoming: &Order) -> (matched: Option<Order>)
    ensures
        matched == found_match(view_levels(old(levels)@), *incoming),
        matched is Some ==> view_levels(final(levels)@) == after_match(
            view_levels(old(levels)@),
            *incoming,
        ),
        matched is None ==> view_levels(final(levels)@) == view_levels(old(levels)@),
{
    let ghost m = view_levels(levels@);
    if levels.len() == 0 {
        return None;
    }
    let idx: usize = match incoming.side {
        Side::Buy => 0,
        Side::Sell => levels.len() - 1,
    };
    proof {
        assert(idx as int == best_index(m, opposite(incoming.side)));
    }
    let ghost lm = m[idx as int];
    let n = levels[idx].orders.len();
    let mut j: usize = 0;
    while j < n && !order_eligible(&levels[idx].orders[j], incoming)
        invariant
            j <= n,
            idx < levels@.len(),
            view_levels(levels@) == m,
            lm == m[idx as int],
            n == lm.orders.len(),
            forall|k: int| 0 <= k < j ==> !eligible(#[trigger] lm.orders[k], *incoming),
        decreases n - j,
    {
        j = j + 1;
    }
    proof {
        lemma_match_pos_char(lm.orders, *incoming, j as int);
    }
    if j < n {
        let resting = levels[idx].orders[j];
        let mut l = levels.remove(idx);
        l.orders.remove(j);
        if l.orders.len() > 0 {
            levels.insert(idx, l);
        }
        proof {
            assert(resting == lm.orders[j as int]);
            assert(view_levels(levels@) =~= after_match(m, *incoming));
        }
        Some(resting)
    } else {
        None
    }
}

/// One order book: an ask side and a bid side, the cached best level of
/// each, and the matching flag chosen at construction.
pub struct OrderBook {
    ask_book: Vec<Level>,
    bid_book: Vec<Level>,
    lowest_ask: Option<TopLevel>,
    highest_bid: Option<TopLevel>,
    match_orders: bool,
}

impl View for OrderBook {
    type V = BookModel;

    closed spec fn view(&self) -> BookModel {
        BookModel {
            asks: view_levels(self.ask_book@),
            bids: view_levels(self.bid_book@),
            lowest_ask: self.lowest_ask,
            highest_bid: self.highest_bid,
            matching: self.match_orders,
        }
    }
}

impl OrderBook {
    /// Both sides well formed and both caches exact.
    pub open spec fn wf(&self) -> bool {
        book_wf(self@)
    }

    /// A fresh, empty order book.  With `match_orders` set, crossing
    /// orders attempt to trade; without it they are rejected.
    pub fn new(match_orders: bool) -> (book: OrderBook)
        ensures
            book@ == empty_book(match_orders),
            book.wf(),
    {
        let book = OrderBook {
            ask_book: Vec::new(),
            bid_book: Vec::new(),
            lowest_ask: None,
            highest_bid: None,
            match_orders,
        };
        proof {
            assert(book@ =~= empty_book(match_orders));
        }
        book
    }

    /// Recompute one side's best level; when it differs from the cached
    /// one, emit an update event and store it.
    fn refresh_top(&mut self, side: Side, events: &mut Vec<Event>)
        requires
            levels_wf(side_levels(old(self)@, side), side),
        ensures
            final(self)@ == set_cache(
                old(self)@,
                side,
                book_top(side_levels(old(self)@, side), side),
            ),
            final(events)@ == old(events)@ + tob_events(
                side,
                side_cache(old(self)@, side),
                book_top(side_levels(old(self)@, side), side),
            ),
    {
        let t = match side {
            Side::Sell => compute_top(&self.ask_book, side),
            Side::Buy => compute_top(&self.bid_book, side),
        };
        let cached = match side {
            Side::Sell => self.lowest_ask,
            Side::Buy => self.highest_bid,
        };
        let changed = match (cached, t) {
            (Option::None, Option::None) => false,
            (Option::Some(a), Option::Some(b)) => a.price != b.price || a.volume != b.volume,
            _ => true,
        };
        if changed {
            events.push(Event::BookUpdate { side, top: t });
            match side {
                Side::Sell => {
                    self.lowest_ask = t;
                },
                Side::Buy => {
                    self.highest_bid = t;
                },
            }
        }
        proof {
            assert(self@ =~= set_cache(
                old(self)@,
                side,
                book_top(side_levels(old(self)@, side), side),
            ));
            assert(events@ =~= old(events)@ + tob_events(
                side,
                side_cache(old(self)@, side),
                book_top(side_levels(old(self)@, side), side),
            ));
        }
    }

    /// Whether a new order could execute at once against the opposite
    /// side's best level.
    fn crosses_the_book(&self, order: &Order) -> (r: bool)
        requires
            self.wf(),
        ensures
            r == crosses(self@, *order),
    {
        match order.side {
            Side::Buy => match self.lowest_ask {
                Some(t) => order.price >= t.price,
                None => false,
            },
            Side::Sell => match self.highest_bid {
                Some(t) => order.price <= t.price,
                None => false,
            },
        }
    }

    /// Attempt to consume one resting order of the opposite side's best
    /// level; emit the trade and recheck that side's best level.
    fn trade_order(&mut self, incoming: &Order, events: &mut Vec<Event>) -> (traded: bool)
        requires
            old(self).wf(),
            incoming.kind == Kind::New,
        ensures
            book_wf(final(self)@),
            ({
                let m = old(self)@;
                let opp = opposite(incoming.side);
                match found_match(side_levels(m, opp), *incoming) {
                    Some(resting) => {
                        let levels2 = after_match(side_levels(m, opp), *incoming);
                        &&& traded
                        &&& final(self)@ == with_side(m, opp, levels2)
                        &&& final(events)@ == old(events)@ + seq![trade_event(*incoming, resting)]
                            + tob_events(opp, side_cache(m, opp), book_top(levels2, opp))
                    },
                    None => {
                        &&& !traded
                        &&& final(self)@ == m
                        &&& final(events)@ == old(events)@
                    },
                }
            }),
    {
        let ghost m = self@;
        let ghost opp = opposite(incoming.side);
        let matched = match incoming.side {
            Side::Buy => book_match(&mut self.ask_book, incoming),
            Side::Sell => book_match(&mut self.bid_book, incoming),
        };
        proof {
            if matched is Some {
                let levels = side_levels(m, opp);
                let i = best_index(levels, opp);
                let j = match_pos(levels[i].orders, *incoming);
                crate::lemmas::lemma_match_pos_bounds(levels[i].orders, *incoming);
                lemma_remove_order_at_wf(levels, i, j, opp);
            }
        }
        let traded = match matched {
            Some(resting) => {
                let e = match incoming.side {
                    Side::Buy => Event::Trade {
                        buy_user: incoming.user,
                        buy_order_id: incoming.user_order_id,
                        sell_user: resting.user,
                        sell_order_id: resting.user_order_id,
                        price: resting.price,
                        qty: resting.qty,
                    },
                    Side::Sell => Event::Trade {
                        buy_user: resting.user,
                        buy_order_id: resting.user_order_id,
                        sell_user: incoming.user,
                        sell_order_id: incoming.user_order_id,
                        price: resting.price,
                        qty: resting.qty,
                    },
                };
                events.push(e);
                true
            },
            None => false,
        };
        match incoming.side {
            Side::Buy => self.refresh_top(Side::Sell, events),
            Side::Sell => self.refresh_top(Side::Buy, events),
        }
        proof {
            match found_match(side_levels(m, opp), *incoming) {
                Some(resting) => {
                    let levels2 = after_match(side_levels(m, opp), *incoming);
                    assert(self@ =~= with_side(m, opp, levels2));
                    assert(events@ =~= old(events)@ + seq![trade_event(*incoming, resting)]
                        + tob_events(opp, side_cache(m, opp), book_top(levels2, opp)));
                },
                None => {
                    assert(self@ =~= m);
                    assert(events@ =~= old(events)@);
                },
            }
        }
        traded
    }

    /// Process a new order: reject it when it crosses while matching is
    /// disabled; otherwise accept it, attempt one match in match mode, and
    /// let it rest when it was not consumed.
    fn new_user_order(&mut self, order: Order, events: &mut Vec<Event>)
        requires
            old(self).wf(),
            order.kind == Kind::New,
            order_ok(old(self)@, order),
        ensures
            final(self).wf(),
            final(self)@ == step_new(old(self)@, order).0,
            final(events)@ == old(events)@ + step_new(old(self)@, order).1,
    {
        let ghost m = self@;
        if !self.match_orders && self.crosses_the_book(&order) {
            events.push(Event::Reject { user: order.user, user_order_id: order.user_order_id });
            proof {
                assert(events@ =~= old(events)@ + step_new(m, order).1);
            }
            return;
        }
        events.push(Event::Accept { user: order.user, user_order_id: order.user_order_id });
        if self.match_orders {
            let traded = self.trade_order(&order, events);
            if traded {
                proof {
                    assert(events@ =~= old(events)@ + step_new(m, order).1);
                }
                return;
            }
        }
        proof {
            lemma_insert_order_wf(side_levels(m, order.side), order, order.side);
        }
        match order.side {
            Side::Buy => book_insert(&mut self.bid_book, order),
            Side::Sell => book_insert(&mut self.ask_book, order),
        }
        self.refresh_top(order.side, events);
        proof {
            let levels2 = insert_order(side_levels(m, order.side), order);
            assert(self@ =~= with_side(m, order.side, levels2));
            assert(events@ =~= old(events)@ + step_new(m, order).1);
        }
    }

    /// Process a cancellation: acknowledge it unconditionally, remove the
    /// identified order from whichever side holds it, and recheck both
    /// best levels.
    fn cancel_order(&mut self, order: Order, events: &mut Vec<Event>)
        requires
            old(self).wf(),
        ensures
            final(self).wf(),
            final(self)@ == step_cancel(old(self)@, order).0,
            final(events)@ == old(events)@ + step_cancel(old(self)@, order).1,
    {
        let ghost m = self@;
        events.push(Event::Accept { user: order.user, user_order_id: order.user_order_id });
        proof {
            lemma_cancel_levels_wf(m.asks, order.user, order.user_order_id, Side::Sell);
            lemma_cancel_levels_wf(m.bids, order.user, order.user_order_id, Side::Buy);
        }
        book_cancel(&mut self.ask_book, order.user, order.user_order_id);
        self.refresh_top(Side::Sell, events);
        book_cancel(&mut self.bid_book, order.user, order.user_order_id);
        self.refresh_top(Side::Buy, events);
        proof {
            assert(self@ =~= step_cancel(m, order).0);
            assert(events@ =~= old(events)@ + step_cancel(m, order).1);
        }
    }

    /// Clear both sides and both caches, after emitting the separator.
    fn flush(&mut self, events: &mut Vec<Event>)
        ensures
            final(self).wf(),
            final(self)@ == empty_book(old(self)@.matching),
            final(events)@ == old(events)@ + seq![Event::FlushSeparator],
    {
        events.push(Event::FlushSeparator);
        self.ask_book.clear();
        self.bid_book.clear();
        self.lowest_ask = None;
        self.highest_bid = None;
        proof {
            assert(self@ =~= empty_book(old(self)@.matching));
            assert(events@ =~= old(events)@ + seq![Event::FlushSeparator]);
        }
    }

    /// Apply one instruction and return the events it emits, in order.
    /// The state moves and the events are exactly those of `model::step`.
    pub fn add_order(&mut self, order: Order) -> (events: Vec<Event>)
        requires
            old(self).wf(),
            order_ok(old(self)@, order),
        ensures
            final(self).wf(),
            final(self)@ == step(old(self)@, order).0,
            events@ == step(old(self)@, order).1,
    {
        let mut events: Vec<Event> = Vec::new();
        match order.kind {
            Kind::New => self.new_user_order(order, &mut events),
            Kind::Cancel => self.cancel_order(order, &mut events),
            Kind::Flush => self.flush(&mut events),
        }
        proof {
            assert(events@ =~= Seq::<Event>::empty() + step(old(self)@, order).1);
        }
        events
    }

    /// The price of the current best bid, when there is one.
    pub fn get_highest_bid(&self) -> (r: Option<i32>)
        ensures
            r == (match self@.highest_bid {
                Some(t) => Some(t.price),
                None => None::<i32>,
            }),
    {
        match self.highest_bid {
            Some(t) => Some(t.price),
            None => None,
        }
    }

    /// The price of the current best ask, when there is one.
    pub fn get_lowest_ask(&self) -> (r: Option<i32>)
        ensures
            r == (match self@.lowest_ask {
                Some(t) => Some(t.price),
                None => None::<i32>,
            }),
    {
        match self.lowest_ask {
            Some(t) => Some(t.price),
            None => None,
        }
    }

    /// Aggregate quantity currently resting at exactly `price` on one
    /// side, 0 when no order does.
    pub fn volume_at(&self, side: Side, price: i32) -> (v: i32)
        requires
            self.wf(),
        ensures
            v as int == qty_sum_at(side_levels(self@, side), price),
    {
        let ghost m = side_levels(self@, side);
        let levels: &Vec<Level> = match side {
            Side::Buy => &self.bid_book,
            Side::Sell => &self.ask_book,
        };
        let mut i: usize = 0;
        while i < levels.len()
            invariant
                i <= levels@.len(),
                m == view_levels(levels@),
                m == side_levels(self@, side),
                levels_wf(m, side),
                forall|k: int| 0 <= k < i ==> (#[trigger] m[k]).price != price,
            decreases levels@.len() - i,
        {
            if levels[i].price == price {
                proof {
                    assert(m[i as int] == levels@[i as int]@);
                    assert(m[i as int].price == price);
                    assert forall|k: int| 0 <= k < i implies (#[trigger] m[k]).price < price by {
                        assert(m[k].price < m[i as int].price);
                    }
                    lemma_insert_pos_char(m, price, i as int);
                    assert(level_wf(m[i as int], side));
                    assert(qty_sum_at(m, price) == qty_sum(m[i as int].orders));
                    assert(m[i as int].orders == levels@[i as int].orders@);
                }
                return level_volume(&levels[i].orders);
            }
            i = i + 1;
        }
        proof {
            crate::lemmas::lemma_insert_pos_bounds(m, price);
            assert(qty_sum_at(m, price) == 0);
        }
        0
    }

    /// Whether the engine can be handed this instruction: a new order
    /// needs a positive quantity, and the aggregate quantity of its price
    /// level must stay within `i32` if it comes to rest there.
    pub fn accepts(&self, order: &Order) -> (r: bool)
        requires
            self.wf(),
        ensures
            r == order_ok(self@, *order),
    {
        match order.kind {
            Kind::New => {
                if order.qty <= 0 {
                    return false;
                }
                let v = self.volume_at(order.side, order.price);
                (v as i64) + (order.qty as i64) <= (i32::MAX as i64)
            },
            _ => true,
        }
    }
}

} // verus!
