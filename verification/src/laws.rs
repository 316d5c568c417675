//! The engine's laws, stated over the model and proved once and for all.
//!
//! Each proof function below states a property of `model::step` (or of a
//! whole `model::run`) for every state and instruction its `requires`
//! admits; since `add_order` is proved to follow `step` exactly, each
//! holds of the executable engine as well.

use vstd::prelude::*;

use crate::lemmas::{
    lemma_cancel_levels_noop, lemma_cancel_levels_wf, lemma_insert_order_wf,
    lemma_match_pos_bounds, lemma_match_pos_char, lemma_remove_order_at_wf,
};
use crate::model::{
    after_match, best_index, book_top, book_wf, cancel_levels, crosses, eligible, empty_book,
    found_match, has_id, insert_order, level_wf, levels_wf, match_pos, opposite, order_ok,
    run, side_cache, side_levels, step, with_side, BookModel,
};
use crate::order::{Event, Kind, Order, Side};

verus! {

/// A step keeps the state well formed: both books sorted and clean, both
/// caches exact.
pub proof fn lemma_step_wf(m: BookModel, order: Order)
    requires
        book_wf(m),
        order_ok(m, order),
    ensures
        book_wf(step(m, order).0),
{
    match order.kind {
        Kind::Flush => {
        },
        Kind::Cancel => {
            lemma_cancel_levels_wf(m.asks, order.user, order.user_order_id, Side::Sell);
            lemma_cancel_levels_wf(m.bids, order.user, order.user_order_id, Side::Buy);
        },
        Kind::New => {
            if !m.matching && crosses(m, order) {
            } else {
                let opp = opposite(order.side);
                let opp_levels = side_levels(m, opp);
                match (if m.matching {
                    found_match(opp_levels, order)
                } else {
                    None
                }) {
                    Some(resting) => {
                        let i = best_index(opp_levels, opp);
                        let j = match_pos(opp_levels[i].orders, order);
                        lemma_match_pos_bounds(opp_levels[i].orders, order);
                        lemma_remove_order_at_wf(opp_levels, i, j, opp);
                    },
                    None => {
                        lemma_insert_order_wf(side_levels(m, order.side), order, order.side);
                    },
                }
            }
        },
    }
}

/// A new order that does not cross the book is accepted and comes to rest
/// in its side, whether or not matching is enabled; it is never rejected
/// and never trades.
pub proof fn lemma_no_cross_accepted(m: BookModel, order: Order)
    requires
        book_wf(m),
        order.kind == Kind::New,
        !crosses(m, order),
    ensures
        step(m, order).0 == with_side(m, order.side, insert_order(side_levels(m, order.side), order)),
        step(m, order).1.len() >= 1,
        step(m, order).1[0] == (Event::Accept { user: order.user, user_order_id: order.user_order_id }),
        forall|j: int|
            0 <= j < step(m, order).1.len() ==> !((#[trigger] step(m, order).1[j]) is Reject),
        forall|j: int|
            0 <= j < step(m, order).1.len() ==> !((#[trigger] step(m, order).1[j]) is Trade),
{
    let opp = opposite(order.side);
    let opp_levels = side_levels(m, opp);
    if m.matching {
        // nothing at the opposite best level can be eligible: its price is
        // the best price, and a marketable best price would mean crossing
        if opp_levels.len() > 0 {
            let i = best_index(opp_levels, opp);
            let j = match_pos(opp_levels[i].orders, order);
            lemma_match_pos_bounds(opp_levels[i].orders, order);
            if j < opp_levels[i].orders.len() {
                assert(level_wf(opp_levels[i], opp));
                assert(opp_levels[i].orders[j].price == opp_levels[i].price);
                assert(eligible(opp_levels[i].orders[j], order));
                assert(crosses(m, order));
            }
        }
        assert(found_match(opp_levels, order) is None);
    }
}

/// While matching is disabled, a new order that crosses the book is
/// rejected, emits nothing else, and leaves the whole state untouched.
pub proof fn lemma_crossing_rejected(m: BookModel, order: Order)
    requires
        !m.matching,
        order.kind == Kind::New,
        crosses(m, order),
    ensures
        step(m, order).0 == m,
        step(m, order).1 == (seq![
            Event::Reject { user: order.user, user_order_id: order.user_order_id },
        ]),
{
}

/// A top-of-book update is emitted exactly for a side whose best
/// (price, volume) pair changed, and it reports the new pair; an
/// instruction that changes nothing on a side emits nothing for it.
/// (A flush clears the books silently, so it is left out here.)
pub proof fn lemma_tob_updates_exact(m: BookModel, order: Order)
    requires
        book_wf(m),
        order.kind != Kind::Flush,
    ensures
        forall|s: Side|
            #[trigger] book_top(side_levels(step(m, order).0, s), s) != side_cache(m, s)
                ==> exists|j: int|
                0 <= j < step(m, order).1.len() && (#[trigger] step(m, order).1[j]) == (
                Event::BookUpdate { side: s, top: book_top(side_levels(step(m, order).0, s), s) }),
        forall|j: int|
            0 <= j < step(m, order).1.len() ==> ((#[trigger] step(m, order).1[j]) matches
                Event::BookUpdate { side: s, top: t } ==> {
                &&& t == book_top(side_levels(step(m, order).0, s), s)
                &&& t != side_cache(m, s)
            }),
{
    let evts = step(m, order).1;
    let m2 = step(m, order).0;
    assert forall|s: Side|
        #[trigger] book_top(side_levels(m2, s), s) != side_cache(m, s) implies exists|j: int|
        0 <= j < evts.len() && (#[trigger] evts[j]) == (Event::BookUpdate {
            side: s,
            top: book_top(side_levels(m2, s), s),
        }) by {
        match order.kind {
            Kind::Flush => {
            },
            Kind::Cancel => {
                let ask_top = book_top(
                    cancel_levels(m.asks, order.user, order.user_order_id),
                    Side::Sell,
                );
                let bid_top = book_top(
                    cancel_levels(m.bids, order.user, order.user_order_id),
                    Side::Buy,
                );
                match s {
                    Side::Sell => {
                        assert(evts[1] == (Event::BookUpdate { side: Side::Sell, top: ask_top }));
                    },
                    Side::Buy => {
                        if ask_top == m.lowest_ask {
                            assert(evts[1] == (Event::BookUpdate { side: Side::Buy, top: bid_top }));
                        } else {
                            assert(evts[2] == (Event::BookUpdate { side: Side::Buy, top: bid_top }));
                        }
                    },
                }
            },
            Kind::New => {
                if !m.matching && crosses(m, order) {
                    // nothing moved, so the premise contradicts exactness
                    // of the caches
                    assert(book_top(side_levels(m, s), s) == side_cache(m, s));
                } else {
                    let opp = opposite(order.side);
                    match (if m.matching {
                        found_match(side_levels(m, opp), order)
                    } else {
                        None
                    }) {
                        Some(resting) => {
                            let top2 = book_top(after_match(side_levels(m, opp), order), opp);
                            assert(s == opp || s == order.side);
                            if s == opp {
                                assert(evts[2] == (Event::BookUpdate { side: opp, top: top2 }));
                            } else {
                                assert(book_top(side_levels(m, s), s) == side_cache(m, s));
                            }
                        },
                        None => {
                            let top2 = book_top(
                                insert_order(side_levels(m, order.side), order),
                                order.side,
                            );
                            if s == order.side {
                                assert(evts[1] == (Event::BookUpdate {
                                    side: order.side,
                                    top: top2,
                                }));
                            } else {
                                assert(book_top(side_levels(m, s), s) == side_cache(m, s));
                            }
                        },
                    }
                }
            },
        }
    }
}

/// A cancellation that names no currently resting order is still
/// acknowledged, and it changes nothing: no book mutation, no top-of-book
/// event.
pub proof fn lemma_cancel_unknown_is_noop(m: BookModel, order: Order)
    requires
        book_wf(m),
        order.kind == Kind::Cancel,
        forall|i: int, j: int|
            0 <= i < m.asks.len() && 0 <= j < (#[trigger] m.asks[i]).orders.len() ==> !has_id(
                #[trigger] m.asks[i].orders[j],
                order.user,
                order.user_order_id,
            ),
        forall|i: int, j: int|
            0 <= i < m.bids.len() && 0 <= j < (#[trigger] m.bids[i]).orders.len() ==> !has_id(
                #[trigger] m.bids[i].orders[j],
                order.user,
                order.user_order_id,
            ),
    ensures
        step(m, order).0 == m,
        step(m, order).1 == (seq![
            Event::Accept { user: order.user, user_order_id: order.user_order_id },
        ]),
{
    lemma_cancel_levels_noop(m.asks, order.user, order.user_order_id);
    lemma_cancel_levels_noop(m.bids, order.user, order.user_order_id);
    assert(step(m, order).0 =~= m);
    assert(step(m, order).1 =~= seq![
        Event::Accept { user: order.user, user_order_id: order.user_order_id },
    ]);
}

/// A flush emits only the separator and resets the whole state to the one
/// the engine was constructed with: both sides empty, both best levels
/// absent, so every later instruction behaves as on a fresh engine.
pub proof fn lemma_flush_resets(m: BookModel, order: Order)
    requires
        order.kind == Kind::Flush,
    ensures
        step(m, order).0 == empty_book(m.matching),
        side_cache(step(m, order).0, Side::Buy) is None,
        side_cache(step(m, order).0, Side::Sell) is None,
        book_top(side_levels(step(m, order).0, Side::Buy), Side::Buy) is None,
        book_top(side_levels(step(m, order).0, Side::Sell), Side::Sell) is None,
        step(m, order).1 == (seq![Event::FlushSeparator]),
{
}

/// In match mode only the opposite side's single best level is examined:
/// when no order of that level is eligible, no trade happens and the
/// incoming order comes to rest — even if an eligible order rests at a
/// worse level.
pub proof fn lemma_match_only_best_level(m: BookModel, order: Order)
    requires
        book_wf(m),
        m.matching,
        order.kind == Kind::New,
        side_levels(m, opposite(order.side)).len() > 0,
        forall|j: int|
            0 <= j < side_levels(m, opposite(order.side))[best_index(
                side_levels(m, opposite(order.side)),
                opposite(order.side),
            )].orders.len() ==> !eligible(
                #[trigger] side_levels(m, opposite(order.side))[best_index(
                    side_levels(m, opposite(order.side)),
                    opposite(order.side),
                )].orders[j],
                order,
            ),
    ensures
        found_match(side_levels(m, opposite(order.side)), order) is None,
        step(m, order).0 == with_side(m, order.side, insert_order(side_levels(m, order.side), order)),
        forall|j: int|
            0 <= j < step(m, order).1.len() ==> !((#[trigger] step(m, order).1[j]) is Trade),
{
    let opp = opposite(order.side);
    let opp_levels = side_levels(m, opp);
    let i = best_index(opp_levels, opp);
    lemma_match_pos_char(opp_levels[i].orders, order, opp_levels[i].orders.len() as int);
}

/// In match mode a trade, when it happens, consumes the first eligible
/// order of the opposite side's single best level, and the trade event
/// reports that very order.
pub proof fn lemma_trade_from_best_level(m: BookModel, order: Order)
    requires
        book_wf(m),
        m.matching,
        order.kind == Kind::New,
        found_match(side_levels(m, opposite(order.side)), order) is Some,
    ensures
        side_levels(m, opposite(order.side)).len() > 0,
        ({
            let opp = opposite(order.side);
            let l = side_levels(m, opp)[best_index(side_levels(m, opp), opp)];
            let j = match_pos(l.orders, order);
            &&& 0 <= j < l.orders.len()
            &&& eligible(l.orders[j], order)
            &&& forall|k: int| 0 <= k < j ==> !eligible(#[trigger] l.orders[k], order)
            &&& found_match(side_levels(m, opp), order) == Some(l.orders[j])
            &&& step(m, order).1.contains(crate::model::trade_event(order, l.orders[j]))
            &&& step(m, order).0 == with_side(m, opp, after_match(side_levels(m, opp), order))
        }),
{
    let opp = opposite(order.side);
    let opp_levels = side_levels(m, opp);
    let i = best_index(opp_levels, opp);
    lemma_match_pos_bounds(opp_levels[i].orders, order);
    let resting = found_match(opp_levels, order)->Some_0;
    assert(step(m, order).1[1] == crate::model::trade_event(order, resting));
}

/// Running a prefix one instruction further is one step from the shorter
/// prefix's state.
proof fn lemma_run_unfold(m: BookModel, orders: Seq<Order>, k: int)
    requires
        1 <= k <= orders.len(),
    ensures
        run(m, orders.take(k)).0 == run(step(m, orders.first()).0, orders.drop_first().take(k - 1)).0,
{
    let s = orders.take(k);
    assert(s.first() == orders.first());
    assert(s.drop_first() =~= orders.drop_first().take(k - 1));
}

/// Over a whole sequence of new orders, none of which crosses the book at
/// the moment it arrives, every order is acknowledged and none is ever
/// rejected, whether or not matching is enabled.
pub proof fn lemma_run_never_rejects(m: BookModel, orders: Seq<Order>)
    requires
        book_wf(m),
        forall|i: int| 0 <= i < orders.len() ==> (#[trigger] orders[i]).kind == Kind::New,
        forall|i: int|
            0 <= i < orders.len() ==> order_ok(run(m, orders.take(i)).0, #[trigger] orders[i]),
        forall|i: int|
            0 <= i < orders.len() ==> !crosses(run(m, orders.take(i)).0, #[trigger] orders[i]),
    ensures
        forall|j: int|
            0 <= j < run(m, orders).1.len() ==> !((#[trigger] run(m, orders).1[j]) is Reject),
        forall|i: int|
            0 <= i < orders.len() ==> run(m, orders).1.contains(
                Event::Accept {
                    user: (#[trigger] orders[i]).user,
                    user_order_id: orders[i].user_order_id,
                },
            ),
    decreases orders.len(),
{
    let evts = run(m, orders).1;
    if orders.len() > 0 {
        let first = orders.first();
        let rest = orders.drop_first();
        assert(orders.take(0) =~= Seq::<Order>::empty());
        assert(orders[0] == first);
        assert(run(m, orders.take(0)).0 == m);
        lemma_no_cross_accepted(m, first);
        lemma_step_wf(m, first);
        let m1 = step(m, first).0;
        let e1 = step(m, first).1;
        let rest_evts = run(m1, rest).1;
        assert(evts == e1 + rest_evts);
        assert forall|i: int| 0 <= i < rest.len() implies {
            &&& (#[trigger] rest[i]).kind == Kind::New
            &&& order_ok(run(m1, rest.take(i)).0, rest[i])
            &&& !crosses(run(m1, rest.take(i)).0, rest[i])
        } by {
            assert(rest[i] == orders[i + 1]);
            lemma_run_unfold(m, orders, i + 1);
        }
        lemma_run_never_rejects(m1, rest);
        assert forall|j: int| 0 <= j < evts.len() implies !((#[trigger] evts[j]) is Reject) by {
            if j < e1.len() {
                assert(evts[j] == e1[j]);
            } else {
                assert(evts[j] == rest_evts[j - e1.len()]);
            }
        }
        assert forall|i: int| 0 <= i < orders.len() implies evts.contains(
            Event::Accept {
                user: (#[trigger] orders[i]).user,
                user_order_id: orders[i].user_order_id,
            },
        ) by {
            let e = Event::Accept { user: orders[i].user, user_order_id: orders[i].user_order_id };
            if i == 0 {
                assert(evts[0] == e1[0]);
                assert(evts[0] == e);
            } else {
                assert(rest[i - 1] == orders[i]);
                assert(rest_evts.contains(e));
                let k = choose|k: int| 0 <= k < rest_evts.len() && rest_evts[k] == e;
                assert(evts[e1.len() + k] == e);
            }
        }
    }
}

} // verus!
