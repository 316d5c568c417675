//! Supporting lemmas about the model: facts about aggregate quantities,
//! the characterisation of the first-index functions, and preservation of
//! well-formedness by the book operations.

use vstd::prelude::*;

use crate::model::{
    best_index, book_top, cancel_levels, eligible, has_id, insert_order, insert_pos, level_wf,
    levels_wf, match_pos, qty_sum, qty_sum_at, remove_by_id, remove_order_at, LevelModel,
};
use crate::order::{Order, Side};

verus! {

/// An aggregate of nonnegative quantities is nonnegative.
pub proof fn lemma_qty_sum_nonneg(orders: Seq<Order>)
    requires
        forall|j: int| 0 <= j < orders.len() ==> (#[trigger] orders[j]).qty >= 0,
    ensures
        qty_sum(orders) >= 0,
    decreases orders.len(),
{
    if orders.len() > 0 {
        lemma_qty_sum_nonneg(orders.drop_last());
    }
}

/// Extending a prefix by one order adds that order's quantity.
pub proof fn lemma_qty_sum_take_succ(orders: Seq<Order>, i: int)
    requires
        0 <= i < orders.len(),
    ensures
        qty_sum(orders.take(i + 1)) == qty_sum(orders.take(i)) + orders[i].qty,
{
    assert(orders.take(i + 1).drop_last() =~= orders.take(i));
    assert(orders.take(i + 1).last() == orders[i]);
}

/// With nonnegative quantities, a prefix aggregate never exceeds the whole.
pub proof fn lemma_qty_sum_prefix_le(orders: Seq<Order>, i: int)
    requires
        0 <= i <= orders.len(),
        forall|j: int| 0 <= j < orders.len() ==> (#[trigger] orders[j]).qty >= 0,
    ensures
        qty_sum(orders.take(i)) <= qty_sum(orders),
    decreases orders.len(),
{
    if i == orders.len() {
        assert(orders.take(i) =~= orders);
    } else {
        assert(orders.take(i) =~= orders.drop_last().take(i));
        lemma_qty_sum_prefix_le(orders.drop_last(), i);
    }
}

/// Removing one order subtracts exactly its quantity from the aggregate.
pub proof fn lemma_qty_sum_remove(orders: Seq<Order>, j: int)
    requires
        0 <= j < orders.len(),
    ensures
        qty_sum(orders.remove(j)) == qty_sum(orders) - orders[j].qty,
    decreases orders.len(),
{
    if j == orders.len() - 1 {
        assert(orders.remove(j) =~= orders.drop_last());
    } else {
        assert(orders.remove(j).drop_last() =~= orders.drop_last().remove(j));
        assert(orders.remove(j).last() == orders.last());
        lemma_qty_sum_remove(orders.drop_last(), j);
    }
}

/// `insert_pos` is in bounds, every earlier level is cheaper, and the
/// level at the position (when there is one) is not cheaper.
pub proof fn lemma_insert_pos_bounds(levels: Seq<LevelModel>, price: i32)
    ensures
        0 <= insert_pos(levels, price) <= levels.len(),
        forall|k: int| 0 <= k < insert_pos(levels, price) ==> (#[trigger] levels[k]).price < price,
        insert_pos(levels, price) < levels.len() ==> levels[insert_pos(levels, price)].price
            >= price,
    decreases levels.len(),
{
    if levels.len() > 0 && levels[0].price < price {
        let rest = levels.drop_first();
        lemma_insert_pos_bounds(rest, price);
        assert(insert_pos(levels, price) == 1 + insert_pos(rest, price));
        assert forall|k: int| 0 <= k < insert_pos(levels, price) implies (
        #[trigger] levels[k]).price < price by {
            if k > 0 {
                assert(levels[k] == rest[k - 1]);
            }
        }
        if insert_pos(levels, price) < levels.len() {
            assert(levels[insert_pos(levels, price)] == rest[insert_pos(rest, price)]);
        }
    }
}

/// Any index with the first-level-not-cheaper property is `insert_pos`.
pub proof fn lemma_insert_pos_char(levels: Seq<LevelModel>, price: i32, i: int)
    requires
        0 <= i <= levels.len(),
        forall|k: int| 0 <= k < i ==> (#[trigger] levels[k]).price < price,
        i < levels.len() ==> levels[i].price >= price,
    ensures
        insert_pos(levels, price) == i,
{
    lemma_insert_pos_bounds(levels, price);
    let p = insert_pos(levels, price);
    if p < i {
        assert(levels[p].price < price);
    }
    if i < p {
        assert(levels[i].price < price);
    }
}

/// `match_pos` is in bounds, nothing before it is eligible, and the order
/// at the position (when there is one) is eligible.
pub proof fn lemma_match_pos_bounds(orders: Seq<Order>, incoming: Order)
    ensures
        0 <= match_pos(orders, incoming) <= orders.len(),
        forall|k: int|
            0 <= k < match_pos(orders, incoming) ==> !eligible(#[trigger] orders[k], incoming),
        match_pos(orders, incoming) < orders.len() ==> eligible(
            orders[match_pos(orders, incoming)],
            incoming,
        ),
    decreases orders.len(),
{
    if orders.len() > 0 && !eligible(orders[0], incoming) {
        let rest = orders.drop_first();
        lemma_match_pos_bounds(rest, incoming);
        assert(match_pos(orders, incoming) == 1 + match_pos(rest, incoming));
        assert forall|k: int| 0 <= k < match_pos(orders, incoming) implies !eligible(
            #[trigger] orders[k],
            incoming,
        ) by {
            if k > 0 {
                assert(orders[k] == rest[k - 1]);
            }
        }
        if match_pos(orders, incoming) < orders.len() {
            assert(orders[match_pos(orders, incoming)] == rest[match_pos(rest, incoming)]);
        }
    }
}

/// Any index with the first-eligible property is `match_pos`.
pub proof fn lemma_match_pos_char(orders: Seq<Order>, incoming: Order, i: int)
    requires
        0 <= i <= orders.len(),
        forall|k: int| 0 <= k < i ==> !eligible(#[trigger] orders[k], incoming),
        i < orders.len() ==> eligible(orders[i], incoming),
    ensures
        match_pos(orders, incoming) == i,
{
    lemma_match_pos_bounds(orders, incoming);
    let p = match_pos(orders, incoming);
    if p < i {
        assert(!eligible(orders[p], incoming));
    }
    if i < p {
        assert(!eligible(orders[i], incoming));
    }
}

/// Every order kept by `remove_by_id` was in the sequence, and the
/// aggregate quantity does not grow.
pub proof fn lemma_remove_by_id_props(orders: Seq<Order>, user: i32, user_order_id: i32)
    requires
        forall|j: int| 0 <= j < orders.len() ==> (#[trigger] orders[j]).qty >= 0,
    ensures
        remove_by_id(orders, user, user_order_id).len() <= orders.len(),
        forall|j: int|
            0 <= j < remove_by_id(orders, user, user_order_id).len() ==> orders.contains(
                #[trigger] remove_by_id(orders, user, user_order_id)[j],
            ),
        qty_sum(remove_by_id(orders, user, user_order_id)) <= qty_sum(orders),
    decreases orders.len(),
{
    if orders.len() > 0 {
        lemma_remove_by_id_props(orders.drop_last(), user, user_order_id);
        lemma_qty_sum_nonneg(orders.drop_last());
        assert(forall|j: int|
            0 <= j < orders.drop_last().len() ==> orders.contains(
                #[trigger] orders.drop_last()[j],
            ));
        assert(orders.contains(orders.last()));
        let rest = remove_by_id(orders.drop_last(), user, user_order_id);
        if !has_id(orders.last(), user, user_order_id) {
            assert(rest.push(orders.last()).drop_last() =~= rest);
            assert(qty_sum(rest.push(orders.last())) == qty_sum(rest) + orders.last().qty);
        }
    }
}

/// When no order carries the identity, `remove_by_id` changes nothing.
pub proof fn lemma_remove_by_id_noop(orders: Seq<Order>, user: i32, user_order_id: i32)
    requires
        forall|j: int| 0 <= j < orders.len() ==> !has_id(#[trigger] orders[j], user, user_order_id),
    ensures
        remove_by_id(orders, user, user_order_id) == orders,
    decreases orders.len(),
{
    if orders.len() > 0 {
        lemma_remove_by_id_noop(orders.drop_last(), user, user_order_id);
        assert(remove_by_id(orders, user, user_order_id) =~= orders);
    } else {
        assert(remove_by_id(orders, user, user_order_id) =~= orders);
    }
}

/// A cancellation keeps a side well formed, and every surviving level's
/// price was the price of some level before.
pub proof fn lemma_cancel_levels_wf(levels: Seq<LevelModel>, user: i32, user_order_id: i32, side: Side)
    requires
        levels_wf(levels, side),
    ensures
        levels_wf(cancel_levels(levels, user, user_order_id), side),
        forall|i: int|
            0 <= i < cancel_levels(levels, user, user_order_id).len() ==> exists|k: int|
                0 <= k < levels.len() && (#[trigger] cancel_levels(levels, user, user_order_id)[i]).price
                    == levels[k].price,
    decreases levels.len(),
{
    let result = cancel_levels(levels, user, user_order_id);
    if levels.len() > 0 {
        let prefix = levels.drop_last();
        assert(levels_wf(prefix, side)) by {
            assert(forall|i: int| 0 <= i < prefix.len() ==> prefix[i] == levels[i]);
        }
        lemma_cancel_levels_wf(prefix, user, user_order_id, side);
        let rest = cancel_levels(prefix, user, user_order_id);
        let last = levels.last();
        assert(level_wf(last, side));
        let kept = remove_by_id(last.orders, user, user_order_id);
        lemma_remove_by_id_props(last.orders, user, user_order_id);
        if kept.len() != 0 {
            let new_last = LevelModel { price: last.price, orders: kept };
            assert(result == rest.push(new_last));
            // each kept order was in the old level, so the per-order facts carry over
            assert(forall|j: int|
                0 <= j < kept.len() ==> last.orders.contains(#[trigger] kept[j]));
            assert(level_wf(new_last, side));
            // prices of `rest` come from the strictly sorted prefix, so they
            // stay below the price of the appended level
            assert(forall|i: int| 0 <= i < rest.len() ==> (#[trigger] rest[i]).price < new_last.price)
                by {
                assert(forall|k: int| 0 <= k < prefix.len() ==> (#[trigger] prefix[k]).price < last.price);
            }
            assert(forall|i: int, j: int|
                0 <= i < j < result.len() ==> (#[trigger] result[i]).price < (
                #[trigger] result[j]).price);
            assert(forall|i: int| 0 <= i < result.len() ==> level_wf(#[trigger] result[i], side));
            assert(forall|i: int|
                0 <= i < result.len() ==> exists|k: int|
                    0 <= k < levels.len() && (#[trigger] result[i]).price == levels[k].price) by {
                assert(forall|i: int|
                    0 <= i < rest.len() ==> exists|k: int|
                        0 <= k < prefix.len() && (#[trigger] rest[i]).price == prefix[k].price);
                assert(forall|k: int| 0 <= k < prefix.len() ==> prefix[k] == levels[k]);
                assert(result[result.len() - 1].price == levels[levels.len() - 1].price);
            }
        } else {
            assert(result == rest);
            assert(forall|k: int| 0 <= k < prefix.len() ==> prefix[k] == levels[k]);
        }
    }
}

/// A cancellation that names no resting order leaves the side unchanged.
pub proof fn lemma_cancel_levels_noop(levels: Seq<LevelModel>, user: i32, user_order_id: i32)
    requires
        forall|i: int, j: int|
            0 <= i < levels.len() && 0 <= j < (#[trigger] levels[i]).orders.len() ==> !has_id(
                #[trigger] levels[i].orders[j],
                user,
                user_order_id,
            ),
        forall|i: int| 0 <= i < levels.len() ==> (#[trigger] levels[i]).orders.len() > 0,
    ensures
        cancel_levels(levels, user, user_order_id) == levels,
    decreases levels.len(),
{
    if levels.len() > 0 {
        let prefix = levels.drop_last();
        assert(forall|i: int| 0 <= i < prefix.len() ==> prefix[i] == levels[i]);
        lemma_cancel_levels_noop(prefix, user, user_order_id);
        let last = levels.last();
        lemma_remove_by_id_noop(last.orders, user, user_order_id);
        assert(cancel_levels(levels, user, user_order_id) =~= levels);
    } else {
        assert(cancel_levels(levels, user, user_order_id) =~= levels);
    }
}

/// Inserting an admissible new order keeps a side well formed.
pub proof fn lemma_insert_order_wf(levels: Seq<LevelModel>, order: Order, side: Side)
    requires
        levels_wf(levels, side),
        order.side == side,
        order.kind == crate::order::Kind::New,
        order.qty > 0,
        qty_sum_at(levels, order.price) + order.qty <= i32::MAX,
    ensures
        levels_wf(insert_order(levels, order), side),
    decreases levels.len(),
{
    lemma_insert_pos_bounds(levels, order.price);
    let i = insert_pos(levels, order.price);
    let result = insert_order(levels, order);
    if i < levels.len() && levels[i].price == order.price {
        let grown = LevelModel { price: order.price, orders: levels[i].orders.push(order) };
        assert(grown.orders.drop_last() =~= levels[i].orders);
        assert(qty_sum(grown.orders) == qty_sum(levels[i].orders) + order.qty);
        assert(level_wf(grown, side));
        assert(forall|k: int| 0 <= k < result.len() ==> level_wf(#[trigger] result[k], side));
    } else {
        let fresh = LevelModel { price: order.price, orders: seq![order] };
        assert(seq![order].drop_last() =~= Seq::<Order>::empty());
        assert(seq![order].last() == order);
        assert(qty_sum(Seq::<Order>::empty()) == 0);
        assert(qty_sum(fresh.orders) == order.qty);
        assert(level_wf(fresh, side));
        // strictly sorted after inserting at the found position
        assert(forall|k: int| 0 <= k < i ==> (#[trigger] result[k]) == levels[k]);
        assert(result[i] == fresh);
        assert(forall|k: int| i < k < result.len() ==> (#[trigger] result[k]) == levels[k - 1]);
        assert(i < levels.len() ==> levels[i].price > order.price);
        assert(forall|a: int, b: int|
            0 <= a < b < result.len() ==> (#[trigger] result[a]).price < (
            #[trigger] result[b]).price);
        assert(forall|k: int| 0 <= k < result.len() ==> level_wf(#[trigger] result[k], side));
    }
}

/// Removing one order from one level keeps a side well formed.
pub proof fn lemma_remove_order_at_wf(levels: Seq<LevelModel>, i: int, j: int, side: Side)
    requires
        levels_wf(levels, side),
        0 <= i < levels.len(),
        0 <= j < levels[i].orders.len(),
    ensures
        levels_wf(remove_order_at(levels, i, j), side),
{
    let l = levels[i];
    let kept = l.orders.remove(j);
    lemma_qty_sum_remove(l.orders, j);
    lemma_qty_sum_nonneg(kept);
    let result = remove_order_at(levels, i, j);
    if kept.len() == 0 {
        assert(forall|k: int| 0 <= k < i ==> (#[trigger] result[k]) == levels[k]);
        assert(forall|k: int| i <= k < result.len() ==> (#[trigger] result[k]) == levels[k + 1]);
        assert(forall|a: int, b: int|
            0 <= a < b < result.len() ==> (#[trigger] result[a]).price < (
            #[trigger] result[b]).price);
        assert(forall|k: int| 0 <= k < result.len() ==> level_wf(#[trigger] result[k], side));
    } else {
        assert(forall|k: int| 0 <= k < kept.len() ==> l.orders.contains(#[trigger] kept[k])) by {
            assert(forall|k: int|
                0 <= k < kept.len() ==> kept[k] == if k < j {
                    l.orders[k]
                } else {
                    l.orders[k + 1]
                });
        }
        assert(level_wf(result[i], side));
        assert(forall|k: int| 0 <= k < result.len() ==> level_wf(#[trigger] result[k], side));
    }
}

/// The best level of a well-formed side has a positive volume; in
/// particular its recomputed value is exact as an `i32`.
pub proof fn lemma_book_top_exact(levels: Seq<LevelModel>, side: Side)
    requires
        levels_wf(levels, side),
        levels.len() > 0,
    ensures
        0 < qty_sum(levels[best_index(levels, side)].orders) <= i32::MAX,
        book_top(levels, side) == Some(
            crate::order::TopLevel {
                price: levels[best_index(levels, side)].price,
                volume: qty_sum(levels[best_index(levels, side)].orders) as i32,
            },
        ),
{
    let l = levels[best_index(levels, side)];
    assert(level_wf(l, side));
    assert(l.orders.drop_last().len() == l.orders.len() - 1);
    lemma_qty_sum_nonneg(l.orders.drop_last());
    assert(qty_sum(l.orders) == qty_sum(l.orders.drop_last()) + l.orders.last().qty);
}

} // verus!
