//! Scenario tests: the documented example streams, the edge cases around
//! cancellation and flushing, and concrete checks of the matching rules.

use orderbook::order::{Event, Kind, Order, Side, TopLevel};
use orderbook::order_book::OrderBook;

fn new_order(user: i32, price: i32, qty: i32, side: Side, user_order_id: i32) -> Order {
    Order {
        kind: Kind::New,
        user,
        price,
        qty,
        side,
        user_order_id,
    }
}

fn cancel_order(user: i32, user_order_id: i32) -> Order {
    Order {
        kind: Kind::Cancel,
        user,
        price: 0,
        qty: 0,
        side: Side::Buy,
        user_order_id,
    }
}

fn accept(user: i32, user_order_id: i32) -> Event {
    Event::Accept {
        user,
        user_order_id,
    }
}

fn update(side: Side, price: i32, volume: i32) -> Event {
    Event::BookUpdate {
        side,
        top: Some(TopLevel { price, volume }),
    }
}

fn update_gone(side: Side) -> Event {
    Event::BookUpdate { side, top: None }
}

#[test]
fn example_without_matching() {
    let mut book = OrderBook::new(false);
    assert_eq!(
        book.add_order(new_order(1, 10, 100, Side::Buy, 1)),
        vec![accept(1, 1), update(Side::Buy, 10, 100)]
    );
    assert_eq!(
        book.add_order(new_order(1, 12, 100, Side::Sell, 2)),
        vec![accept(1, 2), update(Side::Sell, 12, 100)]
    );
    assert_eq!(
        book.add_order(new_order(2, 9, 100, Side::Buy, 101)),
        vec![accept(2, 101)]
    );
    assert_eq!(
        book.add_order(new_order(2, 11, 100, Side::Sell, 102)),
        vec![accept(2, 102), update(Side::Sell, 11, 100)]
    );
}

#[test]
fn example_with_matching() {
    let mut book = OrderBook::new(true);
    assert_eq!(
        book.add_order(new_order(1, 10, 100, Side::Buy, 1)),
        vec![accept(1, 1), update(Side::Buy, 10, 100)]
    );
    assert_eq!(
        book.add_order(new_order(2, 9, 100, Side::Sell, 101)),
        vec![
            accept(2, 101),
            Event::Trade {
                buy_user: 1,
                buy_order_id: 1,
                sell_user: 2,
                sell_order_id: 101,
                price: 10,
                qty: 100,
            },
            update_gone(Side::Buy),
        ]
    );
}

#[test]
fn crossing_is_rejected_on_both_sides() {
    let mut book = OrderBook::new(false);
    book.add_order(new_order(1, 10, 100, Side::Buy, 1));
    book.add_order(new_order(1, 12, 100, Side::Sell, 2));
    // a buy at the lowest ask crosses, a sell at the highest bid crosses
    assert_eq!(
        book.add_order(new_order(2, 12, 50, Side::Buy, 3)),
        vec![Event::Reject {
            user: 2,
            user_order_id: 3
        }]
    );
    assert_eq!(
        book.add_order(new_order(2, 10, 50, Side::Sell, 4)),
        vec![Event::Reject {
            user: 2,
            user_order_id: 4
        }]
    );
    // the rejected orders mutated nothing
    assert_eq!(book.get_highest_bid(), Some(10));
    assert_eq!(book.get_lowest_ask(), Some(12));
    assert_eq!(book.volume_at(Side::Buy, 10), 100);
    assert_eq!(book.volume_at(Side::Sell, 12), 100);
}

#[test]
fn cancel_of_unknown_order_is_acknowledged_noop() {
    let mut book = OrderBook::new(false);
    book.add_order(new_order(1, 10, 100, Side::Buy, 1));
    // never accepted
    assert_eq!(book.add_order(cancel_order(7, 99)), vec![accept(7, 99)]);
    // already removed
    book.add_order(cancel_order(1, 1));
    assert_eq!(book.add_order(cancel_order(1, 1)), vec![accept(1, 1)]);
    assert_eq!(book.get_highest_bid(), None);
}

#[test]
fn flush_clears_all_state() {
    let mut book = OrderBook::new(false);
    book.add_order(new_order(1, 10, 100, Side::Buy, 1));
    book.add_order(new_order(1, 12, 100, Side::Sell, 2));
    assert_eq!(
        book.add_order(Order::new_flush()),
        vec![Event::FlushSeparator]
    );
    assert_eq!(book.get_highest_bid(), None);
    assert_eq!(book.get_lowest_ask(), None);
    assert_eq!(book.volume_at(Side::Buy, 10), 0);
    // a crossing order right after a flush is fresh business again
    assert_eq!(
        book.add_order(new_order(2, 12, 100, Side::Buy, 3)),
        vec![accept(2, 3), update(Side::Buy, 12, 100)]
    );
}

#[test]
fn unchanged_top_emits_nothing() {
    let mut book = OrderBook::new(false);
    book.add_order(new_order(1, 10, 100, Side::Buy, 1));
    // a worse bid leaves the top (price, volume) pair untouched
    assert_eq!(
        book.add_order(new_order(2, 9, 100, Side::Buy, 2)),
        vec![accept(2, 2)]
    );
    // cancelling the worse bid leaves it untouched again
    assert_eq!(book.add_order(cancel_order(2, 2)), vec![accept(2, 2)]);
    // equal price changes the volume, so it is reported
    assert_eq!(
        book.add_order(new_order(3, 10, 50, Side::Buy, 3)),
        vec![accept(3, 3), update(Side::Buy, 10, 150)]
    );
}

#[test]
fn quantity_mismatch_is_never_partially_filled() {
    let mut book = OrderBook::new(true);
    book.add_order(new_order(1, 10, 100, Side::Sell, 1));
    // crossing buy with a different quantity rests instead of trading
    assert_eq!(
        book.add_order(new_order(2, 11, 60, Side::Buy, 2)),
        vec![accept(2, 2), update(Side::Buy, 11, 60)]
    );
    assert_eq!(book.get_lowest_ask(), Some(10));
    assert_eq!(book.volume_at(Side::Sell, 10), 100);
}

#[test]
fn only_the_best_level_is_examined() {
    let mut book = OrderBook::new(true);
    // best ask level 10 holds quantity 50; a worse level 12 holds the
    // matching quantity 100
    book.add_order(new_order(1, 10, 50, Side::Sell, 1));
    book.add_order(new_order(1, 12, 100, Side::Sell, 2));
    // the buy at 12 could consume the order at 12, but only level 10 is
    // examined, and no quantity matches there
    assert_eq!(
        book.add_order(new_order(2, 12, 100, Side::Buy, 3)),
        vec![accept(2, 3), update(Side::Buy, 12, 100)]
    );
    assert_eq!(book.volume_at(Side::Sell, 12), 100);
    assert_eq!(book.volume_at(Side::Sell, 10), 50);
}

#[test]
fn match_consumes_oldest_eligible_of_best_level() {
    let mut book = OrderBook::new(true);
    book.add_order(new_order(1, 10, 100, Side::Sell, 1));
    book.add_order(new_order(2, 10, 100, Side::Sell, 2));
    let events = book.add_order(new_order(3, 10, 100, Side::Buy, 9));
    assert_eq!(
        events,
        vec![
            accept(3, 9),
            Event::Trade {
                buy_user: 3,
                buy_order_id: 9,
                sell_user: 1,
                sell_order_id: 1,
                price: 10,
                qty: 100,
            },
            update(Side::Sell, 10, 100),
        ]
    );
    assert_eq!(book.volume_at(Side::Sell, 10), 100);
}

#[test]
fn accepts_guards_quantity_and_volume() {
    let mut book = OrderBook::new(false);
    assert!(!book.accepts(&new_order(1, 10, 0, Side::Buy, 1)));
    assert!(!book.accepts(&new_order(1, 10, -5, Side::Buy, 1)));
    assert!(book.accepts(&new_order(1, 10, i32::MAX, Side::Buy, 1)));
    book.add_order(new_order(1, 10, i32::MAX, Side::Buy, 1));
    assert!(!book.accepts(&new_order(2, 10, 1, Side::Buy, 2)));
    assert!(book.accepts(&new_order(2, 11, 1, Side::Buy, 2)));
    assert!(book.accepts(&cancel_order(1, 1)));
    assert!(book.accepts(&Order::new_flush()));
}

#[test]
fn volume_aggregates_exactly_one_price_level() {
    let mut book = OrderBook::new(false);
    book.add_order(new_order(1, 10, 100, Side::Buy, 1));
    book.add_order(new_order(2, 10, 25, Side::Buy, 2));
    book.add_order(new_order(3, 9, 40, Side::Buy, 3));
    assert_eq!(book.volume_at(Side::Buy, 10), 125);
    assert_eq!(book.volume_at(Side::Buy, 9), 40);
    assert_eq!(book.volume_at(Side::Buy, 11), 0);
    assert_eq!(book.volume_at(Side::Sell, 10), 0);
    assert_eq!(book.get_highest_bid(), Some(10));
}
