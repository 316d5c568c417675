//! The two end-to-end streams: every instruction of the input is applied
//! to one engine and the formatted events are compared against the full
//! expected log.

use orderbook::order::{Event, Kind, Order, Side};
use orderbook::order_book::OrderBook;

/// Build one instruction from a comma-separated record, fields trimmed,
/// as the surrounding tool reads them from its input file.
fn parse_record(line: &str) -> Order {
    let fields: Vec<&str> = line.split(',').map(|f| f.trim()).collect();
    match fields[0] {
        "N" => Order {
            kind: Kind::New,
            user: fields[1].parse().unwrap(),
            price: fields[3].parse().unwrap(),
            qty: fields[4].parse().unwrap(),
            side: match fields[5] {
                "B" => Side::Buy,
                "S" => Side::Sell,
                other => panic!("bad side {other}"),
            },
            user_order_id: fields[6].parse().unwrap(),
        },
        "C" => Order {
            kind: Kind::Cancel,
            user: fields[1].parse().unwrap(),
            price: 0,
            qty: 0,
            side: Side::Buy,
            user_order_id: fields[2].parse().unwrap(),
        },
        "F" => Order::new_flush(),
        other => panic!("bad kind {other}"),
    }
}

/// Format one event as one output line of the surrounding tool.
fn format_event(e: &Event) -> String {
    match e {
        Event::Accept { user, user_order_id } => format!("A, {}, {}", user, user_order_id),
        Event::Reject { user, user_order_id } => format!("R, {}, {}", user, user_order_id),
        Event::BookUpdate { side, top } => {
            let s = match side {
                Side::Buy => "B",
                Side::Sell => "S",
            };
            match top {
                Some(t) => format!("B, {}, {}, {}", s, t.price, t.volume),
                None => format!("B, {}, -, -", s),
            }
        }
        Event::Trade {
            buy_user,
            buy_order_id,
            sell_user,
            sell_order_id,
            price,
            qty,
        } => format!(
            "T, {}, {}, {}, {}, {}, {}",
            buy_user, buy_order_id, sell_user, sell_order_id, price, qty
        ),
        Event::FlushSeparator => String::new(),
    }
}

/// Run a whole input through one engine and return the formatted log.
fn process_and_return_output(input: &str, trading: bool) -> String {
    let mut book = OrderBook::new(trading);
    let mut result = String::new();
    for line in input.lines() {
        let trimmed = line.trim();
        if trimmed.is_empty() || trimmed.starts_with('#') {
            continue;
        }
        let order = parse_record(trimmed);
        assert!(book.accepts(&order));
        for event in book.add_order(order) {
            result += &format_event(&event);
            result += "\n";
        }
    }
    result
}

#[test]
fn test_orders_without_trading() {
    let input = "\
N, 1, IBM, 10, 100, B, 1
N, 1, IBM, 12, 100, S, 2
N, 2, IBM, 9, 100, B, 101
N, 2, IBM, 11, 100, S, 102
N, 1, IBM, 11, 100, B, 3
N, 2, IBM, 10, 100, S, 103
N, 1, IBM, 10, 100, B, 4
N, 2, IBM, 11, 100, S, 104
F

N, 1, AAPL, 10, 100, B, 1
N, 1, AAPL, 12, 100, S, 2
N, 2, AAPL, 11, 100, S, 102
N, 2, AAPL, 10, 100, S, 103
N, 1, AAPL, 10, 100, B, 3
F

N, 1, VAL, 10, 100, B, 1
N, 2, VAL, 9, 100, B, 101
N, 2, VAL, 11, 100, S, 102
N, 1, VAL, 11, 100, B, 2
N, 2, VAL, 11, 100, S, 103
F

N, 1, IBM, 10, 100, B, 1
N, 1, IBM, 12, 100, S, 2
N, 2, IBM, 9, 100, B, 101
N, 2, IBM, 11, 100, S, 102
N, 2, IBM, 9, 100, S, 103
F

N, 1, IBM, 10, 100, B, 1
N, 1, IBM, 12, 100, S, 2
N, 2, IBM, 9, 100, B, 101
N, 2, IBM, 11, 100, S, 102
N, 1, IBM, 12, 100, B, 103
F

N, 1, IBM, 10, 100, B, 1
N, 1, IBM, 16, 100, S, 2
N, 2, IBM, 9, 100, B, 101
N, 2, IBM, 15, 100, S, 102

N, 2, IBM, 11, 100, B, 103
N, 1, IBM, 14, 100, S, 3
F

N, 1, IBM, 10, 100, B, 1
N, 1, IBM, 12, 100, S, 2
N, 2, IBM, 9, 100, B, 101
N, 2, IBM, 11, 100, S, 102
N, 2, IBM, 10, 20, S, 103
F

N, 1, IBM, 10, 100, B, 1
N, 1, IBM, 12, 100, S, 2
N, 2, IBM, 9, 100, B, 101
N, 2, IBM, 11, 100, S, 102
N, 1, IBM, 11, 20, B, 3
F

N, 1, IBM, 10, 100, B, 1
N, 1, IBM, 12, 100, S, 2
N, 2, IBM, 9, 100, B, 101
N, 2, IBM, 11, 100, S, 102
C, 1, 1
C, 2, 102
F

N, 1, IBM, 10, 100, B, 1
N, 1, IBM, 12, 100, S, 2
N, 2, IBM, 9, 100, B, 101
N, 2, IBM, 11, 100, S, 102
C, 1, 2
C, 2, 101
F

N, 1, IBM, 10, 100, B, 1
N, 1, IBM, 12, 100, S, 2
N, 2, IBM, 9, 100, B, 101
N, 2, IBM, 11, 100, S, 102
C, 1, 1
C, 2, 101
F

N, 1, IBM, 10, 100, B, 1
N, 1, IBM, 12, 100, S, 2
N, 2, IBM, 9, 100, B, 101
N, 2, IBM, 11, 100, S, 102
N, 2, IBM, 11, 100, S, 103
C, 2, 103
C, 2, 102
C, 1, 2
F
";
    let output = "\
A, 1, 1
B, B, 10, 100
A, 1, 2
B, S, 12, 100
A, 2, 101
A, 2, 102
B, S, 11, 100
R, 1, 3
R, 2, 103
A, 1, 4
B, B, 10, 200
A, 2, 104
B, S, 11, 200

A, 1, 1
B, B, 10, 100
A, 1, 2
B, S, 12, 100
A, 2, 102
B, S, 11, 100
R, 2, 103
A, 1, 3
B, B, 10, 200

A, 1, 1
B, B, 10, 100
A, 2, 101
A, 2, 102
B, S, 11, 100
R, 1, 2
A, 2, 103
B, S, 11, 200

A, 1, 1
B, B, 10, 100
A, 1, 2
B, S, 12, 100
A, 2, 101
A, 2, 102
B, S, 11, 100
R, 2, 103

A, 1, 1
B, B, 10, 100
A, 1, 2
B, S, 12, 100
A, 2, 101
A, 2, 102
B, S, 11, 100
R, 1, 103

A, 1, 1
B, B, 10, 100
A, 1, 2
B, S, 16, 100
A, 2, 101
A, 2, 102
B, S, 15, 100
A, 2, 103
B, B, 11, 100
A, 1, 3
B, S, 14, 100

A, 1, 1
B, B, 10, 100
A, 1, 2
B, S, 12, 100
A, 2, 101
A, 2, 102
B, S, 11, 100
R, 2, 103

A, 1, 1
B, B, 10, 100
A, 1, 2
B, S, 12, 100
A, 2, 101
A, 2, 102
B, S, 11, 100
R, 1, 3

A, 1, 1
B, B, 10, 100
A, 1, 2
B, S, 12, 100
A, 2, 101
A, 2, 102
B, S, 11, 100
A, 1, 1
B, B, 9, 100
A, 2, 102
B, S, 12, 100

A, 1, 1
B, B, 10, 100
A, 1, 2
B, S, 12, 100
A, 2, 101
A, 2, 102
B, S, 11, 100
A, 1, 2
A, 2, 101

A, 1, 1
B, B, 10, 100
A, 1, 2
B, S, 12, 100
A, 2, 101
A, 2, 102
B, S, 11, 100
A, 1, 1
B, B, 9, 100
A, 2, 101
B, B, -, -

A, 1, 1
B, B, 10, 100
A, 1, 2
B, S, 12, 100
A, 2, 101
A, 2, 102
B, S, 11, 100
A, 2, 103
B, S, 11, 200
A, 2, 103
B, S, 11, 100
A, 2, 102
B, S, 12, 100
A, 1, 2
B, S, -, -

";
    let result = process_and_return_output(input, false);
    assert_eq!(result, output)
}

#[test]
fn test_orders_with_trading() {
    let input = "\
N, 1, IBM, 10, 100, B, 1
N, 1, IBM, 12, 100, S, 2
N, 2, IBM, 9, 100, B, 101
N, 2, IBM, 11, 100, S, 102
N, 1, IBM, 12, 100, B, 103
F

N, 1, VAL, 10, 100, B, 1
N, 2, VAL, 9, 100, B, 101
N, 2, VAL, 11, 100, S, 102
N, 1, VAL, 11, 100, B, 2
N, 2, VAL, 11, 100, S, 103
F
";

    let output = "\
A, 1, 1
B, B, 10, 100
A, 1, 2
B, S, 12, 100
A, 2, 101
A, 2, 102
B, S, 11, 100
A, 1, 103
T, 1, 103, 2, 102, 11, 100
B, S, 12, 100

A, 1, 1
B, B, 10, 100
A, 2, 101
A, 2, 102
B, S, 11, 100
A, 1, 2
T, 1, 2, 2, 102, 11, 100
B, S, -, -
A, 2, 103
B, S, 11, 100

";
    let result = process_and_return_output(input, true);
    assert_eq!(result, output)
}
