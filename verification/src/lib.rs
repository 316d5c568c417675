//! A verified limit order book engine.
//!
//! The engine consumes a stream of instructions (new order, cancel, flush)
//! and maintains one bid book and one ask book, emitting a deterministic
//! sequence of events (acceptance, rejection, top-of-book changes, trades)
//! for every instruction it is given.

pub mod laws;
pub mod lemmas;
pub mod model;
pub mod order;
pub mod order_book;
