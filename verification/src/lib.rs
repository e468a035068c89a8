//! The matching core of a limit-order exchange: per-instrument books of
//! resting bid and ask orders, ordered by price-time priority, with a
//! crossing algorithm that pairs the best bid and best ask while a cross
//! exists.

pub mod book;
pub mod order;
pub mod registry;
