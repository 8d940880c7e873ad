use crate::decimal::PriceScalar;
use vstd::prelude::*;

verus! {

/// The side of a limit order.
#[derive(Clone, Copy, Debug, PartialEq, Eq, Structural)]
pub enum Side {
    Buy,
    Sell,
}

/// An order resting in the book.
#[derive(Clone, Copy, Debug, PartialEq, Eq, Structural)]
pub struct Order {
    pub id: u64,
    /// What is left to fill.
    pub quantity: PriceScalar,
    /// The sequence number the book gave the order on arrival.
    pub timestamp: u64,
}

/// A match between a resting maker order and an incoming taker order.
#[derive(Clone, Copy, Debug, PartialEq, Eq, Structural)]
pub struct Trade {
    pub price: PriceScalar,
    pub quantity: PriceScalar,
    pub maker_id: u64,
    pub taker_id: u64,
}

} // verus!
