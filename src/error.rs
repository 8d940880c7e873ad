use crate::decimal::PriceScalar;
use vstd::prelude::*;

verus! {

/// Every failure that the order book and the derivatives layer report.
#[derive(Debug, Clone, Copy, PartialEq)]
pub enum OrderBookError {
    /// A quantity is not positive or is above its cap.
    InvalidQuantity,
    /// A price is outside the accepted bounds or not positive.
    InvalidPrice,
    /// No order has the given id.
    OrderNotFound { id: u64 },
    /// The posted margin is below what the position needs.
    InsufficientMargin { required: u64, provided: u64 },
    /// No position is open for the given trader.
    PositionNotFound { trader_id: u64 },
    /// The leverage is not positive or is above the cap.
    InvalidLeverage(PriceScalar),
    /// Best bid above best ask on a mark computation.
    MarketManipulation,
    /// A checked arithmetic step could not produce an exact result.
    OverflowError,
}

} // verus!
