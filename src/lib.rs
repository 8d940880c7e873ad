pub mod decimal;
pub mod error;
pub mod funding;
pub mod metrics;
pub mod orderbook;
pub mod perps;
pub mod types;

pub use decimal::PriceScalar;
pub use error::OrderBookError;
pub use funding::{FundingRate, PriceSample};
pub use metrics::LatencyMetrics;
pub use orderbook::OrderBook;
pub use perps::{
    FeeStructure, InsuranceFund, LiquidationEngine, MarkPrice, OraclePrice, Position, PositionManager,
    PositionSide,
};
pub use types::{Order, Side, Trade};
