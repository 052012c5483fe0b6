//! A batch limit-order matching engine with price-time priority.
//!
//! Prices and quantities are exact fixed-point decimals (see [`decimal`]).
//! The order book keeps each side as a list of price levels sorted by
//! matching priority, each level a FIFO queue of resting orders.
pub mod decimal;
pub mod models;
pub mod order_book;
pub mod trading_engine;
pub mod laws;

pub use decimal::{parse_decimal, SCALE};
pub use trading_engine::process_orders;
pub use models::{
    Order, OrderSide, OrderType, Orderbook, OrderbookEntry, PriceLevel, ProcessingError,
    ProcessingResult, Trade,
};

