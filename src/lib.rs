//! A limit order book: resting orders grouped by exact price, and market
//! orders filled against them in arrival order.

pub mod orderbook;
pub mod price;
pub mod laws;
