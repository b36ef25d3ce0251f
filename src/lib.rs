//! An aggregated two-sided limit order book (one size per price level) with
//! the usual microstructure metrics: best bid and ask, mid, microprice and
//! order-flow imbalance.
//!
//! Prices are whole numbers of ticks and sizes whole numbers of lots; the
//! conversion from and to a venue's decimal values belongs to the caller.

pub mod book;
pub mod laws;
pub mod model;
mod sort;
mod store;

pub use book::{InvalidPriceError, L2Book, Ratio};
pub use model::{PriceInput, Side};
