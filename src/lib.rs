//! A single-symbol continuous limit order book with price-time (FIFO) and
//! pro-rata allocation within a price level.

pub mod models;
pub mod allocation;
pub mod side_book;
pub mod engine;
pub mod request;
pub mod theorems;
pub mod pro_rata_total;
