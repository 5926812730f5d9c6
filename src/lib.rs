//! Consolidates depth-limited order books from several venues into one book
//! with per-level attribution.
pub mod connection;
pub mod decimal;
pub mod exchange;
pub mod merge;
pub mod order_book;
