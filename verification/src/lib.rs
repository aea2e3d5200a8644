//! A price-time priority limit order book with verified matching, and the
//! decisions of the engine and service around it.
pub mod book_model;
pub mod errors;
pub mod events;
pub mod laws;
pub mod order;
pub mod order_book;
pub mod service;
