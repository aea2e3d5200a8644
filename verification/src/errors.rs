//! Errors of the order book.
use vstd::prelude::*;

verus! {

/// What the book answers to a request about an order it does not know.
#[derive(Debug, Clone, Copy, PartialEq, Eq, Structural)]
pub enum OrderBookErrors {
    OrderNotExist,
}

impl OrderBookErrors {
    /// The text the error is shown with.
    pub fn message(&self) -> (s: String)
        ensures
            s@ == "Order does not exist"@,
    {
        match self {
            OrderBookErrors::OrderNotExist => "Order does not exist".to_owned(),
        }
    }
}

} // verus!
