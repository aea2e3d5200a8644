//! Orders, order requests, sides, order types and fixed-point prices.
use vstd::prelude::*;

verus! {

/// Which side of the book an order belongs to.
#[derive(Clone, Copy, PartialEq, Eq, Debug, Structural)]
pub enum Side {
    Bid,
    Ask,
}

/// Whether an order rests in the book (limit) or only takes liquidity (market).
#[derive(Clone, Copy, PartialEq, Eq, Debug, Structural)]
pub enum Type {
    Limit,
    Market,
}

/// A price in fixed point: `price` counts units of 10^-8.
#[derive(Clone, Copy, PartialEq, Eq, Hash, PartialOrd, Ord, Debug, Structural)]
pub struct Price {
    pub price: u64,
}

/// What a client asks for: side, type, limit price and quantity.
#[derive(Clone, Copy, Debug)]
pub struct OrderReq {
    pub client_id: u32,
    pub order_type: Type,
    pub side: Side,
    pub price: Price,
    pub quantity: u32,
}

/// An order request together with the identifier the book gave it.
#[derive(Clone, Copy, Debug)]
pub struct Order {
    pub id: u32,
    pub order: OrderReq,
}

/// A uniformly drawn `u32`.
///
/// Calls `rand::random::<u32>()`; every `u32` may come back, so nothing is
/// claimed of the result.
#[verifier::external_body]
pub(crate) fn random_u32() -> (r: u32) {
    rand::random::<u32>()
}

impl OrderReq {
    /// Builds a request from its parts; the price is already in fixed point.
    pub fn new(client_id: u32, order_type: Type, side: Side, price: Price, quantity: u32) -> (r: OrderReq)
        ensures
            r == (OrderReq { client_id, order_type, side, price, quantity }),
    {
        OrderReq { client_id, order_type, side, price, quantity }
    }
}

impl Order {
    /// Gives the request a randomly drawn identifier.
    pub fn new(order_req: OrderReq) -> (r: Order)
        ensures
            r.order == order_req,
    {
        Order { id: random_u32(), order: order_req }
    }
}

} // verus!
