//! What the matching engine is asked, and what it reports.
use vstd::prelude::*;
use crate::errors::OrderBookErrors;
use crate::order::{OrderReq, Price};
use crate::order_book::Snapshot;

verus! {

/// A request to the engine, for the book of `symbol`.
#[derive(Debug)]
pub enum Event {
    NewOrder { symbol: String, order_req: OrderReq },
    CancelOrder { symbol: String, order_id: u32, client_id: u32 },
    GetSnapshot { symbol: String, depth: Option<usize>, client_id: u32 },
}

/// What the engine reports; all but trades are addressed to one client.
#[derive(Debug, Clone)]
pub enum EngineEvent {
    OrderAccepted { client_id: u32, order_id: u32 },
    OrderCancelled { client_id: u32, order_id: u32 },
    OrderPartiallyFilled { client_id: u32, order_id: u32, remaining: u32 },
    OrderFilled { client_id: u32, order_id: u32 },
    Trade {
        maker_client_id: u32,
        maker_order_id: u32,
        taker_client_id: u32,
        taker_order_id: u32,
        price: Price,
        quantity: u32,
    },
    BookSnapshot { client_id: u32, snapshot: Snapshot },
}

/// Why the engine could not serve a request.
#[derive(Debug)]
pub enum EngineError {
    InvalidBook,
    OrderBookError(OrderBookErrors),
}

impl EngineEvent {
    /// The client an event is addressed to; trades are addressed to nobody in particular.
    pub open spec fn addressee(&self) -> Option<u32> {
        match self {
            EngineEvent::OrderAccepted { client_id, .. } => Some(*client_id),
            EngineEvent::OrderCancelled { client_id, .. } => Some(*client_id),
            EngineEvent::OrderPartiallyFilled { client_id, .. } => Some(*client_id),
            EngineEvent::BookSnapshot { client_id, .. } => Some(*client_id),
            EngineEvent::OrderFilled { client_id, .. } => Some(*client_id),
            EngineEvent::Trade { .. } => None,
        }
    }

    /// The client the event is addressed to, if any.
    pub fn get_client_id(&self) -> (r: Option<u32>)
        ensures
            r == self.addressee(),
    {
        match self {
            Self::OrderAccepted { client_id, .. } => return Some(*client_id),
            Self::OrderCancelled { client_id, .. } => return Some(*client_id),
            Self::OrderPartiallyFilled { client_id, .. } => return Some(*client_id),
            Self::BookSnapshot { client_id, .. } => return Some(*client_id),
            Self::OrderFilled { client_id, .. } => return Some(*client_id),
            Self::Trade { .. } => return None,
        }
    }
}

} // verus!
