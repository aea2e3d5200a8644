//! The service's decisions: turning client messages into engine requests,
//! choosing who receives an engine event, and framing events for the feed.
use vstd::prelude::*;
use crate::events::{EngineEvent, Event};
use crate::order::{OrderReq, Price, Side, Type};

verus! {

/// The price a market order is given, in the units of `Price` (500.00).
pub const MARKET_ORDER_PRICE: u64 = 50_000_000_000;

/// A client message, with its price already in fixed point.
#[derive(Debug, Clone)]
pub enum WireMessage {
    CreateLimitOrder { symbol: String, side: u8, price: Price, quantity: u32 },
    CreateMarketOrder { symbol: String, side: u8, quantity: u32 },
    CancelOrder { symbol: String, order_id: u32 },
}

/// The side a message's side byte stands for: 1 is an ask, anything else a bid.
pub open spec fn wire_side(side: u8) -> Side {
    if side == 1 {
        Side::Ask
    } else {
        Side::Bid
    }
}

/// Decodes a side byte.
pub fn side_from_wire(side: u8) -> (s: Side)
    ensures
        s == wire_side(side),
{
    if side == 1 {
        Side::Ask
    } else {
        Side::Bid
    }
}

/// The engine request a client's message stands for.
pub fn message_as_event(client_id: u32, message: &WireMessage) -> (e: Event)
    ensures
        match (*message, e) {
            (
                WireMessage::CreateLimitOrder { symbol, side, price, quantity },
                Event::NewOrder { symbol: s, order_req },
            ) => s@ == symbol@ && order_req == (OrderReq {
                client_id,
                order_type: Type::Limit,
                side: wire_side(side),
                price,
                quantity,
            }),
            (
                WireMessage::CreateMarketOrder { symbol, side, quantity },
                Event::NewOrder { symbol: s, order_req },
            ) => s@ == symbol@ && order_req == (OrderReq {
                client_id,
                order_type: Type::Market,
                side: wire_side(side),
                price: Price { price: MARKET_ORDER_PRICE },
                quantity,
            }),
            (
                WireMessage::CancelOrder { symbol, order_id },
                Event::CancelOrder { symbol: s, order_id: o, client_id: c },
            ) => s@ == symbol@ && o == order_id && c == client_id,
            _ => false,
        },
{
    match message {
        WireMessage::CreateLimitOrder { symbol, side, price, quantity } => {
            Event::NewOrder {
                symbol: symbol.clone(),
                order_req: OrderReq::new(client_id, Type::Limit, side_from_wire(*side), *price, *quantity),
            }
        },
        WireMessage::CreateMarketOrder { symbol, side, quantity } => {
            Event::NewOrder {
                symbol: symbol.clone(),
                order_req: OrderReq::new(
                    client_id,
                    Type::Market,
                    side_from_wire(*side),
                    Price { price: MARKET_ORDER_PRICE },
                    *quantity,
                ),
            }
        },
        WireMessage::CancelOrder { symbol, order_id } => {
            Event::CancelOrder { symbol: symbol.clone(), order_id: *order_id, client_id }
        },
    }
}

/// Who an engine event goes to.
#[derive(Debug, Clone, Copy, PartialEq, Eq, Structural)]
pub enum Delivery {
    /// The one connected client it is addressed to.
    Client(u32),
    /// Every connected client.
    Everyone,
    /// Nobody: its addressee is not connected.
    Nobody,
}

/// Routing: an addressed event goes to its addressee when that client is
/// connected and is dropped otherwise; an unaddressed event goes to everyone.
pub fn delivery(event: &EngineEvent, addressee_connected: bool) -> (d: Delivery)
    ensures
        d == match event.addressee() {
            Some(c) => if addressee_connected {
                Delivery::Client(c)
            } else {
                Delivery::Nobody
            },
            None => Delivery::Everyone,
        },
{
    match event.get_client_id() {
        Some(client_id) => {
            if addressee_connected {
                Delivery::Client(client_id)
            } else {
                Delivery::Nobody
            }
        },
        None => Delivery::Everyone,
    }
}

/// A message of the public feed: what an engine event makes known to everyone.
/// It carries no client id.
#[derive(Debug, Clone, Copy, PartialEq, Eq, Structural)]
pub enum FeedMessage {
    OrderAccepted { order_id: u32 },
    OrderCanceled { order_id: u32 },
    OrderPartiallyFilled { order_id: u32, remaining: u32 },
    OrderFilled { order_id: u32 },
    Trade { maker_order_id: u32, taker_order_id: u32, price: Price, quantity: u32 },
}

/// The feed message of an event; book snapshots are not published.
pub open spec fn feed_message_of(event: EngineEvent) -> Option<FeedMessage> {
    match event {
        EngineEvent::OrderAccepted { order_id, .. } => Some(FeedMessage::OrderAccepted { order_id }),
        EngineEvent::OrderCancelled { order_id, .. } => Some(FeedMessage::OrderCanceled { order_id }),
        EngineEvent::OrderPartiallyFilled { order_id, remaining, .. } => Some(
            FeedMessage::OrderPartiallyFilled { order_id, remaining },
        ),
        EngineEvent::OrderFilled { order_id, .. } => Some(FeedMessage::OrderFilled { order_id }),
        EngineEvent::Trade { maker_order_id, taker_order_id, price, quantity, .. } => Some(
            FeedMessage::Trade { maker_order_id, taker_order_id, price, quantity },
        ),
        EngineEvent::BookSnapshot { .. } => None,
    }
}

/// The message an event is published as on the feed, if it is published at all.
pub fn feed_message(event: &EngineEvent) -> (m: Option<FeedMessage>)
    ensures
        m == feed_message_of(*event),
        m is None <==> event is BookSnapshot,
        m matches Some(msg) ==> message_fields(msg) == event_fields(*event),
{
    match event {
        EngineEvent::OrderAccepted { order_id, .. } => Some(
            FeedMessage::OrderAccepted { order_id: *order_id },
        ),
        EngineEvent::OrderCancelled { order_id, .. } => Some(
            FeedMessage::OrderCanceled { order_id: *order_id },
        ),
        EngineEvent::OrderPartiallyFilled { order_id, remaining, .. } => Some(
            FeedMessage::OrderPartiallyFilled { order_id: *order_id, remaining: *remaining },
        ),
        EngineEvent::OrderFilled { order_id, .. } => Some(
            FeedMessage::OrderFilled { order_id: *order_id },
        ),
        EngineEvent::Trade { maker_order_id, taker_order_id, price, quantity, .. } => Some(
            FeedMessage::Trade {
                maker_order_id: *maker_order_id,
                taker_order_id: *taker_order_id,
                price: *price,
                quantity: *quantity,
            },
        ),
        EngineEvent::BookSnapshot { .. } => None,
    }
}

/// What an event tells beyond who it is for: a tag for its kind, then its
/// order ids, quantities and price, in declaration order.
pub open spec fn event_fields(event: EngineEvent) -> Seq<int> {
    match event {
        EngineEvent::OrderAccepted { client_id, order_id } => seq![0int, order_id as int],
        EngineEvent::OrderCancelled { client_id, order_id } => seq![1int, order_id as int],
        EngineEvent::OrderPartiallyFilled { client_id, order_id, remaining } => seq![
            2int,
            order_id as int,
            remaining as int,
        ],
        EngineEvent::OrderFilled { client_id, order_id } => seq![3int, order_id as int],
        EngineEvent::Trade {
            maker_client_id,
            maker_order_id,
            taker_client_id,
            taker_order_id,
            price,
            quantity,
        } => seq![4int, maker_order_id as int, taker_order_id as int, price.price as int, quantity as int],
        EngineEvent::BookSnapshot { .. } => seq![5int],
    }
}

/// What a feed message tells: a tag for its kind, then its fields in declaration order.
pub open spec fn message_fields(msg: FeedMessage) -> Seq<int> {
    match msg {
        FeedMessage::OrderAccepted { order_id } => seq![0int, order_id as int],
        FeedMessage::OrderCanceled { order_id } => seq![1int, order_id as int],
        FeedMessage::OrderPartiallyFilled { order_id, remaining } => seq![
            2int,
            order_id as int,
            remaining as int,
        ],
        FeedMessage::OrderFilled { order_id } => seq![3int, order_id as int],
        FeedMessage::Trade { maker_order_id, taker_order_id, price, quantity } => seq![
            4int,
            maker_order_id as int,
            taker_order_id as int,
            price.price as int,
            quantity as int,
        ],
    }
}

/// Every engine event but a book snapshot is published, as the message of the
/// same kind carrying the same order ids, quantities and price.
pub proof fn law_feed_publishes_every_event_but_snapshots(event: EngineEvent)
    ensures
        feed_message_of(event) is None <==> event is BookSnapshot,
        feed_message_of(event) matches Some(msg) ==> message_fields(msg) == event_fields(event),
{
}

/// A feed datagram: the message type byte, then the encoded message.
pub fn frame(kind: u8, payload: &[u8]) -> (buf: Vec<u8>)
    ensures
        buf@ == seq![kind] + payload@,
{
    let mut buf: Vec<u8> = Vec::new();
    buf.push(kind);
    let mut i: usize = 0;
    while i < payload.len()
        invariant
            0 <= i <= payload@.len(),
            buf@ == seq![kind] + payload@.take(i as int),
        decreases payload@.len() - i,
    {
        buf.push(payload[i]);
        i = i + 1;
        assert(buf@ =~= seq![kind] + payload@.take(i as int));
    }
    assert(payload@.take(payload@.len() as int) =~= payload@);
    buf
}

} // verus!
