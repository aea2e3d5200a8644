use order_book::events::{EngineEvent, Event};
use order_book::order::{Price, Side, Type};
use order_book::order_book::Snapshot;
use order_book::service::{
    delivery, feed_message, frame, message_as_event, side_from_wire, Delivery, FeedMessage, WireMessage,
    MARKET_ORDER_PRICE,
};

#[test]
fn get_client_id_of_each_event() {
    assert_eq!(EngineEvent::OrderAccepted { client_id: 1, order_id: 2 }.get_client_id(), Some(1));
    assert_eq!(EngineEvent::OrderCancelled { client_id: 3, order_id: 2 }.get_client_id(), Some(3));
    assert_eq!(
        EngineEvent::OrderPartiallyFilled { client_id: 4, order_id: 2, remaining: 5 }.get_client_id(),
        Some(4)
    );
    assert_eq!(EngineEvent::OrderFilled { client_id: 6, order_id: 2 }.get_client_id(), Some(6));
    let snapshot = Snapshot { bids: Vec::new(), asks: Vec::new() };
    assert_eq!(EngineEvent::BookSnapshot { client_id: 8, snapshot }.get_client_id(), Some(8));
    let trade = EngineEvent::Trade {
        maker_client_id: 1,
        maker_order_id: 2,
        taker_client_id: 3,
        taker_order_id: 4,
        price: Price { price: 5 },
        quantity: 6,
    };
    assert_eq!(trade.get_client_id(), None);
}

#[test]
fn side_byte_one_is_an_ask() {
    assert_eq!(side_from_wire(1), Side::Ask);
    assert_eq!(side_from_wire(0), Side::Bid);
    assert_eq!(side_from_wire(2), Side::Bid);
}

#[test]
fn limit_message_becomes_new_order() {
    let m = WireMessage::CreateLimitOrder {
        symbol: "INTC".to_string(),
        side: 1,
        price: Price { price: 1_000_000_000 },
        quantity: 7,
    };
    match message_as_event(42, &m) {
        Event::NewOrder { symbol, order_req } => {
            assert_eq!(symbol, "INTC");
            assert_eq!(order_req.client_id, 42);
            assert_eq!(order_req.order_type, Type::Limit);
            assert_eq!(order_req.side, Side::Ask);
            assert_eq!(order_req.price, Price { price: 1_000_000_000 });
            assert_eq!(order_req.quantity, 7);
        },
        _ => panic!("wrong event"),
    }
}

#[test]
fn market_message_is_priced_at_five_hundred() {
    let m = WireMessage::CreateMarketOrder { symbol: "INTC".to_string(), side: 0, quantity: 3 };
    match message_as_event(5, &m) {
        Event::NewOrder { order_req, .. } => {
            assert_eq!(order_req.order_type, Type::Market);
            assert_eq!(order_req.side, Side::Bid);
            assert_eq!(order_req.price.price, MARKET_ORDER_PRICE);
            assert_eq!(order_req.price.price as f64 / 1e8, 500.00);
        },
        _ => panic!("wrong event"),
    }
}

#[test]
fn cancel_message_becomes_cancel_request() {
    let m = WireMessage::CancelOrder { symbol: "INTC".to_string(), order_id: 99 };
    match message_as_event(5, &m) {
        Event::CancelOrder { symbol, order_id, client_id } => {
            assert_eq!(symbol, "INTC");
            assert_eq!(order_id, 99);
            assert_eq!(client_id, 5);
        },
        _ => panic!("wrong event"),
    }
}

#[test]
fn events_are_routed_to_their_addressee() {
    let accepted = EngineEvent::OrderAccepted { client_id: 1, order_id: 2 };
    assert_eq!(delivery(&accepted, true), Delivery::Client(1));
    assert_eq!(delivery(&accepted, false), Delivery::Nobody);
    let trade = EngineEvent::Trade {
        maker_client_id: 1,
        maker_order_id: 2,
        taker_client_id: 3,
        taker_order_id: 4,
        price: Price { price: 5 },
        quantity: 6,
    };
    assert_eq!(delivery(&trade, false), Delivery::Everyone);
}

#[test]
fn feed_messages_and_framing() {
    assert_eq!(
        feed_message(&EngineEvent::OrderFilled { client_id: 1, order_id: 2 }),
        Some(FeedMessage::OrderFilled { order_id: 2 })
    );
    assert_eq!(
        feed_message(&EngineEvent::OrderPartiallyFilled { client_id: 1, order_id: 2, remaining: 9 }),
        Some(FeedMessage::OrderPartiallyFilled { order_id: 2, remaining: 9 })
    );
    let trade = EngineEvent::Trade {
        maker_client_id: 1,
        maker_order_id: 2,
        taker_client_id: 3,
        taker_order_id: 4,
        price: Price { price: 5 },
        quantity: 6,
    };
    assert_eq!(
        feed_message(&trade),
        Some(FeedMessage::Trade { maker_order_id: 2, taker_order_id: 4, price: Price { price: 5 }, quantity: 6 })
    );
    let snapshot = Snapshot { bids: Vec::new(), asks: Vec::new() };
    assert_eq!(feed_message(&EngineEvent::BookSnapshot { client_id: 1, snapshot }), None);
    assert_eq!(frame(4, &[9, 8, 7]), vec![4, 9, 8, 7]);
    assert_eq!(frame(4, &[]), vec![4]);
}
