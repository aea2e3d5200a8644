use order_book::errors::OrderBookErrors;
use order_book::order::{Order, OrderReq, Price, Side, Type};
use order_book::order_book::OrderBook;

// Fixed-point conversions as the service performs them, eight decimals.
fn price(p: f64) -> Price {
    Price { price: (p * 10.0_f64.powf(8 as f64)) as u64 }
}

fn as_float(p: &Price) -> f64 {
    p.price as f64 / 10_f64.powf(8 as f64)
}

fn req(order_type: Type, side: Side, p: f64, quantity: u32) -> OrderReq {
    OrderReq::new(0, order_type, side, price(p), quantity)
}

#[test]
fn limit_orders_full_match() {
    let mut ob = OrderBook::new();

    let bid_order = req(Type::Limit, Side::Bid, 10.00, 100);
    let ask_order = req(Type::Limit, Side::Ask, 10.00, 100);

    let (ask_id, ask_trades) = ob.submit_order(&ask_order);
    let (bid_id, bid_trades) = ob.submit_order(&bid_order);

    if let Some(ref trades) = bid_trades {
        let trade = &trades[0];

        assert_eq!(trade.maker, ask_id);
        assert_eq!(trade.taker, bid_id);
        assert_eq!(as_float(&trade.price), 10.00);
        assert_eq!(trade.quantity, 100);
    }

    assert!(ask_trades.is_none());
    assert!(bid_trades.is_some());
    assert_eq!(ob.orders.len(), 0);
    assert!(ob.bids.is_empty());
    assert!(ob.asks.is_empty());
}

#[test]
fn partial_fill_resting_remains() {
    let mut ob = OrderBook::new();

    let (bid_order_id, bid_trades) = ob.submit_order(&req(Type::Limit, Side::Bid, 10.00, 100));
    let (ask_order_id, ask_trades) = ob.submit_order(&req(Type::Limit, Side::Ask, 10.00, 50));

    if let Some(ref trades) = ask_trades {
        let trade = &trades[0];

        assert_eq!(trade.maker, bid_order_id);
        assert_eq!(trade.taker, ask_order_id);

        assert_eq!(trade.quantity, 50);
        assert_eq!(as_float(&trade.price), 10.00);
    }

    let order = ob.get_order(&bid_order_id).unwrap();

    assert!(bid_trades.is_none());
    assert!(ask_trades.is_some());

    assert_eq!(ob.orders.len(), 1);
    assert_eq!(ob.asks.len(), 0);
    assert_eq!(ob.bids.len(), 1);
    assert_eq!(order.order.quantity, 50);
}

#[test]
fn multi_level_fill() {
    let mut ob = OrderBook::new();

    let (first_ask_order_id, first_ask_trades) = ob.submit_order(&req(Type::Limit, Side::Ask, 10.00, 50));
    let (second_ask_order_id, second_ask_trades) = ob.submit_order(&req(Type::Limit, Side::Ask, 10.05, 50));
    let (bid_order_id, bid_trades) = ob.submit_order(&req(Type::Limit, Side::Bid, 10.10, 100));

    if let Some(ref trades) = bid_trades {
        assert_eq!(trades.len(), 2);

        assert_eq!(trades[0].maker, first_ask_order_id);
        assert_eq!(trades[1].maker, second_ask_order_id);

        assert_eq!(trades[0].taker, bid_order_id);
        assert_eq!(trades[1].taker, bid_order_id);

        assert_eq!(trades[0].quantity, 50);
        assert_eq!(trades[1].quantity, 50);

        assert_eq!(as_float(&trades[0].price), 10.00);
        assert_eq!(as_float(&trades[1].price), 10.05);
    }

    assert!(first_ask_trades.is_none());
    assert!(second_ask_trades.is_none());
    assert!(bid_trades.is_some());

    assert!(ob.orders.is_empty());
}

#[test]
fn fifo_same_price() {
    let mut ob = OrderBook::new();

    let (first_ask_order_id, _) = ob.submit_order(&req(Type::Limit, Side::Ask, 10.00, 50));
    let (second_ask_order_id, _) = ob.submit_order(&req(Type::Limit, Side::Ask, 10.00, 50));
    ob.submit_order(&req(Type::Limit, Side::Bid, 10.00, 70));

    let order = ob.get_order(&second_ask_order_id).unwrap();

    assert!(!ob.orders.contains_key(&first_ask_order_id));
    assert_eq!(order.order.quantity, 30);
}

#[test]
fn market_order_insufficient_liquidity() {
    let mut ob = OrderBook::new();

    let _ = ob.submit_order(&req(Type::Limit, Side::Ask, 10.00, 10));
    let _ = ob.submit_order(&req(Type::Market, Side::Bid, 0.00, 1000));

    assert!(ob.asks.is_empty());
}

#[test]
fn cancel_removes_order() {
    let mut ob = OrderBook::new();

    let (order_id, _) = ob.submit_order(&req(Type::Limit, Side::Ask, 10.00, 100));
    let _ = ob.cancel_order(&order_id).unwrap();

    assert!(ob.asks.is_empty());
}

// ---- scenarios of this library ----

#[test]
fn quantity_is_conserved_on_partial_market_fill() {
    let mut ob = OrderBook::new();
    ob.submit_order_with_id(1, &req(Type::Limit, Side::Ask, 10.00, 30));
    ob.submit_order_with_id(2, &req(Type::Limit, Side::Ask, 11.00, 20));
    let trades = ob.submit_order_with_id(3, &req(Type::Market, Side::Bid, 0.00, 100)).unwrap();
    let traded: u32 = trades.iter().map(|t| t.quantity).sum();
    assert_eq!(traded, 50);
    assert_eq!(trades.len(), 2);
    assert_eq!(trades[0].maker, 1);
    assert_eq!(trades[1].maker, 2);
    // A market order does not rest.
    assert!(ob.get_order(&3).is_err());
    assert!(ob.orders.is_empty());
    // Market bids are priced at the lower of the two limits, here the bid's 0.
    assert_eq!(trades[0].price.price, 0);
}

#[test]
fn limit_bid_rests_when_it_does_not_cross() {
    let mut ob = OrderBook::new();
    ob.submit_order_with_id(1, &req(Type::Limit, Side::Ask, 10.00, 30));
    let trades = ob.submit_order_with_id(2, &req(Type::Limit, Side::Bid, 9.00, 40));
    assert!(trades.is_none());
    assert_eq!(ob.get_order(&2).unwrap().order.quantity, 40);
    assert_eq!(ob.get_best_bid(), 2);
    assert_eq!(ob.get_best_ask(), 1);
}

#[test]
fn limit_ask_trades_at_its_own_limit() {
    let mut ob = OrderBook::new();
    ob.submit_order_with_id(10, &OrderReq::new(7, Type::Limit, Side::Bid, price(10.00), 30));
    let trades = ob.submit_order_with_id(11, &OrderReq::new(8, Type::Limit, Side::Ask, price(9.50), 10)).unwrap();
    assert_eq!(trades.len(), 1);
    assert_eq!(trades[0].maker, 10);
    assert_eq!(trades[0].maker_client_id, 7);
    assert_eq!(trades[0].taker, 11);
    assert_eq!(trades[0].taker_client_id, 8);
    assert_eq!(trades[0].price, price(9.50));
    assert_eq!(trades[0].quantity, 10);
    assert_eq!(ob.get_order(&10).unwrap().order.quantity, 20);
}

#[test]
fn remainder_rests_after_sweeping_the_book() {
    let mut ob = OrderBook::new();
    ob.submit_order_with_id(1, &req(Type::Limit, Side::Bid, 10.00, 5));
    ob.submit_order_with_id(2, &req(Type::Limit, Side::Bid, 9.00, 5));
    let trades = ob.submit_order_with_id(3, &req(Type::Limit, Side::Ask, 9.50, 20)).unwrap();
    assert_eq!(trades.len(), 1);
    assert_eq!(trades[0].maker, 1);
    assert_eq!(ob.get_order(&3).unwrap().order.quantity, 15);
    // The book stays uncrossed: best bid 9.00 below best ask 9.50.
    assert_eq!(ob.get_best_bid(), 2);
    assert_eq!(ob.get_best_ask(), 3);
    let best_bid = *ob.bids.keys().next_back().unwrap();
    let best_ask = *ob.asks.keys().next().unwrap();
    assert!(best_bid < best_ask);
}

#[test]
fn best_bid_is_highest_and_best_ask_lowest() {
    let mut ob = OrderBook::new();
    assert_eq!(ob.get_best_bid(), 0);
    assert_eq!(ob.get_best_ask(), 0);
    ob.submit_order_with_id(1, &req(Type::Limit, Side::Bid, 9.00, 1));
    ob.submit_order_with_id(2, &req(Type::Limit, Side::Bid, 9.50, 1));
    ob.submit_order_with_id(3, &req(Type::Limit, Side::Bid, 9.50, 1));
    ob.submit_order_with_id(4, &req(Type::Limit, Side::Ask, 11.00, 1));
    ob.submit_order_with_id(5, &req(Type::Limit, Side::Ask, 10.50, 1));
    assert_eq!(ob.get_best_bid(), 2);
    assert_eq!(ob.get_best_ask(), 5);
}

#[test]
fn get_unknown_order_fails() {
    let ob = OrderBook::new();
    match ob.get_order(&42) {
        Err(e) => assert_eq!(e, OrderBookErrors::OrderNotExist),
        Ok(_) => panic!("unknown order found"),
    }
    assert_eq!(OrderBookErrors::OrderNotExist.message(), "Order does not exist");
}

#[test]
fn cancel_unknown_order_fails() {
    let mut ob = OrderBook::new();
    assert_eq!(ob.cancel_order(&9).unwrap_err(), OrderBookErrors::OrderNotExist);
}

#[test]
fn cancel_last_of_a_level_removes_it_from_the_table() {
    let mut ob = OrderBook::new();
    ob.submit_order_with_id(1, &req(Type::Limit, Side::Bid, 10.00, 5));
    ob.submit_order_with_id(2, &req(Type::Limit, Side::Bid, 10.00, 6));
    ob.cancel_order(&2).unwrap();
    assert!(ob.get_order(&2).is_err());
    assert_eq!(ob.bids.get(&price(10.00).price).unwrap().len(), 1);
    assert_eq!(ob.get_best_bid(), 1);
}

#[test]
fn cancel_alone_at_level_drops_the_level_only() {
    let mut ob = OrderBook::new();
    ob.submit_order_with_id(1, &req(Type::Limit, Side::Ask, 10.00, 5));
    ob.cancel_order(&1).unwrap();
    assert!(ob.asks.is_empty());
    // The table still knows the order.
    assert_eq!(ob.get_order(&1).unwrap().order.quantity, 5);
}

#[test]
fn snapshot_lists_levels_from_the_lowest_price() {
    let mut ob = OrderBook::new();
    ob.submit_order_with_id(1, &req(Type::Limit, Side::Bid, 9.00, 5));
    ob.submit_order_with_id(2, &req(Type::Limit, Side::Bid, 9.00, 7));
    ob.submit_order_with_id(3, &req(Type::Limit, Side::Bid, 8.00, 1));
    ob.submit_order_with_id(4, &req(Type::Limit, Side::Bid, 7.00, 2));
    ob.submit_order_with_id(5, &req(Type::Limit, Side::Ask, 10.00, 3));

    let all = ob.snapshot(None);
    assert_eq!(all.bids.len(), 3);
    assert_eq!(all.asks.len(), 1);
    assert_eq!(all.bids[0].price, price(7.00));
    assert_eq!(all.bids[0].total_quantity, 2);
    assert_eq!(all.bids[2].price, price(9.00));
    assert_eq!(all.bids[2].total_quantity, 12);
    assert_eq!(all.asks[0].total_quantity, 3);

    // A depth of d shows d + 1 levels.
    let shallow = ob.snapshot(Some(1));
    assert_eq!(shallow.bids.len(), 2);
    assert_eq!(shallow.bids[1].price, price(8.00));
    assert_eq!(shallow.asks.len(), 1);

    let top = ob.snapshot(Some(0));
    assert_eq!(top.bids.len(), 1);
    assert_eq!(top.bids[0].price, price(7.00));
}

#[test]
fn submit_order_files_the_order_under_the_id_it_returns() {
    let mut ob = OrderBook::new();
    let (id, trades) = ob.submit_order(&req(Type::Limit, Side::Bid, 5.00, 3));
    assert!(trades.is_none());
    assert_eq!(ob.get_order(&id).unwrap().id, id);
    assert_eq!(ob.get_best_bid(), id);
}

#[test]
fn submitting_under_an_id_in_use_replaces_the_table_entry() {
    let mut ob = OrderBook::new();
    ob.submit_order_with_id(1, &req(Type::Limit, Side::Bid, 9.00, 5));
    let trades = ob.submit_order_with_id(1, &req(Type::Limit, Side::Ask, 12.00, 4));
    assert!(trades.is_none());
    // The table holds the newer order; both queues name the id.
    let o = ob.get_order(&1).unwrap();
    assert_eq!(o.order.side, Side::Ask);
    assert_eq!(o.order.quantity, 4);
    assert_eq!(ob.orders.len(), 1);
    assert_eq!(ob.get_best_bid(), 1);
    assert_eq!(ob.get_best_ask(), 1);
}

#[test]
fn order_new_keeps_the_request() {
    let r = OrderReq::new(3, Type::Market, Side::Ask, Price { price: 12 }, 9);
    let o = Order::new(r);
    assert_eq!(o.order.client_id, 3);
    assert_eq!(o.order.price, Price { price: 12 });
    assert_eq!(o.order.quantity, 9);
    assert_eq!(o.order.side, Side::Ask);
    assert_eq!(o.order.order_type, Type::Market);
}

#[test]
fn zero_quantity_limit_order_does_not_rest() {
    let mut ob = OrderBook::new();
    let trades = ob.submit_order_with_id(1, &req(Type::Limit, Side::Bid, 10.00, 0));
    assert!(trades.is_none());
    assert!(ob.orders.is_empty());
    assert!(ob.bids.is_empty());
}

#[test]
fn cancel_after_resting_submit_restores_the_book() {
    let mut ob = OrderBook::new();
    ob.submit_order_with_id(1, &req(Type::Limit, Side::Bid, 9.00, 5));
    ob.submit_order_with_id(7, &req(Type::Limit, Side::Ask, 12.00, 4));
    let trades = ob.submit_order_with_id(2, &req(Type::Limit, Side::Bid, 9.00, 3));
    assert!(trades.is_none());
    ob.cancel_order(&2).unwrap();
    assert_eq!(ob.orders.len(), 2);
    assert_eq!(ob.get_order(&1).unwrap().order.quantity, 5);
    assert_eq!(ob.get_order(&7).unwrap().order.quantity, 4);
    let level: Vec<u32> = ob.bids.get(&price(9.00).price).unwrap().iter().cloned().collect();
    assert_eq!(level, vec![1]);
    assert_eq!(ob.bids.len(), 1);
    assert_eq!(ob.asks.len(), 1);
}

#[test]
fn first_trade_is_with_the_front_of_the_best_level() {
    let mut ob = OrderBook::new();
    ob.submit_order_with_id(1, &req(Type::Limit, Side::Ask, 10.00, 5));
    ob.submit_order_with_id(2, &req(Type::Limit, Side::Ask, 10.00, 5));
    ob.submit_order_with_id(3, &req(Type::Limit, Side::Ask, 9.50, 5));
    let trades = ob.submit_order_with_id(4, &req(Type::Limit, Side::Bid, 10.00, 12)).unwrap();
    assert_eq!(trades.len(), 3);
    assert_eq!(trades[0].maker, 3);
    assert_eq!(trades[1].maker, 1);
    assert_eq!(trades[2].maker, 2);
    assert_eq!(trades[2].quantity, 2);
    assert_eq!(ob.get_order(&2).unwrap().order.quantity, 3);
    for t in trades.iter() {
        assert!(t.price.price <= price(10.00).price);
        assert_ne!(t.maker, t.taker);
    }
}

#[test]
fn after_submissions_every_known_order_is_a_queued_limit_order() {
    let mut ob = OrderBook::new();
    ob.submit_order_with_id(1, &req(Type::Limit, Side::Ask, 10.00, 5));
    ob.submit_order_with_id(2, &req(Type::Limit, Side::Ask, 10.50, 5));
    ob.submit_order_with_id(3, &req(Type::Limit, Side::Bid, 9.00, 5));
    ob.submit_order_with_id(4, &req(Type::Limit, Side::Bid, 10.20, 7));
    ob.submit_order_with_id(5, &req(Type::Market, Side::Ask, 0.00, 1));
    for (id, o) in ob.orders.iter() {
        assert_eq!(o.id, *id);
        assert_eq!(o.order.order_type, Type::Limit);
        let side = match o.order.side {
            Side::Bid => &ob.bids,
            Side::Ask => &ob.asks,
        };
        assert!(side.get(&o.order.price.price).unwrap().contains(id));
    }
    assert_eq!(ob.orders.len(), 3);
    let best_bid = *ob.bids.keys().next_back().unwrap();
    let best_ask = *ob.asks.keys().next().unwrap();
    assert!(best_bid < best_ask);
}
