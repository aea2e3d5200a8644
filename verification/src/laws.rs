//! Properties of the book that hold over every input and span operations.
use vstd::prelude::*;
use crate::book_model::{
    BookView, after_match, cancel_allowed, cancel_outcome, crosses, is_best, lemma_after_match,
    lemma_best_price, lemma_match_from, match_ready, matched, opposite, opposite_levels, own_levels,
    start_match, submit_outcome, traded_quantity, with_quantity, best_price, rest, MatchState,
    pop_front, trade_of, lemma_fill_first_keeps_wf, match_from, min_price, side_wf, resting_at,
    lemma_submit_wf, shown_levels, depth_bound,
};
use crate::order_book::Trade;
use crate::order::{Order, Side, Type};

verus! {

proof fn lemma_start_ready(b: BookView, o: Order)
    requires
        b.wf(),
    ensures
        match_ready(start_match(b, o)),
{
    match o.order.side {
        Side::Bid => {},
        Side::Ask => {},
    }
}

/// Matching never creates or loses quantity: what the trades move plus what is
/// left of the order is what was submitted.
pub proof fn law_quantity_conserved(b: BookView, o: Order)
    requires
        b.wf(),
    ensures
        traded_quantity(matched(b, o).trades) + matched(b, o).taker.order.quantity
            == o.order.quantity,
{
    lemma_start_ready(b, o);
    lemma_match_from(start_match(b, o));
}

/// Every trade of a submitted order names it as the taker, moves a positive
/// quantity, is priced within its limit, and has as maker an order that was
/// in the book before, so never the order itself.
pub proof fn law_trades_respect_limit(b: BookView, o: Order, i: int)
    requires
        b.wf(),
        !b.orders.contains_key(o.id),
        0 <= i < matched(b, o).trades.len(),
    ensures
        ({
            let t = matched(b, o).trades[i];
            &&& t.taker == o.id
            &&& t.taker_client_id == o.order.client_id
            &&& t.quantity > 0
            &&& crosses(o.order, t.price.price)
            &&& b.orders.contains_key(t.maker)
            &&& t.maker != o.id
        }),
{
    lemma_start_ready(b, o);
    lemma_match_from(start_match(b, o));
}

/// After a submission, the order is known to the book exactly when it is a
/// limit order with quantity left, and then it is what is left of it.
pub proof fn law_submit_then_lookup(b: BookView, o: Order)
    requires
        b.wf(),
        !b.orders.contains_key(o.id),
    ensures
        ({
            let m = matched(b, o);
            let after = submit_outcome(b, o);
            &&& after.orders.contains_key(o.id) <==> (o.order.order_type == Type::Limit
                && m.taker.order.quantity > 0)
            &&& after.orders.contains_key(o.id) ==> after.orders[o.id] == with_quantity(
                o,
                m.taker.order.quantity,
            )
        }),
{
    lemma_after_match(b, o);
}

/// A book in which every bid is below every ask stays so after a submission.
pub proof fn law_submit_keeps_uncrossed(b: BookView, o: Order)
    requires
        b.wf(),
        b.uncrossed(),
    ensures
        submit_outcome(b, o).uncrossed(),
{
    lemma_start_ready(b, o);
    lemma_match_from(start_match(b, o));
    lemma_after_match(b, o);
    let a = after_match(b, o);
    let m = matched(b, o);
    let side = o.order.side;
    assert(a.uncrossed()) by {
        match side {
            Side::Bid => {
                assert forall|x: u64, y: u64|
                    a.bids.contains_key(x) && a.asks.contains_key(y) implies x < y by {
                    assert(b.asks.contains_key(y));
                }
            },
            Side::Ask => {
                assert forall|x: u64, y: u64|
                    a.bids.contains_key(x) && a.asks.contains_key(y) implies x < y by {
                    assert(b.bids.contains_key(x));
                }
            },
        }
    }
    if o.order.order_type == Type::Limit && m.taker.order.quantity > 0 {
        let t = m.taker;
        let r = rest(a, t);
        let p = o.order.price.price;
        let other = opposite_levels(a, side);
        assert(m.levels == other) by {
            match side {
                Side::Bid => {},
                Side::Ask => {},
            }
        }
        if !other.dom().is_empty() {
            lemma_best_price(other, side);
            let best = best_price(other, side);
            assert(!crosses(t.order, best));
        }
        match side {
            Side::Bid => {
                assert forall|x: u64, y: u64|
                    r.bids.contains_key(x) && r.asks.contains_key(y) implies x < y by {
                    if x == p {
                        let best = best_price(other, side);
                        assert(other.contains_key(y));
                        assert(is_best(other, side, best));
                    } else {
                        assert(a.bids.contains_key(x));
                    }
                }
            },
            Side::Ask => {
                assert forall|x: u64, y: u64|
                    r.bids.contains_key(x) && r.asks.contains_key(y) implies x < y by {
                    if y == p {
                        let best = best_price(other, side);
                        assert(other.contains_key(x));
                        assert(is_best(other, side, best));
                    } else {
                        assert(a.asks.contains_key(y));
                    }
                }
            },
        }
    }
}

/// Cancelling never crosses the book.
pub proof fn law_cancel_keeps_uncrossed(b: BookView, id: u32)
    requires
        b.wf(),
        b.uncrossed(),
        b.orders.contains_key(id),
        cancel_allowed(b, id),
    ensures
        cancel_outcome(b, id).uncrossed(),
{
    let c = cancel_outcome(b, id);
    assert forall|x: u64, y: u64| c.bids.contains_key(x) && c.asks.contains_key(y) implies x < y by {
        assert(b.bids.contains_key(x) && b.asks.contains_key(y));
    }
}

/// After a cancellation the order is no longer queued at its price; it has
/// also left the table unless it was alone at its level, in which case the
/// level is gone.
pub proof fn law_cancel_unqueues(b: BookView, id: u32)
    requires
        b.wf(),
        b.orders.contains_key(id),
        cancel_allowed(b, id),
    ensures
        ({
            let o = b.orders[id];
            let p = o.order.price.price;
            let before = own_levels(b, o.order.side);
            let after = own_levels(cancel_outcome(b, id), o.order.side);
            &&& after.contains_key(p) ==> !after[p].contains(id)
            &&& before[p].len() == 1 ==> !after.contains_key(p) && cancel_outcome(b, id).orders == b.orders
            &&& before[p].len() > 1 ==> !cancel_outcome(b, id).orders.contains_key(id)
        }),
{
    let o = b.orders[id];
    let side = o.order.side;
    let p = o.order.price.price;
    let q = own_levels(b, side)[p];
    let after = own_levels(cancel_outcome(b, id), side);
    match side {
        Side::Bid => {},
        Side::Ask => {},
    }
    if q.len() > 1 && q.last() == id {
        assert(q.no_duplicates());
        assert forall|i: int| 0 <= i < q.len() - 1 implies q.drop_last()[i] != id by {
            assert(q[i] != q[q.len() - 1]);
        }
    }
}


/// Time and price priority: the first trade of a submission is with the order
/// queued first at the best price of the other side.
pub proof fn law_first_trade_is_front_of_best_level(b: BookView, o: Order)
    requires
        b.wf(),
        matched(b, o).trades.len() > 0,
    ensures
        ({
            let levels = opposite_levels(b, o.order.side);
            &&& !levels.dom().is_empty()
            &&& matched(b, o).trades[0].maker == levels[best_price(levels, o.order.side)][0]
        }),
{
    let s = start_match(b, o);
    lemma_start_ready(b, o);
    lemma_match_from(s);
    let levels = opposite_levels(b, o.order.side);
    if s.taker.order.quantity == 0 || levels.dom().is_empty() {
    } else {
        let p = best_price(levels, o.order.side);
        let m = levels[p][0];
        if s.orders.contains_key(m) && crosses(s.taker.order, s.orders[m].order.price.price) {
            let maker = s.orders[m];
            if maker.order.quantity <= s.taker.order.quantity {
                let next = MatchState {
                    levels: pop_front(s.levels, p),
                    orders: s.orders.remove(m),
                    taker: with_quantity(s.taker, (s.taker.order.quantity - maker.order.quantity) as u32),
                    trades: s.trades.push(trade_of(m, maker, s.taker, maker.order.quantity)),
                };
                lemma_best_price(levels, o.order.side);
                lemma_fill_first_keeps_wf(s.levels, s.orders, opposite(o.order.side), p);
                lemma_match_from(next);
                assert(matched(b, o).trades.subrange(0, 1)[0] == next.trades[0]);
            }
        }
    }
}

/// Submitting a limit order that trades nothing and joins an existing level,
/// then cancelling it, gives back the book as it was.
pub proof fn law_cancel_undoes_resting_submit(b: BookView, o: Order)
    requires
        b.wf(),
        !b.orders.contains_key(o.id),
        o.order.order_type == Type::Limit,
        o.order.quantity > 0,
        matched(b, o).trades.len() == 0,
        own_levels(b, o.order.side).contains_key(o.order.price.price),
    ensures
        cancel_allowed(submit_outcome(b, o), o.id),
        cancel_outcome(submit_outcome(b, o), o.id) == b,
{
    let s = start_match(b, o);
    lemma_start_ready(b, o);
    lemma_match_from(s);
    lemma_after_match(b, o);
    let side = o.order.side;
    assert(after_match(b, o) == b) by {
        match side {
            Side::Bid => {},
            Side::Ask => {},
        }
    }
    let a = submit_outcome(b, o);
    let p = o.order.price.price;
    let q = own_levels(b, side)[p];
    assert(own_levels(a, side)[p] == q.push(o.id)) by {
        match side {
            Side::Bid => {},
            Side::Ask => {},
        }
    }
    assert(a.orders[o.id] == o);
    assert(q.push(o.id).drop_last() =~= q);
    assert(a.orders.remove(o.id) =~= b.orders);
    let c = cancel_outcome(a, o.id);
    match side {
        Side::Bid => {
            assert(c.bids =~= b.bids);
        },
        Side::Ask => {
            assert(c.asks =~= b.asks);
        },
    }
}


/// Price `a` comes no later than price `b` for a taker of `taker_side`:
/// ascending for a bid, descending for an ask.
pub open spec fn no_later(a: u64, b: u64, taker_side: Side) -> bool {
    match taker_side {
        Side::Bid => a <= b,
        Side::Ask => b <= a,
    }
}

/// The trade prices run in the taker's priority order.
pub open spec fn prices_in_priority(trades: Seq<Trade>, taker_side: Side) -> bool {
    forall|i: int, j: int|
        0 <= i < j < trades.len() ==> no_later(
            #[trigger] trades[i].price.price,
            #[trigger] trades[j].price.price,
            taker_side,
        )
}

/// No trade made so far comes later than what any level left could trade at.
spec fn ahead_of_levels(s: MatchState) -> bool {
    forall|i: int, p: u64|
        0 <= i < s.trades.len() && #[trigger] s.levels.contains_key(p) ==> no_later(
            #[trigger] s.trades[i].price.price,
            min_price(p, s.taker.order.price.price),
            s.taker.order.side,
        )
}

proof fn lemma_match_prices(s: MatchState)
    requires
        match_ready(s),
        prices_in_priority(s.trades, s.taker.order.side),
        ahead_of_levels(s),
    ensures
        prices_in_priority(match_from(s).trades, s.taker.order.side),
    decreases s.orders.dom().len(),
{
    let side = s.taker.order.side;
    if s.taker.order.quantity == 0 || s.levels.dom().is_empty() {
    } else {
        lemma_best_price(s.levels, side);
        let p = best_price(s.levels, side);
        let m = s.levels[p][0];
        assert(resting_at(s.orders, s.levels[p][0], opposite(side), p));
        let maker = s.orders[m];
        if !crosses(s.taker.order, maker.order.price.price) {
        } else {
            let q = if maker.order.quantity > s.taker.order.quantity {
                s.taker.order.quantity
            } else {
                maker.order.quantity
            };
            let t = trade_of(m, maker, s.taker, q);
            let trades2 = s.trades.push(t);
            assert(prices_in_priority(trades2, side)) by {
                assert forall|i: int, j: int| 0 <= i < j < trades2.len() implies no_later(
                    #[trigger] trades2[i].price.price,
                    #[trigger] trades2[j].price.price,
                    side,
                ) by {
                    if j == s.trades.len() {
                        assert(s.levels.contains_key(p));
                        assert(trades2[i] == s.trades[i]);
                    } else {
                        assert(trades2[i] == s.trades[i] && trades2[j] == s.trades[j]);
                    }
                }
            }
            if maker.order.quantity <= s.taker.order.quantity {
                let next = MatchState {
                    levels: pop_front(s.levels, p),
                    orders: s.orders.remove(m),
                    taker: with_quantity(s.taker, (s.taker.order.quantity - maker.order.quantity) as u32),
                    trades: trades2,
                };
                lemma_fill_first_keeps_wf(s.levels, s.orders, opposite(side), p);
                assert(ahead_of_levels(next)) by {
                    assert forall|i: int, r: u64|
                        0 <= i < next.trades.len() && #[trigger] next.levels.contains_key(r) implies no_later(
                        #[trigger] next.trades[i].price.price,
                        min_price(r, next.taker.order.price.price),
                        side,
                    ) by {
                        assert(s.levels.contains_key(r));
                        if i < s.trades.len() {
                            assert(next.trades[i] == s.trades[i]);
                        }
                    }
                }
                lemma_match_prices(next);
            }
        }
    }
}

/// Price priority: the trades of one submission come at prices running from
/// the best on: rising for a bid, falling for an ask.
pub proof fn law_trades_in_price_priority(b: BookView, o: Order)
    requires
        b.wf(),
    ensures
        prices_in_priority(matched(b, o).trades, o.order.side),
{
    lemma_start_ready(b, o);
    lemma_match_prices(start_match(b, o));
}


/// The known order `k` is queued at its own side and price.
pub open spec fn queued(b: BookView, k: u32) -> bool {
    let o = b.orders[k];
    let levels = own_levels(b, o.order.side);
    &&& levels.contains_key(o.order.price.price)
    &&& levels[o.order.price.price].contains(k)
}

/// The book as submissions alone leave it: in shape, uncrossed, and every order
/// of the table is a limit order queued at its side and price.
pub open spec fn consistent(b: BookView) -> bool {
    &&& b.wf()
    &&& b.uncrossed()
    &&& forall|k: u32| #[trigger]
        b.orders.contains_key(k) ==> b.orders[k].order.order_type == Type::Limit && queued(b, k)
}

/// In a book in shape no id is queued twice: not twice in one queue, not in two
/// levels, not on both sides.
pub proof fn lemma_no_id_twice(b: BookView, side: Side, p1: u64, i1: int, p2: u64, i2: int)
    requires
        b.wf(),
        own_levels(b, side).contains_key(p1),
        own_levels(b, side).contains_key(p2),
        0 <= i1 < own_levels(b, side)[p1].len(),
        0 <= i2 < own_levels(b, side)[p2].len(),
        own_levels(b, side)[p1][i1] == own_levels(b, side)[p2][i2],
    ensures
        p1 == p2,
        i1 == i2,
        forall|q: u64, j: int|
            opposite_levels(b, side).contains_key(q) && 0 <= j < opposite_levels(b, side)[q].len()
                ==> #[trigger] opposite_levels(b, side)[q][j] != own_levels(b, side)[p1][i1],
{
    let lv = own_levels(b, side);
    let ov = opposite_levels(b, side);
    assert(side_wf(lv, b.orders, side)) by {
        match side {
            Side::Bid => {},
            Side::Ask => {},
        }
    }
    assert(side_wf(ov, b.orders, opposite(side))) by {
        match side {
            Side::Bid => {},
            Side::Ask => {},
        }
    }
    assert(resting_at(b.orders, lv[p1][i1], side, p1));
    assert(resting_at(b.orders, lv[p2][i2], side, p2));
    assert(lv[p1].no_duplicates());
    assert forall|q: u64, j: int| ov.contains_key(q) && 0 <= j < ov[q].len() implies #[trigger] ov[q][j]
        != lv[p1][i1] by {
        assert(resting_at(b.orders, ov[q][j], opposite(side), q));
    }
}

/// Every order of the makers' side in the table is queued at its price.
spec fn makers_queued(s: MatchState) -> bool {
    forall|k: u32|
        #[trigger] s.orders.contains_key(k) && s.orders[k].order.side == opposite(s.taker.order.side)
            ==> s.levels.contains_key(s.orders[k].order.price.price) && s.levels[s.orders[k].order.price.price].contains(k)
}

/// Every order of the table is a limit order.
spec fn all_limit(orders: Map<u32, Order>) -> bool {
    forall|k: u32| #[trigger] orders.contains_key(k) ==> orders[k].order.order_type == Type::Limit
}

/// Every order of `o2` was in `o1`, with at most its quantity changed.
spec fn only_quantities_changed(o1: Map<u32, Order>, o2: Map<u32, Order>) -> bool {
    forall|k: u32| #[trigger]
        o2.contains_key(k) ==> o1.contains_key(k) && o2[k] == with_quantity(o1[k], o2[k].order.quantity)
}

proof fn lemma_match_keeps_queued(s: MatchState)
    requires
        match_ready(s),
        makers_queued(s),
        all_limit(s.orders),
    ensures
        makers_queued(match_from(s)),
        all_limit(match_from(s).orders),
        only_quantities_changed(s.orders, match_from(s).orders),
    decreases s.orders.dom().len(),
{
    let side = s.taker.order.side;
    if s.taker.order.quantity == 0 || s.levels.dom().is_empty() {
    } else {
        lemma_best_price(s.levels, side);
        let p = best_price(s.levels, side);
        let m = s.levels[p][0];
        assert(resting_at(s.orders, s.levels[p][0], opposite(side), p));
        let maker = s.orders[m];
        if !crosses(s.taker.order, maker.order.price.price) {
        } else if maker.order.quantity > s.taker.order.quantity {
            let r = match_from(s);
            assert(s.levels[p].contains(m)) by {
                assert(s.levels[p][0] == m);
            }
            assert forall|k: u32| #[trigger] r.orders.contains_key(k) && r.orders[k].order.side == opposite(side)
                implies r.levels.contains_key(r.orders[k].order.price.price) && r.levels[r.orders[k].order.price.price].contains(k) by {
                if k != m {
                    assert(s.orders.contains_key(k));
                }
            }
            assert forall|k: u32| #[trigger] r.orders.contains_key(k) implies r.orders[k].order.order_type == Type::Limit by {
                assert(s.orders.contains_key(k));
            }
            assert forall|k: u32| #[trigger] r.orders.contains_key(k) implies s.orders.contains_key(k)
                && r.orders[k] == with_quantity(s.orders[k], r.orders[k].order.quantity) by {
                assert(s.orders.contains_key(k));
                if k != m {
                    assert(s.orders[k] == with_quantity(s.orders[k], s.orders[k].order.quantity));
                }
            }
        } else {
            let next = MatchState {
                levels: pop_front(s.levels, p),
                orders: s.orders.remove(m),
                taker: with_quantity(s.taker, (s.taker.order.quantity - maker.order.quantity) as u32),
                trades: s.trades.push(trade_of(m, maker, s.taker, maker.order.quantity)),
            };
            lemma_fill_first_keeps_wf(s.levels, s.orders, opposite(side), p);
            assert forall|k: u32| #[trigger] next.orders.contains_key(k) && next.orders[k].order.side == opposite(side)
                implies next.levels.contains_key(next.orders[k].order.price.price) && next.levels[next.orders[k].order.price.price].contains(k) by {
                let q = next.orders[k].order.price.price;
                assert(s.orders.contains_key(k) && s.orders[k] == next.orders[k]);
                assert(s.levels.contains_key(q) && s.levels[q].contains(k));
                if q == p {
                    let j = choose|j: int| 0 <= j < s.levels[p].len() && s.levels[p][j] == k;
                    assert(j != 0);
                    assert(s.levels[p].len() > 1);
                    assert(next.levels[p] == s.levels[p].drop_first());
                    assert(next.levels[p][j - 1] == k);
                }
            }
            assert forall|k: u32| #[trigger] next.orders.contains_key(k) implies next.orders[k].order.order_type == Type::Limit by {
                assert(s.orders.contains_key(k));
            }
            lemma_match_keeps_queued(next);
            let r = match_from(s);
            assert forall|k: u32| #[trigger] r.orders.contains_key(k) implies s.orders.contains_key(k)
                && r.orders[k] == with_quantity(s.orders[k], r.orders[k].order.quantity) by {
                assert(next.orders.contains_key(k));
                assert(next.orders[k] == s.orders[k]);
            }
        }
    }
}

/// Submitting an order under an unused id keeps the book consistent: in shape,
/// uncrossed, every known order a limit order queued at its side and price
/// (so each queued id names one order, queued in one place).
pub proof fn law_submit_keeps_consistent(b: BookView, o: Order)
    requires
        consistent(b),
        !b.orders.contains_key(o.id),
    ensures
        consistent(submit_outcome(b, o)),
{
    lemma_submit_wf(b, o);
    law_submit_keeps_uncrossed(b, o);
    let s = start_match(b, o);
    lemma_start_ready(b, o);
    lemma_match_from(s);
    lemma_after_match(b, o);
    let side = o.order.side;
    assert(makers_queued(s)) by {
        assert forall|k: u32| #[trigger] s.orders.contains_key(k) && s.orders[k].order.side == opposite(side)
            implies s.levels.contains_key(s.orders[k].order.price.price) && s.levels[s.orders[k].order.price.price].contains(k) by {
            assert(queued(b, k));
            match side {
                Side::Bid => {},
                Side::Ask => {},
            }
        }
    }
    assert(all_limit(s.orders));
    lemma_match_keeps_queued(s);
    let m = matched(b, o);
    let a = after_match(b, o);
    assert forall|k: u32| #[trigger] a.orders.contains_key(k) implies a.orders[k].order.order_type == Type::Limit
        && queued(a, k) by {
        assert(m.orders.contains_key(k));
        assert(b.orders.contains_key(k));
        assert(m.orders[k] == with_quantity(b.orders[k], m.orders[k].order.quantity));
        if b.orders[k].order.side == side {
            assert(b.orders.contains_key(k));
            assert(queued(b, k));
            match side {
                Side::Bid => {},
                Side::Ask => {},
            }
        } else {
            match side {
                Side::Bid => {},
                Side::Ask => {},
            }
        }
    }
    if o.order.order_type == Type::Limit && m.taker.order.quantity > 0 {
        let t = m.taker;
        let r = rest(a, t);
        let p = t.order.price.price;
        assert forall|k: u32| #[trigger] r.orders.contains_key(k) implies r.orders[k].order.order_type == Type::Limit
            && queued(r, k) by {
            if k == t.id {
                match side {
                    Side::Bid => {
                        assert(r.bids[p].last() == k);
                    },
                    Side::Ask => {
                        assert(r.asks[p].last() == k);
                    },
                }
            } else {
                assert(a.orders.contains_key(k));
                assert(queued(a, k));
                let ko = a.orders[k];
                let q = ko.order.price.price;
                let j = choose|j: int| 0 <= j < own_levels(a, ko.order.side)[q].len() && own_levels(a, ko.order.side)[q][j] == k;
                match side {
                    Side::Bid => {
                        if ko.order.side == Side::Bid && q == p {
                            assert(r.bids[q][j] == k);
                        }
                    },
                    Side::Ask => {
                        if ko.order.side == Side::Ask && q == p {
                            assert(r.asks[q][j] == k);
                        }
                    },
                }
            }
        }
    }
}


/// The quantity the trades take from the maker filed under `k`.
pub open spec fn filled_as_maker(trades: Seq<Trade>, k: u32) -> int
    decreases trades.len(),
{
    if trades.len() == 0 {
        0
    } else {
        filled_as_maker(trades.drop_last(), k) + if trades.last().maker == k {
            trades.last().quantity as int
        } else {
            0
        }
    }
}

/// Trades appended after a prefix, none of which name `k` as maker, take nothing more from `k`.
proof fn lemma_filled_suffix(all: Seq<Trade>, n: int, k: u32)
    requires
        0 <= n <= all.len(),
        forall|i: int| n <= i < all.len() ==> #[trigger] all[i].maker != k,
    ensures
        filled_as_maker(all, k) == filled_as_maker(all.subrange(0, n), k),
    decreases all.len(),
{
    if all.len() == n {
        assert(all.subrange(0, n) =~= all);
    } else {
        lemma_filled_suffix(all.drop_last(), n, k);
        assert(all.drop_last().subrange(0, n) =~= all.subrange(0, n));
    }
}

proof fn lemma_maker_conservation(s: MatchState)
    requires
        match_ready(s),
    ensures
        ({
            let r = match_from(s);
            forall|k: u32| #[trigger]
                s.orders.contains_key(k) ==> {
                    &&& r.orders.contains_key(k) ==> r.orders[k].order.quantity + filled_as_maker(r.trades, k)
                        == s.orders[k].order.quantity + filled_as_maker(s.trades, k)
                    &&& !r.orders.contains_key(k) ==> filled_as_maker(r.trades, k)
                        == s.orders[k].order.quantity + filled_as_maker(s.trades, k)
                }
        }),
    decreases s.orders.dom().len(),
{
    let side = s.taker.order.side;
    let r = match_from(s);
    lemma_match_from(s);
    if s.taker.order.quantity == 0 || s.levels.dom().is_empty() {
    } else {
        lemma_best_price(s.levels, side);
        let p = best_price(s.levels, side);
        let m = s.levels[p][0];
        assert(resting_at(s.orders, s.levels[p][0], opposite(side), p));
        let maker = s.orders[m];
        if !crosses(s.taker.order, maker.order.price.price) {
        } else if maker.order.quantity > s.taker.order.quantity {
            assert(r.trades.drop_last() =~= s.trades);
        } else {
            let next = MatchState {
                levels: pop_front(s.levels, p),
                orders: s.orders.remove(m),
                taker: with_quantity(s.taker, (s.taker.order.quantity - maker.order.quantity) as u32),
                trades: s.trades.push(trade_of(m, maker, s.taker, maker.order.quantity)),
            };
            lemma_fill_first_keeps_wf(s.levels, s.orders, opposite(side), p);
            lemma_maker_conservation(next);
            lemma_match_from(next);
            assert(next.trades.drop_last() =~= s.trades);
            assert forall|k: u32| #[trigger] s.orders.contains_key(k) implies {
                &&& r.orders.contains_key(k) ==> r.orders[k].order.quantity + filled_as_maker(r.trades, k)
                    == s.orders[k].order.quantity + filled_as_maker(s.trades, k)
                &&& !r.orders.contains_key(k) ==> filled_as_maker(r.trades, k)
                    == s.orders[k].order.quantity + filled_as_maker(s.trades, k)
            } by {
                if k == m {
                    assert(!r.orders.contains_key(m));
                    assert forall|i: int| next.trades.len() <= i < r.trades.len() implies #[trigger] r.trades[i].maker != m by {
                        assert(next.orders.contains_key(r.trades[i].maker));
                    }
                    lemma_filled_suffix(r.trades, next.trades.len() as int, m);
                } else {
                    assert(next.orders.contains_key(k));
                }
            }
        }
    }
}

/// Maker-side conservation: after a submission each order the book knew
/// before has lost exactly what the submission's trades took from it; an
/// order is gone from the table exactly when they took all of it.
pub proof fn law_makers_lose_what_they_trade(b: BookView, o: Order, k: u32)
    requires
        b.wf(),
        !b.orders.contains_key(o.id),
        b.orders.contains_key(k),
    ensures
        ({
            let trades = matched(b, o).trades;
            let after = submit_outcome(b, o);
            &&& after.orders.contains_key(k) ==> after.orders[k].order.quantity + filled_as_maker(trades, k)
                == b.orders[k].order.quantity
            &&& !after.orders.contains_key(k) ==> filled_as_maker(trades, k) == b.orders[k].order.quantity
        }),
{
    let s = start_match(b, o);
    lemma_start_ready(b, o);
    lemma_maker_conservation(s);
    lemma_after_match(b, o);
    assert(k != o.id);
}

/// A market order trades with every resting order it meets, whatever its own
/// price: its matching ends only once it is filled or the other side is empty.
pub proof fn law_market_order_takes_all_it_can(b: BookView, o: Order)
    requires
        b.wf(),
        o.order.order_type == Type::Market,
    ensures
        matched(b, o).taker.order.quantity == 0
            || opposite_levels(after_match(b, o), o.order.side).dom().is_empty(),
{
    let s = start_match(b, o);
    lemma_start_ready(b, o);
    lemma_match_from(s);
    match o.order.side {
        Side::Bid => {},
        Side::Ask => {},
    }
}

/// A cancellation touches nothing but the cancelled order's level and table
/// entry: the other side, every other level of its side and every other order
/// are as they were.
pub proof fn law_cancel_frames_the_rest(b: BookView, id: u32, q: u64, k: u32)
    requires
        b.wf(),
        b.orders.contains_key(id),
        cancel_allowed(b, id),
        q != b.orders[id].order.price.price,
        k != id,
    ensures
        ({
            let side = b.orders[id].order.side;
            let c = cancel_outcome(b, id);
            &&& opposite_levels(c, side) == opposite_levels(b, side)
            &&& own_levels(c, side).contains_key(q) == own_levels(b, side).contains_key(q)
            &&& own_levels(b, side).contains_key(q) ==> own_levels(c, side)[q] == own_levels(b, side)[q]
            &&& c.orders.contains_key(k) == b.orders.contains_key(k)
            &&& b.orders.contains_key(k) ==> c.orders[k] == b.orders[k]
        }),
{
    match b.orders[id].order.side {
        Side::Bid => {},
        Side::Ask => {},
    }
}


/// A snapshot asked for with no depth shows every level of both sides.
pub proof fn law_full_snapshot_shows_every_level(bids_len: nat, asks_len: nat)
    ensures
        shown_levels(bids_len, depth_bound(None, bids_len, asks_len)) == bids_len,
        shown_levels(asks_len, depth_bound(None, bids_len, asks_len)) == asks_len,
{
}


/// Each trade names the maker's and the taker's clients, and is priced at the
/// lower of the maker's limit and the taker's limit.
pub proof fn law_trade_terms(b: BookView, o: Order, i: int)
    requires
        b.wf(),
        !b.orders.contains_key(o.id),
        0 <= i < matched(b, o).trades.len(),
    ensures
        ({
            let t = matched(b, o).trades[i];
            let maker = b.orders[t.maker];
            &&& b.orders.contains_key(t.maker)
            &&& t.maker_client_id == maker.order.client_id
            &&& t.taker_client_id == o.order.client_id
            &&& t.price.price == if maker.order.price.price <= o.order.price.price {
                maker.order.price.price
            } else {
                o.order.price.price
            }
        }),
{
    let s = start_match(b, o);
    lemma_start_ready(b, o);
    lemma_trade_terms(s);
    lemma_match_from(s);
    let t = matched(b, o).trades[i];
    assert(crate::book_model::trade_by(t, o));
}

/// The trades made from a state are with makers of its table, on its terms.
spec fn trades_on_terms(s: MatchState, trades: Seq<Trade>, from: int) -> bool {
    forall|i: int|
        from <= i < trades.len() ==> {
            let t = #[trigger] trades[i];
            &&& s.orders.contains_key(t.maker)
            &&& t.maker_client_id == s.orders[t.maker].order.client_id
            &&& t.price.price == min_price(
                s.orders[t.maker].order.price.price,
                s.taker.order.price.price,
            )
        }
}

proof fn lemma_trade_terms(s: MatchState)
    requires
        match_ready(s),
    ensures
        trades_on_terms(s, match_from(s).trades, s.trades.len() as int),
    decreases s.orders.dom().len(),
{
    let side = s.taker.order.side;
    let r = match_from(s);
    lemma_match_from(s);
    if s.taker.order.quantity == 0 || s.levels.dom().is_empty() {
    } else {
        lemma_best_price(s.levels, side);
        let p = best_price(s.levels, side);
        let m = s.levels[p][0];
        assert(resting_at(s.orders, s.levels[p][0], opposite(side), p));
        let maker = s.orders[m];
        if !crosses(s.taker.order, maker.order.price.price) {
        } else if maker.order.quantity > s.taker.order.quantity {
        } else {
            let next = MatchState {
                levels: pop_front(s.levels, p),
                orders: s.orders.remove(m),
                taker: with_quantity(s.taker, (s.taker.order.quantity - maker.order.quantity) as u32),
                trades: s.trades.push(trade_of(m, maker, s.taker, maker.order.quantity)),
            };
            lemma_fill_first_keeps_wf(s.levels, s.orders, opposite(side), p);
            lemma_trade_terms(next);
            lemma_match_from(next);
            assert forall|i: int| s.trades.len() <= i < r.trades.len() implies {
                let t = #[trigger] r.trades[i];
                &&& s.orders.contains_key(t.maker)
                &&& t.maker_client_id == s.orders[t.maker].order.client_id
                &&& t.price.price == min_price(
                    s.orders[t.maker].order.price.price,
                    s.taker.order.price.price,
                )
            } by {
                if i == s.trades.len() {
                    assert(r.trades[i] == r.trades.subrange(0, next.trades.len() as int)[i]);
                } else {
                    assert(next.orders.contains_key(r.trades[i].maker));
                }
            }
        }
    }
}

/// `q` is a strictly better price than `p` for a taker of `taker_side`.
pub open spec fn better_price(q: u64, p: u64, taker_side: Side) -> bool {
    match taker_side {
        Side::Bid => q < p,
        Side::Ask => q > p,
    }
}

/// Price-time priority over a match state: an order that trades has every
/// order queued ahead of it at its price filled in full, and every level at a
/// better price emptied.
spec fn priority_kept(s: MatchState, r: MatchState) -> bool {
    &&& forall|p: u64, i: int, j: int|
        #![trigger s.levels[p][i], s.levels[p][j]]
        s.levels.contains_key(p) && 0 <= i < j < s.levels[p].len() && filled_as_maker(
            r.trades,
            s.levels[p][j],
        ) > filled_as_maker(s.trades, s.levels[p][j]) ==> !r.orders.contains_key(s.levels[p][i])
    &&& forall|p: u64, q: u64, j: int|
        #![trigger s.levels[p][j], s.levels.contains_key(q)]
        s.levels.contains_key(p) && s.levels.contains_key(q) && 0 <= j < s.levels[p].len()
            && better_price(q, p, s.taker.order.side) && filled_as_maker(r.trades, s.levels[p][j])
            > filled_as_maker(s.trades, s.levels[p][j]) ==> !r.levels.contains_key(q)
}

proof fn lemma_priority(s: MatchState)
    requires
        match_ready(s),
    ensures
        priority_kept(s, match_from(s)),
    decreases s.orders.dom().len(),
{
    let side = s.taker.order.side;
    let r = match_from(s);
    lemma_match_from(s);
    if s.taker.order.quantity == 0 || s.levels.dom().is_empty() {
    } else {
        lemma_best_price(s.levels, side);
        let p0 = best_price(s.levels, side);
        let m = s.levels[p0][0];
        assert(resting_at(s.orders, s.levels[p0][0], opposite(side), p0));
        let maker = s.orders[m];
        if !crosses(s.taker.order, maker.order.price.price) {
        } else if maker.order.quantity > s.taker.order.quantity {
            assert(r.trades.drop_last() =~= s.trades);
            assert forall|p: u64, j: int|
                s.levels.contains_key(p) && 0 <= j < s.levels[p].len() && filled_as_maker(
                    r.trades,
                    s.levels[p][j],
                ) > filled_as_maker(s.trades, s.levels[p][j]) implies p == p0 && j == 0 by {
                assert(s.levels[p][j] == m);
                assert(resting_at(s.orders, s.levels[p][j], opposite(side), p));
                assert(s.levels[p0].no_duplicates());
            }
        } else {
            let next = MatchState {
                levels: pop_front(s.levels, p0),
                orders: s.orders.remove(m),
                taker: with_quantity(s.taker, (s.taker.order.quantity - maker.order.quantity) as u32),
                trades: s.trades.push(trade_of(m, maker, s.taker, maker.order.quantity)),
            };
            lemma_fill_first_keeps_wf(s.levels, s.orders, opposite(side), p0);
            lemma_priority(next);
            lemma_match_from(next);
            assert(next.trades.drop_last() =~= s.trades);
            assert(!r.orders.contains_key(m));
            // An id other than m at (p, j) in s sits in next at the same price,
            // one place earlier when p == p0.
            assert forall|p: u64, i: int, j: int|
                s.levels.contains_key(p) && 0 <= i < j < s.levels[p].len() && filled_as_maker(
                    r.trades,
                    #[trigger] s.levels[p][j],
                ) > filled_as_maker(s.trades, s.levels[p][j]) implies !r.orders.contains_key(
                #[trigger] s.levels[p][i],
            ) by {
                let x = s.levels[p][j];
                assert(resting_at(s.orders, s.levels[p][j], opposite(side), p));
                assert(s.levels[p].no_duplicates());
                if p == p0 {
                    assert(x != m);
                    if i == 0 {
                    } else {
                        assert(next.levels[p][j - 1] == x);
                        assert(next.levels[p][i - 1] == s.levels[p][i]);
                    }
                } else {
                    if x == m {
                        assert(resting_at(s.orders, s.levels[p0][0], opposite(side), p0));
                    }
                    assert(next.levels[p] == s.levels[p]);
                }
            }
            assert forall|p: u64, q: u64, j: int|
                #![trigger s.levels[p][j], s.levels.contains_key(q)]
                s.levels.contains_key(p) && s.levels.contains_key(q) && 0 <= j < s.levels[p].len()
                    && better_price(q, p, side) && filled_as_maker(r.trades, s.levels[p][j])
                    > filled_as_maker(s.trades, s.levels[p][j]) implies !r.levels.contains_key(q) by {
                let x = s.levels[p][j];
                assert(resting_at(s.orders, s.levels[p][j], opposite(side), p));
                assert(s.levels.contains_key(q));
                if x == m {
                    assert(s.levels[p0].no_duplicates());
                    assert(p == p0);
                } else {
                    if p == p0 {
                        assert(j > 0);
                        assert(next.levels[p][j - 1] == x);
                    } else {
                        assert(next.levels[p] == s.levels[p]);
                    }
                    if next.levels.contains_key(q) {
                        if p == p0 {
                            assert(next.levels[p][j - 1] == x);
                        }
                    }
                }
            }
        }
    }
}

/// Price-time priority: a submission trades with a resting order only once
/// every order queued ahead of it at its price is filled in full and every
/// level at a better price is gone.
pub proof fn law_price_time_priority(b: BookView, o: Order, p: u64, i: int, j: int, q: u64)
    requires
        b.wf(),
        !b.orders.contains_key(o.id),
        opposite_levels(b, o.order.side).contains_key(p),
        0 <= j < opposite_levels(b, o.order.side)[p].len(),
        filled_as_maker(matched(b, o).trades, opposite_levels(b, o.order.side)[p][j]) > 0,
    ensures
        0 <= i < j ==> !submit_outcome(b, o).orders.contains_key(opposite_levels(b, o.order.side)[p][i]),
        opposite_levels(b, o.order.side).contains_key(q) && better_price(q, p, o.order.side)
            ==> !opposite_levels(submit_outcome(b, o), o.order.side).contains_key(q),
{
    let s = start_match(b, o);
    lemma_start_ready(b, o);
    lemma_priority(s);
    lemma_after_match(b, o);
    let lv = opposite_levels(b, o.order.side);
    assert(side_wf(lv, b.orders, opposite(o.order.side))) by {
        match o.order.side {
            Side::Bid => {},
            Side::Ask => {},
        }
    }
    if 0 <= i < j {
        assert(resting_at(b.orders, lv[p][i], opposite(o.order.side), p));
        assert(lv[p][i] != o.id);
        assert(s.levels[p][i] == lv[p][i] && s.levels[p][j] == lv[p][j]);
    }
    assert(s.levels[p][j] == lv[p][j]);
    match o.order.side {
        Side::Bid => {},
        Side::Ask => {},
    }
}

/// What is left of a limit order joins the back of the queue at its price
/// (a new level if there was none); the other levels of its side are untouched.
pub proof fn law_rest_joins_back_of_queue(b: BookView, o: Order, q: u64)
    requires
        b.wf(),
        o.order.order_type == Type::Limit,
        matched(b, o).taker.order.quantity > 0,
    ensures
        ({
            let p = o.order.price.price;
            let before = own_levels(b, o.order.side);
            let after = own_levels(submit_outcome(b, o), o.order.side);
            &&& after.contains_key(p)
            &&& after[p] == if before.contains_key(p) {
                before[p]
            } else {
                Seq::<u32>::empty()
            }.push(o.id)
            &&& q != p ==> after.contains_key(q) == before.contains_key(q)
            &&& q != p && before.contains_key(q) ==> after[q] == before[q]
        }),
{
    lemma_after_match(b, o);
    let p = o.order.price.price;
    if !own_levels(b, o.order.side).contains_key(p) {
        assert(seq![o.id] =~= Seq::<u32>::empty().push(o.id));
    }
    match o.order.side {
        Side::Bid => {},
        Side::Ask => {},
    }
}

/// Cancelling out of a level of several entries keeps the other entries of the
/// level, in their order.
pub proof fn law_cancel_keeps_level_order(b: BookView, id: u32)
    requires
        b.wf(),
        b.orders.contains_key(id),
        cancel_allowed(b, id),
        own_levels(b, b.orders[id].order.side)[b.orders[id].order.price.price].len() > 1,
    ensures
        ({
            let side = b.orders[id].order.side;
            let p = b.orders[id].order.price.price;
            let before = own_levels(b, side)[p];
            let after = own_levels(cancel_outcome(b, id), side);
            &&& after.contains_key(p)
            &&& after[p] + (if before.contains(id) {
                seq![id]
            } else {
                Seq::<u32>::empty()
            }) == before
        }),
{
    let side = b.orders[id].order.side;
    let p = b.orders[id].order.price.price;
    let before = own_levels(b, side)[p];
    match side {
        Side::Bid => {},
        Side::Ask => {},
    }
    if before.contains(id) {
        assert(before.last() == id);
        assert(before.drop_last() + seq![id] =~= before);
    } else {
        assert(before + Seq::<u32>::empty() =~= before);
    }
}

} // verus!
