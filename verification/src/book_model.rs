//! The mathematical model of the book and the matching rule it follows.
use vstd::prelude::*;
use std::collections::VecDeque;
use crate::order::{Order, OrderReq, Price, Side, Type};
use crate::order_book::Trade;

verus! {

/// The book as mathematics: the id queue of each price level on both sides,
/// and the orders the book knows by id.
pub struct BookView {
    pub bids: Map<u64, Seq<u32>>,
    pub asks: Map<u64, Seq<u32>>,
    pub orders: Map<u32, Order>,
}

/// The queues of a side, each taken by its sequence of ids.
pub open spec fn levels_view(m: Map<u64, VecDeque<u32>>) -> Map<u64, Seq<u32>> {
    m.map_values(|q: VecDeque<u32>| q@)
}

/// `id` names a live order of `side` at price `p`.
pub open spec fn resting_at(orders: Map<u32, Order>, id: u32, side: Side, p: u64) -> bool {
    &&& orders.contains_key(id)
    &&& orders[id].order.side == side
    &&& orders[id].order.price.price == p
    &&& orders[id].order.quantity > 0
}

/// Every level of a side is a non-empty queue without repeats of live orders
/// of that side at that level's price.
pub open spec fn side_wf(levels: Map<u64, Seq<u32>>, orders: Map<u32, Order>, side: Side) -> bool {
    &&& levels.dom().finite()
    &&& forall|p: u64| #[trigger]
        levels.contains_key(p) ==> levels[p].len() > 0 && levels[p].no_duplicates()
    &&& forall|p: u64, i: int|
        levels.contains_key(p) && 0 <= i < levels[p].len() ==> resting_at(
            orders,
            #[trigger] levels[p][i],
            side,
            p,
        )
}

/// The orders table is finite and each order is filed under its own id.
pub open spec fn orders_wf(orders: Map<u32, Order>) -> bool {
    &&& orders.dom().finite()
    &&& forall|k: u32| #[trigger] orders.contains_key(k) ==> orders[k].id == k
}

impl BookView {
    /// The invariant that every operation of the book keeps.
    pub open spec fn wf(self) -> bool {
        &&& orders_wf(self.orders)
        &&& side_wf(self.bids, self.orders, Side::Bid)
        &&& side_wf(self.asks, self.orders, Side::Ask)
    }

    /// Every bid price lies strictly below every ask price.
    pub open spec fn uncrossed(self) -> bool {
        forall|b: u64, a: u64|
            #![trigger self.bids.contains_key(b), self.asks.contains_key(a)]
            self.bids.contains_key(b) && self.asks.contains_key(a) ==> b < a
    }
}

/// The side an order of `side` trades against.
pub open spec fn opposite(side: Side) -> Side {
    match side {
        Side::Bid => Side::Ask,
        Side::Ask => Side::Bid,
    }
}

/// `p` is the most attractive price among `levels` for a taker of `taker_side`:
/// the lowest ask for a bid, the highest bid for an ask.
pub open spec fn is_best(levels: Map<u64, Seq<u32>>, taker_side: Side, p: u64) -> bool {
    &&& levels.contains_key(p)
    &&& forall|q: u64| #[trigger]
        levels.contains_key(q) ==> match taker_side {
            Side::Bid => p <= q,
            Side::Ask => q <= p,
        }
}

/// The best price of a non-empty side, for a taker of `taker_side`.
pub open spec fn best_price(levels: Map<u64, Seq<u32>>, taker_side: Side) -> u64 {
    choose|p: u64| is_best(levels, taker_side, p)
}

/// A taker may trade with a maker whose limit is `maker_price`: always for a
/// market order, and for a limit order when the maker's price is within its limit.
pub open spec fn crosses(taker: OrderReq, maker_price: u64) -> bool {
    match taker.order_type {
        Type::Market => true,
        Type::Limit => match taker.side {
            Side::Bid => maker_price <= taker.price.price,
            Side::Ask => maker_price >= taker.price.price,
        },
    }
}

pub open spec fn min_price(a: u64, b: u64) -> u64 {
    if a <= b {
        a
    } else {
        b
    }
}

/// The trade of `quantity` between the maker filed under `maker_id` and the taker;
/// it is priced at the lower of the two limits.
pub open spec fn trade_of(maker_id: u32, maker: Order, taker: Order, quantity: u32) -> Trade {
    Trade {
        maker_client_id: maker.order.client_id,
        maker: maker_id,
        taker_client_id: taker.order.client_id,
        taker: taker.id,
        price: Price { price: min_price(maker.order.price.price, taker.order.price.price) },
        quantity,
    }
}

/// The same order with `quantity` left.
pub open spec fn with_quantity(o: Order, quantity: u32) -> Order {
    Order { id: o.id, order: OrderReq { quantity, ..o.order } }
}

/// The side without the first id of level `p`; a level left empty goes away.
pub open spec fn pop_front(levels: Map<u64, Seq<u32>>, p: u64) -> Map<u64, Seq<u32>> {
    if levels[p].len() <= 1 {
        levels.remove(p)
    } else {
        levels.insert(p, levels[p].drop_first())
    }
}

/// Where matching stands: the side being taken from, the orders table, the
/// taker with what is left of it, and the trades made so far.
pub struct MatchState {
    pub levels: Map<u64, Seq<u32>>,
    pub orders: Map<u32, Order>,
    pub taker: Order,
    pub trades: Seq<Trade>,
}

/// Price-time priority: while the taker has quantity left and the best level
/// crosses, it trades with the first order in that level's queue. A maker larger
/// than what is left is reduced and matching ends; otherwise the maker is filled,
/// leaves its queue and the table, and matching goes on.
pub open spec fn match_from(s: MatchState) -> MatchState
    decreases s.orders.dom().len(),
    when s.orders.dom().finite()
{
    if s.taker.order.quantity == 0 || s.levels.dom().is_empty() {
        s
    } else {
        let p = best_price(s.levels, s.taker.order.side);
        let m = s.levels[p][0];
        if !s.orders.contains_key(m) {
            s
        } else {
            let maker = s.orders[m];
            if !crosses(s.taker.order, maker.order.price.price) {
                s
            } else if maker.order.quantity > s.taker.order.quantity {
                MatchState {
                    levels: s.levels,
                    orders: s.orders.insert(
                        m,
                        with_quantity(maker, (maker.order.quantity - s.taker.order.quantity) as u32),
                    ),
                    taker: with_quantity(s.taker, 0),
                    trades: s.trades.push(trade_of(m, maker, s.taker, s.taker.order.quantity)),
                }
            } else {
                match_from(
                    MatchState {
                        levels: pop_front(s.levels, p),
                        orders: s.orders.remove(m),
                        taker: with_quantity(
                            s.taker,
                            (s.taker.order.quantity - maker.order.quantity) as u32,
                        ),
                        trades: s.trades.push(trade_of(m, maker, s.taker, maker.order.quantity)),
                    },
                )
            }
        }
    }
}


/// The orders table and the side being taken from are in shape for matching.
pub open spec fn match_ready(s: MatchState) -> bool {
    &&& orders_wf(s.orders)
    &&& side_wf(s.levels, s.orders, opposite(s.taker.order.side))
}

/// Matching has nothing more to do: the taker is filled, the side is empty,
/// or its best price does not cross the taker's limit.
pub open spec fn stopped(s: MatchState) -> bool {
    ||| s.taker.order.quantity == 0
    ||| s.levels.dom().is_empty()
    ||| !crosses(s.taker.order, best_price(s.levels, s.taker.order.side))
}

/// The quantity traded over a sequence of trades.
pub open spec fn traded_quantity(trades: Seq<Trade>) -> int
    decreases trades.len(),
{
    if trades.len() == 0 {
        0
    } else {
        traded_quantity(trades.drop_last()) + trades.last().quantity
    }
}

/// A trade made by `taker`: it names the taker, moves a positive quantity,
/// and its price is within the taker's limit.
pub open spec fn trade_by(t: Trade, taker: Order) -> bool {
    &&& t.taker == taker.id
    &&& t.taker_client_id == taker.order.client_id
    &&& t.quantity > 0
    &&& crosses(taker.order, t.price.price)
}

/// A finite non-empty set of prices has a least and a greatest element.
pub proof fn lemma_extreme_exists(s: Set<u64>, taker_side: Side)
    requires
        s.finite(),
        s.len() > 0,
    ensures
        exists|p: u64|
            s.contains(p) && forall|q: u64| #[trigger]
                s.contains(q) ==> match taker_side {
                    Side::Bid => p <= q,
                    Side::Ask => q <= p,
                },
    decreases s.len(),
{
    let x = s.choose();
    assert(s.contains(x));
    let rest = s.remove(x);
    if rest.len() == 0 {
        assert forall|q: u64| #[trigger] s.contains(q) implies q == x by {
            if q != x {
                assert(rest.contains(q));
            }
        }
        assert(s.contains(x) && forall|q: u64| #[trigger]
            s.contains(q) ==> match taker_side {
                Side::Bid => x <= q,
                Side::Ask => q <= x,
            });
    } else {
        lemma_extreme_exists(rest, taker_side);
        let p = choose|p: u64|
            rest.contains(p) && forall|q: u64| #[trigger]
                rest.contains(q) ==> match taker_side {
                    Side::Bid => p <= q,
                    Side::Ask => q <= p,
                };
        let better = match taker_side {
            Side::Bid => x <= p,
            Side::Ask => p <= x,
        };
        if better {
            assert forall|q: u64| #[trigger] s.contains(q) implies match taker_side {
                Side::Bid => x <= q,
                Side::Ask => q <= x,
            } by {
                if q != x {
                    assert(rest.contains(q));
                }
            }
        } else {
            assert forall|q: u64| #[trigger] s.contains(q) implies match taker_side {
                Side::Bid => p <= q,
                Side::Ask => q <= p,
            } by {
                if q != x {
                    assert(rest.contains(q));
                }
            }
            assert(s.contains(p));
        }
    }
}

/// A finite non-empty side has a best price.
pub proof fn lemma_best_price(levels: Map<u64, Seq<u32>>, taker_side: Side)
    requires
        levels.dom().finite(),
        !levels.dom().is_empty(),
    ensures
        is_best(levels, taker_side, best_price(levels, taker_side)),
{
    assert(levels.dom().len() > 0) by {
        if levels.dom().len() == 0 {
            levels.dom().lemma_len0_is_empty();
        }
    }
    lemma_extreme_exists(levels.dom(), taker_side);
    let p = choose|p: u64|
        levels.dom().contains(p) && forall|q: u64| #[trigger]
            levels.dom().contains(q) ==> match taker_side {
                Side::Bid => p <= q,
                Side::Ask => q <= p,
            };
    assert(is_best(levels, taker_side, p));
}

/// Two best prices of one side are the same price.
pub proof fn lemma_best_unique(levels: Map<u64, Seq<u32>>, taker_side: Side, p: u64)
    requires
        is_best(levels, taker_side, p),
    ensures
        best_price(levels, taker_side) == p,
{
    let b = best_price(levels, taker_side);
    assert(is_best(levels, taker_side, b));
    assert(levels.contains_key(p) && levels.contains_key(b));
}

/// Filling the first maker of the best level keeps the side and the table in shape.
pub proof fn lemma_fill_first_keeps_wf(
    levels: Map<u64, Seq<u32>>,
    orders: Map<u32, Order>,
    side: Side,
    p: u64,
)
    requires
        orders_wf(orders),
        side_wf(levels, orders, side),
        levels.contains_key(p),
    ensures
        orders_wf(orders.remove(levels[p][0])),
        side_wf(pop_front(levels, p), orders.remove(levels[p][0]), side),
        pop_front(levels, p).dom().subset_of(levels.dom()),
{
    let m = levels[p][0];
    let o2 = orders.remove(m);
    let l2 = pop_front(levels, p);
    assert(resting_at(orders, levels[p][0], side, p));
    assert forall|q: u64, i: int| l2.contains_key(q) && 0 <= i < l2[q].len() implies resting_at(
        o2,
        #[trigger] l2[q][i],
        side,
        q,
    ) by {
        if q == p {
            assert(l2[q][i] == levels[p][i + 1]);
            assert(resting_at(orders, levels[p][i + 1], side, p));
            assert(levels[p][i + 1] != levels[p][0]);
        } else {
            assert(l2[q] == levels[q]);
            assert(resting_at(orders, levels[q][i], side, q));
        }
    }
    assert forall|q: u64| #[trigger] l2.contains_key(q) implies l2[q].len() > 0
        && l2[q].no_duplicates() by {
        if q == p {
            assert(levels[p].no_duplicates());
        }
    }
}

/// What matching leaves behind, from a state in shape: the state is in shape
/// and stopped; only the taker's quantity has changed; the trades made are the
/// taker's and add up to what it lost; the side and the table only shrank, and
/// the orders of the taker's own side are untouched.
pub proof fn lemma_match_from(s: MatchState)
    requires
        match_ready(s),
    ensures
        ({
            let r = match_from(s);
            &&& match_ready(r)
            &&& stopped(r)
            &&& r.taker == with_quantity(s.taker, r.taker.order.quantity)
            &&& r.taker.order.quantity <= s.taker.order.quantity
            &&& s.trades.len() <= r.trades.len()
            &&& r.trades.subrange(0, s.trades.len() as int) == s.trades
            &&& traded_quantity(r.trades) == traded_quantity(s.trades) + s.taker.order.quantity
                - r.taker.order.quantity
            &&& forall|i: int| s.trades.len() <= i < r.trades.len() ==> trade_by(#[trigger] r.trades[i], s.taker)
            &&& forall|i: int| s.trades.len() <= i < r.trades.len() ==> s.orders.contains_key(#[trigger] r.trades[i].maker)
            &&& r.trades.len() == s.trades.len() ==> r == s
            &&& r.levels.dom().subset_of(s.levels.dom())
            &&& r.orders.dom().subset_of(s.orders.dom())
            &&& forall|k: u32|
                #[trigger] s.orders.contains_key(k) && s.orders[k].order.side != opposite(s.taker.order.side)
                    ==> r.orders.contains_key(k) && r.orders[k] == s.orders[k]
        }),
    decreases s.orders.dom().len(),
{
    let r = match_from(s);
    let side = opposite(s.taker.order.side);
    if s.taker.order.quantity == 0 || s.levels.dom().is_empty() {
        assert(s.trades.subrange(0, s.trades.len() as int) =~= s.trades);
    } else {
        lemma_best_price(s.levels, s.taker.order.side);
        let p = best_price(s.levels, s.taker.order.side);
        let m = s.levels[p][0];
        assert(resting_at(s.orders, s.levels[p][0], side, p));
        let maker = s.orders[m];
        if !crosses(s.taker.order, maker.order.price.price) {
            assert(s.trades.subrange(0, s.trades.len() as int) =~= s.trades);
        } else if maker.order.quantity > s.taker.order.quantity {
            let t = trade_of(m, maker, s.taker, s.taker.order.quantity);
            assert(r.trades.drop_last() =~= s.trades);
            assert(r.trades.subrange(0, s.trades.len() as int) =~= s.trades);
            assert(trade_by(t, s.taker)) by {
                match s.taker.order.side {
                    Side::Bid => {}
                    Side::Ask => {}
                }
            }
            assert(orders_wf(r.orders));
            assert forall|q: u64, i: int|
                r.levels.contains_key(q) && 0 <= i < r.levels[q].len() implies resting_at(
                r.orders,
                #[trigger] r.levels[q][i],
                side,
                q,
            ) by {
                assert(resting_at(s.orders, s.levels[q][i], side, q));
            }
            assert(r.orders.dom() =~= s.orders.dom());
        } else {
            let t = trade_of(m, maker, s.taker, maker.order.quantity);
            let next = MatchState {
                levels: pop_front(s.levels, p),
                orders: s.orders.remove(m),
                taker: with_quantity(s.taker, (s.taker.order.quantity - maker.order.quantity) as u32),
                trades: s.trades.push(t),
            };
            lemma_fill_first_keeps_wf(s.levels, s.orders, side, p);
            assert(match_ready(next));
            lemma_match_from(next);
            assert(next.trades.drop_last() =~= s.trades);
            assert(trade_by(t, s.taker)) by {
                match s.taker.order.side {
                    Side::Bid => {}
                    Side::Ask => {}
                }
            }
            assert(r.trades.subrange(0, next.trades.len() as int) == next.trades);
            assert(r.trades.subrange(0, s.trades.len() as int) =~= next.trades.subrange(0, s.trades.len() as int));
            assert forall|i: int| s.trades.len() <= i < r.trades.len() implies trade_by(#[trigger] r.trades[i], s.taker) by {
                if i == s.trades.len() {
                    assert(r.trades[i] == r.trades.subrange(0, next.trades.len() as int)[i]);
                } else {
                    assert(trade_by(r.trades[i], next.taker));
                }
            }
            assert forall|i: int| s.trades.len() <= i < r.trades.len() implies s.orders.contains_key(#[trigger] r.trades[i].maker) by {
                if i == s.trades.len() {
                    assert(r.trades[i] == r.trades.subrange(0, next.trades.len() as int)[i]);
                } else {
                    assert(next.orders.contains_key(r.trades[i].maker));
                }
            }
        }
    }
}


/// The levels an order of `side` trades against.
pub open spec fn opposite_levels(b: BookView, side: Side) -> Map<u64, Seq<u32>> {
    match side {
        Side::Bid => b.asks,
        Side::Ask => b.bids,
    }
}

/// The levels an order of `side` rests in.
pub open spec fn own_levels(b: BookView, side: Side) -> Map<u64, Seq<u32>> {
    match side {
        Side::Bid => b.bids,
        Side::Ask => b.asks,
    }
}

/// The book with the levels of `side` replaced.
pub open spec fn with_levels(b: BookView, side: Side, levels: Map<u64, Seq<u32>>) -> BookView {
    match side {
        Side::Bid => BookView { bids: levels, ..b },
        Side::Ask => BookView { asks: levels, ..b },
    }
}

/// Matching `taker` against the book, before anything is traded.
pub open spec fn start_match(b: BookView, taker: Order) -> MatchState {
    MatchState {
        levels: opposite_levels(b, taker.order.side),
        orders: b.orders,
        taker,
        trades: Seq::empty(),
    }
}

/// The outcome of matching `taker` against the book.
pub open spec fn matched(b: BookView, taker: Order) -> MatchState {
    match_from(start_match(b, taker))
}

/// The book once `taker` has been matched against it.
pub open spec fn after_match(b: BookView, taker: Order) -> BookView {
    let m = matched(b, taker);
    BookView { orders: m.orders, ..with_levels(b, opposite(taker.order.side), m.levels) }
}

/// A side with `id` queued last at price `p`; a missing level is opened.
pub open spec fn append_at(levels: Map<u64, Seq<u32>>, p: u64, id: u32) -> Map<u64, Seq<u32>> {
    if levels.contains_key(p) {
        levels.insert(p, levels[p].push(id))
    } else {
        levels.insert(p, seq![id])
    }
}

/// The book with `o` resting: filed under its id and queued last at its price.
pub open spec fn rest(b: BookView, o: Order) -> BookView {
    let side = o.order.side;
    BookView {
        orders: b.orders.insert(o.id, o),
        ..with_levels(b, side, append_at(own_levels(b, side), o.order.price.price, o.id))
    }
}

/// The book after `o` is submitted: it is matched, and what is left of a limit
/// order rests; what is left of a market order is dropped.
pub open spec fn submit_outcome(b: BookView, o: Order) -> BookView {
    let m = matched(b, o);
    if o.order.order_type == Type::Limit && m.taker.order.quantity > 0 {
        rest(after_match(b, o), m.taker)
    } else {
        after_match(b, o)
    }
}

/// How a sequence of trades is reported: `None` when there are none.
pub open spec fn reported(r: Option<Vec<Trade>>, trades: Seq<Trade>) -> bool {
    match r {
        Some(v) => trades.len() > 0 && v@ == trades,
        None => trades.len() == 0,
    }
}

/// Cancelling `id` can be carried out: the order is unknown, or the level at its
/// side and price exists and the id is its only entry, is absent from it, or is
/// its last entry.
pub open spec fn cancel_allowed(b: BookView, id: u32) -> bool {
    b.orders.contains_key(id) ==> {
        let o = b.orders[id];
        let levels = own_levels(b, o.order.side);
        let p = o.order.price.price;
        &&& levels.contains_key(p)
        &&& (levels[p].len() == 1 || !levels[p].contains(id) || levels[p].last() == id)
    }
}

/// The book after cancelling the known order `id`. A level holding a single entry
/// goes away and the table is left as it is; otherwise `id` leaves the level and
/// the table.
pub open spec fn cancel_outcome(b: BookView, id: u32) -> BookView {
    let o = b.orders[id];
    let side = o.order.side;
    let levels = own_levels(b, side);
    let p = o.order.price.price;
    let q = levels[p];
    if q.len() == 1 {
        with_levels(b, side, levels.remove(p))
    } else {
        let q2 = if q.last() == id {
            q.drop_last()
        } else {
            q
        };
        BookView { orders: b.orders.remove(id), ..with_levels(b, side, levels.insert(p, q2)) }
    }
}

/// A side stays in shape under another table that keeps every order of that side.
pub proof fn lemma_side_wf_transfer(
    levels: Map<u64, Seq<u32>>,
    o1: Map<u32, Order>,
    o2: Map<u32, Order>,
    side: Side,
)
    requires
        side_wf(levels, o1, side),
        forall|k: u32|
            #[trigger] o1.contains_key(k) && o1[k].order.side == side ==> o2.contains_key(k)
                && o2[k] == o1[k],
    ensures
        side_wf(levels, o2, side),
{
    assert forall|p: u64, i: int| levels.contains_key(p) && 0 <= i < levels[p].len() implies resting_at(
        o2,
        #[trigger] levels[p][i],
        side,
        p,
    ) by {
        assert(resting_at(o1, levels[p][i], side, p));
    }
}

/// The book after matching is in shape, and its table only shrank.
pub proof fn lemma_after_match(b: BookView, taker: Order)
    requires
        b.wf(),
    ensures
        after_match(b, taker).wf(),
        after_match(b, taker).orders.dom().subset_of(b.orders.dom()),
        own_levels(after_match(b, taker), taker.order.side) == own_levels(b, taker.order.side),
        opposite_levels(after_match(b, taker), taker.order.side).dom().subset_of(
            opposite_levels(b, taker.order.side).dom(),
        ),
        matched(b, taker).taker == with_quantity(taker, matched(b, taker).taker.order.quantity),
{
    let s = start_match(b, taker);
    assert(match_ready(s)) by {
        match taker.order.side {
            Side::Bid => {}
            Side::Ask => {}
        }
    }
    lemma_match_from(s);
    let r = matched(b, taker);
    let own = taker.order.side;
    lemma_side_wf_transfer(own_levels(b, own), b.orders, r.orders, own);
    match own {
        Side::Bid => {}
        Side::Ask => {}
    }
}

/// Submitting an order with an unused id keeps the book in shape.
pub proof fn lemma_submit_wf(b: BookView, o: Order)
    requires
        b.wf(),
        !b.orders.contains_key(o.id),
    ensures
        submit_outcome(b, o).wf(),
{
    lemma_after_match(b, o);
    let a = after_match(b, o);
    let m = matched(b, o);
    if o.order.order_type == Type::Limit && m.taker.order.quantity > 0 {
        let t = m.taker;
        let side = o.order.side;
        let p = t.order.price.price;
        let r = rest(a, t);
        assert(!a.orders.contains_key(t.id));
        lemma_side_wf_transfer(opposite_levels(a, side), a.orders, r.orders, opposite(side));
        let own = own_levels(a, side);
        let own2 = append_at(own, p, t.id);
        assert(side_wf(own, a.orders, side)) by {
            match side {
                Side::Bid => {}
                Side::Ask => {}
            }
        }
        assert forall|q: u64, i: int| own2.contains_key(q) && 0 <= i < own2[q].len() implies resting_at(
            r.orders,
            #[trigger] own2[q][i],
            side,
            q,
        ) by {
            if q == p && i == own2[q].len() - 1 {
            } else {
                assert(own.contains_key(q) && own2[q][i] == own[q][i]);
                assert(resting_at(a.orders, own[q][i], side, q));
            }
        }
        assert forall|q: u64| #[trigger] own2.contains_key(q) implies own2[q].len() > 0
            && own2[q].no_duplicates() by {
            if q == p && own.contains_key(p) {
                assert forall|i: int| 0 <= i < own[p].len() implies own[p][i] != t.id by {
                    assert(resting_at(a.orders, own[p][i], side, p));
                }
                assert(own2[q] == own[p].push(t.id));
            }
        }
        assert(side_wf(own2, r.orders, side));
        match side {
            Side::Bid => {}
            Side::Ask => {}
        }
    }
}

/// Cancelling, where it can be carried out, keeps the book in shape.
pub proof fn lemma_cancel_wf(b: BookView, id: u32)
    requires
        b.wf(),
        b.orders.contains_key(id),
        cancel_allowed(b, id),
    ensures
        cancel_outcome(b, id).wf(),
{
    let o = b.orders[id];
    let side = o.order.side;
    let levels = own_levels(b, side);
    let p = o.order.price.price;
    let q = levels[p];
    let c = cancel_outcome(b, id);
    assert(side_wf(levels, b.orders, side)) by {
        match side {
            Side::Bid => {}
            Side::Ask => {}
        }
    }
    if q.len() == 1 {
        let l2 = levels.remove(p);
        assert forall|r: u64, i: int| l2.contains_key(r) && 0 <= i < l2[r].len() implies resting_at(
            b.orders,
            #[trigger] l2[r][i],
            side,
            r,
        ) by {
            assert(resting_at(b.orders, levels[r][i], side, r));
        }
        match side {
            Side::Bid => {}
            Side::Ask => {}
        }
    } else {
        let q2 = if q.last() == id {
            q.drop_last()
        } else {
            q
        };
        let l2 = levels.insert(p, q2);
        let o2 = b.orders.remove(id);
        assert forall|r: u64, i: int| l2.contains_key(r) && 0 <= i < l2[r].len() implies resting_at(
            o2,
            #[trigger] l2[r][i],
            side,
            r,
        ) by {
            if r == p {
                assert(l2[r][i] == q[i]);
                assert(resting_at(b.orders, q[i], side, p));
                if q[i] == id {
                    if q.last() == id {
                        assert(q.no_duplicates());
                        assert(q[q.len() - 1] == id);
                    } else {
                        assert(q.contains(q[i]));
                    }
                }
            } else {
                assert(resting_at(b.orders, levels[r][i], side, r));
            }
        }
        assert forall|r: u64| #[trigger] l2.contains_key(r) implies l2[r].len() > 0
            && l2[r].no_duplicates() by {
            if r == p {
                assert(q.no_duplicates());
            }
        }
        assert(side_wf(l2, o2, side));
        let other = opposite_levels(b, side);
        assert(side_wf(other, b.orders, opposite(side))) by {
            match side {
                Side::Bid => {}
                Side::Ask => {}
            }
        }
        lemma_side_wf_transfer(other, b.orders, o2, opposite(side));
        match side {
            Side::Bid => {}
            Side::Ask => {}
        }
    }
}


/// The quantity left of the known orders queued in `q`; unknown ids count nothing.
pub open spec fn level_total(q: Seq<u32>, orders: Map<u32, Order>) -> int
    decreases q.len(),
{
    if q.len() == 0 {
        0
    } else {
        level_total(q.drop_last(), orders) + if orders.contains_key(q.last()) {
            orders[q.last()].order.quantity as int
        } else {
            0
        }
    }
}

/// How many prices of the side lie below `p`.
pub open spec fn lower_count(levels: Map<u64, Seq<u32>>, p: u64) -> nat {
    levels.dom().filter(|q: u64| q < p).len()
}

/// The depth a snapshot is asked for: the given one, or else the number of
/// levels of the larger side.
pub open spec fn depth_bound(depth: Option<usize>, bids_len: nat, asks_len: nat) -> int {
    match depth {
        Some(d) => d as int,
        None => if bids_len >= asks_len {
            bids_len as int
        } else {
            asks_len as int
        },
    }
}

/// How many levels of a side of `len` levels a snapshot of depth `d` shows:
/// one more than `d`, at most all of them.
pub open spec fn shown_levels(len: nat, d: int) -> nat {
    if d < len {
        (d + 1) as nat
    } else {
        len
    }
}

/// The totals of the `count` lowest levels fit in a `u32`.
pub open spec fn totals_fit(levels: Map<u64, Seq<u32>>, orders: Map<u32, Order>, count: nat) -> bool {
    forall|p: u64|
        #[trigger] levels.contains_key(p) && lower_count(levels, p) < count ==> level_total(
            levels[p],
            orders,
        ) <= u32::MAX
}

/// A level's total is never negative.
pub proof fn lemma_level_total_nonneg(q: Seq<u32>, orders: Map<u32, Order>)
    ensures
        0 <= level_total(q, orders),
    decreases q.len(),
{
    if q.len() > 0 {
        lemma_level_total_nonneg(q.drop_last(), orders);
    }
}

/// The prefix sums of a level never exceed its total, and grow by one entry at a time.
pub proof fn lemma_level_total_prefix(q: Seq<u32>, orders: Map<u32, Order>, i: int)
    requires
        0 <= i <= q.len(),
    ensures
        0 <= level_total(q.take(i), orders) <= level_total(q, orders),
        i < q.len() ==> level_total(q.take(i + 1), orders) == level_total(q.take(i), orders) + if orders.contains_key(q[i]) {
            orders[q[i]].order.quantity as int
        } else {
            0
        },
    decreases q.len(),
{
    lemma_level_total_nonneg(q.take(i), orders);
    if i < q.len() {
        assert(q.take(i + 1).drop_last() =~= q.take(i));
    }
    if i == q.len() {
        assert(q.take(i) =~= q);
    } else {
        lemma_level_total_prefix(q.drop_last(), orders, i);
        assert(q.drop_last().take(i) =~= q.take(i));
    }
}

/// In a strictly increasing listing of all prices of a side, the price at
/// position `i` has exactly `i` prices below it.
pub proof fn lemma_lower_count_sorted(levels: Map<u64, Seq<u32>>, ks: Seq<u64>, i: int)
    requires
        ks.to_set() == levels.dom(),
        forall|a: int, b: int| 0 <= a < b < ks.len() ==> ks[a] < ks[b],
        0 <= i < ks.len(),
    ensures
        lower_count(levels, ks[i]) == i,
{
    let below = levels.dom().filter(|q: u64| q < ks[i]);
    let pre = ks.take(i);
    assert forall|x: u64| below.contains(x) <==> pre.to_set().contains(x) by {
        if below.contains(x) {
            assert(ks.to_set().contains(x));
            let j = choose|j: int| 0 <= j < ks.len() && ks[j] == x;
            if j >= i {
                if j > i {
                    assert(ks[i] < ks[j]);
                }
            }
            assert(pre[j] == x);
            assert(pre.contains(x));
        }
        if pre.to_set().contains(x) {
            let j = choose|j: int| 0 <= j < pre.len() && pre[j] == x;
            assert(ks[j] == x);
            assert(ks.to_set().contains(ks[j]));
        }
    }
    assert(below =~= pre.to_set());
    assert(pre.no_duplicates()) by {
        assert forall|a: int, b: int| 0 <= a < pre.len() && 0 <= b < pre.len() && a != b implies pre[a] != pre[b] by {
            if a < b {
                assert(ks[a] < ks[b]);
            } else {
                assert(ks[b] < ks[a]);
            }
        }
    }
    pre.unique_seq_to_set();
}

} // verus!
