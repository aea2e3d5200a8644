//! The order book: resting limit orders queued per price level, and matching.
use vstd::prelude::*;
use std::collections::{BTreeMap, HashMap, VecDeque};
use crate::book_model::{
    level_total, lower_count, depth_bound, shown_levels, totals_fit, lemma_level_total_prefix,
    lemma_lower_count_sorted, best_price, BookView, MatchState, levels_view, resting_at,
    opposite, is_best, crosses, trade_of, with_quantity, pop_front, match_from, match_ready,
    lemma_best_unique, lemma_fill_first_keeps_wf, lemma_match_from, submit_outcome, matched,
    reported, start_match, after_match, rest, append_at, cancel_allowed, cancel_outcome,
    lemma_submit_wf, lemma_cancel_wf, lemma_after_match,
};
use crate::errors::OrderBookErrors;
use crate::laws::{
    consistent, law_cancel_keeps_uncrossed, law_submit_keeps_consistent, law_submit_keeps_uncrossed,
};
use crate::order::{Order, OrderReq, Price, Side, Type};

verus! {

/// One execution between a resting order (the maker) and an incoming one (the taker).
#[derive(Clone, Copy, Debug)]
pub struct Trade {
    pub maker_client_id: u32,
    pub maker: u32,
    pub taker_client_id: u32,
    pub taker: u32,
    pub price: Price,
    pub quantity: u32,
}

/// One price level of a snapshot: its price and the quantity left at it.
#[derive(Clone, Copy, Debug)]
pub struct Level {
    pub price: Price,
    pub total_quantity: u32,
}

/// The levels of both sides, each listed from the lowest price up.
#[derive(Clone, Debug)]
pub struct Snapshot {
    pub bids: Vec<Level>,
    pub asks: Vec<Level>,
}

/// `out` lists the `count` lowest levels of a side from the lowest price up:
/// entry `i` is the price with exactly `i` prices below it, with its total.
pub open spec fn lists_levels(
    out: Seq<Level>,
    levels: Map<u64, Seq<u32>>,
    orders: Map<u32, Order>,
    count: nat,
) -> bool {
    &&& out.len() == count
    &&& forall|i: int|
        0 <= i < out.len() ==> {
            let p = #[trigger] out[i].price.price;
            &&& levels.contains_key(p)
            &&& lower_count(levels, p) == i
            &&& out[i].total_quantity == level_total(levels[p], orders)
        }
}

/// The book: for each side, the queue of order ids at each price, oldest first;
/// and the orders it knows, by id. Prices are the fixed-point units of `Price`.
#[derive(Debug)]
pub struct OrderBook {
    pub bids: BTreeMap<u64, VecDeque<u32>>,
    pub asks: BTreeMap<u64, VecDeque<u32>>,
    pub orders: HashMap<u32, Order>,
}

impl View for OrderBook {
    type V = BookView;

    open spec fn view(&self) -> BookView {
        BookView {
            bids: levels_view(self.bids@),
            asks: levels_view(self.asks@),
            orders: self.orders@,
        }
    }
}

/// The least key of a price side: the first key the map yields, as keys come
/// in increasing order.
fn lowest_price(levels: &BTreeMap<u64, VecDeque<u32>>) -> (r: Option<u64>)
    ensures
        match r {
            None => levels@.dom().is_empty(),
            Some(p) => levels@.contains_key(p) && forall|q: u64| #[trigger]
                levels@.contains_key(q) ==> p <= q,
        },
{
    let ghost all = vstd::std_specs::iter::IteratorSpec::remaining(
        &vstd::std_specs::btree::spec_keys_iter(levels),
    );
    let mut first: Option<u64> = None;
    for k in it: levels.keys()
        invariant_except_break
            first is None,
            it.index() == 0,
        invariant
            it.seq() == all,
        ensures
            match first {
                Some(p) => all.len() > 0 && p == *all[0],
                None => all.len() == 0,
            },
    {
        assert(*k == *it.seq()[it.index()]);
        first = Some(*k);
        break;
    }
    proof {
        assert(vstd::std_specs::btree::increasing_seq(all));
        assert(levels@.dom() =~= all.unref().to_set());
    }
    match first {
        Some(p) => {
            proof {
                assert(all.unref()[0] == *all[0]);
                assert(all.unref().contains(all.unref()[0]));
                assert(all.unref().to_set().contains(*all[0]));
                assert forall|q: u64| #[trigger] levels@.contains_key(q) implies p <= q by {
                    assert(all.unref().to_set().contains(q));
                    let j = choose|j: int| 0 <= j < all.unref().len() && all.unref()[j] == q;
                    if j > 0 {
                        assert(vstd::std_specs::cmp::OrdSpec::cmp_spec(&all[0], &all[j]) is Less);
                    }
                }
            }
            Some(p)
        },
        None => None,
    }
}

/// The greatest key of a price side.
///
/// Calls `BTreeMap::last_key_value`, which hands back the entry with the
/// greatest key, or `None` when the map is empty.
#[verifier::external_body]
fn highest_price(levels: &BTreeMap<u64, VecDeque<u32>>) -> (r: Option<u64>)
    ensures
        match r {
            None => levels@.dom().is_empty(),
            Some(p) => levels@.contains_key(p) && forall|q: u64| #[trigger]
                levels@.contains_key(q) ==> q <= p,
        },
{
    match levels.last_key_value() {
        Some((p, _)) => Some(*p),
        None => None,
    }
}

proof fn lemma_levels_view_insert(m: Map<u64, VecDeque<u32>>, p: u64, q: VecDeque<u32>)
    ensures
        levels_view(m.insert(p, q)) == levels_view(m).insert(p, q@),
{
    assert(levels_view(m.insert(p, q)) =~= levels_view(m).insert(p, q@));
}

proof fn lemma_levels_view_remove(m: Map<u64, VecDeque<u32>>, p: u64)
    ensures
        levels_view(m.remove(p)) == levels_view(m).remove(p),
{
    assert(levels_view(m.remove(p)) =~= levels_view(m).remove(p));
}

/// The matching state made of the given parts.
pub open spec fn state_of(
    levels: Map<u64, VecDeque<u32>>,
    orders: Map<u32, Order>,
    taker: Order,
    trades: Seq<Trade>,
) -> MatchState {
    MatchState { levels: levels_view(levels), orders, taker, trades }
}

/// The best price of a non-empty side for a taker of `taker_side`.
fn best_level(levels: &BTreeMap<u64, VecDeque<u32>>, taker_side: Side) -> (p: u64)
    requires
        !levels@.dom().is_empty(),
    ensures
        is_best(levels_view(levels@), taker_side, p),
{
    let r = match taker_side {
        Side::Bid => lowest_price(levels),
        Side::Ask => highest_price(levels),
    };
    match r {
        Some(p) => p,
        None => {
            assert(false);
            0
        },
    }
}

/// Whether `taker` may trade with a maker whose limit is `maker_price`.
fn crosses_at(taker: &OrderReq, maker_price: u64) -> (b: bool)
    ensures
        b == crosses(*taker, maker_price),
{
    match taker.order_type {
        Type::Market => true,
        Type::Limit => match taker.side {
            Side::Bid => maker_price <= taker.price.price,
            Side::Ask => maker_price >= taker.price.price,
        },
    }
}

/// The trade of `quantity` between the maker filed under `maker_id` and the taker.
fn make_trade(maker_id: u32, maker: &Order, taker: &Order, quantity: u32) -> (t: Trade)
    ensures
        t == trade_of(maker_id, *maker, *taker, quantity),
{
    let mp = maker.order.price.price;
    let tp = taker.order.price.price;
    Trade {
        maker_client_id: maker.order.client_id,
        maker: maker_id,
        taker_client_id: taker.order.client_id,
        taker: taker.id,
        price: Price { price: if mp <= tp { mp } else { tp } },
        quantity,
    }
}

/// Matches `taker` against `levels`, the side it trades with, by price-time
/// priority, updating the side, the table and the taker; returns the trades.
fn match_against(
    levels: &mut BTreeMap<u64, VecDeque<u32>>,
    orders: &mut HashMap<u32, Order>,
    taker: &mut Order,
) -> (trades: Vec<Trade>)
    requires
        match_ready(state_of(old(levels)@, old(orders)@, *old(taker), Seq::empty())),
    ensures
        state_of(final(levels)@, final(orders)@, *final(taker), trades@) == match_from(
            state_of(old(levels)@, old(orders)@, *old(taker), Seq::empty()),
        ),
{
    let ghost target = match_from(state_of(levels@, orders@, *taker, Seq::empty()));
    let mut trades: Vec<Trade> = Vec::new();
    loop
        invariant
            match_ready(state_of(levels@, orders@, *taker, trades@)),
            match_from(state_of(levels@, orders@, *taker, trades@)) == target,
        ensures
            state_of(levels@, orders@, *taker, trades@) == target,
        decreases orders@.dom().len(),
    {
        let ghost cur = state_of(levels@, orders@, *taker, trades@);
        if taker.order.quantity == 0 || levels.is_empty() {
            break;
        }
        let p = best_level(levels, taker.order.side);
        proof {
            lemma_best_unique(cur.levels, taker.order.side, p);
        }
        let maker_id: u32 = levels.get(&p).unwrap()[0];
        assert(resting_at(orders@, cur.levels[p][0], opposite(taker.order.side), p));
        let maker: Order = *orders.get(&maker_id).unwrap();
        if !crosses_at(&taker.order, maker.order.price.price) {
            break;
        }
        if maker.order.quantity > taker.order.quantity {
            let t = make_trade(maker_id, &maker, taker, taker.order.quantity);
            trades.push(t);
            let left: u32 = maker.order.quantity - taker.order.quantity;
            let reduced = Order { id: maker.id, order: OrderReq { quantity: left, ..maker.order } };
            orders.insert(maker_id, reduced);
            taker.order.quantity = 0;
            proof {
                let next = state_of(levels@, orders@, *taker, trades@);
                assert(next.orders == cur.orders.insert(
                    maker_id,
                    with_quantity(maker, (maker.order.quantity - cur.taker.order.quantity) as u32),
                ));
                assert(next == match_from(cur));
                lemma_match_from(cur);
            }
            break;
        } else {
            let t = make_trade(maker_id, &maker, taker, maker.order.quantity);
            trades.push(t);
            taker.order.quantity = taker.order.quantity - maker.order.quantity;
            let ghost before = levels@;
            let mut level = levels.remove(&p).unwrap();
            level.pop_front();
            if level.len() > 0 {
                levels.insert(p, level);
                proof {
                    lemma_levels_view_remove(before, p);
                    lemma_levels_view_insert(before.remove(p), p, level);
                    assert(levels_view(before.remove(p)).insert(p, level@) =~= pop_front(
                        cur.levels,
                        p,
                    ));
                }
            } else {
                proof {
                    lemma_levels_view_remove(before, p);
                }
            }
            orders.remove(&maker_id);
            proof {
                let next = state_of(levels@, orders@, *taker, trades@);
                assert(levels_view(levels@) == pop_front(cur.levels, p));
                lemma_fill_first_keeps_wf(cur.levels, cur.orders, opposite(cur.taker.order.side), p);
                assert(next.taker == with_quantity(
                    cur.taker,
                    (cur.taker.order.quantity - maker.order.quantity) as u32,
                ));
                assert(next == MatchState {
                    levels: pop_front(cur.levels, p),
                    orders: cur.orders.remove(maker_id),
                    taker: with_quantity(
                        cur.taker,
                        (cur.taker.order.quantity - maker.order.quantity) as u32,
                    ),
                    trades: cur.trades.push(trade_of(maker_id, maker, cur.taker, maker.order.quantity)),
                });
            }
        }
    }
    trades
}


/// Puts `id` last in the queue at price `p`, opening the level if need be.
fn queue_at(levels: &mut BTreeMap<u64, VecDeque<u32>>, p: u64, id: u32)
    ensures
        levels_view(final(levels)@) == append_at(levels_view(old(levels)@), p, id),
{
    let ghost before = levels@;
    if levels.contains_key(&p) {
        let mut q = levels.remove(&p).unwrap();
        q.push_back(id);
        levels.insert(p, q);
        proof {
            lemma_levels_view_remove(before, p);
            lemma_levels_view_insert(before.remove(p), p, q);
            assert(levels_view(before.remove(p)).insert(p, q@) =~= append_at(
                levels_view(before),
                p,
                id,
            ));
        }
    } else {
        let mut q: VecDeque<u32> = VecDeque::new();
        q.push_back(id);
        levels.insert(p, q);
        proof {
            lemma_levels_view_insert(before, p, q);
            assert(q@ =~= seq![id]);
        }
    }
}

/// The prices of a side, lowest first.
fn sorted_prices(levels: &BTreeMap<u64, VecDeque<u32>>) -> (ks: Vec<u64>)
    ensures
        ks@.to_set() == levels@.dom(),
        ks@.len() == levels@.dom().len(),
        forall|i: int, j: int| 0 <= i < j < ks@.len() ==> ks@[i] < ks@[j],
{
    let mut ks: Vec<u64> = Vec::new();
    for k in it: levels.keys()
        invariant
            ks@.len() == it.index(),
            forall|i: int| 0 <= i < it.index() ==> ks@[i] == *it.seq()[i],
            it.seq() == vstd::std_specs::iter::IteratorSpec::remaining(&vstd::std_specs::btree::spec_keys_iter(levels)),
    {
        ks.push(*k);
    }
    let ghost all = vstd::std_specs::iter::IteratorSpec::remaining(&vstd::std_specs::btree::spec_keys_iter(levels));
    assert(ks@ =~= all.unref());
    assert(vstd::std_specs::btree::increasing_seq(all));
    assert forall|i: int, j: int| 0 <= i < j < ks@.len() implies ks@[i] < ks@[j] by {
        assert(vstd::std_specs::cmp::OrdSpec::cmp_spec(&all[i], &all[j]) is Less);
    }
    ks
}

/// Takes `id` out of the level at `p`. A level of a single entry is removed
/// whole and `true` is returned; otherwise the level is scanned and `id`
/// removed where found, and `false` is returned.
fn unqueue(levels: &mut BTreeMap<u64, VecDeque<u32>>, p: u64, id: u32) -> (whole: bool)
    requires
        levels_view(old(levels)@).contains_key(p),
        ({
            let q = levels_view(old(levels)@)[p];
            q.len() == 1 || !q.contains(id) || q.last() == id
        }),
        levels_view(old(levels)@)[p].no_duplicates(),
        levels_view(old(levels)@)[p].len() > 0,
    ensures
        ({
            let lv = levels_view(old(levels)@);
            let q = lv[p];
            &&& whole == (q.len() == 1)
            &&& whole ==> levels_view(final(levels)@) == lv.remove(p)
            &&& !whole ==> levels_view(final(levels)@) == lv.insert(
                p,
                if q.last() == id {
                    q.drop_last()
                } else {
                    q
                },
            )
        }),
{
    let ghost before = levels@;
    let ghost q0 = levels_view(before)[p];
    let mut level = levels.remove(&p).unwrap();
    proof {
        lemma_levels_view_remove(before, p);
    }
    if level.len() == 1 {
        return true;
    }
    let n = level.len();
    let mut i: usize = 0;
    while i < n
        invariant
            n == q0.len(),
            n > 1,
            q0.no_duplicates(),
            !q0.contains(id) || q0.last() == id,
            0 <= i <= n,
            i < n ==> level@ == q0,
            i == n ==> level@ == (if q0.last() == id {
                q0.drop_last()
            } else {
                q0
            }),
            levels_view(levels@) == levels_view(before).remove(p),
        decreases n - i,
    {
        if level[i] == id {
            assert(i == n - 1) by {
                assert(q0.contains(q0[i as int]));
                assert(q0[n - 1] == id);
            }
            level.remove(i);
            assert(level@ =~= q0.drop_last());
        } else {
            if i == n - 1 {
                assert(!q0.contains(id)) by {
                    if q0.contains(id) {
                        assert(q0.last() == id);
                    }
                }
            }
        }
        i = i + 1;
    }
    levels.insert(p, level);
    proof {
        lemma_levels_view_insert(before.remove(p), p, level);
        assert(levels_view(before.remove(p)).insert(p, level@) =~= levels_view(before).insert(
            p,
            level@,
        ));
    }
    false
}

/// The quantity left of the known orders in queue `q`.
fn queue_total(q: &VecDeque<u32>, orders: &HashMap<u32, Order>) -> (total: u32)
    requires
        level_total(q@, orders@) <= u32::MAX,
    ensures
        total == level_total(q@, orders@),
{
    let mut total: u32 = 0;
    let mut i: usize = 0;
    while i < q.len()
        invariant
            0 <= i <= q@.len(),
            level_total(q@, orders@) <= u32::MAX,
            total == level_total(q@.take(i as int), orders@),
        decreases q@.len() - i,
    {
        proof {
            lemma_level_total_prefix(q@, orders@, i as int);
            lemma_level_total_prefix(q@, orders@, i as int + 1);
        }
        match orders.get(&q[i]) {
            Some(order) => {
                total = total + order.order.quantity;
            },
            None => {},
        }
        i = i + 1;
    }
    proof {
        assert(q@.take(q@.len() as int) =~= q@);
    }
    total
}

/// The lowest levels of a side, from the lowest price up, stopping after the
/// level at position `side_depth`.
fn lowest_levels(
    levels: &BTreeMap<u64, VecDeque<u32>>,
    orders: &HashMap<u32, Order>,
    side_depth: usize,
) -> (out: Vec<Level>)
    requires
        totals_fit(levels_view(levels@), orders@, shown_levels(levels@.dom().len(), side_depth as int)),
    ensures
        lists_levels(
            out@,
            levels_view(levels@),
            orders@,
            shown_levels(levels@.dom().len(), side_depth as int),
        ),
{
    let ghost lv = levels_view(levels@);
    let ghost count = shown_levels(levels@.dom().len(), side_depth as int);
    assert(lv.dom() =~= levels@.dom());
    let ks = sorted_prices(levels);
    let mut out: Vec<Level> = Vec::new();
    let mut i: usize = 0;
    while i < ks.len()
        invariant
            0 <= i <= ks@.len(),
            ks@.len() == levels@.dom().len(),
            ks@.to_set() == levels@.dom(),
            forall|a: int, b: int| 0 <= a < b < ks@.len() ==> ks@[a] < ks@[b],
            i <= side_depth + 1,
            out@.len() == i,
            lv == levels_view(levels@),
            lv.dom() == levels@.dom(),
            count == shown_levels(levels@.dom().len(), side_depth as int),
            totals_fit(lv, orders@, count),
            forall|j: int|
                0 <= j < out@.len() ==> {
                    let p = #[trigger] out@[j].price.price;
                    &&& lv.contains_key(p)
                    &&& lower_count(lv, p) == j
                    &&& out@[j].total_quantity == level_total(lv[p], orders@)
                },
        ensures
            i == ks@.len() || i == side_depth + 1,
        decreases ks@.len() - i,
    {
        if i > side_depth {
            break;
        }
        let price = ks[i];
        proof {
            assert(ks@.to_set().contains(ks@[i as int]));
            lemma_lower_count_sorted(lv, ks@, i as int);
        }
        let q = levels.get(&price).unwrap();
        assert(lv.contains_key(price) && lv[price] == q@);
        let total = queue_total(q, orders);
        out.push(Level { price: Price { price }, total_quantity: total });
        i = i + 1;
    }
    out
}

impl OrderBook {
    /// An empty book.
    pub fn new() -> (b: OrderBook)
        ensures
            b@.bids.is_empty(),
            b@.asks.is_empty(),
            b@.orders.is_empty(),
            b@.wf(),
            b@.uncrossed(),
            consistent(b@),
    {
        let b = OrderBook { bids: BTreeMap::new(), asks: BTreeMap::new(), orders: HashMap::new() };
        assert(b@.bids =~= Map::empty());
        assert(b@.asks =~= Map::empty());
        b
    }

    /// Matches `order` against the other side; the trades, or `None` if there are none.
    fn match_order(&mut self, order: &mut Order) -> (r: Option<Vec<Trade>>)
        requires
            old(self)@.wf(),
        ensures
            final(self)@ == after_match(old(self)@, *old(order)),
            *final(order) == matched(old(self)@, *old(order)).taker,
            reported(r, matched(old(self)@, *old(order)).trades),
    {
        let ghost b = self@;
        proof {
            assert(match_ready(start_match(b, *order))) by {
                match order.order.side {
                    Side::Bid => {},
                    Side::Ask => {},
                }
            }
        }
        let trades = match order.order.side {
            Side::Bid => match_against(&mut self.asks, &mut self.orders, order),
            Side::Ask => match_against(&mut self.bids, &mut self.orders, order),
        };
        if trades.len() > 0 {
            Some(trades)
        } else {
            None
        }
    }

    /// Matches a limit order, then queues what is left of it at its price.
    fn execute_limit(&mut self, order: &mut Order) -> (r: Option<Vec<Trade>>)
        requires
            old(self)@.wf(),
            old(order).order.order_type == Type::Limit,
        ensures
            *final(order) == matched(old(self)@, *old(order)).taker,
            final(self)@ == submit_outcome(old(self)@, *old(order)),
            reported(r, matched(old(self)@, *old(order)).trades),
    {
        let ghost b = self@;
        let ghost o = *order;
        let mut trades = None;
        if (self.asks.len() >= 1 && order.order.side == Side::Bid) || (self.bids.len() >= 1
            && order.order.side == Side::Ask) {
            trades = self.match_order(order);
        } else {
            proof {
                let s = start_match(b, o);
                assert(s.levels.dom() =~= Set::empty());
                assert(match_from(s) == s);
                assert(after_match(b, o) =~= b) by {
                    match o.order.side {
                        Side::Bid => {},
                        Side::Ask => {},
                    }
                }
            }
        }
        proof {
            lemma_after_match(b, o);
        }
        if order.order.quantity == 0 {
            return trades;
        }
        self.orders.insert(order.id, *order);
        match order.order.side {
            Side::Bid => queue_at(&mut self.bids, order.order.price.price, order.id),
            Side::Ask => queue_at(&mut self.asks, order.order.price.price, order.id),
        }
        proof {
            assert(self@ == rest(after_match(b, o), matched(b, o).taker)) by {
                match o.order.side {
                    Side::Bid => {},
                    Side::Ask => {},
                }
            }
        }
        trades
    }

    /// Submits the request under the id `id`: a limit order is matched and what
    /// is left of it rests, filed under `id` (replacing any order the table
    /// held under that id) and queued last at its price; a market order is
    /// matched and what is left of it is dropped. Returns the trades, or `None`
    /// if there are none. The book stays in shape when `id` was not in use.
    pub fn submit_order_with_id(&mut self, id: u32, order_req: &OrderReq) -> (r: Option<Vec<Trade>>)
        requires
            old(self)@.wf(),
        ensures
            !old(self)@.orders.contains_key(id) ==> final(self)@.wf(),
            old(self)@.uncrossed() ==> final(self)@.uncrossed(),
            consistent(old(self)@) && !old(self)@.orders.contains_key(id) ==> consistent(final(self)@),
            final(self)@ == submit_outcome(old(self)@, Order { id, order: *order_req }),
            reported(r, matched(old(self)@, Order { id, order: *order_req }).trades),
    {
        let ghost b = self@;
        let mut order = Order { id, order: *order_req };
        proof {
            if !b.orders.contains_key(id) {
                lemma_submit_wf(b, order);
                if consistent(b) {
                    law_submit_keeps_consistent(b, order);
                }
            }
            if b.uncrossed() {
                law_submit_keeps_uncrossed(b, order);
            }
        }
        match order_req.order_type {
            Type::Limit => self.execute_limit(&mut order),
            Type::Market => self.match_order(&mut order),
        }
    }

    /// Submits a request: the order gets a randomly drawn id, then it is
    /// submitted as `submit_order_with_id` does. Returns the id and the trades.
    pub fn submit_order(&mut self, order_req: &OrderReq) -> (r: (u32, Option<Vec<Trade>>))
        requires
            old(self)@.wf(),
        ensures
            !old(self)@.orders.contains_key(r.0) ==> final(self)@.wf(),
            consistent(old(self)@) && !old(self)@.orders.contains_key(r.0) ==> consistent(final(self)@),
            old(self)@.uncrossed() ==> final(self)@.uncrossed(),
            final(self)@ == submit_outcome(old(self)@, Order { id: r.0, order: *order_req }),
            reported(r.1, matched(old(self)@, Order { id: r.0, order: *order_req }).trades),
    {
        let order = Order::new(*order_req);
        let trades = self.submit_order_with_id(order.id, order_req);
        (order.id, trades)
    }

    /// The levels of both sides, each from the lowest price up: as many as
    /// one more than `depth`, or all of them when no depth is given.
    pub fn snapshot(&self, depth: Option<usize>) -> (snap: Snapshot)
        requires
            ({
                let d = depth_bound(depth, self@.bids.dom().len(), self@.asks.dom().len());
                &&& totals_fit(self@.bids, self@.orders, shown_levels(self@.bids.dom().len(), d))
                &&& totals_fit(self@.asks, self@.orders, shown_levels(self@.asks.dom().len(), d))
            }),
        ensures
            ({
                let d = depth_bound(depth, self@.bids.dom().len(), self@.asks.dom().len());
                &&& lists_levels(
                    snap.bids@,
                    self@.bids,
                    self@.orders,
                    shown_levels(self@.bids.dom().len(), d),
                )
                &&& lists_levels(
                    snap.asks@,
                    self@.asks,
                    self@.orders,
                    shown_levels(self@.asks.dom().len(), d),
                )
            }),
            depth is None ==> snap.bids@.len() == self@.bids.dom().len() && snap.asks@.len()
                == self@.asks.dom().len(),
            depth matches Some(n) ==> snap.bids@.len() == (if n < self@.bids.dom().len() {
                n + 1
            } else {
                self@.bids.dom().len() as int
            }) && snap.asks@.len() == (if n < self@.asks.dom().len() {
                n + 1
            } else {
                self@.asks.dom().len() as int
            }),
    {
        let d = match depth {
            Some(d) => d,
            None => if self.bids.len() >= self.asks.len() {
                self.bids.len()
            } else {
                self.asks.len()
            },
        };
        let bids_depth = if self.bids.len() <= d {
            self.bids.len()
        } else {
            d
        };
        let asks_depth = if self.asks.len() <= d {
            self.asks.len()
        } else {
            d
        };
        proof {
            assert(self@.bids.dom() =~= self.bids@.dom());
            assert(self@.asks.dom() =~= self.asks@.dom());
        }
        let bids = lowest_levels(&self.bids, &self.orders, bids_depth);
        let asks = lowest_levels(&self.asks, &self.orders, asks_depth);
        Snapshot { bids, asks }
    }

    /// Looks an order up by id.
    pub fn get_order(&self, order_id: &u32) -> (r: Result<Order, OrderBookErrors>)
        ensures
            match r {
                Ok(o) => self@.orders.contains_key(*order_id) && o == self@.orders[*order_id],
                Err(e) => !self@.orders.contains_key(*order_id) && e == OrderBookErrors::OrderNotExist,
            },
    {
        match self.orders.get(order_id) {
            Some(order) => Ok(*order),
            None => Err(OrderBookErrors::OrderNotExist),
        }
    }

    /// Cancels an order. An unknown id is answered with `OrderNotExist`. When the
    /// order's level holds a single entry, that level goes away and the order
    /// stays in the table; otherwise the order leaves its level and the table.
    pub fn cancel_order(&mut self, order_id: &u32) -> (r: Result<(), OrderBookErrors>)
        requires
            old(self)@.wf(),
            cancel_allowed(old(self)@, *order_id),
        ensures
            final(self)@.wf(),
            old(self)@.uncrossed() ==> final(self)@.uncrossed(),
            match r {
                Ok(()) => old(self)@.orders.contains_key(*order_id) && final(self)@ == cancel_outcome(
                    old(self)@,
                    *order_id,
                ),
                Err(e) => !old(self)@.orders.contains_key(*order_id) && final(self)@ == old(self)@
                    && e == OrderBookErrors::OrderNotExist,
            },
    {
        let ghost b = self@;
        let id = *order_id;
        match self.orders.get(order_id) {
            Some(order) => {
                let order = *order;
                proof {
                    lemma_cancel_wf(b, id);
                    if b.uncrossed() {
                        law_cancel_keeps_uncrossed(b, id);
                    }
                }
                let p = order.order.price.price;
                match order.order.side {
                    Side::Bid => {
                        if unqueue(&mut self.bids, p, id) {
                            return Ok(());
                        }
                    },
                    Side::Ask => {
                        if unqueue(&mut self.asks, p, id) {
                            return Ok(());
                        }
                    },
                }
                self.orders.remove(order_id);
                proof {
                    assert(self@ =~= cancel_outcome(b, id));
                }
            },
            None => return Err(OrderBookErrors::OrderNotExist),
        };
        return Ok(());
    }

    /// The id queued first at the highest bid price, or 0 when there are no bids.
    pub fn get_best_bid(&self) -> (id: u32)
        requires
            !self@.bids.is_empty() ==> self@.bids[best_price(self@.bids, Side::Ask)].len() > 0,
        ensures
            self@.bids.is_empty() ==> id == 0,
            !self@.bids.is_empty() ==> id == self@.bids[best_price(self@.bids, Side::Ask)][0],
            !self@.bids.is_empty() ==> exists|p: u64|
                #![trigger self@.bids[p]]
                self@.bids.contains_key(p) && self@.bids[p][0] == id && forall|q: u64|
                    #[trigger] self@.bids.contains_key(q) ==> q <= p,
    {
        if self.bids.len() >= 1 {
            let p = best_level(&self.bids, Side::Ask);
            proof {
                lemma_best_unique(self@.bids, Side::Ask, p);
            }
            return self.bids.get(&p).unwrap()[0];
        }
        assert(self@.bids.dom() =~= Set::empty());
        return 0;
    }

    /// The id queued first at the lowest ask price, or 0 when there are no asks.
    pub fn get_best_ask(&self) -> (id: u32)
        requires
            !self@.asks.is_empty() ==> self@.asks[best_price(self@.asks, Side::Bid)].len() > 0,
        ensures
            self@.asks.is_empty() ==> id == 0,
            !self@.asks.is_empty() ==> id == self@.asks[best_price(self@.asks, Side::Bid)][0],
            !self@.asks.is_empty() ==> exists|p: u64|
                #![trigger self@.asks[p]]
                self@.asks.contains_key(p) && self@.asks[p][0] == id && forall|q: u64|
                    #[trigger] self@.asks.contains_key(q) ==> p <= q,
    {
        if self.asks.len() >= 1 {
            let p = best_level(&self.asks, Side::Bid);
            proof {
                lemma_best_unique(self@.asks, Side::Bid, p);
            }
            return self.asks.get(&p).unwrap()[0];
        }
        assert(self@.asks.dom() =~= Set::empty());
        return 0;
    }
}

} // verus!
