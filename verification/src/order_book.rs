//! In-memory limit order book with price-time priority.
//!
//! Each side is a ladder of price levels, best price first; within a level the
//! orders queue oldest first. An index maps each resting order id to its side
//! and price.
//!
//! The ladders are sorted vectors rather than `BTreeMap`s: Verus has no
//! specification of `BTreeMap::get_mut`, `entry`, `first_key_value`,
//! `last_key_value` or reverse iteration, which a map-based ladder needs, and
//! refuses calls to them.
use std::collections::HashMap;
use vstd::prelude::*;

use crate::model::{Order, OrderStatus, Side, Trade};

mod laws;
mod lemmas;
pub use laws::{
    lemma_add_keeps_first_in_line, lemma_best_prices_are_extreme, lemma_cancel_removes,
    lemma_cancel_undoes_add, lemma_depth_in_priority_order, lemma_depth_levels,
    lemma_quantity_sum_adds, lemma_matching_uncrosses, lemma_trade_ids_consecutive,
    lemma_trade_terms,
};
pub use lemmas::{lemma_add_step, lemma_found_order, lemma_match_step, lemma_matched, lemma_unique_ids};
use lemmas::{
    lemma_book_add, lemma_book_remove, lemma_index_contains, lemma_indexed_position,
    lemma_book_match, lemma_match_run_fuel, lemma_quantity_prefix, lemma_total_prefix, lemma_slot_of_level, lemma_slot_unique,
};
pub mod spec;

pub use spec::{
    after_fill, depth_of, depth_of_level, index_after_match, index_consistent, partially_filled, ladder_holds, levels_total, levels_wf,
    location_of, match_run, min_u64, quantity_sum, ranks_before, slot, view_levels,
    with_order_added, without_order_at, BookView, DepthLevel, LevelView, OrderBookError,
    OrderLocation, PriceLevel,
};

verus! {

broadcast use vstd::std_specs::hash::group_hash_axioms;

#[derive(Debug)]
pub struct OrderBook {
    bids: Vec<PriceLevel>,
    asks: Vec<PriceLevel>,
    order_index: HashMap<u64, OrderLocation>,
}

/// Whether `p` ranks before `q` on `side`.
fn ranks_before_exec(side: Side, p: i64, q: i64) -> (result: bool)
    ensures
        result == ranks_before(side, p, q),
{
    match side {
        Side::Buy => p > q,
        Side::Sell => p < q,
    }
}

/// Where a level for `price` is, or would go, in the ladder.
fn find_slot(levels: &Vec<PriceLevel>, side: Side, price: i64) -> (idx: usize)
    ensures
        idx == slot(view_levels(levels@), side, price),
        idx <= levels@.len(),
{
    let ghost ls = view_levels(levels@);
    let mut i: usize = 0;
    while i < levels.len() && ranks_before_exec(side, levels[i].price, price)
        invariant
            i <= levels@.len(),
            ls == view_levels(levels@),
            forall|j: int| 0 <= j < i ==> ranks_before(side, #[trigger] ls[j].price, price),
        decreases levels@.len() - i,
    {
        i = i + 1;
    }
    proof {
        lemma_slot_unique(ls, side, price, i as int);
    }
    i
}

/// Queue `order` at the back of its price level, opening the level if needed.
fn insert_order(levels: &mut Vec<PriceLevel>, side: Side, order: Order)
    ensures
        view_levels(final(levels)@) == with_order_added(view_levels(old(levels)@), side, order),
{
    let ghost ls = view_levels(levels@);
    let ghost o = order;
    let i = find_slot(levels, side, order.price);
    if i < levels.len() && levels[i].price == order.price {
        levels[i].orders.push(order);
        proof {
            assert(view_levels(levels@) =~= ls.update(
                i as int,
                LevelView { price: ls[i as int].price, orders: ls[i as int].orders.push(o) },
            ));
        }
    } else {
        let price = order.price;
        let mut orders: Vec<Order> = Vec::new();
        orders.push(order);
        levels.insert(i, PriceLevel { price, orders });
        proof {
            assert(view_levels(levels@) =~= ls.insert(
                i as int,
                LevelView { price: o.price, orders: seq![o] },
            ));
        }
    }
}

/// The level and queue position of the order with `id` in the level at `price`, if any.
fn locate(levels: &Vec<PriceLevel>, side: Side, price: i64, id: u64) -> (result: Option<
    (usize, usize),
>)
    requires
        levels_wf(view_levels(levels@), side),
    ensures
        match result {
            Some((i, k)) => {
                &&& i < levels@.len()
                &&& k < levels@[i as int].orders@.len()
                &&& levels@[i as int].orders@[k as int].id == id
            },
            None => forall|i: int, k: int|
                0 <= i < levels@.len() && 0 <= k < levels@[i].orders@.len() && levels@[i].price
                    == price ==> (#[trigger] levels@[i].orders@[k]).id != id,
        },
{
    let ghost ls = view_levels(levels@);
    let i = find_slot(levels, side, price);
    if i < levels.len() && levels[i].price == price {
        let mut k: usize = 0;
        while k < levels[i].orders.len() && levels[i].orders[k].id != id
            invariant
                i < levels@.len(),
                k <= levels@[i as int].orders@.len(),
                forall|j: int| 0 <= j < k ==> (#[trigger] levels@[i as int].orders@[j]).id != id,
            decreases levels@[i as int].orders@.len() - k,
        {
            k = k + 1;
        }
        if k < levels[i].orders.len() {
            return Some((i, k));
        }
        proof {
            assert forall|a: int, c: int|
                0 <= a < levels@.len() && 0 <= c < levels@[a].orders@.len() && levels@[a].price
                    == price implies (#[trigger] levels@[a].orders@[c]).id != id by {
                lemma_slot_of_level(ls, side, a);
            }
        }
        None
    } else {
        proof {
            assert forall|a: int, c: int|
                0 <= a < levels@.len() && 0 <= c < levels@[a].orders@.len() && levels@[a].price
                    == price implies (#[trigger] levels@[a].orders@[c]).id != id by {
                lemma_slot_of_level(ls, side, a);
            }
        }
        None
    }
}

/// Take the order at level `i`, queue position `k` out of the ladder,
/// dropping the level if it empties.
fn take_order(levels: &mut Vec<PriceLevel>, i: usize, k: usize) -> (order: Order)
    requires
        i < old(levels)@.len(),
        k < old(levels)@[i as int].orders@.len(),
    ensures
        order == old(levels)@[i as int].orders@[k as int],
        view_levels(final(levels)@) == without_order_at(
            view_levels(old(levels)@),
            i as int,
            k as int,
        ),
{
    let ghost ls = view_levels(levels@);
    let order = levels[i].orders.remove(k);
    if levels[i].orders.len() == 0 {
        levels.remove(i);
        proof {
            assert(view_levels(levels@) =~= ls.remove(i as int));
        }
    } else {
        proof {
            assert(view_levels(levels@) =~= ls.update(
                i as int,
                LevelView { price: ls[i as int].price, orders: ls[i as int].orders.remove(k as int) },
            ));
        }
    }
    order
}

/// Trade `q` units of the first order of the ladder; returns its id when it is
/// fully filled and has therefore left the ladder.
fn fill_front(levels: &mut Vec<PriceLevel>, q: u64) -> (filled: Option<u64>)
    requires
        old(levels)@.len() > 0,
        old(levels)@[0].orders@.len() > 0,
        q <= old(levels)@[0].orders@[0].quantity,
    ensures
        view_levels(final(levels)@) == after_fill(view_levels(old(levels)@), q),
        filled == if old(levels)@[0].orders@[0].quantity == q {
            Some(old(levels)@[0].orders@[0].id)
        } else {
            None::<u64>
        },
{
    let ghost ls = view_levels(levels@);
    let remaining = levels[0].orders[0].quantity - q;
    if remaining == 0 {
        let order = take_order(levels, 0, 0);
        Some(order.id)
    } else {
        levels[0].orders[0].quantity = remaining;
        levels[0].orders[0].status = OrderStatus::PartiallyFilled;
        proof {
            let o = ls[0].orders[0];
            assert(levels@.len() == ls.len());
            assert(levels@[0].price == ls[0].price);
            assert(levels@[0].orders@.len() == ls[0].orders.len());
            assert(levels@[0].orders@[0] == partially_filled(o, q));
            assert(levels@[0].orders@ =~= ls[0].orders.update(0, partially_filled(o, q)));
            assert(view_levels(levels@) =~= ls.update(
                0,
                LevelView { price: ls[0].price, orders: ls[0].orders.update(0, partially_filled(o, q)) },
            ));
        }
        None
    }
}

/// Total quantity of a queue.
fn queue_quantity(orders: &Vec<Order>) -> (total: u64)
    requires
        quantity_sum(orders@) <= u64::MAX,
    ensures
        total == quantity_sum(orders@),
{
    let mut total: u64 = 0;
    let mut j: usize = 0;
    while j < orders.len()
        invariant
            j <= orders@.len(),
            quantity_sum(orders@) <= u64::MAX,
            total == quantity_sum(orders@.take(j as int)),
        decreases orders@.len() - j,
    {
        proof {
            lemma_quantity_prefix(orders@, j as int);
            lemma_quantity_prefix(orders@, j as int + 1);
        }
        total = total + orders[j].quantity;
        j = j + 1;
    }
    proof {
        assert(orders@.take(j as int) =~= orders@);
    }
    total
}

/// Aggregates of the first `n` levels of a ladder.
fn ladder_depth(levels: &Vec<PriceLevel>, n: usize) -> (depth: Vec<DepthLevel>)
    requires
        forall|i: int|
            0 <= i < n && i < levels@.len() ==> quantity_sum(#[trigger] levels@[i].orders@)
                <= u64::MAX,
    ensures
        depth@ == depth_of(view_levels(levels@), n as nat),
{
    let ghost ls = view_levels(levels@);
    let mut depth: Vec<DepthLevel> = Vec::new();
    let mut i: usize = 0;
    while i < n && i < levels.len()
        invariant
            i <= levels@.len(),
            i <= n,
            ls == view_levels(levels@),
            forall|j: int|
                0 <= j < n && j < levels@.len() ==> quantity_sum(#[trigger] levels@[j].orders@)
                    <= u64::MAX,
            depth@.len() == i,
            forall|j: int| 0 <= j < i ==> #[trigger] depth@[j] == depth_of_level(ls[j]),
        decreases levels@.len() - i,
    {
        let level = &levels[i];
        let total_quantity = queue_quantity(&level.orders);
        depth.push(
            DepthLevel { price: level.price, total_quantity, order_count: level.orders.len() },
        );
        i = i + 1;
    }
    proof {
        assert(depth@ =~= depth_of(ls, n as nat));
    }
    depth
}

/// Number of orders in a ladder.
fn ladder_order_count(levels: &Vec<PriceLevel>, bound: Ghost<nat>) -> (count: usize)
    requires
        levels_total(view_levels(levels@)) <= bound@,
        bound@ <= usize::MAX,
    ensures
        count == levels_total(view_levels(levels@)),
{
    let ghost ls = view_levels(levels@);
    let mut count: usize = 0;
    let mut i: usize = 0;
    while i < levels.len()
        invariant
            i <= levels@.len(),
            ls == view_levels(levels@),
            levels_total(ls) <= bound@,
            bound@ <= usize::MAX,
            count == levels_total(ls.take(i as int)),
        decreases levels@.len() - i,
    {
        proof {
            lemma_total_prefix(ls, i as int);
            lemma_total_prefix(ls, i as int + 1);
        }
        count = count + levels[i].orders.len();
        i = i + 1;
    }
    proof {
        assert(ls.take(i as int) =~= ls);
    }
    count
}

impl View for OrderBook {
    type V = BookView;

    closed spec fn view(&self) -> BookView {
        BookView { bids: view_levels(self.bids@), asks: view_levels(self.asks@) }
    }
}

impl OrderBook {
    /// The representation invariant.
    pub closed spec fn wf(&self) -> bool {
        &&& self@.wf()
        &&& index_consistent(self@, self.order_index@)
    }

    /// A valid book is consistent: it is well formed and no id occurs twice in it.
    pub proof fn lemma_wf_consistent(&self)
        requires
            self.wf(),
        ensures
            self@.consistent(),
    {
        assert(index_consistent(self@, self.order_index@));
    }

    pub fn new() -> (book: Self)
        ensures
            book.wf(),
            book@.bids.len() == 0,
            book@.asks.len() == 0,
    {
        let book = OrderBook { bids: Vec::new(), asks: Vec::new(), order_index: HashMap::new() };
        assert(book@.bids =~= Seq::<LevelView>::empty());
        assert(book@.asks =~= Seq::<LevelView>::empty());
        assert(book.order_index@ =~= Map::<u64, OrderLocation>::empty());
        book
    }

    /// Rests `order` in the book, unless an order with its id already rests there.
    pub fn add_order(&mut self, order: Order) -> (result: Result<(), OrderBookError>)
        requires
            old(self).wf(),
        ensures
            final(self).wf(),
            match result {
                Ok(()) => !old(self)@.contains_id(order.id) && final(self)@ == old(self)@.add(order),
                Err(e) => {
                    &&& e == OrderBookError::DuplicateOrderId(order.id)
                    &&& old(self)@.contains_id(order.id)
                    &&& final(self)@ == old(self)@
                },
            },
    {
        if self.order_index.contains_key(&order.id) {
            return Err(OrderBookError::DuplicateOrderId(order.id));
        }
        let ghost v = self@;
        let ghost idx = self.order_index@;
        proof {
            lemma_book_add(v, idx, order);
        }
        let location = OrderLocation { side: order.side, price: order.price };
        self.order_index.insert(order.id, location);
        match order.side {
            Side::Buy => insert_order(&mut self.bids, Side::Buy, order),
            Side::Sell => insert_order(&mut self.asks, Side::Sell, order),
        }
        proof {
            assert(self@ =~= v.add(order));
        }
        Ok(())
    }

    /// Takes the order with this id out of the book.
    pub fn cancel_order(&mut self, order_id: u64) -> (result: Result<Order, OrderBookError>)
        requires
            old(self).wf(),
        ensures
            final(self).wf(),
            match result {
                Ok(order) => {
                    &&& old(self)@.contains_id(order_id)
                    &&& order == old(self)@.order_with_id(order_id)
                    &&& final(self)@ == old(self)@.remove(order_id)
                },
                Err(e) => {
                    &&& e == OrderBookError::OrderNotFound(order_id)
                    &&& !old(self)@.contains_id(order_id)
                    &&& final(self)@ == old(self)@
                },
            },
    {
        let ghost v = self@;
        let ghost idx = self.order_index@;
        proof {
            lemma_index_contains(v, idx, order_id);
        }
        let location = match self.order_index.get(&order_id) {
            Some(location) => *location,
            None => return Err(OrderBookError::OrderNotFound(order_id)),
        };
        proof {
            lemma_indexed_position(v, idx, order_id);
        }
        let found = match location.side {
            Side::Buy => locate(&self.bids, Side::Buy, location.price, order_id),
            Side::Sell => locate(&self.asks, Side::Sell, location.price, order_id),
        };
        let (i, k) = match found {
            Some(position) => position,
            None => {
                proof {
                    let (a, c) = choose|a: int, c: int|
                        v.valid_pos(location.side, a, c) && #[trigger] v.order_at(
                            location.side,
                            a,
                            c,
                        ).id == order_id && v.side(location.side)[a].price == location.price;
                    match location.side {
                        Side::Buy => assert(self.bids@[a].orders@[c].id == order_id),
                        Side::Sell => assert(self.asks@[a].orders@[c].id == order_id),
                    }
                }
                return Err(OrderBookError::OrderNotFound(order_id));
            },
        };
        proof {
            match location.side {
                Side::Buy => assert(v.valid_pos(location.side, i as int, k as int)),
                Side::Sell => assert(v.valid_pos(location.side, i as int, k as int)),
            }
            lemma_book_remove(v, idx, location.side, i as int, k as int);
        }
        self.order_index.remove(&order_id);
        let order = match location.side {
            Side::Buy => take_order(&mut self.bids, i, k),
            Side::Sell => take_order(&mut self.asks, i, k),
        };
        proof {
            match location.side {
                Side::Buy => assert(self@ =~= v.remove(order_id)),
                Side::Sell => assert(self@ =~= v.remove(order_id)),
            }
        }
        Ok(order)
    }

    pub fn contains_order(&self, order_id: u64) -> (result: bool)
        requires
            self.wf(),
        ensures
            result == self@.contains_id(order_id),
    {
        proof {
            lemma_index_contains(self@, self.order_index@, order_id);
        }
        self.order_index.contains_key(&order_id)
    }

    /// Number of resting orders.
    pub fn order_count(&self) -> (result: usize)
        requires
            self.wf(),
        ensures
            result == self@.total(),
    {
        self.order_index.len()
    }

    /// The resting order with this id, if any.
    pub fn get_order(&self, order_id: u64) -> (result: Option<&Order>)
        requires
            self.wf(),
        ensures
            match result {
                Some(order) => self@.contains_id(order_id) && *order == self@.order_with_id(order_id),
                None => !self@.contains_id(order_id),
            },
    {
        let ghost v = self@;
        let ghost idx = self.order_index@;
        proof {
            lemma_index_contains(v, idx, order_id);
        }
        let location = match self.order_index.get(&order_id) {
            Some(location) => *location,
            None => return None,
        };
        proof {
            lemma_indexed_position(v, idx, order_id);
        }
        let found = match location.side {
            Side::Buy => locate(&self.bids, Side::Buy, location.price, order_id),
            Side::Sell => locate(&self.asks, Side::Sell, location.price, order_id),
        };
        match found {
            Some((i, k)) => {
                proof {
                    match location.side {
                        Side::Buy => assert(v.valid_pos(location.side, i as int, k as int)),
                        Side::Sell => assert(v.valid_pos(location.side, i as int, k as int)),
                    }
                    lemma_book_remove(v, idx, location.side, i as int, k as int);
                }
                match location.side {
                    Side::Buy => Some(&self.bids[i].orders[k]),
                    Side::Sell => Some(&self.asks[i].orders[k]),
                }
            },
            None => {
                proof {
                    let (a, c) = choose|a: int, c: int|
                        v.valid_pos(location.side, a, c) && #[trigger] v.order_at(
                            location.side,
                            a,
                            c,
                        ).id == order_id && v.side(location.side)[a].price == location.price;
                    match location.side {
                        Side::Buy => assert(self.bids@[a].orders@[c].id == order_id),
                        Side::Sell => assert(self.asks@[a].orders@[c].id == order_id),
                    }
                }
                None
            },
        }
    }

    /// Trades the first bid against the first ask when the book is crossed.
    pub fn match_best_orders(&mut self, trade_id: u64, timestamp: u64) -> (result: Option<Trade>)
        requires
            old(self).wf(),
        ensures
            final(self).wf(),
            if old(self)@.crossed() {
                &&& result == Some(old(self)@.next_trade(trade_id, timestamp))
                &&& final(self)@ == old(self)@.after_match()
            } else {
                &&& result is None
                &&& final(self)@ == old(self)@
            },
    {
        let ghost v = self@;
        let ghost idx = self.order_index@;
        let bid_price = match self.best_bid() {
            Some(price) => price,
            None => return None,
        };
        let ask_price = match self.best_ask() {
            Some(price) => price,
            None => return None,
        };
        if bid_price < ask_price {
            return None;
        }
        proof {
            lemma_book_match(v, idx);
        }
        let buy_quantity = self.bids[0].orders[0].quantity;
        let sell_quantity = self.asks[0].orders[0].quantity;
        let traded_quantity = if buy_quantity <= sell_quantity {
            buy_quantity
        } else {
            sell_quantity
        };
        let trade = Trade {
            trade_id,
            buy_order_id: self.bids[0].orders[0].id,
            sell_order_id: self.asks[0].orders[0].id,
            symbol: self.bids[0].orders[0].symbol.clone(),
            price: ask_price,
            quantity: traded_quantity,
            timestamp,
        };
        let filled_buy = fill_front(&mut self.bids, traded_quantity);
        let filled_sell = fill_front(&mut self.asks, traded_quantity);
        if let Some(order_id) = filled_buy {
            self.order_index.remove(&order_id);
        }
        if let Some(order_id) = filled_sell {
            self.order_index.remove(&order_id);
        }
        proof {
            assert(self@ =~= v.after_match());
            assert(self.order_index@ =~= index_after_match(v, idx));
        }
        Some(trade)
    }

    /// Matches repeatedly until the book no longer crosses; the trades take
    /// consecutive ids from `start_trade_id`.
    pub fn match_orders(&mut self, start_trade_id: u64, timestamp: u64) -> (trades: Vec<Trade>)
        requires
            old(self).wf(),
            start_trade_id + old(self)@.matched(start_trade_id, timestamp).0.len() <= u64::MAX,
        ensures
            final(self).wf(),
            trades@ == old(self)@.matched(start_trade_id, timestamp).0,
            final(self)@ == old(self)@.matched(start_trade_id, timestamp).1,
    {
        let ghost b0 = self@;
        let ghost all = b0.matched(start_trade_id, timestamp);
        let mut trades: Vec<Trade> = Vec::new();
        let mut next_trade_id = start_trade_id;
        loop
            invariant
                self.wf(),
                all == b0.matched(start_trade_id, timestamp),
                start_trade_id + all.0.len() <= u64::MAX,
                next_trade_id == start_trade_id + trades@.len(),
                all.0 == trades@ + self@.matched(next_trade_id, timestamp).0,
                all.1 == self@.matched(next_trade_id, timestamp).1,
            ensures
                self.wf(),
                trades@ == all.0,
                self@ == all.1,
            decreases self@.total(),
        {
            let ghost b = self@;
            let ghost idx = self.order_index@;
            proof {
                lemma_match_run_fuel(b, idx, next_trade_id, timestamp, b.total(), b.total());
            }
            match self.match_best_orders(next_trade_id, timestamp) {
                Some(trade) => {
                    proof {
                        lemma_book_match(b, idx);
                        let after = b.after_match();
                        let nidx = index_after_match(b, idx);
                        lemma_match_run_fuel(
                            after,
                            nidx,
                            (next_trade_id + 1) as u64,
                            timestamp,
                            (b.total() - 1) as nat,
                            after.total(),
                        );
                        let rest = match_run(after, (next_trade_id + 1) as u64, timestamp, after.total());
                        assert(b.matched(next_trade_id, timestamp).0 =~= seq![trade] + rest.0);
                        assert(all.0 =~= trades@.push(trade) + rest.0);
                    }
                    trades.push(trade);
                    next_trade_id = next_trade_id + 1;
                },
                None => {
                    proof {
                        assert(all.0 =~= trades@);
                    }
                    break ;
                },
            }
        }
        trades
    }

    /// Best ask minus best bid, when both sides have orders.
    pub fn spread(&self) -> (result: Option<i64>)
        requires
            self@.bids.len() > 0 && self@.asks.len() > 0 ==> i64::MIN <= self@.asks[0].price
                - self@.bids[0].price <= i64::MAX,
        ensures
            result == match (self@.best_bid(), self@.best_ask()) {
                (Some(bid), Some(ask)) => Some((ask - bid) as i64),
                _ => None::<i64>,
            },
    {
        match (self.best_bid(), self.best_ask()) {
            (Some(bid), Some(ask)) => Some(ask - bid),
            _ => None,
        }
    }

    /// Aggregates of the `levels` best bid levels, highest price first.
    pub fn bid_depth(&self, levels: usize) -> (depth: Vec<DepthLevel>)
        requires
            forall|i: int|
                0 <= i < levels && i < self@.bids.len() ==> quantity_sum(
                    #[trigger] self@.bids[i].orders,
                ) <= u64::MAX,
        ensures
            depth@ == depth_of(self@.bids, levels as nat),
    {
        proof {
            assert forall|i: int| 0 <= i < levels && i < self.bids@.len() implies quantity_sum(
                #[trigger] self.bids@[i].orders@,
            ) <= u64::MAX by {
                assert(self@.bids[i].orders == self.bids@[i].orders@);
                assert(quantity_sum(self@.bids[i].orders) <= u64::MAX);
            }
        }
        ladder_depth(&self.bids, levels)
    }

    /// Aggregates of the `levels` best ask levels, lowest price first.
    pub fn ask_depth(&self, levels: usize) -> (depth: Vec<DepthLevel>)
        requires
            forall|i: int|
                0 <= i < levels && i < self@.asks.len() ==> quantity_sum(
                    #[trigger] self@.asks[i].orders,
                ) <= u64::MAX,
        ensures
            depth@ == depth_of(self@.asks, levels as nat),
    {
        proof {
            assert forall|i: int| 0 <= i < levels && i < self.asks@.len() implies quantity_sum(
                #[trigger] self.asks@[i].orders@,
            ) <= u64::MAX by {
                assert(self@.asks[i].orders == self.asks@[i].orders@);
                assert(quantity_sum(self@.asks[i].orders) <= u64::MAX);
            }
        }
        ladder_depth(&self.asks, levels)
    }

    /// Number of resting buy orders.
    pub fn bid_order_count(&self) -> (count: usize)
        requires
            self.wf(),
        ensures
            count == levels_total(self@.bids),
    {
        proof {
            assert(self.order_index.len() as int == self.order_index@.len());
        }
        ladder_order_count(&self.bids, Ghost(self@.total()))
    }

    /// Number of resting sell orders.
    pub fn ask_order_count(&self) -> (count: usize)
        requires
            self.wf(),
        ensures
            count == levels_total(self@.asks),
    {
        proof {
            assert(self.order_index.len() as int == self.order_index@.len());
        }
        ladder_order_count(&self.asks, Ghost(self@.total()))
    }

    /// The oldest order at the best bid price.
    pub fn best_bid_order(&self) -> (result: Option<&Order>)
        requires
            self.wf(),
        ensures
            match result {
                Some(order) => self@.bids.len() > 0 && *order == self@.bids[0].orders[0],
                None => self@.bids.len() == 0,
            },
    {
        if self.bids.len() == 0 {
            return None;
        }
        proof {
            assert(self@.bids[0].orders.len() > 0);
        }
        Some(&self.bids[0].orders[0])
    }

    /// The oldest order at the best ask price.
    pub fn best_ask_order(&self) -> (result: Option<&Order>)
        requires
            self.wf(),
        ensures
            match result {
                Some(order) => self@.asks.len() > 0 && *order == self@.asks[0].orders[0],
                None => self@.asks.len() == 0,
            },
    {
        if self.asks.len() == 0 {
            return None;
        }
        proof {
            assert(self@.asks[0].orders.len() > 0);
        }
        Some(&self.asks[0].orders[0])
    }

    pub fn best_bid(&self) -> (result: Option<i64>)
        ensures
            result == self@.best_bid(),
    {
        if self.bids.len() > 0 {
            Some(self.bids[0].price)
        } else {
            None
        }
    }

    pub fn best_ask(&self) -> (result: Option<i64>)
        ensures
            result == self@.best_ask(),
    {
        if self.asks.len() > 0 {
            Some(self.asks[0].price)
        } else {
            None
        }
    }
}

} // verus!
