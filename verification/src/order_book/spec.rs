//! The mathematical model of the order book: ladders of price levels, the
//! operations on them, and matching.
use vstd::prelude::*;

use crate::model::{Order, OrderStatus, Side, Trade};

verus! {

/// Aggregated view of one price level.
#[derive(Debug, Clone, Copy, PartialEq, Eq, Structural)]
pub struct DepthLevel {
    pub price: i64,
    pub total_quantity: u64,
    pub order_count: usize,
}

/// Where a resting order sits: its side and its price level.
#[derive(Debug, Clone, Copy, PartialEq, Eq, Structural)]
pub struct OrderLocation {
    pub side: Side,
    pub price: i64,
}

#[derive(Debug, Clone, Copy, PartialEq, Eq, Structural)]
pub enum OrderBookError {
    OrderNotFound(u64),
    DuplicateOrderId(u64),
}

/// All resting orders at one price, oldest first.
#[derive(Debug)]
pub struct PriceLevel {
    pub price: i64,
    pub orders: Vec<Order>,
}

/// Mathematical model of a price level.
pub struct LevelView {
    pub price: i64,
    pub orders: Seq<Order>,
}

impl View for PriceLevel {
    type V = LevelView;

    open spec fn view(&self) -> LevelView {
        LevelView { price: self.price, orders: self.orders@ }
    }
}

/// Mathematical model of the book: both ladders, best level first.
pub struct BookView {
    pub bids: Seq<LevelView>,
    pub asks: Seq<LevelView>,
}

/// The model of a ladder of levels.
pub open spec fn view_levels(levels: Seq<PriceLevel>) -> Seq<LevelView> {
    levels.map_values(|l: PriceLevel| l@)
}

/// Whether price `p` has priority over price `q` on the given side:
/// higher bids and lower asks come first.
pub open spec fn ranks_before(side: Side, p: i64, q: i64) -> bool {
    match side {
        Side::Buy => p > q,
        Side::Sell => p < q,
    }
}

/// A well-formed ladder: strictly ordered by priority, no empty level, every
/// order on its level's price and side, and no id twice within a level.
pub open spec fn levels_wf(ls: Seq<LevelView>, side: Side) -> bool {
    &&& forall|i: int, j: int|
        0 <= i < j < ls.len() ==> ranks_before(side, #[trigger] ls[i].price, #[trigger] ls[j].price)
    &&& forall|i: int| 0 <= i < ls.len() ==> #[trigger] ls[i].orders.len() > 0
    &&& forall|i: int, k: int|
        0 <= i < ls.len() && 0 <= k < ls[i].orders.len() ==> {
            &&& (#[trigger] ls[i].orders[k]).price == ls[i].price
            &&& ls[i].orders[k].side == side
        }
    &&& forall|i: int, k1: int, k2: int|
        0 <= i < ls.len() && 0 <= k1 < ls[i].orders.len() && 0 <= k2 < ls[i].orders.len()
            && k1 != k2 ==> (#[trigger] ls[i].orders[k1]).id != (#[trigger] ls[i].orders[k2]).id
}

/// Whether this very order rests somewhere in the ladder.
pub open spec fn ladder_holds(ls: Seq<LevelView>, o: Order) -> bool {
    exists|i: int, k: int|
        0 <= i < ls.len() && 0 <= k < ls[i].orders.len() && #[trigger] ls[i].orders[k] == o
}

/// Number of leading levels that rank before `price`: the index at which a
/// level for `price` is found or would be inserted.
pub open spec fn slot(ls: Seq<LevelView>, side: Side, price: i64) -> nat
    decreases ls.len(),
{
    if ls.len() == 0 {
        0
    } else if ranks_before(side, ls[0].price, price) {
        1 + slot(ls.drop_first(), side, price)
    } else {
        0
    }
}

/// The ladder after `o` joins the back of the queue at its price,
/// opening a new level where none exists.
pub open spec fn with_order_added(ls: Seq<LevelView>, side: Side, o: Order) -> Seq<LevelView> {
    let i = slot(ls, side, o.price) as int;
    if i < ls.len() && ls[i].price == o.price {
        ls.update(i, LevelView { price: ls[i].price, orders: ls[i].orders.push(o) })
    } else {
        ls.insert(i, LevelView { price: o.price, orders: seq![o] })
    }
}

/// The ladder after the order at level `i`, queue position `k` leaves;
/// a level left empty is dropped.
pub open spec fn without_order_at(ls: Seq<LevelView>, i: int, k: int) -> Seq<LevelView> {
    if ls[i].orders.len() == 1 {
        ls.remove(i)
    } else {
        ls.update(i, LevelView { price: ls[i].price, orders: ls[i].orders.remove(k) })
    }
}

/// An order after `q` of its units traded while some remain.
pub open spec fn partially_filled(o: Order, q: u64) -> Order {
    Order { quantity: (o.quantity - q) as u64, status: OrderStatus::PartiallyFilled, ..o }
}

/// The ladder after `q` units of its first order have traded: the order
/// leaves when nothing remains, else it stays partially filled.
pub open spec fn after_fill(ls: Seq<LevelView>, q: u64) -> Seq<LevelView> {
    let o = ls[0].orders[0];
    if o.quantity == q {
        without_order_at(ls, 0, 0)
    } else {
        ls.update(
            0,
            LevelView {
                price: ls[0].price,
                orders: ls[0].orders.update(0, partially_filled(o, q)),
            },
        )
    }
}

/// Number of orders resting in a ladder.
pub open spec fn levels_total(ls: Seq<LevelView>) -> nat
    decreases ls.len(),
{
    if ls.len() == 0 {
        0
    } else {
        levels_total(ls.drop_last()) + ls.last().orders.len()
    }
}

/// Sum of the quantities of a queue.
pub open spec fn quantity_sum(orders: Seq<Order>) -> int
    decreases orders.len(),
{
    if orders.len() == 0 {
        0
    } else {
        quantity_sum(orders.drop_last()) + orders.last().quantity
    }
}

/// The aggregate of one level.
pub open spec fn depth_of_level(l: LevelView) -> DepthLevel {
    DepthLevel {
        price: l.price,
        total_quantity: quantity_sum(l.orders) as u64,
        order_count: l.orders.len() as usize,
    }
}

/// The aggregates of the first `n` levels of a ladder, best first.
pub open spec fn depth_of(ls: Seq<LevelView>, n: nat) -> Seq<DepthLevel> {
    let m = if n < ls.len() { n } else { ls.len() };
    Seq::new(m, |i: int| depth_of_level(ls[i]))
}

pub open spec fn min_u64(a: u64, b: u64) -> u64 {
    if a <= b { a } else { b }
}

impl BookView {
    pub open spec fn side(self, side: Side) -> Seq<LevelView> {
        match side {
            Side::Buy => self.bids,
            Side::Sell => self.asks,
        }
    }

    pub open spec fn with_side(self, side: Side, ls: Seq<LevelView>) -> BookView {
        match side {
            Side::Buy => BookView { bids: ls, asks: self.asks },
            Side::Sell => BookView { bids: self.bids, asks: ls },
        }
    }

    pub open spec fn valid_pos(self, side: Side, i: int, k: int) -> bool {
        0 <= i < self.side(side).len() && 0 <= k < self.side(side)[i].orders.len()
    }

    pub open spec fn order_at(self, side: Side, i: int, k: int) -> Order {
        self.side(side)[i].orders[k]
    }

    /// Whether this very order rests in the book.
    pub open spec fn holds(self, o: Order) -> bool {
        ladder_holds(self.bids, o) || ladder_holds(self.asks, o)
    }

    /// Whether an order with this id rests in the book.
    pub open spec fn contains_id(self, id: u64) -> bool {
        exists|o: Order| #[trigger] self.holds(o) && o.id == id
    }

    /// Whether the order at (side, i, k) carries this id.
    pub open spec fn holds_at(self, id: u64, side: Side, i: int, k: int) -> bool {
        self.valid_pos(side, i, k) && self.order_at(side, i, k).id == id
    }

    /// The position of the order with this id (meaningful when it is present).
    pub open spec fn position_of(self, id: u64) -> (Side, int, int) {
        choose|p: (Side, int, int)| self.holds_at(id, p.0, p.1, p.2)
    }

    /// The resting order with this id (meaningful when it is present).
    pub open spec fn order_with_id(self, id: u64) -> Order {
        let p = self.position_of(id);
        self.order_at(p.0, p.1, p.2)
    }

    pub open spec fn wf(self) -> bool {
        &&& levels_wf(self.bids, Side::Buy)
        &&& levels_wf(self.asks, Side::Sell)
    }

    /// A well-formed book that some id index describes; in such a book no id
    /// occurs twice.
    pub open spec fn consistent(self) -> bool {
        &&& self.wf()
        &&& exists|idx: Map<u64, OrderLocation>| #[trigger] index_consistent(self, idx)
    }

    /// Number of resting orders.
    pub open spec fn total(self) -> nat {
        levels_total(self.bids) + levels_total(self.asks)
    }

    pub open spec fn best_bid(self) -> Option<i64> {
        if self.bids.len() > 0 { Some(self.bids[0].price) } else { None }
    }

    pub open spec fn best_ask(self) -> Option<i64> {
        if self.asks.len() > 0 { Some(self.asks[0].price) } else { None }
    }

    /// The book after adding an order on its own side.
    pub open spec fn add(self, o: Order) -> BookView {
        self.with_side(o.side, with_order_added(self.side(o.side), o.side, o))
    }

    /// The book after the order with this id leaves it.
    pub open spec fn remove(self, id: u64) -> BookView {
        let p = self.position_of(id);
        self.with_side(p.0, without_order_at(self.side(p.0), p.1, p.2))
    }

    /// Whether the best bid meets or exceeds the best ask.
    pub open spec fn crossed(self) -> bool {
        &&& self.bids.len() > 0
        &&& self.asks.len() > 0
        &&& self.bids[0].price >= self.asks[0].price
    }

    /// Quantity that the first orders of both ladders trade.
    pub open spec fn match_quantity(self) -> u64 {
        min_u64(self.bids[0].orders[0].quantity, self.asks[0].orders[0].quantity)
    }

    /// The trade between the first bid and the first ask, at the ask's price.
    pub open spec fn next_trade(self, trade_id: u64, timestamp: u64) -> Trade {
        let buy = self.bids[0].orders[0];
        let sell = self.asks[0].orders[0];
        Trade {
            trade_id,
            buy_order_id: buy.id,
            sell_order_id: sell.id,
            symbol: buy.symbol,
            price: self.asks[0].price,
            quantity: self.match_quantity(),
            timestamp,
        }
    }

    /// The book after the first bid and the first ask trade.
    pub open spec fn after_match(self) -> BookView {
        let q = self.match_quantity();
        BookView { bids: after_fill(self.bids, q), asks: after_fill(self.asks, q) }
    }
}

/// Repeated matching with at most `fuel` trades: the trades, in order, and the book left.
pub open spec fn match_run(b: BookView, trade_id: u64, timestamp: u64, fuel: nat) -> (
    Seq<Trade>,
    BookView,
)
    decreases fuel,
{
    if fuel == 0 || !b.crossed() {
        (Seq::empty(), b)
    } else {
        let rest = match_run(b.after_match(), (trade_id + 1) as u64, timestamp, (fuel - 1) as nat);
        (seq![b.next_trade(trade_id, timestamp)] + rest.0, rest.1)
    }
}

impl BookView {
    /// Matching until the book no longer crosses: every trade, in order, and the book left.
    pub open spec fn matched(self, trade_id: u64, timestamp: u64) -> (Seq<Trade>, BookView) {
        match_run(self, trade_id, timestamp, self.total())
    }
}


/// The index agrees with the book: each resting order is indexed at its own
/// side and price, each indexed id rests in the book, and the sizes agree.
pub open spec fn index_consistent(v: BookView, idx: Map<u64, OrderLocation>) -> bool {
    &&& forall|o: Order| #[trigger]
        v.holds(o) ==> idx.contains_key(o.id) && idx[o.id] == location_of(o)
    &&& forall|id: u64| #[trigger] idx.contains_key(id) ==> v.contains_id(id)
    &&& idx.dom().finite()
    &&& idx.len() == v.total()
}

/// The index after matching: the ids of fully filled first orders leave it.
pub open spec fn index_after_match(v: BookView, idx: Map<u64, OrderLocation>) -> Map<
    u64,
    OrderLocation,
> {
    let q = v.match_quantity();
    let buy = v.bids[0].orders[0];
    let sell = v.asks[0].orders[0];
    let after_buy = if buy.quantity == q { idx.remove(buy.id) } else { idx };
    if sell.quantity == q { after_buy.remove(sell.id) } else { after_buy }
}

/// Where an order rests, as recorded by the index.
pub open spec fn location_of(o: Order) -> OrderLocation {
    OrderLocation { side: o.side, price: o.price }
}

} // verus!
