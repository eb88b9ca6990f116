//! Properties of the order book as a whole.
use vstd::prelude::*;

use crate::model::{Order, Side};
use crate::order_book::lemmas::{
    lemma_add_step, lemma_book_remove, lemma_quantity_prefix, lemma_found_order, lemma_ladder_add, lemma_match_step,
    lemma_matched, lemma_slot_props, lemma_unique_ids,
};
use crate::order_book::spec::{
    index_consistent, OrderLocation, depth_of, quantity_sum, DepthLevel, match_run, ladder_holds, levels_total, levels_wf, min_u64, ranks_before, slot, with_order_added,
    without_order_at, BookView, LevelView,
};

verus! {

/// Cancelling an order right after adding it gives that order back and
/// leaves the book exactly as it was before the add.
pub proof fn lemma_cancel_undoes_add(v: BookView, o: Order)
    requires
        v.consistent(),
        !v.contains_id(o.id),
    ensures
        v.add(o).contains_id(o.id),
        v.add(o).order_with_id(o.id) == o,
        v.add(o).remove(o.id) == v,
{
    lemma_add_step(v, o);
    let nv = v.add(o);
    lemma_found_order(nv, o);
    lemma_unique_ids(nv);
    let s = o.side;
    let ls = v.side(s);
    let nl = with_order_added(ls, s, o);
    let i = slot(ls, s, o.price) as int;
    lemma_slot_props(ls, s, o.price);
    let k = if i < ls.len() && ls[i].price == o.price {
        ls[i].orders.len() as int
    } else {
        0
    };
    assert(nv.side(s) == nl) by {
        match s {
            Side::Buy => {},
            Side::Sell => {},
        }
    }
    assert(nl[i].orders[k] == o);
    let w = (s, i, k);
    assert(nv.holds_at(o.id, w.0, w.1, w.2));
    let p = nv.position_of(o.id);
    assert(nv.holds_at(o.id, p.0, p.1, p.2));
    assert(nv.order_at(p.0, p.1, p.2).id == nv.order_at(s, i, k).id);
    assert(p == (s, i, k));
    let back = without_order_at(nl, i, k);
    if i < ls.len() && ls[i].price == o.price {
        assert(ls[i].orders.push(o).remove(k) =~= ls[i].orders);
        assert(nl[i].orders.len() > 1);
        assert(back == nl.update(i, LevelView { price: ls[i].price, orders: ls[i].orders }));
        assert(back =~= ls);
    } else {
        assert(back =~= ls);
    }
    match s {
        Side::Buy => assert(nv.remove(o.id) =~= v),
        Side::Sell => assert(nv.remove(o.id) =~= v),
    }
}

/// The best bid is the highest price of any resting buy order, and the best
/// ask the lowest price of any resting sell order.
pub proof fn lemma_best_prices_are_extreme(v: BookView)
    requires
        v.wf(),
    ensures
        forall|i: int, k: int|
            0 <= i < v.bids.len() && 0 <= k < v.bids[i].orders.len() ==> (
            #[trigger] v.bids[i].orders[k]).price <= v.bids[0].price,
        forall|i: int, k: int|
            0 <= i < v.asks.len() && 0 <= k < v.asks[i].orders.len() ==> (
            #[trigger] v.asks[i].orders[k]).price >= v.asks[0].price,
{
    assert forall|i: int, k: int|
        0 <= i < v.bids.len() && 0 <= k < v.bids[i].orders.len() implies (
        #[trigger] v.bids[i].orders[k]).price <= v.bids[0].price by {
        if i > 0 {
            assert(ranks_before(Side::Buy, v.bids[0].price, v.bids[i].price));
        }
    }
    assert forall|i: int, k: int|
        0 <= i < v.asks.len() && 0 <= k < v.asks[i].orders.len() implies (
        #[trigger] v.asks[i].orders[k]).price >= v.asks[0].price by {
        if i > 0 {
            assert(ranks_before(Side::Sell, v.asks[0].price, v.asks[i].price));
        }
    }
}

/// Time priority: an added order that does not improve on the best price of
/// its side never displaces the order first in line on that side.
pub proof fn lemma_add_keeps_first_in_line(v: BookView, o: Order)
    requires
        v.consistent(),
        !v.contains_id(o.id),
        v.side(o.side).len() > 0,
        !ranks_before(o.side, o.price, v.side(o.side)[0].price),
    ensures
        v.add(o).side(o.side).len() > 0,
        v.add(o).side(o.side)[0].orders[0] == v.side(o.side)[0].orders[0],
{
    let s = o.side;
    let ls = v.side(s);
    lemma_slot_props(ls, s, o.price);
    let i = slot(ls, s, o.price) as int;
    let nl = with_order_added(ls, s, o);
    assert(nl[0].orders[0] == ls[0].orders[0]) by {
        if i == 0 && ls[0].price != o.price {
            if ranks_before(s, o.price, ls[0].price) {
            } else {
                match s {
                    Side::Buy => {},
                    Side::Sell => {},
                }
            }
        }
    }
    match s {
        Side::Buy => {},
        Side::Sell => {},
    }
}

/// A trade executes at the best ask, which the best bid meets, for the
/// smaller of the two first orders' quantities.
pub proof fn lemma_trade_terms(v: BookView, trade_id: u64, timestamp: u64)
    requires
        v.wf(),
        v.crossed(),
    ensures
        v.next_trade(trade_id, timestamp).price == v.asks[0].price,
        v.asks[0].price <= v.next_trade(trade_id, timestamp).price <= v.bids[0].price,
        v.next_trade(trade_id, timestamp).quantity == min_u64(
            v.bids[0].orders[0].quantity,
            v.asks[0].orders[0].quantity,
        ),
        v.next_trade(trade_id, timestamp).buy_order_id == v.bids[0].orders[0].id,
        v.next_trade(trade_id, timestamp).sell_order_id == v.asks[0].orders[0].id,
{
}

/// After matching, the book no longer crosses: when both sides have orders,
/// the best bid is below the best ask. Matching makes at most as many trades
/// as there were resting orders.
pub proof fn lemma_matching_uncrosses(v: BookView, trade_id: u64, timestamp: u64)
    requires
        v.consistent(),
    ensures
        v.matched(trade_id, timestamp).1.consistent(),
        v.matched(trade_id, timestamp).0.len() <= v.total(),
        v.matched(trade_id, timestamp).1.bids.len() > 0 && v.matched(trade_id, timestamp).1.asks.len()
            > 0 ==> v.matched(trade_id, timestamp).1.bids[0].price < v.matched(
            trade_id,
            timestamp,
        ).1.asks[0].price,
{
    lemma_matched(v, trade_id, timestamp, v.total());
}

/// The depth of either side lists distinct price levels in priority order:
/// bids from high to low, asks from low to high.
pub proof fn lemma_depth_in_priority_order(v: BookView, n: nat)
    requires
        v.wf(),
    ensures
        forall|i: int, j: int|
            0 <= i < j < depth_of(v.bids, n).len() ==> #[trigger] depth_of(v.bids, n)[i].price
                > #[trigger] depth_of(v.bids, n)[j].price,
        forall|i: int, j: int|
            0 <= i < j < depth_of(v.asks, n).len() ==> #[trigger] depth_of(v.asks, n)[i].price
                < #[trigger] depth_of(v.asks, n)[j].price,
{
    assert forall|i: int, j: int| 0 <= i < j < depth_of(v.bids, n).len() implies #[trigger] depth_of(
        v.bids,
        n,
    )[i].price > #[trigger] depth_of(v.bids, n)[j].price by {
        assert(ranks_before(Side::Buy, v.bids[i].price, v.bids[j].price));
    }
    assert forall|i: int, j: int| 0 <= i < j < depth_of(v.asks, n).len() implies #[trigger] depth_of(
        v.asks,
        n,
    )[i].price < #[trigger] depth_of(v.asks, n)[j].price by {
        assert(ranks_before(Side::Sell, v.asks[i].price, v.asks[j].price));
    }
}

/// Repeated matching numbers its trades consecutively from the first id and
/// stamps each with the given time.
pub proof fn lemma_trade_ids_consecutive(v: BookView, trade_id: u64, timestamp: u64, fuel: nat)
    requires
        trade_id + fuel <= u64::MAX,
    ensures
        match_run(v, trade_id, timestamp, fuel).0.len() <= fuel,
        forall|j: int|
            0 <= j < match_run(v, trade_id, timestamp, fuel).0.len() ==> {
                &&& (#[trigger] match_run(v, trade_id, timestamp, fuel).0[j]).trade_id == trade_id + j
                &&& match_run(v, trade_id, timestamp, fuel).0[j].timestamp == timestamp
            },
    decreases fuel,
{
    if fuel > 0 && v.crossed() {
        let nv = v.after_match();
        lemma_trade_ids_consecutive(nv, (trade_id + 1) as u64, timestamp, (fuel - 1) as nat);
        let rest = match_run(nv, (trade_id + 1) as u64, timestamp, (fuel - 1) as nat);
        let all = match_run(v, trade_id, timestamp, fuel);
        assert(all.0 == seq![v.next_trade(trade_id, timestamp)] + rest.0);
        assert forall|j: int| 0 <= j < all.0.len() implies {
            &&& (#[trigger] all.0[j]).trade_id == trade_id + j
            &&& all.0[j].timestamp == timestamp
        } by {
            if j > 0 {
                assert(all.0[j] == rest.0[j - 1]);
            }
        }
    }
}

/// Cancelling a resting order takes out that order and no other: the book
/// stays consistent, no longer holds the id, and holds one order fewer.
pub proof fn lemma_cancel_removes(v: BookView, id: u64)
    requires
        v.consistent(),
        v.contains_id(id),
    ensures
        v.remove(id).consistent(),
        !v.remove(id).contains_id(id),
        v.remove(id).total() + 1 == v.total(),
        forall|other: u64|
            other != id ==> (#[trigger] v.remove(id).contains_id(other) <==> v.contains_id(other)),
{
    let idx = choose|idx: Map<u64, OrderLocation>| #[trigger] index_consistent(v, idx);
    let o = choose|o: Order| #[trigger] v.holds(o) && o.id == id;
    let s = if ladder_holds(v.bids, o) { Side::Buy } else { Side::Sell };
    let (i, k) = choose|i: int, k: int|
        0 <= i < v.side(s).len() && 0 <= k < v.side(s)[i].orders.len() && #[trigger] v.side(s)[i].orders[k]
            == o;
    assert(v.order_at(s, i, k) == o);
    lemma_book_remove(v, idx, s, i, k);
    let nv = v.remove(id);
    let nidx = idx.remove(id);
    assert(index_consistent(nv, nidx));
    assert(idx.contains_key(id));
    assert(nidx.len() == idx.len() - 1);
    assert forall|other: u64| other != id implies (#[trigger] nv.contains_id(other) <==> v.contains_id(
        other,
    )) by {
        if v.contains_id(other) {
            let w = choose|w: Order| #[trigger] v.holds(w) && w.id == other;
            assert(nv.holds(w));
        }
        if nv.contains_id(other) {
            let w = choose|w: Order| #[trigger] nv.holds(w) && w.id == other;
            assert(v.holds(w));
        }
    }
    if nv.contains_id(id) {
        let w = choose|w: Order| #[trigger] nv.holds(w) && w.id == id;
        assert(false);
    }
}

/// The quantity of a queue adds up over its parts: nothing for an empty
/// queue, an order's own quantity for a single order, and the sum of the
/// parts for two queues one after the other.
pub proof fn lemma_quantity_sum_adds(a: Seq<Order>, b: Seq<Order>, o: Order)
    ensures
        quantity_sum(Seq::empty()) == 0,
        quantity_sum(seq![o]) == o.quantity,
        quantity_sum(a + b) == quantity_sum(a) + quantity_sum(b),
    decreases b.len(),
{
    assert(seq![o].drop_last() =~= Seq::<Order>::empty());
    if b.len() == 0 {
        assert(a + b =~= a);
    } else {
        lemma_quantity_sum_adds(a, b.drop_last(), o);
        assert((a + b).drop_last() =~= a + b.drop_last());
        assert((a + b).last() == b.last());
    }
}

/// Depth lists the first `n` levels of a side, best first: for each, its
/// price, the number of orders queued at it, and (when it fits) their total
/// quantity.
pub proof fn lemma_depth_levels(ls: Seq<LevelView>, n: nat)
    ensures
        depth_of(ls, n).len() == if n < ls.len() { n } else { ls.len() },
        forall|i: int|
            0 <= i < depth_of(ls, n).len() ==> {
                &&& (#[trigger] depth_of(ls, n)[i]).price == ls[i].price
                &&& ls[i].orders.len() <= usize::MAX ==> depth_of(ls, n)[i].order_count
                    == ls[i].orders.len()
                &&& quantity_sum(ls[i].orders) <= u64::MAX ==> depth_of(ls, n)[i].total_quantity
                    == quantity_sum(ls[i].orders)
            },
{
    assert forall|i: int| 0 <= i < depth_of(ls, n).len() implies {
        &&& (#[trigger] depth_of(ls, n)[i]).price == ls[i].price
        &&& ls[i].orders.len() <= usize::MAX ==> depth_of(ls, n)[i].order_count
            == ls[i].orders.len()
        &&& quantity_sum(ls[i].orders) <= u64::MAX ==> depth_of(ls, n)[i].total_quantity
            == quantity_sum(ls[i].orders)
    } by {
        lemma_quantity_prefix(ls[i].orders, 0);
        assert(ls[i].orders.take(0) =~= Seq::<Order>::empty());
    }
}

} // verus!
