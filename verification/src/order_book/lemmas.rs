//! Proofs about ladders: how adding, removing and filling orders change a
//! ladder's shape, the orders it holds and its size.
use vstd::prelude::*;

use crate::model::{Order, OrderStatus, Side};
use crate::order_book::spec::{
    after_fill, index_after_match, match_run, index_consistent, location_of, partially_filled, BookView,
    OrderLocation, ladder_holds, levels_total, levels_wf, ranks_before, slot, with_order_added,
    without_order_at, quantity_sum, LevelView,
};

verus! {

pub proof fn lemma_total_concat(a: Seq<LevelView>, b: Seq<LevelView>)
    ensures
        levels_total(a + b) == levels_total(a) + levels_total(b),
    decreases b.len(),
{
    if b.len() == 0 {
        assert(a + b =~= a);
    } else {
        assert((a + b).drop_last() =~= a + b.drop_last());
        lemma_total_concat(a, b.drop_last());
    }
}

pub proof fn lemma_total_single(l: LevelView)
    ensures
        levels_total(seq![l]) == l.orders.len(),
{
    assert(seq![l].drop_last() =~= Seq::<LevelView>::empty());
    assert(levels_total(Seq::<LevelView>::empty()) == 0);
    assert(seq![l].last() == l);
}

pub proof fn lemma_total_update(ls: Seq<LevelView>, i: int, l: LevelView)
    requires
        0 <= i < ls.len(),
    ensures
        levels_total(ls.update(i, l)) == levels_total(ls) - ls[i].orders.len() + l.orders.len(),
{
    let a = ls.take(i);
    let b = ls.skip(i + 1);
    assert(ls =~= a + seq![ls[i]] + b);
    assert(ls.update(i, l) =~= a + seq![l] + b);
    lemma_total_concat(a + seq![ls[i]], b);
    lemma_total_concat(a, seq![ls[i]]);
    lemma_total_concat(a + seq![l], b);
    lemma_total_concat(a, seq![l]);
    lemma_total_single(ls[i]);
    lemma_total_single(l);
}

pub proof fn lemma_total_insert(ls: Seq<LevelView>, i: int, l: LevelView)
    requires
        0 <= i <= ls.len(),
    ensures
        levels_total(ls.insert(i, l)) == levels_total(ls) + l.orders.len(),
{
    let a = ls.take(i);
    let b = ls.skip(i);
    assert(ls =~= a + b);
    assert(ls.insert(i, l) =~= a + seq![l] + b);
    lemma_total_concat(a, b);
    lemma_total_concat(a + seq![l], b);
    lemma_total_concat(a, seq![l]);
    lemma_total_single(l);
}

pub proof fn lemma_total_remove(ls: Seq<LevelView>, i: int)
    requires
        0 <= i < ls.len(),
    ensures
        levels_total(ls.remove(i)) == levels_total(ls) - ls[i].orders.len(),
{
    let a = ls.take(i);
    let b = ls.skip(i + 1);
    assert(ls =~= a + seq![ls[i]] + b);
    assert(ls.remove(i) =~= a + b);
    lemma_total_concat(a + seq![ls[i]], b);
    lemma_total_concat(a, seq![ls[i]]);
    lemma_total_concat(a, b);
    lemma_total_single(ls[i]);
}

/// A prefix of a ladder holds no more orders than the ladder.
pub proof fn lemma_total_prefix(ls: Seq<LevelView>, i: int)
    requires
        0 <= i <= ls.len(),
    ensures
        levels_total(ls.take(i)) <= levels_total(ls),
        i < ls.len() ==> levels_total(ls.take(i + 1)) == levels_total(ls.take(i)) + ls[i].orders.len(),
{
    assert(ls =~= ls.take(i) + ls.skip(i));
    lemma_total_concat(ls.take(i), ls.skip(i));
    if i < ls.len() {
        assert(ls.take(i + 1).drop_last() =~= ls.take(i));
    }
}

/// A prefix of a queue holds no more quantity than the queue.
pub proof fn lemma_quantity_prefix(orders: Seq<Order>, j: int)
    requires
        0 <= j <= orders.len(),
    ensures
        quantity_sum(orders.take(j)) <= quantity_sum(orders),
        j < orders.len() ==> quantity_sum(orders.take(j + 1)) == quantity_sum(orders.take(j))
            + orders[j].quantity,
    decreases orders.len(),
{
    if j < orders.len() {
        assert(orders.take(j + 1).drop_last() =~= orders.take(j));
    }
    if j == orders.len() {
        assert(orders.take(j) =~= orders);
    } else {
        lemma_quantity_prefix(orders.drop_last(), j);
        assert(orders.drop_last().take(j) =~= orders.take(j));
    }
}

/// The slot is the end of the prefix of levels ranked before the price.
pub proof fn lemma_slot_props(ls: Seq<LevelView>, side: Side, p: i64)
    ensures
        slot(ls, side, p) <= ls.len(),
        forall|j: int| 0 <= j < slot(ls, side, p) ==> ranks_before(side, #[trigger] ls[j].price, p),
        slot(ls, side, p) < ls.len() ==> !ranks_before(side, ls[slot(ls, side, p) as int].price, p),
    decreases ls.len(),
{
    if ls.len() > 0 && ranks_before(side, ls[0].price, p) {
        let t = ls.drop_first();
        lemma_slot_props(t, side, p);
        assert forall|j: int| 0 <= j < slot(ls, side, p) implies ranks_before(
            side,
            #[trigger] ls[j].price,
            p,
        ) by {
            if j > 0 {
                assert(ls[j] == t[j - 1]);
            }
        }
        if slot(ls, side, p) < ls.len() {
            assert(ls[slot(ls, side, p) as int] == t[slot(t, side, p) as int]);
        }
    }
}

/// Any index that ends the prefix of levels ranked before the price is the slot.
pub proof fn lemma_slot_unique(ls: Seq<LevelView>, side: Side, p: i64, i: int)
    requires
        0 <= i <= ls.len(),
        forall|j: int| 0 <= j < i ==> ranks_before(side, #[trigger] ls[j].price, p),
        i < ls.len() ==> !ranks_before(side, ls[i].price, p),
    ensures
        slot(ls, side, p) == i,
{
    lemma_slot_props(ls, side, p);
    let s = slot(ls, side, p) as int;
    if s < i {
        assert(ranks_before(side, ls[s].price, p));
    }
    if s > i {
        assert(ranks_before(side, ls[i].price, p));
    }
}

/// In a well-formed ladder the slot of a level's own price is that level.
pub proof fn lemma_slot_of_level(ls: Seq<LevelView>, side: Side, i: int)
    requires
        levels_wf(ls, side),
        0 <= i < ls.len(),
    ensures
        slot(ls, side, ls[i].price) == i,
{
    assert forall|j: int| 0 <= j < i implies ranks_before(side, #[trigger] ls[j].price, ls[i].price) by {
    }
    lemma_slot_unique(ls, side, ls[i].price, i);
}

/// Adding an order whose id is new keeps the ladder well formed, holds
/// exactly one more order, and holds exactly the old orders and the new one.
pub proof fn lemma_ladder_add(ls: Seq<LevelView>, side: Side, o: Order)
    requires
        levels_wf(ls, side),
        o.side == side,
        forall|o2: Order| ladder_holds(ls, o2) ==> o2.id != o.id,
    ensures
        levels_wf(with_order_added(ls, side, o), side),
        levels_total(with_order_added(ls, side, o)) == levels_total(ls) + 1,
        forall|o2: Order|
            #[trigger] ladder_holds(with_order_added(ls, side, o), o2) <==> (ladder_holds(ls, o2)
                || o2 == o),
{
    lemma_slot_props(ls, side, o.price);
    let s = slot(ls, side, o.price) as int;
    let nl = with_order_added(ls, side, o);
    if s < ls.len() && ls[s].price == o.price {
        let lv = LevelView { price: ls[s].price, orders: ls[s].orders.push(o) };
        assert(nl == ls.update(s, lv));
        lemma_total_update(ls, s, lv);
        assert forall|k1: int, k2: int|
            0 <= k1 < lv.orders.len() && 0 <= k2 < lv.orders.len() && k1 != k2 implies (
            #[trigger] lv.orders[k1]).id != (#[trigger] lv.orders[k2]).id by {
            if k1 < ls[s].orders.len() && k2 < ls[s].orders.len() {
                assert(ls[s].orders[k1] == lv.orders[k1]);
                assert(ls[s].orders[k2] == lv.orders[k2]);
            } else if k1 < ls[s].orders.len() {
                assert(ladder_holds(ls, ls[s].orders[k1]));
            } else {
                assert(ladder_holds(ls, ls[s].orders[k2]));
            }
        }
        assert forall|o2: Order| ladder_holds(nl, o2) <==> (ladder_holds(ls, o2) || o2 == o) by {
            if ladder_holds(nl, o2) {
                let (i, k) = choose|i: int, k: int|
                    0 <= i < nl.len() && 0 <= k < nl[i].orders.len() && #[trigger] nl[i].orders[k]
                        == o2;
                if i != s || k < ls[s].orders.len() {
                    assert(ls[i].orders[k] == o2);
                }
            }
            if ladder_holds(ls, o2) {
                let (i, k) = choose|i: int, k: int|
                    0 <= i < ls.len() && 0 <= k < ls[i].orders.len() && #[trigger] ls[i].orders[k]
                        == o2;
                assert(nl[i].orders[k] == o2);
            }
            if o2 == o {
                assert(nl[s].orders[ls[s].orders.len() as int] == o2);
            }
        }
    } else {
        let lv = LevelView { price: o.price, orders: seq![o] };
        assert(nl == ls.insert(s, lv));
        lemma_total_insert(ls, s, lv);
        assert forall|i: int, j: int| 0 <= i < j < nl.len() implies ranks_before(
            side,
            #[trigger] nl[i].price,
            #[trigger] nl[j].price,
        ) by {
            if j < s {
            } else if j == s {
            } else if i == s {
                assert(ranks_before(side, o.price, ls[s].price));
            } else if i < s {
            } else {
            }
        }
        assert forall|o2: Order| ladder_holds(nl, o2) <==> (ladder_holds(ls, o2) || o2 == o) by {
            if ladder_holds(nl, o2) {
                let (i, k) = choose|i: int, k: int|
                    0 <= i < nl.len() && 0 <= k < nl[i].orders.len() && #[trigger] nl[i].orders[k]
                        == o2;
                if i < s {
                    assert(ls[i].orders[k] == o2);
                } else if i > s {
                    assert(ls[i - 1].orders[k] == o2);
                }
            }
            if ladder_holds(ls, o2) {
                let (i, k) = choose|i: int, k: int|
                    0 <= i < ls.len() && 0 <= k < ls[i].orders.len() && #[trigger] ls[i].orders[k]
                        == o2;
                if i < s {
                    assert(nl[i].orders[k] == o2);
                } else {
                    assert(nl[i + 1].orders[k] == o2);
                }
            }
            if o2 == o {
                assert(nl[s].orders[0] == o2);
            }
        }
    }
}

/// Removing the order at (i, k), whose id no other position carries, keeps the
/// ladder well formed, holds one order fewer, and holds exactly the old orders
/// with another id.
pub proof fn lemma_ladder_remove(ls: Seq<LevelView>, side: Side, i: int, k: int)
    requires
        levels_wf(ls, side),
        0 <= i < ls.len(),
        0 <= k < ls[i].orders.len(),
        forall|i2: int, k2: int|
            0 <= i2 < ls.len() && 0 <= k2 < ls[i2].orders.len() && (#[trigger] ls[i2].orders[k2]).id
                == ls[i].orders[k].id ==> i2 == i && k2 == k,
    ensures
        levels_wf(without_order_at(ls, i, k), side),
        levels_total(without_order_at(ls, i, k)) == levels_total(ls) - 1,
        forall|o2: Order|
            #[trigger] ladder_holds(without_order_at(ls, i, k), o2) <==> (ladder_holds(ls, o2)
                && o2.id != ls[i].orders[k].id),
{
    let nl = without_order_at(ls, i, k);
    let gone = ls[i].orders[k];
    if ls[i].orders.len() == 1 {
        assert(nl == ls.remove(i));
        lemma_total_remove(ls, i);
        assert forall|a: int, b: int| 0 <= a < b < nl.len() implies ranks_before(
            side,
            #[trigger] nl[a].price,
            #[trigger] nl[b].price,
        ) by {
            if b < i {
            } else if a < i {
                assert(nl[b] == ls[b + 1]);
            } else {
                assert(nl[a] == ls[a + 1]);
                assert(nl[b] == ls[b + 1]);
            }
        }
        assert forall|o2: Order| #[trigger]
            ladder_holds(nl, o2) <==> (ladder_holds(ls, o2) && o2.id != gone.id) by {
            if ladder_holds(nl, o2) {
                let (a, c) = choose|a: int, c: int|
                    0 <= a < nl.len() && 0 <= c < nl[a].orders.len() && #[trigger] nl[a].orders[c]
                        == o2;
                if a < i {
                    assert(ls[a].orders[c] == o2);
                } else {
                    assert(ls[a + 1].orders[c] == o2);
                }
            }
            if ladder_holds(ls, o2) && o2.id != gone.id {
                let (a, c) = choose|a: int, c: int|
                    0 <= a < ls.len() && 0 <= c < ls[a].orders.len() && #[trigger] ls[a].orders[c]
                        == o2;
                if a < i {
                    assert(nl[a].orders[c] == o2);
                } else {
                    assert(a != i);
                    assert(nl[a - 1].orders[c] == o2);
                }
            }
        }
    } else {
        let lv = LevelView { price: ls[i].price, orders: ls[i].orders.remove(k) };
        assert(nl == ls.update(i, lv));
        lemma_total_update(ls, i, lv);
        assert forall|a: int, c: int|
            0 <= a < nl.len() && 0 <= c < nl[a].orders.len() implies {
            &&& (#[trigger] nl[a].orders[c]).price == nl[a].price
            &&& nl[a].orders[c].side == side
        } by {
            if a == i && c >= k {
                assert(nl[a].orders[c] == ls[a].orders[c + 1]);
            }
        }
        assert forall|c1: int, c2: int|
            0 <= c1 < lv.orders.len() && 0 <= c2 < lv.orders.len() && c1 != c2 implies (
            #[trigger] lv.orders[c1]).id != (#[trigger] lv.orders[c2]).id by {
            let d1 = if c1 < k { c1 } else { c1 + 1 };
            let d2 = if c2 < k { c2 } else { c2 + 1 };
            assert(lv.orders[c1] == ls[i].orders[d1]);
            assert(lv.orders[c2] == ls[i].orders[d2]);
        }
        assert forall|o2: Order| #[trigger]
            ladder_holds(nl, o2) <==> (ladder_holds(ls, o2) && o2.id != gone.id) by {
            if ladder_holds(nl, o2) {
                let (a, c) = choose|a: int, c: int|
                    0 <= a < nl.len() && 0 <= c < nl[a].orders.len() && #[trigger] nl[a].orders[c]
                        == o2;
                if a != i {
                    assert(ls[a].orders[c] == o2);
                } else if c < k {
                    assert(ls[a].orders[c] == o2);
                } else {
                    assert(ls[a].orders[c + 1] == o2);
                }
            }
            if ladder_holds(ls, o2) && o2.id != gone.id {
                let (a, c) = choose|a: int, c: int|
                    0 <= a < ls.len() && 0 <= c < ls[a].orders.len() && #[trigger] ls[a].orders[c]
                        == o2;
                if a != i {
                    assert(nl[a].orders[c] == o2);
                } else if c < k {
                    assert(nl[a].orders[c] == o2);
                } else {
                    assert(c != k);
                    assert(nl[a].orders[c - 1] == o2);
                }
            }
        }
    }
}

/// Two positions of a consistent book that carry the same id are the same position.
pub proof fn lemma_same_id_same_position(
    v: BookView,
    idx: Map<u64, OrderLocation>,
    s1: Side,
    i1: int,
    k1: int,
    s2: Side,
    i2: int,
    k2: int,
)
    requires
        v.wf(),
        index_consistent(v, idx),
        v.valid_pos(s1, i1, k1),
        v.valid_pos(s2, i2, k2),
        v.order_at(s1, i1, k1).id == v.order_at(s2, i2, k2).id,
    ensures
        s1 == s2 && i1 == i2 && k1 == k2,
{
    let o1 = v.order_at(s1, i1, k1);
    let o2 = v.order_at(s2, i2, k2);
    assert(ladder_holds(v.side(s1), o1));
    assert(ladder_holds(v.side(s2), o2));
    assert(v.holds(o1)) by {
        match s1 {
            Side::Buy => {},
            Side::Sell => {},
        }
    }
    assert(v.holds(o2)) by {
        match s2 {
            Side::Buy => {},
            Side::Sell => {},
        }
    }
    assert(location_of(o1) == location_of(o2));
    assert(o1.side == s1) by {
        match s1 {
            Side::Buy => {},
            Side::Sell => {},
        }
    }
    assert(o2.side == s2) by {
        match s2 {
            Side::Buy => {},
            Side::Sell => {},
        }
    }
    let ls = v.side(s1);
    assert(ls[i1].price == ls[i2].price) by {
        match s1 {
            Side::Buy => {},
            Side::Sell => {},
        }
    }
    if i1 < i2 {
        assert(ranks_before(s1, ls[i1].price, ls[i2].price)) by {
            match s1 {
                Side::Buy => {},
                Side::Sell => {},
            }
        }
    }
    if i2 < i1 {
        assert(ranks_before(s1, ls[i2].price, ls[i1].price)) by {
            match s1 {
                Side::Buy => {},
                Side::Sell => {},
            }
        }
    }
    if k1 != k2 {
        assert(ls[i1].orders[k1].id != ls[i1].orders[k2].id) by {
            match s1 {
                Side::Buy => {},
                Side::Sell => {},
            }
        }
    }
}

/// Removing a resting order from a consistent book: the removal is the one
/// `BookView::remove` describes, and the result is well formed and consistent
/// with the index without that id.
pub proof fn lemma_book_remove(v: BookView, idx: Map<u64, OrderLocation>, s: Side, i: int, k: int)
    requires
        v.wf(),
        index_consistent(v, idx),
        v.valid_pos(s, i, k),
    ensures
        v.contains_id(v.order_at(s, i, k).id),
        v.position_of(v.order_at(s, i, k).id) == (s, i, k),
        v.order_with_id(v.order_at(s, i, k).id) == v.order_at(s, i, k),
        v.remove(v.order_at(s, i, k).id) == v.with_side(s, without_order_at(v.side(s), i, k)),
        v.remove(v.order_at(s, i, k).id).wf(),
        index_consistent(v.remove(v.order_at(s, i, k).id), idx.remove(v.order_at(s, i, k).id)),
        forall|o2: Order| #[trigger]
            v.remove(v.order_at(s, i, k).id).holds(o2) <==> (v.holds(o2) && o2.id != v.order_at(
                s,
                i,
                k,
            ).id),
{
    let gone = v.order_at(s, i, k);
    let id = gone.id;
    let ls = v.side(s);
    let w = (s, i, k);
    assert(v.holds_at(id, w.0, w.1, w.2));
    let p = v.position_of(id);
    lemma_same_id_same_position(v, idx, p.0, p.1, p.2, s, i, k);
    assert(ladder_holds(ls, gone));
    assert(v.holds(gone)) by {
        match s {
            Side::Buy => {},
            Side::Sell => {},
        }
    }
    assert forall|i2: int, k2: int|
        0 <= i2 < ls.len() && 0 <= k2 < ls[i2].orders.len() && (#[trigger] ls[i2].orders[k2]).id
            == ls[i].orders[k].id implies i2 == i && k2 == k by {
        lemma_same_id_same_position(v, idx, s, i2, k2, s, i, k);
    }
    lemma_ladder_remove(ls, s, i, k);
    let nl = without_order_at(ls, i, k);
    let nv = v.remove(id);
    let nidx = idx.remove(id);
    assert(nv == v.with_side(s, nl));
    assert forall|o2: Order| #[trigger] nv.holds(o2) <==> (v.holds(o2) && o2.id != id) by {
        assert(ladder_holds(nl, o2) <==> (ladder_holds(ls, o2) && o2.id != id));
        if ladder_holds(v.side(s), o2) || ladder_holds(v.with_side(s, nl).side(s), o2) {
        }
        match s {
            Side::Buy => {
                assert(nv.bids == nl && nv.asks == v.asks);
                if ladder_holds(v.asks, o2) && v.holds(o2) {
                    assert(idx[o2.id] == location_of(o2));
                    assert(idx[id] == location_of(gone));
                    let (a, c) = choose|a: int, c: int|
                        0 <= a < v.asks.len() && 0 <= c < v.asks[a].orders.len()
                            && #[trigger] v.asks[a].orders[c] == o2;
                    if o2.id == id {
                        lemma_same_id_same_position(v, idx, Side::Sell, a, c, s, i, k);
                    }
                }
            },
            Side::Sell => {
                assert(nv.asks == nl && nv.bids == v.bids);
                if ladder_holds(v.bids, o2) && v.holds(o2) {
                    let (a, c) = choose|a: int, c: int|
                        0 <= a < v.bids.len() && 0 <= c < v.bids[a].orders.len()
                            && #[trigger] v.bids[a].orders[c] == o2;
                    if o2.id == id {
                        lemma_same_id_same_position(v, idx, Side::Buy, a, c, s, i, k);
                    }
                }
            },
        }
    }
    assert forall|o2: Order| #[trigger] nv.holds(o2) implies nidx.contains_key(o2.id) && nidx[o2.id]
        == location_of(o2) by {
        assert(v.holds(o2));
    }
    assert forall|id2: u64| #[trigger] nidx.contains_key(id2) implies nv.contains_id(id2) by {
        assert(idx.contains_key(id2));
        let o2 = choose|o2: Order| #[trigger] v.holds(o2) && o2.id == id2;
        assert(nv.holds(o2));
    }
    assert(v.contains_id(id));
}

/// Filling part of the first order keeps the ladder well formed and its size,
/// and swaps that order for its partially filled self.
pub proof fn lemma_ladder_partial(ls: Seq<LevelView>, side: Side, q: u64)
    requires
        levels_wf(ls, side),
        ls.len() > 0,
        q < ls[0].orders[0].quantity,
        forall|i2: int, k2: int|
            0 <= i2 < ls.len() && 0 <= k2 < ls[i2].orders.len() && (#[trigger] ls[i2].orders[k2]).id
                == ls[0].orders[0].id ==> i2 == 0 && k2 == 0,
    ensures
        levels_wf(after_fill(ls, q), side),
        levels_total(after_fill(ls, q)) == levels_total(ls),
        forall|o2: Order| #[trigger]
            ladder_holds(after_fill(ls, q), o2) <==> ((ladder_holds(ls, o2) && o2.id
                != ls[0].orders[0].id) || o2 == partially_filled(ls[0].orders[0], q)),
{
    let o = ls[0].orders[0];
    let po = partially_filled(o, q);
    let lv = LevelView { price: ls[0].price, orders: ls[0].orders.update(0, po) };
    let nl = after_fill(ls, q);
    assert(nl == ls.update(0, lv));
    lemma_total_update(ls, 0, lv);
    assert forall|a: int, c: int| 0 <= a < nl.len() && 0 <= c < nl[a].orders.len() implies {
        &&& (#[trigger] nl[a].orders[c]).price == nl[a].price
        &&& nl[a].orders[c].side == side
    } by {
        if a != 0 || c != 0 {
            assert(nl[a].orders[c] == ls[a].orders[c]);
        }
    }
    assert forall|c1: int, c2: int|
        0 <= c1 < lv.orders.len() && 0 <= c2 < lv.orders.len() && c1 != c2 implies (
        #[trigger] lv.orders[c1]).id != (#[trigger] lv.orders[c2]).id by {
        assert(ls[0].orders[c1].id == lv.orders[c1].id);
        assert(ls[0].orders[c2].id == lv.orders[c2].id);
    }
    assert forall|o2: Order| #[trigger]
        ladder_holds(nl, o2) <==> ((ladder_holds(ls, o2) && o2.id != o.id) || o2 == po) by {
        if ladder_holds(nl, o2) {
            let (a, c) = choose|a: int, c: int|
                0 <= a < nl.len() && 0 <= c < nl[a].orders.len() && #[trigger] nl[a].orders[c] == o2;
            if a != 0 || c != 0 {
                assert(ls[a].orders[c] == o2);
            }
        }
        if ladder_holds(ls, o2) && o2.id != o.id {
            let (a, c) = choose|a: int, c: int|
                0 <= a < ls.len() && 0 <= c < ls[a].orders.len() && #[trigger] ls[a].orders[c] == o2;
            assert(nl[a].orders[c] == o2);
        }
        if o2 == po {
            assert(nl[0].orders[0] == o2);
        }
    }
}

/// An indexed id rests on the indexed side, in the level at the indexed price.
pub proof fn lemma_indexed_position(v: BookView, idx: Map<u64, OrderLocation>, id: u64)
    requires
        v.wf(),
        index_consistent(v, idx),
        idx.contains_key(id),
    ensures
        exists|i: int, k: int|
            v.valid_pos(idx[id].side, i, k) && #[trigger] v.order_at(idx[id].side, i, k).id == id
                && v.side(idx[id].side)[i].price == idx[id].price,
{
    let o = choose|o: Order| #[trigger] v.holds(o) && o.id == id;
    assert(idx[id] == location_of(o));
    if ladder_holds(v.bids, o) {
        let (i, k) = choose|i: int, k: int|
            0 <= i < v.bids.len() && 0 <= k < v.bids[i].orders.len() && #[trigger] v.bids[i].orders[k]
                == o;
        assert(v.order_at(Side::Buy, i, k) == o);
    } else {
        let (i, k) = choose|i: int, k: int|
            0 <= i < v.asks.len() && 0 <= k < v.asks[i].orders.len() && #[trigger] v.asks[i].orders[k]
                == o;
        assert(v.order_at(Side::Sell, i, k) == o);
    }
}

/// In a consistent book an id is indexed exactly when an order with it rests.
pub proof fn lemma_index_contains(v: BookView, idx: Map<u64, OrderLocation>, id: u64)
    requires
        index_consistent(v, idx),
    ensures
        idx.contains_key(id) == v.contains_id(id),
{
    if v.contains_id(id) {
        let o = choose|o: Order| #[trigger] v.holds(o) && o.id == id;
    }
}

/// One matching step on a crossed, consistent book: the two first orders are
/// distinct, the book stays well formed and consistent with the index less
/// the filled ids, and at least one order leaves.
pub proof fn lemma_book_match(v: BookView, idx: Map<u64, OrderLocation>)
    requires
        v.wf(),
        index_consistent(v, idx),
        v.crossed(),
    ensures
        v.bids[0].orders[0].id != v.asks[0].orders[0].id,
        v.after_match().wf(),
        index_consistent(v.after_match(), index_after_match(v, idx)),
        v.after_match().total() < v.total(),
        forall|o2: Order| #[trigger]
            v.after_match().holds(o2) <==> {
                ||| (v.holds(o2) && o2.id != v.bids[0].orders[0].id && o2.id
                    != v.asks[0].orders[0].id)
                ||| (v.bids[0].orders[0].quantity != v.match_quantity() && o2 == partially_filled(
                    v.bids[0].orders[0],
                    v.match_quantity(),
                ))
                ||| (v.asks[0].orders[0].quantity != v.match_quantity() && o2 == partially_filled(
                    v.asks[0].orders[0],
                    v.match_quantity(),
                ))
            },
{
    let q = v.match_quantity();
    let buy = v.bids[0].orders[0];
    let sell = v.asks[0].orders[0];
    let nv = v.after_match();
    assert(v.valid_pos(Side::Buy, 0, 0));
    assert(v.valid_pos(Side::Sell, 0, 0));
    if buy.id == sell.id {
        lemma_same_id_same_position(v, idx, Side::Buy, 0, 0, Side::Sell, 0, 0);
    }
    assert forall|i2: int, k2: int|
        0 <= i2 < v.bids.len() && 0 <= k2 < v.bids[i2].orders.len() && (
        #[trigger] v.bids[i2].orders[k2]).id == v.bids[0].orders[0].id implies i2 == 0 && k2
        == 0 by {
        lemma_same_id_same_position(v, idx, Side::Buy, i2, k2, Side::Buy, 0, 0);
    }
    assert forall|i2: int, k2: int|
        0 <= i2 < v.asks.len() && 0 <= k2 < v.asks[i2].orders.len() && (
        #[trigger] v.asks[i2].orders[k2]).id == v.asks[0].orders[0].id implies i2 == 0 && k2
        == 0 by {
        lemma_same_id_same_position(v, idx, Side::Sell, i2, k2, Side::Sell, 0, 0);
    }
    if buy.quantity == q {
        lemma_ladder_remove(v.bids, Side::Buy, 0, 0);
    } else {
        lemma_ladder_partial(v.bids, Side::Buy, q);
    }
    if sell.quantity == q {
        lemma_ladder_remove(v.asks, Side::Sell, 0, 0);
    } else {
        lemma_ladder_partial(v.asks, Side::Sell, q);
    }
    let nidx = index_after_match(v, idx);
    assert(ladder_holds(v.bids, buy));
    assert(ladder_holds(v.asks, sell));
    assert(v.holds(buy) && v.holds(sell));
    // the orders of the book after the step
    assert forall|o2: Order| #[trigger] nv.holds(o2) <==> {
        ||| (v.holds(o2) && o2.id != buy.id && o2.id != sell.id)
        ||| (buy.quantity != q && o2 == partially_filled(buy, q))
        ||| (sell.quantity != q && o2 == partially_filled(sell, q))
    } by {
        assert(ladder_holds(nv.bids, o2) <==> ((ladder_holds(v.bids, o2) && o2.id != buy.id) || (
        buy.quantity != q && o2 == partially_filled(buy, q))));
        assert(ladder_holds(nv.asks, o2) <==> ((ladder_holds(v.asks, o2) && o2.id != sell.id) || (
        sell.quantity != q && o2 == partially_filled(sell, q))));
        if ladder_holds(v.bids, o2) && o2.id == sell.id {
            let (a, c) = choose|a: int, c: int|
                0 <= a < v.bids.len() && 0 <= c < v.bids[a].orders.len() && #[trigger] v.bids[a].orders[c]
                    == o2;
            lemma_same_id_same_position(v, idx, Side::Buy, a, c, Side::Sell, 0, 0);
        }
        if ladder_holds(v.asks, o2) && o2.id == buy.id {
            let (a, c) = choose|a: int, c: int|
                0 <= a < v.asks.len() && 0 <= c < v.asks[a].orders.len() && #[trigger] v.asks[a].orders[c]
                    == o2;
            lemma_same_id_same_position(v, idx, Side::Sell, a, c, Side::Buy, 0, 0);
        }
    }
    assert forall|o2: Order| #[trigger] nv.holds(o2) implies nidx.contains_key(o2.id) && nidx[o2.id]
        == location_of(o2) by {
        if v.holds(o2) && o2.id != buy.id && o2.id != sell.id {
        } else if buy.quantity != q && o2 == partially_filled(buy, q) {
        } else {
        }
    }
    assert forall|id: u64| #[trigger] nidx.contains_key(id) implies nv.contains_id(id) by {
        assert(idx.contains_key(id));
        let o2 = choose|o2: Order| #[trigger] v.holds(o2) && o2.id == id;
        if id == buy.id {
            assert(nv.holds(partially_filled(buy, q)));
        } else if id == sell.id {
            assert(nv.holds(partially_filled(sell, q)));
        } else {
            assert(nv.holds(o2));
        }
    }
}

/// Matching runs out before its fuel does: any fuel of at least the number of
/// resting orders gives the same trades and the same final book, and the
/// number of trades never exceeds the number of resting orders.
pub proof fn lemma_match_run_fuel(
    b: BookView,
    idx: Map<u64, OrderLocation>,
    trade_id: u64,
    timestamp: u64,
    f1: nat,
    f2: nat,
)
    requires
        b.wf(),
        index_consistent(b, idx),
        f1 >= b.total(),
        f2 >= b.total(),
    ensures
        match_run(b, trade_id, timestamp, f1) == match_run(b, trade_id, timestamp, f2),
        match_run(b, trade_id, timestamp, f1).0.len() <= b.total(),
        match_run(b, trade_id, timestamp, f1).1.wf(),
        !match_run(b, trade_id, timestamp, f1).1.crossed(),
    decreases f1,
{
    if b.crossed() {
        lemma_book_match(b, idx);
        lemma_match_run_fuel(
            b.after_match(),
            index_after_match(b, idx),
            (trade_id + 1) as u64,
            timestamp,
            (f1 - 1) as nat,
            (f2 - 1) as nat,
        );
    }
}

/// Adding an order with a new id to a consistent book keeps it well formed
/// and consistent with the index extended by the order's location.
pub proof fn lemma_book_add(v: BookView, idx: Map<u64, OrderLocation>, o: Order)
    requires
        v.wf(),
        index_consistent(v, idx),
        !idx.contains_key(o.id),
    ensures
        !v.contains_id(o.id),
        v.add(o).wf(),
        index_consistent(v.add(o), idx.insert(o.id, location_of(o))),
        forall|o2: Order| #[trigger] v.add(o).holds(o2) <==> (v.holds(o2) || o2 == o),
{
    let s = o.side;
    let ls = v.side(s);
    assert forall|o2: Order| ladder_holds(ls, o2) implies o2.id != o.id by {
        assert(v.holds(o2));
    }
    lemma_ladder_add(ls, s, o);
    let nv = v.add(o);
    let nidx = idx.insert(o.id, location_of(o));
    assert forall|o2: Order| #[trigger] nv.holds(o2) <==> (v.holds(o2) || o2 == o) by {
        let nl = with_order_added(ls, s, o);
        assert(ladder_holds(nl, o2) <==> (ladder_holds(ls, o2) || o2 == o));
        match s {
            Side::Buy => {
                assert(nv.bids == nl && nv.asks == v.asks);
            },
            Side::Sell => {
                assert(nv.asks == nl && nv.bids == v.bids);
            },
        }
    }
    assert forall|o2: Order| #[trigger] nv.holds(o2) implies nidx.contains_key(o2.id) && nidx[o2.id]
        == location_of(o2) by {
        if o2 != o {
            assert(v.holds(o2));
        }
    }
    assert forall|id: u64| #[trigger] nidx.contains_key(id) implies nv.contains_id(id) by {
        if id == o.id {
            assert(nv.holds(o));
        } else {
            assert(idx.contains_key(id));
            let o2 = choose|o2: Order| #[trigger] v.holds(o2) && o2.id == id;
            assert(nv.holds(o2));
        }
    }
    if v.contains_id(o.id) {
        let o2 = choose|o2: Order| #[trigger] v.holds(o2) && o2.id == o.id;
        assert(idx.contains_key(o2.id));
    }
}

/// Adding an order whose id is not in a consistent book keeps it consistent,
/// holds the order, holds one order more, and brings in no other id.
pub proof fn lemma_add_step(v: BookView, o: Order)
    requires
        v.consistent(),
        !v.contains_id(o.id),
    ensures
        v.add(o).consistent(),
        v.add(o).holds(o),
        v.add(o).total() == v.total() + 1,
        forall|id: u64| #[trigger] v.add(o).contains_id(id) ==> id == o.id || v.contains_id(id),
{
    let idx = choose|idx: Map<u64, OrderLocation>| #[trigger] index_consistent(v, idx);
    lemma_index_contains(v, idx, o.id);
    lemma_book_add(v, idx, o);
    let nidx = idx.insert(o.id, location_of(o));
    assert(index_consistent(v.add(o), nidx));
    assert forall|id: u64| #[trigger] v.add(o).contains_id(id) implies id == o.id || v.contains_id(
        id,
    ) by {
        let o2 = choose|o2: Order| #[trigger] v.add(o).holds(o2) && o2.id == id;
        if o2 != o {
            assert(v.holds(o2));
        }
    }
}

/// No id occurs twice in a consistent book.
pub proof fn lemma_unique_ids(v: BookView)
    requires
        v.consistent(),
    ensures
        forall|s1: Side, i1: int, k1: int, s2: Side, i2: int, k2: int|
            v.valid_pos(s1, i1, k1) && v.valid_pos(s2, i2, k2) && (#[trigger] v.order_at(
                s1,
                i1,
                k1,
            )).id == (#[trigger] v.order_at(s2, i2, k2)).id ==> s1 == s2 && i1 == i2 && k1 == k2,
{
    let idx = choose|idx: Map<u64, OrderLocation>| #[trigger] index_consistent(v, idx);
    assert forall|s1: Side, i1: int, k1: int, s2: Side, i2: int, k2: int|
        v.valid_pos(s1, i1, k1) && v.valid_pos(s2, i2, k2) && (#[trigger] v.order_at(
            s1,
            i1,
            k1,
        )).id == (#[trigger] v.order_at(s2, i2, k2)).id implies s1 == s2 && i1 == i2 && k1
        == k2 by {
        lemma_same_id_same_position(v, idx, s1, i1, k1, s2, i2, k2);
    }
}

/// Looking up the id of a resting order finds that very order.
pub proof fn lemma_found_order(v: BookView, o: Order)
    requires
        v.consistent(),
        v.holds(o),
    ensures
        v.contains_id(o.id),
        v.order_with_id(o.id) == o,
{
    let idx = choose|idx: Map<u64, OrderLocation>| #[trigger] index_consistent(v, idx);
    if ladder_holds(v.bids, o) {
        let (i, k) = choose|i: int, k: int|
            0 <= i < v.bids.len() && 0 <= k < v.bids[i].orders.len() && #[trigger] v.bids[i].orders[k]
                == o;
        assert(v.order_at(Side::Buy, i, k) == o);
        lemma_book_remove(v, idx, Side::Buy, i, k);
    } else {
        let (i, k) = choose|i: int, k: int|
            0 <= i < v.asks.len() && 0 <= k < v.asks[i].orders.len() && #[trigger] v.asks[i].orders[k]
                == o;
        assert(v.order_at(Side::Sell, i, k) == o);
        lemma_book_remove(v, idx, Side::Sell, i, k);
    }
}

/// One matching step on a crossed, consistent book keeps it consistent,
/// brings in no new id, and takes out at least one order. Each of the two
/// first orders leaves when fully filled, and otherwise stays with its
/// quantity reduced by the traded quantity and marked partially filled.
pub proof fn lemma_match_step(v: BookView)
    requires
        v.consistent(),
        v.crossed(),
    ensures
        v.after_match().consistent(),
        v.after_match().total() < v.total(),
        v.bids[0].orders[0].id != v.asks[0].orders[0].id,
        forall|id: u64| #[trigger] v.after_match().contains_id(id) ==> v.contains_id(id),
        v.after_match().contains_id(v.bids[0].orders[0].id) <==> v.bids[0].orders[0].quantity
            > v.match_quantity(),
        v.after_match().contains_id(v.bids[0].orders[0].id) ==> v.after_match().order_with_id(
            v.bids[0].orders[0].id,
        ) == partially_filled(v.bids[0].orders[0], v.match_quantity()),
        v.after_match().contains_id(v.asks[0].orders[0].id) <==> v.asks[0].orders[0].quantity
            > v.match_quantity(),
        v.after_match().contains_id(v.asks[0].orders[0].id) ==> v.after_match().order_with_id(
            v.asks[0].orders[0].id,
        ) == partially_filled(v.asks[0].orders[0], v.match_quantity()),
{
    let idx = choose|idx: Map<u64, OrderLocation>| #[trigger] index_consistent(v, idx);
    lemma_book_match(v, idx);
    let nv = v.after_match();
    let q = v.match_quantity();
    let buy = v.bids[0].orders[0];
    let sell = v.asks[0].orders[0];
    assert(index_consistent(nv, index_after_match(v, idx)));
    assert forall|id: u64| #[trigger] nv.contains_id(id) implies v.contains_id(id) by {
        let o2 = choose|o2: Order| #[trigger] nv.holds(o2) && o2.id == id;
        if !(v.holds(o2) && o2.id != buy.id && o2.id != sell.id) {
            if buy.quantity != q && o2 == partially_filled(buy, q) {
                assert(ladder_holds(v.bids, buy));
                assert(v.holds(buy));
            } else {
                assert(ladder_holds(v.asks, sell));
                assert(v.holds(sell));
            }
        }
    }
    if buy.quantity > q {
        assert(nv.holds(partially_filled(buy, q)));
        lemma_found_order(nv, partially_filled(buy, q));
    }
    if nv.contains_id(buy.id) {
        let o2 = choose|o2: Order| #[trigger] nv.holds(o2) && o2.id == buy.id;
    }
    if sell.quantity > q {
        assert(nv.holds(partially_filled(sell, q)));
        lemma_found_order(nv, partially_filled(sell, q));
    }
    if nv.contains_id(sell.id) {
        let o2 = choose|o2: Order| #[trigger] nv.holds(o2) && o2.id == sell.id;
    }
}

/// Matching a consistent book stops at an uncrossed consistent book, after
/// at most as many trades as resting orders, whatever fuel beyond the
/// number of resting orders it is given.
pub proof fn lemma_matched(v: BookView, trade_id: u64, timestamp: u64, fuel: nat)
    requires
        v.consistent(),
        fuel >= v.total(),
    ensures
        match_run(v, trade_id, timestamp, fuel) == v.matched(trade_id, timestamp),
        v.matched(trade_id, timestamp).0.len() <= v.total(),
        v.matched(trade_id, timestamp).1.consistent(),
        !v.matched(trade_id, timestamp).1.crossed(),
    decreases fuel,
{
    if v.crossed() {
        lemma_match_step(v);
        let nv = v.after_match();
        lemma_matched(nv, (trade_id + 1) as u64, timestamp, (fuel - 1) as nat);
        lemma_matched(nv, (trade_id + 1) as u64, timestamp, (v.total() - 1) as nat);
        assert(match_run(v, trade_id, timestamp, fuel) == match_run(
            v,
            trade_id,
            timestamp,
            v.total(),
        ));
    }
}

} // verus!
