//! Strategies turn market ticks into order requests.
use vstd::prelude::*;

use crate::model::{OrderRequest, OrderUpdate, Side, Tick};

verus! {

/// A trading strategy: reacts to each tick with zero or more order requests.
pub trait Strategy: Sized {
    /// Whether a strategy in this state may answer `tick` with `requests`
    /// and be left in state `after`. A strategy that does not say how it
    /// reacts may react in any way.
    open spec fn reacts(&self, tick: Tick, requests: Seq<OrderRequest>, after: Self) -> bool {
        true
    }

    fn on_tick(&mut self, tick: &Tick) -> (requests: Vec<OrderRequest>)
        ensures
            (*old(self)).reacts(*tick, requests@, *final(self)),
    ;

    fn on_order_update(&mut self, _update: &OrderUpdate) {
    }
}

/// Buys at or below one threshold and sells at or above another, for one symbol.
#[derive(Debug)]
pub struct ThresholdStrategy {
    pub symbol: String,
    pub buy_below: i64,
    pub sell_above: i64,
    pub quantity: u64,
}

impl ThresholdStrategy {
    pub fn new(symbol: String, buy_below: i64, sell_above: i64, quantity: u64) -> (strategy: Self)
        ensures
            strategy == (ThresholdStrategy { symbol, buy_below, sell_above, quantity }),
    {
        ThresholdStrategy { symbol, buy_below, sell_above, quantity }
    }

    /// The requests for a tick: a buy at the tick price when the price is at
    /// or below `buy_below`, else a sell when it is at or above `sell_above`,
    /// else nothing; ticks of other symbols give nothing.
    pub open spec fn requests_for(self, tick: Tick) -> Seq<OrderRequest> {
        if tick.symbol@ != self.symbol@ {
            Seq::empty()
        } else if tick.price <= self.buy_below {
            seq![
                OrderRequest {
                    symbol: tick.symbol,
                    side: Side::Buy,
                    price: tick.price,
                    quantity: self.quantity,
                },
            ]
        } else if tick.price >= self.sell_above {
            seq![
                OrderRequest {
                    symbol: tick.symbol,
                    side: Side::Sell,
                    price: tick.price,
                    quantity: self.quantity,
                },
            ]
        } else {
            Seq::empty()
        }
    }
}

impl Strategy for ThresholdStrategy {
    /// It answers with `requests_for` and keeps its state.
    open spec fn reacts(&self, tick: Tick, requests: Seq<OrderRequest>, after: Self) -> bool {
        &&& requests == self.requests_for(tick)
        &&& after == *self
    }

    fn on_tick(&mut self, tick: &Tick) -> (requests: Vec<OrderRequest>)
        ensures
            *final(self) == *old(self),
            requests@ == old(self).requests_for(*tick),
    {
        let requests = if !(tick.symbol == self.symbol) {
            Vec::new()
        } else if tick.price <= self.buy_below {
            vec![
                OrderRequest {
                    symbol: tick.symbol.clone(),
                    side: Side::Buy,
                    price: tick.price,
                    quantity: self.quantity,
                },
            ]
        } else if tick.price >= self.sell_above {
            vec![
                OrderRequest {
                    symbol: tick.symbol.clone(),
                    side: Side::Sell,
                    price: tick.price,
                    quantity: self.quantity,
                },
            ]
        } else {
            Vec::new()
        };
        proof {
            assert(requests@ =~= self.requests_for(*tick));
        }
        requests
    }
}

/// Sends one buy and then one crossing sell, for exercising a pipeline.
#[derive(Debug)]
pub struct DemoCrossStrategy {
    call_count: usize,
}

impl DemoCrossStrategy {
    pub fn new() -> (strategy: Self)
        ensures
            strategy.calls() == 0,
    {
        DemoCrossStrategy { call_count: 0 }
    }

    /// How many ticks the strategy has seen.
    pub closed spec fn calls(self) -> usize {
        self.call_count
    }

    /// The requests for the `call`-th tick: a buy of 2 at 100 000 on the
    /// first, a sell of 1 at 99 000 on the second, nothing afterwards.
    pub open spec fn requests_for(call: usize, tick: Tick) -> Seq<OrderRequest> {
        if call == 1 {
            seq![
                OrderRequest {
                    symbol: tick.symbol,
                    side: Side::Buy,
                    price: 100_000,
                    quantity: 2,
                },
            ]
        } else if call == 2 {
            seq![
                OrderRequest {
                    symbol: tick.symbol,
                    side: Side::Sell,
                    price: 99_000,
                    quantity: 1,
                },
            ]
        } else {
            Seq::empty()
        }
    }
}

impl Strategy for DemoCrossStrategy {
    /// It counts the tick (up to `usize::MAX`) and answers with the
    /// requests for that count.
    open spec fn reacts(&self, tick: Tick, requests: Seq<OrderRequest>, after: Self) -> bool {
        &&& after.calls() == if self.calls() < usize::MAX {
            (self.calls() + 1) as usize
        } else {
            self.calls()
        }
        &&& requests == DemoCrossStrategy::requests_for(after.calls(), tick)
    }

    fn on_tick(&mut self, tick: &Tick) -> (requests: Vec<OrderRequest>)
        ensures
            final(self).calls() == if old(self).calls() < usize::MAX {
                (old(self).calls() + 1) as usize
            } else {
                old(self).calls()
            },
            requests@ == DemoCrossStrategy::requests_for(final(self).calls(), *tick),
    {
        if self.call_count < usize::MAX {
            self.call_count = self.call_count + 1;
        }
        let requests = if self.call_count == 1 {
            vec![
                OrderRequest {
                    symbol: tick.symbol.clone(),
                    side: Side::Buy,
                    price: 100_000,
                    quantity: 2,
                },
            ]
        } else if self.call_count == 2 {
            vec![
                OrderRequest {
                    symbol: tick.symbol.clone(),
                    side: Side::Sell,
                    price: 99_000,
                    quantity: 1,
                },
            ]
        } else {
            Vec::new()
        };
        proof {
            assert(requests@ =~= DemoCrossStrategy::requests_for(self.calls(), *tick));
        }
        requests
    }
}

/// Whether a strategy's answer to a tick, and the state it moves to, depend
/// only on its state and the tick.
pub open spec fn reacts_deterministically<S: Strategy>() -> bool {
    forall|s: S, t: Tick, r1: Seq<OrderRequest>, a1: S, r2: Seq<OrderRequest>, a2: S|
        #![trigger s.reacts(t, r1, a1), s.reacts(t, r2, a2)]
        s.reacts(t, r1, a1) && s.reacts(t, r2, a2) ==> r1 == r2 && a1 == a2
}

/// The threshold strategy reacts deterministically.
pub proof fn lemma_threshold_deterministic()
    ensures
        reacts_deterministically::<ThresholdStrategy>(),
{
}

/// The demo strategy reacts deterministically: its count is all its state.
pub proof fn lemma_demo_cross_deterministic()
    ensures
        reacts_deterministically::<DemoCrossStrategy>(),
{
    assert forall|s: DemoCrossStrategy, t: Tick, r1: Seq<OrderRequest>, a1: DemoCrossStrategy, r2: Seq<
        OrderRequest,
    >, a2: DemoCrossStrategy|
        #![trigger s.reacts(t, r1, a1), s.reacts(t, r2, a2)]
        s.reacts(t, r1, a1) && s.reacts(t, r2, a2) implies r1 == r2 && a1 == a2 by {
        assert(a1.call_count == a2.call_count);
    }
}

/// The threshold strategy keeps its state and answers a tick with at most
/// one request, and only for its own symbol: a buy when the price is at or
/// below `buy_below`, else a sell when it is at or above `sell_above`. The
/// request is at the tick's price and symbol and always for the strategy's
/// configured quantity, whatever the tick's quantity.
pub proof fn lemma_threshold_requests(
    s: ThresholdStrategy,
    tick: Tick,
    requests: Seq<OrderRequest>,
    after: ThresholdStrategy,
)
    requires
        s.reacts(tick, requests, after),
    ensures
        after == s,
        requests.len() <= 1,
        requests.len() == 1 <==> (tick.symbol@ == s.symbol@ && (tick.price <= s.buy_below
            || tick.price >= s.sell_above)),
        forall|i: int|
            0 <= i < requests.len() ==> {
                &&& (#[trigger] requests[i]).quantity == s.quantity
                &&& requests[i].price == tick.price
                &&& requests[i].symbol@ == tick.symbol@
                &&& (requests[i].side == Side::Buy <==> tick.price <= s.buy_below)
            },
{
}

/// The demo strategy counts the ticks it sees. On its first tick it buys 2
/// at 100 000 and on its second it sells 1 at 99 000, both in the tick's
/// symbol; afterwards it asks for nothing.
pub proof fn lemma_demo_cross_requests(
    s: DemoCrossStrategy,
    tick: Tick,
    requests: Seq<OrderRequest>,
    after: DemoCrossStrategy,
)
    requires
        s.reacts(tick, requests, after),
    ensures
        s.calls() < usize::MAX ==> after.calls() == s.calls() + 1,
        s.calls() == 0 ==> {
            &&& requests.len() == 1
            &&& requests[0].side == Side::Buy
            &&& requests[0].price == 100_000
            &&& requests[0].quantity == 2
            &&& requests[0].symbol@ == tick.symbol@
        },
        s.calls() == 1 ==> {
            &&& requests.len() == 1
            &&& requests[0].side == Side::Sell
            &&& requests[0].price == 99_000
            &&& requests[0].quantity == 1
            &&& requests[0].symbol@ == tick.symbol@
        },
        s.calls() >= 2 ==> requests.len() == 0,
{
}

} // verus!
