//! Simulated execution of a limit order request against a market tick.
use vstd::prelude::*;

use crate::model::{OrderRequest, Side, Tick};

verus! {

/// An execution simulated at the tick's price.
#[derive(Debug, Clone, PartialEq, Eq)]
pub struct SimulatedFill {
    pub symbol: String,
    pub side: Side,
    pub price: i64,
    pub quantity: u64,
    pub timestamp: u64,
}

pub struct SimpleFillSimulator;

impl SimpleFillSimulator {
    /// Whether a limit order at `limit` on `side` executes against `market`:
    /// a buy when its limit is at or above the market, a sell when at or below.
    pub open spec fn crosses(side: Side, limit: i64, market: i64) -> bool {
        match side {
            Side::Buy => limit >= market,
            Side::Sell => limit <= market,
        }
    }

    /// The fill of a request against a tick of the same symbol when the limit
    /// crosses the tick's price: at the tick's price and time, for the smaller
    /// of the requested and the tick's quantities.
    pub open spec fn fill_of(request: OrderRequest, tick: Tick) -> Option<SimulatedFill> {
        if request.symbol@ != tick.symbol@ || !Self::crosses(request.side, request.price, tick.price) {
            None
        } else {
            Some(
                SimulatedFill {
                    symbol: request.symbol,
                    side: request.side,
                    price: tick.price,
                    quantity: if request.quantity <= tick.quantity {
                        request.quantity
                    } else {
                        tick.quantity
                    },
                    timestamp: tick.timestamp,
                },
            )
        }
    }

    pub fn fill_order(request: &OrderRequest, tick: &Tick) -> (fill: Option<SimulatedFill>)
        ensures
            fill == Self::fill_of(*request, *tick),
    {
        if !(request.symbol == tick.symbol) {
            return None;
        }
        let should_fill = match request.side {
            Side::Buy => request.price >= tick.price,
            Side::Sell => request.price <= tick.price,
        };
        if !should_fill {
            return None;
        }
        Some(
            SimulatedFill {
                symbol: request.symbol.clone(),
                side: request.side,
                price: tick.price,
                quantity: if request.quantity <= tick.quantity {
                    request.quantity
                } else {
                    tick.quantity
                },
                timestamp: tick.timestamp,
            },
        )
    }
}

/// A request fills against a tick exactly when it names the tick's symbol
/// and its limit is at or beyond the market (a buy at or above, a sell at or
/// below the tick's price). The fill is on the request's side and symbol, at
/// the tick's price and time, for as much as both the request and the tick
/// allow: never more than either quantity, and all of one of them.
pub proof fn lemma_fill_terms(request: OrderRequest, tick: Tick)
    ensures
        SimpleFillSimulator::fill_of(request, tick) is Some <==> {
            &&& request.symbol@ == tick.symbol@
            &&& request.side == Side::Buy ==> request.price >= tick.price
            &&& request.side == Side::Sell ==> request.price <= tick.price
        },
        SimpleFillSimulator::fill_of(request, tick) matches Some(f) ==> {
            &&& f.quantity <= request.quantity
            &&& f.quantity <= tick.quantity
            &&& (f.quantity == request.quantity || f.quantity == tick.quantity)
            &&& f.price == tick.price
            &&& f.timestamp == tick.timestamp
            &&& f.side == request.side
            &&& f.symbol@ == request.symbol@
        },
{
}

} // verus!
