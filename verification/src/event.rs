//! Events that flow between market data, strategies and the engine.
use vstd::prelude::*;

use crate::model::{OrderRequest, OrderUpdate, Tick, Trade};

verus! {

#[derive(Debug, PartialEq, Eq)]
pub enum Event {
    MarketTick(Tick),
    OrderRequest(OrderRequest),
    OrderUpdate(OrderUpdate),
    Trade(Trade),
}

impl Event {
    /// The name of the event's kind.
    pub fn event_type(&self) -> (name: &'static str)
        ensures
            name@ == match self {
                Event::MarketTick(_) => "market_tick"@,
                Event::OrderRequest(_) => "order_request"@,
                Event::OrderUpdate(_) => "order_update"@,
                Event::Trade(_) => "trade"@,
            },
    {
        match self {
            Event::MarketTick(_) => "market_tick",
            Event::OrderRequest(_) => "order_request",
            Event::OrderUpdate(_) => "order_update",
            Event::Trade(_) => "trade",
        }
    }
}

} // verus!
