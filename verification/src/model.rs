//! Core trading data: sides, order states, ticks, requests, orders, updates and trades.
use vstd::prelude::*;

verus! {

/// The direction of an order.
#[derive(Debug, Clone, Copy, PartialEq, Eq, Structural)]
pub enum Side {
    Buy,
    Sell,
}

/// The lifecycle state of an order.
#[derive(Debug, Clone, Copy, PartialEq, Eq, Structural)]
pub enum OrderStatus {
    New,
    PartiallyFilled,
    Filled,
    Cancelled,
    Rejected,
}

/// Why an order can no longer be cancelled.
#[derive(Debug, Clone, Copy, PartialEq, Eq, Structural)]
pub enum OrderError {
    Filled,
    Cancelled,
    Rejected,
}

impl OrderStatus {
    /// The reason an order in this state cannot be cancelled, if any:
    /// only `New` and `PartiallyFilled` orders are still live.
    pub open spec fn spec_cancel_error(self) -> Option<OrderError> {
        match self {
            OrderStatus::New => None,
            OrderStatus::PartiallyFilled => None,
            OrderStatus::Filled => Some(OrderError::Filled),
            OrderStatus::Cancelled => Some(OrderError::Cancelled),
            OrderStatus::Rejected => Some(OrderError::Rejected),
        }
    }

    pub fn cancel_error(&self) -> (result: Option<OrderError>)
        ensures
            result == self.spec_cancel_error(),
    {
        match self {
            OrderStatus::New => None,
            OrderStatus::PartiallyFilled => None,
            OrderStatus::Filled => Some(OrderError::Filled),
            OrderStatus::Cancelled => Some(OrderError::Cancelled),
            OrderStatus::Rejected => Some(OrderError::Rejected),
        }
    }
}

/// A market data observation.
#[derive(Debug, PartialEq, Eq)]
pub struct Tick {
    pub symbol: String,
    pub price: i64,
    pub quantity: u64,
    pub timestamp: u64,
}

/// Mathematical model of a tick.
pub struct TickView {
    pub timestamp: u64,
    pub symbol: Seq<char>,
    pub price: i64,
    pub quantity: u64,
}

impl View for Tick {
    type V = TickView;

    open spec fn view(&self) -> TickView {
        TickView {
            timestamp: self.timestamp,
            symbol: self.symbol@,
            price: self.price,
            quantity: self.quantity,
        }
    }
}

/// A strategy's intent to trade; it carries no id until the engine assigns one.
#[derive(Debug, PartialEq, Eq)]
pub struct OrderRequest {
    pub symbol: String,
    pub side: Side,
    pub price: i64,
    pub quantity: u64,
}

/// A resting order as held by the order book.
#[derive(Debug, PartialEq, Eq)]
pub struct Order {
    pub id: u64,
    pub symbol: String,
    pub side: Side,
    pub price: i64,
    pub quantity: u64,
    pub status: OrderStatus,
}

impl OrderRequest {
    /// The order that a request becomes once the engine gives it an id.
    pub open spec fn spec_into_order(self, order_id: u64) -> Order {
        Order {
            id: order_id,
            symbol: self.symbol,
            side: self.side,
            price: self.price,
            quantity: self.quantity,
            status: OrderStatus::New,
        }
    }

    pub fn into_order(self, order_id: u64) -> (order: Order)
        ensures
            order == self.spec_into_order(order_id),
    {
        Order {
            id: order_id,
            symbol: self.symbol,
            side: self.side,
            price: self.price,
            quantity: self.quantity,
            status: OrderStatus::New,
        }
    }
}

impl Order {
    /// The same order with another status.
    pub open spec fn with_status(self, status: OrderStatus) -> Order {
        Order { status, ..self }
    }

    pub fn fill(&mut self)
        ensures
            *final(self) == old(self).with_status(OrderStatus::Filled),
    {
        self.status = OrderStatus::Filled;
    }

    pub fn cancel(&mut self) -> (result: Result<(), OrderError>)
        ensures
            match old(self).status.spec_cancel_error() {
                None => result is Ok && *final(self) == old(self).with_status(OrderStatus::Cancelled),
                Some(err) => result == Err::<(), OrderError>(err) && *final(self) == *old(self),
            },
    {
        match self.status.cancel_error() {
            None => {
                self.status = OrderStatus::Cancelled;
                Ok(())
            },
            Some(err) => Err(err),
        }
    }
}

/// The state of an order after the engine has processed a request or a trade.
#[derive(Debug, PartialEq, Eq)]
pub struct OrderUpdate {
    pub order_id: u64,
    pub status: OrderStatus,
    pub filled_quantity: u64,
    pub remaining_quantity: u64,
    pub timestamp: u64,
}

/// An execution between a resting buy order and a resting sell order.
#[derive(Debug, PartialEq, Eq)]
pub struct Trade {
    pub trade_id: u64,
    pub buy_order_id: u64,
    pub sell_order_id: u64,
    pub symbol: String,
    pub price: i64,
    pub quantity: u64,
    pub timestamp: u64,
}

/// Cancelling is final: once an order has been cancelled, a second cancel fails.
pub proof fn lemma_cancel_is_final(order: Order)
    requires
        order.status.spec_cancel_error() is None,
    ensures
        order.with_status(OrderStatus::Cancelled).status.spec_cancel_error()
            == Some(OrderError::Cancelled),
{
}

/// Only live orders can be cancelled: a new or partially filled order can,
/// and the refusal of any other names its state (filled, cancelled or
/// rejected). Cancelling changes the state and nothing else.
pub proof fn lemma_cancel_rules(order: Order)
    ensures
        order.status.spec_cancel_error() is None <==> (order.status == OrderStatus::New
            || order.status == OrderStatus::PartiallyFilled),
        order.status == OrderStatus::Filled ==> order.status.spec_cancel_error() == Some(
            OrderError::Filled,
        ),
        order.status == OrderStatus::Cancelled ==> order.status.spec_cancel_error() == Some(
            OrderError::Cancelled,
        ),
        order.status == OrderStatus::Rejected ==> order.status.spec_cancel_error() == Some(
            OrderError::Rejected,
        ),
        ({
            let c = order.with_status(OrderStatus::Cancelled);
            &&& c.status == OrderStatus::Cancelled
            &&& c.id == order.id && c.symbol == order.symbol && c.side == order.side
            &&& c.price == order.price && c.quantity == order.quantity
        }),
{
}

/// A request becomes an order with the given id, the request's symbol,
/// side, price and quantity, and the state `New`.
pub proof fn lemma_into_order_fields(request: OrderRequest, order_id: u64)
    ensures
        ({
            let o = request.spec_into_order(order_id);
            &&& o.id == order_id
            &&& o.symbol == request.symbol
            &&& o.side == request.side
            &&& o.price == request.price
            &&& o.quantity == request.quantity
            &&& o.status == OrderStatus::New
        }),
{
}

} // verus!
