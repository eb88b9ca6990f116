use renaissance_backtest::event::Event;
use renaissance_backtest::model::{OrderRequest, OrderStatus, OrderUpdate, Side, Tick, Trade};

#[test]
fn event_type_returns_market_tick() {
    let event = Event::MarketTick(Tick {
        symbol: String::from("BTCUSDT"),
        price: 100_000,
        quantity: 1,
        timestamp: 1_717_000_000,
    });

    assert_eq!(event.event_type(), "market_tick");
}

#[test]
fn event_type_returns_order_request() {
    let event = Event::OrderRequest(OrderRequest {
        symbol: String::from("BTCUSDT"),
        side: Side::Buy,
        price: 100_000,
        quantity: 1,
    });

    assert_eq!(event.event_type(), "order_request");
}

#[test]
fn event_type_returns_order_update_and_trade() {
    let update = Event::OrderUpdate(OrderUpdate {
        order_id: 1,
        status: OrderStatus::New,
        filled_quantity: 0,
        remaining_quantity: 1,
        timestamp: 0,
    });
    let trade = Event::Trade(Trade {
        trade_id: 1,
        buy_order_id: 1,
        sell_order_id: 2,
        symbol: String::from("BTCUSDT"),
        price: 100_000,
        quantity: 1,
        timestamp: 0,
    });

    assert_eq!(update.event_type(), "order_update");
    assert_eq!(trade.event_type(), "trade");
}
