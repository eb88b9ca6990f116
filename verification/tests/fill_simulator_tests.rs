use renaissance_backtest::fill_simulator::SimpleFillSimulator;
use renaissance_backtest::model::{OrderRequest, Side, Tick};

fn tick(price: i64) -> Tick {
    Tick {
        symbol: "BTCUSDT".to_string(),
        price,
        quantity: 10,
        timestamp: 1,
    }
}

fn order(side: Side, price: i64, quantity: u64) -> OrderRequest {
    OrderRequest {
        symbol: "BTCUSDT".to_string(),
        side,
        price,
        quantity,
    }
}

#[test]
fn buy_limit_order_fills_when_limit_price_is_above_or_equal_market_price() {
    let request = order(Side::Buy, 100_000, 2);
    let fill = SimpleFillSimulator::fill_order(&request, &tick(99_000)).unwrap();

    assert_eq!(fill.symbol, "BTCUSDT");
    assert_eq!(fill.side, Side::Buy);
    assert_eq!(fill.price, 99_000);
    assert_eq!(fill.quantity, 2);
    assert_eq!(fill.timestamp, 1);
}

#[test]
fn buy_limit_order_does_not_fill_when_limit_price_is_below_market_price() {
    let request = order(Side::Buy, 98_000, 2);
    let fill = SimpleFillSimulator::fill_order(&request, &tick(99_000));

    assert_eq!(fill, None);
}

#[test]
fn sell_limit_order_fills_when_limit_price_is_below_or_equal_market_price() {
    let request = order(Side::Sell, 98_000, 2);
    let fill = SimpleFillSimulator::fill_order(&request, &tick(99_000)).unwrap();

    assert_eq!(fill.symbol, "BTCUSDT");
    assert_eq!(fill.side, Side::Sell);
    assert_eq!(fill.price, 99_000);
    assert_eq!(fill.quantity, 2);
    assert_eq!(fill.timestamp, 1);
}

#[test]
fn sell_limit_order_does_not_fill_when_limit_price_is_above_market_price() {
    let request = order(Side::Sell, 100_000, 2);
    let fill = SimpleFillSimulator::fill_order(&request, &tick(99_000));

    assert_eq!(fill, None);
}

#[test]
fn order_does_not_fill_when_symbol_is_different() {
    let request = OrderRequest {
        symbol: "ETHUSDT".to_string(),
        side: Side::Buy,
        price: 100_000,
        quantity: 2,
    };

    let fill = SimpleFillSimulator::fill_order(&request, &tick(99_000));

    assert_eq!(fill, None);
}

#[test]
fn fill_quantity_is_limited_by_tick_quantity() {
    let request = order(Side::Buy, 100_000, 20);
    let fill = SimpleFillSimulator::fill_order(&request, &tick(99_000)).unwrap();

    assert_eq!(fill.quantity, 10);
}

#[test]
fn limit_equal_to_market_price_fills_on_both_sides() {
    let buy = SimpleFillSimulator::fill_order(&order(Side::Buy, 99_000, 1), &tick(99_000));
    let sell = SimpleFillSimulator::fill_order(&order(Side::Sell, 99_000, 1), &tick(99_000));

    assert_eq!(buy.map(|f| f.price), Some(99_000));
    assert_eq!(sell.map(|f| f.price), Some(99_000));
}

#[test]
fn zero_quantity_tick_gives_an_empty_fill() {
    let empty_tick = Tick {
        symbol: "BTCUSDT".to_string(),
        price: 99_000,
        quantity: 0,
        timestamp: 7,
    };
    let fill = SimpleFillSimulator::fill_order(&order(Side::Buy, 100_000, 3), &empty_tick).unwrap();

    assert_eq!(fill.quantity, 0);
    assert_eq!(fill.timestamp, 7);
}
