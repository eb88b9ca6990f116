use renaissance_backtest::model::{Side, Tick};
use renaissance_backtest::strategy::{DemoCrossStrategy, Strategy, ThresholdStrategy};

fn create_tick(symbol: &str, price: i64) -> Tick {
    Tick {
        symbol: String::from(symbol),
        price,
        quantity: 1,
        timestamp: 1_717_000_000,
    }
}

#[test]
fn strategy_generates_buy_order_when_price_is_below_threshold() {
    let mut strategy = ThresholdStrategy::new(String::from("BTCUSDT"), 99_000, 101_000, 1);

    let tick = create_tick("BTCUSDT", 98_000);

    let requests = strategy.on_tick(&tick);

    assert_eq!(requests.len(), 1);
    assert_eq!(requests[0].symbol, "BTCUSDT");
    assert_eq!(requests[0].side, Side::Buy);
    assert_eq!(requests[0].price, 98_000);
    assert_eq!(requests[0].quantity, 1);
}

#[test]
fn strategy_generates_sell_order_when_price_is_above_threshold() {
    let mut strategy = ThresholdStrategy::new(String::from("BTCUSDT"), 99_000, 101_000, 1);

    let tick = create_tick("BTCUSDT", 102_000);

    let requests = strategy.on_tick(&tick);

    assert_eq!(requests.len(), 1);
    assert_eq!(requests[0].side, Side::Sell);
    assert_eq!(requests[0].price, 102_000);
}

#[test]
fn strategy_generates_no_order_when_price_is_between_thresholds() {
    let mut strategy = ThresholdStrategy::new(String::from("BTCUSDT"), 99_000, 101_000, 1);

    let tick = create_tick("BTCUSDT", 100_000);

    let requests = strategy.on_tick(&tick);

    assert!(requests.is_empty());
}

#[test]
fn strategy_ignores_ticks_for_other_symbols() {
    let mut strategy = ThresholdStrategy::new(String::from("BTCUSDT"), 99_000, 101_000, 1);

    let tick = create_tick("ETHUSDT", 98_000);

    let requests = strategy.on_tick(&tick);

    assert!(requests.is_empty());
}

#[test]
fn demo_cross_strategy_generates_crossed_buy_then_sell_orders() {
    let mut strategy = DemoCrossStrategy::new();

    let tick1 = create_tick("BTCUSDT", 100_000);
    let tick2 = create_tick("BTCUSDT", 99_000);
    let tick3 = create_tick("BTCUSDT", 98_000);

    let requests1 = strategy.on_tick(&tick1);
    let requests2 = strategy.on_tick(&tick2);
    let requests3 = strategy.on_tick(&tick3);

    assert_eq!(requests1.len(), 1);
    assert_eq!(requests1[0].side, Side::Buy);
    assert_eq!(requests1[0].price, 100_000);
    assert_eq!(requests1[0].quantity, 2);

    assert_eq!(requests2.len(), 1);
    assert_eq!(requests2[0].side, Side::Sell);
    assert_eq!(requests2[0].price, 99_000);
    assert_eq!(requests2[0].quantity, 1);

    assert!(requests3.is_empty());
}

#[test]
fn threshold_strategy_trades_at_the_thresholds() {
    let mut strategy = ThresholdStrategy::new(String::from("BTCUSDT"), 99_000, 101_000, 3);

    let at_buy = strategy.on_tick(&create_tick("BTCUSDT", 99_000));
    let at_sell = strategy.on_tick(&create_tick("BTCUSDT", 101_000));
    let inside = strategy.on_tick(&create_tick("BTCUSDT", 99_001));

    assert_eq!(at_buy.len(), 1);
    assert_eq!(at_buy[0].side, Side::Buy);
    assert_eq!(at_buy[0].quantity, 3);
    assert_eq!(at_sell.len(), 1);
    assert_eq!(at_sell[0].side, Side::Sell);
    assert!(inside.is_empty());
}

#[test]
fn demo_cross_strategy_uses_the_tick_symbol() {
    let mut strategy = DemoCrossStrategy::new();

    let requests = strategy.on_tick(&create_tick("ETHUSDT", 3_000));

    assert_eq!(requests.len(), 1);
    assert_eq!(requests[0].symbol, "ETHUSDT");
    assert_eq!(requests[0].side, Side::Buy);
}
