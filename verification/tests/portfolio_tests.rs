use renaissance_backtest::model::Side;
use renaissance_backtest::portfolio::{Portfolio, Position};

fn last_prices(symbol: &str, price: i64) -> Vec<(String, i64)> {
    let mut prices = Vec::new();
    prices.push((symbol.to_string(), price));
    prices
}

#[test]
fn portfolio_apply_buy_fill_increases_position_and_decreases_cash() {
    let mut portfolio = Portfolio::new();

    portfolio.apply_fill("BTCUSDT", Side::Buy, 100_000, 2);

    assert_eq!(portfolio.position_quantity("BTCUSDT"), 2);
    assert_eq!(portfolio.cash(), -200_000);
    assert_eq!(portfolio.trade_count(), 1);
}

#[test]
fn portfolio_apply_sell_fill_decreases_position_and_increases_cash() {
    let mut portfolio = Portfolio::new();

    portfolio.apply_fill("BTCUSDT", Side::Sell, 100_000, 2);

    assert_eq!(portfolio.position_quantity("BTCUSDT"), -2);
    assert_eq!(portfolio.cash(), 200_000);
    assert_eq!(portfolio.trade_count(), 1);
}

#[test]
fn portfolio_tracks_multiple_symbols() {
    let mut portfolio = Portfolio::new();

    portfolio.apply_fill("BTCUSDT", Side::Buy, 100_000, 2);
    portfolio.apply_fill("ETHUSDT", Side::Sell, 3_000, 1);

    assert_eq!(portfolio.position_quantity("BTCUSDT"), 2);
    assert_eq!(portfolio.position_quantity("ETHUSDT"), -1);
    assert_eq!(portfolio.cash(), -197_000);
    assert_eq!(portfolio.trade_count(), 2);
}

#[test]
fn portfolio_returns_zero_for_missing_position() {
    let portfolio = Portfolio::new();

    assert_eq!(portfolio.position_quantity("BTCUSDT"), 0);
}

#[test]
fn portfolio_can_start_with_initial_cash() {
    let portfolio = Portfolio::with_initial_cash(100_000);

    assert_eq!(portfolio.initial_cash(), 100_000);
    assert_eq!(portfolio.cash(), 100_000);
    assert_eq!(portfolio.trade_count(), 0);
}


#[test]
fn portfolio_equity_marks_position_to_last_price() {
    let mut portfolio = Portfolio::new();

    portfolio.apply_fill("BTCUSDT", Side::Buy, 100_000, 1);

    assert_eq!(portfolio.cash(), -100_000);
    assert_eq!(portfolio.position_quantity("BTCUSDT"), 1);
    assert_eq!(portfolio.equity(&last_prices("BTCUSDT", 105_000)), 5_000);
}

#[test]
fn portfolio_equity_marks_short_position_to_last_price() {
    let mut portfolio = Portfolio::new();

    portfolio.apply_fill("BTCUSDT", Side::Sell, 100_000, 1);

    assert_eq!(portfolio.cash(), 100_000);
    assert_eq!(portfolio.position_quantity("BTCUSDT"), -1);
    assert_eq!(portfolio.equity(&last_prices("BTCUSDT", 95_000)), 5_000);
}


#[test]
fn portfolio_apply_buy_fill_with_fee_decreases_cash_by_notional_plus_fee() {
    let mut portfolio = Portfolio::with_initial_cash(100_000);

    portfolio.apply_fill_with_fee("BTCUSDT", Side::Buy, 100_000, 1, 100);

    assert_eq!(portfolio.position_quantity("BTCUSDT"), 1);
    assert_eq!(portfolio.cash(), -100);
    assert_eq!(portfolio.fee_paid(), 100);
    assert_eq!(portfolio.trade_count(), 1);
}

#[test]
fn portfolio_apply_sell_fill_with_fee_increases_cash_by_notional_minus_fee() {
    let mut portfolio = Portfolio::with_initial_cash(0);

    portfolio.apply_fill_with_fee("BTCUSDT", Side::Sell, 100_000, 1, 100);

    assert_eq!(portfolio.position_quantity("BTCUSDT"), -1);
    assert_eq!(portfolio.cash(), 99_900);
    assert_eq!(portfolio.fee_paid(), 100);
    assert_eq!(portfolio.trade_count(), 1);
}

#[test]
fn portfolio_equity_ignores_prices_of_symbols_not_held_and_zeroes_missing_prices() {
    let mut portfolio = Portfolio::with_initial_cash(1_000);

    portfolio.apply_fill("BTCUSDT", Side::Buy, 100, 2);
    portfolio.apply_fill("ETHUSDT", Side::Buy, 10, 5);

    let prices = vec![(String::from("BTCUSDT"), 150), (String::from("SOLUSDT"), 7)];

    assert_eq!(portfolio.cash(), 750);
    assert_eq!(portfolio.equity(&prices), 1_050);
    assert_eq!(portfolio.try_equity(&prices), Some(1_050));
}

#[test]
fn portfolio_round_trip_at_one_price_costs_only_fees() {
    let mut portfolio = Portfolio::with_initial_cash(10_000);

    portfolio.apply_fill_with_fee("BTCUSDT", Side::Buy, 2_500, 2, 5);
    portfolio.apply_fill_with_fee("BTCUSDT", Side::Sell, 2_500, 2, 5);

    assert_eq!(portfolio.position_quantity("BTCUSDT"), 0);
    assert_eq!(portfolio.cash(), 9_990);
    assert_eq!(portfolio.fee_paid(), 10);
    assert_eq!(portfolio.trade_count(), 2);
    assert_eq!(portfolio.equity(&last_prices("BTCUSDT", 1)), 9_990);
}

#[test]
fn portfolio_position_quantities_lists_symbols_in_first_trade_order() {
    let mut portfolio = Portfolio::new();

    portfolio.apply_fill("ETHUSDT", Side::Sell, 3_000, 1);
    portfolio.apply_fill("BTCUSDT", Side::Buy, 100_000, 2);
    portfolio.apply_fill("ETHUSDT", Side::Buy, 3_000, 4);

    assert_eq!(
        portfolio.position_quantities(),
        vec![
            Position {
                symbol: String::from("ETHUSDT"),
                quantity: 3,
            },
            Position {
                symbol: String::from("BTCUSDT"),
                quantity: 2,
            },
        ]
    );
}

#[test]
fn portfolio_refuses_a_fill_that_leaves_the_integers() {
    let mut portfolio = Portfolio::new();

    portfolio.apply_fill("BTCUSDT", Side::Buy, 0, 1);

    assert!(portfolio.can_apply_fill("BTCUSDT", Side::Buy, 100, 1, 0));
    assert!(!portfolio.can_apply_fill("BTCUSDT", Side::Buy, 0, i64::MAX as u64, 0));
    assert!(portfolio.can_apply_fill("ETHUSDT", Side::Buy, 0, i64::MAX as u64, 0));
    assert!(!portfolio.can_apply_fill("BTCUSDT", Side::Buy, 1, 1, i128::MAX));
}

#[test]
fn portfolio_try_equity_reports_overflow() {
    let mut portfolio = Portfolio::with_initial_cash(i128::MAX - 1);

    portfolio.apply_fill("BTCUSDT", Side::Sell, 0, 1);

    assert_eq!(portfolio.try_equity(&last_prices("BTCUSDT", -5)), None);
    assert_eq!(portfolio.try_equity(&last_prices("BTCUSDT", -1)), Some(i128::MAX));
}

#[test]
fn positions_are_the_sums_of_signed_fill_quantities() {
    let mut portfolio = Portfolio::new();

    portfolio.apply_fill_with_fee("BTCUSDT", Side::Buy, 10, 5, 1);
    portfolio.apply_fill_with_fee("ETHUSDT", Side::Sell, 3, 2, 1);
    portfolio.apply_fill_with_fee("BTCUSDT", Side::Sell, 11, 7, 1);
    portfolio.apply_fill_with_fee("BTCUSDT", Side::Buy, 12, 1, 1);

    assert_eq!(portfolio.position_quantity("BTCUSDT"), 5 - 7 + 1);
    assert_eq!(portfolio.position_quantity("ETHUSDT"), -2);
    assert_eq!(portfolio.fee_paid(), 4);
    assert_eq!(portfolio.trade_count(), 4);
    assert_eq!(portfolio.cash(), -50 - 1 + 6 - 1 + 77 - 1 - 12 - 1);
}

#[test]
fn fresh_portfolio_cash_after_fills_is_start_minus_buys_plus_sells_minus_fees() {
    let mut portfolio = Portfolio::with_initial_cash(1_000);

    portfolio.apply_fill_with_fee("BTCUSDT", Side::Buy, 20, 3, 2);
    portfolio.apply_fill("ETHUSDT", Side::Sell, 7, 4);

    assert_eq!(portfolio.cash(), 1_000 - 60 - 2 + 28);
    assert_eq!(portfolio.initial_cash(), 1_000);
    assert_eq!(portfolio.position_quantity("SOLUSDT"), 0);
}
