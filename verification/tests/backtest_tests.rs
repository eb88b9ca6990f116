use renaissance_backtest::backtest::report::BacktestReport;
use renaissance_backtest::backtest::{
    calculate_fee, calculate_max_drawdown, checked_max_drawdown, BacktestEngine, BacktestResult,
    EquityPoint,
};
use renaissance_backtest::model::Tick;
use renaissance_backtest::portfolio::Position;
use renaissance_backtest::strategy::DemoCrossStrategy;

fn position_of(positions: &[Position], symbol: &str) -> Option<i64> {
    positions
        .iter()
        .find(|position| position.symbol == symbol)
        .map(|position| position.quantity)
}

fn demo_ticks() -> Vec<Tick> {
    vec![
        Tick {
            symbol: "BTCUSDT".to_string(),
            price: 100_000,
            quantity: 1,
            timestamp: 1,
        },
        Tick {
            symbol: "BTCUSDT".to_string(),
            price: 99_000,
            quantity: 1,
            timestamp: 2,
        },
    ]
}

fn reversed_demo_ticks() -> Vec<Tick> {
    vec![
        Tick {
            symbol: "BTCUSDT".to_string(),
            price: 99_000,
            quantity: 1,
            timestamp: 2,
        },
        Tick {
            symbol: "BTCUSDT".to_string(),
            price: 100_000,
            quantity: 1,
            timestamp: 1,
        },
    ]
}

#[test]
fn tests_backtest_engine_runs_ticks_through_strategy_and_engine() {
    let ticks = demo_ticks();

    let strategy = DemoCrossStrategy::new();
    let mut backtest_engine = BacktestEngine::new(strategy);

    let result = backtest_engine.run(&ticks).unwrap();

    assert_eq!(result.tick_count, 2);
    assert_eq!(result.order_request_count, 2);
    assert_eq!(result.trade_count, 1);
    assert_eq!(result.order_update_count, 4);
    assert_eq!(result.event_count, 5);

    assert_eq!(result.simulated_fill_count, 2);
    assert_eq!(result.initial_cash, 0);
    assert_eq!(result.final_cash, -1_000);
    assert_eq!(result.final_equity, -1_000);
    assert_eq!(result.total_pnl, -1_000);
    assert_eq!(result.fee_paid, 0);
    assert_eq!(result.max_drawdown, 1_000);
    assert_eq!(result.portfolio_trade_count, 2);
    assert_eq!(position_of(&result.final_positions, "BTCUSDT"), Some(0));

    assert_eq!(result.equity_curve.len(), 2);

    assert_eq!(
        result.equity_curve[0],
        EquityPoint {
            timestamp: 1,
            equity: 0,
        }
    );

    assert_eq!(
        result.equity_curve[1],
        EquityPoint {
            timestamp: 2,
            equity: -1_000,
        }
    );
}

#[test]
fn tests_backtest_engine_sorts_ticks_by_timestamp() {
    let ticks = reversed_demo_ticks();

    let strategy = DemoCrossStrategy::new();
    let mut backtest_engine = BacktestEngine::new(strategy);

    let result = backtest_engine.run(&ticks).unwrap();

    assert_eq!(result.tick_count, 2);
    assert_eq!(result.order_request_count, 2);
    assert_eq!(result.trade_count, 1);
    assert_eq!(result.order_update_count, 4);
    assert_eq!(result.event_count, 5);

    assert_eq!(result.simulated_fill_count, 2);
    assert_eq!(result.initial_cash, 0);
    assert_eq!(result.final_cash, -1_000);
    assert_eq!(result.final_equity, -1_000);
    assert_eq!(result.total_pnl, -1_000);
    assert_eq!(result.fee_paid, 0);
    assert_eq!(result.max_drawdown, 1_000);
    assert_eq!(result.portfolio_trade_count, 2);
    assert_eq!(position_of(&result.final_positions, "BTCUSDT"), Some(0));

    assert_eq!(result.equity_curve.len(), 2);

    assert_eq!(
        result.equity_curve[0],
        EquityPoint {
            timestamp: 1,
            equity: 0,
        }
    );

    assert_eq!(
        result.equity_curve[1],
        EquityPoint {
            timestamp: 2,
            equity: -1_000,
        }
    );
}

#[test]
fn calculate_max_drawdown_returns_zero_for_empty_curve() {
    let equity_curve = vec![];

    assert_eq!(calculate_max_drawdown(100_000, &equity_curve), 0);
}

#[test]
fn calculate_max_drawdown_returns_zero_when_equity_only_rises() {
    let equity_curve = vec![
        EquityPoint {
            timestamp: 1,
            equity: 0,
        },
        EquityPoint {
            timestamp: 2,
            equity: 500,
        },
        EquityPoint {
            timestamp: 3,
            equity: 1_000,
        },
    ];

    assert_eq!(calculate_max_drawdown(0, &equity_curve), 0);
}

#[test]
fn calculate_max_drawdown_tracks_largest_drop_from_peak() {
    let equity_curve = vec![
        EquityPoint {
            timestamp: 1,
            equity: 0,
        },
        EquityPoint {
            timestamp: 2,
            equity: 1_000,
        },
        EquityPoint {
            timestamp: 3,
            equity: 400,
        },
        EquityPoint {
            timestamp: 4,
            equity: 800,
        },
        EquityPoint {
            timestamp: 5,
            equity: -200,
        },
    ];

    assert_eq!(calculate_max_drawdown(0, &equity_curve), 1_200);
}

#[test]
fn backtest_engine_calculates_total_pnl_from_initial_cash() {
    let ticks = demo_ticks();

    let strategy = DemoCrossStrategy::new();
    let mut backtest_engine = BacktestEngine::new_with_initial_cash(strategy, 100_000);

    let result = backtest_engine.run(&ticks).unwrap();

    assert_eq!(result.initial_cash, 100_000);
    assert_eq!(result.final_cash, 99_000);
    assert_eq!(result.final_equity, 99_000);
    assert_eq!(result.total_pnl, -1_000);
    assert_eq!(result.fee_paid, 0);
    assert_eq!(result.max_drawdown, 1_000);

    assert_eq!(result.simulated_fill_count, 2);
    assert_eq!(result.portfolio_trade_count, 2);
    assert_eq!(position_of(&result.final_positions, "BTCUSDT"), Some(0));

    assert_eq!(result.equity_curve.len(), 2);

    assert_eq!(
        result.equity_curve[0],
        EquityPoint {
            timestamp: 1,
            equity: 100_000,
        }
    );

    assert_eq!(
        result.equity_curve[1],
        EquityPoint {
            timestamp: 2,
            equity: 99_000,
        }
    );
}

#[test]
fn backtest_engine_applies_fee_to_simulated_fills() {
    let ticks = demo_ticks();

    let strategy = DemoCrossStrategy::new();

    // 10 bps = 0.10%
    let mut backtest_engine = BacktestEngine::new_with_initial_cash_and_fee(strategy, 100_000, 10);

    let result = backtest_engine.run(&ticks).unwrap();

    assert_eq!(result.initial_cash, 100_000);

    // buy fee: 100000 * 10 / 10000 = 100
    // sell fee: 99000 * 10 / 10000 = 99
    assert_eq!(result.fee_paid, 199);

    assert_eq!(result.final_cash, 98_801);
    assert_eq!(result.final_equity, 98_801);
    assert_eq!(result.total_pnl, -1_199);
    assert_eq!(result.max_drawdown, 1_199);

    assert_eq!(result.simulated_fill_count, 2);
    assert_eq!(result.portfolio_trade_count, 2);
    assert_eq!(position_of(&result.final_positions, "BTCUSDT"), Some(0));

    assert_eq!(result.equity_curve.len(), 2);

    assert_eq!(
        result.equity_curve[0],
        EquityPoint {
            timestamp: 1,
            equity: 99_900,
        }
    );

    assert_eq!(
        result.equity_curve[1],
        EquityPoint {
            timestamp: 2,
            equity: 98_801,
        }
    );
}

#[test]
fn calculate_max_drawdown_uses_initial_equity_as_starting_peak() {
    let equity_curve = vec![
        EquityPoint {
            timestamp: 1,
            equity: 99_900,
        },
        EquityPoint {
            timestamp: 2,
            equity: 98_801,
        },
    ];

    assert_eq!(calculate_max_drawdown(100_000, &equity_curve), 1_199);
}

#[test]
fn backtest_result_can_be_converted_into_report() {
    let ticks = demo_ticks();

    let strategy = DemoCrossStrategy::new();
    let mut backtest_engine = BacktestEngine::new_with_initial_cash_and_fee(strategy, 100_000, 10);

    let result = backtest_engine.run(&ticks).unwrap();
    let report = BacktestReport::from(result);

    assert_eq!(report.summary.tick_count, 2);
    assert_eq!(report.summary.order_request_count, 2);
    assert_eq!(report.summary.engine_trade_count, 1);
    assert_eq!(report.summary.engine_order_update_count, 4);
    assert_eq!(report.summary.engine_event_count, 5);
    assert_eq!(report.summary.simulated_fill_count, 2);
    assert_eq!(report.summary.portfolio_trade_count, 2);

    assert_eq!(report.metrics.initial_cash, 100_000);
    assert_eq!(report.metrics.final_cash, 98_801);
    assert_eq!(report.metrics.final_equity, 98_801);
    assert_eq!(report.metrics.total_pnl, -1_199);
    assert_eq!(report.metrics.fee_paid, 199);
    assert_eq!(report.metrics.max_drawdown, 1_199);

    assert_eq!(report.positions.len(), 1);
    assert_eq!(report.positions[0].symbol, "BTCUSDT");
    assert_eq!(report.positions[0].quantity, 0);

    assert_eq!(report.equity_curve.len(), 2);
    assert_eq!(report.equity_curve[0].timestamp, 1);
    assert_eq!(report.equity_curve[0].equity, 99_900);
    assert_eq!(report.equity_curve[1].timestamp, 2);
    assert_eq!(report.equity_curve[1].equity, 98_801);
}

#[test]
fn backtest_report_sorts_positions_by_symbol() {
    let final_positions = vec![
        Position {
            symbol: "ETHUSDT".to_string(),
            quantity: 2,
        },
        Position {
            symbol: "BTCUSDT".to_string(),
            quantity: 1,
        },
    ];

    let result = BacktestResult {
        tick_count: 0,
        order_request_count: 0,
        trade_count: 0,
        order_update_count: 0,
        event_count: 0,
        simulated_fill_count: 0,
        initial_cash: 0,
        final_cash: 0,
        final_equity: 0,
        total_pnl: 0,
        fee_paid: 0,
        max_drawdown: 0,
        equity_curve: Vec::new(),
        portfolio_trade_count: 0,
        final_positions,
    };

    let report = BacktestReport::from(result);

    assert_eq!(report.positions[0].symbol, "BTCUSDT");
    assert_eq!(report.positions[0].quantity, 1);
    assert_eq!(report.positions[1].symbol, "ETHUSDT");
    assert_eq!(report.positions[1].quantity, 2);
}

#[test]
fn backtest_backtest_engine_runs_ticks_through_strategy_and_engine() {
    let ticks = vec![
        Tick {
            symbol: "BTCUSDT".to_string(),
            price: 100_000,
            quantity: 1,
            timestamp: 1,
        },
        Tick {
            symbol: "BTCUSDT".to_string(),
            price: 99_000,
            quantity: 1,
            timestamp: 2,
        },
    ];

    let strategy = DemoCrossStrategy::new();
    let mut backtest_engine = BacktestEngine::new(strategy);

    let result = backtest_engine.run(&ticks).unwrap();

    assert_eq!(result.tick_count, 2);
    assert_eq!(result.order_request_count, 2);
    assert_eq!(result.trade_count, 1);
    assert_eq!(result.order_update_count, 4);
    assert_eq!(result.event_count, 5);

    assert_eq!(result.simulated_fill_count, 2);
    assert_eq!(result.final_cash, -1_000);
    assert_eq!(result.final_equity, -1_000);
    assert_eq!(result.portfolio_trade_count, 2);
    assert_eq!(position_of(&result.final_positions, "BTCUSDT"), Some(0));
}

#[test]
fn backtest_backtest_engine_sorts_ticks_by_timestamp() {
    let ticks = vec![
        Tick {
            symbol: "BTCUSDT".to_string(),
            price: 99_000,
            quantity: 1,
            timestamp: 2,
        },
        Tick {
            symbol: "BTCUSDT".to_string(),
            price: 100_000,
            quantity: 1,
            timestamp: 1,
        },
    ];

    let strategy = DemoCrossStrategy::new();
    let mut backtest_engine = BacktestEngine::new(strategy);

    let result = backtest_engine.run(&ticks).unwrap();

    assert_eq!(result.tick_count, 2);
    assert_eq!(result.order_request_count, 2);
    assert_eq!(result.trade_count, 1);
    assert_eq!(result.order_update_count, 4);
    assert_eq!(result.event_count, 5);

    assert_eq!(result.simulated_fill_count, 2);
    assert_eq!(result.final_cash, -1_000);
    assert_eq!(result.final_equity, -1_000);
    assert_eq!(result.portfolio_trade_count, 2);
    assert_eq!(position_of(&result.final_positions, "BTCUSDT"), Some(0));
}

#[test]
fn backtest_with_no_ticks_reports_the_initial_cash() {
    let mut backtest_engine = BacktestEngine::new_with_initial_cash(DemoCrossStrategy::new(), 500);

    let result = backtest_engine.run(&[]).unwrap();

    assert_eq!(result.tick_count, 0);
    assert_eq!(result.event_count, 0);
    assert_eq!(result.final_cash, 500);
    assert_eq!(result.final_equity, 500);
    assert_eq!(result.total_pnl, 0);
    assert_eq!(result.max_drawdown, 0);
    assert!(result.equity_curve.is_empty());
    assert!(result.final_positions.is_empty());
}

#[test]
fn backtest_replays_ticks_with_equal_timestamps_in_input_order() {
    let ticks = vec![
        Tick {
            symbol: "BTCUSDT".to_string(),
            price: 100_000,
            quantity: 1,
            timestamp: 5,
        },
        Tick {
            symbol: "BTCUSDT".to_string(),
            price: 99_000,
            quantity: 1,
            timestamp: 5,
        },
    ];
    let mut backtest_engine = BacktestEngine::new(DemoCrossStrategy::new());

    let result = backtest_engine.run(&ticks).unwrap();

    assert_eq!(result.final_cash, -1_000);
    assert_eq!(result.equity_curve[0], EquityPoint { timestamp: 5, equity: 0 });
    assert_eq!(result.equity_curve[1], EquityPoint { timestamp: 5, equity: -1_000 });
}

#[test]
fn event_counts_add_up() {
    let mut backtest_engine = BacktestEngine::new(DemoCrossStrategy::new());

    let result = backtest_engine.run(&demo_ticks()).unwrap();

    assert_eq!(result.event_count, result.trade_count + result.order_update_count);
    assert_eq!(result.total_pnl, result.final_equity - result.initial_cash);
}

#[test]
fn calculate_fee_truncates_toward_zero() {
    assert_eq!(calculate_fee(100_000, 1, 10), 100);
    assert_eq!(calculate_fee(99_000, 1, 10), 99);
    assert_eq!(calculate_fee(999, 1, 10), 0);
    assert_eq!(calculate_fee(-999, 1, 10), 0);
    assert_eq!(calculate_fee(-100_000, 3, 10), -300);
    assert_eq!(calculate_fee(100_000, 2, 0), 0);
}

#[test]
fn max_drawdown_never_goes_below_zero_and_measures_from_running_peak() {
    let curve = vec![
        EquityPoint { timestamp: 1, equity: 50 },
        EquityPoint { timestamp: 2, equity: 300 },
        EquityPoint { timestamp: 3, equity: 250 },
    ];

    assert_eq!(calculate_max_drawdown(100, &curve), 50);
    assert_eq!(calculate_max_drawdown(0, &curve), 50);
    assert_eq!(checked_max_drawdown(100, &curve), Some(50));
    assert_eq!(
        checked_max_drawdown(i128::MAX, &[EquityPoint { timestamp: 1, equity: i128::MIN }]),
        None
    );
}

#[test]
fn report_keeps_the_equity_curve_and_counts() {
    let mut backtest_engine = BacktestEngine::new_with_initial_cash(DemoCrossStrategy::new(), 100_000);
    let result = backtest_engine.run(&demo_ticks()).unwrap();
    let curve = result.equity_curve.clone();

    let report = BacktestReport::from(result);

    assert_eq!(report.equity_curve, curve);
    assert_eq!(report.summary.engine_event_count, 5);
    assert_eq!(report.metrics.total_pnl, -1_000);
}

#[test]
fn permuted_ticks_with_distinct_times_give_the_same_result() {
    let tick = |price: i64, timestamp: u64| Tick {
        symbol: "BTCUSDT".to_string(),
        price,
        quantity: 1,
        timestamp,
    };
    let ordered = vec![tick(100_000, 1), tick(99_000, 2), tick(98_500, 3)];
    let shuffled = vec![tick(98_500, 3), tick(100_000, 1), tick(99_000, 2)];

    let first = BacktestEngine::new_with_initial_cash_and_fee(DemoCrossStrategy::new(), 1_000, 10)
        .run(&ordered)
        .unwrap();
    let second = BacktestEngine::new_with_initial_cash_and_fee(DemoCrossStrategy::new(), 1_000, 10)
        .run(&shuffled)
        .unwrap();

    assert_eq!(first, second);
    assert_eq!(first.tick_count, 3);
    assert_eq!(first.order_request_count, 2);
}

#[test]
fn last_equity_point_is_the_final_equity_and_fills_are_portfolio_trades() {
    let mut backtest_engine = BacktestEngine::new_with_initial_cash_and_fee(DemoCrossStrategy::new(), 100_000, 10);

    let result = backtest_engine.run(&demo_ticks()).unwrap();

    assert_eq!(result.equity_curve.last().unwrap().equity, result.final_equity);
    assert_eq!(result.portfolio_trade_count, result.simulated_fill_count);
    assert!(result.simulated_fill_count <= result.order_request_count);
}
