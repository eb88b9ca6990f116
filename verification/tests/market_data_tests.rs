use renaissance_backtest::market_data::{MarketDataError, MarketDataSimulator};
use renaissance_backtest::model::Tick;

fn create_tick(price: i64, timestamp: u64) -> Tick {
    Tick {
        symbol: String::from("BTCUSDT"),
        price,
        quantity: 1,
        timestamp,
    }
}

#[test]
fn new_creates_market_data_simulator_with_ticks() {
    let simulator = MarketDataSimulator::new(vec![create_tick(100_000, 1), create_tick(99_000, 2)]);

    assert_eq!(simulator.len(), 2);
    assert!(!simulator.is_empty());
}

#[test]
fn demo_cross_ticks_contains_two_ticks() {
    let simulator = MarketDataSimulator::demo_cross_ticks();

    assert_eq!(simulator.len(), 2);
    assert!(!simulator.is_empty());
}

#[test]
fn from_csv_str_loads_ticks() {
    let content = "\
timestamp,symbol,price,quantity
1,BTCUSDT,100000,1
2,BTCUSDT,99000,2
";

    let simulator = MarketDataSimulator::from_csv_str(content).unwrap();

    assert_eq!(simulator.len(), 2);
    assert!(!simulator.is_empty());
}

#[test]
fn from_csv_str_rejects_invalid_header() {
    let content = "\
time,symbol,price,quantity
1,BTCUSDT,100000,1
";

    let result = MarketDataSimulator::from_csv_str(content);

    assert_eq!(result.err(), Some(MarketDataError::InvalidHeader));
}

#[test]
fn from_csv_str_rejects_invalid_price() {
    let content = "\
timestamp,symbol,price,quantity
1,BTCUSDT,not_a_price,1
";

    let result = MarketDataSimulator::from_csv_str(content);

    assert_eq!(result.err(), Some(MarketDataError::InvalidPrice { line: 2 }));
}

#[test]
fn from_csv_str_keeps_the_values_of_each_line() {
    let content = "timestamp,symbol,price,quantity\n 7 , ETHUSDT ,-15, +3 \n8,BTCUSDT,+20,0";

    let ticks = MarketDataSimulator::from_csv_str(content).unwrap().into_ticks();

    assert_eq!(
        ticks,
        vec![
            Tick {
                symbol: String::from("ETHUSDT"),
                price: -15,
                quantity: 3,
                timestamp: 7,
            },
            Tick {
                symbol: String::from("BTCUSDT"),
                price: 20,
                quantity: 0,
                timestamp: 8,
            },
        ]
    );
}

#[test]
fn from_csv_str_skips_blank_lines_and_counts_them() {
    let content = "timestamp,symbol,price,quantity\r\n\r\n1,BTCUSDT,100,1\r\n   \n2,BTCUSDT,x,1\n";

    let result = MarketDataSimulator::from_csv_str(content);

    assert_eq!(result.err(), Some(MarketDataError::InvalidPrice { line: 5 }));
}

#[test]
fn from_csv_str_trims_unicode_white_space() {
    let content = "\u{2003}timestamp,symbol,price,quantity\u{00a0}\n\u{3000}1,BTCUSDT,5,1\u{2009}\n";

    let ticks = MarketDataSimulator::from_csv_str(content).unwrap().into_ticks();

    assert_eq!(ticks.len(), 1);
    assert_eq!(ticks[0].price, 5);
}

#[test]
fn from_csv_str_reports_each_error_kind() {
    let header = "timestamp,symbol,price,quantity\n";

    let columns = MarketDataSimulator::from_csv_str(&format!("{header}1,BTCUSDT,5\n"));
    let timestamp = MarketDataSimulator::from_csv_str(&format!("{header}-1,BTCUSDT,5,1\n"));
    let quantity = MarketDataSimulator::from_csv_str(&format!("{header}1,BTCUSDT,5,-1\n"));
    let too_large = MarketDataSimulator::from_csv_str(&format!("{header}1,BTCUSDT,9223372036854775808,1\n"));
    let empty = MarketDataSimulator::from_csv_str("");

    assert_eq!(columns.err(), Some(MarketDataError::InvalidColumnCount { line: 2, actual: 3 }));
    assert_eq!(timestamp.err(), Some(MarketDataError::InvalidTimestamp { line: 2 }));
    assert_eq!(quantity.err(), Some(MarketDataError::InvalidQuantity { line: 2 }));
    assert_eq!(too_large.err(), Some(MarketDataError::InvalidPrice { line: 2 }));
    assert_eq!(empty.err(), Some(MarketDataError::InvalidHeader));
}

#[test]
fn from_csv_str_accepts_extreme_values() {
    let content = "timestamp,symbol,price,quantity\n18446744073709551615,BTCUSDT,-9223372036854775808,18446744073709551615\n";

    let ticks = MarketDataSimulator::from_csv_str(content).unwrap().into_ticks();

    assert_eq!(ticks[0].timestamp, u64::MAX);
    assert_eq!(ticks[0].price, i64::MIN);
    assert_eq!(ticks[0].quantity, u64::MAX);
}

#[test]
fn from_csv_str_with_only_a_header_gives_no_ticks() {
    let simulator = MarketDataSimulator::from_csv_str("timestamp,symbol,price,quantity").unwrap();

    assert!(simulator.is_empty());
}

#[test]
fn from_csv_str_trims_only_unicode_white_space() {
    let next_line = "timestamp,symbol,price,quantity\n1,BTCUSDT,\u{85}7\u{3000},1\n";
    let zero_width = "timestamp,symbol,price,quantity\n1,BTCUSDT,\u{200b}7,1\n";

    let ticks = MarketDataSimulator::from_csv_str(next_line).unwrap().into_ticks();
    let refused = MarketDataSimulator::from_csv_str(zero_width);

    assert_eq!(ticks[0].price, 7);
    assert_eq!(refused.err(), Some(MarketDataError::InvalidPrice { line: 2 }));
}
