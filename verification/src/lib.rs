pub mod model;
pub mod order_book;
pub mod event;
pub mod strategy;
pub mod engine;
pub mod fill_simulator;
pub mod portfolio;
pub mod backtest;
pub mod text;
pub mod market_data;
