# renaissance_backtest

An event-driven trading backtest library, verified with Verus.

- `src/` is the library: the data model, a
  limit order book with price-time priority and its matching, the engine that
  turns order requests into trades and order updates, strategies, a simulated
  fill model, a portfolio with cash, positions and fees, a CSV tick reader,
  and the backtest replay with its report and drawdown metrics. Laws of the
  order book, the engine, the portfolio and the backtest are stated as public
  proof functions next to the code they speak of. Every function is verified
  except three small trusted wrappers of std functions (the stable sort of
  ticks by timestamp, `char::is_whitespace` and `String::push`), whose
  contracts state what std documents.
- `app/` runs the pipeline as Tokio tasks joined by channels (market data,
  strategy, execution, event logger) and reads tick files from disk.
- `tests/` exercises the library on concrete values.
