//! Replays ticks, oldest first, through a strategy, the engine and a
//! simulated portfolio, and reports counts, cash, equity and drawdown.
use vstd::prelude::*;

pub mod laws;
pub mod metrics;
pub mod report;
pub mod result;

pub use metrics::{
    calculate_fee, calculate_max_drawdown, checked_fee, checked_max_drawdown, drawdowns_in_range,
    fee_in_range, fee_of, max_drawdown_of, running_peak,
};
pub use result::{BacktestResult, EquityPoint};

use crate::engine::{Engine, EngineError, EngineView};
use crate::event::Event;
use crate::fill_simulator::SimpleFillSimulator;
use crate::model::{OrderRequest, Tick};
use crate::portfolio::{
    in_i128, lemma_table_index, lemma_table_set_unique, positions_table, prices_table, table_has,
    table_index, table_set, table_unique, Portfolio, PortfolioView, SymbolTable,
};
use crate::strategy::Strategy;

verus! {

#[derive(Debug, Clone, Copy, PartialEq, Eq, Structural)]
pub enum BacktestError {
    /// A count, an amount of cash, an equity or a drawdown left its machine integer.
    ArithmeticOverflow,
    /// The engine refused an order request.
    Engine(EngineError),
}

/// `output` is `input` sorted by timestamp, ties kept in input order.
pub open spec fn stable_sorted_by_timestamp(input: Seq<Tick>, output: Seq<Tick>) -> bool {
    &&& output.len() == input.len()
    &&& forall|i: int, j: int|
        0 <= i < j < output.len() ==> (#[trigger] output[i]).timestamp <= (
        #[trigger] output[j]).timestamp
    &&& forall|k: u64| #[trigger] ticks_at(output, k) == ticks_at(input, k)
}

/// The ticks with this timestamp, in order.
pub open spec fn ticks_at(ticks: Seq<Tick>, timestamp: u64) -> Seq<Tick> {
    ticks.filter(|t: Tick| t.timestamp == timestamp)
}

pub open spec fn deref_ticks(ticks: Seq<&Tick>) -> Seq<Tick> {
    ticks.map_values(|t: &Tick| *t)
}

/// Sorts ticks by timestamp with the standard library's stable sort.
#[verifier::external_body]
fn sort_by_timestamp(ticks: &mut Vec<&Tick>)
    ensures
        stable_sorted_by_timestamp(deref_ticks(old(ticks)@), deref_ticks(final(ticks)@)),
{
    ticks.sort_by_key(|tick| tick.timestamp);
}

/// Number of trade events.
pub open spec fn trade_events(events: Seq<Event>) -> nat
    decreases events.len(),
{
    if events.len() == 0 {
        0
    } else {
        trade_events(events.drop_last()) + if events.last() is Trade {
            1nat
        } else {
            0nat
        }
    }
}

/// Number of order update events.
pub open spec fn update_events(events: Seq<Event>) -> nat
    decreases events.len(),
{
    if events.len() == 0 {
        0
    } else {
        update_events(events.drop_last()) + if events.last() is OrderUpdate {
            1nat
        } else {
            0nat
        }
    }
}

/// The state of a run between steps.
pub struct RunView {
    pub engine: EngineView,
    pub portfolio: PortfolioView,
    pub last_prices: SymbolTable,
    pub order_request_count: usize,
    pub trade_count: usize,
    pub order_update_count: usize,
    pub event_count: usize,
    pub simulated_fill_count: usize,
    pub equity_curve: Seq<EquityPoint>,
}

/// Simulating the fill of one request: a fill at the tick, when there is
/// one, pays its fee into the portfolio and counts.
pub open spec fn fill_step(st: RunView, tick: Tick, request: OrderRequest, fee_bps: u32) -> (
    Result<(), BacktestError>,
    RunView,
) {
    match SimpleFillSimulator::fill_of(request, tick) {
        None => (Ok(()), st),
        Some(fill) => {
            if !fee_in_range(fill.price, fill.quantity, fee_bps) {
                (Err(BacktestError::ArithmeticOverflow), st)
            } else {
                let fee = fee_of(fill.price, fill.quantity, fee_bps) as i128;
                if !st.portfolio.fill_in_range(fill.symbol@, fill.side, fill.price, fill.quantity, fee) {
                    (Err(BacktestError::ArithmeticOverflow), st)
                } else {
                    let st1 = RunView {
                        portfolio: st.portfolio.after_fill(
                            fill.symbol@,
                            fill.side,
                            fill.price,
                            fill.quantity,
                            fee,
                        ),
                        ..st
                    };
                    if st.simulated_fill_count + 1 > usize::MAX {
                        (Err(BacktestError::ArithmeticOverflow), st1)
                    } else {
                        (
                            Ok(()),
                            RunView {
                                simulated_fill_count: (st.simulated_fill_count + 1) as usize,
                                ..st1
                            },
                        )
                    }
                }
            }
        },
    }
}

/// Handing one request to the engine and counting the events it returns.
pub open spec fn engine_step(st: RunView, request: OrderRequest) -> (Result<(), BacktestError>, RunView) {
    let out = st.engine.request_outcome(request);
    let st1 = RunView { engine: out.1, ..st };
    match out.0 {
        Err(e) => (Err(BacktestError::Engine(e)), st1),
        Ok(events) => {
            let events_total = st1.event_count + events.len();
            let trades_total = st1.trade_count + trade_events(events);
            let updates_total = st1.order_update_count + update_events(events);
            if events_total > usize::MAX || trades_total > usize::MAX || updates_total
                > usize::MAX {
                (Err(BacktestError::ArithmeticOverflow), st1)
            } else {
                (
                    Ok(()),
                    RunView {
                        event_count: events_total as usize,
                        trade_count: trades_total as usize,
                        order_update_count: updates_total as usize,
                        ..st1
                    },
                )
            }
        },
    }
}

/// One request of a tick: its simulated fill, then the engine.
pub open spec fn request_step(st: RunView, tick: Tick, request: OrderRequest, fee_bps: u32) -> (
    Result<(), BacktestError>,
    RunView,
) {
    let filled = fill_step(st, tick, request, fee_bps);
    match filled.0 {
        Err(e) => filled,
        Ok(()) => engine_step(filled.1, request),
    }
}

/// The requests of a tick, in order, stopping at the first error.
pub open spec fn requests_step(
    st: RunView,
    tick: Tick,
    requests: Seq<OrderRequest>,
    fee_bps: u32,
) -> (Result<(), BacktestError>, RunView)
    decreases requests.len(),
{
    if requests.len() == 0 {
        (Ok(()), st)
    } else {
        let before = requests_step(st, tick, requests.drop_last(), fee_bps);
        match before.0 {
            Err(e) => before,
            Ok(()) => request_step(before.1, tick, requests.last(), fee_bps),
        }
    }
}

/// One tick: its price becomes the symbol's last price, the strategy's
/// requests count and run, and the equity after the tick joins the curve.
pub open spec fn tick_step(st: RunView, tick: Tick, requests: Seq<OrderRequest>, fee_bps: u32) -> (
    Result<(), BacktestError>,
    RunView,
) {
    let st1 = RunView { last_prices: table_set(st.last_prices, tick.symbol@, tick.price), ..st };
    if st1.order_request_count + requests.len() > usize::MAX {
        (Err(BacktestError::ArithmeticOverflow), st1)
    } else {
        let st2 = RunView {
            order_request_count: (st1.order_request_count + requests.len()) as usize,
            ..st1
        };
        let r = requests_step(st2, tick, requests, fee_bps);
        match r.0 {
            Err(e) => r,
            Ok(()) => {
                let st3 = r.1;
                if !st3.portfolio.equity_in_range(st3.last_prices) {
                    (Err(BacktestError::ArithmeticOverflow), st3)
                } else {
                    (
                        Ok(()),
                        RunView {
                            equity_curve: st3.equity_curve.push(
                                EquityPoint {
                                    timestamp: tick.timestamp,
                                    equity: st3.portfolio.equity(st3.last_prices) as i128,
                                },
                            ),
                            ..st3
                        },
                    )
                }
            },
        }
    }
}

/// The ticks in order, with the requests the strategy made for each,
/// stopping at the first error.
pub open spec fn ticks_step(
    st: RunView,
    ticks: Seq<Tick>,
    requests: Seq<Seq<OrderRequest>>,
    fee_bps: u32,
) -> (Result<(), BacktestError>, RunView)
    decreases ticks.len(),
{
    if ticks.len() == 0 {
        (Ok(()), st)
    } else {
        let before = ticks_step(st, ticks.drop_last(), requests.drop_last(), fee_bps);
        match before.0 {
            Err(e) => before,
            Ok(()) => tick_step(before.1, ticks.last(), requests.last(), fee_bps),
        }
    }
}

/// Whether the final equity, the profit and the drawdown fit 128-bit integers.
pub open spec fn totals_in_range(st: RunView) -> bool {
    &&& st.portfolio.equity_in_range(st.last_prices)
    &&& in_i128(st.portfolio.equity(st.last_prices) - st.portfolio.initial_cash)
    &&& drawdowns_in_range(st.portfolio.initial_cash, st.equity_curve)
}

/// The report of a finished run.
pub open spec fn reports(r: BacktestResult, st: RunView, tick_count: usize) -> bool {
    &&& r.tick_count == tick_count
    &&& r.order_request_count == st.order_request_count
    &&& r.trade_count == st.trade_count
    &&& r.order_update_count == st.order_update_count
    &&& r.event_count == st.event_count
    &&& r.simulated_fill_count == st.simulated_fill_count
    &&& r.initial_cash == st.portfolio.initial_cash
    &&& r.final_cash == st.portfolio.cash
    &&& r.final_equity == st.portfolio.equity(st.last_prices)
    &&& r.total_pnl == st.portfolio.equity(st.last_prices) - st.portfolio.initial_cash
    &&& r.fee_paid == st.portfolio.fee_paid
    &&& r.max_drawdown == max_drawdown_of(st.portfolio.initial_cash, st.equity_curve)
    &&& r.equity_curve@ == st.equity_curve
    &&& r.portfolio_trade_count == st.portfolio.trade_count
    &&& positions_table(r.final_positions@) == st.portfolio.positions
}

/// The state a run starts from: the engine and portfolio as they are, no
/// prices, no counts, an empty curve.
pub open spec fn start_of(engine: EngineView, portfolio: PortfolioView) -> RunView {
    RunView {
        engine,
        portfolio,
        last_prices: Seq::empty(),
        order_request_count: 0,
        trade_count: 0,
        order_update_count: 0,
        event_count: 0,
        simulated_fill_count: 0,
        equity_curve: Seq::empty(),
    }
}

/// A run from `engine`, `portfolio` and `strategy` over `ticks`, which it
/// replayed as `sorted`, left `final_engine`, `final_portfolio` and
/// `final_strategy` and gave `result`. The strategy was asked once for each
/// of the first `n` sorted ticks, in order, where `n` is the length of
/// `requests`: in state `states[i]` it answered `sorted[i]` with
/// `requests[i]` and moved to `states[i + 1]`. It was asked about every tick
/// unless the replay failed on the last tick it saw. The result is the
/// report of the replay when the replay and the totals succeed, else the
/// replay's error or an overflow of the totals.
pub open spec fn run_matches<S: Strategy>(
    engine: EngineView,
    portfolio: PortfolioView,
    strategy: S,
    fee_bps: u32,
    ticks: Seq<Tick>,
    sorted: Seq<Tick>,
    requests: Seq<Seq<OrderRequest>>,
    states: Seq<S>,
    final_engine: EngineView,
    final_portfolio: PortfolioView,
    final_strategy: S,
    result: Result<BacktestResult, BacktestError>,
) -> bool {
    let n = requests.len() as int;
    let start = start_of(engine, portfolio);
    let out = ticks_step(start, sorted.take(n), requests, fee_bps);
    &&& stable_sorted_by_timestamp(ticks, sorted)
    &&& n <= sorted.len()
    &&& states.len() == n + 1
    &&& states[0] == strategy
    &&& states[n] == final_strategy
    &&& forall|i: int|
        #![trigger requests[i]]
        0 <= i < n ==> states[i].reacts(sorted[i], requests[i], states[i + 1])
    &&& n > 0 ==> ticks_step(start, sorted.take(n - 1), requests.take(n - 1), fee_bps).0 is Ok
    &&& n < sorted.len() ==> out.0 is Err
    &&& final_engine == out.1.engine
    &&& final_portfolio == out.1.portfolio
    &&& match result {
        Ok(report) => {
            &&& out.0 is Ok
            &&& totals_in_range(out.1)
            &&& reports(report, out.1, ticks.len() as usize)
        },
        Err(e) => {
            ||| out.0 == Err::<(), BacktestError>(e)
            ||| (out.0 is Ok && !totals_in_range(out.1) && e == BacktestError::ArithmeticOverflow)
        },
    }
}

/// The counters, prices and curve of a run in progress.
struct RunState {
    last_prices: Vec<(String, i64)>,
    order_request_count: usize,
    trade_count: usize,
    order_update_count: usize,
    event_count: usize,
    simulated_fill_count: usize,
    equity_curve: Vec<EquityPoint>,
}

/// Record `price` as the last price of `symbol`.
fn record_price(prices: &mut Vec<(String, i64)>, symbol: &String, price: i64)
    requires
        table_unique(prices_table(old(prices)@)),
    ensures
        prices_table(final(prices)@) == table_set(prices_table(old(prices)@), symbol@, price),
        table_unique(prices_table(final(prices)@)),
{
    let ghost t = prices_table(prices@);
    proof {
        lemma_table_set_unique(t, symbol@, price);
    }
    let mut i: usize = 0;
    while i < prices.len()
        invariant
            i <= prices@.len(),
            prices@ == old(prices)@,
            t == prices_table(prices@),
            table_unique(t),
            forall|j: int| 0 <= j < i ==> (#[trigger] t[j]).0 != symbol@,
        decreases prices@.len() - i,
    {
        if prices[i].0 == *symbol {
            proof {
                lemma_table_index(t, i as int);
            }
            prices[i].1 = price;
            proof {
                assert(prices_table(prices@) =~= table_set(t, symbol@, price));
                assert(prices_table(prices@) == table_set(t, symbol@, price));
            }
            return ;
        }
        i = i + 1;
    }
    prices.push((symbol.clone(), price));
    proof {
        assert(!table_has(t, symbol@));
        assert(prices_table(prices@) =~= table_set(t, symbol@, price));
    }
}

/// Once a tick's requests have failed, later requests change nothing.
pub proof fn lemma_requests_error_stays(
    st: RunView,
    tick: Tick,
    requests: Seq<OrderRequest>,
    fee_bps: u32,
    n: int,
)
    requires
        0 <= n <= requests.len(),
        requests_step(st, tick, requests.take(n), fee_bps).0 is Err,
    ensures
        requests_step(st, tick, requests, fee_bps) == requests_step(
            st,
            tick,
            requests.take(n),
            fee_bps,
        ),
    decreases requests.len(),
{
    if n == requests.len() {
        assert(requests.take(n) =~= requests);
    } else {
        assert(requests.drop_last().take(n) =~= requests.take(n));
        lemma_requests_error_stays(st, tick, requests.drop_last(), fee_bps, n);
    }
}

/// Number of trade events and of order update events.
fn count_events(events: &[Event]) -> (counts: (usize, usize))
    ensures
        counts.0 == trade_events(events@),
        counts.1 == update_events(events@),
        counts.0 + counts.1 <= events@.len(),
{
    let mut trade_count: usize = 0;
    let mut order_update_count: usize = 0;
    let mut i: usize = 0;
    while i < events.len()
        invariant
            i <= events@.len(),
            trade_count == trade_events(events@.take(i as int)),
            order_update_count == update_events(events@.take(i as int)),
            trade_count + order_update_count <= i,
        decreases events@.len() - i,
    {
        proof {
            assert(events@.take(i + 1).drop_last() =~= events@.take(i as int));
        }
        match &events[i] {
            Event::Trade(_) => {
                trade_count = trade_count + 1;
            },
            Event::OrderUpdate(_) => {
                order_update_count = order_update_count + 1;
            },
            _ => {},
        }
        i = i + 1;
    }
    proof {
        assert(events@.take(i as int) =~= events@);
    }
    (trade_count, order_update_count)
}

pub struct BacktestEngine<S> where S: Strategy {
    strategy: S,
    engine: Engine,
    portfolio: Portfolio,
    fee_bps: u32,
}

impl<S> BacktestEngine<S> where S: Strategy {
    pub closed spec fn wf(&self) -> bool {
        &&& self.engine.wf()
        &&& self.portfolio.wf()
    }

    pub closed spec fn engine_view(&self) -> EngineView {
        self.engine@
    }

    pub closed spec fn portfolio_view(&self) -> PortfolioView {
        self.portfolio@
    }

    pub closed spec fn fee_bps(&self) -> u32 {
        self.fee_bps
    }

    pub closed spec fn strategy(&self) -> S {
        self.strategy
    }

    spec fn run_view(&self, st: &RunState) -> RunView {
        RunView {
            engine: self.engine@,
            portfolio: self.portfolio@,
            last_prices: prices_table(st.last_prices@),
            order_request_count: st.order_request_count,
            trade_count: st.trade_count,
            order_update_count: st.order_update_count,
            event_count: st.event_count,
            simulated_fill_count: st.simulated_fill_count,
            equity_curve: st.equity_curve@,
        }
    }

    pub fn new(strategy: S) -> (backtest: Self)
        ensures
            backtest.wf(),
            backtest.strategy() == strategy,
            backtest.fee_bps() == 0,
            backtest.engine_view() == Engine::new_view(),
            backtest.portfolio_view() == Portfolio::fresh_view(0),
    {
        Self::new_with_initial_cash_and_fee(strategy, 0, 0)
    }

    pub fn new_with_initial_cash(strategy: S, initial_cash: i128) -> (backtest: Self)
        ensures
            backtest.wf(),
            backtest.strategy() == strategy,
            backtest.fee_bps() == 0,
            backtest.engine_view() == Engine::new_view(),
            backtest.portfolio_view() == Portfolio::fresh_view(initial_cash),
    {
        Self::new_with_initial_cash_and_fee(strategy, initial_cash, 0)
    }

    pub fn new_with_initial_cash_and_fee(strategy: S, initial_cash: i128, fee_bps: u32) -> (backtest:
        Self)
        ensures
            backtest.wf(),
            backtest.strategy() == strategy,
            backtest.fee_bps() == fee_bps,
            backtest.engine_view() == Engine::new_view(),
            backtest.portfolio_view() == Portfolio::fresh_view(initial_cash),
    {
        BacktestEngine {
            strategy,
            engine: Engine::new(),
            portfolio: Portfolio::with_initial_cash(initial_cash),
            fee_bps,
        }
    }

    /// Runs the ticks oldest first (equal timestamps in the given order).
    /// For each tick: its price becomes its symbol's last price; the strategy
    /// is asked once for its requests on the tick; each request counts, fills against the tick in the portfolio
    /// (with the fee) when it crosses, and goes to the engine, whose trades,
    /// updates and events count; the equity after the tick joins the curve.
    /// Finally reports the counts, cash, equity, profit, fees, maximum
    /// drawdown, curve and positions. Fails when the engine refuses a request
    /// or a figure leaves its machine integer.
    pub fn run(&mut self, ticks: &[Tick]) -> (result: Result<BacktestResult, BacktestError>)
        requires
            old(self).wf(),
        ensures
            final(self).wf(),
            final(self).fee_bps() == old(self).fee_bps(),
            final(self).portfolio_view().initial_cash == old(self).portfolio_view().initial_cash,
            result matches Ok(report) ==> report.initial_cash == old(self).portfolio_view().initial_cash,
            exists|sorted: Seq<Tick>, requests: Seq<Seq<OrderRequest>>, states: Seq<S>|
                #[trigger] run_matches(
                    old(self).engine_view(),
                    old(self).portfolio_view(),
                    old(self).strategy(),
                    old(self).fee_bps(),
                    ticks@,
                    sorted,
                    requests,
                    states,
                    final(self).engine_view(),
                    final(self).portfolio_view(),
                    final(self).strategy(),
                    result,
                ),
    {
        let ghost start = start_of(self.engine@, self.portfolio@);
        let ghost fee_bps = self.fee_bps;
        let sorted = self.sorted_ticks(ticks);
        let ghost sorted_seq = deref_ticks(sorted@);
        let mut st = RunState {
            last_prices: Vec::new(),
            order_request_count: 0,
            trade_count: 0,
            order_update_count: 0,
            event_count: 0,
            simulated_fill_count: 0,
            equity_curve: Vec::new(),
        };
        proof {
            assert(prices_table(st.last_prices@) =~= Seq::<(Seq<char>, i64)>::empty());
            assert(self.run_view(&st) == start);
            assert(sorted_seq.take(0) =~= Seq::<Tick>::empty());
        }
        let ghost mut requests: Seq<Seq<OrderRequest>> = Seq::empty();
        let ghost mut states: Seq<S> = seq![self.strategy];
        let mut i: usize = 0;
        while i < sorted.len()
            invariant
                self.wf(),
                self.fee_bps == fee_bps,
                fee_bps == old(self).fee_bps,
                start == start_of(old(self).engine@, old(self).portfolio@),
                i <= sorted@.len(),
                requests.len() == i,
                states.len() == i + 1,
                states[0] == old(self).strategy,
                self.portfolio@.initial_cash == old(self).portfolio@.initial_cash,
                states[i as int] == self.strategy,
                forall|j: int|
                    #![trigger requests[j]]
                    0 <= j < i ==> states[j].reacts(sorted_seq[j], requests[j], states[j + 1]),
                sorted_seq == deref_ticks(sorted@),
                stable_sorted_by_timestamp(ticks@, sorted_seq),
                table_unique(prices_table(st.last_prices@)),
                ticks_step(start, sorted_seq.take(i as int), requests, fee_bps) == (
                    Ok::<(), BacktestError>(()),
                    self.run_view(&st),
                ),
            decreases sorted@.len() - i,
        {
            let tick = sorted[i];
            let ghost before_requests = requests;
            let ghost before_states = states;
            let (outcome, Ghost(made)) = self.run_tick(tick, &mut st);
            proof {
                assert(sorted_seq.take(i + 1).drop_last() =~= sorted_seq.take(i as int));
                assert(sorted_seq.take(i + 1).last() == *tick);
                assert(sorted_seq[i as int] == *tick);
                assert(requests.push(made).drop_last() =~= requests);
                requests = requests.push(made);
                states = states.push(self.strategy);
                assert(requests.take(i as int) =~= before_requests);
                assert forall|j: int|
                    #![trigger requests[j]]
                    0 <= j < i + 1 implies states[j].reacts(sorted_seq[j], requests[j], states[j + 1]) by {
                    if j < i {
                        assert(requests[j] == before_requests[j]);
                        assert(states[j] == before_states[j]);
                        assert(states[j + 1] == before_states[j + 1]);
                    }
                }
            }
            match outcome {
                Ok(()) => {},
                Err(e) => {
                    proof {
                        assert(run_matches(
                            old(self).engine_view(),
                            old(self).portfolio_view(),
                            old(self).strategy(),
                            old(self).fee_bps(),
                            ticks@,
                            sorted_seq,
                            requests,
                            states,
                            self.engine_view(),
                            self.portfolio_view(),
                            self.strategy(),
                            Err(e),
                        ));
                    }
                    return Err(e);
                },
            }
            i = i + 1;
        }
        proof {
            assert(sorted_seq.take(i as int) =~= sorted_seq);
            assert(ticks_step(start, sorted_seq, requests, fee_bps).1 == self.run_view(&st));
            if i > 0 {
                assert(requests.take(i - 1) =~= requests.drop_last());
                assert(sorted_seq.take(i - 1) =~= sorted_seq.drop_last());
            }
        }
        let ghost overflowed = run_matches(
            old(self).engine_view(),
            old(self).portfolio_view(),
            old(self).strategy(),
            old(self).fee_bps(),
            ticks@,
            sorted_seq,
            requests,
            states,
            self.engine_view(),
            self.portfolio_view(),
            self.strategy(),
            Err(BacktestError::ArithmeticOverflow),
        );
        let final_equity = match self.portfolio.try_equity(&st.last_prices) {
            Some(equity) => equity,
            None => {
                proof {
                    assert(overflowed);
                }
                return Err(BacktestError::ArithmeticOverflow);
            },
        };
        let initial_cash = self.portfolio.initial_cash();
        let total_pnl = match final_equity.checked_sub(initial_cash) {
            Some(pnl) => pnl,
            None => {
                proof {
                    assert(overflowed);
                }
                return Err(BacktestError::ArithmeticOverflow);
            },
        };
        let max_drawdown = match checked_max_drawdown(initial_cash, st.equity_curve.as_slice()) {
            Some(drawdown) => drawdown,
            None => {
                proof {
                    assert(overflowed);
                }
                return Err(BacktestError::ArithmeticOverflow);
            },
        };
        let ghost last_state = self.run_view(&st);
        let report = BacktestResult {
                tick_count: ticks.len(),
                order_request_count: st.order_request_count,
                trade_count: st.trade_count,
                order_update_count: st.order_update_count,
                event_count: st.event_count,
                simulated_fill_count: st.simulated_fill_count,
                initial_cash,
                final_cash: self.portfolio.cash(),
                final_equity,
                total_pnl,
                fee_paid: self.portfolio.fee_paid(),
                max_drawdown,
                equity_curve: st.equity_curve,
                portfolio_trade_count: self.portfolio.trade_count(),
                final_positions: self.portfolio.position_quantities(),
            };
        proof {
            assert(reports(report, last_state, ticks@.len() as usize));
            assert(run_matches(
                old(self).engine_view(),
                old(self).portfolio_view(),
                old(self).strategy(),
                old(self).fee_bps(),
                ticks@,
                sorted_seq,
                requests,
                states,
                self.engine_view(),
                self.portfolio_view(),
                self.strategy(),
                Ok(report),
            ));
        }
        Ok(report)
    }

    /// The ticks, oldest first; ticks with equal timestamps keep their order.
    fn sorted_ticks<'a>(&self, ticks: &'a [Tick]) -> (sorted: Vec<&'a Tick>)
        ensures
            stable_sorted_by_timestamp(ticks@, deref_ticks(sorted@)),
    {
        let mut sorted: Vec<&'a Tick> = Vec::new();
        let mut i: usize = 0;
        while i < ticks.len()
            invariant
                i <= ticks@.len(),
                deref_ticks(sorted@) == ticks@.take(i as int),
            decreases ticks@.len() - i,
        {
            let ghost before = sorted@;
            sorted.push(&ticks[i]);
            proof {
                assert(sorted@ == before.push(&ticks@[i as int]));
                assert(deref_ticks(before).len() == before.len());
                assert(deref_ticks(sorted@) =~= ticks@.take(i + 1));
            }
            i = i + 1;
        }
        proof {
            assert(ticks@.take(i as int) =~= ticks@);
        }
        sort_by_timestamp(&mut sorted);
        sorted
    }

    /// Simulates the request's fill against the tick and books it in the
    /// portfolio with its fee; tells whether there was a fill.
    fn apply_simulated_fill(&mut self, request: &OrderRequest, tick: &Tick) -> (result: Result<
        bool,
        BacktestError,
    >)
        requires
            old(self).wf(),
        ensures
            final(self).wf(),
            final(self).engine == old(self).engine,
            final(self).fee_bps == old(self).fee_bps,
            final(self).strategy == old(self).strategy,
            final(self).portfolio@.initial_cash == old(self).portfolio@.initial_cash,
            match SimpleFillSimulator::fill_of(*request, *tick) {
                None => result == Ok::<bool, BacktestError>(false) && final(self).portfolio@
                    == old(self).portfolio@,
                Some(fill) => {
                    let fee = fee_of(fill.price, fill.quantity, old(self).fee_bps) as i128;
                    if !fee_in_range(fill.price, fill.quantity, old(self).fee_bps) || !old(
                        self,
                    ).portfolio@.fill_in_range(fill.symbol@, fill.side, fill.price, fill.quantity, fee) {
                        result == Err::<bool, BacktestError>(BacktestError::ArithmeticOverflow)
                            && final(self).portfolio@ == old(self).portfolio@
                    } else {
                        result == Ok::<bool, BacktestError>(true) && final(self).portfolio@ == old(
                            self,
                        ).portfolio@.after_fill(fill.symbol@, fill.side, fill.price, fill.quantity, fee)
                    }
                },
            },
    {
        let fill = match SimpleFillSimulator::fill_order(request, tick) {
            Some(fill) => fill,
            None => return Ok(false),
        };
        let fee = match checked_fee(fill.price, fill.quantity, self.fee_bps) {
            Some(fee) => fee,
            None => return Err(BacktestError::ArithmeticOverflow),
        };
        if !self.portfolio.can_apply_fill(&fill.symbol, fill.side, fill.price, fill.quantity, fee) {
            return Err(BacktestError::ArithmeticOverflow);
        }
        self.portfolio.apply_fill_with_fee(&fill.symbol, fill.side, fill.price, fill.quantity, fee);
        Ok(true)
    }

    /// Hands the request to the engine and returns the events it produced.
    fn collect_engine_events(&mut self, request: OrderRequest) -> (result: Result<
        Vec<Event>,
        BacktestError,
    >)
        requires
            old(self).wf(),
        ensures
            final(self).wf(),
            final(self).portfolio == old(self).portfolio,
            final(self).fee_bps == old(self).fee_bps,
            final(self).strategy == old(self).strategy,
            final(self).engine@ == old(self).engine@.request_outcome(request).1,
            match result {
                Ok(events) => old(self).engine@.request_outcome(request).0 == Ok::<
                    Seq<Event>,
                    EngineError,
                >(events@),
                Err(e) => exists|err: EngineError|
                    old(self).engine@.request_outcome(request).0 == Err::<Seq<Event>, EngineError>(err)
                        && e == BacktestError::Engine(err),
            },
    {
        match self.engine.handle_event(Event::OrderRequest(request)) {
            Ok(events) => Ok(events),
            Err(e) => Err(BacktestError::Engine(e)),
        }
    }

    /// The requests of one tick in order, stopping at the first error.
    fn process_requests(&mut self, tick: &Tick, requests: Vec<OrderRequest>, st: &mut RunState) -> (result:
        Result<(), BacktestError>)
        requires
            old(self).wf(),
            table_unique(prices_table(old(st).last_prices@)),
        ensures
            final(self).wf(),
            final(self).fee_bps == old(self).fee_bps,
            final(self).strategy == old(self).strategy,
            final(self).portfolio@.initial_cash == old(self).portfolio@.initial_cash,
            table_unique(prices_table(final(st).last_prices@)),
            (result, final(self).run_view(final(st))) == requests_step(
                old(self).run_view(old(st)),
                *tick,
                requests@,
                old(self).fee_bps,
            ),
    {
        let ghost st0 = self.run_view(st);
        let ghost all = requests@;
        let ghost fee_bps = self.fee_bps;
        let ghost strategy = self.strategy;
        for request in it: requests
            invariant
                self.wf(),
                self.fee_bps == fee_bps,
                self.strategy == strategy,
                fee_bps == old(self).fee_bps,
                strategy == old(self).strategy,
                self.portfolio@.initial_cash == old(self).portfolio@.initial_cash,
                st0 == old(self).run_view(old(st)),
                all == requests@,
                all == it.seq(),
                table_unique(prices_table(st.last_prices@)),
                requests_step(st0, *tick, all.take(it.index() as int), fee_bps) == (
                    Ok::<(), BacktestError>(()),
                    self.run_view(st),
                ),
        {
            proof {
                assert(all.take(it.index() + 1).drop_last() =~= all.take(it.index() as int));
                assert(all.take(it.index() + 1).last() == request);
            }
            match self.process_request(tick, request, st) {
                Ok(()) => {},
                Err(e) => {
                    proof {
                        lemma_requests_error_stays(st0, *tick, all, fee_bps, it.index() + 1);
                    }
                    return Err(e);
                },
            }
        }
        proof {
            assert(all.take(all.len() as int) =~= all);
        }
        Ok(())
    }

    /// One tick: record its price, ask the strategy, run its requests, and
    /// mark the portfolio to market. Also gives back the strategy's requests.
    fn run_tick(&mut self, tick: &Tick, st: &mut RunState) -> (result: (
        Result<(), BacktestError>,
        Ghost<Seq<OrderRequest>>,
    ))
        requires
            old(self).wf(),
            table_unique(prices_table(old(st).last_prices@)),
        ensures
            final(self).wf(),
            final(self).fee_bps == old(self).fee_bps,
            old(self).strategy.reacts(*tick, result.1@, final(self).strategy),
            final(self).portfolio@.initial_cash == old(self).portfolio@.initial_cash,
            table_unique(prices_table(final(st).last_prices@)),
            (result.0, final(self).run_view(final(st))) == tick_step(
                old(self).run_view(old(st)),
                *tick,
                result.1@,
                old(self).fee_bps,
            ),
    {
        let ghost st0 = self.run_view(st);
        record_price(&mut st.last_prices, &tick.symbol, tick.price);
        let order_requests = self.strategy.on_tick(tick);
        let ghost requests = order_requests@;
        st.order_request_count = match st.order_request_count.checked_add(order_requests.len()) {
            Some(count) => count,
            None => return (Err(BacktestError::ArithmeticOverflow), Ghost(requests)),
        };
        match self.process_requests(tick, order_requests, st) {
            Ok(()) => {},
            Err(e) => return (Err(e), Ghost(requests)),
        }
        let equity = match self.portfolio.try_equity(&st.last_prices) {
            Some(equity) => equity,
            None => return (Err(BacktestError::ArithmeticOverflow), Ghost(requests)),
        };
        st.equity_curve.push(EquityPoint { timestamp: tick.timestamp, equity });
        (Ok(()), Ghost(requests))
    }

    /// One request: its simulated fill, then the engine.
    fn process_request(&mut self, tick: &Tick, request: OrderRequest, st: &mut RunState) -> (result:
        Result<(), BacktestError>)
        requires
            old(self).wf(),
            table_unique(prices_table(old(st).last_prices@)),
        ensures
            final(self).wf(),
            final(self).fee_bps == old(self).fee_bps,
            final(self).strategy == old(self).strategy,
            final(self).portfolio@.initial_cash == old(self).portfolio@.initial_cash,
            table_unique(prices_table(final(st).last_prices@)),
            (result, final(self).run_view(final(st))) == request_step(
                old(self).run_view(old(st)),
                *tick,
                request,
                old(self).fee_bps,
            ),
    {
        let ghost st0 = self.run_view(st);
        let filled = self.apply_simulated_fill(&request, tick);
        match filled {
            Err(e) => {
                return Err(e);
            },
            Ok(true) => {
                if st.simulated_fill_count == usize::MAX {
                    return Err(BacktestError::ArithmeticOverflow);
                }
                st.simulated_fill_count = st.simulated_fill_count + 1;
            },
            Ok(false) => {},
        }
        let ghost st1 = self.run_view(st);
        proof {
            assert(fill_step(st0, *tick, request, self.fee_bps) == (Ok::<(), BacktestError>(()), st1));
        }
        let events = match self.collect_engine_events(request) {
            Ok(events) => events,
            Err(e) => {
                return Err(e);
            },
        };
        let event_count = st.event_count.checked_add(events.len());
        let (new_trade_count, new_order_update_count) = count_events(events.as_slice());
        let trade_count = st.trade_count.checked_add(new_trade_count);
        let order_update_count = st.order_update_count.checked_add(new_order_update_count);
        match (event_count, trade_count, order_update_count) {
            (Some(events_total), Some(trades), Some(updates)) => {
                st.event_count = events_total;
                st.trade_count = trades;
                st.order_update_count = updates;
                Ok(())
            },
            _ => Err(BacktestError::ArithmeticOverflow),
        }
    }
}

} // verus!
