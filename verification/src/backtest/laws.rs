//! Properties of backtest runs.
use vstd::prelude::*;

use crate::backtest::metrics::{max_drawdown_of, running_peak};
use crate::backtest::result::EquityPoint;
use crate::backtest::{
    engine_step, fill_step, request_step, requests_step, start_of, stable_sorted_by_timestamp,
    run_matches, tick_step, ticks_at, ticks_step, trade_events, update_events, BacktestError,
    BacktestResult, RunView,
};
use crate::engine::{accepted_update, match_events, EngineView};
use crate::event::Event;
use crate::model::{OrderRequest, Tick};
use crate::portfolio::{
    lemma_table_set_unique, positions_value, table_get, table_set, table_unique, SymbolTable,
    after_fills, fills_in_range, lemma_after_fills_concat, lemma_value_without_prices,
    positions_table, FillTerms, PortfolioView,
};
use crate::backtest::metrics::fee_of;
use crate::fill_simulator::SimpleFillSimulator;
use crate::strategy::{reacts_deterministically, Strategy};

verus! {

pub proof fn lemma_event_counts_concat(a: Seq<Event>, b: Seq<Event>)
    ensures
        trade_events(a + b) == trade_events(a) + trade_events(b),
        update_events(a + b) == update_events(a) + update_events(b),
    decreases b.len(),
{
    if b.len() == 0 {
        assert(a + b =~= a);
    } else {
        assert((a + b).drop_last() =~= a + b.drop_last());
        lemma_event_counts_concat(a, b.drop_last());
    }
}

/// Matching emits, per trade, one trade event and two order updates.
pub proof fn lemma_match_event_counts(b: crate::order_book::BookView, trade_id: u64, fuel: nat)
    ensures
        update_events(match_events(b, trade_id, fuel).0) == 2 * trade_events(
            match_events(b, trade_id, fuel).0,
        ),
        match_events(b, trade_id, fuel).0.len() == 3 * trade_events(
            match_events(b, trade_id, fuel).0,
        ),
    decreases fuel,
{
    if fuel > 0 && b.crossed() {
        let t = b.next_trade(trade_id, 0);
        let nb = b.after_match();
        lemma_match_event_counts(nb, (trade_id + 1) as u64, (fuel - 1) as nat);
        let rest = match_events(nb, (trade_id + 1) as u64, (fuel - 1) as nat).0;
        let head = seq![
            Event::Trade(t),
            Event::OrderUpdate(crate::engine::order_update_for(nb, t.buy_order_id, t.quantity, 0)),
            Event::OrderUpdate(crate::engine::order_update_for(nb, t.sell_order_id, t.quantity, 0)),
        ];
        lemma_event_counts_concat(head, rest);
        let h1 = seq![head[0]];
        let h2 = seq![head[0], head[1]];
        assert(head.drop_last() =~= h2);
        assert(h2.drop_last() =~= h1);
        assert(h1.drop_last() =~= Seq::<Event>::empty());
        assert(trade_events(Seq::<Event>::empty()) == 0);
        assert(update_events(Seq::<Event>::empty()) == 0);
        assert(h1.last() is Trade);
        assert(h2.last() is OrderUpdate);
        assert(head.last() is OrderUpdate);
        assert(trade_events(h1) == 1);
        assert(update_events(h1) == 0);
        assert(trade_events(h2) == 1);
        assert(update_events(h2) == 1);
        assert(trade_events(head) == 1);
        assert(update_events(head) == 2);
        assert(match_events(b, trade_id, fuel).0 == head + rest);
    }
}

/// An accepted order request emits one update for the new order, then per
/// trade one trade event and two order updates.
pub proof fn lemma_request_event_counts(e: EngineView, request: OrderRequest)
    requires
        e.request_outcome(request).0 is Ok,
    ensures
        update_events(e.request_outcome(request).0->Ok_0) == 1 + 2 * trade_events(
            e.request_outcome(request).0->Ok_0,
        ),
        e.request_outcome(request).0->Ok_0.len() == 1 + 3 * trade_events(
            e.request_outcome(request).0->Ok_0,
        ),
{
    let id = e.next_order_id;
    let b1 = e.book.add(request.spec_into_order(id));
    let m = match_events(b1, e.next_trade_id, b1.total());
    lemma_match_event_counts(b1, e.next_trade_id, b1.total());
    let head = seq![Event::OrderUpdate(accepted_update(id, request.quantity))];
    lemma_event_counts_concat(head, m.0);
    assert(head.drop_last() =~= Seq::<Event>::empty());
    assert(trade_events(Seq::<Event>::empty()) == 0);
    assert(update_events(Seq::<Event>::empty()) == 0);
    assert(head.last() is OrderUpdate);
    assert(trade_events(head) == 0);
    assert(update_events(head) == 1);
    assert(e.request_outcome(request).0->Ok_0 == head + m.0);
}

/// The counts balance: the events are the trades and the order updates, and
/// every request still to be handled will add one update.
pub open spec fn counts_balance(st: RunView, pending: nat, base: int) -> bool {
    &&& st.order_update_count + pending == st.order_request_count + 2 * st.trade_count
    &&& st.event_count + pending == st.order_request_count + 3 * st.trade_count
    &&& st.simulated_fill_count + pending <= st.order_request_count
    &&& st.portfolio.trade_count == base + st.simulated_fill_count
}

proof fn lemma_request_step_balance(
    st: RunView,
    tick: Tick,
    request: OrderRequest,
    fee_bps: u32,
    pending: nat,
    base: int,
)
    requires
        counts_balance(st, pending + 1, base),
        request_step(st, tick, request, fee_bps).0 is Ok,
    ensures
        counts_balance(request_step(st, tick, request, fee_bps).1, pending, base),
        request_step(st, tick, request, fee_bps).1.equity_curve == st.equity_curve,
        request_step(st, tick, request, fee_bps).1.last_prices == st.last_prices,
{
    let f = fill_step(st, tick, request, fee_bps);
    let st1 = f.1;
    assert(st1.order_update_count == st.order_update_count && st1.event_count == st.event_count
        && st1.trade_count == st.trade_count && st1.order_request_count == st.order_request_count);
    lemma_request_event_counts(st1.engine, request);
}

proof fn lemma_requests_step_balance(
    st: RunView,
    tick: Tick,
    requests: Seq<OrderRequest>,
    fee_bps: u32,
    pending: nat,
    base: int,
)
    requires
        counts_balance(st, pending + requests.len(), base),
        requests_step(st, tick, requests, fee_bps).0 is Ok,
    ensures
        counts_balance(requests_step(st, tick, requests, fee_bps).1, pending, base),
        requests_step(st, tick, requests, fee_bps).1.equity_curve == st.equity_curve,
        requests_step(st, tick, requests, fee_bps).1.last_prices == st.last_prices,
    decreases requests.len(),
{
    if requests.len() > 0 {
        let before = requests_step(st, tick, requests.drop_last(), fee_bps);
        lemma_requests_step_balance(st, tick, requests.drop_last(), fee_bps, pending + 1, base);
        lemma_request_step_balance(before.1, tick, requests.last(), fee_bps, pending, base);
    }
}

/// A run that succeeds reports one equity point per tick, stamped with the
/// ticks' timestamps in replay order, the last one being the final equity;
/// and balanced counts: every event is a trade or an order update, each
/// request gives one update and each trade two more, no request fills more
/// than once, and every fill is one more portfolio trade.
pub proof fn lemma_run_counts_and_curve(
    engine: EngineView,
    portfolio: PortfolioView,
    ticks: Seq<Tick>,
    requests: Seq<Seq<OrderRequest>>,
    fee_bps: u32,
)
    requires
        ticks.len() == requests.len(),
        ticks_step(start_of(engine, portfolio), ticks, requests, fee_bps).0 is Ok,
    ensures
        ({
            let out = ticks_step(start_of(engine, portfolio), ticks, requests, fee_bps).1;
            &&& out.event_count == out.trade_count + out.order_update_count
            &&& out.order_update_count == out.order_request_count + 2 * out.trade_count
            &&& out.simulated_fill_count <= out.order_request_count
            &&& out.portfolio.trade_count == portfolio.trade_count + out.simulated_fill_count
            &&& out.equity_curve.len() == ticks.len()
            &&& ticks.len() > 0 ==> out.equity_curve.last().equity == out.portfolio.equity(
                out.last_prices,
            )
            &&& forall|k: int|
                0 <= k < ticks.len() ==> (#[trigger] out.equity_curve[k]).timestamp
                    == ticks[k].timestamp
        }),
    decreases ticks.len(),
{
    let start = start_of(engine, portfolio);
    if ticks.len() > 0 {
        lemma_run_counts_and_curve(engine, portfolio, ticks.drop_last(), requests.drop_last(), fee_bps);
        let before = ticks_step(start, ticks.drop_last(), requests.drop_last(), fee_bps).1;
        let tick = ticks.last();
        let reqs = requests.last();
        let st1 = RunView { last_prices: crate::portfolio::table_set(before.last_prices, tick.symbol@, tick.price), ..before };
        let st2 = RunView { order_request_count: (st1.order_request_count + reqs.len()) as usize, ..st1 };
        lemma_requests_step_balance(st2, tick, reqs, fee_bps, 0, portfolio.trade_count as int);
        let out = ticks_step(start, ticks, requests, fee_bps).1;
        assert forall|k: int| 0 <= k < ticks.len() implies (#[trigger] out.equity_curve[k]).timestamp
            == ticks[k].timestamp by {
            if k < ticks.len() - 1 {
                assert(out.equity_curve[k] == before.equity_curve[k]);
                assert(ticks.drop_last()[k] == ticks[k]);
            }
        }
    }
}

/// A successful run over ticks replayed in sorted order yields an equity
/// curve whose timestamps never decrease.
pub proof fn lemma_curve_in_time_order(
    engine: EngineView,
    portfolio: PortfolioView,
    ticks: Seq<Tick>,
    sorted: Seq<Tick>,
    requests: Seq<Seq<OrderRequest>>,
    fee_bps: u32,
)
    requires
        stable_sorted_by_timestamp(ticks, sorted),
        sorted.len() == requests.len(),
        ticks_step(start_of(engine, portfolio), sorted, requests, fee_bps).0 is Ok,
    ensures
        forall|i: int, j: int|
            0 <= i < j < ticks.len() ==> (#[trigger] ticks_step(
                start_of(engine, portfolio),
                sorted,
                requests,
                fee_bps,
            ).1.equity_curve[i]).timestamp <= (#[trigger] ticks_step(
                start_of(engine, portfolio),
                sorted,
                requests,
                fee_bps,
            ).1.equity_curve[j]).timestamp,
{
    lemma_run_counts_and_curve(engine, portfolio, sorted, requests, fee_bps);
    let out = ticks_step(start_of(engine, portfolio), sorted, requests, fee_bps).1;
    assert forall|i: int, j: int| 0 <= i < j < ticks.len() implies (
    #[trigger] out.equity_curve[i]).timestamp <= (#[trigger] out.equity_curve[j]).timestamp by {
        assert(sorted[i].timestamp <= sorted[j].timestamp);
    }
}

/// The running peak is at least the starting equity and every equity seen.
pub proof fn lemma_running_peak_bounds(initial_equity: i128, curve: Seq<EquityPoint>)
    ensures
        running_peak(initial_equity, curve) >= initial_equity,
        forall|k: int| 0 <= k < curve.len() ==> running_peak(initial_equity, curve) >= (
        #[trigger] curve[k]).equity,
    decreases curve.len(),
{
    if curve.len() > 0 {
        lemma_running_peak_bounds(initial_equity, curve.drop_last());
        assert forall|k: int| 0 <= k < curve.len() implies running_peak(initial_equity, curve) >= (
        #[trigger] curve[k]).equity by {
            if k < curve.len() - 1 {
                assert(curve[k] == curve.drop_last()[k]);
            }
        }
    }
}

/// The maximum drawdown is the largest fall of a point below the peak
/// reached by then, or zero when no point falls: it is never negative, at
/// least every such fall, and, when positive, equal to one of them.
pub proof fn lemma_max_drawdown_bounds(initial_equity: i128, curve: Seq<EquityPoint>)
    ensures
        max_drawdown_of(initial_equity, curve) >= 0,
        forall|k: int|
            1 <= k <= curve.len() ==> max_drawdown_of(initial_equity, curve) >= running_peak(
                initial_equity,
                #[trigger] curve.take(k),
            ) - curve[k - 1].equity,
        max_drawdown_of(initial_equity, curve) == 0 || exists|k: int|
            1 <= k <= curve.len() && max_drawdown_of(initial_equity, curve) == running_peak(
                initial_equity,
                #[trigger] curve.take(k),
            ) - curve[k - 1].equity,
    decreases curve.len(),
{
    if curve.len() > 0 {
        lemma_max_drawdown_bounds(initial_equity, curve.drop_last());
        let before = max_drawdown_of(initial_equity, curve.drop_last());
        let n = curve.len() as int;
        assert(curve.take(n) =~= curve);
        if max_drawdown_of(initial_equity, curve) != 0 {
            if max_drawdown_of(initial_equity, curve) == before {
                let k = choose|k: int|
                    1 <= k <= curve.drop_last().len() && before == running_peak(
                        initial_equity,
                        #[trigger] curve.drop_last().take(k),
                    ) - curve.drop_last()[k - 1].equity;
                assert(curve.drop_last().take(k) =~= curve.take(k));
                assert(curve.drop_last()[k - 1] == curve[k - 1]);
            } else {
                assert(running_peak(initial_equity, curve.take(n)) - curve[n - 1].equity
                    == max_drawdown_of(initial_equity, curve));
            }
        }
        assert forall|k: int| 1 <= k <= curve.len() implies max_drawdown_of(
            initial_equity,
            curve,
        ) >= running_peak(initial_equity, #[trigger] curve.take(k)) - curve[k - 1].equity by {
            if k < curve.len() {
                assert(curve.drop_last().take(k) =~= curve.take(k));
                assert(curve.drop_last()[k - 1] == curve[k - 1]);
            } else {
                assert(curve.take(k) =~= curve);
            }
        }
    }
}

/// When equity never falls below the starting equity and never falls from
/// one point to the next, the maximum drawdown is zero.
pub proof fn lemma_rising_curve_has_no_drawdown(initial_equity: i128, curve: Seq<EquityPoint>)
    requires
        forall|i: int| 0 <= i < curve.len() ==> initial_equity <= (#[trigger] curve[i]).equity,
        forall|i: int, j: int| 0 <= i < j < curve.len() ==> (#[trigger] curve[i]).equity <= (
        #[trigger] curve[j]).equity,
    ensures
        max_drawdown_of(initial_equity, curve) == 0,
        curve.len() > 0 ==> running_peak(initial_equity, curve) == curve.last().equity,
    decreases curve.len(),
{
    if curve.len() > 0 {
        let before = curve.drop_last();
        assert forall|i: int, j: int| 0 <= i < j < before.len() implies (
        #[trigger] before[i]).equity <= (#[trigger] before[j]).equity by {
            assert(before[i] == curve[i]);
            assert(before[j] == curve[j]);
        }
        assert forall|i: int| 0 <= i < before.len() implies initial_equity <= (
        #[trigger] before[i]).equity by {
            assert(before[i] == curve[i]);
        }
        lemma_rising_curve_has_no_drawdown(initial_equity, before);
        if before.len() > 0 {
            assert(before.last() == curve[curve.len() - 2]);
        }
        assert(running_peak(initial_equity, before) <= curve.last().equity);
        assert(running_peak(initial_equity, curve) == curve.last().equity);
    }
}

/// The ticks at a time and the ticks before the last one: the last tick
/// leaves its own time's list, and no other.
proof fn lemma_ticks_at_drop_last(s: Seq<Tick>, k: u64)
    requires
        s.len() > 0,
    ensures
        s.last().timestamp == k ==> ticks_at(s, k) == ticks_at(s.drop_last(), k).push(s.last()),
        s.last().timestamp != k ==> ticks_at(s, k) == ticks_at(s.drop_last(), k),
{
    reveal(Seq::filter);
}

/// A time with ticks is the time of one of them.
proof fn lemma_ticks_at_nonempty(s: Seq<Tick>, k: u64)
    requires
        ticks_at(s, k).len() > 0,
    ensures
        exists|i: int| 0 <= i < s.len() && (#[trigger] s[i]).timestamp == k,
    decreases s.len(),
{
    reveal(Seq::filter);
    if s.len() > 0 {
        lemma_ticks_at_drop_last(s, k);
        if s.last().timestamp != k {
            lemma_ticks_at_nonempty(s.drop_last(), k);
            let i = choose|i: int| 0 <= i < s.drop_last().len() && (#[trigger] s.drop_last()[i]).timestamp == k;
            assert(s[i] == s.drop_last()[i]);
        } else {
            assert(s[s.len() - 1].timestamp == k);
        }
    }
}

/// Two sequences in time order with the same ticks at every time are equal.
proof fn lemma_sorted_by_time_unique(s1: Seq<Tick>, s2: Seq<Tick>)
    requires
        s1.len() == s2.len(),
        forall|i: int, j: int| 0 <= i < j < s1.len() ==> (#[trigger] s1[i]).timestamp <= (
        #[trigger] s1[j]).timestamp,
        forall|i: int, j: int| 0 <= i < j < s2.len() ==> (#[trigger] s2[i]).timestamp <= (
        #[trigger] s2[j]).timestamp,
        forall|k: u64| #[trigger] ticks_at(s1, k) == ticks_at(s2, k),
    ensures
        s1 == s2,
    decreases s1.len(),
{
    if s1.len() > 0 {
        let m1 = s1.last().timestamp;
        let m2 = s2.last().timestamp;
        lemma_ticks_at_drop_last(s1, m1);
        lemma_ticks_at_drop_last(s2, m2);
        if m1 < m2 {
            assert(ticks_at(s1, m2) == ticks_at(s2, m2));
            lemma_ticks_at_nonempty(s1, m2);
            let i = choose|i: int| 0 <= i < s1.len() && (#[trigger] s1[i]).timestamp == m2;
            if i < s1.len() - 1 {
                assert(s1[i].timestamp <= s1[s1.len() - 1].timestamp);
            }
            assert(false);
        }
        if m2 < m1 {
            assert(ticks_at(s1, m1) == ticks_at(s2, m1));
            lemma_ticks_at_nonempty(s2, m1);
            let i = choose|i: int| 0 <= i < s2.len() && (#[trigger] s2[i]).timestamp == m1;
            if i < s2.len() - 1 {
                assert(s2[i].timestamp <= s2[s2.len() - 1].timestamp);
            }
            assert(false);
        }
        assert(ticks_at(s1, m1) == ticks_at(s2, m1));
        assert(ticks_at(s1, m1).last() == s1.last());
        assert(ticks_at(s2, m1).last() == s2.last());
        assert(ticks_at(s1.drop_last(), m1) =~= ticks_at(s1, m1).drop_last());
        assert(ticks_at(s2.drop_last(), m1) =~= ticks_at(s2, m1).drop_last());
        assert forall|k: u64| #[trigger] ticks_at(s1.drop_last(), k) == ticks_at(s2.drop_last(), k) by {
            lemma_ticks_at_drop_last(s1, k);
            lemma_ticks_at_drop_last(s2, k);
            assert(ticks_at(s1, k) == ticks_at(s2, k));
        }
        let d1 = s1.drop_last();
        let d2 = s2.drop_last();
        assert forall|i: int, j: int| 0 <= i < j < d1.len() implies (#[trigger] d1[i]).timestamp <= (
        #[trigger] d1[j]).timestamp by {
            assert(d1[i] == s1[i] && d1[j] == s1[j]);
        }
        assert forall|i: int, j: int| 0 <= i < j < d2.len() implies (#[trigger] d2[i]).timestamp <= (
        #[trigger] d2[j]).timestamp by {
            assert(d2[i] == s2[i] && d2[j] == s2[j]);
        }
        lemma_sorted_by_time_unique(d1, d2);
        assert(s1 =~= d1.push(s1.last()));
        assert(s2 =~= d2.push(s2.last()));
    }
}

/// The replay order depends only on which ticks come at each time: two tick
/// lists of one length with the same ticks at every timestamp, in the same
/// order, are replayed in the same order. In particular a list is replayed
/// in a single order, and lists that are permutations of each other with
/// distinct timestamps are replayed alike.
pub proof fn lemma_replay_order_unique(a: Seq<Tick>, b: Seq<Tick>, sa: Seq<Tick>, sb: Seq<Tick>)
    requires
        a.len() == b.len(),
        forall|k: u64| #[trigger] ticks_at(a, k) == ticks_at(b, k),
        stable_sorted_by_timestamp(a, sa),
        stable_sorted_by_timestamp(b, sb),
    ensures
        sa == sb,
{
    assert forall|k: u64| #[trigger] ticks_at(sa, k) == ticks_at(sb, k) by {
        assert(ticks_at(sa, k) == ticks_at(a, k));
        assert(ticks_at(sb, k) == ticks_at(b, k));
    }
    lemma_sorted_by_time_unique(sa, sb);
}

/// Ticks already in time order are replayed as given.
pub proof fn lemma_sorted_ticks_replay_as_given(ticks: Seq<Tick>, sorted: Seq<Tick>)
    requires
        forall|i: int, j: int| 0 <= i < j < ticks.len() ==> (#[trigger] ticks[i]).timestamp <= (
        #[trigger] ticks[j]).timestamp,
        stable_sorted_by_timestamp(ticks, sorted),
    ensures
        sorted == ticks,
{
    lemma_sorted_by_time_unique(sorted, ticks);
}

/// Once a replay has failed, later ticks change nothing.
proof fn lemma_ticks_error_stays(
    st: RunView,
    ticks: Seq<Tick>,
    requests: Seq<Seq<OrderRequest>>,
    fee_bps: u32,
    n: int,
)
    requires
        0 <= n <= ticks.len(),
        ticks.len() == requests.len(),
        ticks_step(st, ticks.take(n), requests.take(n), fee_bps).0 is Err,
    ensures
        ticks_step(st, ticks, requests, fee_bps) == ticks_step(
            st,
            ticks.take(n),
            requests.take(n),
            fee_bps,
        ),
    decreases ticks.len(),
{
    if n == ticks.len() {
        assert(ticks.take(n) =~= ticks);
        assert(requests.take(n) =~= requests);
    } else {
        assert(ticks.drop_last().take(n) =~= ticks.take(n));
        assert(requests.drop_last().take(n) =~= requests.take(n));
        lemma_ticks_error_stays(st, ticks.drop_last(), requests.drop_last(), fee_bps, n);
    }
}

/// With the same start, the same strategy's answers agree on a common prefix.
proof fn lemma_answers_agree<S: Strategy>(
    sorted: Seq<Tick>,
    req1: Seq<Seq<OrderRequest>>,
    st1: Seq<S>,
    req2: Seq<Seq<OrderRequest>>,
    st2: Seq<S>,
    m: int,
)
    requires
        reacts_deterministically::<S>(),
        0 <= m <= req1.len(),
        m <= req2.len(),
        st1.len() == req1.len() + 1,
        st2.len() == req2.len() + 1,
        st1[0] == st2[0],
        forall|i: int|
            #![trigger req1[i]]
            0 <= i < req1.len() ==> st1[i].reacts(sorted[i], req1[i], st1[i + 1]),
        forall|i: int|
            #![trigger req2[i]]
            0 <= i < req2.len() ==> st2[i].reacts(sorted[i], req2[i], st2[i + 1]),
    ensures
        forall|i: int| 0 <= i < m ==> #[trigger] req1[i] == req2[i],
        forall|i: int| 0 <= i <= m ==> #[trigger] st1[i] == st2[i],
    decreases m,
{
    if m > 0 {
        lemma_answers_agree(sorted, req1, st1, req2, st2, m - 1);
        let i = m - 1;
        assert(st1[i].reacts(sorted[i], req1[i], st1[i + 1]));
        assert(st2[i].reacts(sorted[i], req2[i], st2[i + 1]));
        assert(st1[i] == st2[i]);
    }
}

/// Two reports with the same figures, curve and positions.
pub open spec fn same_report(a: BacktestResult, b: BacktestResult) -> bool {
    &&& a.tick_count == b.tick_count
    &&& a.order_request_count == b.order_request_count
    &&& a.trade_count == b.trade_count
    &&& a.order_update_count == b.order_update_count
    &&& a.event_count == b.event_count
    &&& a.simulated_fill_count == b.simulated_fill_count
    &&& a.initial_cash == b.initial_cash
    &&& a.final_cash == b.final_cash
    &&& a.final_equity == b.final_equity
    &&& a.total_pnl == b.total_pnl
    &&& a.fee_paid == b.fee_paid
    &&& a.max_drawdown == b.max_drawdown
    &&& a.equity_curve@ == b.equity_curve@
    &&& a.portfolio_trade_count == b.portfolio_trade_count
    &&& positions_table(a.final_positions@) == positions_table(b.final_positions@)
}

/// A run is determined by where it starts when its strategy reacts
/// deterministically: two runs of one strategy from the same engine and
/// portfolio, over tick lists of one length with the same ticks at every
/// time, replay them in the same order, get the same answers from the
/// strategy, pass through the same states, end the same way, report the same
/// figures when they succeed and fail with the same error when they fail.
pub proof fn lemma_run_determined<S: Strategy>(
    engine: EngineView,
    portfolio: PortfolioView,
    strategy: S,
    fee_bps: u32,
    ticks1: Seq<Tick>,
    sorted1: Seq<Tick>,
    req1: Seq<Seq<OrderRequest>>,
    st1: Seq<S>,
    engine1: EngineView,
    portfolio1: PortfolioView,
    strategy1: S,
    result1: Result<BacktestResult, BacktestError>,
    ticks2: Seq<Tick>,
    sorted2: Seq<Tick>,
    req2: Seq<Seq<OrderRequest>>,
    st2: Seq<S>,
    engine2: EngineView,
    portfolio2: PortfolioView,
    strategy2: S,
    result2: Result<BacktestResult, BacktestError>,
)
    requires
        reacts_deterministically::<S>(),
        ticks1.len() == ticks2.len(),
        forall|k: u64| #[trigger] ticks_at(ticks1, k) == ticks_at(ticks2, k),
        run_matches(engine, portfolio, strategy, fee_bps, ticks1, sorted1, req1, st1, engine1, portfolio1, strategy1, result1),
        run_matches(engine, portfolio, strategy, fee_bps, ticks2, sorted2, req2, st2, engine2, portfolio2, strategy2, result2),
    ensures
        sorted1 == sorted2,
        req1 == req2,
        st1 == st2,
        engine1 == engine2,
        portfolio1 == portfolio2,
        strategy1 == strategy2,
        result1 is Ok <==> result2 is Ok,
        result1 is Err ==> result1 == result2,
        result1 is Ok ==> same_report(result1->Ok_0, result2->Ok_0),
{
    lemma_replay_order_unique(ticks1, ticks2, sorted1, sorted2);
    let sorted = sorted1;
    let start = start_of(engine, portfolio);
    let n1 = req1.len() as int;
    let n2 = req2.len() as int;
    let m = if n1 <= n2 { n1 } else { n2 };
    lemma_answers_agree(sorted, req1, st1, req2, st2, m);
    if n1 < n2 {
        assert(req2.take(n1) =~= req1);
        let x = sorted.take(n2 - 1);
        let r = req2.take(n2 - 1);
        assert(x.take(n1) =~= sorted.take(n1));
        assert(r.take(n1) =~= req1);
        lemma_ticks_error_stays(start, x, r, fee_bps, n1);
        assert(false);
    }
    if n2 < n1 {
        assert(req1.take(n2) =~= req2);
        let x = sorted.take(n1 - 1);
        let r = req1.take(n1 - 1);
        assert(x.take(n2) =~= sorted.take(n2));
        assert(r.take(n2) =~= req2);
        lemma_ticks_error_stays(start, x, r, fee_bps, n2);
        assert(false);
    }
    assert(req1 =~= req2);
    assert(st1 =~= st2);
}

/// No two ticks of the list share a timestamp.
pub open spec fn distinct_timestamps(ticks: Seq<Tick>) -> bool {
    forall|i: int, j: int|
        0 <= i < j < ticks.len() ==> (#[trigger] ticks[i]).timestamp != (#[trigger] ticks[j]).timestamp
}

/// In a list with distinct timestamps, the ticks at a time are the one tick
/// with that time, or none.
proof fn lemma_ticks_at_distinct(s: Seq<Tick>, k: u64)
    requires
        distinct_timestamps(s),
    ensures
        forall|i: int| 0 <= i < s.len() && (#[trigger] s[i]).timestamp == k ==> ticks_at(s, k) == seq![s[i]],
        (forall|i: int| 0 <= i < s.len() ==> (#[trigger] s[i]).timestamp != k) ==> ticks_at(s, k)
            == Seq::<Tick>::empty(),
    decreases s.len(),
{
    reveal(Seq::filter);
    if s.len() > 0 {
        let d = s.drop_last();
        assert forall|i: int, j: int| 0 <= i < j < d.len() implies (#[trigger] d[i]).timestamp != (
        #[trigger] d[j]).timestamp by {
            assert(d[i] == s[i] && d[j] == s[j]);
        }
        lemma_ticks_at_distinct(d, k);
        lemma_ticks_at_drop_last(s, k);
        let n = s.len() - 1;
        if s[n].timestamp == k {
            assert forall|i: int| 0 <= i < d.len() implies (#[trigger] d[i]).timestamp != k by {
                assert(d[i] == s[i]);
                assert(s[i].timestamp != s[n].timestamp);
            }
            assert(ticks_at(d, k) == Seq::<Tick>::empty());
            assert(ticks_at(s, k) =~= seq![s[n]]);
            assert forall|i: int| 0 <= i < s.len() && (#[trigger] s[i]).timestamp == k implies ticks_at(
                s,
                k,
            ) == seq![s[i]] by {
                if i < n {
                    assert(s[i].timestamp != s[n].timestamp);
                }
            }
        } else {
            assert forall|i: int| 0 <= i < s.len() && (#[trigger] s[i]).timestamp == k implies ticks_at(
                s,
                k,
            ) == seq![s[i]] by {
                assert(i < n);
                assert(d[i] == s[i]);
            }
            if forall|i: int| 0 <= i < s.len() ==> (#[trigger] s[i]).timestamp != k {
                assert forall|i: int| 0 <= i < d.len() implies (#[trigger] d[i]).timestamp != k by {
                    assert(d[i] == s[i]);
                }
            }
        }
    }
}

/// Permutations of a list with distinct timestamps have the same ticks at
/// every time.
pub proof fn lemma_permutation_same_ticks_at(a: Seq<Tick>, b: Seq<Tick>)
    requires
        a.to_multiset() == b.to_multiset(),
        distinct_timestamps(a),
        distinct_timestamps(b),
    ensures
        a.len() == b.len(),
        forall|k: u64| #[trigger] ticks_at(a, k) == ticks_at(b, k),
{
    broadcast use vstd::seq_lib::group_to_multiset_ensures;

    assert(a.len() == a.to_multiset().len());
    assert(b.len() == b.to_multiset().len());
    assert forall|k: u64| #[trigger] ticks_at(a, k) == ticks_at(b, k) by {
        lemma_ticks_at_distinct(a, k);
        lemma_ticks_at_distinct(b, k);
        if exists|i: int| 0 <= i < a.len() && (#[trigger] a[i]).timestamp == k {
            let i = choose|i: int| 0 <= i < a.len() && (#[trigger] a[i]).timestamp == k;
            assert(a.contains(a[i]));
            assert(a.to_multiset().count(a[i]) > 0);
            assert(b.contains(a[i]));
            let j = choose|j: int| 0 <= j < b.len() && b[j] == a[i];
            assert(b[j].timestamp == k);
        } else if exists|j: int| 0 <= j < b.len() && (#[trigger] b[j]).timestamp == k {
            let j = choose|j: int| 0 <= j < b.len() && (#[trigger] b[j]).timestamp == k;
            assert(b.contains(b[j]));
            assert(b.to_multiset().count(b[j]) > 0);
            assert(a.contains(b[j]));
            let i = choose|i: int| 0 <= i < a.len() && a[i] == b[j];
            assert(a[i].timestamp == k);
        }
    }
}

/// Permuted tick lists with distinct timestamps give the same run: with a
/// strategy that reacts deterministically, two runs from the same engine,
/// portfolio and strategy over permutations of one list whose ticks have
/// distinct timestamps end in the same state, report the same figures when
/// they succeed and fail with the same error when they fail.
pub proof fn lemma_permuted_runs_agree<S: Strategy>(
    engine: EngineView,
    portfolio: PortfolioView,
    strategy: S,
    fee_bps: u32,
    ticks1: Seq<Tick>,
    sorted1: Seq<Tick>,
    req1: Seq<Seq<OrderRequest>>,
    st1: Seq<S>,
    engine1: EngineView,
    portfolio1: PortfolioView,
    strategy1: S,
    result1: Result<BacktestResult, BacktestError>,
    ticks2: Seq<Tick>,
    sorted2: Seq<Tick>,
    req2: Seq<Seq<OrderRequest>>,
    st2: Seq<S>,
    engine2: EngineView,
    portfolio2: PortfolioView,
    strategy2: S,
    result2: Result<BacktestResult, BacktestError>,
)
    requires
        reacts_deterministically::<S>(),
        ticks1.to_multiset() == ticks2.to_multiset(),
        distinct_timestamps(ticks1),
        distinct_timestamps(ticks2),
        run_matches(engine, portfolio, strategy, fee_bps, ticks1, sorted1, req1, st1, engine1, portfolio1, strategy1, result1),
        run_matches(engine, portfolio, strategy, fee_bps, ticks2, sorted2, req2, st2, engine2, portfolio2, strategy2, result2),
    ensures
        engine1 == engine2,
        portfolio1 == portfolio2,
        strategy1 == strategy2,
        result1 is Ok <==> result2 is Ok,
        result1 is Err ==> result1 == result2,
        result1 is Ok ==> same_report(result1->Ok_0, result2->Ok_0),
{
    lemma_permutation_same_ticks_at(ticks1, ticks2);
    lemma_run_determined(
        engine, portfolio, strategy, fee_bps,
        ticks1, sorted1, req1, st1, engine1, portfolio1, strategy1, result1,
        ticks2, sorted2, req2, st2, engine2, portfolio2, strategy2, result2,
    );
}

/// A successful run reports as its final equity the equity after its last
/// tick, which is the last point of its curve: the cash plus every position
/// marked at its symbol's last price. Without ticks no price is known and the
/// final equity is the cash. The profit is the final equity less the initial
/// cash. The report describes the portfolio the run leaves, counts one curve
/// point per tick in replay order, no more fills than requests and one
/// portfolio trade per fill, and its drawdown is never negative and at least
/// every fall of the curve below its running peak.
pub proof fn lemma_run_reports_marked_equity<S: Strategy>(
    engine: EngineView,
    portfolio: PortfolioView,
    strategy: S,
    fee_bps: u32,
    ticks: Seq<Tick>,
    sorted: Seq<Tick>,
    requests: Seq<Seq<OrderRequest>>,
    states: Seq<S>,
    final_engine: EngineView,
    final_portfolio: PortfolioView,
    final_strategy: S,
    result: Result<BacktestResult, BacktestError>,
)
    requires
        run_matches(engine, portfolio, strategy, fee_bps, ticks, sorted, requests, states, final_engine, final_portfolio, final_strategy, result),
        result is Ok,
    ensures
        result->Ok_0.total_pnl == result->Ok_0.final_equity - result->Ok_0.initial_cash,
        result->Ok_0.equity_curve@.len() == ticks.len(),
        ticks.len() > 0 ==> result->Ok_0.equity_curve@.last().equity == result->Ok_0.final_equity,
        ticks.len() == 0 ==> result->Ok_0.final_equity == result->Ok_0.final_cash,
        result->Ok_0.final_cash == final_portfolio.cash,
        result->Ok_0.fee_paid == final_portfolio.fee_paid,
        result->Ok_0.portfolio_trade_count == final_portfolio.trade_count,
        positions_table(result->Ok_0.final_positions@) == final_portfolio.positions,
        result->Ok_0.portfolio_trade_count == portfolio.trade_count + result->Ok_0.simulated_fill_count,
        result->Ok_0.simulated_fill_count <= result->Ok_0.order_request_count,
        result->Ok_0.event_count == result->Ok_0.trade_count + result->Ok_0.order_update_count,
        result->Ok_0.max_drawdown >= 0,
        forall|k: int|
            1 <= k <= result->Ok_0.equity_curve@.len() ==> result->Ok_0.max_drawdown >= running_peak(
                result->Ok_0.initial_cash,
                #[trigger] result->Ok_0.equity_curve@.take(k),
            ) - result->Ok_0.equity_curve@[k - 1].equity,
        forall|k: int|
            0 <= k < result->Ok_0.equity_curve@.len() ==> (#[trigger] result->Ok_0.equity_curve@[k]).timestamp
                == sorted[k].timestamp,
{
    let n = requests.len() as int;
    assert(sorted.take(n) =~= sorted);
    lemma_run_counts_and_curve(engine, portfolio, sorted, requests, fee_bps);
    if ticks.len() == 0 {
        lemma_value_without_prices(portfolio.positions);
    }
    let r = result->Ok_0;
    lemma_max_drawdown_bounds(r.initial_cash, r.equity_curve@);
}

/// The fills that a tick's requests get from the fill simulator, in order,
/// each with its fee at `fee_bps`.
pub open spec fn request_fills(tick: Tick, requests: Seq<OrderRequest>, fee_bps: u32) -> Seq<
    FillTerms,
>
    decreases requests.len(),
{
    if requests.len() == 0 {
        Seq::empty()
    } else {
        request_fills(tick, requests.drop_last(), fee_bps) + match SimpleFillSimulator::fill_of(
            requests.last(),
            tick,
        ) {
            Some(f) => seq![(f.symbol@, f.side, f.price, f.quantity, fee_of(f.price, f.quantity, fee_bps) as i128)],
            None => Seq::empty(),
        }
    }
}

/// The fills of a replay: those of each tick's requests, tick by tick.
pub open spec fn replay_fills(ticks: Seq<Tick>, requests: Seq<Seq<OrderRequest>>, fee_bps: u32) -> Seq<
    FillTerms,
>
    decreases ticks.len(),
{
    if ticks.len() == 0 || requests.len() == 0 {
        Seq::empty()
    } else {
        replay_fills(ticks.drop_last(), requests.drop_last(), fee_bps) + request_fills(
            ticks.last(),
            requests.last(),
            fee_bps,
        )
    }
}

proof fn lemma_requests_step_fills(st: RunView, tick: Tick, requests: Seq<OrderRequest>, fee_bps: u32)
    requires
        requests_step(st, tick, requests, fee_bps).0 is Ok,
    ensures
        requests_step(st, tick, requests, fee_bps).1.portfolio == after_fills(
            st.portfolio,
            request_fills(tick, requests, fee_bps),
        ),
        fills_in_range(st.portfolio, request_fills(tick, requests, fee_bps)),
    decreases requests.len(),
{
    if requests.len() > 0 {
        let before = requests_step(st, tick, requests.drop_last(), fee_bps);
        lemma_requests_step_fills(st, tick, requests.drop_last(), fee_bps);
        let a = request_fills(tick, requests.drop_last(), fee_bps);
        let b = request_fills(tick, requests, fee_bps).skip(a.len() as int);
        assert(request_fills(tick, requests, fee_bps) =~= a + b);
        lemma_after_fills_concat(st.portfolio, a, b);
        let r = requests.last();
        assert(before.0 is Ok);
        let q = before.1.portfolio;
        let fs = fill_step(before.1, tick, r, fee_bps);
        assert(fs.0 is Ok);
        assert(requests_step(st, tick, requests, fee_bps) == request_step(before.1, tick, r, fee_bps));
        assert(request_step(before.1, tick, r, fee_bps).1.portfolio == fs.1.portfolio);
        match SimpleFillSimulator::fill_of(r, tick) {
            Some(f) => {
                let terms = (f.symbol@, f.side, f.price, f.quantity, fee_of(f.price, f.quantity, fee_bps) as i128);
                assert(b =~= seq![terms]);
                assert(seq![terms].drop_last() =~= Seq::<FillTerms>::empty());
                assert(seq![terms].last() == terms);
                assert(after_fills(q, Seq::<FillTerms>::empty()) == q);
                assert(fills_in_range(q, Seq::<FillTerms>::empty()));
                assert(after_fills(q, seq![terms]) == q.after_fill(terms.0, terms.1, terms.2, terms.3, terms.4));
                assert(fills_in_range(q, seq![terms]) == q.fill_in_range(terms.0, terms.1, terms.2, terms.3, terms.4));
                assert(fs.1.portfolio == q.after_fill(terms.0, terms.1, terms.2, terms.3, terms.4));
            },
            None => {
                assert(b =~= Seq::<FillTerms>::empty());
                assert(fs.1.portfolio == q);
            },
        }
    }
}

/// A replay that succeeds leaves the portfolio the fills of its requests
/// leave: each request that crosses its tick fills in the portfolio, in
/// order, at the tick's price, for the quantity the fill simulator gives and
/// with the fee at the run's rate; nothing else touches the portfolio.
pub proof fn lemma_replay_portfolio_is_fills(
    st: RunView,
    ticks: Seq<Tick>,
    requests: Seq<Seq<OrderRequest>>,
    fee_bps: u32,
)
    requires
        ticks.len() == requests.len(),
        ticks_step(st, ticks, requests, fee_bps).0 is Ok,
    ensures
        ticks_step(st, ticks, requests, fee_bps).1.portfolio == after_fills(
            st.portfolio,
            replay_fills(ticks, requests, fee_bps),
        ),
        fills_in_range(st.portfolio, replay_fills(ticks, requests, fee_bps)),
    decreases ticks.len(),
{
    if ticks.len() > 0 {
        let before = ticks_step(st, ticks.drop_last(), requests.drop_last(), fee_bps).1;
        lemma_replay_portfolio_is_fills(st, ticks.drop_last(), requests.drop_last(), fee_bps);
        let tick = ticks.last();
        let reqs = requests.last();
        let st1 = RunView { last_prices: crate::portfolio::table_set(before.last_prices, tick.symbol@, tick.price), ..before };
        let st2 = RunView { order_request_count: (st1.order_request_count + reqs.len()) as usize, ..st1 };
        lemma_requests_step_fills(st2, tick, reqs, fee_bps);
        let a = replay_fills(ticks.drop_last(), requests.drop_last(), fee_bps);
        let b = request_fills(tick, reqs, fee_bps);
        lemma_after_fills_concat(st.portfolio, a, b);
    }
}

/// A successful run leaves the portfolio that the simulated fills of the
/// strategy's requests leave, applied in replay order from the starting
/// portfolio; they all fit the machine integers.
pub proof fn lemma_run_portfolio_is_fills<S: Strategy>(
    engine: EngineView,
    portfolio: PortfolioView,
    strategy: S,
    fee_bps: u32,
    ticks: Seq<Tick>,
    sorted: Seq<Tick>,
    requests: Seq<Seq<OrderRequest>>,
    states: Seq<S>,
    final_engine: EngineView,
    final_portfolio: PortfolioView,
    final_strategy: S,
    result: Result<BacktestResult, BacktestError>,
)
    requires
        run_matches(engine, portfolio, strategy, fee_bps, ticks, sorted, requests, states, final_engine, final_portfolio, final_strategy, result),
        result is Ok,
    ensures
        final_portfolio == after_fills(portfolio, replay_fills(sorted, requests, fee_bps)),
        fills_in_range(portfolio, replay_fills(sorted, requests, fee_bps)),
{
    assert(sorted.take(requests.len() as int) =~= sorted);
    lemma_replay_portfolio_is_fills(start_of(engine, portfolio), sorted, requests, fee_bps);
}

/// The price of the last of the ticks in `symbol`, zero when none is.
pub open spec fn last_tick_price(ticks: Seq<Tick>, symbol: Seq<char>) -> i64
    decreases ticks.len(),
{
    if ticks.len() == 0 {
        0
    } else if ticks.last().symbol@ == symbol {
        ticks.last().price
    } else {
        last_tick_price(ticks.drop_last(), symbol)
    }
}

/// Positions marked at the price of the last tick in their symbol.
pub open spec fn marked_at_last_ticks(positions: SymbolTable, ticks: Seq<Tick>) -> int
    decreases positions.len(),
{
    if positions.len() == 0 {
        0
    } else {
        marked_at_last_ticks(positions.drop_last(), ticks) + positions.last().1 * last_tick_price(
            ticks,
            positions.last().0,
        )
    }
}

proof fn lemma_requests_keep_prices(st: RunView, tick: Tick, requests: Seq<OrderRequest>, fee_bps: u32)
    ensures
        requests_step(st, tick, requests, fee_bps).1.last_prices == st.last_prices,
    decreases requests.len(),
{
    if requests.len() > 0 {
        lemma_requests_keep_prices(st, tick, requests.drop_last(), fee_bps);
    }
}

proof fn lemma_replay_prices(ticks: Seq<Tick>, requests: Seq<Seq<OrderRequest>>, fee_bps: u32, st: RunView)
    requires
        st.last_prices == Seq::<(Seq<char>, i64)>::empty(),
        ticks.len() == requests.len(),
        ticks_step(st, ticks, requests, fee_bps).0 is Ok,
    ensures
        table_unique(ticks_step(st, ticks, requests, fee_bps).1.last_prices),
        forall|sym: Seq<char>|
            #[trigger] table_get(ticks_step(st, ticks, requests, fee_bps).1.last_prices, sym)
                == last_tick_price(ticks, sym),
    decreases ticks.len(),
{
    if ticks.len() == 0 {
        assert forall|sym: Seq<char>|
            #[trigger] table_get(ticks_step(st, ticks, requests, fee_bps).1.last_prices, sym)
                == last_tick_price(ticks, sym) by {
            assert(!crate::portfolio::table_has(st.last_prices, sym));
        }
    } else {
        lemma_replay_prices(ticks.drop_last(), requests.drop_last(), fee_bps, st);
        let before = ticks_step(st, ticks.drop_last(), requests.drop_last(), fee_bps).1;
        let tick = ticks.last();
        let reqs = requests.last();
        let prices = table_set(before.last_prices, tick.symbol@, tick.price);
        lemma_table_set_unique(before.last_prices, tick.symbol@, tick.price);
        let st1 = RunView { last_prices: prices, ..before };
        let st2 = RunView { order_request_count: (st1.order_request_count + reqs.len()) as usize, ..st1 };
        lemma_requests_keep_prices(st2, tick, reqs, fee_bps);
        assert(ticks_step(st, ticks, requests, fee_bps).1.last_prices == prices);
        assert forall|sym: Seq<char>|
            #[trigger] table_get(ticks_step(st, ticks, requests, fee_bps).1.last_prices, sym)
                == last_tick_price(ticks, sym) by {
            assert(table_get(before.last_prices, sym) == last_tick_price(ticks.drop_last(), sym));
        }
    }
}

proof fn lemma_marked_values_agree(positions: SymbolTable, prices: SymbolTable, ticks: Seq<Tick>)
    requires
        forall|sym: Seq<char>| #[trigger] table_get(prices, sym) == last_tick_price(ticks, sym),
    ensures
        positions_value(positions, prices) == marked_at_last_ticks(positions, ticks),
    decreases positions.len(),
{
    if positions.len() > 0 {
        lemma_marked_values_agree(positions.drop_last(), prices, ticks);
        assert(table_get(prices, positions.last().0) == last_tick_price(ticks, positions.last().0));
    }
}

/// A successful run marks its positions at the last tick prices: the final
/// equity is the final cash plus each reported position times the price of
/// the last replayed tick in its symbol (zero for a symbol without ticks).
pub proof fn lemma_run_marks_at_last_prices<S: Strategy>(
    engine: EngineView,
    portfolio: PortfolioView,
    strategy: S,
    fee_bps: u32,
    ticks: Seq<Tick>,
    sorted: Seq<Tick>,
    requests: Seq<Seq<OrderRequest>>,
    states: Seq<S>,
    final_engine: EngineView,
    final_portfolio: PortfolioView,
    final_strategy: S,
    result: Result<BacktestResult, BacktestError>,
)
    requires
        run_matches(engine, portfolio, strategy, fee_bps, ticks, sorted, requests, states, final_engine, final_portfolio, final_strategy, result),
        result is Ok,
    ensures
        result->Ok_0.final_equity == result->Ok_0.final_cash + marked_at_last_ticks(
            positions_table(result->Ok_0.final_positions@),
            sorted,
        ),
{
    let start = start_of(engine, portfolio);
    assert(sorted.take(requests.len() as int) =~= sorted);
    lemma_replay_prices(sorted, requests, fee_bps, start);
    let out = ticks_step(start, sorted, requests, fee_bps).1;
    lemma_marked_values_agree(out.portfolio.positions, out.last_prices, sorted);
}

} // verus!
