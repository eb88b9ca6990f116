//! A presentation of a backtest result: summary, metrics, positions sorted
//! by symbol, and the equity curve.
use vstd::prelude::*;

use crate::backtest::result::{BacktestResult, EquityPoint};
use crate::portfolio::{positions_table, Position, SymbolTable};
use crate::text::chars_of;

verus! {

broadcast use vstd::seq_lib::group_to_multiset_ensures;

#[derive(Debug, Clone, PartialEq, Eq)]
pub struct BacktestReport {
    pub summary: BacktestSummary,
    pub metrics: BacktestMetrics,
    pub positions: Vec<BacktestPosition>,
    pub equity_curve: Vec<EquityPoint>,
}

#[derive(Debug, Clone, Copy, PartialEq, Eq, Structural)]
pub struct BacktestSummary {
    pub tick_count: usize,
    pub order_request_count: usize,
    pub engine_trade_count: usize,
    pub engine_order_update_count: usize,
    pub engine_event_count: usize,
    pub simulated_fill_count: usize,
    pub portfolio_trade_count: usize,
}

#[derive(Debug, Clone, Copy, PartialEq, Eq, Structural)]
pub struct BacktestMetrics {
    pub initial_cash: i128,
    pub final_cash: i128,
    pub final_equity: i128,
    pub total_pnl: i128,
    pub fee_paid: i128,
    pub max_drawdown: i128,
}

#[derive(Debug, Clone, PartialEq, Eq)]
pub struct BacktestPosition {
    pub symbol: String,
    pub quantity: i64,
}

impl View for BacktestPosition {
    type V = (Seq<char>, i64);

    open spec fn view(&self) -> (Seq<char>, i64) {
        (self.symbol@, self.quantity)
    }
}

pub open spec fn report_positions_table(ps: Seq<BacktestPosition>) -> SymbolTable {
    ps.map_values(|p: BacktestPosition| p@)
}

/// Whether symbol `a` comes strictly before `b`: lexicographically by code point.
pub open spec fn symbol_lt(a: Seq<char>, b: Seq<char>) -> bool
    decreases a.len(),
{
    if b.len() == 0 {
        false
    } else if a.len() == 0 {
        true
    } else if a[0] == b[0] {
        symbol_lt(a.drop_first(), b.drop_first())
    } else {
        (a[0] as u32) < (b[0] as u32)
    }
}

/// Whether `a` comes before `b` in lexicographic code-point order, the order
/// of `String::cmp`: at the first position where they differ `a` has the
/// smaller character, or `a` is a proper prefix of `b`.
pub open spec fn lexicographically_before(a: Seq<char>, b: Seq<char>) -> bool {
    ||| exists|k: int|
        0 <= k < a.len() && k < b.len() && #[trigger] a.take(k) == b.take(k) && (a[k] as u32) < (
        b[k] as u32)
    ||| (a.len() < b.len() && b.take(a.len() as int) == a)
}

/// Symbols are ordered lexicographically by code point, as `String::cmp`
/// orders them: the first differing character decides, and a proper prefix
/// comes first.
pub proof fn lemma_symbol_order_is_lexicographic(a: Seq<char>, b: Seq<char>)
    ensures
        symbol_lt(a, b) <==> lexicographically_before(a, b),
    decreases a.len(),
{
    if b.len() == 0 {
        if lexicographically_before(a, b) {
            if exists|k: int|
                0 <= k < a.len() && k < b.len() && #[trigger] a.take(k) == b.take(k) && (a[k] as u32)
                    < (b[k] as u32) {
                let k = choose|k: int|
                    0 <= k < a.len() && k < b.len() && #[trigger] a.take(k) == b.take(k) && (a[k] as u32)
                        < (b[k] as u32);
            }
        }
    } else if a.len() == 0 {
        assert(b.take(0) =~= a);
    } else if a[0] == b[0] {
        let a1 = a.drop_first();
        let b1 = b.drop_first();
        lemma_symbol_order_is_lexicographic(a1, b1);
        if lexicographically_before(a1, b1) {
            if exists|k: int|
                0 <= k < a1.len() && k < b1.len() && #[trigger] a1.take(k) == b1.take(k) && (a1[k] as u32)
                    < (b1[k] as u32) {
                let k = choose|k: int|
                    0 <= k < a1.len() && k < b1.len() && #[trigger] a1.take(k) == b1.take(k) && (
                    a1[k] as u32) < (b1[k] as u32);
                assert(a.take(k + 1) =~= seq![a[0]] + a1.take(k));
                assert(b.take(k + 1) =~= seq![b[0]] + b1.take(k));
                assert(a[k + 1] == a1[k] && b[k + 1] == b1[k]);
                assert(a.take(k + 1) == b.take(k + 1));
            } else {
                assert(b.take(a.len() as int) =~= seq![b[0]] + b1.take(a1.len() as int));
                assert(a =~= seq![a[0]] + a1);
            }
        }
        if lexicographically_before(a, b) {
            if exists|k: int|
                0 <= k < a.len() && k < b.len() && #[trigger] a.take(k) == b.take(k) && (a[k] as u32)
                    < (b[k] as u32) {
                let k = choose|k: int|
                    0 <= k < a.len() && k < b.len() && #[trigger] a.take(k) == b.take(k) && (a[k] as u32)
                        < (b[k] as u32);
                assert(k >= 1);
                assert(a1.take(k - 1) =~= a.take(k).drop_first());
                assert(b1.take(k - 1) =~= b.take(k).drop_first());
                assert(a1[k - 1] == a[k] && b1[k - 1] == b[k]);
                assert(a1.take(k - 1) == b1.take(k - 1));
            } else {
                assert(b1.take(a1.len() as int) =~= b.take(a.len() as int).drop_first());
                assert(a1 =~= a.drop_first());
            }
        }
    } else {
        if (a[0] as u32) < (b[0] as u32) {
            assert(a.take(0) =~= b.take(0));
        }
        if lexicographically_before(a, b) {
            if exists|k: int|
                0 <= k < a.len() && k < b.len() && #[trigger] a.take(k) == b.take(k) && (a[k] as u32)
                    < (b[k] as u32) {
                let k = choose|k: int|
                    0 <= k < a.len() && k < b.len() && #[trigger] a.take(k) == b.take(k) && (a[k] as u32)
                        < (b[k] as u32);
                if k > 0 {
                    assert(a.take(k)[0] == b.take(k)[0]);
                }
            } else {
                assert(b.take(a.len() as int)[0] == a[0]);
            }
        }
    }
}

/// The table's symbols never decrease.
pub open spec fn sorted_by_symbol(t: SymbolTable) -> bool {
    forall|i: int, j: int| 0 <= i < j < t.len() ==> !symbol_lt(#[trigger] t[j].0, #[trigger] t[i].0)
}

/// The positions of a table sorted by symbol come in `String::cmp` order:
/// no later symbol comes lexicographically before an earlier one.
pub proof fn lemma_sorted_positions_lexicographic(t: SymbolTable)
    requires
        sorted_by_symbol(t),
    ensures
        forall|i: int, j: int|
            0 <= i < j < t.len() ==> !lexicographically_before(#[trigger] t[j].0, #[trigger] t[i].0),
{
    assert forall|i: int, j: int| 0 <= i < j < t.len() implies !lexicographically_before(
        #[trigger] t[j].0,
        #[trigger] t[i].0,
    ) by {
        lemma_symbol_order_is_lexicographic(t[j].0, t[i].0);
    }
}

pub proof fn lemma_symbol_lt_irreflexive(a: Seq<char>)
    ensures
        !symbol_lt(a, a),
    decreases a.len(),
{
    if a.len() > 0 {
        lemma_symbol_lt_irreflexive(a.drop_first());
    }
}

pub proof fn lemma_symbol_lt_transitive(a: Seq<char>, b: Seq<char>, c: Seq<char>)
    requires
        symbol_lt(a, b),
        symbol_lt(b, c),
    ensures
        symbol_lt(a, c),
    decreases a.len(),
{
    if a.len() > 0 && b.len() > 0 && c.len() > 0 {
        if a[0] == b[0] && b[0] == c[0] {
            lemma_symbol_lt_transitive(a.drop_first(), b.drop_first(), c.drop_first());
        }
    }
}

/// Whether symbol `a` comes strictly before symbol `b`.
fn symbol_precedes(a: &String, b: &String) -> (before: bool)
    ensures
        before == symbol_lt(a@, b@),
{
    let ac = chars_of(a.as_str());
    let bc = chars_of(b.as_str());
    let mut i: usize = 0;
    proof {
        assert(a@.skip(0) =~= a@);
        assert(b@.skip(0) =~= b@);
    }
    while i < ac.len() && i < bc.len() && ac[i] == bc[i]
        invariant
            i <= ac@.len(),
            i <= bc@.len(),
            ac@ == a@,
            bc@ == b@,
            symbol_lt(a@, b@) == symbol_lt(a@.skip(i as int), b@.skip(i as int)),
        decreases ac@.len() - i,
    {
        proof {
            assert(a@.skip(i + 1) =~= a@.skip(i as int).drop_first());
            assert(b@.skip(i + 1) =~= b@.skip(i as int).drop_first());
        }
        i = i + 1;
    }
    if i == bc.len() {
        false
    } else if i == ac.len() {
        true
    } else {
        (ac[i] as u32) < (bc[i] as u32)
    }
}

/// Where a position for `symbol` goes in a sorted list: after every
/// position whose symbol does not come after it.
fn insertion_point(sorted: &Vec<BacktestPosition>, symbol: &String) -> (j: usize)
    ensures
        j <= sorted@.len(),
        forall|k: int| 0 <= k < j ==> !symbol_lt(symbol@, (#[trigger] sorted@[k]).symbol@),
        j < sorted@.len() ==> symbol_lt(symbol@, sorted@[j as int].symbol@),
{
    let mut j: usize = 0;
    while j < sorted.len() && !symbol_precedes(symbol, &sorted[j].symbol)
        invariant
            j <= sorted@.len(),
            forall|k: int| 0 <= k < j ==> !symbol_lt(symbol@, (#[trigger] sorted@[k]).symbol@),
        decreases sorted@.len() - j,
    {
        j = j + 1;
    }
    j
}

/// The positions as report positions, sorted by symbol.
fn sort_by_symbol(positions: Vec<Position>) -> (sorted: Vec<BacktestPosition>)
    ensures
        sorted_by_symbol(report_positions_table(sorted@)),
        report_positions_table(sorted@).to_multiset() == positions_table(positions@).to_multiset(),
{
    let ghost all = positions_table(positions@);
    let mut sorted: Vec<BacktestPosition> = Vec::new();
    for position in it: positions
        invariant
            all == positions_table(it.seq()),
            sorted_by_symbol(report_positions_table(sorted@)),
            report_positions_table(sorted@).to_multiset() == all.take(it.index() as int).to_multiset(),
    {
        let ghost r = report_positions_table(sorted@);
        let j = insertion_point(&sorted, &position.symbol);
        let entry = BacktestPosition { symbol: position.symbol, quantity: position.quantity };
        let ghost x = entry@;
        sorted.insert(j, entry);
        proof {
            let n = report_positions_table(sorted@);
            assert(n =~= r.insert(j as int, x));
            assert(n.remove(j as int) =~= r);
            assert(n[j as int] == x);
            assert(n.to_multiset() =~= r.to_multiset().insert(x));
            assert(all.take(it.index() + 1) =~= all.take(it.index() as int).push(x));
            assert forall|a: int, b: int| 0 <= a < b < n.len() implies !symbol_lt(
                #[trigger] n[b].0,
                #[trigger] n[a].0,
            ) by {
                if b < j {
                } else if b == j {
                    assert(n[a] == r[a]);
                } else if a < j {
                    assert(n[a] == r[a]);
                    assert(n[b] == r[b - 1]);
                } else if a == j {
                    assert(n[b] == r[b - 1]);
                    if symbol_lt(r[b - 1].0, x.0) {
                        if b - 1 == j {
                            lemma_symbol_lt_transitive(r[j as int].0, x.0, r[j as int].0);
                            lemma_symbol_lt_irreflexive(r[j as int].0);
                        } else {
                            lemma_symbol_lt_transitive(r[b - 1].0, x.0, r[j as int].0);
                        }
                    }
                } else {
                    assert(n[a] == r[a - 1]);
                    assert(n[b] == r[b - 1]);
                }
            }
        }
    }
    proof {
        assert(all.take(all.len() as int) =~= all);
    }
    sorted
}

impl BacktestReport {
    /// The report of a result: its counts as the summary, its money figures
    /// as the metrics, its positions sorted by symbol, and its equity curve.
    pub fn from(result: BacktestResult) -> (report: Self)
        ensures
            report.summary == (BacktestSummary {
                tick_count: result.tick_count,
                order_request_count: result.order_request_count,
                engine_trade_count: result.trade_count,
                engine_order_update_count: result.order_update_count,
                engine_event_count: result.event_count,
                simulated_fill_count: result.simulated_fill_count,
                portfolio_trade_count: result.portfolio_trade_count,
            }),
            report.metrics == (BacktestMetrics {
                initial_cash: result.initial_cash,
                final_cash: result.final_cash,
                final_equity: result.final_equity,
                total_pnl: result.total_pnl,
                fee_paid: result.fee_paid,
                max_drawdown: result.max_drawdown,
            }),
            sorted_by_symbol(report_positions_table(report.positions@)),
            report_positions_table(report.positions@).to_multiset() == positions_table(
                result.final_positions@,
            ).to_multiset(),
            report.equity_curve@ == result.equity_curve@,
    {
        let positions = sort_by_symbol(result.final_positions);
        BacktestReport {
            summary: BacktestSummary {
                tick_count: result.tick_count,
                order_request_count: result.order_request_count,
                engine_trade_count: result.trade_count,
                engine_order_update_count: result.order_update_count,
                engine_event_count: result.event_count,
                simulated_fill_count: result.simulated_fill_count,
                portfolio_trade_count: result.portfolio_trade_count,
            },
            metrics: BacktestMetrics {
                initial_cash: result.initial_cash,
                final_cash: result.final_cash,
                final_equity: result.final_equity,
                total_pnl: result.total_pnl,
                fee_paid: result.fee_paid,
                max_drawdown: result.max_drawdown,
            },
            positions,
            equity_curve: result.equity_curve,
        }
    }
}

} // verus!
