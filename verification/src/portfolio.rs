//! Cash, positions and fees of a simulated trading account.
use vstd::prelude::*;

use crate::model::Side;

verus! {

/// A holding in one symbol: positive when long, negative when short.
#[derive(Debug, Clone, PartialEq, Eq)]
pub struct Position {
    pub symbol: String,
    pub quantity: i64,
}

impl View for Position {
    type V = (Seq<char>, i64);

    open spec fn view(&self) -> (Seq<char>, i64) {
        (self.symbol@, self.quantity)
    }
}

/// A table from symbols to amounts.
pub type SymbolTable = Seq<(Seq<char>, i64)>;

/// No symbol occurs twice in the table.
pub open spec fn table_unique(t: SymbolTable) -> bool {
    forall|i: int, j: int| 0 <= i < j < t.len() ==> (#[trigger] t[i]).0 != (#[trigger] t[j]).0
}

pub open spec fn table_has(t: SymbolTable, sym: Seq<char>) -> bool {
    exists|i: int| 0 <= i < t.len() && (#[trigger] t[i]).0 == sym
}

/// Where the symbol sits in the table (meaningful when it does).
pub open spec fn table_index(t: SymbolTable, sym: Seq<char>) -> int {
    choose|i: int| 0 <= i < t.len() && (#[trigger] t[i]).0 == sym
}

/// The amount recorded for a symbol, zero when there is none.
pub open spec fn table_get(t: SymbolTable, sym: Seq<char>) -> i64 {
    if table_has(t, sym) {
        t[table_index(t, sym)].1
    } else {
        0
    }
}

/// The table with the symbol's amount set, appending the symbol if it is new.
pub open spec fn table_set(t: SymbolTable, sym: Seq<char>, amount: i64) -> SymbolTable {
    if table_has(t, sym) {
        t.update(table_index(t, sym), (sym, amount))
    } else {
        t.push((sym, amount))
    }
}

pub open spec fn positions_table(ps: Seq<Position>) -> SymbolTable {
    ps.map_values(|p: Position| p@)
}

pub open spec fn prices_table(ps: Seq<(String, i64)>) -> SymbolTable {
    ps.map_values(|p: (String, i64)| (p.0@, p.1))
}

/// A table entry found at a position is the one the table index names.
pub proof fn lemma_table_index(t: SymbolTable, i: int)
    requires
        table_unique(t),
        0 <= i < t.len(),
    ensures
        table_has(t, t[i].0),
        table_index(t, t[i].0) == i,
        table_get(t, t[i].0) == t[i].1,
{
    let j = table_index(t, t[i].0);
    if i < j {
        assert(t[i].0 != t[j].0);
    }
    if j < i {
        assert(t[j].0 != t[i].0);
    }
}

/// Setting an amount keeps the table free of duplicates.
pub proof fn lemma_table_set_unique(t: SymbolTable, sym: Seq<char>, amount: i64)
    requires
        table_unique(t),
    ensures
        table_unique(table_set(t, sym, amount)),
        table_get(table_set(t, sym, amount), sym) == amount,
        forall|s: Seq<char>| s != sym ==> table_get(table_set(t, sym, amount), s) == table_get(t, s),
{
    let nt = table_set(t, sym, amount);
    if table_has(t, sym) {
        let k = table_index(t, sym);
        assert forall|i: int, j: int| 0 <= i < j < nt.len() implies (#[trigger] nt[i]).0 != (
        #[trigger] nt[j]).0 by {
            if i == k {
                assert(t[j].0 != t[k].0);
            } else if j == k {
                assert(t[i].0 != t[k].0);
            } else {
                assert(t[i].0 != t[j].0);
            }
        }
        lemma_table_index(nt, k);
        assert forall|s: Seq<char>| s != sym implies table_get(nt, s) == table_get(t, s) by {
            if table_has(t, s) {
                let m = table_index(t, s);
                assert(nt[m] == t[m]);
                lemma_table_index(nt, m);
            }
            if table_has(nt, s) {
                let m = table_index(nt, s);
                assert(nt[m] == t[m]);
            }
        }
    } else {
        assert forall|i: int, j: int| 0 <= i < j < nt.len() implies (#[trigger] nt[i]).0 != (
        #[trigger] nt[j]).0 by {
            if j == t.len() {
                assert(nt[i] == t[i]);
            } else {
                assert(nt[i] == t[i]);
                assert(nt[j] == t[j]);
            }
        }
        lemma_table_index(nt, t.len() as int);
        assert forall|s: Seq<char>| s != sym implies table_get(nt, s) == table_get(t, s) by {
            if table_has(t, s) {
                let m = table_index(t, s);
                assert(nt[m] == t[m]);
                lemma_table_index(nt, m);
            }
            if table_has(nt, s) {
                let m = table_index(nt, s);
                assert(nt[m] == t[m]);
            }
        }
    }
}

/// How a fill moves a position: up by the quantity for a buy, down for a
/// sell (the quantity taken as a signed 64-bit number).
pub open spec fn position_change(side: Side, quantity: u64) -> int {
    match side {
        Side::Buy => quantity as i64 as int,
        Side::Sell => -(quantity as i64 as int),
    }
}

/// How a fill moves cash: a buy pays its notional plus the fee, a sell
/// receives its notional less the fee.
pub open spec fn cash_change(side: Side, price: i64, quantity: u64, fee: i128) -> int {
    match side {
        Side::Buy => -(price * quantity + fee),
        Side::Sell => price * quantity - fee,
    }
}

pub open spec fn in_i128(x: int) -> bool {
    i128::MIN <= x <= i128::MAX
}

/// Value of the positions marked at the given prices (zero for an unpriced symbol).
pub open spec fn positions_value(ps: SymbolTable, prices: SymbolTable) -> int
    decreases ps.len(),
{
    if ps.len() == 0 {
        0
    } else {
        positions_value(ps.drop_last(), prices) + ps.last().1 * table_get(prices, ps.last().0)
    }
}

/// Mathematical model of a portfolio.
pub struct PortfolioView {
    pub initial_cash: i128,
    pub cash: i128,
    pub positions: SymbolTable,
    pub trade_count: usize,
    pub fee_paid: i128,
}

impl PortfolioView {
    /// Whether applying the fill stays within the machine integers.
    pub open spec fn fill_in_range(
        self,
        symbol: Seq<char>,
        side: Side,
        price: i64,
        quantity: u64,
        fee: i128,
    ) -> bool {
        let notional = price * quantity;
        &&& i64::MIN <= table_get(self.positions, symbol) + position_change(side, quantity)
            <= i64::MAX
        &&& match side {
            Side::Buy => in_i128(notional + fee) && in_i128(self.cash - (notional + fee)),
            Side::Sell => in_i128(notional - fee) && in_i128(self.cash + (notional - fee)),
        }
        &&& in_i128(self.fee_paid + fee)
        &&& self.trade_count + 1 <= usize::MAX
    }

    /// The portfolio after a fill: the position moves, cash moves by the
    /// notional and the fee, the fee is recorded, and one more trade counts.
    pub open spec fn after_fill(
        self,
        symbol: Seq<char>,
        side: Side,
        price: i64,
        quantity: u64,
        fee: i128,
    ) -> PortfolioView {
        PortfolioView {
            initial_cash: self.initial_cash,
            cash: (self.cash + cash_change(side, price, quantity, fee)) as i128,
            positions: table_set(
                self.positions,
                symbol,
                (table_get(self.positions, symbol) + position_change(side, quantity)) as i64,
            ),
            trade_count: (self.trade_count + 1) as usize,
            fee_paid: (self.fee_paid + fee) as i128,
        }
    }

    /// Whether marking to the prices stays within 128-bit integers, summing
    /// the positions in order and then adding the cash.
    pub open spec fn equity_in_range(self, prices: SymbolTable) -> bool {
        &&& forall|k: int|
            0 <= k <= self.positions.len() ==> in_i128(
                #[trigger] positions_value(self.positions.take(k), prices),
            )
        &&& in_i128(self.cash + positions_value(self.positions, prices))
    }

    /// Cash plus the positions marked at the prices.
    pub open spec fn equity(self, prices: SymbolTable) -> int {
        self.cash + positions_value(self.positions, prices)
    }
}

#[derive(Debug, Clone, PartialEq, Eq)]
pub struct Portfolio {
    initial_cash: i128,
    cash: i128,
    positions: Vec<Position>,
    trade_count: usize,
    fee_paid: i128,
}

impl View for Portfolio {
    type V = PortfolioView;

    closed spec fn view(&self) -> PortfolioView {
        PortfolioView {
            initial_cash: self.initial_cash,
            cash: self.cash,
            positions: positions_table(self.positions@),
            trade_count: self.trade_count,
            fee_paid: self.fee_paid,
        }
    }
}

/// Where the symbol's position is, if it has one.
fn find_position(positions: &Vec<Position>, symbol: &String) -> (found: Option<usize>)
    requires
        table_unique(positions_table(positions@)),
    ensures
        match found {
            Some(i) => {
                &&& i < positions@.len()
                &&& table_has(positions_table(positions@), symbol@)
                &&& table_index(positions_table(positions@), symbol@) == i
            },
            None => !table_has(positions_table(positions@), symbol@),
        },
{
    let ghost t = positions_table(positions@);
    let mut i: usize = 0;
    while i < positions.len()
        invariant
            i <= positions@.len(),
            t == positions_table(positions@),
            table_unique(t),
            forall|j: int| 0 <= j < i ==> (#[trigger] t[j]).0 != symbol@,
        decreases positions@.len() - i,
    {
        if positions[i].symbol == *symbol {
            proof {
                lemma_table_index(t, i as int);
            }
            return Some(i);
        }
        i = i + 1;
    }
    None
}

/// The price recorded for the symbol, zero when there is none.
fn price_of(prices: &Vec<(String, i64)>, symbol: &String) -> (price: i64)
    requires
        table_unique(prices_table(prices@)),
    ensures
        price == table_get(prices_table(prices@), symbol@),
{
    let ghost t = prices_table(prices@);
    let mut i: usize = 0;
    while i < prices.len()
        invariant
            i <= prices@.len(),
            t == prices_table(prices@),
            table_unique(t),
            forall|j: int| 0 <= j < i ==> (#[trigger] t[j]).0 != symbol@,
        decreases prices@.len() - i,
    {
        if prices[i].0 == *symbol {
            proof {
                lemma_table_index(t, i as int);
            }
            return prices[i].1;
        }
        i = i + 1;
    }
    0
}

impl Portfolio {
    /// No symbol holds two positions.
    pub closed spec fn wf(&self) -> bool {
        table_unique(self@.positions)
    }

    /// A valid portfolio holds each symbol at most once.
    pub proof fn lemma_wf_unique(&self)
        requires
            self.wf(),
        ensures
            table_unique(self@.positions),
    {
    }

    /// A fresh portfolio holding only its initial cash.
    pub open spec fn fresh_view(initial_cash: i128) -> PortfolioView {
        PortfolioView {
            initial_cash,
            cash: initial_cash,
            positions: Seq::empty(),
            trade_count: 0,
            fee_paid: 0,
        }
    }

    pub fn new() -> (portfolio: Self)
        ensures
            portfolio.wf(),
            portfolio@ == Portfolio::fresh_view(0),
    {
        Self::with_initial_cash(0)
    }

    pub fn with_initial_cash(initial_cash: i128) -> (portfolio: Self)
        ensures
            portfolio.wf(),
            portfolio@ == Portfolio::fresh_view(initial_cash),
    {
        let portfolio = Portfolio {
            initial_cash,
            cash: initial_cash,
            positions: Vec::new(),
            trade_count: 0,
            fee_paid: 0,
        };
        proof {
            assert(portfolio@.positions =~= Seq::<(Seq<char>, i64)>::empty());
        }
        portfolio
    }

    pub fn initial_cash(&self) -> (cash: i128)
        ensures
            cash == self@.initial_cash,
    {
        self.initial_cash
    }

    /// Applies a fill without a fee.
    pub fn apply_fill(&mut self, symbol: &str, side: Side, price: i64, quantity: u64)
        requires
            old(self).wf(),
            old(self)@.fill_in_range(symbol@, side, price, quantity, 0),
        ensures
            final(self).wf(),
            final(self)@ == old(self)@.after_fill(symbol@, side, price, quantity, 0),
    {
        self.apply_fill_with_fee(symbol, side, price, quantity, 0);
    }

    /// Whether a fill can be applied without leaving the machine integers.
    pub fn can_apply_fill(&self, symbol: &str, side: Side, price: i64, quantity: u64, fee: i128) -> (ok: bool)
        requires
            self.wf(),
        ensures
            ok == self@.fill_in_range(symbol@, side, price, quantity, fee),
    {
        let owned = symbol.to_owned();
        let held: i64 = match find_position(&self.positions, &owned) {
            Some(i) => self.positions[i].quantity,
            None => 0,
        };
        let quantity_i64 = quantity as i64;
        let position_ok = match side {
            Side::Buy => held.checked_add(quantity_i64).is_some(),
            Side::Sell => held.checked_sub(quantity_i64).is_some(),
        };
        let notional = Self::notional(price, quantity);
        let cash_ok = match side {
            Side::Buy => match notional.checked_add(fee) {
                Some(cost) => self.cash.checked_sub(cost).is_some(),
                None => false,
            },
            Side::Sell => match notional.checked_sub(fee) {
                Some(proceeds) => self.cash.checked_add(proceeds).is_some(),
                None => false,
            },
        };
        let fee_ok = self.fee_paid.checked_add(fee).is_some();
        let count_ok = self.trade_count < usize::MAX;
        proof {
            let t = self@.positions;
            if table_has(t, symbol@) {
                lemma_table_index(t, table_index(t, symbol@));
            }
        }
        position_ok && cash_ok && fee_ok && count_ok
    }

    /// Price times quantity.
    fn notional(price: i64, quantity: u64) -> (notional: i128)
        ensures
            notional == price * quantity,
    {
        assert(i64::MIN * 0xffff_ffff_ffff_ffffu64 <= price * quantity <= i64::MAX
            * 0xffff_ffff_ffff_ffffu64) by (nonlinear_arith)
            requires
                i64::MIN <= price <= i64::MAX,
                0 <= quantity <= 0xffff_ffff_ffff_ffffu64,
        ;
        price as i128 * quantity as i128
    }

    /// A signed quantity marked at a price.
    fn marked_value(quantity: i64, price: i64) -> (value: i128)
        ensures
            value == quantity * price,
    {
        assert(-0x4000_0000_0000_0000_0000_0000_0000_0000int <= quantity * price
            <= 0x4000_0000_0000_0000_0000_0000_0000_0000int) by (nonlinear_arith)
            requires
                i64::MIN <= quantity <= i64::MAX,
                i64::MIN <= price <= i64::MAX,
        ;
        quantity as i128 * price as i128
    }

    /// Applies a fill: moves the position and the cash, records the fee and
    /// counts the trade.
    pub fn apply_fill_with_fee(&mut self, symbol: &str, side: Side, price: i64, quantity: u64, fee: i128)
        requires
            old(self).wf(),
            old(self)@.fill_in_range(symbol@, side, price, quantity, fee),
        ensures
            final(self).wf(),
            final(self)@ == old(self)@.after_fill(symbol@, side, price, quantity, fee),
    {
        let ghost v = self@;
        let owned = symbol.to_owned();
        let quantity_i64 = quantity as i64;
        let notional = Self::notional(price, quantity);
        proof {
            lemma_table_set_unique(
                v.positions,
                symbol@,
                (table_get(v.positions, symbol@) + position_change(side, quantity)) as i64,
            );
        }
        match find_position(&self.positions, &owned) {
            Some(i) => {
                proof {
                    lemma_table_index(v.positions, i as int);
                }
                let held = self.positions[i].quantity;
                let updated = match side {
                    Side::Buy => held + quantity_i64,
                    Side::Sell => held - quantity_i64,
                };
                self.positions[i].quantity = updated;
                proof {
                    assert(self@.positions =~= table_set(v.positions, symbol@, updated));
                }
            },
            None => {
                let opening = match side {
                    Side::Buy => 0 + quantity_i64,
                    Side::Sell => 0 - quantity_i64,
                };
                self.positions.push(Position { symbol: owned, quantity: opening });
                proof {
                    assert(self@.positions =~= table_set(v.positions, symbol@, opening));
                }
            },
        }
        match side {
            Side::Buy => {
                self.cash = self.cash - (notional + fee);
            },
            Side::Sell => {
                self.cash = self.cash + (notional - fee);
            },
        }
        self.fee_paid = self.fee_paid + fee;
        self.trade_count = self.trade_count + 1;
    }

    pub fn cash(&self) -> (cash: i128)
        ensures
            cash == self@.cash,
    {
        self.cash
    }

    pub fn trade_count(&self) -> (count: usize)
        ensures
            count == self@.trade_count,
    {
        self.trade_count
    }

    /// The signed quantity held in a symbol, zero when none.
    pub fn position_quantity(&self, symbol: &str) -> (quantity: i64)
        requires
            self.wf(),
        ensures
            quantity == table_get(self@.positions, symbol@),
    {
        let owned = symbol.to_owned();
        match find_position(&self.positions, &owned) {
            Some(i) => {
                proof {
                    lemma_table_index(self@.positions, i as int);
                }
                self.positions[i].quantity
            },
            None => 0,
        }
    }

    /// Every position, in the order the symbols were first traded.
    pub fn position_quantities(&self) -> (positions: Vec<Position>)
        ensures
            positions_table(positions@) == self@.positions,
    {
        let mut positions: Vec<Position> = Vec::new();
        let mut i: usize = 0;
        while i < self.positions.len()
            invariant
                i <= self.positions@.len(),
                positions_table(positions@) == positions_table(self.positions@).take(i as int),
            decreases self.positions@.len() - i,
        {
            let position = &self.positions[i];
            let ghost before = positions@;
            positions.push(
                Position { symbol: position.symbol.clone(), quantity: position.quantity },
            );
            proof {
                assert(positions_table(before).len() == before.len());
                assert(before.len() == i);
                assert(positions@ == before.push(positions@.last()));
                assert(positions@.last()@ == self.positions@[i as int]@);
                assert forall|j: int| 0 <= j < i implies #[trigger] positions@[j]@ == self.positions@[j]@ by {
                    assert(positions@[j] == before[j]);
                    assert(positions_table(before)[j] == positions_table(self.positions@).take(i as int)[j]);
                }
                assert(positions_table(positions@) =~= positions_table(self.positions@).take(
                    i + 1,
                ));
            }
            i = i + 1;
        }
        proof {
            assert(positions_table(self.positions@).take(i as int) =~= positions_table(
                self.positions@,
            ));
        }
        positions
    }

    /// Cash plus every position marked at its last price, or nothing when
    /// the sum leaves 128-bit integers.
    pub fn try_equity(&self, last_prices: &Vec<(String, i64)>) -> (equity: Option<i128>)
        requires
            table_unique(prices_table(last_prices@)),
        ensures
            equity == if self@.equity_in_range(prices_table(last_prices@)) {
                Some(self@.equity(prices_table(last_prices@)) as i128)
            } else {
                None::<i128>
            },
    {
        let ghost ps = self@.positions;
        let ghost prices = prices_table(last_prices@);
        let mut total: i128 = 0;
        let mut i: usize = 0;
        while i < self.positions.len()
            invariant
                i <= self.positions@.len(),
                ps == positions_table(self.positions@),
                prices == prices_table(last_prices@),
                table_unique(prices),
                total == positions_value(ps.take(i as int), prices),
                forall|k: int|
                    0 <= k <= i ==> in_i128(#[trigger] positions_value(ps.take(k), prices)),
            decreases self.positions@.len() - i,
        {
            let position = &self.positions[i];
            let last_price = price_of(last_prices, &position.symbol);
            let value = Self::marked_value(position.quantity, last_price);
            proof {
                assert(ps.take(i + 1).drop_last() =~= ps.take(i as int));
                assert(ps.take(i + 1).last() == ps[i as int]);
            }
            match total.checked_add(value) {
                Some(sum) => {
                    total = sum;
                },
                None => {
                    proof {
                        assert(!in_i128(positions_value(ps.take(i + 1), prices)));
                    }
                    return None;
                },
            }
            i = i + 1;
        }
        proof {
            assert(ps.take(i as int) =~= ps);
        }
        match self.cash.checked_add(total) {
            Some(equity) => Some(equity),
            None => None,
        }
    }

    /// Cash plus every position marked at its last price (zero for a symbol
    /// without one).
    pub fn equity(&self, last_prices: &Vec<(String, i64)>) -> (equity: i128)
        requires
            table_unique(prices_table(last_prices@)),
            self@.equity_in_range(prices_table(last_prices@)),
        ensures
            equity == self@.equity(prices_table(last_prices@)),
    {
        match self.try_equity(last_prices) {
            Some(equity) => equity,
            None => 0,
        }
    }

    pub fn fee_paid(&self) -> (fee: i128)
        ensures
            fee == self@.fee_paid,
    {
        self.fee_paid
    }
}

/// Changing one entry changes the marked value by that entry's change.
pub proof fn lemma_value_update(t: SymbolTable, k: int, e: (Seq<char>, i64), prices: SymbolTable)
    requires
        0 <= k < t.len(),
    ensures
        positions_value(t.update(k, e), prices) == positions_value(t, prices) - t[k].1 * table_get(
            prices,
            t[k].0,
        ) + e.1 * table_get(prices, e.0),
    decreases t.len(),
{
    let nt = t.update(k, e);
    if k == t.len() - 1 {
        assert(nt.drop_last() =~= t.drop_last());
    } else {
        assert(nt.drop_last() =~= t.drop_last().update(k, e));
        lemma_value_update(t.drop_last(), k, e, prices);
    }
}

/// Setting a symbol's amount changes the marked value by the change of the
/// amount times the symbol's price.
pub proof fn lemma_value_set(t: SymbolTable, sym: Seq<char>, amount: i64, prices: SymbolTable)
    requires
        table_unique(t),
    ensures
        positions_value(table_set(t, sym, amount), prices) == positions_value(t, prices) + (amount
            - table_get(t, sym)) * table_get(prices, sym),
{
    let p = table_get(prices, sym);
    if table_has(t, sym) {
        let k = table_index(t, sym);
        lemma_value_update(t, k, (sym, amount), prices);
        let old_amount = t[k].1;
        assert(amount * p - old_amount * p == (amount - old_amount) * p) by (nonlinear_arith);
    } else {
        assert(t.push((sym, amount)).drop_last() =~= t);
    }
}

/// Trading at the price the portfolio is marked at leaves its equity
/// unchanged but for the fee.
pub proof fn lemma_fill_at_mark_costs_only_fee(
    p: PortfolioView,
    prices: SymbolTable,
    symbol: Seq<char>,
    side: Side,
    price: i64,
    quantity: u64,
    fee: i128,
)
    requires
        table_unique(p.positions),
        p.fill_in_range(symbol, side, price, quantity, fee),
        quantity <= i64::MAX,
        table_get(prices, symbol) == price,
    ensures
        p.after_fill(symbol, side, price, quantity, fee).equity(prices) == p.equity(prices) - fee,
{
    let held = table_get(p.positions, symbol);
    let amount = (held + position_change(side, quantity)) as i64;
    lemma_value_set(p.positions, symbol, amount, prices);
    assert(quantity as i64 as int == quantity as int);
    assert((quantity as int) * (price as int) == (price as int) * (quantity as int)) by (
    nonlinear_arith);
    assert(-(quantity as int) * (price as int) == -((quantity as int) * (price as int))) by (
    nonlinear_arith);
}

/// Buying and then selling the same quantity at the same price restores the
/// position and costs exactly the two fees; both fills count as trades.
pub proof fn lemma_round_trip_costs_fees(
    p: PortfolioView,
    symbol: Seq<char>,
    price: i64,
    quantity: u64,
    buy_fee: i128,
    sell_fee: i128,
)
    requires
        table_unique(p.positions),
        p.fill_in_range(symbol, Side::Buy, price, quantity, buy_fee),
        p.after_fill(symbol, Side::Buy, price, quantity, buy_fee).fill_in_range(
            symbol,
            Side::Sell,
            price,
            quantity,
            sell_fee,
        ),
    ensures
        ({
            let q = p.after_fill(symbol, Side::Buy, price, quantity, buy_fee).after_fill(
                symbol,
                Side::Sell,
                price,
                quantity,
                sell_fee,
            );
            &&& table_get(q.positions, symbol) == table_get(p.positions, symbol)
            &&& forall|s: Seq<char>| table_get(q.positions, s) == table_get(p.positions, s)
            &&& q.cash == p.cash - buy_fee - sell_fee
            &&& q.fee_paid == p.fee_paid + buy_fee + sell_fee
            &&& q.trade_count == p.trade_count + 2
        }),
{
    let held = table_get(p.positions, symbol);
    let p1 = p.after_fill(symbol, Side::Buy, price, quantity, buy_fee);
    let a1 = (held + position_change(Side::Buy, quantity)) as i64;
    lemma_table_set_unique(p.positions, symbol, a1);
    let a2 = (a1 + position_change(Side::Sell, quantity)) as i64;
    lemma_table_set_unique(p1.positions, symbol, a2);
}

/// A fill moves the position in its symbol by the signed quantity and no
/// other position, after which the symbol is held; cash moves by the
/// notional and the fee, the fee is recorded and the trade counted.
pub proof fn lemma_fill_effect(
    p: PortfolioView,
    symbol: Seq<char>,
    side: Side,
    price: i64,
    quantity: u64,
    fee: i128,
)
    requires
        table_unique(p.positions),
        p.fill_in_range(symbol, side, price, quantity, fee),
    ensures
        ({
            let q = p.after_fill(symbol, side, price, quantity, fee);
            &&& table_unique(q.positions)
            &&& table_has(q.positions, symbol)
            &&& table_get(q.positions, symbol) == table_get(p.positions, symbol) + position_change(
                side,
                quantity,
            )
            &&& forall|s: Seq<char>|
                s != symbol ==> #[trigger] table_get(q.positions, s) == table_get(p.positions, s)
            &&& q.cash == p.cash + cash_change(side, price, quantity, fee)
            &&& q.fee_paid == p.fee_paid + fee
            &&& q.trade_count == p.trade_count + 1
            &&& q.initial_cash == p.initial_cash
        }),
{
    let amount = (table_get(p.positions, symbol) + position_change(side, quantity)) as i64;
    lemma_table_set_unique(p.positions, symbol, amount);
    let t = table_set(p.positions, symbol, amount);
    if table_has(p.positions, symbol) {
        let k = table_index(p.positions, symbol);
        assert(t[k].0 == symbol);
    } else {
        assert(t[t.len() - 1].0 == symbol);
    }
}

/// A fill as a symbol, a side, a price, a quantity and a fee.
pub type FillTerms = (Seq<char>, Side, i64, u64, i128);

/// The portfolio after the fills in order.
pub open spec fn after_fills(p: PortfolioView, fills: Seq<FillTerms>) -> PortfolioView
    decreases fills.len(),
{
    if fills.len() == 0 {
        p
    } else {
        let f = fills.last();
        after_fills(p, fills.drop_last()).after_fill(f.0, f.1, f.2, f.3, f.4)
    }
}

/// Whether every fill, applied in order, stays within the machine integers.
pub open spec fn fills_in_range(p: PortfolioView, fills: Seq<FillTerms>) -> bool
    decreases fills.len(),
{
    if fills.len() == 0 {
        true
    } else {
        let f = fills.last();
        fills_in_range(p, fills.drop_last()) && after_fills(p, fills.drop_last()).fill_in_range(
            f.0,
            f.1,
            f.2,
            f.3,
            f.4,
        )
    }
}

/// The signed quantity that the fills move in a symbol.
pub open spec fn net_quantity(fills: Seq<FillTerms>, symbol: Seq<char>) -> int
    decreases fills.len(),
{
    if fills.len() == 0 {
        0
    } else {
        let f = fills.last();
        net_quantity(fills.drop_last(), symbol) + if f.0 == symbol {
            position_change(f.1, f.3)
        } else {
            0
        }
    }
}

/// The fees of the fills.
pub open spec fn total_fees(fills: Seq<FillTerms>) -> int
    decreases fills.len(),
{
    if fills.len() == 0 {
        0
    } else {
        total_fees(fills.drop_last()) + fills.last().4
    }
}

/// How the fills move cash: what the sells bring in, less what the buys
/// cost, less every fee.
pub open spec fn total_cash_change(fills: Seq<FillTerms>) -> int
    decreases fills.len(),
{
    if fills.len() == 0 {
        0
    } else {
        let f = fills.last();
        total_cash_change(fills.drop_last()) + cash_change(f.1, f.2, f.3, f.4)
    }
}

/// Over a sequence of fills, each position is its start plus the signed
/// quantities of the fills in its symbol; cash moves by the fills' notionals
/// and fees, the fees add up and every fill counts as a trade.
pub proof fn lemma_fills_accumulate(p: PortfolioView, fills: Seq<FillTerms>)
    requires
        table_unique(p.positions),
        fills_in_range(p, fills),
    ensures
        table_unique(after_fills(p, fills).positions),
        forall|s: Seq<char>|
            #[trigger] table_get(after_fills(p, fills).positions, s) == table_get(p.positions, s)
                + net_quantity(fills, s),
        after_fills(p, fills).cash == p.cash + total_cash_change(fills),
        after_fills(p, fills).fee_paid == p.fee_paid + total_fees(fills),
        after_fills(p, fills).trade_count == p.trade_count + fills.len(),
        after_fills(p, fills).initial_cash == p.initial_cash,
    decreases fills.len(),
{
    if fills.len() > 0 {
        let f = fills.last();
        let before = after_fills(p, fills.drop_last());
        lemma_fills_accumulate(p, fills.drop_last());
        lemma_fill_effect(before, f.0, f.1, f.2, f.3, f.4);
        assert forall|s: Seq<char>|
            #[trigger] table_get(after_fills(p, fills).positions, s) == table_get(p.positions, s)
                + net_quantity(fills, s) by {
            assert(table_get(before.positions, s) == table_get(p.positions, s) + net_quantity(
                fills.drop_last(),
                s,
            ));
        }
    }
}

/// A fill is accepted exactly when everything it changes fits its machine
/// integer: the new position fits `i64` (it may be negative: selling more
/// than is held opens a short), the notional with the fee and the new cash
/// fit `i128`, the fees paid still fit `i128`, and one more trade can be
/// counted. The quantity moves the position as `quantity as i64`.
pub proof fn lemma_fill_accepted_iff_fits(
    p: PortfolioView,
    symbol: Seq<char>,
    side: Side,
    price: i64,
    quantity: u64,
    fee: i128,
)
    ensures
        p.fill_in_range(symbol, side, price, quantity, fee) <==> {
            let held = table_get(p.positions, symbol) as int;
            let signed = quantity as i64 as int;
            let notional = price as int * quantity as int;
            &&& side == Side::Buy ==> {
                &&& i64::MIN <= held + signed <= i64::MAX
                &&& i128::MIN <= notional + fee <= i128::MAX
                &&& i128::MIN <= p.cash - (notional + fee) <= i128::MAX
            }
            &&& side == Side::Sell ==> {
                &&& i64::MIN <= held - signed <= i64::MAX
                &&& i128::MIN <= notional - fee <= i128::MAX
                &&& i128::MIN <= p.cash + (notional - fee) <= i128::MAX
            }
            &&& i128::MIN <= p.fee_paid + fee <= i128::MAX
            &&& p.trade_count + 1 <= usize::MAX
        },
{
}

/// Selling from a flat position is accepted whenever the quantity fits `i64`
/// and the cash, the notional, the fee and the trade count fit: the position
/// simply goes negative.
pub proof fn lemma_short_sale_accepted(
    p: PortfolioView,
    symbol: Seq<char>,
    price: i64,
    quantity: u64,
    fee: i128,
)
    requires
        table_unique(p.positions),
        table_get(p.positions, symbol) == 0,
        quantity <= i64::MAX,
        i128::MIN <= price * quantity - fee <= i128::MAX,
        i128::MIN <= p.cash + (price * quantity - fee) <= i128::MAX,
        i128::MIN <= p.fee_paid + fee <= i128::MAX,
        p.trade_count + 1 <= usize::MAX,
    ensures
        p.fill_in_range(symbol, Side::Sell, price, quantity, fee),
        table_get(p.after_fill(symbol, Side::Sell, price, quantity, fee).positions, symbol) < 0
            || quantity == 0,
{
    lemma_fill_accepted_iff_fits(p, symbol, Side::Sell, price, quantity, fee);
    assert(quantity as i64 as int == quantity as int);
    let amount = (table_get(p.positions, symbol) + position_change(Side::Sell, quantity)) as i64;
    lemma_table_set_unique(p.positions, symbol, amount);
}

/// Positions marked where no price is known are worth nothing.
pub proof fn lemma_value_without_prices(ps: SymbolTable)
    ensures
        positions_value(ps, Seq::empty()) == 0,
    decreases ps.len(),
{
    if ps.len() > 0 {
        lemma_value_without_prices(ps.drop_last());
        assert(!table_has(Seq::<(Seq<char>, i64)>::empty(), ps.last().0));
    }
}

/// Applying two runs of fills one after the other is applying them together.
pub proof fn lemma_after_fills_concat(p: PortfolioView, a: Seq<FillTerms>, b: Seq<FillTerms>)
    ensures
        after_fills(p, a + b) == after_fills(after_fills(p, a), b),
        fills_in_range(p, a + b) == (fills_in_range(p, a) && fills_in_range(after_fills(p, a), b)),
    decreases b.len(),
{
    if b.len() == 0 {
        assert(a + b =~= a);
    } else {
        lemma_after_fills_concat(p, a, b.drop_last());
        assert((a + b).drop_last() =~= a + b.drop_last());
        assert((a + b).last() == b.last());
    }
}

} // verus!
