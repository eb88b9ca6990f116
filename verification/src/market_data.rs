//! In-memory market data: a list of ticks, and a reader for CSV tick files.
use vstd::prelude::*;

use crate::model::{Tick, TickView};
use crate::text::{
    chars_of, lines_of, parse_i64, parse_i64_chars, parse_u64, parse_u64_chars, same_chars,
    split_chars, split_on, string_of, trim, trim_chars, views_of, lemma_split_nonempty,
    join_with, lemma_split_of_join, lemma_trim_of_trimmed, unicode_white_space,
};

verus! {

#[derive(Debug)]
pub struct MarketDataSimulator {
    ticks: Vec<Tick>,
}

#[derive(Debug, Clone, Copy, PartialEq, Eq, Structural)]
pub enum MarketDataError {
    Io,
    InvalidHeader,
    InvalidColumnCount { line: usize, actual: usize },
    InvalidTimestamp { line: usize },
    InvalidPrice { line: usize },
    InvalidQuantity { line: usize },
}

pub open spec fn ticks_view(ticks: Seq<Tick>) -> Seq<TickView> {
    ticks.map_values(|t: Tick| t@)
}

impl View for MarketDataSimulator {
    type V = Seq<TickView>;

    closed spec fn view(&self) -> Seq<TickView> {
        ticks_view(self.ticks@)
    }
}

/// The header line a tick file starts with.
pub open spec fn csv_header() -> Seq<char> {
    "timestamp,symbol,price,quantity"@
}

/// One data line, numbered from 1 with the header as line 1: nothing for a
/// blank line; otherwise four comma-separated fields (each trimmed) giving
/// timestamp, symbol, price and quantity, or the first field that is wrong.
pub open spec fn row_outcome(line: Seq<char>, line_number: usize) -> Option<
    Result<TickView, MarketDataError>,
> {
    let t = trim(line);
    if t.len() == 0 {
        None
    } else {
        let columns = split_on(t, ',').map_values(|c: Seq<char>| trim(c));
        if columns.len() != 4 {
            Some(
                Err(
                    MarketDataError::InvalidColumnCount {
                        line: line_number,
                        actual: columns.len() as usize,
                    },
                ),
            )
        } else {
            match parse_u64(columns[0]) {
                None => Some(Err(MarketDataError::InvalidTimestamp { line: line_number })),
                Some(timestamp) => match parse_i64(columns[2]) {
                    None => Some(Err(MarketDataError::InvalidPrice { line: line_number })),
                    Some(price) => match parse_u64(columns[3]) {
                        None => Some(Err(MarketDataError::InvalidQuantity { line: line_number })),
                        Some(quantity) => Some(
                            Ok(TickView { timestamp, symbol: columns[1], price, quantity }),
                        ),
                    },
                },
            }
        }
    }
}

/// The data lines in order (the first of them is line 2), stopping at the
/// first wrong line.
pub open spec fn rows_outcome(rows: Seq<Seq<char>>) -> Result<Seq<TickView>, MarketDataError>
    decreases rows.len(),
{
    if rows.len() == 0 {
        Ok(Seq::empty())
    } else {
        match rows_outcome(rows.drop_last()) {
            Err(e) => Err(e),
            Ok(ticks) => match row_outcome(rows.last(), (rows.len() + 1) as usize) {
                None => Ok(ticks),
                Some(Ok(tick)) => Ok(ticks.push(tick)),
                Some(Err(e)) => Err(e),
            },
        }
    }
}

/// The ticks of a CSV text: a header line, then one tick per non-blank line.
pub open spec fn csv_ticks(content: Seq<char>) -> Result<Seq<TickView>, MarketDataError> {
    let lines = lines_of(content);
    if lines.len() == 0 || trim(lines[0]) != csv_header() {
        Err(MarketDataError::InvalidHeader)
    } else {
        rows_outcome(lines.skip(1))
    }
}

/// Once a line is wrong, later lines change nothing.
pub proof fn lemma_rows_error_stays(rows: Seq<Seq<char>>, n: int)
    requires
        0 <= n <= rows.len(),
        rows_outcome(rows.take(n)) is Err,
    ensures
        rows_outcome(rows) == rows_outcome(rows.take(n)),
    decreases rows.len(),
{
    if n == rows.len() {
        assert(rows.take(n) =~= rows);
    } else {
        assert(rows.drop_last().take(n) =~= rows.take(n));
        lemma_rows_error_stays(rows.drop_last(), n);
    }
}

/// Reads one data line.
fn parse_row(line: &Vec<char>, line_number: usize) -> (row: Option<Result<Tick, MarketDataError>>)
    ensures
        match row {
            None => row_outcome(line@, line_number) is None,
            Some(Ok(tick)) => row_outcome(line@, line_number) == Some(
                Ok::<TickView, MarketDataError>(tick@),
            ),
            Some(Err(e)) => row_outcome(line@, line_number) == Some(
                Err::<TickView, MarketDataError>(e),
            ),
        },
{
    let trimmed = trim_chars(line);
    if trimmed.len() == 0 {
        return None;
    }
    let pieces = split_chars(&trimmed, ',');
    let ghost spec_columns = split_on(trimmed@, ',').map_values(|c: Seq<char>| trim(c));
    let mut columns: Vec<Vec<char>> = Vec::new();
    let mut i: usize = 0;
    while i < pieces.len()
        invariant
            i <= pieces@.len(),
            views_of(pieces@) == split_on(trimmed@, ','),
            spec_columns == split_on(trimmed@, ',').map_values(|c: Seq<char>| trim(c)),
            views_of(columns@) == spec_columns.take(i as int),
        decreases pieces@.len() - i,
    {
        let column = trim_chars(&pieces[i]);
        let ghost before = columns@;
        let ghost seen = column@;
        columns.push(column);
        proof {
            assert(views_of(columns@) =~= views_of(before).push(seen));
            assert(spec_columns.take(i + 1) =~= spec_columns.take(i as int).push(spec_columns[i as int]));
        }
        i = i + 1;
    }
    proof {
        assert(spec_columns.take(i as int) =~= spec_columns);
        assert(views_of(columns@) == spec_columns);
    }
    if columns.len() != 4 {
        return Some(
            Err(MarketDataError::InvalidColumnCount { line: line_number, actual: columns.len() }),
        );
    }
    let timestamp = match parse_u64_chars(&columns[0]) {
        Some(value) => value,
        None => return Some(Err(MarketDataError::InvalidTimestamp { line: line_number })),
    };
    let symbol = string_of(&columns[1]);
    let price = match parse_i64_chars(&columns[2]) {
        Some(value) => value,
        None => return Some(Err(MarketDataError::InvalidPrice { line: line_number })),
    };
    let quantity = match parse_u64_chars(&columns[3]) {
        Some(value) => value,
        None => return Some(Err(MarketDataError::InvalidQuantity { line: line_number })),
    };
    Some(Ok(Tick { symbol, price, quantity, timestamp }))
}

impl MarketDataSimulator {
    pub fn new(ticks: Vec<Tick>) -> (simulator: Self)
        ensures
            simulator@ == ticks_view(ticks@),
    {
        MarketDataSimulator { ticks }
    }

    /// Two BTCUSDT ticks: 100 000 at time 1, then 99 000 at time 2.
    pub fn demo_cross_ticks() -> (simulator: Self)
        ensures
            simulator@ == seq![
                TickView { timestamp: 1, symbol: "BTCUSDT"@, price: 100_000, quantity: 1 },
                TickView { timestamp: 2, symbol: "BTCUSDT"@, price: 99_000, quantity: 1 },
            ],
    {
        let ticks = vec![
            Tick { symbol: "BTCUSDT".to_owned(), price: 100_000, quantity: 1, timestamp: 1 },
            Tick { symbol: "BTCUSDT".to_owned(), price: 99_000, quantity: 1, timestamp: 2 },
        ];
        let simulator = Self::new(ticks);
        proof {
            assert(simulator@ =~= seq![
                TickView { timestamp: 1, symbol: "BTCUSDT"@, price: 100_000, quantity: 1 },
                TickView { timestamp: 2, symbol: "BTCUSDT"@, price: 99_000, quantity: 1 },
            ]);
        }
        simulator
    }

    pub fn len(&self) -> (count: usize)
        ensures
            count == self@.len(),
    {
        self.ticks.len()
    }

    pub fn is_empty(&self) -> (empty: bool)
        ensures
            empty == (self@.len() == 0),
    {
        self.ticks.len() == 0
    }

    /// The ticks, in order, for replay.
    pub fn into_ticks(self) -> (ticks: Vec<Tick>)
        ensures
            ticks_view(ticks@) == self@,
    {
        self.ticks
    }

    /// Reads ticks from CSV text: a header line
    /// `timestamp,symbol,price,quantity`, then one tick per non-blank line;
    /// fields and lines are trimmed of white space.
    pub fn from_csv_str(content: &str) -> (result: Result<Self, MarketDataError>)
        ensures
            match result {
                Ok(simulator) => csv_ticks(content@) == Ok::<Seq<TickView>, MarketDataError>(
                    simulator@,
                ),
                Err(e) => csv_ticks(content@) == Err::<Seq<TickView>, MarketDataError>(e),
            },
    {
        let chars = chars_of(content);
        let mut lines = split_chars(&chars, '\n');
        let ghost pieces = views_of(lines@);
        let ghost ls = lines_of(content@);
        proof {
            lemma_split_nonempty(content@, '\n');
        }
        if lines.len() > 0 && lines[lines.len() - 1].len() == 0 {
            lines.pop();
            proof {
                assert(views_of(lines@) =~= pieces.drop_last());
            }
        }
        proof {
            assert(views_of(lines@) =~= ls);
        }
        if lines.len() == 0 {
            return Err(MarketDataError::InvalidHeader);
        }
        let header = trim_chars(&lines[0]);
        let expected = chars_of("timestamp,symbol,price,quantity");
        if !same_chars(&header, &expected) {
            proof {
                assert(lines@[0]@ == ls[0]);
            }
            return Err(MarketDataError::InvalidHeader);
        }
        let ghost rows = ls.skip(1);
        let mut ticks: Vec<Tick> = Vec::new();
        let mut index: usize = 1;
        proof {
            assert(lines@[0]@ == ls[0]);
            assert(rows.take(0) =~= Seq::<Seq<char>>::empty());
            assert(ticks_view(ticks@) =~= Seq::<TickView>::empty());
        }
        while index < lines.len()
            invariant
                1 <= index <= lines@.len(),
                views_of(lines@) == ls,
                ls == lines_of(content@),
                ls.len() > 0,
                trim(ls[0]) == csv_header(),
                rows == ls.skip(1),
                rows_outcome(rows.take(index - 1)) == Ok::<Seq<TickView>, MarketDataError>(
                    ticks_view(ticks@),
                ),
            decreases lines@.len() - index,
        {
            let line_number = index + 1;
            let row = parse_row(&lines[index], line_number);
            proof {
                assert(rows.take(index as int).drop_last() =~= rows.take(index - 1));
                assert(rows.take(index as int).last() == lines@[index as int]@);
            }
            match row {
                None => {},
                Some(Ok(tick)) => {
                    let ghost before = ticks@;
                    let ghost seen = tick@;
                    ticks.push(tick);
                    proof {
                        assert(ticks_view(ticks@) =~= ticks_view(before).push(seen));
                    }
                },
                Some(Err(e)) => {
                    proof {
                        assert(rows_outcome(rows.take(index as int)) == Err::<
                            Seq<TickView>,
                            MarketDataError,
                        >(e));
                        lemma_rows_error_stays(rows, index as int);
                        assert(csv_ticks(content@) == rows_outcome(rows));
                    }
                    return Err(e);
                },
            }
            index = index + 1;
        }
        proof {
            assert(rows.take(index - 1) =~= rows);
        }
        Ok(MarketDataSimulator::new(ticks))
    }
}

/// A field of a data line: not empty, without a comma, and neither
/// starting nor ending with white space.
pub open spec fn plain_field(f: Seq<char>) -> bool {
    &&& f.len() > 0
    &&& forall|k: int| 0 <= k < f.len() ==> #[trigger] f[k] != ','
    &&& !unicode_white_space(f[0])
    &&& !unicode_white_space(f.last())
}

/// A data line `timestamp,symbol,price,quantity` gives the tick with the
/// timestamp, symbol, price and quantity its fields write, in that order.
/// When a field does not parse, the line is refused for the first such
/// field, naming the line's number: the timestamp, then the price, then the
/// quantity (the symbol is any text).
pub proof fn lemma_data_line(
    timestamp: Seq<char>,
    symbol: Seq<char>,
    price: Seq<char>,
    quantity: Seq<char>,
    line: usize,
)
    requires
        plain_field(timestamp),
        plain_field(symbol),
        plain_field(price),
        plain_field(quantity),
    ensures
        ({
            let row = join_with(seq![timestamp, symbol, price, quantity], ',');
            &&& parse_u64(timestamp) is None ==> row_outcome(row, line) == Some(
                Err::<TickView, MarketDataError>(MarketDataError::InvalidTimestamp { line }),
            )
            &&& (parse_u64(timestamp) is Some && parse_i64(price) is None) ==> row_outcome(row, line)
                == Some(Err::<TickView, MarketDataError>(MarketDataError::InvalidPrice { line }))
            &&& (parse_u64(timestamp) is Some && parse_i64(price) is Some && parse_u64(quantity) is None)
                ==> row_outcome(row, line) == Some(
                Err::<TickView, MarketDataError>(MarketDataError::InvalidQuantity { line }),
            )
            &&& (parse_u64(timestamp) is Some && parse_i64(price) is Some && parse_u64(quantity) is Some)
                ==> row_outcome(row, line) == Some(
                Ok::<TickView, MarketDataError>(
                    TickView {
                        timestamp: parse_u64(timestamp)->Some_0,
                        symbol,
                        price: parse_i64(price)->Some_0,
                        quantity: parse_u64(quantity)->Some_0,
                    },
                ),
            )
        }),
{
    let fields = seq![timestamp, symbol, price, quantity];
    let row = join_with(fields, ',');
    assert(fields.drop_last() =~= seq![timestamp, symbol, price]);
    assert(seq![timestamp, symbol, price].drop_last() =~= seq![timestamp, symbol]);
    assert(seq![timestamp, symbol].drop_last() =~= seq![timestamp]);
    assert(join_with(seq![timestamp], ',') == timestamp);
    let j2 = join_with(seq![timestamp, symbol], ',');
    assert(j2 == timestamp + seq![','] + symbol);
    let j3 = join_with(seq![timestamp, symbol, price], ',');
    assert(j3 == j2 + seq![','] + price);
    assert(row == j3 + seq![','] + quantity);
    assert(row[0] == timestamp[0]);
    assert(row.last() == quantity.last());
    lemma_trim_of_trimmed(row);
    assert forall|i: int, k: int| 0 <= i < fields.len() && 0 <= k < fields[i].len() implies #[trigger] fields[i][k]
        != ',' by {
        assert(plain_field(fields[i]));
    }
    lemma_split_of_join(fields, ',');
    lemma_trim_of_trimmed(timestamp);
    lemma_trim_of_trimmed(symbol);
    lemma_trim_of_trimmed(price);
    lemma_trim_of_trimmed(quantity);
    let columns = split_on(trim(row), ',').map_values(|c: Seq<char>| trim(c));
    assert(columns =~= fields);
}

/// Reading data lines one more at a time, numbering them from 2 (the header
/// is line 1): a blank line changes nothing, a line that gives a tick adds
/// it after the ticks before, and a wrong line is the error of the whole
/// read, reported under its own number, which is the number of lines before
/// it plus two.
pub proof fn lemma_rows_one_more(rows: Seq<Seq<char>>, line: Seq<char>)
    requires
        rows_outcome(rows) is Ok,
        rows.len() + 2 <= usize::MAX,
    ensures
        trim(line).len() == 0 ==> rows_outcome(rows.push(line)) == rows_outcome(rows),
        row_outcome(line, (rows.len() + 2) as usize) matches Some(Ok(tick)) ==> rows_outcome(
            rows.push(line),
        ) == Ok::<Seq<TickView>, MarketDataError>(rows_outcome(rows)->Ok_0.push(tick)),
        row_outcome(line, (rows.len() + 2) as usize) matches Some(Err(e)) ==> rows_outcome(
            rows.push(line),
        ) == Err::<Seq<TickView>, MarketDataError>(e),
{
    let r = rows.push(line);
    assert(r.drop_last() =~= rows);
    assert(r.last() == line);
}

} // verus!
