//! The header row of the feed's CSV and how a data row is read against it:
//! each column is the date, a known currency, or a placeholder that keeps
//! the alignment but never reaches a snapshot.

use crate::csv::{split_spec, trim, trim_spec};
use crate::currency::{currency_of, Currency};
use crate::date::{parse_date_spec, Date};
use crate::decimal::{spec_dec, Decimal};
use crate::rates::ExchangeRates;
use crate::text::{parse_decimal, parse_decimal_spec};
use vstd::prelude::*;

verus! {

/// What a column of the feed holds.
#[derive(Clone, Copy, Debug, Eq, PartialEq, Structural)]
pub enum Heading {
    /// A currency for which the column may carry a rate. The cell may still
    /// be blank or malformed row by row.
    Currency(Currency),
    /// The column holding each row's date.
    Date,
    /// A header naming no supported currency: kept so that later cells stay
    /// aligned with their columns, but never populating a snapshot.
    Invalid,
}

/// How a header cell past the first column reads.
pub open spec fn heading_spec(cell: Seq<char>) -> Heading {
    match currency_of(trim_spec(cell)) {
        Some(c) => Heading::Currency(c),
        None => Heading::Invalid,
    }
}

/// The headings of a header line: the first column is the date column, every
/// other column reads as its header cell.
pub open spec fn headings_spec(line: Seq<char>) -> Seq<Heading> {
    Seq::new(
        split_spec(line, ',').len(),
        |j: int|
            if j == 0 {
                Heading::Date
            } else {
                heading_spec(split_spec(line, ',')[j])
            },
    )
}

/// Read a header line into its headings.
pub fn parse_headings(line: &str) -> (r: Vec<Heading>)
    ensures
        r@ == headings_spec(line@),
{
    let cells = crate::csv::split_char(line, ',');
    let mut r: Vec<Heading> = Vec::new();
    let n = cells.len();
    let mut j: usize = 0;
    while j < n
        invariant
            0 <= j <= n,
            n == cells@.len(),
            n == split_spec(line@, ',').len(),
            forall|i: int| 0 <= i < n ==> (#[trigger] cells@[i])@ == split_spec(line@, ',')[i],
            r@.len() == j,
            forall|i: int| 0 <= i < j ==> #[trigger] r@[i] == headings_spec(line@)[i],
        decreases n - j,
    {
        if j == 0 {
            r.push(Heading::Date);
        } else {
            match Currency::reverse_lookup(trim(cells[j])) {
                Some(c) => r.push(Heading::Currency(c)),
                None => r.push(Heading::Invalid),
            }
        }
        j = j + 1;
    }
    proof {
        assert(r@ =~= headings_spec(line@));
    }
    r
}

/// A cell read as a rate: it must parse as a decimal and be positive.
pub open spec fn cell_rate(cell: Seq<char>) -> Option<Decimal> {
    match parse_decimal_spec(trim_spec(cell)) {
        Some(d) => if d.m() > 0 {
            Some(d)
        } else {
            None
        },
        None => None,
    }
}

/// The rate a row gives `c` among its first `j` columns: the last currency
/// column for `c` whose cell reads as a rate wins.
pub open spec fn row_rate_upto(
    hs: Seq<Heading>,
    cells: Seq<Seq<char>>,
    c: Currency,
    j: int,
) -> Option<Decimal>
    decreases j,
{
    if j <= 1 {
        None
    } else {
        let k = j - 1;
        if k < hs.len() && k < cells.len() && hs[k] == Heading::Currency(c) && cell_rate(
            cells[k],
        ) is Some {
            cell_rate(cells[k])
        } else {
            row_rate_upto(hs, cells, c, k)
        }
    }
}

/// The rate a row gives `c`: the euro, as the reference currency, is always
/// exactly one; any other currency comes from its column.
pub open spec fn row_rate(hs: Seq<Heading>, cells: Seq<Seq<char>>, c: Currency) -> Option<
    Decimal,
> {
    if c == Currency::Eur {
        Some(spec_dec(1, 0))
    } else {
        row_rate_upto(hs, cells, c, vstd::math::min(hs.len() as int, cells.len() as int))
    }
}

impl ExchangeRates {
    /// Parse a single-snapshot CSV: a header line naming the columns and
    /// one data line of rates (any further lines are ignored). The data
    /// line's first cell is its date tag and takes no part in the rates.
    pub fn from_csv(csv: &str) -> (r: Result<ExchangeRates, crate::error::Error>)
        ensures
            r is Ok <==> split_spec(csv@, '\n').len() >= 2,
            r matches Ok(snap) ==> forall|c: Currency| #[trigger] snap.rate_spec(c) == row_rate(
                headings_spec(split_spec(csv@, '\n')[0]),
                split_spec(split_spec(csv@, '\n')[1], ','),
                c,
            ),
            r matches Err(e) ==> e is Decode,
    {
        let lines = crate::csv::split_char(csv, '\n');
        if lines.len() < 2 {
            return Err(crate::error::Error::csv_row_missing("data"));
        }
        let hs = parse_headings(lines[0]);
        let cells = crate::csv::split_char(lines[1], ',');
        proof {
            assert(cells@.map_values(|t: &str| t@) =~= split_spec(
                split_spec(csv@, '\n')[1],
                ',',
            ));
        }
        Ok(build_row_snapshot(&hs, &cells))
    }
}

impl core::str::FromStr for ExchangeRates {
    type Err = crate::error::Error;

    fn from_str(s: &str) -> Result<ExchangeRates, crate::error::Error> {
        ExchangeRates::from_csv(s)
    }
}

/// The date of a data row: its first cell.
pub open spec fn row_date(line: Seq<char>) -> Option<Date> {
    parse_date_spec(trim_spec(split_spec(line, ',')[0]))
}

/// Build the snapshot a data row denotes, given the header's headings.
pub fn build_row_snapshot(hs: &Vec<Heading>, cells: &Vec<&str>) -> (r: ExchangeRates)
    ensures
        forall|c: Currency| #[trigger] r.rate_spec(c) == row_rate(
            hs@,
            cells@.map_values(|t: &str| t@),
            c,
        ),
{
    let ghost cseq = cells@.map_values(|t: &str| t@);
    let mut snap = ExchangeRates::empty();
    let n = if hs.len() <= cells.len() {
        hs.len()
    } else {
        cells.len()
    };
    let mut j: usize = 1;
    proof {
        assert(forall|c: Currency| row_rate_upto(hs@, cseq, c, 1) is None);
        if n == 0 {
            assert(forall|c: Currency| row_rate_upto(hs@, cseq, c, 0) is None);
        }
    }
    while j < n
        invariant
            1 <= j <= vstd::math::max(n as int, 1),
            n == vstd::math::min(hs@.len() as int, cells@.len() as int),
            cseq == cells@.map_values(|t: &str| t@),
            forall|c: Currency|
                c != Currency::Eur ==> #[trigger] snap.rate_spec(c) == row_rate_upto(
                    hs@,
                    cseq,
                    c,
                    j as int,
                ),
        decreases n - j,
    {
        proof {
            assert(cseq[j as int] == cells@[j as int]@);
        }
        match hs[j] {
            Heading::Currency(c) => {
                match parse_decimal(trim(cells[j])) {
                    Some(d) => {
                        if d.mantissa() > 0 {
                            snap = snap.with_rate(c, d);
                        }
                    },
                    None => {},
                }
            },
            _ => {},
        }
        j = j + 1;
    }
    let one = Decimal::one();
    proof {
        use_type_invariant(one);
        crate::decimal::lemma_spec_dec(1, 0);
        assert(spec_dec(1, 0).m() == 1 && spec_dec(1, 0).s() == 0);
        assert(one.m() * crate::arith::pow10(spec_dec(1, 0).s()) == spec_dec(1, 0).m()
            * crate::arith::pow10(one.s()));
        one.lemma_value_unique(spec_dec(1, 0));
    }
    let r = snap.with_rate(Currency::Eur, one);
    proof {
        assert forall|c: Currency| #[trigger] r.rate_spec(c) == row_rate(hs@, cseq, c) by {
            if c != Currency::Eur {
                if n >= 1 {
                    assert(row_rate_upto(hs@, cseq, c, n as int) == snap.rate_spec(c));
                } else {
                    assert(row_rate_upto(hs@, cseq, c, n as int) is None);
                }
            }
        }
    }
    r
}

} // verus!
