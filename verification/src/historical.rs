//! The historical record of daily exchange-rate snapshots: parsing the
//! feed's wide CSV into a time series and reading the series by date.

use crate::clock::today;
use crate::csv::{split_char, split_spec, trim};
use crate::currency::Currency;
use crate::date::Date;
use crate::error::Error;
use crate::exchange::Exchange;
use crate::heading::{build_row_snapshot, headings_spec, parse_headings, row_date, row_rate};
use crate::rates::ExchangeRates;
use crate::series::{resolved, TimeSeries};
use vstd::prelude::*;
use vstd::string::StrSliceExecFns;

verus! {

/// Operations on the historical record of rates published by the European
/// Central Bank.
#[derive(Clone, Copy, Debug)]
pub struct HistoricalExchangeRates;

/// The last data line carrying date `d`, or `0` where no line does (line
/// `0` is the header and never counts).
pub open spec fn last_row_with(lines: Seq<Seq<char>>, d: Date) -> int
    decreases lines.len(),
{
    if lines.len() <= 1 {
        0
    } else if row_date(lines.last()) == Some(d) {
        lines.len() - 1
    } else {
        last_row_with(lines.drop_last(), d)
    }
}

/// What a parsed series holds for each date: the snapshot of the last data
/// line carrying that date, and nothing else.
pub open spec fn parsed_series(csv: Seq<char>, ts: TimeSeries) -> bool {
    let lines = split_spec(csv, '\n');
    let hs = headings_spec(lines[0]);
    forall|d: Date|
        {
            let j = last_row_with(lines, d);
            if j == 0 {
                (#[trigger] ts.find_spec(d)) is None
            } else {
                ts.find_spec(d) matches Some(snap) && forall|c: Currency|
                    #[trigger] snap.rate_spec(c) == row_rate(hs, split_spec(lines[j], ','), c)
            }
        }
}

impl HistoricalExchangeRates {
    /// Parse the feed's wide CSV: the first line names a date column and
    /// the currency columns; every further line is one date's rates.
    ///
    /// A data line whose date cell does not parse is skipped whole; within
    /// a kept line, each cell that is no positive decimal is skipped and
    /// its currency omitted; a repeated date keeps the later line. Only an
    /// empty input fails: it has no header row.
    pub fn parse_csv(csv: &str) -> (r: Result<TimeSeries, Error>)
        ensures
            csv@.len() == 0 <==> r is Err,
            r matches Err(e) ==> e is Decode,
            r matches Ok(ts) ==> parsed_series(csv@, ts),
    {
        if csv.unicode_len() == 0 {
            return Err(Error::csv_row_missing("headers"));
        }
        let lines = split_char(csv, '\n');
        let ghost lseq = split_spec(csv@, '\n');
        let hs = parse_headings(lines[0]);
        let ghost ghs = headings_spec(lseq[0]);
        let mut ts = TimeSeries::empty();
        let n = lines.len();
        let mut j: usize = 1;
        proof {
            crate::csv::lemma_split_nonempty(csv@, '\n');
            assert forall|d: Date| inv_entry(ghs, lseq.subrange(0, 1), ts, d) by {
                assert(last_row_with(lseq.subrange(0, 1), d) == 0);
            }
        }
        while j < n
            invariant
                1 <= j <= n,
                n == lines@.len(),
                n == lseq.len(),
                lseq == split_spec(csv@, '\n'),
                ghs == headings_spec(lseq[0]),
                hs@ == ghs,
                forall|i: int| 0 <= i < n ==> (#[trigger] lines@[i])@ == lseq[i],
                forall|d: Date| inv_entry(ghs, lseq.subrange(0, j as int), ts, d),
            decreases n - j,
        {
            let ghost pre = lseq.subrange(0, j as int);
            let ghost post = lseq.subrange(0, j + 1 as int);
            proof {
                assert(post.drop_last() =~= pre);
                assert(post.last() == lseq[j as int]);
                crate::csv::lemma_split_nonempty(lseq[j as int], ',');
            }
            let cells = split_char(lines[j], ',');
            let ghost cseq = split_spec(lseq[j as int], ',');
            proof {
                assert(cells@.map_values(|t: &str| t@) =~= cseq);
            }
            let ghost prev_ts = ts;
            match crate::date::parse_date(trim(cells[0])) {
                Some(date) => {
                    let snap = build_row_snapshot(&hs, &cells);
                    ts = ts.insert(date, snap);
                    proof {
                        assert(cseq[0] == cells@[0]@);
                        assert(row_date(lseq[j as int]) == Some(date));
                        assert forall|d: Date| inv_entry(ghs, post, ts, d) by {
                            assert(inv_entry(ghs, pre, prev_ts, d));
                            lemma_last_row_bounds(pre, d);
                            if d == date {
                                assert(last_row_with(post, d) == j);
                                assert(post[j as int] == lseq[j as int]);
                            } else {
                                assert(last_row_with(post, d) == last_row_with(pre, d));
                                let k = last_row_with(pre, d);
                                if k != 0 {
                                    assert(post[k] == pre[k]);
                                }
                            }
                        }
                    }
                },
                None => {
                    proof {
                        assert(cseq[0] == cells@[0]@);
                        assert(row_date(lseq[j as int]) is None);
                        assert forall|d: Date| inv_entry(ghs, post, ts, d) by {
                            assert(inv_entry(ghs, pre, ts, d));
                            lemma_last_row_bounds(pre, d);
                            assert(last_row_with(post, d) == last_row_with(pre, d));
                            let k = last_row_with(pre, d);
                            if k != 0 {
                                assert(post[k] == pre[k]);
                            }
                        }
                    }
                },
            }
            j = j + 1;
        }
        proof {
            assert(lseq.subrange(0, n as int) =~= lseq);
            assert forall|d: Date|
                {
                    let k = last_row_with(lseq, d);
                    if k == 0 {
                        (#[trigger] ts.find_spec(d)) is None
                    } else {
                        ts.find_spec(d) matches Some(snap) && forall|c: Currency|
                            #[trigger] snap.rate_spec(c) == row_rate(
                                ghs,
                                split_spec(lseq[k], ','),
                                c,
                            )
                    }
                } by {
                assert(inv_entry(ghs, lseq.subrange(0, n as int), ts, d));
            }
        }
        Ok(ts)
    }

    /// The snapshot nearest the given date, today where none is given;
    /// `None` only on an empty series.
    pub fn get_ref_from<'a>(history: &'a TimeSeries, date: Option<Date>) -> (r: Option<
        &'a ExchangeRates,
    >)
        ensures
            r is Some <==> history.entries_spec().len() > 0,
            r matches Some(snap) ==> (date matches Some(d) ==> *snap == resolved(
                history.entries_spec(),
                d,
            )),
            r matches Some(snap) ==> (date is None ==> exists|d: Date|
                d.wf() && *snap == #[trigger] resolved(history.entries_spec(), d)),
    {
        let d = match date {
            Some(d) => d,
            None => today(),
        };
        let r = history.resolve(d);
        proof {
            if date is None {
                match r {
                    Some(snap) => {
                        assert(d.wf() && *snap == resolved(history.entries_spec(), d));
                    },
                    None => {},
                }
            }
        }
        r
    }

    /// As [`HistoricalExchangeRates::get_ref_from`], returning an owned
    /// snapshot.
    pub fn get_from(history: &TimeSeries, date: Option<Date>) -> (r: Option<ExchangeRates>)
        ensures
            r is Some <==> history.entries_spec().len() > 0,
            r matches Some(snap) ==> (date matches Some(d) ==> forall|c: Currency|
                #[trigger] snap.rate_spec(c) == resolved(history.entries_spec(), d).rate_spec(c)),
            r matches Some(snap) ==> (date is None ==> exists|d: Date|
                d.wf() && forall|c: Currency| #[trigger] snap.rate_spec(c) == resolved(
                    history.entries_spec(),
                    d,
                ).rate_spec(c)),
    {
        match Self::get_ref_from(history, date) {
            Some(snap) => {
                let out = snap.duplicate();
                proof {
                    if date is None {
                        let d = choose|d: Date|
                            d.wf() && *snap == #[trigger] resolved(history.entries_spec(), d);
                        assert(d.wf() && forall|c: Currency| #[trigger] out.rate_spec(c)
                            == resolved(history.entries_spec(), d).rate_spec(c));
                    }
                }
                Some(out)
            },
            None => None,
        }
    }

    /// Exchange a value into `currency` at the rates nearest the given
    /// date; `None` only on an empty series.
    pub fn exchange_opt_from<E: Exchange>(
        history: &TimeSeries,
        date: Option<Date>,
        currency: Currency,
        exchangeable: E,
    ) -> (r: Option<E>)
        requires
            forall|i: int|
                0 <= i < history.entries_spec().len() ==> exchangeable.exchangeable(
                    currency,
                    (#[trigger] history.entries_spec()[i]).1,
                ),
        ensures
            r is Some <==> history.entries_spec().len() > 0,
            r matches Some(e) ==> (date matches Some(d) ==> exchangeable.exchanged_to(
                currency,
                resolved(history.entries_spec(), d),
                e,
            )),
            r matches Some(e) ==> (date is None ==> exists|d: Date|
                d.wf() && exchangeable.exchanged_to(
                    currency,
                    #[trigger] resolved(history.entries_spec(), d),
                    e,
                )),
    {
        match Self::get_ref_from(history, date) {
            Some(rates) => {
                proof {
                    if history.entries_spec().len() > 0 {
                        match date {
                            Some(d) => {
                                crate::series::lemma_resolve_index_bounds(
                                    history.entries_spec(),
                                    d,
                                );
                            },
                            None => {
                                let d = choose|d: Date|
                                    d.wf() && *rates == #[trigger] resolved(
                                        history.entries_spec(),
                                        d,
                                    );
                                crate::series::lemma_resolve_index_bounds(
                                    history.entries_spec(),
                                    d,
                                );
                            },
                        }
                    }
                }
                Some(exchangeable.exchange(currency, rates))
            },
            None => None,
        }
    }

    /// As [`HistoricalExchangeRates::exchange_opt_from`], for callers that
    /// can rule an empty series out beforehand.
    pub fn exchange_from<E: Exchange>(
        history: &TimeSeries,
        date: Option<Date>,
        currency: Currency,
        exchangeable: E,
    ) -> (r: E)
        requires
            history.entries_spec().len() > 0,
            forall|i: int|
                0 <= i < history.entries_spec().len() ==> exchangeable.exchangeable(
                    currency,
                    (#[trigger] history.entries_spec()[i]).1,
                ),
        ensures
            date matches Some(d) ==> exchangeable.exchanged_to(
                currency,
                resolved(history.entries_spec(), d),
                r,
            ),
    {
        match Self::get_ref_from(history, date) {
            Some(rates) => {
                proof {
                    match date {
                        Some(d) => {
                            crate::series::lemma_resolve_index_bounds(history.entries_spec(), d);
                        },
                        None => {
                            let d = choose|d: Date|
                                d.wf() && *rates == #[trigger] resolved(
                                    history.entries_spec(),
                                    d,
                                );
                            crate::series::lemma_resolve_index_bounds(history.entries_spec(), d);
                        },
                    }
                }
                exchangeable.exchange(currency, rates)
            },
            None => {
                proof {
                    assert(false);
                }
                exchangeable
            },
        }
    }

    /// As [`HistoricalExchangeRates::get_from`], for callers that can rule
    /// an empty series out beforehand.
    pub fn index_from(history: &TimeSeries, date: Option<Date>) -> (r: ExchangeRates)
        requires
            history.entries_spec().len() > 0,
        ensures
            date matches Some(d) ==> forall|c: Currency|
                #[trigger] r.rate_spec(c) == resolved(history.entries_spec(), d).rate_spec(c),
    {
        match Self::get_from(history, date) {
            Some(snap) => snap,
            None => {
                proof {
                    assert(false);
                }
                ExchangeRates::empty()
            },
        }
    }

}

/// The bound of `last_row_with`: it stays among the lines.
pub proof fn lemma_last_row_bounds(lines: Seq<Seq<char>>, d: Date)
    ensures
        0 <= last_row_with(lines, d),
        lines.len() >= 1 ==> last_row_with(lines, d) < lines.len(),
    decreases lines.len(),
{
    if lines.len() > 1 {
        lemma_last_row_bounds(lines.drop_last(), d);
    }
}

/// The loop invariant of `parse_csv`, per date: what the series built so
/// far holds for `d` against the lines seen so far.
spec fn inv_entry(
    ghs: Seq<crate::heading::Heading>,
    seen: Seq<Seq<char>>,
    ts: TimeSeries,
    d: Date,
) -> bool {
    let k = last_row_with(seen, d);
    if k == 0 {
        ts.find_spec(d) is None
    } else {
        ts.find_spec(d) matches Some(snap) && forall|c: Currency|
            #[trigger] snap.rate_spec(c) == row_rate(ghs, split_spec(seen[k], ','), c)
    }
}

} // verus!
