//! The cache slot for the historical series: lazily populated, refreshed
//! once the calendar date has advanced past the last refresh, and never
//! poisoned by a failed refresh. The decisions live here; whoever drives
//! the cache performs the fetch they call for and installs the result.

use crate::date::{date_le, date_lt, Date};
use crate::series::TimeSeries;
use vstd::prelude::*;

verus! {

/// One cache slot: nothing yet, or a series with the date it was refreshed.
pub struct Cache {
    state: Option<(TimeSeries, Date)>,
}

impl Cache {
    /// The held series, if the cache is populated.
    pub closed spec fn series_spec(self) -> Option<TimeSeries> {
        match self.state {
            Some((s, _)) => Some(s),
            None => None,
        }
    }

    /// The date of the last successful refresh, if any.
    pub closed spec fn as_of_spec(self) -> Option<Date> {
        match self.state {
            Some((_, d)) => Some(d),
            None => None,
        }
    }

    /// An unpopulated cache.
    pub fn new() -> (r: Cache)
        ensures
            r.series_spec() is None,
            r.as_of_spec() is None,
    {
        Cache { state: None }
    }

    /// Whether serving a read on `today` first requires a refresh: the cache
    /// is empty, or its last refresh lies on an earlier calendar date.
    pub fn needs_refresh(&self, today: Date) -> (r: bool)
        ensures
            r == match self.as_of_spec() {
                Some(as_of) => date_lt(as_of, today),
                None => true,
            },
    {
        match &self.state {
            Some((_, as_of)) => as_of.lt(today),
            None => true,
        }
    }

    /// Install a freshly fetched series, replacing the old one wholesale.
    /// After an installation dated `today`, reads on `today` need no
    /// further refresh.
    pub fn install(&mut self, series: TimeSeries, today: Date)
        ensures
            final(self).series_spec() == Some(series),
            final(self).as_of_spec() == Some(today),
            !(match final(self).as_of_spec() {
                Some(as_of) => date_lt(as_of, today),
                None => true,
            }),
    {
        self.state = Some((series, today));
    }

    /// The held series, to serve reads from; a failed refresh leaves it as
    /// it was.
    pub fn series(&self) -> (r: Option<&TimeSeries>)
        ensures
            match r {
                Some(s) => self.series_spec() == Some(*s),
                None => self.series_spec() is None,
            },
    {
        match &self.state {
            Some((s, _)) => Some(s),
            None => None,
        }
    }

    /// The date of the last successful refresh.
    pub fn as_of(&self) -> (r: Option<Date>)
        ensures
            r == self.as_of_spec(),
    {
        match &self.state {
            Some((_, d)) => Some(*d),
            None => None,
        }
    }

    /// A cache refreshed today stays fresh for the rest of the day: within
    /// one staleness window, at most one refresh is ever called for.
    pub proof fn lemma_refresh_once(self, today: Date)
        requires
            self.as_of_spec() matches Some(as_of) && date_le(today, as_of),
        ensures
            !(match self.as_of_spec() {
                Some(as_of) => date_lt(as_of, today),
                None => true,
            }),
    {
        match self.as_of_spec() {
            Some(d) => {
                crate::date::lemma_date_order_total(d, today);
            },
            None => {},
        }
    }
}

} // verus!
