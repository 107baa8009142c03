//! A time series of exchange-rate snapshots: one snapshot per calendar
//! date, kept in strictly ascending date order, looked up by nearest
//! available date.

use crate::date::{date_le, date_lt, lemma_date_order_total, lemma_date_order_trans, Date};
use crate::rates::ExchangeRates;
use vstd::prelude::*;

verus! {

/// Entries in strictly ascending date order.
pub open spec fn sorted(s: Seq<(Date, ExchangeRates)>) -> bool {
    forall|i: int| 0 <= i && i + 1 < s.len() ==> date_lt(#[trigger] s[i].0, s[i + 1].0)
}

/// The snapshot stored for `d`, if any.
pub open spec fn seq_lookup(s: Seq<(Date, ExchangeRates)>, d: Date) -> Option<ExchangeRates>
    decreases s.len(),
{
    if s.len() == 0 {
        None
    } else if s[0].0 == d {
        Some(s[0].1)
    } else {
        seq_lookup(s.subrange(1, s.len() as int), d)
    }
}

/// The number of entries dated `d` or earlier.
pub open spec fn count_le(s: Seq<(Date, ExchangeRates)>, d: Date) -> int
    decreases s.len(),
{
    if s.len() == 0 {
        0
    } else {
        count_le(s.drop_last(), d) + if date_le(s.last().0, d) {
            1int
        } else {
            0int
        }
    }
}

/// The entry `resolve` serves for `d`: the latest entry dated `d` or
/// earlier, and failing that the earliest entry of all.
pub open spec fn resolve_index(s: Seq<(Date, ExchangeRates)>, d: Date) -> int {
    if count_le(s, d) > 0 {
        count_le(s, d) - 1
    } else {
        0
    }
}

/// The snapshot `resolve` serves for `d` on `s`.
pub open spec fn resolved(s: Seq<(Date, ExchangeRates)>, d: Date) -> ExchangeRates {
    s[resolve_index(s, d)].1
}

/// Adjacent order extends to any two positions.
pub proof fn lemma_sorted_global(s: Seq<(Date, ExchangeRates)>, i: int, j: int)
    requires
        sorted(s),
        0 <= i < j < s.len(),
    ensures
        date_lt(s[i].0, s[j].0),
    decreases j - i,
{
    if i + 1 == j {
    } else {
        lemma_sorted_global(s, i, j - 1);
        lemma_date_order_total(s[i].0, s[j - 1].0);
        lemma_date_order_total(s[j - 1].0, s[j].0);
        lemma_date_order_trans(s[i].0, s[j - 1].0, s[j].0);
        lemma_date_order_total(s[i].0, s[j].0);
    }
}

/// Where every entry is dated `d` or earlier, all are counted.
proof fn lemma_count_le_all(s: Seq<(Date, ExchangeRates)>, d: Date)
    requires
        forall|j: int| 0 <= j < s.len() ==> date_le((#[trigger] s[j]).0, d),
    ensures
        count_le(s, d) == s.len(),
    decreases s.len(),
{
    if s.len() > 0 {
        assert(forall|j: int| 0 <= j < s.len() - 1 ==> s.drop_last()[j] == s[j]);
        lemma_count_le_all(s.drop_last(), d);
    }
}

/// The count of entries dated `d` or earlier never leaves the sequence.
pub proof fn lemma_count_le_bounds(s: Seq<(Date, ExchangeRates)>, d: Date)
    ensures
        0 <= count_le(s, d) <= s.len(),
    decreases s.len(),
{
    if s.len() > 0 {
        lemma_count_le_bounds(s.drop_last(), d);
    }
}

/// The resolved entry always exists on a covered series.
pub proof fn lemma_resolve_index_bounds(s: Seq<(Date, ExchangeRates)>, d: Date)
    requires
        s.len() > 0,
    ensures
        0 <= resolve_index(s, d) < s.len(),
{
    lemma_count_le_bounds(s, d);
}

/// The nearest-date policy, spelt out for a series of three dates
/// `D1 < D2 < D3`: a date between `D1` and `D2` resolves to `D1`'s entry, a
/// date before `D1` to `D1`'s, a date after `D3` to `D3`'s, and a date with
/// an entry of its own to that entry.
pub proof fn lemma_resolve_nearest(s: Seq<(Date, ExchangeRates)>, d: Date)
    requires
        sorted(s),
        s.len() == 3,
    ensures
        date_lt(s[0].0, d) && date_lt(d, s[1].0) ==> resolve_index(s, d) == 0,
        date_lt(d, s[0].0) ==> resolve_index(s, d) == 0,
        date_lt(s[2].0, d) ==> resolve_index(s, d) == 2,
        forall|i: int|
            0 <= i < 3 && (#[trigger] s[i]).0 == d ==> resolve_index(s, d) == i,
{
    let s2 = s.drop_last();
    let s1 = s2.drop_last();
    let s0 = s1.drop_last();
    assert(s0.len() == 0);
    assert(s1 =~= seq![s[0]]);
    assert(s2 =~= seq![s[0], s[1]]);
    assert(s1.last() == s[0] && s2.last() == s[1] && s.last() == s[2]);
    assert(count_le(s, d) == count_le(s2, d) + if date_le(s[2].0, d) {
        1int
    } else {
        0int
    });
    assert(count_le(s2, d) == count_le(s1, d) + if date_le(s[1].0, d) {
        1int
    } else {
        0int
    });
    assert(count_le(s1, d) == count_le(s0, d) + if date_le(s[0].0, d) {
        1int
    } else {
        0int
    });
    assert(count_le(s0, d) == 0);
    lemma_date_order_total(s[0].0, s[1].0);
    lemma_date_order_total(s[1].0, s[2].0);
    lemma_date_order_total(s[0].0, d);
    lemma_date_order_total(s[1].0, d);
    lemma_date_order_total(s[2].0, d);
    lemma_date_order_total(d, s[0].0);
    lemma_date_order_total(d, s[1].0);
    lemma_date_order_total(d, s[2].0);
    if date_le(s[1].0, d) {
        lemma_date_order_trans(s[0].0, s[1].0, d);
    }
    if date_le(s[2].0, d) {
        lemma_date_order_trans(s[1].0, s[2].0, d);
    }
    lemma_date_order_trans(s[0].0, s[1].0, s[2].0);
    if date_le(d, s[1].0) {
        lemma_date_order_trans(d, s[1].0, s[2].0);
    }
    if date_le(d, s[0].0) {
        lemma_date_order_trans(d, s[0].0, s[1].0);
    }
}

/// A lookup lands on a present date's own entry.
proof fn lemma_lookup_at(s: Seq<(Date, ExchangeRates)>, i: int)
    requires
        0 <= i < s.len(),
        forall|j: int| 0 <= j < i ==> (#[trigger] s[j]).0 != s[i].0,
    ensures
        seq_lookup(s, s[i].0) == Some(s[i].1),
    decreases s.len(),
{
    if i == 0 {
    } else {
        let t = s.subrange(1, s.len() as int);
        assert(forall|k: int| 0 <= k < t.len() ==> t[k] == s[k + 1]);
        lemma_lookup_at(t, i - 1);
    }
}

/// A lookup misses where no entry carries the date.
proof fn lemma_lookup_none(s: Seq<(Date, ExchangeRates)>, d: Date)
    requires
        forall|j: int| 0 <= j < s.len() ==> (#[trigger] s[j]).0 != d,
    ensures
        seq_lookup(s, d) is None,
    decreases s.len(),
{
    if s.len() > 0 {
        let t = s.subrange(1, s.len() as int);
        assert(forall|k: int| 0 <= k < t.len() ==> t[k] == s[k + 1]);
        lemma_lookup_none(t, d);
    }
}

/// A time series: for each covered calendar date, the exchange-rate snapshot
/// valid on it. Replaced wholesale on refresh, never edited in place.
#[derive(Debug)]
pub struct TimeSeries {
    entries: Vec<(Date, ExchangeRates)>,
}

impl TimeSeries {
    /// Entries are kept strictly ascending by date.
    #[verifier::type_invariant]
    pub closed spec fn inv(self) -> bool {
        sorted(self.entries@)
    }

    /// The entries, in date order.
    pub closed spec fn entries_spec(self) -> Seq<(Date, ExchangeRates)> {
        self.entries@
    }

    /// The snapshot stored for `d`, if any.
    pub open spec fn find_spec(self, d: Date) -> Option<ExchangeRates> {
        seq_lookup(self.entries_spec(), d)
    }

    /// The series' order, stated for callers.
    pub proof fn lemma_ordered(self)
        requires
            self.inv(),
        ensures
            sorted(self.entries_spec()),
    {
    }

    /// A series with no entries.
    pub fn empty() -> (r: TimeSeries)
        ensures
            r.entries_spec().len() == 0,
    {
        TimeSeries { entries: Vec::new() }
    }

    /// The number of dates covered.
    pub fn len(&self) -> (r: usize)
        ensures
            r == self.entries_spec().len(),
    {
        self.entries.len()
    }

    /// The entry at a position, earliest first.
    pub fn entry_at(&self, i: usize) -> (r: (Date, ExchangeRates))
        requires
            i < self.entries_spec().len(),
        ensures
            r.0 == self.entries_spec()[i as int].0,
            forall|c: crate::currency::Currency| #[trigger] r.1.rate_spec(c)
                == self.entries_spec()[i as int].1.rate_spec(c),
    {
        let e = &self.entries[i];
        (e.0, e.1.duplicate())
    }

    /// The series with `date` mapped to `snap`: a fresh date takes its
    /// place in the order, a present one has its snapshot replaced.
    pub fn insert(self, date: Date, snap: ExchangeRates) -> (r: TimeSeries)
        ensures
            r.find_spec(date) == Some(snap),
            forall|d2: Date| d2 != date ==> #[trigger] r.find_spec(d2) == self.find_spec(d2),
            r.entries_spec().len() <= self.entries_spec().len() + 1,
    {
        proof {
            use_type_invariant(&self);
        }
        let ghost olds = self.entries@;
        let mut entries = self.entries;
        let n = entries.len();
        let mut i: usize = 0;
        while i < n
            invariant_except_break
                0 <= i <= n,
                n == entries@.len(),
                entries@ == olds,
                forall|j: int| 0 <= j < i ==> date_lt((#[trigger] entries@[j]).0, date),
            ensures
                0 <= i <= n,
                n == entries@.len(),
                entries@ == olds,
                forall|j: int| 0 <= j < i ==> date_lt((#[trigger] entries@[j]).0, date),
                i < n ==> date_le(date, entries@[i as int].0),
            decreases n - i,
        {
            let e = &entries[i];
            if !e.0.lt(date) {
                proof {
                    lemma_date_order_total(date, entries@[i as int].0);
                }
                break ;
            }
            i = i + 1;
        }
        let replacing: bool = if i < n {
            let e = &entries[i];
            e.0 == date
        } else {
            false
        };
        if replacing {
            proof {
                assert(olds[i as int].0 == date);
            }
            entries.set(i, (date, snap));
            let r = TimeSeries { entries };
            proof {
                assert forall|k: int| 0 <= k && k + 1 < r.entries@.len() implies date_lt(
                    (#[trigger] r.entries@[k]).0,
                    r.entries@[k + 1].0,
                ) by {
                    assert(r.entries@[k].0 == olds[k].0);
                    assert(r.entries@[k + 1].0 == olds[k + 1].0);
                }
                assert forall|j: int| 0 <= j < i implies (#[trigger] r.entries@[j]).0 != date by {
                    assert(r.entries@[j] == olds[j]);
                }
                lemma_lookup_at(r.entries@, i as int);
                assert forall|d2: Date| d2 != date implies #[trigger] seq_lookup(r.entries@, d2)
                    == seq_lookup(olds, d2) by {
                    lemma_insert_frame(olds, r.entries@, i as int, date, d2);
                }
            }
            r
        } else {
            entries.insert(i, (date, snap));
            let r = TimeSeries { entries };
            proof {
                olds.insert_ensures(i as int, (date, snap));
                assert forall|k: int| 0 <= k && k + 1 < r.entries@.len() implies date_lt(
                    (#[trigger] r.entries@[k]).0,
                    r.entries@[k + 1].0,
                ) by {
                    if k + 1 < i {
                        assert(r.entries@[k] == olds[k] && r.entries@[k + 1] == olds[k + 1]);
                    } else if k + 1 == i {
                        assert(r.entries@[k] == olds[k]);
                    } else if k == i {
                        assert(r.entries@[k + 1] == olds[k]);
                        lemma_date_order_total(date, olds[k].0);
                    } else {
                        assert(r.entries@[k] == olds[k - 1] && r.entries@[k + 1] == olds[k]);
                    }
                }
                assert forall|j: int| 0 <= j < i implies (#[trigger] r.entries@[j]).0 != date by {
                    assert(r.entries@[j] == olds[j]);
                }
                lemma_lookup_at(r.entries@, i as int);
                assert forall|d2: Date| d2 != date implies #[trigger] seq_lookup(r.entries@, d2)
                    == seq_lookup(olds, d2) by {
                    lemma_insert_new_frame(olds, r.entries@, i as int, date, d2);
                }
            }
            r
        }
    }

    /// The snapshot nearest to `date`: the entry for `date` itself where
    /// present, else the latest earlier entry, else the earliest entry of
    /// all; `None` only on an empty series.
    pub fn resolve(&self, date: Date) -> (r: Option<&ExchangeRates>)
        ensures
            r is Some <==> self.entries_spec().len() > 0,
            r matches Some(snap) ==> *snap == self.entries_spec()[resolve_index(
                self.entries_spec(),
                date,
            )].1,
    {
        proof {
            use_type_invariant(&*self);
        }
        let n = self.entries.len();
        if n == 0 {
            return None;
        }
        let mut i: usize = 0;
        let mut found: usize = 0;
        let mut any = false;
        proof {
            assert(self.entries@.subrange(0, 0) =~= Seq::<(Date, ExchangeRates)>::empty());
        }
        while i < n
            invariant
                0 <= i <= n,
                n == self.entries@.len(),
                sorted(self.entries@),
                any ==> found < i,
                count_le(self.entries@.subrange(0, i as int), date) == if any {
                    found + 1
                } else {
                    0
                },
            decreases n - i,
        {
            let ghost pre = self.entries@.subrange(0, i as int);
            let ghost post = self.entries@.subrange(0, i + 1 as int);
            proof {
                assert(post.drop_last() =~= pre);
                assert(post.last() == self.entries@[i as int]);
            }
            let e = &self.entries[i];
            if e.0.le(date) {
                proof {
                    assert forall|j: int| 0 <= j < post.len() implies date_le(
                        (#[trigger] post[j]).0,
                        date,
                    ) by {
                        if j < i {
                            lemma_sorted_global(self.entries@, j, i as int);
                            lemma_date_order_trans(
                                self.entries@[j].0,
                                self.entries@[i as int].0,
                                date,
                            );
                        }
                    }
                    lemma_count_le_all(post, date);
                }
                found = i;
                any = true;
            }
            i = i + 1;
        }
        proof {
            assert(self.entries@.subrange(0, n as int) =~= self.entries@);
        }
        if any {
            Some(&self.entries[found].1)
        } else {
            Some(&self.entries[0].1)
        }
    }
}

/// Replacing one entry's snapshot leaves every other date's lookup alone.
proof fn lemma_insert_frame(
    olds: Seq<(Date, ExchangeRates)>,
    news: Seq<(Date, ExchangeRates)>,
    i: int,
    date: Date,
    d2: Date,
)
    requires
        0 <= i < olds.len(),
        news == olds.update(i, (date, snap_of(news, i))),
        olds[i].0 == date,
        d2 != date,
    ensures
        seq_lookup(news, d2) == seq_lookup(olds, d2),
    decreases olds.len(),
{
    if i == 0 {
        assert(news.subrange(1, news.len() as int) =~= olds.subrange(1, olds.len() as int));
    } else {
        assert(news[0] == olds[0]);
        if olds[0].0 == d2 {
        } else {
            let to = olds.subrange(1, olds.len() as int);
            let tn = news.subrange(1, news.len() as int);
            assert(tn =~= to.update(i - 1, (date, snap_of(news, i))));
            lemma_insert_frame(to, tn, i - 1, date, d2);
        }
    }
}

/// The snapshot sitting at a position.
spec fn snap_of(s: Seq<(Date, ExchangeRates)>, i: int) -> ExchangeRates {
    s[i].1
}

/// Inserting an entry with a fresh date leaves every other date's lookup
/// alone.
proof fn lemma_insert_new_frame(
    olds: Seq<(Date, ExchangeRates)>,
    news: Seq<(Date, ExchangeRates)>,
    i: int,
    date: Date,
    d2: Date,
)
    requires
        0 <= i <= olds.len(),
        news == olds.insert(i, (date, snap_of(news, i))),
        d2 != date,
    ensures
        seq_lookup(news, d2) == seq_lookup(olds, d2),
    decreases olds.len(),
{
    if i == 0 {
        assert(news.subrange(1, news.len() as int) =~= olds);
    } else {
        assert(news[0] == olds[0]);
        if olds[0].0 == d2 {
        } else {
            let to = olds.subrange(1, olds.len() as int);
            let tn = news.subrange(1, news.len() as int);
            assert(tn =~= to.insert(i - 1, (date, snap_of(news, i))));
            lemma_insert_new_frame(to, tn, i - 1, date, d2);
        }
    }
}

} // verus!
