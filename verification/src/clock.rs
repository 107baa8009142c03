//! The wall clock, reduced to plain values: only the current calendar date
//! is ever asked of it.

use crate::date::Date;
use vstd::prelude::*;

verus! {

/// Relies on chrono's `Local::now` and `Datelike`: the current local
/// calendar date as year, month and day. Chrono only hands out real dates,
/// so the month and the day are in range; nothing more can be promised of a
/// clock.
#[verifier::external_body]
fn now_ymd() -> (r: (i64, u32, u32))
    ensures
        1 <= r.1 <= 12,
        1 <= r.2 <= 31,
{
    let now = chrono::Local::now().date_naive();
    (
        chrono::Datelike::year(&now) as i64,
        chrono::Datelike::month(&now),
        chrono::Datelike::day(&now),
    )
}

/// The current local calendar date. A reading outside the supported year
/// range, or one this calendar cannot place, falls back to the earliest
/// supported date.
pub fn today() -> (r: Date)
    ensures
        r.wf(),
{
    let (y, m, d) = now_ymd();
    if 1 <= y && y <= 9999 {
        match Date::new(y as u32, m, d) {
            Some(date) => date,
            None => Date { year: 1, month: 1, day: 1 },
        }
    } else {
        Date { year: 1, month: 1, day: 1 }
    }
}

} // verus!
