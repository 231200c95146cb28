//! How many services run in a month.

use vstd::prelude::*;
use crate::calendar::{days_per_month, month_days, CalendarError};
use crate::numerals::parsed;
use crate::records::Quantity;

verus! {

/// The services of one calendar of a route and direction, and the days of
/// the week on which that calendar runs.
#[derive(Debug, Clone, Copy, PartialEq, Eq)]
pub struct ServiceCounts {
    /// How many services the calendar has.
    pub freq: Quantity,
    /// Above zero where it runs on Mondays.
    pub monday: i8,
    /// Above zero where it runs on Tuesdays.
    pub tuesday: i8,
    /// Above zero where it runs on Wednesdays.
    pub wednesday: i8,
    /// Above zero where it runs on Thursdays.
    pub thursday: i8,
    /// Above zero where it runs on Fridays.
    pub friday: i8,
    /// Above zero where it runs on Saturdays.
    pub saturday: i8,
    /// Above zero where it runs on Sundays.
    pub sunday: i8,
}

/// The services of a week and the days of the month for which they are to
/// be counted. The month's services are estimated as `weekly` times `days`
/// over seven.
#[derive(Debug, Clone, Copy, PartialEq, Eq, Structural)]
pub struct ServiceLevel {
    /// The services of one week.
    pub weekly: u64,
    /// The days of the month.
    pub days: u32,
}

/// Whether the calendar `row` runs on day `day` of the week, Monday being 0.
pub open spec fn runs_on(row: ServiceCounts, day: int) -> bool {
    if day == 0 {
        row.monday > 0
    } else if day == 1 {
        row.tuesday > 0
    } else if day == 2 {
        row.wednesday > 0
    } else if day == 3 {
        row.thursday > 0
    } else if day == 4 {
        row.friday > 0
    } else if day == 5 {
        row.saturday > 0
    } else if day == 6 {
        row.sunday > 0
    } else {
        false
    }
}

/// The most services that any one calendar runs on day `day`: calendars of
/// different date ranges overlap, so the greatest stands for the day.
pub open spec fn day_peak(rows: Seq<ServiceCounts>, day: int) -> nat
    decreases rows.len(),
{
    if rows.len() == 0 {
        0
    } else {
        let before = day_peak(rows.drop_last(), day);
        if runs_on(rows.last(), day) && before < rows.last().freq {
            rows.last().freq as nat
        } else {
            before
        }
    }
}

/// The services of the days of the week before `day`.
pub open spec fn week_total(rows: Seq<ServiceCounts>, day: int) -> nat
    decreases day,
{
    if day <= 0 {
        0
    } else {
        week_total(rows, day - 1) + day_peak(rows, day - 1)
    }
}

/// The day's peak is the number of services of a calendar that runs on the
/// day and no calendar that runs on it has more; it is zero where none runs.
pub proof fn lemma_day_peak(rows: Seq<ServiceCounts>, day: int)
    ensures
        forall|i: int|
            0 <= i < rows.len() && runs_on(#[trigger] rows[i], day) ==> rows[i].freq <= day_peak(
                rows,
                day,
            ),
        day_peak(rows, day) == 0 || exists|i: int|
            0 <= i < rows.len() && runs_on(#[trigger] rows[i], day) && rows[i].freq == day_peak(
                rows,
                day,
            ),
        day_peak(rows, day) <= u32::MAX,
    decreases rows.len(),
{
    if rows.len() > 0 {
        let shorter = rows.drop_last();
        lemma_day_peak(shorter, day);
        assert forall|i: int| 0 <= i < rows.len() && runs_on(#[trigger] rows[i], day) implies rows[i].freq
            <= day_peak(rows, day) by {
            if i < shorter.len() {
                assert(shorter[i] == rows[i]);
            }
        }
        if day_peak(rows, day) != 0 {
            if runs_on(rows.last(), day) && day_peak(shorter, day) < rows.last().freq {
                assert(rows[rows.len() - 1] == rows.last());
            } else {
                let i = choose|i: int|
                    0 <= i < shorter.len() && runs_on(#[trigger] shorter[i], day)
                        && shorter[i].freq == day_peak(shorter, day);
                assert(rows[i] == shorter[i]);
            }
        }
    }
}

/// Tells whether the calendar `row` runs on day `day` of the week.
fn runs_on_day(row: &ServiceCounts, day: u8) -> (runs: bool)
    ensures
        runs == runs_on(*row, day as int),
{
    if day == 0 {
        row.monday > 0
    } else if day == 1 {
        row.tuesday > 0
    } else if day == 2 {
        row.wednesday > 0
    } else if day == 3 {
        row.thursday > 0
    } else if day == 4 {
        row.friday > 0
    } else if day == 5 {
        row.saturday > 0
    } else if day == 6 {
        row.sunday > 0
    } else {
        false
    }
}

/// Counts the services of one week: for each day the most that any one
/// calendar runs on it.
pub fn weekly_services(rows: &Vec<ServiceCounts>) -> (weekly: u64)
    ensures
        weekly == week_total(rows@, 7),
{
    let mut weekly: u64 = 0;
    let mut day: u8 = 0;
    while day < 7
        invariant
            day <= 7,
            weekly == week_total(rows@, day as int),
            weekly <= day * 0xFFFF_FFFF,
        decreases 7 - day,
    {
        let mut peak: Quantity = 0;
        let mut n: usize = 0;
        while n < rows.len()
            invariant
                n <= rows.len(),
                day < 7,
                peak == day_peak(rows@.take(n as int), day as int),
            decreases rows.len() - n,
        {
            proof {
                assert(rows@.take(n + 1).drop_last() =~= rows@.take(n as int));
                assert(rows@.take(n + 1).last() == rows@[n as int]);
            }
            if runs_on_day(&rows[n], day) && peak < rows[n].freq {
                peak = rows[n].freq;
            }
            n += 1;
        }
        proof {
            assert(rows@.take(rows.len() as int) =~= rows@);
        }
        weekly += peak as u64;
        day += 1;
    }
    weekly
}

/// Gathers what the estimate of a month's services rests on: the services
/// of a week, from the calendars `rows` of the route and direction, and the
/// days of the month.
pub fn get_service_count(rows: &Vec<ServiceCounts>, month: &str, year: &str) -> (level: Result<
    ServiceLevel,
    CalendarError,
>)
    ensures
        match level {
            Ok(l) => {
                &&& l.weekly == week_total(rows@, 7)
                &&& parsed(month@, 255) is Some
                &&& parsed(year@, u64::MAX as nat) is Some
                &&& l.days == month_days(
                    parsed(month@, 255)->Some_0,
                    parsed(year@, u64::MAX as nat)->Some_0,
                )
            },
            Err(CalendarError::BadMonth) => parsed(month@, 255) is None,
            Err(CalendarError::BadYear) => parsed(month@, 255) is Some && parsed(
                year@,
                u64::MAX as nat,
            ) is None,
        },
{
    let weekly = weekly_services(rows);
    match days_per_month(month, year) {
        Ok(days) => Ok(ServiceLevel { weekly, days }),
        Err(e) => Err(e),
    }
}

} // verus!
