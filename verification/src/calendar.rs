//! Months, their names and their lengths.

use vstd::prelude::*;
use crate::numerals::{parse_unsigned, parsed};

verus! {

/// Why the length of a month could not be told.
#[derive(Debug, Clone, Copy, PartialEq, Eq, Structural)]
pub enum CalendarError {
    /// The month is not a number up to 255.
    BadMonth,
    /// The year is not a number that fits 64 bits.
    BadYear,
}

/// The English name of the month with the number that `from` writes, and
/// `from` itself where it writes no month.
pub open spec fn month_name(from: Seq<char>) -> Seq<char> {
    match parsed(from, 255) {
        Some(month) => if month == 1 {
            "January"@
        } else if month == 2 {
            "February"@
        } else if month == 3 {
            "March"@
        } else if month == 4 {
            "April"@
        } else if month == 5 {
            "May"@
        } else if month == 6 {
            "June"@
        } else if month == 7 {
            "July"@
        } else if month == 8 {
            "August"@
        } else if month == 9 {
            "September"@
        } else if month == 10 {
            "October"@
        } else if month == 11 {
            "November"@
        } else if month == 12 {
            "December"@
        } else {
            from
        },
        None => from,
    }
}

/// Turns the number of a month into its English name; anything else is
/// handed back as it is.
pub fn convert_monthname<'a>(from: &'a str) -> (name: &'a str)
    ensures
        name@ == month_name(from@),
{
    match parse_unsigned(from, 255) {
        Some(month) => if month == 1 {
            "January"
        } else if month == 2 {
            "February"
        } else if month == 3 {
            "March"
        } else if month == 4 {
            "April"
        } else if month == 5 {
            "May"
        } else if month == 6 {
            "June"
        } else if month == 7 {
            "July"
        } else if month == 8 {
            "August"
        } else if month == 9 {
            "September"
        } else if month == 10 {
            "October"
        } else if month == 11 {
            "November"
        } else if month == 12 {
            "December"
        } else {
            from
        },
        None => from,
    }
}

/// Whether `year` is a leap year.
pub open spec fn is_leap(year: nat) -> bool {
    year % 4 == 0 && (year % 100 != 0 || year % 400 == 0)
}

/// The number of days of month `month` in `year`; a number that is no month
/// counts 31.
pub open spec fn month_days(month: nat, year: nat) -> nat {
    if month == 9 || month == 4 || month == 6 || month == 11 {
        30
    } else if month == 2 {
        if is_leap(year) {
            29
        } else {
            28
        }
    } else {
        31
    }
}

/// Tells the number of days of a month, both month and year written in
/// digits, January being 1.
pub fn days_per_month(month: &str, year: &str) -> (days: Result<u32, CalendarError>)
    ensures
        match days {
            Ok(d) => {
                &&& parsed(month@, 255) is Some
                &&& parsed(year@, u64::MAX as nat) is Some
                &&& d == month_days(
                    parsed(month@, 255)->Some_0,
                    parsed(year@, u64::MAX as nat)->Some_0,
                )
            },
            Err(CalendarError::BadMonth) => parsed(month@, 255) is None,
            Err(CalendarError::BadYear) => parsed(month@, 255) is Some && parsed(
                year@,
                u64::MAX as nat,
            ) is None,
        },
{
    let m = match parse_unsigned(month, 255) {
        Some(m) => m,
        None => {
            return Err(CalendarError::BadMonth);
        },
    };
    let y = match parse_unsigned(year, u64::MAX) {
        Some(y) => y,
        None => {
            return Err(CalendarError::BadYear);
        },
    };
    let leap = y % 4 == 0 && (y % 100 != 0 || y % 400 == 0);
    if m == 9 || m == 4 || m == 6 || m == 11 {
        Ok(30)
    } else if m == 2 {
        if leap {
            Ok(29)
        } else {
            Ok(28)
        }
    } else {
        Ok(31)
    }
}

} // verus!
