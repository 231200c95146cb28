use fluvial::calendar::{convert_monthname, days_per_month, CalendarError};
use fluvial::direction::{convert_direction, direction_id};
use fluvial::numerals::parse_unsigned;
use fluvial::service::{get_service_count, weekly_services, ServiceCounts, ServiceLevel};

fn calendar(freq: u32, days: [i8; 7]) -> ServiceCounts {
    ServiceCounts {
        freq,
        monday: days[0],
        tuesday: days[1],
        wednesday: days[2],
        thursday: days[3],
        friday: days[4],
        saturday: days[5],
        sunday: days[6],
    }
}

#[test]
fn numbers_are_read_from_digits() {
    assert_eq!(parse_unsigned("42", 255), Some(42));
    assert_eq!(parse_unsigned("0", 255), Some(0));
    assert_eq!(parse_unsigned("+42", 255), Some(42));
    assert_eq!(parse_unsigned("0255", 255), Some(255));
    assert_eq!(parse_unsigned("18446744073709551615", u64::MAX), Some(u64::MAX));
}

#[test]
fn what_is_no_number_is_not_read() {
    assert_eq!(parse_unsigned("", 255), None);
    assert_eq!(parse_unsigned("+", 255), None);
    assert_eq!(parse_unsigned("-1", 255), None);
    assert_eq!(parse_unsigned("++1", 255), None);
    assert_eq!(parse_unsigned("12a", 255), None);
    assert_eq!(parse_unsigned(" 12", 255), None);
    assert_eq!(parse_unsigned("1_2", 255), None);
    assert_eq!(parse_unsigned("１２", 255), None);
    assert_eq!(parse_unsigned("256", 255), None);
    assert_eq!(parse_unsigned("2560", 255), None);
    assert_eq!(parse_unsigned("18446744073709551616", u64::MAX), None);
    assert_eq!(parse_unsigned("99999999999999999999999", u64::MAX), None);
    assert_eq!(parse_unsigned("5", 4), None);
}

#[test]
fn numbers_are_read_as_the_standard_library_reads_them() {
    for text in ["7", "+7", "007", "255", "256", "", "+", "-0", "1e3", "0x10", "12 "] {
        assert_eq!(parse_unsigned(text, 255), text.parse::<u8>().ok().map(u64::from));
    }
}

#[test]
fn months_have_their_english_names() {
    let names = [
        "January", "February", "March", "April", "May", "June", "July", "August", "September",
        "October", "November", "December",
    ];
    for (i, name) in names.iter().enumerate() {
        assert_eq!(convert_monthname(&format!("{}", i + 1)), *name);
    }
    assert_eq!(convert_monthname("07"), "July");
    assert_eq!(convert_monthname("+7"), "July");
}

#[test]
fn what_is_no_month_is_handed_back() {
    assert_eq!(convert_monthname("0"), "0");
    assert_eq!(convert_monthname("13"), "13");
    assert_eq!(convert_monthname("256"), "256");
    assert_eq!(convert_monthname("March"), "March");
    assert_eq!(convert_monthname(""), "");
}

#[test]
fn months_have_their_days() {
    assert_eq!(days_per_month("1", "2021"), Ok(31));
    assert_eq!(days_per_month("4", "2021"), Ok(30));
    assert_eq!(days_per_month("6", "2021"), Ok(30));
    assert_eq!(days_per_month("9", "2021"), Ok(30));
    assert_eq!(days_per_month("11", "2021"), Ok(30));
    assert_eq!(days_per_month("12", "2021"), Ok(31));
    assert_eq!(days_per_month("13", "2021"), Ok(31));
}

#[test]
fn february_follows_the_leap_years() {
    assert_eq!(days_per_month("2", "2020"), Ok(29));
    assert_eq!(days_per_month("2", "2021"), Ok(28));
    assert_eq!(days_per_month("2", "1900"), Ok(28));
    assert_eq!(days_per_month("2", "2000"), Ok(29));
    assert_eq!(days_per_month("02", "2400"), Ok(29));
}

#[test]
fn bad_dates_are_told_apart() {
    assert_eq!(days_per_month("x", "2021"), Err(CalendarError::BadMonth));
    assert_eq!(days_per_month("300", "2021"), Err(CalendarError::BadMonth));
    assert_eq!(days_per_month("x", "y"), Err(CalendarError::BadMonth));
    assert_eq!(days_per_month("1", "y"), Err(CalendarError::BadYear));
    assert_eq!(days_per_month("1", ""), Err(CalendarError::BadYear));
}

#[test]
fn directions_have_their_ids() {
    assert_eq!(convert_direction("outbound"), "1");
    assert_eq!(convert_direction("counterclockwise"), "1");
    assert_eq!(convert_direction("south"), "1");
    assert_eq!(convert_direction("west"), "1");
    assert_eq!(convert_direction("inbound"), "0");
    assert_eq!(convert_direction("north"), "0");
    assert_eq!(convert_direction(""), "0");
}

#[test]
fn directions_are_read_whatever_their_case() {
    assert_eq!(convert_direction("Outbound"), "1");
    assert_eq!(convert_direction("WEST"), "1");
    assert_eq!(convert_direction("CounterClockwise"), "1");
    assert_eq!(convert_direction("Inbound"), "0");
}

#[test]
fn direction_id_wants_lower_case() {
    assert_eq!(direction_id("outbound"), "1");
    assert_eq!(direction_id("Outbound"), "0");
}

#[test]
fn week_takes_the_fullest_calendar_of_each_day() {
    let rows = vec![
        calendar(10, [1, 1, 1, 1, 1, 0, 0]),
        calendar(4, [0, 0, 0, 0, 0, 1, 1]),
        calendar(12, [1, 0, 0, 0, 0, 0, 0]),
    ];
    assert_eq!(weekly_services(&rows), 60);
    assert_eq!(weekly_services(&Vec::new()), 0);
}

#[test]
fn calendars_that_do_not_run_are_not_counted() {
    let rows = vec![calendar(10, [0, 0, 0, 0, 0, 0, 0]), calendar(3, [-1, 0, 0, 0, 0, 0, 2])];
    assert_eq!(weekly_services(&rows), 3);
}

#[test]
fn week_does_not_wrap() {
    let rows = vec![calendar(u32::MAX, [1, 1, 1, 1, 1, 1, 1])];
    assert_eq!(weekly_services(&rows), 7 * (u32::MAX as u64));
}

#[test]
fn service_level_is_the_week_and_the_days_of_the_month() {
    let rows = vec![calendar(10, [1, 1, 1, 1, 1, 0, 0]), calendar(4, [0, 0, 0, 0, 0, 1, 1])];
    assert_eq!(
        get_service_count(&rows, "2", "2020"),
        Ok(ServiceLevel { weekly: 58, days: 29 })
    );
    assert_eq!(get_service_count(&rows, "Feb", "2020"), Err(CalendarError::BadMonth));
    assert_eq!(get_service_count(&rows, "2", "MMXX"), Err(CalendarError::BadYear));
}
