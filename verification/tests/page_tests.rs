use fluvial::outfile::{split_month_year, time_segment};
use fluvial::page::index_html;

#[test]
fn index_page_links_every_direction_of_every_route() {
    let routes = vec![
        ("100".to_string(), vec!["Inbound".to_string(), "Outbound".to_string()]),
        ("200".to_string(), vec!["North".to_string()]),
    ];
    let expected = "<html>\n<head>\n<body>\n<h4 style=\"margin-left: 1vw\">March 2020</h4>\n<table>\n\
<tr><td><a href=\"100_Inbound.svg\">100 Inbound</a></td><td><a href=\"100_Outbound.svg\">100 Outbound</a></td></tr>\n\
<tr><td><a href=\"200_North.svg\">200 North</a></td></tr>\n\
</table>\n</body>\n</html>";
    assert_eq!(index_html(&routes, "3", "2020"), expected);
}

#[test]
fn index_page_without_routes_has_an_empty_table() {
    let expected = "<html>\n<head>\n<body>\n<h4 style=\"margin-left: 1vw\">Smarch 2020</h4>\n<table>\n\
</table>\n</body>\n</html>";
    assert_eq!(index_html(&Vec::new(), "Smarch", "2020"), expected);
}

#[test]
fn route_without_directions_has_an_empty_row() {
    let routes = vec![("100".to_string(), Vec::new())];
    let expected = "<html>\n<head>\n<body>\n<h4 style=\"margin-left: 1vw\">December 1999</h4>\n<table>\n\
<tr></tr>\n</table>\n</body>\n</html>";
    assert_eq!(index_html(&routes, "12", "1999"), expected);
}

#[test]
fn time_filter_becomes_a_directory_name() {
    assert_eq!(time_segment("Weekday (12:00pm-2:59:59pm)"), "Weekday_1200pm-25959pm");
    assert_eq!(time_segment("a  b"), "a__b");
    assert_eq!(time_segment("():"), "");
    assert_eq!(time_segment(""), "");
    assert_eq!(time_segment("früh (6:00)"), "früh_600");
}

#[test]
fn time_filter_is_named_as_by_replacing() {
    for text in ["Weekday (12:00pm-2:59:59pm)", "((a))::b c", "plain"] {
        let replaced = text.replace(' ', "_").replace('(', "").replace(')', "").replace(':', "");
        assert_eq!(time_segment(text), replaced);
    }
}

#[test]
fn date_is_parted_at_its_first_hyphen() {
    assert_eq!(split_month_year("2020-03"), Some(("03".to_string(), "2020".to_string())));
    assert_eq!(split_month_year("2020-03-15"), Some(("03-15".to_string(), "2020".to_string())));
    assert_eq!(split_month_year("-"), Some(("".to_string(), "".to_string())));
    assert_eq!(split_month_year("2020-"), Some(("".to_string(), "2020".to_string())));
}

#[test]
fn date_without_a_hyphen_has_no_parts() {
    assert_eq!(split_month_year("202003"), None);
    assert_eq!(split_month_year(""), None);
}
