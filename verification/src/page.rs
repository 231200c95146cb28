//! The index page that lists the diagrams of a month.

use vstd::prelude::*;
use vstd::string::StringExecFns;
use crate::calendar::{convert_monthname, month_name};

verus! {

/// The table cell that links to the diagram of `route` in `direction`.
pub open spec fn cell_text(route: Seq<char>, direction: Seq<char>) -> Seq<char> {
    "<td><a href=\""@ + route + "_"@ + direction + ".svg\">"@ + route + " "@ + direction
        + "</a></td>"@
}

/// The cells of `route` for the first `count` of its directions.
pub open spec fn cells_text(route: Seq<char>, directions: Seq<String>, count: int) -> Seq<char>
    decreases count,
{
    if count <= 0 {
        Seq::empty()
    } else {
        cells_text(route, directions, count - 1) + cell_text(route, directions[count - 1]@)
    }
}

/// The table rows of the first `count` routes, a row to each route.
pub open spec fn rows_text(routes: Seq<(String, Vec<String>)>, count: int) -> Seq<char>
    decreases count,
{
    if count <= 0 {
        Seq::empty()
    } else {
        rows_text(routes, count - 1) + "<tr>"@ + cells_text(
            routes[count - 1].0@,
            routes[count - 1].1@,
            routes[count - 1].1@.len() as int,
        ) + "</tr>\n"@
    }
}

/// The index page of a month: a heading with the month's name and the year,
/// and a table with a row to each route and a link to each of its
/// directions.
pub open spec fn index_text(
    routes: Seq<(String, Vec<String>)>,
    month: Seq<char>,
    year: Seq<char>,
) -> Seq<char> {
    "<html>\n<head>\n<body>\n<h4 style=\"margin-left: 1vw\">"@ + month_name(month) + " "@ + year
        + "</h4>\n<table>\n"@ + rows_text(routes, routes.len() as int)
        + "</table>\n</body>\n</html>"@
}

/// Writes the index page of a month as text.
pub fn index_html(routes: &Vec<(String, Vec<String>)>, month: &str, year: &str) -> (page: String)
    ensures
        page@ == index_text(routes@, month@, year@),
{
    let mut page = String::new();
    page.append("<html>\n<head>\n<body>\n<h4 style=\"margin-left: 1vw\">");
    page.append(convert_monthname(month));
    page.append(" ");
    page.append(year);
    page.append("</h4>\n<table>\n");
    let ghost head = page@;
    assert(head =~= "<html>\n<head>\n<body>\n<h4 style=\"margin-left: 1vw\">"@ + month_name(month@)
        + " "@ + year@ + "</h4>\n<table>\n"@);
    let mut r: usize = 0;
    assert(head + rows_text(routes@, 0) =~= head);
    while r < routes.len()
        invariant
            r <= routes.len(),
            page@ == head + rows_text(routes@, r as int),
        decreases routes.len() - r,
    {
        let ghost before = page@;
        page.append("<tr>");
        let route = routes[r].0.as_str();
        let directions = &routes[r].1;
        let ghost opened = page@;
        let mut d: usize = 0;
        assert(opened + cells_text(route@, directions@, 0) =~= opened);
        while d < directions.len()
            invariant
                d <= directions.len(),
                page@ == opened + cells_text(route@, directions@, d as int),
            decreases directions.len() - d,
        {
            let ghost done = page@;
            let direction = directions[d].as_str();
            page.append("<td><a href=\"");
            page.append(route);
            page.append("_");
            page.append(direction);
            page.append(".svg\">");
            page.append(route);
            page.append(" ");
            page.append(direction);
            page.append("</a></td>");
            assert(page@ =~= done + cell_text(route@, direction@));
            assert(page@ =~= opened + (cells_text(route@, directions@, d as int) + cell_text(
                route@,
                directions@[d as int]@,
            )));
            d += 1;
        }
        page.append("</tr>\n");
        assert(page@ =~= head + (rows_text(routes@, r as int) + "<tr>"@ + cells_text(
            route@,
            directions@,
            directions@.len() as int,
        ) + "</tr>\n"@));
        r += 1;
    }
    page.append("</table>\n</body>\n</html>");
    assert(page@ =~= index_text(routes@, month@, year@));
    page
}

} // verus!
