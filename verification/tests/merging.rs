use dxl_tables::errors::MergeError;
use dxl_tables::merge::merge_tables;

fn table_html(headers: &[&str], cells: &[&str]) -> String {
    let mut s = String::from("<table>");
    s.push_str("<tr>");
    for h in headers {
        s.push_str("<th>");
        s.push_str(h);
        s.push_str("</th>");
    }
    s.push_str("</tr>");
    for chunk in cells.chunks(headers.len()) {
        s.push_str("<tr>");
        for c in chunk {
            s.push_str("<td>");
            s.push_str(c);
            s.push_str("</td>");
        }
        s.push_str("</tr>");
    }
    s.push_str("</table>");
    s
}

#[test]
fn missing_table_is_reported() {
    let page = table_html(&["alpha"], &["1"]);
    match merge_tables(&page, (0, 5)) {
        Err(e) => assert_eq!(e, MergeError::TableNotFound { index: 5 }),
        Ok(_) => panic!("expected an error"),
    }
}

#[test]
fn first_missing_index_wins() {
    let page = table_html(&["alpha"], &["1"]);
    match merge_tables(&page, (3, 5)) {
        Err(e) => assert_eq!(e, MergeError::TableNotFound { index: 3 }),
        Ok(_) => panic!("expected an error"),
    }
}

#[test]
fn different_headers_are_a_mismatch() {
    let mut page = table_html(&["alpha", "beta"], &["1", "2"]);
    page.push_str(&table_html(&["alpha", "gamma"], &["3", "4"]));
    match merge_tables(&page, (0, 1)) {
        Err(e) => assert_eq!(e, MergeError::HeaderMismatch),
        Ok(_) => panic!("expected an error"),
    }
}

#[test]
fn merged_rows_are_both_tables_rows() {
    let mut page = table_html(&["alpha", "beta"], &["1", "2", "3", "4"]);
    page.push_str(&table_html(&["alpha", "beta"], &["5", "6"]));
    let grid = merge_tables(&page, (0, 1)).unwrap();
    assert_eq!(grid.header, vec!["Alpha", "Beta"]);
    assert_eq!(grid.rows.len(), 3);
    assert_eq!(grid.rows[0], vec!["1", "2"]);
    assert_eq!(grid.rows[1], vec!["3", "4"]);
    assert_eq!(grid.rows[2], vec!["5", "6"]);
}

#[test]
fn blank_cells_are_dropped_before_chunking() {
    let mut page = table_html(&["alpha", "beta"], &["1", "  ", "2", "3"]);
    page.push_str(&table_html(&["alpha", "beta"], &[]));
    let grid = merge_tables(&page, (0, 1)).unwrap();
    assert_eq!(grid.rows.len(), 2);
    assert_eq!(grid.rows[0], vec!["1", "2"]);
    assert_eq!(grid.rows[1], vec!["3"]);
}

#[test]
fn headers_are_title_cased_and_comma_stripped() {
    let mut page = table_html(&["size(Byte)", "data name"], &["1", "x"]);
    page.push_str(&table_html(&["size(Byte)", "data name"], &[]));
    let grid = merge_tables(&page, (0, 1)).unwrap();
    assert_eq!(grid.header, vec!["Size(byte)", "Data Name"]);
}
