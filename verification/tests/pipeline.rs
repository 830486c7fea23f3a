use dxl_tables::actuator::Actuator;
use dxl_tables::errors::DeviceError;
use dxl_tables::records::AccessLevel;

fn table_html(headers: &[&str], cells: &[&str]) -> String {
    let mut s = String::from("<table>");
    s.push_str("<tr>");
    for h in headers {
        s.push_str("<th>");
        s.push_str(h);
        s.push_str("</th>");
    }
    s.push_str("</tr>");
    for chunk in cells.chunks(headers.len()) {
        s.push_str("<tr>");
        for c in chunk {
            s.push_str("<td>");
            s.push_str(c);
            s.push_str("</td>");
        }
        s.push_str("</tr>");
    }
    s.push_str("</table>");
    s
}

fn device_page() -> String {
    let headers = ["Address", "Size(Byte)", "Data Name", "Description", "Access"];
    let mut page = table_html(&["nav"], &["x"]);
    page.push_str(&table_html(
        &headers,
        &["0", "2", "Model Number", "Model number", "R", "6", "1", "Baud Rate", "Speed", "RW"],
    ));
    page.push_str(&table_html(&headers, &["25", "1", "LED", "Status LED", "RW"]));
    page
}

#[test]
fn builds_device_from_page() {
    let a = Actuator::new(
        String::from("https://emanual.robotis.com/docs/en/dxl/ax/ax-12a/"),
        String::from("AX-12A"),
        device_page(),
    )
    .unwrap();
    assert_eq!(a.series, "ax");
    assert_eq!(a.raw_name, "ax-12a");
    assert_eq!(a.name, "AX-12A");
    assert_eq!(a.data.len(), 3);
    assert_eq!(a.data[0].data_name.as_deref(), Some("ModelNumber"));
    assert_eq!(a.data[0].address, 0);
    assert_eq!(a.data[0].access, AccessLevel::Read);
    assert_eq!(a.data[1].data_name.as_deref(), Some("BaudRate"));
    assert_eq!(a.data[2].data_name.as_deref(), Some("LED"));
    assert_eq!(a.data[2].address, 25);
}

#[test]
fn url_without_enough_segments_is_malformed() {
    match Actuator::new(String::from("ax-12a"), String::from("AX"), device_page()) {
        Err(DeviceError::MalformedUrl) => {},
        other => panic!("unexpected: {:?}", other),
    }
}

#[test]
fn page_without_tables_fails_to_merge() {
    match Actuator::new(
        String::from("https://example.test/docs/en/dxl/ax/ax-12a/"),
        String::from("AX"),
        String::from("<p>nothing here</p>"),
    ) {
        Err(DeviceError::Merge(_)) => {},
        other => panic!("unexpected: {:?}", other),
    }
}

#[test]
fn missing_mandatory_column_fails_the_device() {
    let headers = ["Address", "Size(Byte)", "Data Name"];
    let mut page = table_html(&["nav"], &["x"]);
    page.push_str(&table_html(&headers, &["0", "2", "Model Number"]));
    page.push_str(&table_html(&headers, &["25", "1", "LED"]));
    match Actuator::new(
        String::from("https://example.test/docs/en/dxl/ax/ax-12a/"),
        String::from("AX"),
        page,
    ) {
        Err(DeviceError::Normalize(_)) => {},
        other => panic!("unexpected: {:?}", other),
    }
}

#[test]
fn mismatched_tables_fail_the_device() {
    let mut page = table_html(&["nav"], &["x"]);
    page.push_str(&table_html(&["Address"], &["1"]));
    page.push_str(&table_html(&["Different"], &["2"]));
    match Actuator::new(
        String::from("https://example.test/docs/en/dxl/ax/ax-12a/"),
        String::from("AX"),
        page,
    ) {
        Err(DeviceError::Merge(_)) => {},
        other => panic!("unexpected: {:?}", other),
    }
}
