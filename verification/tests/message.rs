use std::str::FromStr;

use switrs_courier::calendar::CalendarDate;
use switrs_courier::error::MessageError;
use switrs_courier::mail::MailPart;
use switrs_courier::message::{
    parse_body, parse_bool, parse_date, parse_id, parse_yes_no, SwitrsData,
};

/// A report notification shaped like the ones I-SWITRS sends: a
/// multipart/alternative message whose plain-text part holds the report.
const EMAIL: &str = "From: I-SWITRS <iswitrs@chp.ca.gov>\r\n\
    To: someone@example.com\r\n\
    Subject: I-SWITRS Report Request - ID #240014\r\n\
    MIME-Version: 1.0\r\n\
    Content-Type: multipart/alternative; boundary=\"xyzzy\"\r\n\
    \r\n\
    --xyzzy\r\n\
    Content-Type: text/plain; charset=utf-8\r\n\
    \r\n\
    Your report request has been processed.\r\n\
    \r\n\
    Report Type:               Raw Data\r\n\
    Jurisdiction:              ALL\r\n\
    Reporting Period:          01/01/2010 - 12/01/2023\r\n\
    Lat/Long:                  Yes\r\n\
    Header:                    Yes\r\n\
    \r\n\
    https://iswitrsreports.chp.ca.gov/reports/4481761401380215189.zip\r\n\
    --xyzzy\r\n\
    Content-Type: text/html; charset=utf-8\r\n\
    \r\n\
    <html><body>Your report request has been processed.</body></html>\r\n\
    --xyzzy--\r\n";

fn date(year: i32, month: u8, day: u8) -> CalendarDate {
    CalendarDate { year, month, day }
}

#[test]
fn test_parse_switrs_msg() {
    let data = SwitrsData::parse(EMAIL.as_bytes()).expect("failed to parse email");

    assert_eq!(data.request_id.expect("no request id"), 240014);
    assert_eq!(data.report_type.expect("no report type"), "Raw Data");
    assert_eq!(data.jurisdiction.expect("no jurisdiction"), "ALL");
    assert_eq!(
        data.reporting_period.expect("no reporting period"),
        date(2010, 1, 1)..date(2023, 12, 1)
    );
    assert!(data.contains_long_lat);
    assert!(data.contains_header);
    assert_eq!(
        data.db_url.expect("no reporting period"),
        url::Url::from_str("https://iswitrsreports.chp.ca.gov/reports/4481761401380215189.zip")
            .unwrap()
            .to_string()
    )
}

#[test]
fn parse_single_part_message() {
    let email = "Subject: ID #7\n\
    \n\
    Report Type: Summary\n\
    https://example.com/reports/a.zip\n";
    let data = SwitrsData::parse(email.as_bytes()).unwrap();
    assert_eq!(data.request_id, Some(7));
    assert_eq!(data.report_type.as_deref(), Some("Summary"));
    assert_eq!(data.db_url.as_deref(), Some("https://example.com/reports/a.zip"));
    assert!(!data.contains_header);
}

#[test]
fn parse_prefers_the_later_subpart() {
    // The search visits a part, then its subparts from the last one back.
    let email = "Subject: no id here\n\
    Content-Type: multipart/mixed; boundary=b\n\
    \n\
    --b\n\
    Content-Type: text/plain\n\
    \n\
    Jurisdiction: FIRST\n\
    https://example.com/reports/first.zip\n\
    --b\n\
    Content-Type: text/plain\n\
    \n\
    Jurisdiction: SECOND\n\
    https://example.com/reports/second.zip\n\
    --b--\n";
    let data = SwitrsData::parse(email.as_bytes()).unwrap();
    assert_eq!(data.request_id, None);
    assert_eq!(data.jurisdiction.as_deref(), Some("SECOND"));
    assert_eq!(data.db_url.as_deref(), Some("https://example.com/reports/second.zip"));
}

#[test]
fn parse_without_url_finds_no_data() {
    let email = "Subject: ID #1\n\nReport Type: Raw Data\n";
    match SwitrsData::parse(email.as_bytes()) {
        Err(MessageError::NoDataFound()) => {}
        other => panic!("unexpected {:?}", other),
    }
}

#[test]
fn parse_bad_body_encoding() {
    let email = "Subject: ID #1\n\
    Content-Transfer-Encoding: base64\n\
    \n\
    !!!! not base64 !!!!\n";
    match SwitrsData::parse(email.as_bytes()) {
        Err(MessageError::BadEmail(_)) => {}
        other => panic!("unexpected {:?}", other),
    }
}

#[test]
fn parse_id_from_subject() {
    assert_eq!(parse_id("I-SWITRS Report Request - ID #240014"), Some(240014));
    assert_eq!(parse_id("ID #0042"), Some(42));
    assert_eq!(parse_id("I-SWITRS Report Request"), None);
    assert_eq!(parse_id("ID #"), None);
    assert_eq!(parse_id("ID #99999999999999999999999"), None);
}

#[test]
fn yes_no_fields() {
    assert!(parse_yes_no("Yes"));
    assert!(parse_yes_no("true"));
    assert!(!parse_yes_no("No"));
    assert!(!parse_yes_no("yes"));
    assert!(!parse_yes_no("false"));
    assert!(!parse_yes_no(""));
    assert_eq!(parse_bool("true"), Some(true));
    assert_eq!(parse_bool("false"), Some(false));
    assert_eq!(parse_bool("True"), None);
}

#[test]
fn dates() {
    assert_eq!(parse_date("01/01/2010"), Some(date(2010, 1, 1)));
    assert_eq!(parse_date("12/01/2023"), Some(date(2023, 12, 1)));
    assert_eq!(parse_date("02/29/2020"), Some(date(2020, 2, 29)));
    assert_eq!(parse_date("02/29/2019"), None);
    assert_eq!(parse_date("02/29/1900"), None);
    assert_eq!(parse_date("02/29/2000"), Some(date(2000, 2, 29)));
    assert_eq!(parse_date("04/31/2010"), None);
    // A month above 12 counts on from January.
    assert_eq!(parse_date("13/01/2010"), Some(date(2010, 1, 1)));
    assert_eq!(parse_date("00/01/2010"), None);
    assert_eq!(parse_date("12/00/2010"), None);
    assert_eq!(parse_date("12/01/10000"), None);
    assert_eq!(parse_date("12/01/-44"), Some(date(-44, 12, 1)));
    assert_eq!(parse_date("12/01"), None);
    assert_eq!(parse_date("12/01/2010/5"), None);
    assert_eq!(parse_date(""), None);
}

#[test]
fn date_text_round_trip() {
    for (y, m, d) in [(2010, 1, 1), (2024, 2, 29), (999, 12, 31), (0, 6, 15)] {
        let text = format!("{:02}/{:02}/{:04}", m, d, y);
        assert_eq!(parse_date(&text), Some(date(y, m, d)));
    }
}

#[test]
fn body_fields() {
    let body = "Report Type:               Raw Data\n\
    Jurisdiction:              ALL\n\
    Reporting Period:          01/01/2010 - 12/01/2023\n\
    Lat/Long:                  No\n\
    Header:                    true\n\
    https://iswitrsreports.chp.ca.gov/reports/1.zip\n";
    let data = parse_body(body, Some(3));
    assert_eq!(data.request_id, Some(3));
    assert_eq!(data.report_type.as_deref(), Some("Raw Data"));
    assert_eq!(data.jurisdiction.as_deref(), Some("ALL"));
    assert_eq!(data.reporting_period, Some(date(2010, 1, 1)..date(2023, 12, 1)));
    assert!(!data.contains_long_lat);
    assert!(data.contains_header);
    assert_eq!(data.db_url.as_deref(), Some("https://iswitrsreports.chp.ca.gov/reports/1.zip"));
}

#[test]
fn body_last_line_wins() {
    let body = "Jurisdiction: A\n\
    Jurisdiction: B\n\
    Reporting Period: 01/01/2010 - 12/01/2023\n\
    Reporting Period: 02/30/2010 - 12/01/2023\n\
    https://example.com/reports/1.zip\n\
    https://exa mple.com/reports/2.zip\n";
    let data = parse_body(body, None);
    assert_eq!(data.jurisdiction.as_deref(), Some("B"));
    // A period whose dates do not parse leaves the earlier one.
    assert_eq!(data.reporting_period, Some(date(2010, 1, 1)..date(2023, 12, 1)));
    // A URL that does not parse clears the earlier one.
    assert_eq!(data.db_url, None);
}

#[test]
fn body_url_is_normalized() {
    let data = parse_body("see HTTPS://x https://EXAMPLE.com/reports/../reports/a.zip", None);
    assert_eq!(data.db_url.as_deref(), Some("https://example.com/reports/a.zip"));
}

#[test]
fn empty_body() {
    let data = parse_body("", None);
    assert_eq!(data.report_type, None);
    assert_eq!(data.jurisdiction, None);
    assert_eq!(data.reporting_period, None);
    assert!(!data.contains_long_lat);
    assert!(!data.contains_header);
    assert_eq!(data.db_url, None);
}

#[test]
fn body_final_line_ending_ignored() {
    let body = "Report Type: Raw Data\nHeader: Yes\nhttps://example.com/reports/x.zip";
    let a = parse_body(body, None);
    let b = parse_body(&format!("{}\n", body), None);
    let c = parse_body(&format!("{}\r\n", body), None);
    for d in [&b, &c] {
        assert_eq!(a.report_type, d.report_type);
        assert_eq!(a.contains_header, d.contains_header);
        assert_eq!(a.db_url, d.db_url);
    }
}

fn part(headers: &[(&str, &str)], body: &str, subpart_count: usize) -> MailPart {
    MailPart {
        headers: headers.iter().map(|(k, v)| (k.to_string(), v.to_string())).collect(),
        body: Ok(body.to_string()),
        subpart_count,
    }
}

#[test]
fn from_parts_search_order() {
    // root -> [a -> [a1], b]; b is visited first, then a, then a1.
    let parts = vec![
        part(&[("Subject", "ID #12")], "preamble", 2),
        part(&[], "Jurisdiction: A", 1),
        part(&[], "Jurisdiction: A1
https://example.com/reports/a1.zip", 0),
        part(&[], "Jurisdiction: B", 0),
    ];
    let data = SwitrsData::from_parts(parts).unwrap();
    assert_eq!(data.request_id, Some(12));
    assert_eq!(data.jurisdiction.as_deref(), Some("A1"));
    assert_eq!(data.db_url.as_deref(), Some("https://example.com/reports/a1.zip"));
}

#[test]
fn from_parts_first_subject_header() {
    let parts = vec![part(
        &[("subject", "ID #1"), ("Subject", "ID #2"), ("Subject", "ID #3")],
        "https://example.com/reports/x",
        0,
    )];
    assert_eq!(SwitrsData::from_parts(parts).unwrap().request_id, Some(2));
}

#[test]
fn from_parts_without_data() {
    let parts = vec![part(&[], "nothing", 1), part(&[], "nothing either", 0)];
    assert!(matches!(SwitrsData::from_parts(parts), Err(MessageError::NoDataFound())));
    assert!(matches!(SwitrsData::from_parts(Vec::new()), Err(MessageError::NoDataFound())));
    // A listing that announces more subparts than it holds describes no message.
    let parts = vec![part(&[], "https://example.com/reports/x", 3)];
    assert!(matches!(SwitrsData::from_parts(parts), Err(MessageError::NoDataFound())));
}

#[test]
fn parse_searches_every_part() {
    // The only URL is in the first subpart of a nested multipart part, the
    // last part the search visits.
    let email = "Subject: ID #5\n\
        Content-Type: multipart/mixed; boundary=outer\n\
        \n\
        --outer\n\
        Content-Type: multipart/alternative; boundary=inner\n\
        \n\
        --inner\n\
        Content-Type: text/plain\n\
        \n\
        Header: Yes\n\
        https://example.com/reports/deep.zip\n\
        --inner\n\
        Content-Type: text/plain\n\
        \n\
        nothing here\n\
        --inner--\n\
        --outer\n\
        Content-Type: text/plain\n\
        \n\
        nothing here either\n\
        --outer--\n";
    let data = SwitrsData::parse(email.as_bytes()).unwrap();
    assert_eq!(data.request_id, Some(5));
    assert!(data.contains_header);
    assert_eq!(data.db_url.as_deref(), Some("https://example.com/reports/deep.zip"));
}

#[test]
fn body_unmatched_last_line_ignored() {
    let body = "Report Type: Raw Data\nLat/Long: Yes\nhttps://example.com/reports/x.zip";
    let a = parse_body(body, Some(1));
    let b = parse_body(&format!("{}\nThank you for using I-SWITRS.", body), Some(1));
    assert_eq!(a.report_type, b.report_type);
    assert_eq!(a.jurisdiction, b.jurisdiction);
    assert_eq!(a.reporting_period, b.reporting_period);
    assert_eq!(a.contains_long_lat, b.contains_long_lat);
    assert_eq!(a.contains_header, b.contains_header);
    assert_eq!(a.db_url, b.db_url);
}

#[test]
fn body_unmatched_line_after_line_break() {
    let body = "Jurisdiction: ALL\nhttps://example.com/reports/x.zip\n";
    let a = parse_body(body, None);
    let b = parse_body(&format!("{}\nBest regards", body), None);
    assert_eq!(a.jurisdiction, b.jurisdiction);
    assert_eq!(a.db_url, b.db_url);
    let e = parse_body("", None);
    let f = parse_body("\nBest regards", None);
    assert_eq!(e.jurisdiction, f.jurisdiction);
    assert_eq!(e.db_url, f.db_url);
    assert_eq!(e.contains_header, f.contains_header);
}
