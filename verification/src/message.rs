//! The I-SWITRS report e-mail: the request id in its subject and the report
//! details in the body of one of its parts.

use vstd::prelude::*;
use std::ops::Range;
use crate::calendar::{CalendarDate, is_valid_date};
use crate::error::MessageError;
use crate::mail::{
    MailPart, MailPartView, child_positions, children_end, lemma_child_positions,
    lemma_children_end_bounds, lemma_stack_weight_append,
    lemma_subtree_end_bounds, opt_int, parts_view, stack_weight, subtree_end, subtree_ends,
};
use crate::decimal::{
    decimal_text, fixed_digits, law_decimal_round_trip, lemma_decimal_text, lemma_fixed_digits, parse_i32, parse_signed, parse_u8, parse_unsigned, parse_usize,
    pow10,
};
use crate::text::{
    law_final_line_ending, lemma_lines_after_line_break, lemma_trim_no_white_space, lemma_trim_plain, lemma_lines_of_break_then_line,
    lemma_lines_push_line, lemma_prefix_len, lines, lines_of, same_text, split3, split3_at, trim,
    trimmed,
};
use crate::upstream::{
    calendar_date, captures_in_each, january_nth_next, mail_parts, parse_url, parsed_mail_parts,
    regex_captures, url_parse,
};

verus! {

/// The request id in the subject: `I-SWITRS Report Request - ID #240014`.
pub const ID_PATTERN: &'static str = r"ID #([0-9]+)";

/// `Report Type:               Raw Data`
pub const REPORT_TYPE_PATTERN: &'static str = r"Report\sType\:\s+(.+)";

/// `Jurisdiction:              ALL`
pub const JURISDICTION_PATTERN: &'static str = r"Jurisdiction:\s+(.+)";

/// `Reporting Period:          01/01/2010 - 12/01/2023`
pub const REPORTING_PERIOD_PATTERN: &'static str =
    r"Reporting Period:\s+(\d\d/\d\d/\d\d\d\d)\s+-\s+(\d\d/\d\d/\d\d\d\d)";

/// `Lat/Long:                  Yes`
pub const LAT_LONG_PATTERN: &'static str = r"Lat/Long:\s+(\w+)";

/// `Header:                    Yes`
pub const HEADER_PATTERN: &'static str = r"Header:\s+(\w+)";

/// `https://iswitrsreports.chp.ca.gov/reports/4481761401380215189.zip`
pub const DB_URL_PATTERN: &'static str = r"https://.+/reports/.+";

// ------------------------------------------------------------ yes / no

/// `"Yes"`, or `"true"` as `bool::from_str` reads it.
pub open spec fn is_yes(s: Seq<char>) -> bool {
    s == "Yes"@ || s == "true"@
}

/// `bool::from_str`: `"true"` and `"false"`, nothing else.
pub fn parse_bool(s: &str) -> (r: Option<bool>)
    ensures
        r == (if s@ == "true"@ {
            Some(true)
        } else if s@ == "false"@ {
            Some(false)
        } else {
            None
        }),
{
    if same_text(s, "true") {
        Some(true)
    } else if same_text(s, "false") {
        Some(false)
    } else {
        None
    }
}

/// Reads a `Yes`/`No` field: true for `Yes` and for `true`, false otherwise.
pub fn parse_yes_no(input: &str) -> (b: bool)
    ensures
        b == is_yes(input@),
{
    if same_text(input, "Yes") {
        true
    } else {
        match parse_bool(input) {
            Some(v) => v,
            None => false,
        }
    }
}

// ------------------------------------------------------------ dates

/// A `MM/DD/YYYY` date: month and day as `u8`, year as `i32`, fields split
/// at the first two `/`. A month above 12 counts on from January (13 is
/// January); month 0 and dates that do not exist give nothing.
pub open spec fn date_from_text(s: Seq<char>) -> Option<CalendarDate> {
    let f = split3(s, '/');
    if f.len() < 3 {
        None
    } else {
        match (
            parse_unsigned(f[0], u8::MAX as nat),
            parse_unsigned(f[1], u8::MAX as nat),
            parse_signed(f[2], i32::MIN as int, i32::MAX as nat),
        ) {
            (Some(m), Some(d), Some(y)) => {
                let month = (m - 1) % 12 + 1;
                if m >= 1 && is_valid_date(y, month, d as int) {
                    Some(CalendarDate { year: y as i32, month: month as u8, day: d as u8 })
                } else {
                    None
                }
            },
            _ => None,
        }
    }
}

/// A date of a year from 0 to 9999 written `MM/DD/YYYY`.
pub open spec fn date_text(d: CalendarDate) -> Seq<char> {
    fixed_digits(d.month as nat, 2) + seq!['/'] + fixed_digits(d.day as nat, 2) + seq!['/']
        + fixed_digits(d.year as nat, 4)
}

/// A date written `MM/DD/YYYY` reads back as that date.
pub proof fn law_date_text_round_trip(d: CalendarDate)
    requires
        is_valid_date(d.year as int, d.month as int, d.day as int),
        0 <= d.year,
    ensures
        date_from_text(date_text(d)) == Some(d),
{
    assert(pow10(2) == 100) by {
        reveal_with_fuel(pow10, 3);
    }
    assert(pow10(4) == 10000) by {
        reveal_with_fuel(pow10, 5);
    }
    let mm = fixed_digits(d.month as nat, 2);
    let dd = fixed_digits(d.day as nat, 2);
    let yyyy = fixed_digits(d.year as nat, 4);
    lemma_fixed_digits(d.month as nat, 2);
    lemma_fixed_digits(d.day as nat, 2);
    lemma_fixed_digits(d.year as nat, 4);
    let s = date_text(d);
    let rest = dd + seq!['/'] + yyyy;
    assert(s =~= mm + seq!['/'] + rest);
    assert forall|j: int| 0 <= j < 2 implies #[trigger] s[j] != '/' by {
        assert(s[j] == mm[j]);
    }
    lemma_prefix_len(s, '/', 2);
    assert(s.take(2) =~= mm);
    assert(s.skip(3) =~= rest);
    assert forall|j: int| 0 <= j < 2 implies #[trigger] rest[j] != '/' by {
        assert(rest[j] == dd[j]);
    }
    lemma_prefix_len(rest, '/', 2);
    assert(rest.take(2) =~= dd);
    assert(rest.skip(3) =~= yyyy);
    assert forall|j: int| 0 <= j < 4 implies #[trigger] yyyy[j] != '/' by {
        assert(crate::decimal::is_digit(yyyy[j]));
    }
    lemma_prefix_len(yyyy, '/', 4);
    assert(split3(s, '/') =~= seq![mm, dd, yyyy]);
    assert(mm[0] != '+' && dd[0] != '+' && yyyy[0] != '+' && yyyy[0] != '-') by {
        assert(crate::decimal::is_digit(mm[0]));
        assert(crate::decimal::is_digit(dd[0]));
        assert(crate::decimal::is_digit(yyyy[0]));
    }
    assert((d.month - 1) % 12 + 1 == d.month);
}

/// Only dates that exist are read.
pub proof fn law_date_exists(s: Seq<char>)
    ensures
        date_from_text(s) matches Some(d) ==> is_valid_date(d.year as int, d.month as int, d.day as int),
{
}

/// Parses a `MM/DD/YYYY` date.
pub fn parse_date(input: &str) -> (r: Option<CalendarDate>)
    ensures
        r == date_from_text(input@),
{
    let f = split3_at(input, '/');
    if f.len() < 3 {
        return None;
    }
    assert(f.deep_view()[0] == f@[0]@ && f.deep_view()[1] == f@[1]@ && f.deep_view()[2] == f@[2]@);
    let month = match parse_u8(f[0].as_str()) {
        Some(m) => m,
        None => return None,
    };
    let day = match parse_u8(f[1].as_str()) {
        Some(d) => d,
        None => return None,
    };
    let year = match parse_i32(f[2].as_str()) {
        Some(y) => y,
        None => return None,
    };
    if month == 0 {
        return None;
    }
    let m = january_nth_next(month - 1);
    calendar_date(year, m, day)
}

// ------------------------------------------------------------ captures

/// The text of capture group `group`, trimmed, when the regex matched and
/// the group took part in the match.
pub open spec fn group_text(caps: Option<Seq<Option<Seq<char>>>>, group: int) -> Option<Seq<char>> {
    match caps {
        Some(c) => if 0 <= group < c.len() {
            match c[group] {
                Some(t) => Some(trim(t)),
                None => None,
            }
        } else {
            None
        },
        None => None,
    }
}

/// The trimmed text of a capture group (`Captures::get` then `str::trim`).
pub fn captured_text(caps: &Option<Vec<Option<String>>>, group: usize) -> (r: Option<String>)
    ensures
        r.deep_view() == group_text(caps.deep_view(), group as int),
{
    match caps {
        Some(c) => {
            if group < c.len() {
                assert(c.deep_view()[group as int] == c@[group as int].deep_view());
                match &c[group] {
                    Some(t) => Some(trimmed(t.as_str())),
                    None => None,
                }
            } else {
                None
            }
        },
        None => None,
    }
}

/// The trimmed text of a capture group, or the empty text when it did not
/// take part in the match.
pub open spec fn group_text_or_empty(c: Seq<Option<Seq<char>>>, group: int) -> Seq<char> {
    match group_text(Some(c), group) {
        Some(t) => t,
        None => Seq::empty(),
    }
}

/// The reporting period of a line whose captures are `caps`: both dates of
/// the line when both parse.
pub open spec fn period_of(caps: Option<Seq<Option<Seq<char>>>>) -> Option<(CalendarDate, CalendarDate)> {
    match caps {
        Some(c) => match (
            date_from_text(group_text_or_empty(c, 1)),
            date_from_text(group_text_or_empty(c, 2)),
        ) {
            (Some(start), Some(end)) => Some((start, end)),
            _ => None,
        },
        None => None,
    }
}

/// Model of an optional date range.
pub open spec fn range_view(r: Option<Range<CalendarDate>>) -> Option<(CalendarDate, CalendarDate)> {
    match r {
        Some(r) => Some((r.start, r.end)),
        None => None,
    }
}

/// The reporting period that the captures of the period pattern give.
pub fn period_from_captures(caps: &Option<Vec<Option<String>>>) -> (r: Option<Range<CalendarDate>>)
    ensures
        range_view(r) == period_of(caps.deep_view()),
{
    match caps {
        Some(_) => {
            let first = captured_text(caps, 1);
            let second = captured_text(caps, 2);
            let s1 = match first {
                Some(t) => t,
                None => String::new(),
            };
            let s2 = match second {
                Some(t) => t,
                None => String::new(),
            };
            let start = parse_date(s1.as_str());
            let end = parse_date(s2.as_str());
            match (start, end) {
                (Some(start), Some(end)) => Some(Range { start, end }),
                _ => None,
            }
        },
        None => None,
    }
}

/// The change that a line makes to the database URL: none when the URL
/// pattern does not match it, else the parsed URL (or no URL when the matched
/// text does not parse).
pub open spec fn db_url_change(caps: Option<Seq<Option<Seq<char>>>>) -> Option<Option<Seq<char>>> {
    match group_text(caps, 0) {
        Some(t) => Some(
            match url_parse(t) {
                Some(u) => Some(u.0),
                None => None,
            },
        ),
        None => None,
    }
}

// ------------------------------------------------------------ body

/// What the lines of a body read so far say of each field.
pub struct BodyScan {
    pub report_type: Option<Seq<char>>,
    pub jurisdiction: Option<Seq<char>>,
    pub reporting_period: Option<(CalendarDate, CalendarDate)>,
    pub contains_long_lat: Option<bool>,
    pub contains_header: Option<bool>,
    pub db_url: Option<Seq<char>>,
}

/// Before any line.
pub open spec fn empty_scan() -> BodyScan {
    BodyScan {
        report_type: None,
        jurisdiction: None,
        reporting_period: None,
        contains_long_lat: None,
        contains_header: None,
        db_url: None,
    }
}

/// A field that a line sets when it matches, else unchanged.
pub open spec fn replace_if<T>(new: Option<T>, old: Option<T>) -> Option<T> {
    match new {
        Some(v) => Some(v),
        None => old,
    }
}

/// The fields after reading one more `line`.
pub open spec fn scan_line(f: BodyScan, line: Seq<char>) -> BodyScan {
    BodyScan {
        report_type: replace_if(group_text(regex_captures(REPORT_TYPE_PATTERN@, line), 1), f.report_type),
        jurisdiction: replace_if(group_text(regex_captures(JURISDICTION_PATTERN@, line), 1), f.jurisdiction),
        reporting_period: replace_if(period_of(regex_captures(REPORTING_PERIOD_PATTERN@, line)), f.reporting_period),
        contains_long_lat: replace_if(
            match group_text(regex_captures(LAT_LONG_PATTERN@, line), 1) {
                Some(t) => Some(is_yes(t)),
                None => None,
            },
            f.contains_long_lat,
        ),
        contains_header: replace_if(
            match group_text(regex_captures(HEADER_PATTERN@, line), 1) {
                Some(t) => Some(is_yes(t)),
                None => None,
            },
            f.contains_header,
        ),
        db_url: match db_url_change(regex_captures(DB_URL_PATTERN@, line)) {
            Some(u) => u,
            None => f.db_url,
        },
    }
}

/// The fields after reading `ls` in order: each field holds what the last
/// line that set it says.
pub open spec fn scan_lines(ls: Seq<Seq<char>>) -> BodyScan
    decreases ls.len(),
{
    if ls.len() == 0 {
        empty_scan()
    } else {
        scan_line(scan_lines(ls.drop_last()), ls.last())
    }
}

/// The report data found in the e-mail.
#[derive(Debug)]
pub struct SwitrsData {
    pub request_id: Option<usize>,
    pub report_type: Option<String>,
    pub jurisdiction: Option<String>,
    pub reporting_period: Option<Range<CalendarDate>>,
    pub contains_long_lat: bool,
    pub contains_header: bool,
    /// The serialization of the database's download URL.
    pub db_url: Option<String>,
}

/// Mathematical model of [`SwitrsData`].
pub struct SwitrsDataView {
    pub request_id: Option<usize>,
    pub report_type: Option<Seq<char>>,
    pub jurisdiction: Option<Seq<char>>,
    pub reporting_period: Option<(CalendarDate, CalendarDate)>,
    pub contains_long_lat: bool,
    pub contains_header: bool,
    pub db_url: Option<Seq<char>>,
}

impl View for SwitrsData {
    type V = SwitrsDataView;

    open spec fn view(&self) -> SwitrsDataView {
        SwitrsDataView {
            request_id: self.request_id,
            report_type: self.report_type.deep_view(),
            jurisdiction: self.jurisdiction.deep_view(),
            reporting_period: range_view(self.reporting_period),
            contains_long_lat: self.contains_long_lat,
            contains_header: self.contains_header,
            db_url: self.db_url.deep_view(),
        }
    }
}

/// The data that the lines of `body` give, with `request_id` from the
/// subject; a yes/no field that no line sets is false.
pub open spec fn body_data(body: Seq<char>, request_id: Option<usize>) -> SwitrsDataView {
    let f = scan_lines(lines(body));
    SwitrsDataView {
        request_id,
        report_type: f.report_type,
        jurisdiction: f.jurisdiction,
        reporting_period: f.reporting_period,
        contains_long_lat: f.contains_long_lat == Some(true),
        contains_header: f.contains_header == Some(true),
        db_url: f.db_url,
    }
}

/// A line break after the last line of a body does not change what the body
/// says.
pub proof fn law_body_final_line_ending(body: Seq<char>, request_id: Option<usize>)
    requires
        body.len() > 0,
        body.last() != '\n',
        body.last() != '\r',
    ensures
        body_data(body.push('\n'), request_id) == body_data(body, request_id),
        body_data(body + seq!['\r', '\n'], request_id) == body_data(body, request_id),
{
    law_final_line_ending(body);
}

/// None of the field patterns matches `line`.
pub open spec fn matches_no_field(line: Seq<char>) -> bool {
    &&& regex_captures(REPORT_TYPE_PATTERN@, line) is None
    &&& regex_captures(JURISDICTION_PATTERN@, line) is None
    &&& regex_captures(REPORTING_PERIOD_PATTERN@, line) is None
    &&& regex_captures(LAT_LONG_PATTERN@, line) is None
    &&& regex_captures(HEADER_PATTERN@, line) is None
    &&& regex_captures(DB_URL_PATTERN@, line) is None
}

/// A line that no field pattern matches changes no field.
pub proof fn law_unmatched_line(ls: Seq<Seq<char>>, line: Seq<char>)
    requires
        matches_no_field(line),
    ensures
        scan_lines(ls.push(line)) == scan_lines(ls),
{
    assert(ls.push(line).drop_last() =~= ls);
}

/// A last line that no field pattern matches, after a body that does not
/// end in a line break, changes nothing of what the body says.
pub proof fn law_body_unmatched_last_line(body: Seq<char>, line: Seq<char>, request_id: Option<usize>)
    requires
        body.len() > 0,
        body.last() != '\n',
        body.last() != '\r',
        forall|i: int| 0 <= i < line.len() ==> #[trigger] line[i] != '\n',
        line.len() > 0 ==> matches_no_field(line),
    ensures
        body_data(body + seq!['\n'] + line, request_id) == body_data(body, request_id),
{
    if line.len() == 0 {
        law_final_line_ending(body);
        assert(body + seq!['\n'] + line =~= body.push('\n'));
    } else {
        lemma_lines_push_line(body, line);
        law_unmatched_line(lines(body), line);
    }
}

/// Lines that no field pattern matches, read after `ls`, change no field.
pub proof fn lemma_unmatched_lines(ls: Seq<Seq<char>>, extra: Seq<Seq<char>>)
    requires
        forall|i: int| 0 <= i < extra.len() ==> matches_no_field(#[trigger] extra[i]),
    ensures
        scan_lines(ls + extra) == scan_lines(ls),
    decreases extra.len(),
{
    if extra.len() == 0 {
        assert(ls + extra =~= ls);
    } else {
        lemma_unmatched_lines(ls, extra.drop_last());
        assert((ls + extra).drop_last() =~= ls + extra.drop_last());
        assert(matches_no_field(extra[extra.len() - 1]));
    }
}

/// A line break and a line that no field pattern matches, added after any
/// body that does not end in a carriage return, change nothing of what the
/// body says, given that no field pattern matches the empty line either (the
/// added line break makes an empty line of its own after a body that is
/// empty or already ends in a line break).
pub proof fn law_body_unmatched_line(body: Seq<char>, line: Seq<char>, request_id: Option<usize>)
    requires
        body.len() == 0 || body.last() != '\r',
        forall|i: int| 0 <= i < line.len() ==> #[trigger] line[i] != '\n',
        line.len() > 0 ==> matches_no_field(line),
        matches_no_field(Seq::<char>::empty()),
    ensures
        body_data(body + seq!['\n'] + line, request_id) == body_data(body, request_id),
{
    if body.len() > 0 && body.last() != '\n' {
        law_body_unmatched_last_line(body, line, request_id);
    } else {
        let tail = seq!['\n'] + line;
        assert(body + seq!['\n'] + line =~= body + tail);
        lemma_lines_of_break_then_line(line);
        let extra = lines(tail);
        assert forall|i: int| 0 <= i < extra.len() implies matches_no_field(#[trigger] extra[i]) by {
            if i == 0 {
                assert(extra[0] == Seq::<char>::empty());
            } else {
                assert(extra[i] == line);
            }
        }
        if body.len() == 0 {
            assert(body + tail =~= tail);
            assert(lines(body) == Seq::<Seq<char>>::empty());
            assert(lines(body) + extra =~= extra);
        } else {
            lemma_lines_after_line_break(body, tail);
        }
        lemma_unmatched_lines(lines(body), extra);
    }
}

// ------------------------------------------------------------ field laws

proof fn lemma_scan_push(ls: Seq<Seq<char>>, line: Seq<char>)
    ensures
        scan_lines(ls.push(line)) == scan_line(scan_lines(ls), line),
{
    assert(ls.push(line).drop_last() =~= ls);
}

/// The report type comes from the last line that its pattern matches: the
/// whole captured value, trimmed at both ends only; a line that the pattern
/// does not match leaves it as it was.
pub proof fn law_report_type_field(
    ls: Seq<Seq<char>>,
    line: Seq<char>,
    c: Seq<Option<Seq<char>>>,
    g: Seq<char>,
)
    ensures
        regex_captures(REPORT_TYPE_PATTERN@, line) == Some(c) && c.len() > 1 && c[1] == Some(g)
            ==> scan_lines(ls.push(line)).report_type == Some(trim(g)),
        regex_captures(REPORT_TYPE_PATTERN@, line) is None ==> scan_lines(ls.push(line)).report_type
            == scan_lines(ls).report_type,
{
    lemma_scan_push(ls, line);
}

/// The jurisdiction comes from the last line that its pattern matches: the
/// whole captured value, inner spaces included, trimmed at both ends only;
/// a line that the pattern does not match leaves it as it was.
pub proof fn law_jurisdiction_field(
    ls: Seq<Seq<char>>,
    line: Seq<char>,
    c: Seq<Option<Seq<char>>>,
    g: Seq<char>,
)
    ensures
        regex_captures(JURISDICTION_PATTERN@, line) == Some(c) && c.len() > 1 && c[1] == Some(g)
            ==> scan_lines(ls.push(line)).jurisdiction == Some(trim(g)),
        regex_captures(JURISDICTION_PATTERN@, line) is None ==> scan_lines(ls.push(line)).jurisdiction
            == scan_lines(ls).jurisdiction,
{
    lemma_scan_push(ls, line);
}

/// The Header flag comes from the last line that its pattern matches: set
/// when the value reads `Yes` or `true`, cleared otherwise (`No` in
/// particular); a line that the pattern does not match leaves it as it was.
pub proof fn law_header_field(
    ls: Seq<Seq<char>>,
    line: Seq<char>,
    c: Seq<Option<Seq<char>>>,
    g: Seq<char>,
)
    ensures
        regex_captures(HEADER_PATTERN@, line) == Some(c) && c.len() > 1 && c[1] == Some(g)
            ==> scan_lines(ls.push(line)).contains_header == Some(trim(g) == "Yes"@ || trim(g) == "true"@),
        regex_captures(HEADER_PATTERN@, line) == Some(c) && c.len() > 1 && c[1] == Some("No"@)
            ==> scan_lines(ls.push(line)).contains_header == Some(false),
        regex_captures(HEADER_PATTERN@, line) is None ==> scan_lines(ls.push(line)).contains_header
            == scan_lines(ls).contains_header,
{
    lemma_scan_push(ls, line);
    lemma_no_is_not_yes();
}

/// The Lat/Long flag comes from the last line that its pattern matches: set
/// when the value reads `Yes` or `true`, cleared otherwise (`No` in
/// particular); a line that the pattern does not match leaves it as it was.
pub proof fn law_lat_long_field(
    ls: Seq<Seq<char>>,
    line: Seq<char>,
    c: Seq<Option<Seq<char>>>,
    g: Seq<char>,
)
    ensures
        regex_captures(LAT_LONG_PATTERN@, line) == Some(c) && c.len() > 1 && c[1] == Some(g)
            ==> scan_lines(ls.push(line)).contains_long_lat == Some(trim(g) == "Yes"@ || trim(g) == "true"@),
        regex_captures(LAT_LONG_PATTERN@, line) == Some(c) && c.len() > 1 && c[1] == Some("No"@)
            ==> scan_lines(ls.push(line)).contains_long_lat == Some(false),
        regex_captures(LAT_LONG_PATTERN@, line) is None ==> scan_lines(ls.push(line)).contains_long_lat
            == scan_lines(ls).contains_long_lat,
{
    lemma_scan_push(ls, line);
    lemma_no_is_not_yes();
}

proof fn lemma_no_is_not_yes()
    ensures
        trim("No"@) == "No"@,
        "No"@ != "Yes"@,
        "No"@ != "true"@,
{
    reveal_strlit("No");
    reveal_strlit("Yes");
    reveal_strlit("true");
    lemma_trim_plain("No"@);
}

/// The download URL comes from the last line that its pattern matches: the
/// URL that the trimmed match parses to, or none when it does not parse; a
/// line that the pattern does not match leaves it as it was.
pub proof fn law_db_url_field(
    ls: Seq<Seq<char>>,
    line: Seq<char>,
    c: Seq<Option<Seq<char>>>,
    g: Seq<char>,
)
    ensures
        regex_captures(DB_URL_PATTERN@, line) == Some(c) && c.len() > 0 && c[0] == Some(g)
            ==> scan_lines(ls.push(line)).db_url == (match url_parse(trim(g)) {
                Some(u) => Some(u.0),
                None => None,
            }),
        regex_captures(DB_URL_PATTERN@, line) is None ==> scan_lines(ls.push(line)).db_url
            == scan_lines(ls).db_url,
{
    lemma_scan_push(ls, line);
}

/// A date written `MM/DD/YYYY` is its own trim.
proof fn lemma_date_text_plain(d: CalendarDate)
    requires
        is_valid_date(d.year as int, d.month as int, d.day as int),
        0 <= d.year,
    ensures
        trim(date_text(d)) == date_text(d),
{
    assert(pow10(2) == 100) by {
        reveal_with_fuel(pow10, 3);
    }
    assert(pow10(4) == 10000) by {
        reveal_with_fuel(pow10, 5);
    }
    lemma_fixed_digits(d.month as nat, 2);
    lemma_fixed_digits(d.year as nat, 4);
    let t = date_text(d);
    assert(t[0] == fixed_digits(d.month as nat, 2)[0]);
    assert(t[t.len() - 1] == fixed_digits(d.year as nat, 4)[3]);
    assert(crate::decimal::is_digit(t[0]));
    assert(crate::decimal::is_digit(t.last()));
    lemma_trim_plain(t);
}

/// A reporting-period line gives the two dates that it writes: captures
/// whose groups 1 and 2 are `MM/DD/YYYY` texts of valid dates give those
/// dates, in that order.
pub proof fn law_period_round_trip(c: Seq<Option<Seq<char>>>, a: CalendarDate, b: CalendarDate)
    requires
        c.len() > 2,
        c[1] == Some(date_text(a)),
        c[2] == Some(date_text(b)),
        is_valid_date(a.year as int, a.month as int, a.day as int),
        is_valid_date(b.year as int, b.month as int, b.day as int),
        0 <= a.year,
        0 <= b.year,
    ensures
        period_of(Some(c)) == Some((a, b)),
{
    lemma_date_text_plain(a);
    lemma_date_text_plain(b);
    law_date_text_round_trip(a);
    law_date_text_round_trip(b);
}

/// The reporting period comes from the last line that its pattern matches
/// with two dates that exist, the first as its start and the second as its
/// end; a line that the pattern does not match leaves it as it was.
pub proof fn law_period_field(
    ls: Seq<Seq<char>>,
    line: Seq<char>,
    c: Seq<Option<Seq<char>>>,
    a: CalendarDate,
    b: CalendarDate,
)
    requires
        is_valid_date(a.year as int, a.month as int, a.day as int),
        is_valid_date(b.year as int, b.month as int, b.day as int),
        0 <= a.year,
        0 <= b.year,
    ensures
        regex_captures(REPORTING_PERIOD_PATTERN@, line) == Some(c) && c.len() > 2 && c[1] == Some(
            date_text(a),
        ) && c[2] == Some(date_text(b)) ==> scan_lines(ls.push(line)).reporting_period == Some((a, b)),
        regex_captures(REPORTING_PERIOD_PATTERN@, line) is None ==> scan_lines(ls.push(line)).reporting_period
            == scan_lines(ls).reporting_period,
{
    lemma_scan_push(ls, line);
    if regex_captures(REPORTING_PERIOD_PATTERN@, line) == Some(c) && c.len() > 2 && c[1] == Some(
        date_text(a),
    ) && c[2] == Some(date_text(b)) {
        law_period_round_trip(c, a, b);
    }
}

/// Reads the report data from the lines of a message body.
pub fn parse_body(body: &str, request_id: Option<usize>) -> (data: SwitrsData)
    ensures
        data@ == body_data(body@, request_id),
{
    let ls = lines_of(body);
    let rt = captures_in_each(REPORT_TYPE_PATTERN, &ls);
    let ju = captures_in_each(JURISDICTION_PATTERN, &ls);
    let rp = captures_in_each(REPORTING_PERIOD_PATTERN, &ls);
    let ll = captures_in_each(LAT_LONG_PATTERN, &ls);
    let hd = captures_in_each(HEADER_PATTERN, &ls);
    let du = captures_in_each(DB_URL_PATTERN, &ls);

    let mut report_type: Option<String> = None;
    let mut jurisdiction: Option<String> = None;
    let mut reporting_period: Option<Range<CalendarDate>> = None;
    let mut contains_long_lat: Option<bool> = None;
    let mut contains_header: Option<bool> = None;
    let mut db_url: Option<String> = None;

    let ghost lv = ls.deep_view();
    let n = ls.len();
    let mut i: usize = 0;
    while i < n
        invariant
            n == ls.len() == rt.len() == ju.len() == rp.len() == ll.len() == hd.len() == du.len(),
            lv == ls.deep_view(),
            i <= n,
            forall|k: int| 0 <= k < n ==> #[trigger] rt.deep_view()[k] == regex_captures(REPORT_TYPE_PATTERN@, ls@[k]@),
            forall|k: int| 0 <= k < n ==> #[trigger] ju.deep_view()[k] == regex_captures(JURISDICTION_PATTERN@, ls@[k]@),
            forall|k: int| 0 <= k < n ==> #[trigger] rp.deep_view()[k] == regex_captures(REPORTING_PERIOD_PATTERN@, ls@[k]@),
            forall|k: int| 0 <= k < n ==> #[trigger] ll.deep_view()[k] == regex_captures(LAT_LONG_PATTERN@, ls@[k]@),
            forall|k: int| 0 <= k < n ==> #[trigger] hd.deep_view()[k] == regex_captures(HEADER_PATTERN@, ls@[k]@),
            forall|k: int| 0 <= k < n ==> #[trigger] du.deep_view()[k] == regex_captures(DB_URL_PATTERN@, ls@[k]@),
            scan_lines(lv.take(i as int)) == (BodyScan {
                report_type: report_type.deep_view(),
                jurisdiction: jurisdiction.deep_view(),
                reporting_period: range_view(reporting_period),
                contains_long_lat,
                contains_header,
                db_url: db_url.deep_view(),
            }),
        decreases n - i,
    {
        let ghost line = lv[i as int];
        assert(lv.take(i + 1).drop_last() =~= lv.take(i as int));
        assert(ls@[i as int]@ == line);
        assert(rt.deep_view()[i as int] == rt@[i as int].deep_view());
        assert(ju.deep_view()[i as int] == ju@[i as int].deep_view());
        assert(rp.deep_view()[i as int] == rp@[i as int].deep_view());
        assert(ll.deep_view()[i as int] == ll@[i as int].deep_view());
        assert(hd.deep_view()[i as int] == hd@[i as int].deep_view());
        assert(du.deep_view()[i as int] == du@[i as int].deep_view());

        if let Some(s) = captured_text(&rt[i], 1) {
            report_type = Some(s);
        }
        if let Some(s) = captured_text(&ju[i], 1) {
            jurisdiction = Some(s);
        }
        if let Some(p) = period_from_captures(&rp[i]) {
            reporting_period = Some(p);
        }
        if let Some(s) = captured_text(&ll[i], 1) {
            contains_long_lat = Some(parse_yes_no(s.as_str()));
        }
        if let Some(s) = captured_text(&hd[i], 1) {
            contains_header = Some(parse_yes_no(s.as_str()));
        }
        if let Some(s) = captured_text(&du[i], 0) {
            db_url = match parse_url(s.as_str()) {
                Some(u) => Some(u.text),
                None => None,
            };
        }
        i = i + 1;
    }
    assert(lv.take(n as int) =~= lv);
    SwitrsData {
        request_id,
        report_type,
        jurisdiction,
        reporting_period,
        contains_long_lat: match contains_long_lat {
            Some(b) => b,
            None => false,
        },
        contains_header: match contains_header {
            Some(b) => b,
            None => false,
        },
        db_url,
    }
}

// ------------------------------------------------------------ request id

/// The request id that the captures of [`ID_PATTERN`] give: the digits of
/// group 1, trimmed, as a `usize`.
pub open spec fn id_of(caps: Option<Seq<Option<Seq<char>>>>) -> Option<usize> {
    match group_text(caps, 1) {
        Some(t) => match parse_unsigned(t, usize::MAX as nat) {
            Some(v) => Some(v as usize),
            None => None,
        },
        None => None,
    }
}

/// Reading back a written id gives the id: captures whose group 1 is the
/// decimal text of any `n` up to `usize::MAX` give the id `n`.
pub proof fn law_id_round_trip(c: Seq<Option<Seq<char>>>, n: nat)
    requires
        n <= usize::MAX,
        c.len() > 1,
        c[1] == Some(decimal_text(n)),
    ensures
        id_of(Some(c)) == Some(n as usize),
{
    lemma_decimal_text(n);
    let t = decimal_text(n);
    assert forall|i: int| 0 <= i < t.len() implies !crate::text::is_white_space(#[trigger] t[i]) by {
        assert(crate::decimal::is_digit(t[i]));
    }
    lemma_trim_no_white_space(t);
    law_decimal_round_trip(n, usize::MAX as nat);
}

/// The request id in a subject such as `I-SWITRS Report Request - ID #240014`.
pub open spec fn request_id_of(subject: Seq<char>) -> Option<usize> {
    id_of(regex_captures(ID_PATTERN@, subject))
}

/// The request id that the captures of [`ID_PATTERN`] give.
pub fn id_from_captures(caps: &Option<Vec<Option<String>>>) -> (r: Option<usize>)
    ensures
        r == id_of(caps.deep_view()),
{
    match captured_text(caps, 1) {
        Some(t) => parse_usize(t.as_str()),
        None => None,
    }
}

/// Parses the request id from the subject, expected: `I-SWITRS Report
/// Request - ID #240014`.
pub fn parse_id(subject: &str) -> (r: Option<usize>)
    ensures
        r == request_id_of(subject@),
{
    let mut texts: Vec<String> = Vec::new();
    texts.push(subject.to_owned());
    let caps = captures_in_each(ID_PATTERN, &texts);
    assert(caps.deep_view()[0] == caps@[0].deep_view());
    id_from_captures(&caps[0])
}

// ------------------------------------------------------------ the message

/// The value of the first header whose name is exactly `Subject`.
pub open spec fn subject_value(headers: Seq<(Seq<char>, Seq<char>)>) -> Option<Seq<char>>
    decreases headers.len(),
{
    if headers.len() == 0 {
        None
    } else if headers[0].0 == "Subject"@ {
        Some(headers[0].1)
    } else {
        subject_value(headers.drop_first())
    }
}

/// The value of the first `Subject` header.
pub fn subject_of(headers: &Vec<(String, String)>) -> (r: Option<String>)
    ensures
        r.deep_view() == subject_value(headers.deep_view()),
{
    let ghost hv = headers.deep_view();
    let mut i: usize = 0;
    assert(hv.skip(0) =~= hv);
    while i < headers.len()
        invariant
            i <= headers.len(),
            hv == headers.deep_view(),
            subject_value(hv) == subject_value(hv.skip(i as int)),
        decreases headers.len() - i,
    {
        assert(hv.skip(i as int)[0] == hv[i as int]);
        assert(hv[i as int] == headers@[i as int].deep_view());
        assert(hv.skip(i as int).drop_first() =~= hv.skip(i + 1));
        if same_text(headers[i].0.as_str(), "Subject") {
            return Some(headers[i].1.clone());
        }
        i = i + 1;
    }
    assert(hv.skip(i as int).len() == 0);
    None
}

/// The subject is the value of the first header named exactly `Subject`,
/// whatever headers come before or after it.
pub proof fn law_first_subject(headers: Seq<(Seq<char>, Seq<char>)>, i: int)
    requires
        0 <= i < headers.len(),
        headers[i].0 == "Subject"@,
        forall|t: int| 0 <= t < i ==> #[trigger] headers[t].0 != "Subject"@,
    ensures
        subject_value(headers) == Some(headers[i].1),
    decreases i,
{
    if i > 0 {
        assert(headers[0].0 != "Subject"@);
        assert forall|t: int| 0 <= t < i - 1 implies #[trigger] headers.drop_first()[t].0 != "Subject"@ by {
            assert(headers.drop_first()[t] == headers[t + 1]);
        }
        law_first_subject(headers.drop_first(), i - 1);
    }
}

/// Without a header named exactly `Subject` there is no subject.
pub proof fn law_no_subject(headers: Seq<(Seq<char>, Seq<char>)>)
    requires
        forall|t: int| 0 <= t < headers.len() ==> #[trigger] headers[t].0 != "Subject"@,
    ensures
        subject_value(headers) is None,
    decreases headers.len(),
{
    if headers.len() > 0 {
        assert(headers[0].0 != "Subject"@);
        assert forall|t: int| 0 <= t < headers.len() - 1 implies #[trigger] headers.drop_first()[t].0
            != "Subject"@ by {
            assert(headers.drop_first()[t] == headers[t + 1]);
        }
        law_no_subject(headers.drop_first());
    }
}

/// The request id in the subject of the message, whose parts are `r`.
pub open spec fn request_id_in(r: Seq<MailPartView>) -> Option<usize> {
    if r.len() > 0 {
        match subject_value(r[0].headers) {
            Some(s) => request_id_of(s),
            None => None,
        }
    } else {
        None
    }
}

/// How the search for the part that holds the report data ends.
pub enum SearchOutcome {
    /// The part listed at this position has it.
    Found(int),
    /// The body of a part visited before it does not decode.
    BodyError(mailparse::MailParseError),
    /// No part has it.
    Exhausted,
}

/// The search for the report data among the parts `r` of a message, with
/// the parts listed at the positions of `stack` still to visit, the last one
/// first. A visited part whose body has a database URL is the one; else its
/// subparts are stacked in order, so that its last subpart comes next.
pub open spec fn search_parts(r: Seq<MailPartView>, request_id: Option<usize>, stack: Seq<int>) -> SearchOutcome
    decreases stack_weight(r, stack),
{
    if stack.len() == 0 {
        SearchOutcome::Exhausted
    } else {
        let x = stack.last();
        match subtree_end(r, x) {
            None => SearchOutcome::Exhausted,
            Some(e) => match r[x].body {
                Err(err) => SearchOutcome::BodyError(err),
                Ok(body) => if body_data(body, request_id).db_url is Some {
                    SearchOutcome::Found(x)
                } else {
                    let children = child_positions(r, x + 1, r[x].subpart_count);
                    proof {
                        lemma_search_step(r, stack);
                    }
                    search_parts(r, request_id, stack.drop_last() + children)
                },
            },
        }
    }
}

/// The search ends at a part only when that part's body decodes and holds
/// a database URL.
pub proof fn law_found_part_has_db_url(r: Seq<MailPartView>, request_id: Option<usize>, stack: Seq<int>)
    ensures
        search_parts(r, request_id, stack) matches SearchOutcome::Found(x) ==> {
            &&& 0 <= x < r.len()
            &&& r[x].body is Ok
            &&& body_data(r[x].body->Ok_0, request_id).db_url is Some
        },
    decreases stack_weight(r, stack),
{
    if stack.len() > 0 {
        let x = stack.last();
        if let Some(e) = subtree_end(r, x) {
            lemma_subtree_end_bounds(r, x);
            if let Ok(body) = r[x].body {
                if body_data(body, request_id).db_url is None {
                    lemma_search_step(r, stack);
                    law_found_part_has_db_url(
                        r,
                        request_id,
                        stack.drop_last() + child_positions(r, x + 1, r[x].subpart_count),
                    );
                }
            }
        }
    }
}

/// A part that the search passes over: its body decodes and holds no
/// database URL.
pub open spec fn passed_over(r: Seq<MailPartView>, request_id: Option<usize>, i: int) -> bool {
    r[i].body is Ok && body_data(r[i].body->Ok_0, request_id).db_url is None
}

/// Every part listed at a position in `[lo, hi)` is passed over.
pub open spec fn all_passed_over(r: Seq<MailPartView>, request_id: Option<usize>, lo: int, hi: int) -> bool {
    forall|i: int| lo <= i < hi ==> #[trigger] passed_over(r, request_id, i)
}

/// Every part of every subtree listed at a position of `s` is passed over.
pub open spec fn stack_passed_over(r: Seq<MailPartView>, request_id: Option<usize>, s: Seq<int>) -> bool {
    forall|j: int|
        0 <= j < s.len() ==> #[trigger] all_passed_over(r, request_id, s[j], subtree_end(r, s[j])->0)
}

proof fn lemma_all_passed_over_split(r: Seq<MailPartView>, id: Option<usize>, a: int, b: int, c: int)
    requires
        a <= b <= c,
    ensures
        all_passed_over(r, id, a, c) <==> all_passed_over(r, id, a, b) && all_passed_over(r, id, b, c),
{
}

proof fn lemma_stack_passed_over_append(r: Seq<MailPartView>, id: Option<usize>, a: Seq<int>, b: Seq<int>)
    ensures
        stack_passed_over(r, id, a + b) <==> stack_passed_over(r, id, a) && stack_passed_over(r, id, b),
{
    let ab = a + b;
    if stack_passed_over(r, id, ab) {
        assert forall|j: int| 0 <= j < a.len() implies #[trigger] all_passed_over(
            r,
            id,
            a[j],
            subtree_end(r, a[j])->0,
        ) by {
            assert(ab[j] == a[j]);
        }
        assert forall|j: int| 0 <= j < b.len() implies #[trigger] all_passed_over(
            r,
            id,
            b[j],
            subtree_end(r, b[j])->0,
        ) by {
            assert(ab[a.len() + j] == b[j]);
        }
    }
    if stack_passed_over(r, id, a) && stack_passed_over(r, id, b) {
        assert forall|j: int| 0 <= j < ab.len() implies #[trigger] all_passed_over(
            r,
            id,
            ab[j],
            subtree_end(r, ab[j])->0,
        ) by {
            if j < a.len() {
                assert(ab[j] == a[j]);
            } else {
                assert(ab[j] == b[j - a.len()]);
            }
        }
    }
}

/// `k` sibling subtrees listed from `p` fill the positions from `p` to their
/// end, so they are all passed over exactly when those positions are.
proof fn lemma_children_tile(r: Seq<MailPartView>, id: Option<usize>, p: int, k: nat)
    requires
        0 <= p,
        children_end(r, p, k) is Some,
    ensures
        all_passed_over(r, id, p, children_end(r, p, k)->0) <==> stack_passed_over(
            r,
            id,
            child_positions(r, p, k),
        ),
    decreases r.len() - p, k,
{
    if k == 0 {
        assert(child_positions(r, p, k) =~= Seq::<int>::empty());
    } else {
        let q = subtree_end(r, p)->0;
        let e = children_end(r, p, k)->0;
        assert(p < q <= r.len());
        assert(children_end(r, p, k) == children_end(r, q, (k - 1) as nat));
        lemma_children_end_bounds(r, q, (k - 1) as nat);
        lemma_children_tile(r, id, q, (k - 1) as nat);
        let rest = child_positions(r, q, (k - 1) as nat);
        assert(child_positions(r, p, k) == seq![p] + rest);
        lemma_all_passed_over_split(r, id, p, q, e);
        lemma_stack_passed_over_append(r, id, seq![p], rest);
        assert(stack_passed_over(r, id, seq![p]) <==> all_passed_over(r, id, p, q)) by {
            assert(seq![p][0] == p);
        }
    }
}

/// The search from `stack` finds no data exactly when every part of the
/// stacked subtrees is passed over.
pub proof fn lemma_search_exhausted(r: Seq<MailPartView>, id: Option<usize>, stack: Seq<int>)
    requires
        forall|j: int| 0 <= j < stack.len() ==> #[trigger] subtree_end(r, stack[j]) is Some,
    ensures
        search_parts(r, id, stack) == SearchOutcome::Exhausted <==> stack_passed_over(r, id, stack),
    decreases stack_weight(r, stack),
{
    if stack.len() == 0 {
    } else {
        let x = stack.last();
        let rest = stack.drop_last();
        assert(subtree_end(r, stack[stack.len() - 1]) is Some);
        let e = subtree_end(r, x)->0;
        lemma_subtree_end_bounds(r, x);
        assert(stack == rest + seq![x]);
        lemma_stack_passed_over_append(r, id, rest, seq![x]);
        assert(stack_passed_over(r, id, seq![x]) <==> all_passed_over(r, id, x, e)) by {
            assert(seq![x][0] == x);
        }
        lemma_all_passed_over_split(r, id, x, x + 1, e);
        assert(all_passed_over(r, id, x, x + 1) <==> passed_over(r, id, x));
        if passed_over(r, id, x) {
            let c = r[x].subpart_count;
            let children = child_positions(r, x + 1, c);
            lemma_search_step(r, stack);
            assert(subtree_end(r, x) == children_end(r, x + 1, c));
            lemma_children_tile(r, id, x + 1, c);
            let next = rest + children;
            assert forall|j: int| 0 <= j < next.len() implies #[trigger] subtree_end(r, next[j]) is Some by {
                if j < rest.len() {
                    assert(next[j] == stack[j]);
                } else {
                    assert(next[j] == children[j - rest.len()]);
                }
            }
            lemma_search_exhausted(r, id, next);
            lemma_stack_passed_over_append(r, id, rest, children);
            assert(search_parts(r, id, stack) == search_parts(r, id, next));
        } else {
            assert(!all_passed_over(r, id, x, e));
        }
    }
}

/// On the listing of one whole message, the search finds no data exactly
/// when the body of every part decodes and none holds a database URL.
pub proof fn law_no_data_iff_all_passed_over(r: Seq<MailPartView>, request_id: Option<usize>)
    requires
        subtree_end(r, 0) == Some(r.len() as int),
    ensures
        search_parts(r, request_id, seq![0int]) == SearchOutcome::Exhausted <==> forall|i: int|
            0 <= i < r.len() ==> #[trigger] passed_over(r, request_id, i),
{
    lemma_search_exhausted(r, request_id, seq![0int]);
    let s0 = seq![0int];
    assert(s0[0] == 0);
    if stack_passed_over(r, request_id, s0) {
        assert(all_passed_over(r, request_id, s0[0], subtree_end(r, s0[0])->0));
    }
    if all_passed_over(r, request_id, 0, r.len() as int) {
        assert forall|j: int| 0 <= j < s0.len() implies #[trigger] all_passed_over(
            r,
            request_id,
            s0[j],
            subtree_end(r, s0[j])->0,
        ) by {
            assert(j == 0);
        }
    }
}

/// Visiting the part on top of `stack` and stacking its subparts leaves one
/// part fewer to visit.
pub proof fn lemma_search_step(r: Seq<MailPartView>, stack: Seq<int>)
    requires
        stack.len() > 0,
        subtree_end(r, stack.last()) is Some,
    ensures
        stack_weight(r, stack.drop_last() + child_positions(r, stack.last() + 1, r[stack.last()].subpart_count))
            + 1 == stack_weight(r, stack),
        forall|i: int|
            0 <= i < r[stack.last()].subpart_count ==> #[trigger] subtree_end(
                r,
                child_positions(r, stack.last() + 1, r[stack.last()].subpart_count)[i],
            ) is Some,
        child_positions(r, stack.last() + 1, r[stack.last()].subpart_count).len() == r[stack.last()].subpart_count,
{
    let x = stack.last();
    lemma_subtree_end_bounds(r, x);
    lemma_child_positions(r, x + 1, r[x].subpart_count);
    lemma_stack_weight_append(r, stack.drop_last(), child_positions(r, x + 1, r[x].subpart_count));
}

/// The positions of a stack of part positions, as integers.
pub open spec fn positions(s: Seq<usize>) -> Seq<int> {
    s.map_values(|x: usize| x as int)
}

/// Stacks the positions of `count` sibling subtrees, the first listed at
/// `first`, in order.
fn push_subtrees(
    stack: &mut Vec<usize>,
    ends: &Vec<Option<usize>>,
    Ghost(r): Ghost<Seq<MailPartView>>,
    first: usize,
    count: usize,
)
    requires
        ends.len() == r.len(),
        forall|i: int| 0 <= i < r.len() ==> opt_int(#[trigger] ends@[i]) == subtree_end(r, i),
        children_end(r, first as int, count as nat) is Some,
        forall|i: int| 0 <= i < old(stack).len() ==> #[trigger] subtree_end(r, old(stack)@[i] as int) is Some,
    ensures
        positions(final(stack)@) == positions(old(stack)@) + child_positions(r, first as int, count as nat),
        forall|i: int| 0 <= i < final(stack).len() ==> #[trigger] subtree_end(r, final(stack)@[i] as int) is Some,
{
    let ghost base = positions(stack@);
    let ghost children = child_positions(r, first as int, count as nat);
    let mut p: usize = first;
    let mut k: usize = 0;
    assert(base + children =~= positions(stack@) + child_positions(r, p as int, (count - k) as nat));
    while k < count
        invariant
            ends.len() == r.len(),
            forall|i: int| 0 <= i < r.len() ==> opt_int(#[trigger] ends@[i]) == subtree_end(r, i),
            k <= count,
            children_end(r, p as int, (count - k) as nat) is Some,
            positions(stack@) + child_positions(r, p as int, (count - k) as nat) == base + children,
            forall|i: int| 0 <= i < stack.len() ==> #[trigger] subtree_end(r, stack@[i] as int) is Some,
        decreases count - k,
    {
        let ghost m = (count - k) as nat;
        assert(0 <= p < r.len());
        let ghost q = subtree_end(r, p as int)->0;
        assert(p < q <= r.len());
        assert(children_end(r, p as int, m) == children_end(r, q, (m - 1) as nat));
        assert(child_positions(r, p as int, m) == seq![p as int] + child_positions(r, q, (m - 1) as nat));
        let ghost old_stack = positions(stack@);
        stack.push(p);
        assert(positions(stack@) =~= old_stack.push(p as int));
        assert(positions(stack@) + child_positions(r, q, (m - 1) as nat) =~= old_stack
            + child_positions(r, p as int, m));
        assert(opt_int(ends@[p as int]) == Some(q));
        p = match ends[p] {
            Some(q) => q,
            None => p,
        };
        k = k + 1;
    }
    assert(child_positions(r, p as int, 0) =~= Seq::<int>::empty());
    assert(positions(stack@) =~= base + children);
}

/// The positions of the parts of the subtree listed at `x`, in the order in
/// which the search visits them: the part itself, then the subtrees of its
/// subparts from the last subpart to the first.
pub open spec fn visit_from(r: Seq<MailPartView>, x: int) -> Seq<int>
    decreases r.len() - x, 0int,
{
    if 0 <= x < r.len() && subtree_end(r, x) is Some {
        seq![x] + visit_children(r, x + 1, r[x].subpart_count)
    } else {
        seq![]
    }
}

/// The visit order of `k` sibling subtrees listed from `p`: the later
/// siblings' subtrees first, the one at `p` last.
pub open spec fn visit_children(r: Seq<MailPartView>, p: int, k: nat) -> Seq<int>
    decreases r.len() - p, k as int,
{
    if k == 0 {
        seq![]
    } else if 0 <= p < r.len() {
        match subtree_end(r, p) {
            Some(q) => if p < q <= r.len() {
                visit_children(r, q, (k - 1) as nat) + visit_from(r, p)
            } else {
                seq![]
            },
            None => seq![],
        }
    } else {
        seq![]
    }
}

/// How a search that visits the parts at the positions of `order`, in that
/// order, ends: at the first part whose body does not decode or holds a
/// database URL.
pub open spec fn first_stop(r: Seq<MailPartView>, request_id: Option<usize>, order: Seq<int>) -> SearchOutcome
    decreases order.len(),
{
    if order.len() == 0 {
        SearchOutcome::Exhausted
    } else {
        let x = order[0];
        match r[x].body {
            Err(e) => SearchOutcome::BodyError(e),
            Ok(body) => if body_data(body, request_id).db_url is Some {
                SearchOutcome::Found(x)
            } else {
                first_stop(r, request_id, order.drop_first())
            },
        }
    }
}

/// The visit order of the subtrees stacked at the positions of `s`, the top
/// (last) one first.
pub open spec fn stack_visits(r: Seq<MailPartView>, s: Seq<int>) -> Seq<int>
    decreases s.len(),
{
    if s.len() == 0 {
        seq![]
    } else {
        visit_from(r, s.last()) + stack_visits(r, s.drop_last())
    }
}

proof fn lemma_stack_visits_append(r: Seq<MailPartView>, a: Seq<int>, b: Seq<int>)
    ensures
        stack_visits(r, a + b) == stack_visits(r, b) + stack_visits(r, a),
    decreases b.len(),
{
    if b.len() == 0 {
        assert(a + b =~= a);
        assert(stack_visits(r, b) + stack_visits(r, a) =~= stack_visits(r, a));
    } else {
        assert((a + b).drop_last() =~= a + b.drop_last());
        assert((a + b).last() == b.last());
        lemma_stack_visits_append(r, a, b.drop_last());
        assert(stack_visits(r, b) == visit_from(r, b.last()) + stack_visits(r, b.drop_last()));
        assert(stack_visits(r, a + b) =~= stack_visits(r, b) + stack_visits(r, a));
    }
}

proof fn lemma_stack_visits_children(r: Seq<MailPartView>, p: int, k: nat)
    requires
        children_end(r, p, k) is Some,
    ensures
        stack_visits(r, child_positions(r, p, k)) == visit_children(r, p, k),
    decreases r.len() - p, k,
{
    if k > 0 {
        let q = subtree_end(r, p)->0;
        lemma_stack_visits_children(r, q, (k - 1) as nat);
        let rest = child_positions(r, q, (k - 1) as nat);
        assert(child_positions(r, p, k) == seq![p] + rest);
        lemma_stack_visits_append(r, seq![p], rest);
        assert(seq![p].drop_last() =~= Seq::<int>::empty());
        assert(seq![p].last() == p);
        assert(stack_visits(r, Seq::<int>::empty()) == Seq::<int>::empty());
        assert(stack_visits(r, seq![p]) =~= visit_from(r, p));
    } else {
        assert(child_positions(r, p, k) =~= Seq::<int>::empty());
    }
}

proof fn lemma_first_stop_append(r: Seq<MailPartView>, id: Option<usize>, x: int, rest: Seq<int>)
    requires
        passed_over(r, id, x),
    ensures
        first_stop(r, id, seq![x] + rest) == first_stop(r, id, rest),
{
    assert((seq![x] + rest).drop_first() =~= rest);
    assert((seq![x] + rest)[0] == x);
}

/// The stack search from `stack` ends as the search along the visit order of
/// the stacked subtrees does.
pub proof fn lemma_search_visit_order(r: Seq<MailPartView>, id: Option<usize>, stack: Seq<int>)
    requires
        forall|j: int| 0 <= j < stack.len() ==> #[trigger] subtree_end(r, stack[j]) is Some,
    ensures
        search_parts(r, id, stack) == first_stop(r, id, stack_visits(r, stack)),
    decreases stack_weight(r, stack),
{
    if stack.len() > 0 {
        let x = stack.last();
        let rest = stack.drop_last();
        assert(subtree_end(r, stack[stack.len() - 1]) is Some);
        lemma_subtree_end_bounds(r, x);
        let c = r[x].subpart_count;
        let order = stack_visits(r, stack);
        assert(order == seq![x] + visit_children(r, x + 1, c) + stack_visits(r, rest));
        assert(order[0] == x);
        if passed_over(r, id, x) {
            let children = child_positions(r, x + 1, c);
            lemma_search_step(r, stack);
            assert(subtree_end(r, x) == children_end(r, x + 1, c));
            let next = rest + children;
            assert forall|j: int| 0 <= j < next.len() implies #[trigger] subtree_end(r, next[j]) is Some by {
                if j < rest.len() {
                    assert(next[j] == stack[j]);
                } else {
                    assert(next[j] == children[j - rest.len()]);
                }
            }
            lemma_search_visit_order(r, id, next);
            lemma_stack_visits_append(r, rest, children);
            lemma_stack_visits_children(r, x + 1, c);
            assert(order =~= seq![x] + stack_visits(r, next));
            lemma_first_stop_append(r, id, x, stack_visits(r, next));
        }
    }
}

/// The search takes the first part, in the order in which it visits them (a
/// part before its subparts, a later subpart's subtree before an earlier
/// one's), whose body does not decode or holds a database URL.
pub proof fn law_search_visit_order(r: Seq<MailPartView>, request_id: Option<usize>)
    ensures
        search_parts(r, request_id, seq![0int]) == first_stop(r, request_id, visit_from(r, 0)),
{
    let s0 = seq![0int];
    assert(s0.last() == 0 && s0.drop_last() =~= Seq::<int>::empty());
    if subtree_end(r, 0) is Some {
        assert(s0[0] == 0);
        lemma_search_visit_order(r, request_id, s0);
        assert(stack_visits(r, Seq::<int>::empty()) == Seq::<int>::empty());
        assert(stack_visits(r, s0) =~= visit_from(r, 0));
    } else {
        assert(visit_from(r, 0) == Seq::<int>::empty());
    }
}

/// What the search gives for the parts `r` of a message: the data of the
/// first part in visit order whose body holds a database URL, the decoding
/// error of a part visited before it, or no data.
pub open spec fn found_in_parts(r: Seq<MailPartView>, res: Result<SwitrsData, MessageError>) -> bool {
    outcome_is(r, first_stop(r, request_id_in(r), visit_from(r, 0)), res)
}

/// `res` is what the search outcome `o` over the parts `r` gives.
pub open spec fn outcome_is(r: Seq<MailPartView>, o: SearchOutcome, res: Result<SwitrsData, MessageError>) -> bool {
    match o {
        SearchOutcome::Found(x) => res matches Ok(d) && d@ == body_data(r[x].body->Ok_0, request_id_in(r)),
        SearchOutcome::BodyError(e) => res matches Err(MessageError::BadEmail(e2)) && e2 == e,
        SearchOutcome::Exhausted => res matches Err(MessageError::NoDataFound()),
    }
}

impl SwitrsData {
    /// Reads the report data from a raw e-mail: the request id from its
    /// subject, the rest from the first part (searched depth first, a part
    /// before its subparts, later subparts first) whose body holds a database
    /// URL.
    pub fn parse(data: &[u8]) -> (res: Result<SwitrsData, MessageError>)
        ensures
            match parsed_mail_parts(data@) {
                Err(e) => res matches Err(MessageError::BadEmail(e2)) && e2 == e,
                Ok(r) => found_in_parts(r, res),
            },
            res matches Ok(d) ==> d.db_url is Some,
            parsed_mail_parts(data@) matches Ok(r) ==> (res matches Err(MessageError::NoDataFound())
                <==> forall|i: int| 0 <= i < r.len() ==> #[trigger] passed_over(r, request_id_in(r), i)),
    {
        match mail_parts(data) {
            Ok(parts) => SwitrsData::from_parts(parts),
            Err(e) => Err(MessageError::BadEmail(e)),
        }
    }

    /// Reads the report data from the parts of a message, listed in
    /// depth-first pre-order (the message itself first).
    pub fn from_parts(parts: Vec<MailPart>) -> (res: Result<SwitrsData, MessageError>)
        ensures
            found_in_parts(parts_view(parts@), res),
            res matches Ok(d) ==> d.db_url is Some,
            subtree_end(parts_view(parts@), 0) == Some(parts@.len() as int) ==> (res matches Err(
                MessageError::NoDataFound(),
            ) <==> forall|i: int|
                0 <= i < parts@.len() ==> #[trigger] passed_over(
                    parts_view(parts@),
                    request_id_in(parts_view(parts@)),
                    i,
                )),
    {
        let ghost r = parts_view(parts@);
        let res = search_listing(parts);
        proof {
            law_search_visit_order(r, request_id_in(r));
            if subtree_end(r, 0) == Some(r.len() as int) {
                law_no_data_iff_all_passed_over(r, request_id_in(r));
            }
        }
        res
    }
}

/// The search of [`SwitrsData::from_parts`].
fn search_listing(parts: Vec<MailPart>) -> (res: Result<SwitrsData, MessageError>)
    ensures
        outcome_is(
            parts_view(parts@),
            search_parts(parts_view(parts@), request_id_in(parts_view(parts@)), seq![0int]),
            res,
        ),
        res matches Ok(d) ==> d.db_url is Some,
{
    let ghost r = parts_view(parts@);
    let n = parts.len();
    let request_id = if n > 0 {
        assert(r[0] == parts@[0]@);
        match subject_of(&parts[0].headers) {
            Some(s) => parse_id(s.as_str()),
            None => None,
        }
    } else {
        None
    };
    let ghost id = request_id_in(r);
    assert(request_id == id);
    let ends = subtree_ends(&parts);
    if n == 0 || ends[0].is_none() {
        return Err(MessageError::NoDataFound());
    }
    let mut stack: Vec<usize> = Vec::new();
    stack.push(0);
    assert(positions(stack@) =~= seq![0int]);
    loop
        invariant
            n == parts.len() == ends.len(),
            r == parts_view(parts@),
            id == request_id_in(r),
            request_id == id,
            forall|i: int| 0 <= i < n ==> opt_int(#[trigger] ends@[i]) == subtree_end(r, i),
            forall|i: int| 0 <= i < stack.len() ==> #[trigger] subtree_end(r, stack@[i] as int) is Some,
            search_parts(r, id, positions(stack@)) == search_parts(r, id, seq![0int]),
        decreases stack_weight(r, positions(stack@)),
    {
        let ghost before = positions(stack@);
        let x = match stack.pop() {
            Some(x) => x,
            None => {
                assert(before.len() == 0);
                assert(search_parts(r, id, before) == SearchOutcome::Exhausted);
                return Err(MessageError::NoDataFound());
            },
        };
        assert(before.last() == x as int);
        assert(positions(stack@) =~= before.drop_last());
        proof {
            lemma_subtree_end_bounds(r, x as int);
            lemma_search_step(r, before);
        }
        assert(r[x as int] == parts@[x as int]@);
        if parts[x].body.is_err() {
            let mut owned = parts;
            let part = owned.remove(x);
            match part.body {
                Err(e) => {
                    assert(r[x as int].body == Err::<Seq<char>, mailparse::MailParseError>(e));
                    assert(search_parts(r, id, before) == SearchOutcome::BodyError(e));
                    return Err(MessageError::BadEmail(e));
                },
                Ok(_) => {
                    return Err(MessageError::NoDataFound());
                },
            }
        }
        let found = match &parts[x].body {
            Ok(body) => parse_body(body.as_str(), request_id),
            Err(_) => {
                return Err(MessageError::NoDataFound());
            },
        };
        if found.db_url.is_some() {
            assert(search_parts(r, id, before) == SearchOutcome::Found(x as int));
            proof {
                law_found_part_has_db_url(r, id, seq![0int]);
            }
            return Ok(found);
        }
        let count = parts[x].subpart_count;
        push_subtrees(&mut stack, &ends, Ghost(r), x + 1, count);
    }
}

} // verus!
