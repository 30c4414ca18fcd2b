//! Trusted items: the calls into the `regex`, `url`, `time` and `mailparse`
//! crates, with the contracts that this crate believes of them.

use vstd::prelude::*;
use crate::calendar::{CalendarDate, is_valid_date};
use crate::mail::{MailPart, MailPartView, parts_view, subtree_end};

verus! {

// ---------------------------------------------------------------- regex

/// What `regex::Regex::new(pattern)` followed by `Regex::captures(text)`
/// gives: `None` when the pattern does not compile or does not match `text`,
/// otherwise the text of every capture group (group 0 is the whole match),
/// `None` for a group that did not participate in the match.
pub uninterp spec fn regex_captures(pattern: Seq<char>, text: Seq<char>) -> Option<Seq<Option<Seq<char>>>>;

/// Compiles `pattern` once with `regex::Regex::new` and runs
/// `Regex::captures` on each of `texts`, turning every group's match into an
/// owned string. Claims that the `i`-th result is the named
/// [`regex_captures`] of `pattern` and `texts[i]`, and that there is one
/// result per text.
#[verifier::external_body]
pub(crate) fn captures_in_each(pattern: &str, texts: &Vec<String>) -> (res: Vec<Option<Vec<Option<String>>>>)
    ensures
        res.len() == texts.len(),
        forall|i: int|
            0 <= i < texts.len() ==> #[trigger] res.deep_view()[i] == regex_captures(pattern@, texts@[i]@),
{
    match regex::Regex::new(pattern) {
        Ok(re) => texts.iter().map(|t| re.captures(t).map(|c| {
            c.iter().map(|m| m.map(|m| m.as_str().to_string())).collect()
        })).collect(),
        Err(_) => texts.iter().map(|_| None).collect(),
    }
}

// ---------------------------------------------------------------- url

/// The parts of a parsed URL that the library reads.
pub struct UrlParts {
    /// The URL's serialization (`Url::as_str`).
    pub text: String,
    /// The decoded `key=value` pairs of its query (`Url::query_pairs`).
    pub query_pairs: Vec<(String, String)>,
}

/// What `url::Url::parse(input)` gives: `None` on a parse error, otherwise
/// the serialization and the decoded query pairs of the URL.
pub uninterp spec fn url_parse(input: Seq<char>) -> Option<(Seq<char>, Seq<(Seq<char>, Seq<char>)>)>;

/// Calls `url::Url::parse(input)` and reads `as_str` and `query_pairs` of the
/// result. Claims that the result is the named [`url_parse`] of `input`.
#[verifier::external_body]
pub(crate) fn parse_url(input: &str) -> (res: Option<UrlParts>)
    ensures
        match res {
            Some(u) => url_parse(input@) == Some((u.text@, u.query_pairs.deep_view())),
            None => url_parse(input@) is None,
        },
{
    let url = url::Url::parse(input).ok()?;
    Some(UrlParts {
        text: url.as_str().to_string(),
        query_pairs: url.query_pairs().map(|(k, v)| (k.into_owned(), v.into_owned())).collect(),
    })
}

// ---------------------------------------------------------------- time

/// Calls `time::Month::January.nth_next(n)` and gives the month's number.
/// Claims what the crate documents: the month `n` months after January,
/// counted around the year.
#[verifier::external_body]
pub(crate) fn january_nth_next(n: u8) -> (m: u8)
    ensures
        m == n % 12 + 1,
{
    u8::from(time::Month::January.nth_next(n))
}

/// Calls `time::Date::from_calendar_date` with the month numbered `month` and
/// reads the date back. Claims that it succeeds exactly on the valid dates of
/// years -9999 through 9999, and then holds the given year, month and day.
#[verifier::external_body]
pub(crate) fn calendar_date(year: i32, month: u8, day: u8) -> (res: Option<CalendarDate>)
    requires
        1 <= month <= 12,
    ensures
        res is Some <==> is_valid_date(year as int, month as int, day as int),
        res matches Some(d) ==> d == (CalendarDate { year, month, day }),
{
    let m = time::Month::try_from(month).ok()?;
    let d = time::Date::from_calendar_date(year, m, day).ok()?;
    Some(CalendarDate { year: d.year(), month: u8::from(d.month()), day: d.day() })
}

// ---------------------------------------------------------------- mailparse

#[verifier::external_type_specification]
#[verifier::external_body]
pub struct ExMailParseError(mailparse::MailParseError);

/// What `mailparse::parse_mail(data)` gives, read part by part in the
/// depth-first pre-order of `ParsedMail::parts`: the error of the parse, or
/// for each part its headers, the result of `get_body` and its number of
/// subparts.
pub uninterp spec fn parsed_mail_parts(data: Seq<u8>) -> Result<Seq<MailPartView>, mailparse::MailParseError>;

/// Calls `mailparse::parse_mail(data)` and, for each part that
/// `ParsedMail::parts` yields (the message first, in depth-first pre-order),
/// reads its headers with `MailHeader::get_key` and `get_value`, its body
/// with `ParsedMail::get_body`, and the length of `subparts`. Claims that the
/// result is the named [`parsed_mail_parts`] of `data`, and that the listing
/// is one whole tree: since `parts` yields the message and then, depth first,
/// every subpart of every part, the subtree listed first (the message's)
/// ends exactly at the end of the listing.
#[verifier::external_body]
pub(crate) fn mail_parts(data: &[u8]) -> (res: Result<Vec<MailPart>, mailparse::MailParseError>)
    ensures
        match res {
            Ok(parts) => {
                &&& parsed_mail_parts(data@) == Ok::<Seq<MailPartView>, mailparse::MailParseError>(
                    parts_view(parts@),
                )
                &&& subtree_end(parts_view(parts@), 0) == Some(parts@.len() as int)
            },
            Err(e) => parsed_mail_parts(data@) == Err::<Seq<MailPartView>, mailparse::MailParseError>(e),
        },
{
    let mail = mailparse::parse_mail(data)?;
    Ok(mail.parts().map(|p| MailPart {
        headers: p.headers.iter().map(|h| (h.get_key(), h.get_value())).collect(),
        body: p.get_body(),
        subpart_count: p.subparts.len(),
    }).collect())
}

} // verus!
