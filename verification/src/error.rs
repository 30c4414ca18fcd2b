//! Errors of the e-mail parser.

use vstd::prelude::*;

verus! {

/// Why no report data could be read from an e-mail.
#[derive(Debug)]
pub enum MessageError {
    /// The message, or the body of one of its parts, could not be parsed.
    BadEmail(mailparse::MailParseError),
    /// No part of the message holds the report data.
    NoDataFound(),
}

} // verus!
