//! Parsing of the I-SWITRS report notification e-mails and the pure parts of
//! the Gmail OAuth exchange used to fetch them.

pub mod auth;
pub mod calendar;
pub mod decimal;
pub mod error;
pub mod mail;
pub mod message;
pub mod text;
pub mod upstream;
