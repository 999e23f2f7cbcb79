//! Errors reported by the quote client.

use std::string::FromUtf8Error;
use vstd::prelude::*;
use vstd::string::StringExecFns;

verus! {

/// `std::string::FromUtf8Error`, the error that `String::from_utf8` returns
/// for bytes that are not UTF-8 text. Nothing is known of what it holds; it
/// is only carried to whoever reports it.
#[verifier::external_type_specification]
#[verifier::external_body]
pub struct ExFromUtf8Error(FromUtf8Error);

/// Everything that can go wrong in the client.
#[derive(Debug)]
pub enum ParserError {
    /// The transport or the ticker file failed; the text describes the failure.
    Io(String),
    /// A message could not be encoded or decoded, or had the wrong shape.
    Format(String),
    /// The ticker source is not UTF-8 text.
    Utf8(FromUtf8Error),
    /// The ticker source holds no ticker.
    ParseTickersFile(String),
}

/// How the message of an I/O error starts.
pub const IO_PREFIX: &'static str = "I/O error: ";

/// How the message of a format error starts.
pub const FORMAT_PREFIX: &'static str = "Format error: ";

/// How the message of a UTF-8 error starts.
pub const UTF8_PREFIX: &'static str = "UTF-8 error: ";

/// How the message of an error about the ticker file starts.
pub const TICKERS_PREFIX: &'static str = "Parse tickers file error: ";

impl ParserError {
    /// Whether `text` reports the error: the prefix of its kind, then its
    /// detail. The detail of a UTF-8 error is the one that the standard
    /// library words.
    pub open spec fn says(self, text: Seq<char>) -> bool {
        match self {
            ParserError::Io(detail) => text == IO_PREFIX@ + detail@,
            ParserError::Format(detail) => text == FORMAT_PREFIX@ + detail@,
            ParserError::Utf8(_) => exists|detail: Seq<char>| text == UTF8_PREFIX@ + detail,
            ParserError::ParseTickersFile(detail) => text == TICKERS_PREFIX@ + detail@,
        }
    }

    /// The line that reports the error.
    pub fn message(&self) -> (text: String)
        ensures
            self.says(text@),
    {
        match self {
            ParserError::Io(detail) => String::from_str(IO_PREFIX).concat(detail.as_str()),
            ParserError::Format(detail) => String::from_str(FORMAT_PREFIX).concat(detail.as_str()),
            ParserError::Utf8(e) => {
                let detail = e.to_string();
                String::from_str(UTF8_PREFIX).concat(detail.as_str())
            },
            ParserError::ParseTickersFile(detail) => String::from_str(TICKERS_PREFIX).concat(
                detail.as_str(),
            ),
        }
    }
}

} // verus!
