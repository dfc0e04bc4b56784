//! The ways an operation of the library can fail.
use crate::date::Date;
use vstd::prelude::*;

verus! {

/// What went wrong, with the value that caused it.
#[derive(Debug, PartialEq)]
pub enum TreasuryCurveError {
    /// A header or a lookup named a tenor that is not one of the thirteen.
    MissingLabel(String),
    /// A year outside the published range was asked for.
    InvalidYear(i32),
    /// A date that the history cannot answer for, even with the forward grace window.
    OutsideDateRange(Date),
    /// A row held a date or a yield that could not be read, or the wrong number of yields.
    DecodeFailure(String),
    /// The CSV held no row of data.
    NoData,
    /// Two rows of the CSV carry the same date.
    DuplicateDate(Date),
    /// The transfer of the CSV failed; the transport's own message.
    FetchData(String),
    /// The CSV body was not UTF-8.
    WebParseUtf8(String),
}

} // verus!
