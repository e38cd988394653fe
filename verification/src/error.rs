//! The store's failure values.

use vstd::prelude::*;

verus! {

/// Failure of a store operation.
///
/// `Read` covers everything that can go wrong while replaying the log
/// (a failing read on the backing medium, a record for the queried key that
/// cannot be split into key and payload, or a payload that does not decode);
/// `Write` covers a failing append or an impossible encoding; `InvalidKey`
/// reports a key holding characters outside the accepted set.
#[derive(Debug, PartialEq, Eq)]
pub enum Error {
    Read(String),
    Write(String),
    InvalidKey(String),
}

impl Error {
    /// A rendered description of the failure, usable by callers that
    /// report errors as text.
    pub fn message(&self) -> (m: String)
        ensures
            self matches Error::Read(s) ==> m@ == s@,
            self matches Error::Write(s) ==> m@ == s@,
            self matches Error::InvalidKey(s) ==> m@ == s@,
    {
        match self {
            Error::Read(s) => s.clone(),
            Error::Write(s) => s.clone(),
            Error::InvalidKey(s) => s.clone(),
        }
    }
}

/// Wraps the message of a failed append or encoding as a write error.
pub fn write_err(msg: String) -> (e: Error)
    ensures
        e == Error::Write(msg),
{
    Error::Write(msg)
}

/// Wraps the message of a failed replay or decoding as a read error.
pub fn read_err(msg: String) -> (e: Error)
    ensures
        e == Error::Read(msg),
{
    Error::Read(msg)
}

/// The rendered diagnostic for the record at a position that cannot be
/// split into a key and a payload: a function of the position and the
/// record's text alone.
pub uninterp spec fn line_diag(line_number: int, line: Seq<char>) -> Seq<char>;

/// The text that raw log bytes render as: a function of the bytes alone.
pub uninterp spec fn lossy_text_of(bytes: Seq<u8>) -> Seq<char>;

/// Relies on std's string formatting to render the diagnostic for a record
/// that cannot be split into a key and a payload; the text is a function
/// of the two arguments alone.
#[verifier::external_body]
fn line_error_text(line_number: usize, line: &str) -> (r: String)
    ensures
        r@ == line_diag(line_number as int, line@),
{
    format!("Invalid data as line {line_number}: `{line}`")
}

/// Relies on String::from_utf8_lossy to render raw log bytes in a
/// diagnostic; the text is a function of the bytes alone.
#[verifier::external_body]
pub(crate) fn lossy_text(bytes: &[u8]) -> (r: String)
    ensures
        r@ == lossy_text_of(bytes@),
{
    String::from_utf8_lossy(bytes).into_owned()
}

/// The read error for a record that cannot be split into a key and a
/// payload; its message carries the record's position and text for
/// diagnosis.
pub fn line_error(line_number: usize, line: &str) -> (e: Error)
    ensures
        e matches Error::Read(m) && m@ == line_diag(line_number as int, line@),
{
    Error::Read(line_error_text(line_number, line))
}

} // verus!
