use vstd::prelude::*;

verus! {

/// The errors of the password checker.
///
/// The failures that come from the outside world carry the text of the
/// underlying error.
#[derive(Debug, PartialEq, Eq)]
pub enum Error {
    IoError(String),
    NoColon,
    ReqwestError(String),
    Timeout,
}

} // verus!
