//! The errors that the archive functions return.

use vstd::prelude::*;
use vstd::string::*;

verus! {

/// Why an operation on an archive failed. Each variant carries a short text
/// that names the offending part.
#[derive(Debug, Clone, PartialEq, Eq)]
pub enum ErrorKind {
    /// The header's signature, version or one of its fixed sizes is wrong.
    InvalidHeader(String),
    /// A structure ends too early, or a field that must hold a fixed value
    /// does not, or a name cannot be written.
    MalformedData(String),
    /// No entry is stored under the path that was asked for.
    DoesNotExist(String),
    /// Two entries of one build have the same path, file name and extension.
    AlreadyExists(String),
    /// A stored checksum differs from the checksum of the bytes it covers.
    ValidationFailed(String),
    /// A file is shorter than the range that was to be read from it, or
    /// is not there at all.
    IO(String),
}

impl ErrorKind {
    /// The text that the variant carries.
    pub open spec fn detail(&self) -> Seq<char> {
        match self {
            ErrorKind::InvalidHeader(e) => e@,
            ErrorKind::MalformedData(e) => e@,
            ErrorKind::DoesNotExist(e) => e@,
            ErrorKind::AlreadyExists(e) => e@,
            ErrorKind::ValidationFailed(e) => e@,
            ErrorKind::IO(e) => e@,
        }
    }

    /// What stands before the detail in the printed form.
    pub open spec fn prefix(&self) -> Seq<char> {
        match self {
            ErrorKind::InvalidHeader(_) => "Invalid Header: "@,
            ErrorKind::MalformedData(_) => "Malformed Data: "@,
            ErrorKind::DoesNotExist(_) => "Does Not Exist: "@,
            ErrorKind::AlreadyExists(_) => "Already Exists: "@,
            ErrorKind::ValidationFailed(_) => "Validation Failed: "@,
            ErrorKind::IO(_) => Seq::empty(),
        }
    }

    /// The printed form: the kind in words, then the detail. An `IO` error
    /// prints as its detail alone.
    pub fn to_string(&self) -> (text: String)
        ensures
            text@ == self.prefix() + self.detail(),
    {
        match self {
            ErrorKind::InvalidHeader(e) => String::from_str("Invalid Header: ").concat(e.as_str()),
            ErrorKind::MalformedData(e) => String::from_str("Malformed Data: ").concat(e.as_str()),
            ErrorKind::DoesNotExist(e) => String::from_str("Does Not Exist: ").concat(e.as_str()),
            ErrorKind::AlreadyExists(e) => String::from_str("Already Exists: ").concat(e.as_str()),
            ErrorKind::ValidationFailed(e) => String::from_str("Validation Failed: ").concat(
                e.as_str(),
            ),
            ErrorKind::IO(e) => {
                let text = e.clone();
                assert(text@ =~= Seq::<char>::empty() + e@);
                text
            },
        }
    }
}

/// The error of a read that would pass the end of a file.
pub fn unexpected_eof() -> (e: ErrorKind)
    ensures
        e matches ErrorKind::IO(m) && m@ == "failed to fill whole buffer"@,
{
    ErrorKind::IO(String::from_str("failed to fill whole buffer"))
}

} // verus!
