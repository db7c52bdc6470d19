//! The error type shared by every fallible operation of the library.
//!
//! Errors coming from outside readers and writers are carried as their
//! rendered message, so that the library's own code stays free of foreign
//! error types.

use vstd::prelude::*;

verus! {

/// One error of the comparison pipeline. `Validation` covers rejected inputs
/// (wrong file extension, unknown sheet, key column out of bounds);
/// `Processing` covers failures of the comparison itself; the remaining
/// variants carry messages surfaced from readers and writers unchanged.
#[derive(Debug, Clone)]
pub enum DpdError {
    Io(String),
    Fmt(String),
    Excel(String),
    Csv(String),
    Validation(String),
    Processing(String),
    Unknown,
}

pub type DpdResult<T> = Result<T, DpdError>;

impl DpdError {
    /// A short description of the error, with the carried detail appended.
    pub fn message(&self) -> (r: String)
        ensures
            match self {
                DpdError::Validation(m) => r@ == "Validation error: "@ + m@,
                DpdError::Processing(m) => r@ == "Processing error: "@ + m@,
                DpdError::Io(m) => r@ == "IO error: "@ + m@,
                DpdError::Fmt(m) => r@ == "Format string error: "@ + m@,
                DpdError::Excel(m) => r@ == "Excel processing error: "@ + m@,
                DpdError::Csv(m) => r@ == "Csv processing error: "@ + m@,
                DpdError::Unknown => r@ == "Unknown error"@,
            },
    {
        match self {
            DpdError::Validation(m) => {
                let mut s = "Validation error: ".to_owned();
                s.append(m.as_str());
                s
            },
            DpdError::Processing(m) => {
                let mut s = "Processing error: ".to_owned();
                s.append(m.as_str());
                s
            },
            DpdError::Io(m) => {
                let mut s = "IO error: ".to_owned();
                s.append(m.as_str());
                s
            },
            DpdError::Fmt(m) => {
                let mut s = "Format string error: ".to_owned();
                s.append(m.as_str());
                s
            },
            DpdError::Excel(m) => {
                let mut s = "Excel processing error: ".to_owned();
                s.append(m.as_str());
                s
            },
            DpdError::Csv(m) => {
                let mut s = "Csv processing error: ".to_owned();
                s.append(m.as_str());
                s
            },
            DpdError::Unknown => "Unknown error".to_owned(),
        }
    }
}

} // verus!
