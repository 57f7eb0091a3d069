//! The library's error type.
use vstd::prelude::*;

verus! {

/// What can go wrong while reading an inventory, a database or NVD.
#[derive(Debug, Clone)]
pub enum Error {
    /// A message for the user.
    Message(String),
    /// An I/O failure, by its description.
    Io(String),
    /// A JSON failure, by its description.
    Json(String),
    /// A CSV failure, by its description.
    Csv(String),
    /// An HTTP failure, by its description.
    Http(String),
    /// No database file: its path and the data directory.
    NoDb(String, String),
}

/// The text that the error prints.
pub open spec fn error_text(e: Error) -> Seq<char> {
    match e {
        Error::Message(m) => m@,
        Error::Io(m) => "I/O error: "@ + m@,
        Error::Json(m) => "JSON error: "@ + m@,
        Error::Csv(m) => "CSV error: "@ + m@,
        Error::Http(m) => "HTTP error: "@ + m@,
        Error::NoDb(p, d) => "No local NVD database at "@ + p@ + "\nRun: crityoink --get --data-dir "@
            + d@,
    }
}

impl Error {
    /// A plain message.
    pub fn msg(s: &str) -> (e: Error)
        ensures
            e matches Error::Message(m) && m@ == s@,
    {
        Error::Message(s.to_owned())
    }

    /// The text that the error prints.
    pub fn message(&self) -> (t: String)
        ensures
            t@ == error_text(*self),
    {
        let mut out = String::new();
        match self {
            Error::Message(m) => {
                crate::text::push_str(&mut out, m.as_str());
            },
            Error::Io(m) => {
                crate::text::push_str(&mut out, "I/O error: ");
                crate::text::push_str(&mut out, m.as_str());
            },
            Error::Json(m) => {
                crate::text::push_str(&mut out, "JSON error: ");
                crate::text::push_str(&mut out, m.as_str());
            },
            Error::Csv(m) => {
                crate::text::push_str(&mut out, "CSV error: ");
                crate::text::push_str(&mut out, m.as_str());
            },
            Error::Http(m) => {
                crate::text::push_str(&mut out, "HTTP error: ");
                crate::text::push_str(&mut out, m.as_str());
            },
            Error::NoDb(p, d) => {
                crate::text::push_str(&mut out, "No local NVD database at ");
                crate::text::push_str(&mut out, p.as_str());
                crate::text::push_str(&mut out, "\nRun: crityoink --get --data-dir ");
                crate::text::push_str(&mut out, d.as_str());
            },
        }
        out
    }
}

} // verus!
