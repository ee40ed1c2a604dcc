//! The library's error types.

use vstd::prelude::*;
use crate::text::{append_str, decimal, string_from};

verus! {

/// Where and why the parser refused a file.
#[derive(Debug, Clone)]
pub struct ParserError {
    /// A message describing the parsing error.
    pub message: String,
    /// The 1-based number of the offending line, where known.
    pub line: Option<usize>,
}

/// A token that names no address family.
#[derive(Debug, Clone)]
pub struct FamilyParseError(pub String);

/// A token that names no configuration method.
#[derive(Debug, Clone)]
pub struct MethodParseError(pub String);

/// Every failure of the library's operations.
#[derive(Debug)]
pub enum NetworkInterfacesError {
    /// Reading or writing the file failed; the platform's description.
    Io(String),
    /// The file could not be parsed.
    Parser(ParserError),
    /// A family token was refused where strict decoding was asked for.
    FamilyParse(FamilyParseError),
    /// A method token was refused where strict decoding was asked for.
    MethodParse(MethodParseError),
    /// The file changed on disk after it was last loaded or saved.
    FileModified,
    /// Anything else, such as a document without a path.
    Other(String),
}

impl ParserError {
    /// A readable description: the line, where known, and the message.
    pub fn describe(&self) -> (r: String)
        ensures
            r@ == self.describe_spec(),
    {
        match self.line {
            Some(n) => {
                let mut r = string_from("Parser error on line ");
                let d = decimal(n as u64);
                append_str(&mut r, d.as_str());
                append_str(&mut r, ": ");
                append_str(&mut r, self.message.as_str());
                r
            },
            None => {
                let mut r = string_from("Parser error: ");
                append_str(&mut r, self.message.as_str());
                r
            },
        }
    }
}

impl NetworkInterfacesError {
    /// A readable description of the error.
    pub fn describe(&self) -> (r: String)
        ensures
            r@ == self.describe_spec(),
    {
        match self {
            NetworkInterfacesError::Io(m) => {
                let mut r = string_from("I/O error: ");
                append_str(&mut r, m.as_str());
                r
            },
            NetworkInterfacesError::Parser(e) => {
                let mut r = string_from("Parser error: ");
                let d = e.describe();
                append_str(&mut r, d.as_str());
                r
            },
            NetworkInterfacesError::FamilyParse(e) => {
                let mut r = string_from("Family parse error: Invalid family: ");
                append_str(&mut r, e.0.as_str());
                r
            },
            NetworkInterfacesError::MethodParse(e) => {
                let mut r = string_from("Method parse error: Invalid method: ");
                append_str(&mut r, e.0.as_str());
                r
            },
            NetworkInterfacesError::FileModified => string_from(
                "The interfaces file has been modified on disk since it was last loaded.",
            ),
            NetworkInterfacesError::Other(m) => {
                let mut r = string_from("Error: ");
                append_str(&mut r, m.as_str());
                r
            },
        }
    }
}

impl NetworkInterfacesError {
    /// The text that [`NetworkInterfacesError::describe`] returns.
    pub open spec fn describe_spec(&self) -> Seq<char> {
        match self {
            NetworkInterfacesError::Io(m) => "I/O error: "@ + m@,
            NetworkInterfacesError::Parser(e) => "Parser error: "@ + e.describe_spec(),
            NetworkInterfacesError::FamilyParse(e) => "Family parse error: Invalid family: "@ + e.0@,
            NetworkInterfacesError::MethodParse(e) => "Method parse error: Invalid method: "@ + e.0@,
            NetworkInterfacesError::FileModified =>
                "The interfaces file has been modified on disk since it was last loaded."@,
            NetworkInterfacesError::Other(m) => "Error: "@ + m@,
        }
    }
}

impl ParserError {
    /// The text that [`ParserError::describe`] returns.
    pub open spec fn describe_spec(&self) -> Seq<char> {
        match self.line {
            Some(n) => "Parser error on line "@ + crate::text::decimal_text(n as nat) + ": "@
                + self.message@,
            None => "Parser error: "@ + self.message@,
        }
    }
}

} // verus!
