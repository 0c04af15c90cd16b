//! Failures the library reports to its callers.

use vstd::prelude::*;
use vstd::string::StringExecFns;

verus! {

/// The error kinds of the bundling engine.
#[derive(Debug)]
pub enum Error {
    /// The directory to serve does not exist; holds the path.
    NoDistDir(String),
    /// A block of the remote package index lacks a name or version line.
    IndexParse,
    /// A walked file path does not lie under the application root; holds
    /// the path.
    PathPrefix(String),
    /// The remote index bytes are not a gzip stream of text.
    Decode,
}

impl Error {
    /// Human-readable description of the failure.
    pub fn message(&self) -> (r: String)
        ensures
            match self {
                Error::NoDistDir(p) => r@ == "Error: The directory "@ + p@ + " does not exists"@,
                Error::IndexParse => r@ == "Package parse error: block is missing its name or version line"@,
                Error::PathPrefix(p) => r@ == "Unable to normalize path: "@ + p@,
                Error::Decode => r@ == "Unable to decode the package index"@,
            },
    {
        match self {
            Error::NoDistDir(p) => {
                let mut m = "Error: The directory ".to_owned();
                m.append(p.as_str());
                m.append(" does not exists");
                m
            },
            Error::IndexParse => "Package parse error: block is missing its name or version line".to_owned(),
            Error::PathPrefix(p) => {
                let mut m = "Unable to normalize path: ".to_owned();
                m.append(p.as_str());
                m
            },
            Error::Decode => "Unable to decode the package index".to_owned(),
        }
    }
}

} // verus!
