//! The error taxonomy of the core, and its mapping onto wire status codes.

use vstd::prelude::*;

verus! {

/// Every failure the core can report.
///
/// Validation failures are raised before any mutation; external-tool and
/// I/O failures abort the remaining steps of the operation that met them.
#[derive(Clone, Copy, Debug, PartialEq, Eq, Structural)]
pub enum Error {
    /// A malformed input: a bad or reserved field name, a type or count
    /// mismatch, or a malformed id set.
    Validation,
    /// An unknown tenant, item or container.
    NotFound,
    /// A duplicate field name.
    Conflict,
    /// A dump or restore subprocess failed.
    ExternalTool,
    /// A filesystem or image failure.
    Io,
    /// Pool construction failed after its retries.
    Connectivity,
}

impl Error {
    /// The wire status each error maps to: bad request 400, not found 404,
    /// everything on the server's side 500.
    pub fn status_code(&self) -> (code: u16)
        ensures
            code == self.spec_status_code(),
    {
        match self {
            Error::Validation => 400,
            Error::Conflict => 400,
            Error::NotFound => 404,
            Error::ExternalTool => 500,
            Error::Io => 500,
            Error::Connectivity => 500,
        }
    }

    pub open spec fn spec_status_code(&self) -> u16 {
        match self {
            Error::Validation => 400,
            Error::Conflict => 400,
            Error::NotFound => 404,
            Error::ExternalTool => 500,
            Error::Io => 500,
            Error::Connectivity => 500,
        }
    }

    /// A short stable label, for logs and wire bodies.
    pub fn label(&self) -> (s: &'static str)
        ensures
            s@ == self.spec_label(),
    {
        match self {
            Error::Validation => "validation",
            Error::NotFound => "not_found",
            Error::Conflict => "conflict",
            Error::ExternalTool => "external_tool",
            Error::Io => "io",
            Error::Connectivity => "connectivity",
        }
    }

    pub open spec fn spec_label(&self) -> Seq<char> {
        match self {
            Error::Validation => "validation"@,
            Error::NotFound => "not_found"@,
            Error::Conflict => "conflict"@,
            Error::ExternalTool => "external_tool"@,
            Error::Io => "io"@,
            Error::Connectivity => "connectivity"@,
        }
    }
}

} // verus!
