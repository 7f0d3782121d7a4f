//! The crate's error type.

use vstd::prelude::*;

verus! {

#[verifier::external_type_specification]
#[verifier::external_body]
pub struct ExPathBuf(std::path::PathBuf);

#[verifier::external_type_specification]
#[verifier::external_body]
pub struct ExIoError(std::io::Error);

/// A policy, compilation, measurement, or export failure.
#[derive(Debug)]
pub enum Error {
    /// A virtual path is not valid in Typst's project namespace.
    InvalidVirtualPath(String),
    /// The configured filesystem root could not be canonicalized.
    InvalidRoot {
        /// Requested filesystem root.
        path: std::path::PathBuf,
        /// Canonicalization failure.
        source: std::io::Error,
    },
    /// No supplied bytes contained a valid font face.
    NoValidFont,
    /// One supplied font file contained no valid font face.
    InvalidFont {
        /// Zero-based position of the invalid font file.
        index: usize,
    },
    /// A configured finite resource limit was exceeded.
    Limit {
        /// Resource that was rejected.
        resource: String,
        /// Stable name of the enforced limit.
        limit_name: &'static str,
        /// Observed resource size or count.
        actual: usize,
        /// Configured maximum.
        maximum: usize,
    },
    /// Typst could not compile the requested document.
    Compile {
        /// Requested source path.
        document: String,
        /// Human-readable Typst diagnostics.
        diagnostics: String,
    },
    /// Typst emitted warnings under the deny-warnings policy.
    Warnings {
        /// Requested source path.
        document: String,
        /// Human-readable Typst diagnostics.
        diagnostics: String,
    },
    /// The rendered page count violated its contract.
    PageCount {
        /// Requested source path.
        document: String,
        /// Rendered page count.
        actual: usize,
        /// Human-readable expected count or range.
        expected: String,
    },
    /// A synchronization primitive was poisoned by a panic.
    Poisoned,
    /// Metadata queries require a non-empty label.
    EmptyLabel,
    /// Typst metadata could not be serialized as JSON.
    Query(String),
    /// A measurement request or response failed validation.
    Measure(String),
    /// The requested deterministic PDF timestamp is outside the supported range.
    Timestamp(i64),
    /// Typst failed to export a PDF.
    Pdf(String),
    /// A zero-based page index was unavailable.
    MissingPage {
        /// Requested zero-based page index.
        page: usize,
        /// Number of pages in the document.
        pages: usize,
    },
    /// Typst produced an invalid or oversized raster buffer.
    Raster(String),
    /// Typstyle failed to format source text.
    Format(String),
}

/// Result type used throughout the crate.
pub type Result<T> = core::result::Result<T, Error>;

/// Whether a failure blames the caller's input (a rejected request, path,
/// font, or limit) rather than the engine.
pub open spec fn is_input_error(error: Error) -> bool {
    ||| error is Measure
    ||| error is InvalidVirtualPath
    ||| error is InvalidRoot
    ||| error is InvalidFont
    ||| error is NoValidFont
    ||| error is Limit
}

impl Error {
    /// Whether this failure blames the caller's input rather than the engine.
    pub fn is_input_error(&self) -> (result: bool)
        ensures
            result == is_input_error(*self),
    {
        match self {
            Error::Measure(_)
            | Error::InvalidVirtualPath(_)
            | Error::InvalidRoot { .. }
            | Error::InvalidFont { .. }
            | Error::NoValidFont
            | Error::Limit { .. } => true,
            _ => false,
        }
    }
}

} // verus!
