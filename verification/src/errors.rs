//! The failure taxonomy of the conversion pipeline. Every stage fails
//! fast with one of these.
use vstd::prelude::*;

verus! {

/// What went wrong during a conversion.
#[derive(Clone, Copy, PartialEq, Eq, Structural, Debug)]
pub enum ConverterError {
    /// The source file is absent or unreadable.
    InputMissing,
    /// The container is malformed or cannot be unpacked or repacked.
    ArchiveError,
    /// No package manifest was found.
    ManifestMissing,
    /// The manifest violates its contract: no cover metadata, no cover
    /// resource id, or no matching item entry.
    ManifestMalformed,
    /// A content document has no body.
    DocumentMalformed,
    /// A filesystem operation failed.
    IOError,
}

impl ConverterError {
    /// A short, fixed description of the failure.
    pub fn message(&self) -> (r: &'static str)
        ensures
            r@ == match *self {
                ConverterError::InputMissing => "input file missing"@,
                ConverterError::ArchiveError => "archive error"@,
                ConverterError::ManifestMissing => "manifest missing"@,
                ConverterError::ManifestMalformed => "manifest malformed"@,
                ConverterError::DocumentMalformed => "document malformed"@,
                ConverterError::IOError => "io error"@,
            },
    {
        match *self {
            ConverterError::InputMissing => "input file missing",
            ConverterError::ArchiveError => "archive error",
            ConverterError::ManifestMissing => "manifest missing",
            ConverterError::ManifestMalformed => "manifest malformed",
            ConverterError::DocumentMalformed => "document malformed",
            ConverterError::IOError => "io error",
        }
    }
}

} // verus!
