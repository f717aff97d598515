//! The library's error type.

use vstd::prelude::*;

verus! {

/// Everything that can go wrong while managing plugins.
#[derive(Debug)]
pub enum UepmError {
    /// The manifest could not be read or parsed.
    ManifestParse(String),
    /// A version or a range is not valid semver.
    InvalidSemver { range: String, message: String },
    /// An already resolved version does not satisfy a newly required range.
    VersionConflict { package: String, message: String },
    /// A downloaded tarball does not match its integrity string.
    ChecksumMismatch { package: String, expected: String, actual: String },
    /// A filesystem operation failed.
    Io(String),
    /// The registry or a tarball server could not be reached or answered with an error.
    Http(String),
}

/// The error as plain character sequences.
pub enum ErrorModel {
    ManifestParse(Seq<char>),
    InvalidSemver { range: Seq<char>, message: Seq<char> },
    VersionConflict { package: Seq<char>, message: Seq<char> },
    ChecksumMismatch { package: Seq<char>, expected: Seq<char>, actual: Seq<char> },
    Io(Seq<char>),
    Http(Seq<char>),
}

impl View for UepmError {
    type V = ErrorModel;

    open spec fn view(&self) -> ErrorModel {
        match self {
            UepmError::ManifestParse(m) => ErrorModel::ManifestParse(m@),
            UepmError::InvalidSemver { range, message } => ErrorModel::InvalidSemver {
                range: range@,
                message: message@,
            },
            UepmError::VersionConflict { package, message } => ErrorModel::VersionConflict {
                package: package@,
                message: message@,
            },
            UepmError::ChecksumMismatch { package, expected, actual } =>
                ErrorModel::ChecksumMismatch {
                package: package@,
                expected: expected@,
                actual: actual@,
            },
            UepmError::Io(m) => ErrorModel::Io(m@),
            UepmError::Http(m) => ErrorModel::Http(m@),
        }
    }
}

/// A unit result with its error taken by view.
pub open spec fn unit_outcome(r: Result<(), UepmError>) -> Result<(), ErrorModel> {
    match r {
        Ok(()) => Ok(()),
        Err(e) => Err(e@),
    }
}

/// The human-readable text of an error.
pub open spec fn error_text(e: ErrorModel) -> Seq<char> {
    match e {
        ErrorModel::ManifestParse(m) => "failed to parse manifest: "@ + m,
        ErrorModel::InvalidSemver { range, message } => "invalid semver '"@ + range + "': "@
            + message,
        ErrorModel::VersionConflict { package, message } => "version conflict for "@ + package
            + ": "@ + message,
        ErrorModel::ChecksumMismatch { package, expected, actual } => "checksum mismatch for "@
            + package + ": expected "@ + expected + ", got "@ + actual,
        ErrorModel::Io(m) => "I/O error: "@ + m,
        ErrorModel::Http(m) => "registry request failed: "@ + m,
    }
}

impl Clone for UepmError {
    fn clone(&self) -> (r: Self)
        ensures
            r@ == self@,
    {
        match self {
            UepmError::ManifestParse(m) => UepmError::ManifestParse(m.clone()),
            UepmError::InvalidSemver { range, message } => UepmError::InvalidSemver {
                range: range.clone(),
                message: message.clone(),
            },
            UepmError::VersionConflict { package, message } => UepmError::VersionConflict {
                package: package.clone(),
                message: message.clone(),
            },
            UepmError::ChecksumMismatch { package, expected, actual } =>
                UepmError::ChecksumMismatch {
                package: package.clone(),
                expected: expected.clone(),
                actual: actual.clone(),
            },
            UepmError::Io(m) => UepmError::Io(m.clone()),
            UepmError::Http(m) => UepmError::Http(m.clone()),
        }
    }
}

impl UepmError {
    /// The error's message, as its `Display` would print it.
    pub fn to_string(&self) -> (s: String)
        ensures
            s@ == error_text(self@),
    {
        match self {
            UepmError::ManifestParse(m) => {
                let mut s = String::from_str("failed to parse manifest: ");
                s.append(m.as_str());
                s
            },
            UepmError::InvalidSemver { range, message } => {
                let mut s = String::from_str("invalid semver '");
                s.append(range.as_str());
                s.append("': ");
                s.append(message.as_str());
                s
            },
            UepmError::VersionConflict { package, message } => {
                let mut s = String::from_str("version conflict for ");
                s.append(package.as_str());
                s.append(": ");
                s.append(message.as_str());
                s
            },
            UepmError::ChecksumMismatch { package, expected, actual } => {
                let mut s = String::from_str("checksum mismatch for ");
                s.append(package.as_str());
                s.append(": expected ");
                s.append(expected.as_str());
                s.append(", got ");
                s.append(actual.as_str());
                s
            },
            UepmError::Io(m) => {
                let mut s = String::from_str("I/O error: ");
                s.append(m.as_str());
                s
            },
            UepmError::Http(m) => {
                let mut s = String::from_str("registry request failed: ");
                s.append(m.as_str());
                s
            },
        }
    }
}

} // verus!
