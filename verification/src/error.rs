//! The kinds of failure that the library reports.

use vstd::prelude::*;

verus! {

/// Why an operation of the library failed.
#[derive(Clone, Copy, Debug, PartialEq, Eq, Structural)]
pub enum WikitError {
    /// A dictionary image does not start with the magic bytes.
    BadMagic,
    /// A dictionary image carries a format version that is not known.
    UnsupportedVersion,
    /// The header of a dictionary image is cut short, cannot be read, or
    /// describes regions that do not lie in the image.
    HeaderTruncated,
    /// The index region of a dictionary image lacks the frame or the checksum
    /// of an index.
    BadIndex,
    /// An MDX archive is cut short or holds a structure that cannot be.
    SourceFormat,
    /// An Adler-32 checksum of an MDX archive does not match its data.
    SourceChecksum,
    /// The key blocks of an MDX archive are encrypted.
    SourceEncrypted,
    /// Text could not be decoded under the declared encoding.
    DecodeError,
    /// The index builder was given keys that are not strictly ascending.
    IndexBuildOrder,
    /// A size does not fit the field that the dictionary format has for it.
    TooLarge,
}

/// What operations of the library return.
pub type WikitResult<T> = Result<T, WikitError>;

impl WikitError {
    /// A short description of the failure.
    pub open spec fn spec_message(&self) -> Seq<char> {
        match self {
            WikitError::BadMagic => "wrong wikit magic"@,
            WikitError::UnsupportedVersion => "wrong wikit version"@,
            WikitError::HeaderTruncated => "wikit header is broken"@,
            WikitError::BadIndex => "wikit index is broken"@,
            WikitError::SourceFormat => "malformed mdx file"@,
            WikitError::SourceChecksum => "wrong adler32 checksum"@,
            WikitError::SourceEncrypted => "mdx file is encrypted by its creator"@,
            WikitError::DecodeError => "text cannot be decoded"@,
            WikitError::IndexBuildOrder => "index keys are not strictly ascending"@,
            WikitError::TooLarge => "size exceeds the format's limit"@,
        }
    }

    /// A short description of the failure.
    pub fn message(&self) -> (text: &'static str)
        ensures
            text@ == self.spec_message(),
    {
        match self {
            WikitError::BadMagic => "wrong wikit magic",
            WikitError::UnsupportedVersion => "wrong wikit version",
            WikitError::HeaderTruncated => "wikit header is broken",
            WikitError::BadIndex => "wikit index is broken",
            WikitError::SourceFormat => "malformed mdx file",
            WikitError::SourceChecksum => "wrong adler32 checksum",
            WikitError::SourceEncrypted => "mdx file is encrypted by its creator",
            WikitError::DecodeError => "text cannot be decoded",
            WikitError::IndexBuildOrder => "index keys are not strictly ascending",
            WikitError::TooLarge => "size exceeds the format's limit",
        }
    }
}

} // verus!
