//! Why a buffer cannot be read as a cookie file or page.
use vstd::prelude::*;
use vstd::string::*;

verus! {

/// A fatal format error: the buffer is not a cookie file, or is cut short
/// before its data can be located.
#[derive(Clone, Copy, Debug, PartialEq, Eq, Structural)]
pub enum FormatError {
    /// Fewer than eight bytes: no room for the file header.
    TooSmall,
    /// The file does not start with `cook`.
    BadMagic,
    /// The page-size table runs past the end of the file.
    PageSizeTable,
    /// A page has no room for its cookie count.
    CookieCount,
    /// A page's cookie-offset table runs past the end of the page.
    CookieOffsetTable,
}

impl FormatError {
    /// A human-readable cause.
    pub fn message(&self) -> (r: String)
        ensures
            r@ == match self {
                FormatError::TooSmall => "file too small"@,
                FormatError::BadMagic => "invalid header, not a binarycookies file"@,
                FormatError::PageSizeTable => "invalid page size"@,
                FormatError::CookieCount => "couldn't read num cookies"@,
                FormatError::CookieOffsetTable => "invalid cookie offset"@,
            },
    {
        match self {
            FormatError::TooSmall => String::from_str("file too small"),
            FormatError::BadMagic => String::from_str("invalid header, not a binarycookies file"),
            FormatError::PageSizeTable => String::from_str("invalid page size"),
            FormatError::CookieCount => String::from_str("couldn't read num cookies"),
            FormatError::CookieOffsetTable => String::from_str("invalid cookie offset"),
        }
    }
}

} // verus!
