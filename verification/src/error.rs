use vstd::prelude::*;

verus! {

/// Errors reported by the library's fallible operations.
#[derive(Clone, Copy, PartialEq, Eq, Structural, Debug)]
pub enum Error {
    /// The backing path has no usable file name component.
    MissingFileName,
    /// The home directory could not be determined.
    NoHomeDir,
    /// An absolute path was given where a relative one was required.
    NotRelative,
    /// A base directory was given as a relative path.
    NotAbsolute,
    /// A bulk rename was given no replacement record for a track that is
    /// present in the collection.
    MissingReplacement,
    /// A request string was neither a number nor a duration.
    BadContent,
    /// Fewer tracks are available than were requested.
    NotEnoughTracks,
}

impl Error {
    /// A short description of the error, for display by callers.
    pub fn message(&self) -> String {
        match self {
            Error::MissingFileName => "failed to extract a file name from the path".to_owned(),
            Error::NoHomeDir => "failed to locate the home directory".to_owned(),
            Error::NotRelative => "expected a relative path".to_owned(),
            Error::NotAbsolute => "expected an absolute path".to_owned(),
            Error::MissingReplacement => "no replacement record for a present track".to_owned(),
            Error::BadContent => "failed to parse the request as a number or duration".to_owned(),
            Error::NotEnoughTracks => "not enough tracks to satisfy the request".to_owned(),
        }
    }
}

} // verus!
