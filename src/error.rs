use vstd::prelude::*;

verus! {

/// The ways in which an operation on the feed store can fail.
#[derive(Debug, Clone, PartialEq, Eq)]
pub enum StoreError {
    /// The URL is already a key of the store.
    DuplicateKey,
    /// The URL is not a key of the store.
    NotFound,
    /// A local document declares no self-referencing Atom link.
    MissingLink,
    /// The transport could not fetch a URL.
    FetchError,
    /// A document, or the persisted envelope, is malformed.
    ParseError,
    /// Reading or writing the persisted file failed.
    IoError,
    /// The persisted text for the given URL does not parse as a feed.
    CorruptEntry(String),
}

} // verus!
