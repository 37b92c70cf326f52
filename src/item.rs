use vstd::prelude::*;

verus! {

/// One loaded input file: its path, its text, and the fingerprint of
/// (path, content) that the loader computed.
pub struct SourceItem {
    pub path: String,
    pub content: String,
    pub fingerprint: u64,
}

/// A file that could not be read.
pub struct LoadError {
    pub path: String,
}

/// What the item source yields for each candidate file.
pub type Loaded = Result<SourceItem, LoadError>;

} // verus!
