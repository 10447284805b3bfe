use vstd::prelude::*;

verus! {

/// The name score that a file name must reach, by default, for a duplicate.
pub const DEFAULT_SEARCH_SCORE: i64 = 90;

/// One search request.
#[derive(Debug, Clone)]
pub struct CmdArgs {
    /// The root folder to search for duplicates.
    pub root_folder: String,
    /// The lowest name score, inclusive, at which two files may be duplicates.
    pub search_score: i64,
    /// Whether duplicates must also have matching content digests.
    pub use_content_hash: bool,
}

impl CmdArgs {
    /// A request for `root_folder` with the default score, comparing contents.
    pub fn new(root_folder: String) -> (r: CmdArgs)
        ensures
            r.root_folder == root_folder,
            r.search_score == DEFAULT_SEARCH_SCORE,
            r.use_content_hash,
    {
        CmdArgs { root_folder, search_score: DEFAULT_SEARCH_SCORE, use_content_hash: true }
    }
}

} // verus!
