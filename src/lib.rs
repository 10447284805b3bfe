//! Finds duplicate files below a directory by fuzzy file-name similarity and
//! content digests, and reports the space they waste.
//!
//! The library holds the decisions: the traversal state machine that builds
//! the inventory, the streaming SHA-256 digest, the duplicate clustering and
//! the rows of the report. Reading the file system is left to the caller.

mod cmd_handler;
mod digest;
mod engine;
mod record;
mod report;
mod walker;

pub use cmd_handler::{CmdArgs, DEFAULT_SEARCH_SCORE};
pub use digest::{digest_hex, DigestStream, CHUNK_LEN, MAX_HASHED_LEN};
pub use engine::{
    clustering_fits, digests_equal, find_duplicates, is_a_duplicate, judge_duplicate,
    DuplicateCluster,
};
pub use record::{record_less_eq, sort_records, DuplicateKey, FileData};
pub use report::{report_rows, size_label, DisplayVec, Duplicate};
pub use walker::{
    DigestOutcome, EntryInfo, EntryKind, ErrorKind, Probe, Visit, WalkError, Walker,
};
