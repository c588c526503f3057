//! Quiver: a tag-indexed, append-only, line-oriented text archive.
//!
//! An archive is a flat text file holding many named records.  Each record
//! starts with a tag-declaration line (`QV_TAG <tag>`), optionally followed
//! by a score-declaration line (`QV_SCORE <tag> <key>=<value>|...`), and then
//! by the record's payload lines, up to the next tag declaration or the end
//! of the file.
//!
//! This crate is the archive engine: tag indexing, record append, record and
//! record-subset extraction, chunked splitting, tag renaming, score-table
//! extraction, and archive building.  Every operation works on in-memory
//! lines; reading and writing the underlying files is left to the caller.

use vstd::prelude::*;

pub mod archive;
pub mod builder;
pub mod grammar;
pub mod reader;
pub mod rename;
pub mod scores;
pub mod splitter;
pub mod subset;
pub mod text;

verus! {

/// The closed set of failures the archive engine reports.
///
/// Storage failures never appear here: the engine never touches files, so
/// I/O errors stay with the caller that does.
#[derive(Debug, Clone, Copy, PartialEq, Eq, Structural)]
pub enum QuiverError {
    /// `QuiverCore::new` was given a mode other than `"r"` or `"w"`.
    InvalidMode,
    /// A writing operation was invoked on a handle opened for reading.
    WriteModeRequired,
    /// A reading operation was invoked on a handle opened for writing.
    ReadModeRequired,
    /// `add_pdb` was given a tag that the archive already holds.
    DuplicateTag,
    /// `get_pdblines` was given a tag that the archive does not hold.
    TagNotFound,
    /// `rename_tags` was given a replacement list whose length differs from
    /// the number of tags in the archive.
    TagCountMismatch { in_file: usize, provided: usize },
    /// Two tag-declaration lines in a row: format corruption found mid-rename.
    ConsecutiveTagLines,
    /// A tag-declaration line without a tag token: format corruption found
    /// mid-rename.
    MalformedTagLine,
    /// `extract_scores` found no score-declaration line at all.
    EmptyResult,
    /// `split` was given a chunk size of zero.
    InvalidArgument,
}

} // verus!
