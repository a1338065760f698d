//! Rewrites a container checkpoint archive so that the checkpointed workload
//! can be restored on a host with a different IP address.
//!
//! The library works on plain values: the whole archive as bytes, JSON-like
//! documents as a tree of [`json::Json`] values, and the patched archive as
//! bytes again.  Reading the archive from disk, invoking the external
//! decode/encode tool for the binary image entry, and the atomic
//! replace-on-success of the original file are left to the surrounding
//! program.

pub mod json;
pub mod jsonio;
pub mod patch;
pub mod rewrite;
pub mod tarfmt;

use vstd::prelude::*;

verus! {

/// Why a rewrite was aborted.  The first error anywhere aborts the whole
/// operation; the original archive is never modified by this library.
#[derive(Clone, Copy, Debug, PartialEq, Eq, Structural)]
pub enum RewriteError {
    /// the input is not a well-formed tar stream
    BadArchive,
    /// the checkpoint image entry was never seen in the archive
    ImageMissing,
    /// a patched entry's content no longer fits a tar size field
    OversizeEntry,
    /// the decoded image document is not valid JSON
    ParseImage,
    /// the network-status entry is not valid JSON
    ParseNetworkStatus,
    /// the config-dump entry is not valid JSON
    ParseConfigDump,
}

impl RewriteError {
    pub open spec fn spec_message(self) -> Seq<char> {
        match self {
            RewriteError::BadArchive => "invalid or truncated tar archive"@,
            RewriteError::ImageMissing => "checkpoint/files.img not found in archive"@,
            RewriteError::OversizeEntry => "patched entry too large for a tar header"@,
            RewriteError::ParseImage => "parse files.img json failed"@,
            RewriteError::ParseNetworkStatus => "parse network.status failed"@,
            RewriteError::ParseConfigDump => "parse config.dump failed"@,
        }
    }

    /// A human-readable description, for the operator-facing error line.
    pub fn message(&self) -> (r: String)
        ensures
            r@ == self.spec_message(),
    {
        match self {
            RewriteError::BadArchive => String::from_str("invalid or truncated tar archive"),
            RewriteError::ImageMissing => String::from_str(
                "checkpoint/files.img not found in archive",
            ),
            RewriteError::OversizeEntry => String::from_str(
                "patched entry too large for a tar header",
            ),
            RewriteError::ParseImage => String::from_str("parse files.img json failed"),
            RewriteError::ParseNetworkStatus => String::from_str("parse network.status failed"),
            RewriteError::ParseConfigDump => String::from_str("parse config.dump failed"),
        }
    }
}

} // verus!
