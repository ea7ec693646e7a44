//! Content resolution and rendering core for a small file-backed blog:
//! the post store (parse and validate one stored record, derive its slug
//! from the file name), the asset cache (lazily filled byte cache with
//! traversal checks), the feed renderer (publish gate, tag gate, viewer
//! zone formatting) and the viewer timezone resolver.  Reading files and
//! speaking HTTP stay with the caller; this crate takes plain values and
//! gives plain values back.

mod chars;
pub mod cache;
pub mod feed;
pub mod json;
pub mod md;
pub mod paths;
pub mod post;
pub mod roundtrip;
pub mod ts;
pub mod tz;

use vstd::prelude::*;

verus! {

/// How loading a single post can fail.
///
/// A traversal attempt or a missing file collapses to `NotFound`; a file
/// that was read but does not hold a well-formed post record is
/// `MalformedContent`; any other filesystem failure is `UpstreamIo`.
#[derive(Debug, Clone, Copy, PartialEq, Eq, Structural)]
pub enum PostError {
    NotFound,
    MalformedContent,
    UpstreamIo,
}

} // verus!
