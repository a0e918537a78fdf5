//! Decisions behind serving static files over HTTP: which file answers a request, in which
//! encoding, with which headers, which byte ranges of it, and when a compressed copy is cached.

use vstd::prelude::*;

pub mod brotli_cache;
pub mod cached_compression;
pub mod compression;
pub mod content_type;
pub mod etag;
pub mod file;
pub mod headers;
pub mod node;
pub mod paths;
pub mod range;
pub mod served_dir;
pub mod text;

pub use crate::brotli_cache::BrotliCache;
pub use crate::cached_compression::{BrotliLevel, CachedCompression};
pub use crate::compression::{detect_compression_support, parse_qvalue, CompressionSupport};
pub use crate::etag::ETag;
pub use crate::file::{ChunkedReadFile, Entity, FileInfo};
pub use crate::served_dir::{NotAFile, ServedDir, ServedDirBuilder};

verus! {

/// Widens a length to 64 bits.
pub fn as_u64(len: usize) -> (r: u64)
    ensures
        r == len,
{
    len as u64
}

/// No length is lost by widening: it is the same number.
pub proof fn lemma_widened(a: usize, b: usize, x: u64, y: u64)
    requires
        call_ensures(as_u64, (a,), x),
        call_ensures(as_u64, (b,), y),
    ensures
        x - y == a - b,
        a == 0 ==> x == 0,
{
}

} // verus!
