//! A compressed full-text search library: a source file is cut into
//! fixed-size chunks, each chunk is compressed independently and summarized
//! by a 65536-bit presence bitmap over its 3-byte shingles, so that a query
//! can cheaply skip chunks that cannot contain the search string, decompress
//! only the candidates, and verify true matches line by line.

use vstd::prelude::*;

pub mod codec;
pub mod compress;
pub mod create_files;
pub mod expand_files;
pub mod glob;
pub mod index;
pub mod query;

verus! {

/// The error taxonomy of the library: a `Codec` error marks a malformed or
/// truncated compressed block, a `Format` error marks a structurally invalid
/// or truncated index blob. I/O errors never arise here: the library works
/// on in-memory bytes only.
#[derive(Clone, Copy, Debug, PartialEq, Eq, Structural)]
pub enum CoreError {
    Codec,
    Format,
}

} // verus!
