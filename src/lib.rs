//! Streaming, read-only access to the entries of a TAR archive held by any
//! seekable byte source.
use vstd::prelude::*;

pub mod archive;
pub mod header;
pub mod source;

pub use archive::{Archive, File, Files, SeekStyle};
pub use source::{Error, MemReader, Source};

verus! {

} // verus!
