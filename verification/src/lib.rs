//! A verified core for managing the lifecycle of locally built PHP source
//! trees: a total order over release identifiers, the grammar of artifact
//! file names and download URLs, discovery of the patch releases of a line,
//! the cache and extraction path rules, build-root manifests, and the
//! decisions of the upgrade workflow.

use vstd::prelude::*;

pub mod digits;
pub mod version;
pub mod downloads;
pub mod config;
pub mod hooks;
pub mod extract;
pub mod buildroot;

verus! {

/// The error taxonomy of the library's fallible operations.
#[derive(Debug, Clone, Copy, PartialEq, Eq)]
pub enum Error {
    /// Malformed version text.
    InvalidVersion,
    /// Unknown archive-extension text.
    InvalidExtension,
    /// A file or directory name that does not follow the artifact grammar.
    InvalidName,
    /// No artifact or tarball matches the request.
    NotFound,
    /// An archive whose compressed stream cannot be decoded.
    Archive,
}

} // verus!
