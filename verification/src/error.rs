//! The ways in which compressing and decompressing can fail.

use vstd::prelude::*;

verus! {

/// Why an input was refused.
#[derive(Debug, Clone, Copy, PartialEq, Eq, Structural)]
pub enum Error {
    /// There is nothing to compress: no symbols, so no code tree.
    EmptyInput,
    /// The file ends before its tree or its payload does.
    MalformedFile,
}

} // verus!
