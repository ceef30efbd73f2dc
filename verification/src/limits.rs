//! Bounds on the work that one demangling attempt may do.

use vstd::prelude::*;

verus! {

/// Longest accepted symbol, in bytes.
pub const MAX_INPUT_BYTES: usize = 65536;

/// Most bytes of text that one attempt may produce, intermediate text included.
pub const MAX_OUTPUT_BYTES: usize = 1048576;

/// Most entries of one back-reference table.
pub const MAX_BACKREFERENCES: usize = 1024;

/// Most components of one qualified name.
pub const MAX_COMPONENTS: usize = 256;

/// Most arguments of one argument list.
pub const MAX_ARGUMENTS: usize = 1024;

/// Deepest accepted nesting of datatypes and nested symbols.
pub const MAX_MSVC_NESTING_DEPTH: usize = 6;

/// Most dimensions of a standalone array type.
pub const MAX_STANDALONE_ARRAY_DIMENSIONS: usize = 4096;

} // verus!
