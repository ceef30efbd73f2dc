//! Flags that select which parts of a symbol are rendered.

use vstd::prelude::*;

verus! {

/// Render everything.
pub const UNDNAME_COMPLETE: u16 = 0x0000;

/// Render `ptr64` rather than `__ptr64`, and so on.
pub const UNDNAME_NO_LEADING_UNDERSCORES: u16 = 0x0001;

/// Leave out calling conventions and pointer keywords.
pub const UNDNAME_NO_MS_KEYWORDS: u16 = 0x0002;

/// Leave out the return type of a function.
pub const UNDNAME_NO_FUNCTION_RETURNS: u16 = 0x0004;

/// Leave out calling conventions of functions, but not of function pointers.
pub const UNDNAME_NO_ALLOCATION_LANGUAGE: u16 = 0x0010;

/// Leave out the qualifiers of `this`.
pub const UNDNAME_NO_THISTYPE: u16 = 0x0060;

/// Leave out `private: ` and the like.
pub const UNDNAME_NO_ACCESS_SPECIFIERS: u16 = 0x0080;

/// Leave out `static ` and `virtual `.
pub const UNDNAME_NO_MEMBER_TYPE: u16 = 0x0200;

/// Render the qualified name alone.
pub const UNDNAME_NAME_ONLY: u16 = 0x1000;

/// Leave out argument lists. The parser rejects it.
pub const UNDNAME_NO_ARGUMENTS: u16 = 0x2000;

/// Leave out `class `, `struct `, `union `, `enum ` and `cointerface `.
pub const UNDNAME_NO_COMPLEX_TYPE: u16 = 0x8000;

/// The flags under which names are shown to a user of the protector.
pub const VMP_DEMANGLE_FLAGS: u16 = 0x0282;

} // verus!
