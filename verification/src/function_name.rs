//! A demangled name together with the place where its selector starts.

use vstd::prelude::*;
use vstd::string::*;
use vstd::utf8::*;

use crate::text;
use crate::text::{byte_len, Text};

verus! {

/// Why a name and a selector position do not belong together.
#[derive(Debug, Clone, Copy, PartialEq, Eq)]
pub enum FunctionNameError {
    SelectorOutOfBounds { selector_start: usize, len: usize },
    SelectorNotOnCharBoundary { selector_start: usize },
}

/// A rendered symbol. The selector is the tail that starts at the qualified
/// name; what precedes it is the return type, the access and the like.
#[derive(Debug, PartialEq, Eq)]
pub struct FunctionName {
    full: String,
    selector_start: usize,
}

/// The mathematical view of a `FunctionName`.
pub struct NameView {
    pub full: Text,
    pub selector_start: usize,
}

impl View for FunctionName {
    type V = NameView;

    closed spec fn view(&self) -> NameView {
        NameView { full: self.full@, selector_start: self.selector_start }
    }
}

/// What `FunctionName::new` makes of a text and a position.
pub open spec fn name_of(full: Text, selector_start: usize) -> Result<NameView, FunctionNameError> {
    if selector_start > text::byte_width(full) {
        Err(
            FunctionNameError::SelectorOutOfBounds {
                selector_start,
                len: text::byte_width(full) as usize,
            },
        )
    } else if !is_char_boundary(encode_utf8(full), selector_start as int) {
        Err(FunctionNameError::SelectorNotOnCharBoundary { selector_start })
    } else {
        Ok(NameView { full, selector_start })
    }
}

impl FunctionName {
    /// The selector position lies on a character boundary of the name.
    #[verifier::type_invariant]
    spec fn selector_in_name(self) -> bool {
        self.selector_start <= text::byte_width(self.full@) && is_char_boundary(
            encode_utf8(self.full@),
            self.selector_start as int,
        )
    }

    /// Pairs a rendered name with the byte position of its selector.
    pub fn new(full: String, selector_start: usize) -> (r: Result<Self, FunctionNameError>)
        ensures
            match name_of(full@, selector_start) {
                Ok(view) => r matches Ok(name) && name@ == view,
                Err(error) => r == Err::<FunctionName, FunctionNameError>(error),
            },
    {
        let len = byte_len(full.as_str());
        if selector_start > len {
            return Err(FunctionNameError::SelectorOutOfBounds { selector_start, len });
        }
        if !full.as_str().is_char_boundary(selector_start) {
            return Err(FunctionNameError::SelectorNotOnCharBoundary { selector_start });
        }
        Ok(FunctionName { full, selector_start })
    }

    /// The whole rendered name.
    pub fn full_name(&self) -> (full: &str)
        ensures
            full@ == self@.full,
    {
        self.full.as_str()
    }

    /// The selector: the bytes of the name from the selector position on.
    pub fn name(&self) -> (selector: &str)
        ensures
            self@.selector_start <= text::byte_width(self@.full),
            selector.spec_bytes() == encode_utf8(self@.full).skip(
                self@.selector_start as int,
            ),
    {
        proof {
            use_type_invariant(self);
        }
        let (_, selector) = self.full.as_str().split_at(self.selector_start);
        assert(selector.spec_bytes() =~= encode_utf8(self@.full).skip(self.selector_start as int));
        selector
    }
}

} // verus!
