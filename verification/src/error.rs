//! Why a symbol could not be demangled.

use vstd::prelude::*;

use crate::function_name::FunctionNameError;

verus! {

/// Each way in which parsing one symbol can fail.
#[derive(Debug, Clone, Copy, PartialEq, Eq)]
#[allow(inconsistent_fields)]
pub enum ParseFailure {
    ActiveReferenceOutOfRange { index: usize, num: usize },
    ActiveReferenceStateCorrupt { index: usize, num: usize, slots_len: usize },
    AdvanceOutOfBounds { offset: usize, amount: usize, len: usize },
    ArgumentCollectionAllocationFailed { additional: usize },
    ArgumentLimitExceeded { attempted: usize, limit: usize },
    ArrayDimensionLimitExceeded { attempted: usize, limit: usize },
    EmptyClass { offset: usize },
    FunctionNameValidation(FunctionNameError),
    InputLimitExceeded { attempted: usize, limit: usize },
    InvalidArgumentDelimiter { open: u8, close: u8 },
    InvalidArgumentListTerminator { offset: usize, found: u8 },
    InvalidArrayDimensionCount { offset: usize },
    InvalidCallingConvention { found: u8 },
    InvalidDatatypeCode { offset: usize, found: u8 },
    InvalidLiteral { offset: usize, found: Option<u8> },
    InvalidLiteralRange { start: usize, end: usize },
    InvalidModifier { offset: usize, found: u8 },
    InvalidMsvcPrefix { offset: usize, found: Option<u8> },
    InvalidNumberStart { offset: usize, found: Option<u8> },
    InvalidOperatorPrefix { offset: usize, found: Option<u8> },
    InvalidReferenceRestore { requested: usize, max: usize },
    InvalidReferenceStart { requested: usize, max: usize },
    MissingNumberTerminator { offset: usize, found: Option<u8> },
    MissingParameterTypeReferences { offset: usize, digit: u8 },
    NegativeArrayDimensionCount { offset: usize, value: i32 },
    NestingLimitExceeded { attempted: usize, limit: usize },
    NonEmptyTopLevelStack { num: usize },
    NumberOverflow { start: usize, offset: usize, max: u32 },
    OutputAllocationFailed { additional: usize },
    OutputLimitExceeded { attempted: usize, limit: usize },
    ReferenceAllocationFailed { additional: usize },
    ReferenceIndexOverflow { start: usize, index: usize },
    ReferenceLimitExceeded { attempted: usize, limit: usize },
    ReferenceOutOfHighWater { start: usize, index: usize, max: usize },
    ReferenceStateCorrupt { index: usize, slots_len: usize, max: usize },
    UnexpectedEnd { offset: usize },
    UnsupportedClassComponent { offset: usize, found: u8 },
    UnsupportedDatatypeForm { offset: usize, found: u8, introducer: &'static str },
    UnsupportedMethodEncoding { offset: usize, found: u8 },
    UnsupportedNoArguments { offset: usize },
    UnsupportedOperatorCode { offset: usize, found: u8 },
    UnsupportedTopLevelName { offset: usize, found: u8 },
}

} // verus!
