//! Why an image, or one function of it, was left alone.

use vstd::prelude::*;

use crate::emit::address::Rva;
use crate::emit::code::{Architecture, DecodeIssue};

verus! {

/// Why the bytes of an image could not be rewritten.
#[derive(Debug, PartialEq, Eq)]
pub enum PeError {
    UnsupportedRewriteLayout { reason: &'static str },
    /// What the reader or writer of the image reported.
    Image(String),
}

/// What a marker asks for.
#[derive(Debug, Clone, Copy, PartialEq, Eq, Structural)]
pub enum MarkerCompilationType {
    Default,
    Mutation,
    Virtualization,
    Ultra,
}

/// Why a protection run failed as a whole.
#[derive(Debug, PartialEq, Eq)]
pub enum EmitError {
    Pe(PeError),
    Layout { rva: Rva, reason: &'static str },
    UnsupportedArchitecture { architecture: Architecture },
    NothingProtected,
    SdkMarker(SdkFailure),
    NoSdkMarkers,
    UnsupportedSdkMarker {
        rva: Rva,
        compilation_type: MarkerCompilationType,
        lock_to_key: bool,
    },
    SdkMarkerOutsideRuntimeFunction { rva: Rva },
    MultipleSdkBegins { function: Rva },
}

/// Why a marked region could not be protected.
#[derive(Debug, PartialEq, Eq)]
#[allow(inconsistent_fields)]
pub enum SdkFailure {
    AllocationFailed,
    UnboundedName { name: Rva },
    NameProducerUnmapped { producer: Rva },
    NameProducerUnsupported { producer: Rva },
    EntersBeforeSelection { block: Rva },
    InvalidPredecessor { block: Rva },
    BypassesBegin { block: Rva },
    SplitRegisterMarker { load: Rva, call: Rva },
    EntryNotSelected { entry: Rva },
    ReachesBeforeBegin,
    UndecodedSelection,
    BridgeUnreachable { marker: Rva },
    BridgeNotNear { marker: Rva },
    EmptyRegion,
    RegionEndOverflows,
    BridgeNotRelocated { marker: Rva },
    BridgeNotMeasured { marker: Rva },
    BridgeLength { marker: Rva, length: usize },
    LanguageHandlers,
    ChainTooDeep,
    VersionTwoUnwind,
    FrameStateChanges,
    IncompleteFunction { entry: Rva },
    CoveringStart { begin: Rva, entry: Rva },
    BeginInPrologue,
    PrologueInsideInstruction,
    NoRoomForJump { call: Rva, available: u32 },
    MissingContinuation { end: Rva },
    PartialEpilogue { begin: Rva, end: Rva },
    NothingMutated,
    AbsoluteFixups,
    EpilogueChanged,
    MissingStub,
    LoadNotRelocated { load: Rva },
    LoadNotMeasured { load: Rva },
    LoadLength { load: Rva, length: usize },
    LoadNotCanonical { load: Rva },
    CallNotRelocated { call: Rva },
    CallNotMeasured { call: Rva },
    CallLength { call: Rva, length: usize },
    SiteUnderflows { site: Rva },
    SiteOverflows { site: Rva },
    SiteOutside { site: Rva },
    /// What the decoder, the rewriter or the image reader reported.
    Tool(String),
}

/// Why one function was left alone.
#[derive(Debug, PartialEq, Eq)]
pub enum SkipReason {
    /// The decoder refused the function outright.
    NotDecodable(String),
    /// The decoder could not account for every path.
    Incomplete(Vec<DecodeIssue>),
    /// Nothing describes the function to the unwinder.
    NoUnwindData,
    /// The entry lies inside the function that is described.
    NotAFunctionEntry { covering: Rva },
    /// The unwind information cannot be written for a new address.
    UnwindNotReEmittable(String),
    /// The prologue has another layout in the copy.
    PrologueMoved,
    /// An epilogue has another shape in the copy.
    EpilogueMoved,
    /// The function holds addresses that are fixed up when the image is loaded.
    HasAbsoluteFixups,
    /// The jump to the copy does not fit over the function.
    TooShortForStub { length: u32 },
    /// The copy would be the same as the original.
    NothingToDo,
    /// The rewriter failed.
    MutationFailed(String),
}

/// The failure that reports a refused allocation.
pub open spec fn out_of_memory() -> EmitError {
    EmitError::SdkMarker(SdkFailure::AllocationFailed)
}

/// The failure that reports a refused allocation.
pub fn allocation_error() -> (error: EmitError)
    ensures
        error == out_of_memory(),
{
    EmitError::SdkMarker(SdkFailure::AllocationFailed)
}

} // verus!
