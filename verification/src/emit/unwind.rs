//! Unwind information and chains of it.

use vstd::prelude::*;

use crate::emit::address::Rva;
use crate::emit::code::RuntimeFunction;
use crate::emit::error::{EmitError, SdkFailure};

verus! {

/// The function has an exception handler.
pub const UNW_FLAG_EHANDLER: u8 = 1;

/// The function has a termination handler.
pub const UNW_FLAG_UHANDLER: u8 = 2;

/// The information continues elsewhere.
pub const UNW_FLAG_CHAININFO: u8 = 4;

/// Most links that are followed.
pub const MAX_CHAIN_LINKS: usize = 16;

/// How one function is unwound.
#[derive(Debug, PartialEq, Eq)]
pub struct UnwindInfo {
    pub version: u8,
    pub flags: u8,
    pub size_of_prolog: u8,
    pub frame_register: u8,
    pub frame_offset: u8,
    pub codes: Vec<u16>,
    pub handler: Option<Rva>,
    pub chained: Option<RuntimeFunction>,
}

/// A function to describe to the unwinder.
#[derive(Debug, PartialEq, Eq)]
pub struct NewFunction {
    pub begin: Rva,
    pub end: Rva,
    pub unwind: UnwindInfo,
}

impl UnwindInfo {
    /// The information of a function that changes no register.
    pub fn leaf() -> (info: Self)
        ensures
            info.version == 1,
            info.flags == 0,
            info.size_of_prolog == 0,
            info.frame_register == 0,
            info.frame_offset == 0,
            info.codes@.len() == 0,
            info.handler is None,
            info.chained is None,
    {
        UnwindInfo {
            version: 1,
            flags: 0,
            size_of_prolog: 0,
            frame_register: 0,
            frame_offset: 0,
            codes: Vec::new(),
            handler: None,
            chained: None,
        }
    }
}

/// A failure to protect a marked region.
pub open spec fn failed(failure: SdkFailure) -> EmitError {
    EmitError::SdkMarker(failure)
}

/// Finds out whether the information holds wherever the code stands.
pub fn validate_chainable_unwind_info(unwind: &UnwindInfo) -> (r: Result<(), EmitError>)
    ensures
        r == (if unwind.version != 1 {
            Err(failed(SdkFailure::VersionTwoUnwind))
        } else {
            Ok(())
        }),
{
    if unwind.version != 1 {
        return Err(EmitError::SdkMarker(SdkFailure::VersionTwoUnwind));
    }
    Ok(())
}

/// Finds out whether two links of a chain agree on the frame.
pub fn validate_chain_frame_state(current: &UnwindInfo, target: &UnwindInfo) -> (r: Result<
    (),
    EmitError,
>)
    ensures
        r == (if current.frame_register != target.frame_register || current.frame_offset
            != target.frame_offset {
            Err(failed(SdkFailure::FrameStateChanges))
        } else {
            Ok(())
        }),
{
    if current.frame_register != target.frame_register || current.frame_offset
        != target.frame_offset {
        return Err(EmitError::SdkMarker(SdkFailure::FrameStateChanges));
    }
    Ok(())
}

/// Why a link of a chain cannot be used.
pub open spec fn link_obstacle(info: UnwindInfo) -> Option<EmitError> {
    if info.version != 1 {
        Some(failed(SdkFailure::VersionTwoUnwind))
    } else if info.flags & (UNW_FLAG_EHANDLER | UNW_FLAG_UHANDLER) != 0 {
        Some(failed(SdkFailure::LanguageHandlers))
    } else {
        None
    }
}

/// Following a chain of unwind information, link by link.
#[derive(Debug, PartialEq, Eq)]
pub enum ChainWalk {
    /// The information at `next` has to be read. `links` were followed so far, and
    /// the last of them has this frame.
    Read { first: UnwindInfo, frame_register: u8, frame_offset: u8, next: Rva, links: usize },
    /// The chain can be used; this is its first link.
    Done(UnwindInfo),
    Failed(EmitError),
}

/// What follows the link `info` of a chain that starts with `first`.
pub open spec fn after_link(first: UnwindInfo, info: UnwindInfo, links: usize) -> ChainWalk {
    match link_obstacle(info) {
        Some(error) => ChainWalk::Failed(error),
        None => match info.chained {
            None => ChainWalk::Done(first),
            Some(chained) => ChainWalk::Read {
                first,
                frame_register: info.frame_register,
                frame_offset: info.frame_offset,
                next: chained.unwind_info,
                links,
            },
        },
    }
}

/// What follows once the first link was read.
pub open spec fn first_link(parsed: Result<UnwindInfo, String>) -> ChainWalk {
    match parsed {
        Err(message) => ChainWalk::Failed(failed(SdkFailure::Tool(message))),
        Ok(first) => after_link(first, first, 0),
    }
}

/// What follows once the next link was read.
pub open spec fn next_link(walk: ChainWalk, parsed: Result<UnwindInfo, String>) -> ChainWalk {
    match walk {
        ChainWalk::Read { first, frame_register, frame_offset, next, links } => match parsed {
            Err(message) => ChainWalk::Failed(failed(SdkFailure::Tool(message))),
            Ok(target) => if frame_register != target.frame_register || frame_offset
                != target.frame_offset {
                ChainWalk::Failed(failed(SdkFailure::FrameStateChanges))
            } else if links >= MAX_CHAIN_LINKS {
                ChainWalk::Failed(failed(SdkFailure::ChainTooDeep))
            } else {
                after_link(first, target, (links + 1) as usize)
            },
        },
        _ => walk,
    }
}

/// Reports why a link cannot be used.
fn check_link(info: &UnwindInfo) -> (r: Result<(), EmitError>)
    ensures
        match link_obstacle(*info) {
            Some(error) => r == Err::<(), EmitError>(error),
            None => r == Ok::<(), EmitError>(()),
        },
{
    validate_chainable_unwind_info(info)?;
    if info.flags & (UNW_FLAG_EHANDLER | UNW_FLAG_UHANDLER) != 0 {
        return Err(EmitError::SdkMarker(SdkFailure::LanguageHandlers));
    }
    Ok(())
}

/// Starts to follow the chain of `parsed`, the unwind information of a function
/// that is to be moved.
pub fn chainable_unwind(parsed: Result<UnwindInfo, String>) -> (walk: ChainWalk)
    ensures
        walk == first_link(parsed),
{
    let first = match parsed {
        Ok(first) => first,
        Err(message) => return ChainWalk::Failed(EmitError::SdkMarker(SdkFailure::Tool(message))),
    };
    if let Err(error) = check_link(&first) {
        return ChainWalk::Failed(error);
    }
    match first.chained {
        None => ChainWalk::Done(first),
        Some(chained) => ChainWalk::Read {
            frame_register: first.frame_register,
            frame_offset: first.frame_offset,
            next: chained.unwind_info,
            links: 0,
            first,
        },
    }
}

/// Follows a chain by one more link, which was read as `parsed`.
pub fn follow_chain(walk: ChainWalk, parsed: Result<UnwindInfo, String>) -> (r: ChainWalk)
    ensures
        r == next_link(walk, parsed),
{
    match walk {
        ChainWalk::Read { first, frame_register, frame_offset, next: _, links } => {
            let target = match parsed {
                Ok(target) => target,
                Err(message) => return ChainWalk::Failed(
                    EmitError::SdkMarker(SdkFailure::Tool(message)),
                ),
            };
            if frame_register != target.frame_register || frame_offset != target.frame_offset {
                return ChainWalk::Failed(EmitError::SdkMarker(SdkFailure::FrameStateChanges));
            }
            if links >= MAX_CHAIN_LINKS {
                return ChainWalk::Failed(EmitError::SdkMarker(SdkFailure::ChainTooDeep));
            }
            if let Err(error) = check_link(&target) {
                return ChainWalk::Failed(error);
            }
            match target.chained {
                None => ChainWalk::Done(first),
                Some(chained) => ChainWalk::Read {
                    first,
                    frame_register: target.frame_register,
                    frame_offset: target.frame_offset,
                    next: chained.unwind_info,
                    links: links + 1,
                },
            }
        },
        ChainWalk::Done(first) => ChainWalk::Done(first),
        ChainWalk::Failed(error) => ChainWalk::Failed(error),
    }
}

/// A walk that can go on has followed few links, and it goes on from a usable
/// first link.
pub open spec fn walk_wf(walk: ChainWalk) -> bool {
    match walk {
        ChainWalk::Read { first, frame_register, frame_offset, next, links } => links
            <= MAX_CHAIN_LINKS && link_obstacle(first) is None && first.frame_register
            == frame_register && first.frame_offset == frame_offset,
        ChainWalk::Done(first) => link_obstacle(first) is None,
        ChainWalk::Failed(_) => true,
    }
}

/// A chain starts with a usable first link, or fails.
pub proof fn lemma_chain_starts(parsed: Result<UnwindInfo, String>)
    ensures
        walk_wf(first_link(parsed)),
{
}

/// Following a chain keeps the first link, never changes the frame, and ends: a
/// step fails, finishes, or has followed one more link, of which there are at most
/// `MAX_CHAIN_LINKS`.
pub proof fn lemma_chain_walk(walk: ChainWalk, parsed: Result<UnwindInfo, String>)
    requires
        walk_wf(walk),
    ensures
        walk_wf(next_link(walk, parsed)),
        match (walk, next_link(walk, parsed)) {
            (
                ChainWalk::Read { first, frame_register, frame_offset, next, links },
                ChainWalk::Read {
                    first: first1,
                    frame_register: register1,
                    frame_offset: offset1,
                    next: next1,
                    links: links1,
                },
            ) => first1 == first && links1 == links + 1,
            (
                ChainWalk::Read { first, frame_register, frame_offset, next, links },
                ChainWalk::Done(done),
            ) => done == first,
            (_, after) => after is Failed || after == walk,
        },
{
}

/// The information chains to `runtime`, whose frame it shares, and says nothing
/// else.
pub open spec fn chains_to(
    info: UnwindInfo,
    original: UnwindInfo,
    runtime: RuntimeFunction,
) -> bool {
    &&& info.version == 1
    &&& info.flags == UNW_FLAG_CHAININFO
    &&& info.size_of_prolog == 0
    &&& info.frame_register == original.frame_register
    &&& info.frame_offset == original.frame_offset
    &&& info.codes@.len() == 0
    &&& info.handler is None
    &&& info.chained == Some(runtime)
}

/// The information of a slice that was moved out of a function: it chains to the
/// function, whose frame it shares.
pub fn chained_slice_unwind(original: &UnwindInfo, runtime: RuntimeFunction) -> (info: UnwindInfo)
    ensures
        chains_to(info, *original, runtime),
{
    UnwindInfo {
        version: 1,
        flags: UNW_FLAG_CHAININFO,
        size_of_prolog: 0,
        frame_register: original.frame_register,
        frame_offset: original.frame_offset,
        codes: Vec::new(),
        handler: None,
        chained: Some(runtime),
    }
}

} // verus!
