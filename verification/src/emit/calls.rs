//! Calls and exits of a moved region: where they lead once the code stands
//! elsewhere.

use vstd::prelude::*;

use crate::emit::address;
use crate::emit::address::{fill_range, write_displacement, Rva};
use crate::emit::error::{allocation_error, EmitError, SdkFailure};
use crate::emit::memory;
use crate::emit::memory::{Answered, Grants, Memory};
use crate::emit::relocated;
use crate::emit::relocated::Relocated;
use crate::emit::slice::BRIDGE_LEN;
use crate::emit::stub;

verus! {

/// The calls that get a body of their own.
#[derive(Debug, Clone, Copy, PartialEq, Eq, Structural)]
pub enum SdkApi {
    DecryptStringA,
    DecryptStringW,
    FreeString,
    IsProtected,
}

/// A call of the protection interface. `load_rva` is where the address of the
/// callee is loaded, when it goes through a register.
#[derive(Debug, Clone, Copy, PartialEq, Eq, Structural)]
pub struct SdkApiCall {
    pub api: SdkApi,
    pub call_rva: Rva,
    pub load_rva: Option<Rva>,
    pub tail_call: bool,
}

/// Where the body of an interface function was put.
#[derive(Debug, Clone, Copy, PartialEq, Eq, Structural)]
pub struct SdkStub {
    pub api: SdkApi,
    pub rva: Rva,
}

/// The length of a near call or jump.
pub const CALL_LEN: usize = 5;

/// The length of a load relative to the instruction pointer.
pub const LOAD_LEN: usize = 7;

// ---------------------------------------------------------------------------
// Places in the copy
// ---------------------------------------------------------------------------

/// The offset of the `len` bytes at `moved`, in `total` bytes that stand at `base`.
pub open spec fn offset_in(base: Rva, total: nat, moved: Rva, len: usize, original: Rva) -> Result<
    usize,
    EmitError,
> {
    let offset = moved.0 - base.0;
    if offset < 0 {
        Err(EmitError::SdkMarker(SdkFailure::SiteUnderflows { site: original }))
    } else if offset + len > usize::MAX {
        Err(EmitError::SdkMarker(SdkFailure::SiteOverflows { site: original }))
    } else if offset + len > total {
        Err(EmitError::SdkMarker(SdkFailure::SiteOutside { site: original }))
    } else {
        Ok(offset as usize)
    }
}

/// The offset in the copy of what stands at `moved` there and stood at `original`.
pub fn relocated_offset(relocated: &Relocated, moved: Rva, len: usize, original: Rva) -> (r: Result<
    usize,
    EmitError,
>)
    ensures
        r == offset_in(relocated.rva, relocated.bytes@.len(), moved, len, original),
{
    if moved.0 < relocated.rva.0 {
        return Err(EmitError::SdkMarker(SdkFailure::SiteUnderflows { site: original }));
    }
    let offset: usize = (moved.0 - relocated.rva.0) as usize;
    let end = match offset.checked_add(len) {
        Some(end) => end,
        None => return Err(EmitError::SdkMarker(SdkFailure::SiteOverflows { site: original })),
    };
    if end > relocated.bytes.len() {
        return Err(EmitError::SdkMarker(SdkFailure::SiteOutside { site: original }));
    }
    Ok(offset)
}

/// The displacement of an instruction at `from` that leads to `target`.
pub open spec fn displacement_to(
    from: Rva,
    instruction_len: u32,
    target: Rva,
    original: Rva,
) -> Result<i32, EmitError> {
    let distance = target.0 - (from.0 + instruction_len);
    if from.0 + instruction_len > u32::MAX {
        Err(
            EmitError::Layout {
                rva: original,
                reason: "SDK call next address exceeds the PE address width",
            },
        )
    } else if !address::fits_near(distance) {
        Err(
            EmitError::Layout {
                rva: original,
                reason: "SDK fallback stub is outside rel32 range",
            },
        )
    } else {
        Ok(distance as i32)
    }
}

/// The displacement of an instruction at `from` that leads to `target`.
pub fn rel32(from: Rva, instruction_len: u32, target: Rva, original: Rva) -> (r: Result<
    i32,
    EmitError,
>)
    ensures
        r == displacement_to(from, instruction_len, target, original),
{
    let next = match from.checked_add(instruction_len) {
        Some(next) => next,
        None => return Err(
            EmitError::Layout {
                rva: original,
                reason: "SDK call next address exceeds the PE address width",
            },
        ),
    };
    let distance: i64 = target.0 as i64 - next.0 as i64;
    if distance < -0x8000_0000i64 || distance > 0x7fff_ffffi64 {
        return Err(
            EmitError::Layout {
                rva: original,
                reason: "SDK fallback stub is outside rel32 range",
            },
        );
    }
    Ok(distance as i32)
}

/// The four bytes of a displacement.
pub open spec fn encoded(displacement: i32) -> Seq<u8> {
    address::little_endian(address::two_complement(displacement as int))
}

// ---------------------------------------------------------------------------
// Bridges
// ---------------------------------------------------------------------------

/// `bytes` at `base` with the bridge for `marker` leading to `continuation`. It
/// stands at `moved` and is `len` bytes long, as far as that is known.
pub open spec fn bridged(
    base: Rva,
    bytes: Seq<u8>,
    moved: Option<Rva>,
    len: Option<usize>,
    marker: Rva,
    continuation: Rva,
) -> Result<Seq<u8>, EmitError> {
    match (moved, len) {
        (None, _) => Err(EmitError::SdkMarker(SdkFailure::BridgeNotRelocated { marker })),
        (_, None) => Err(EmitError::SdkMarker(SdkFailure::BridgeNotMeasured { marker })),
        (Some(moved), Some(length)) => if length != BRIDGE_LEN {
            Err(EmitError::SdkMarker(SdkFailure::BridgeLength { marker, length }))
        } else {
            match offset_in(base, bytes.len(), moved, length, marker) {
                Err(error) => Err(error),
                Ok(offset) => match displacement_to(moved, 5, continuation, marker) {
                    Err(error) => Err(error),
                    Ok(displacement) => Ok(
                        address::overwritten(
                            bytes,
                            offset as int,
                            seq![0xe9u8] + encoded(displacement),
                        ),
                    ),
                },
            }
        },
    }
}

/// Writes a branch with this first byte and displacement.
fn write_branch(bytes: &mut Vec<u8>, offset: usize, opcode: u8, displacement: i32)
    requires
        offset + 5 <= old(bytes)@.len(),
    ensures
        final(bytes)@ == address::overwritten(
            old(bytes)@,
            offset as int,
            seq![opcode] + encoded(displacement),
        ),
{
    assert(bytes.len() == bytes@.len());
    bytes.set(offset, opcode);
    write_displacement(bytes, offset + 1, displacement);
    assert(bytes@ =~= address::overwritten(
        old(bytes)@,
        offset as int,
        seq![opcode] + encoded(displacement),
    ));
}

/// Writes the bridge for `marker`, which was found and measured as told.
pub fn patch_bridge(
    relocated: &mut Relocated,
    moved: Option<Rva>,
    len: Option<usize>,
    marker: Rva,
    continuation: Rva,
) -> (r: Result<(), EmitError>)
    ensures
        final(relocated).rva == old(relocated).rva,
        final(relocated).moved == old(relocated).moved,
        match bridged(
            old(relocated).rva,
            old(relocated).bytes@,
            moved,
            len,
            marker,
            continuation,
        ) {
            Ok(bytes) => r == Ok::<(), EmitError>(()) && final(relocated).bytes@ == bytes,
            Err(error) => r == Err::<(), EmitError>(error) && final(relocated).bytes@ == old(
                relocated,
            ).bytes@,
        },
{
    let moved = match moved {
        Some(moved) => moved,
        None => return Err(EmitError::SdkMarker(SdkFailure::BridgeNotRelocated { marker })),
    };
    let length = match len {
        Some(length) => length,
        None => return Err(EmitError::SdkMarker(SdkFailure::BridgeNotMeasured { marker })),
    };
    if length != BRIDGE_LEN {
        return Err(EmitError::SdkMarker(SdkFailure::BridgeLength { marker, length }));
    }
    let offset = relocated_offset(relocated, moved, length, marker)?;
    let displacement = rel32(moved, 5, continuation, marker)?;
    write_branch(&mut relocated.bytes, offset, 0xe9, displacement);
    Ok(())
}

/// The bytes after each of the bridges was written in turn, up to the first that
/// fails, and that failure.
pub open spec fn all_bridged(
    base: Rva,
    bytes: Seq<u8>,
    moved: Seq<(Rva, Rva)>,
    continuations: Seq<(Rva, Rva)>,
) -> (Seq<u8>, Option<EmitError>)
    decreases continuations.len(),
{
    if continuations.len() == 0 {
        (bytes, None)
    } else {
        let before = all_bridged(base, bytes, moved, continuations.drop_last());
        let (marker, continuation) = continuations.last();
        let to = relocated::destination(moved, marker);
        if before.1 is Some {
            before
        } else {
            match bridged(
                base,
                before.0,
                to,
                relocated::length_of(base, before.0, to),
                marker,
                continuation,
            ) {
                Ok(after) => (after, None),
                Err(error) => (before.0, Some(error)),
            }
        }
    }
}

/// A failure among the first bridges is the failure of all of them.
proof fn lemma_bridged_prefix(
    base: Rva,
    bytes: Seq<u8>,
    moved: Seq<(Rva, Rva)>,
    continuations: Seq<(Rva, Rva)>,
    count: int,
)
    requires
        0 <= count <= continuations.len(),
        all_bridged(base, bytes, moved, continuations.take(count)).1 is Some,
    ensures
        all_bridged(base, bytes, moved, continuations) == all_bridged(
            base,
            bytes,
            moved,
            continuations.take(count),
        ),
    decreases continuations.len(),
{
    if count < continuations.len() {
        let shorter = continuations.drop_last();
        assert(shorter.take(count) =~= continuations.take(count));
        lemma_bridged_prefix(base, bytes, moved, shorter, count);
    } else {
        assert(continuations.take(count) =~= continuations);
    }
}

/// Lets each bridge of the copy lead to where the code continues.
pub fn patch_exit_bridges(relocated: &mut Relocated, continuations: &[(Rva, Rva)]) -> (r: Result<
    (),
    EmitError,
>)
    ensures
        final(relocated).rva == old(relocated).rva,
        final(relocated).moved == old(relocated).moved,
        ({
            let (bytes, failure) = all_bridged(
                old(relocated).rva,
                old(relocated).bytes@,
                old(relocated).moved@,
                continuations@,
            );
            &&& final(relocated).bytes@ == bytes
            &&& match failure {
                Some(error) => r == Err::<(), EmitError>(error),
                None => r == Ok::<(), EmitError>(()),
            }
        }),
{
    let ghost before = *relocated;
    let mut index: usize = 0;
    assert(continuations@.take(0) =~= Seq::empty());
    while index < continuations.len()
        invariant
            index <= continuations@.len(),
            before == *old(relocated),
            relocated.rva == before.rva,
            relocated.moved == before.moved,
            all_bridged(
                before.rva,
                before.bytes@,
                before.moved@,
                continuations@.take(index as int),
            ) == (relocated.bytes@, None::<EmitError>),
        decreases continuations@.len() - index,
    {
        let (marker, continuation) = continuations[index];
        proof {
            let more = continuations@.take(index + 1);
            assert(more.drop_last() =~= continuations@.take(index as int));
            assert(more.last() == (marker, continuation));
        }
        let moved = relocated.new_rva(marker);
        let len = relocated.instruction_len(marker);
        match patch_bridge(relocated, moved, len, marker, continuation) {
            Ok(_) => {},
            Err(error) => {
                proof {
                    lemma_bridged_prefix(
                        before.rva,
                        before.bytes@,
                        before.moved@,
                        continuations@,
                        index + 1,
                    );
                }
                return Err(error);
            },
        }
        index += 1;
    }
    assert(continuations@.take(index as int) =~= continuations@);
    Ok(())
}

// ---------------------------------------------------------------------------
// Calls of the protection interface
// ---------------------------------------------------------------------------

/// The instruction that names the callee: the load, or the call itself.
pub open spec fn site_of(call: SdkApiCall) -> Rva {
    match call.load_rva {
        Some(load) => load,
        None => call.call_rva,
    }
}

/// These bytes start a 64-bit load relative to the instruction pointer.
pub open spec fn is_canonical_load(first: u8, second: u8, third: u8) -> bool {
    first & 0xf8 == 0x48 && second == 0x8b && third & 0xc7 == 0x05
}

/// `bytes` at `base` with the load at `moved` turned into the address of `target`.
pub open spec fn load_patched(
    base: Rva,
    bytes: Seq<u8>,
    moved: Option<Rva>,
    len: Option<usize>,
    load: Rva,
    target: Rva,
) -> Result<Seq<u8>, EmitError> {
    match (moved, len) {
        (None, _) => Err(EmitError::SdkMarker(SdkFailure::LoadNotRelocated { load })),
        (_, None) => Err(EmitError::SdkMarker(SdkFailure::LoadNotMeasured { load })),
        (Some(moved), Some(length)) => if length != LOAD_LEN {
            Err(EmitError::SdkMarker(SdkFailure::LoadLength { load, length }))
        } else {
            match offset_in(base, bytes.len(), moved, length, load) {
                Err(error) => Err(error),
                Ok(offset) => match displacement_to(moved, 7, target, load) {
                    Err(error) => Err(error),
                    Ok(displacement) => if !is_canonical_load(
                        bytes[offset as int],
                        bytes[offset + 1],
                        bytes[offset + 2],
                    ) {
                        Err(EmitError::SdkMarker(SdkFailure::LoadNotCanonical { load }))
                    } else {
                        Ok(
                            address::overwritten(
                                bytes,
                                offset as int,
                                seq![bytes[offset as int], 0x8du8, bytes[offset + 2]] + encoded(
                                    displacement,
                                ),
                            ),
                        )
                    },
                },
            }
        },
    }
}

/// `bytes` at `base` with the call at `moved` leading to `target`. What is left of
/// a longer encoding becomes padding.
pub open spec fn call_patched(
    base: Rva,
    bytes: Seq<u8>,
    moved: Option<Rva>,
    len: Option<usize>,
    call: SdkApiCall,
    target: Rva,
) -> Result<Seq<u8>, EmitError> {
    let site = call.call_rva;
    match (moved, len) {
        (None, _) => Err(EmitError::SdkMarker(SdkFailure::CallNotRelocated { call: site })),
        (_, None) => Err(EmitError::SdkMarker(SdkFailure::CallNotMeasured { call: site })),
        (Some(moved), Some(length)) => if length < CALL_LEN || length > CALL_LEN + 1 {
            Err(EmitError::SdkMarker(SdkFailure::CallLength { call: site, length }))
        } else {
            match offset_in(base, bytes.len(), moved, length, site) {
                Err(error) => Err(error),
                Ok(offset) => match displacement_to(moved, 5, target, site) {
                    Err(error) => Err(error),
                    Ok(displacement) => Ok(
                        address::filled(
                            address::overwritten(
                                bytes,
                                offset as int,
                                seq![if call.tail_call { 0xe9u8 } else { 0xe8u8 }] + encoded(
                                    displacement,
                                ),
                            ),
                            offset + CALL_LEN,
                            length - CALL_LEN,
                            0x90,
                        ),
                    ),
                },
            }
        },
    }
}

/// `bytes` at `base` with `call` leading to `target`. The instruction that names
/// the callee stands at `moved` and is `len` bytes long, as far as that is known.
pub open spec fn redirected(
    base: Rva,
    bytes: Seq<u8>,
    moved: Option<Rva>,
    len: Option<usize>,
    call: SdkApiCall,
    target: Rva,
) -> Result<Seq<u8>, EmitError> {
    match call.load_rva {
        Some(load) => load_patched(base, bytes, moved, len, load, target),
        None => call_patched(base, bytes, moved, len, call, target),
    }
}

/// Turns a load into the address of `target`.
fn redirect_load(
    relocated: &mut Relocated,
    moved: Option<Rva>,
    len: Option<usize>,
    load: Rva,
    target: Rva,
) -> (r: Result<(), EmitError>)
    ensures
        final(relocated).rva == old(relocated).rva,
        final(relocated).moved == old(relocated).moved,
        match load_patched(old(relocated).rva, old(relocated).bytes@, moved, len, load, target) {
            Ok(bytes) => r == Ok::<(), EmitError>(()) && final(relocated).bytes@ == bytes,
            Err(error) => r == Err::<(), EmitError>(error) && final(relocated).bytes@ == old(
                relocated,
            ).bytes@,
        },
{
    let moved = match moved {
        Some(moved) => moved,
        None => return Err(EmitError::SdkMarker(SdkFailure::LoadNotRelocated { load })),
    };
    let length = match len {
        Some(length) => length,
        None => return Err(EmitError::SdkMarker(SdkFailure::LoadNotMeasured { load })),
    };
    if length != LOAD_LEN {
        return Err(EmitError::SdkMarker(SdkFailure::LoadLength { load, length }));
    }
    let offset = relocated_offset(relocated, moved, length, load)?;
    let displacement = rel32(moved, 7, target, load)?;
    assert(relocated.bytes.len() == relocated.bytes@.len());
    let first = relocated.bytes[offset];
    let second = relocated.bytes[offset + 1];
    let third = relocated.bytes[offset + 2];
    if first & 0xf8 != 0x48 || second != 0x8b || third & 0xc7 != 0x05 {
        return Err(EmitError::SdkMarker(SdkFailure::LoadNotCanonical { load }));
    }
    let ghost before = relocated.bytes@;
    relocated.bytes.set(offset + 1, 0x8d);
    write_displacement(&mut relocated.bytes, offset + 3, displacement);
    assert(relocated.bytes@ =~= address::overwritten(
        before,
        offset as int,
        seq![first, 0x8du8, third] + encoded(displacement),
    ));
    Ok(())
}

/// Lets a call lead to `target`.
fn redirect_call(
    relocated: &mut Relocated,
    moved: Option<Rva>,
    len: Option<usize>,
    call: SdkApiCall,
    target: Rva,
) -> (r: Result<(), EmitError>)
    ensures
        final(relocated).rva == old(relocated).rva,
        final(relocated).moved == old(relocated).moved,
        match call_patched(old(relocated).rva, old(relocated).bytes@, moved, len, call, target) {
            Ok(bytes) => r == Ok::<(), EmitError>(()) && final(relocated).bytes@ == bytes,
            Err(error) => r == Err::<(), EmitError>(error) && final(relocated).bytes@ == old(
                relocated,
            ).bytes@,
        },
{
    let site = call.call_rva;
    let moved = match moved {
        Some(moved) => moved,
        None => return Err(EmitError::SdkMarker(SdkFailure::CallNotRelocated { call: site })),
    };
    let length = match len {
        Some(length) => length,
        None => return Err(EmitError::SdkMarker(SdkFailure::CallNotMeasured { call: site })),
    };
    if length < CALL_LEN || length > CALL_LEN + 1 {
        return Err(EmitError::SdkMarker(SdkFailure::CallLength { call: site, length }));
    }
    let offset = relocated_offset(relocated, moved, length, site)?;
    let displacement = rel32(moved, 5, target, site)?;
    let opcode: u8 = if call.tail_call { 0xe9 } else { 0xe8 };
    write_branch(&mut relocated.bytes, offset, opcode, displacement);
    fill_range(&mut relocated.bytes, offset + CALL_LEN, offset + length, 0x90);
    Ok(())
}

/// Lets `call`, which was found and measured as told, lead to `target`.
pub fn redirect(
    relocated: &mut Relocated,
    moved: Option<Rva>,
    len: Option<usize>,
    call: SdkApiCall,
    target: Rva,
) -> (r: Result<(), EmitError>)
    ensures
        final(relocated).rva == old(relocated).rva,
        final(relocated).moved == old(relocated).moved,
        match redirected(old(relocated).rva, old(relocated).bytes@, moved, len, call, target) {
            Ok(bytes) => r == Ok::<(), EmitError>(()) && final(relocated).bytes@ == bytes,
            Err(error) => r == Err::<(), EmitError>(error) && final(relocated).bytes@ == old(
                relocated,
            ).bytes@,
        },
{
    match call.load_rva {
        Some(load) => redirect_load(relocated, moved, len, load, target),
        None => redirect_call(relocated, moved, len, call, target),
    }
}

/// `bytes` at `base` with `call` leading to `target`.
pub open spec fn call_redirected(
    base: Rva,
    bytes: Seq<u8>,
    moved: Seq<(Rva, Rva)>,
    call: SdkApiCall,
    target: Rva,
) -> Result<Seq<u8>, EmitError> {
    let to = relocated::destination(moved, site_of(call));
    redirected(base, bytes, to, relocated::length_of(base, bytes, to), call, target)
}

/// Lets a call in the copy lead to `target`.
pub fn patch_sdk_call(relocated: &mut Relocated, call: SdkApiCall, target: Rva) -> (r: Result<
    (),
    EmitError,
>)
    ensures
        final(relocated).rva == old(relocated).rva,
        final(relocated).moved == old(relocated).moved,
        match call_redirected(
            old(relocated).rva,
            old(relocated).bytes@,
            old(relocated).moved@,
            call,
            target,
        ) {
            Ok(bytes) => r == Ok::<(), EmitError>(()) && final(relocated).bytes@ == bytes,
            Err(error) => r == Err::<(), EmitError>(error) && final(relocated).bytes@ == old(
                relocated,
            ).bytes@,
        },
{
    let site = match call.load_rva {
        Some(load) => load,
        None => call.call_rva,
    };
    let moved = relocated.new_rva(site);
    let len = relocated.instruction_len(site);
    redirect(relocated, moved, len, call, target)
}

// ---------------------------------------------------------------------------
// The bodies of the interface functions
// ---------------------------------------------------------------------------

/// The body of an interface function. A decryption returns its argument, freeing
/// returns zero, and the image says that it is protected.
pub open spec fn stub_code(api: SdkApi) -> Seq<u8> {
    match api {
        SdkApi::DecryptStringA | SdkApi::DecryptStringW => seq![0x48u8, 0x89, 0xc8, 0xc3],
        SdkApi::FreeString => seq![0x31u8, 0xc0, 0xc3],
        SdkApi::IsProtected => seq![0xb8u8, 0x01, 0x00, 0x00, 0x00, 0xc3],
    }
}

/// The body of an interface function.
pub fn sdk_stub_bytes(api: SdkApi) -> (bytes: Vec<u8>)
    ensures
        bytes@ == stub_code(api),
{
    match api {
        SdkApi::DecryptStringA => vec![0x48, 0x89, 0xc8, 0xc3],
        SdkApi::DecryptStringW => vec![0x48, 0x89, 0xc8, 0xc3],
        SdkApi::FreeString => vec![0x31, 0xc0, 0xc3],
        SdkApi::IsProtected => vec![0xb8, 0x01, 0x00, 0x00, 0x00, 0xc3],
    }
}

/// The first stub for `api`.
pub open spec fn stub_for(stubs: Seq<SdkStub>, api: SdkApi) -> Option<Rva>
    decreases stubs.len(),
{
    if stubs.len() == 0 {
        None
    } else if stub_for(stubs.drop_last(), api) is Some {
        stub_for(stubs.drop_last(), api)
    } else if stubs.last().api == api {
        Some(stubs.last().rva)
    } else {
        None
    }
}

/// The first stub for `api`.
pub fn find_stub(stubs: &[SdkStub], api: SdkApi) -> (r: Option<Rva>)
    ensures
        r == stub_for(stubs@, api),
{
    let mut found: Option<Rva> = None;
    let mut index: usize = 0;
    while index < stubs.len()
        invariant
            index <= stubs@.len(),
            found == stub_for(stubs@.take(index as int), api),
        decreases stubs@.len() - index,
    {
        assert(stubs@.take(index + 1).drop_last() =~= stubs@.take(index as int));
        if found.is_none() && stubs[index].api == api {
            found = Some(stubs[index].rva);
        }
        index += 1;
    }
    assert(stubs@.take(index as int) =~= stubs@);
    found
}

/// The stubs of some calls, and their code.
#[verifier::ext_equal]
pub struct StubPlan {
    pub stubs: Seq<SdkStub>,
    pub code: Seq<u8>,
}

/// One stub for each function that is called, in the order of the first calls, one
/// behind the other from `first` on. Room is asked for the code of each stub.
pub open spec fn stub_plan(g: Grants, asked: nat, calls: Seq<SdkApiCall>, first: Rva) -> Answered<
    StubPlan,
>
    decreases calls.len(),
{
    if calls.len() == 0 {
        Answered { out: Ok(StubPlan { stubs: Seq::empty(), code: Seq::empty() }), asked }
    } else {
        let call = calls.last();
        let before = stub_plan(g, asked, calls.drop_last(), first);
        match before.out {
            Err(error) => before,
            Ok(plan) => if stub_for(plan.stubs, call.api) is Some {
                before
            } else if plan.code.len() > u32::MAX {
                Answered {
                    out: Err(
                        EmitError::Layout {
                            rva: call.call_rva,
                            reason: "SDK fallback stubs exceed the PE address width",
                        },
                    ),
                    asked: before.asked,
                }
            } else {
                match address::after(first, plan.code.len() as int) {
                    None => Answered {
                        out: Err(
                            EmitError::Layout {
                                rva: call.call_rva,
                                reason: "SDK fallback stub address exceeds the PE address width",
                            },
                        ),
                        asked: before.asked,
                    },
                    Some(rva) => memory::once(
                        g,
                        before.asked,
                        stub_code(call.api).len(),
                        Ok(
                            StubPlan {
                                stubs: plan.stubs.push(SdkStub { api: call.api, rva }),
                                code: plan.code + stub_code(call.api),
                            },
                        ),
                    ),
                }
            },
        }
    }
}

/// A failure among the first calls is the failure of all of them.
proof fn lemma_plan_prefix(
    g: Grants,
    asked: nat,
    calls: Seq<SdkApiCall>,
    first: Rva,
    count: int,
)
    requires
        0 <= count <= calls.len(),
        stub_plan(g, asked, calls.take(count), first).out is Err,
    ensures
        stub_plan(g, asked, calls, first) == stub_plan(g, asked, calls.take(count), first),
    decreases calls.len(),
{
    if count < calls.len() {
        let shorter = calls.drop_last();
        assert(shorter.take(count) =~= calls.take(count));
        lemma_plan_prefix(g, asked, shorter, first, count);
    } else {
        assert(calls.take(count) =~= calls);
    }
}

/// Plans the stubs of `calls`.
fn plan_stubs(
    calls: &[SdkApiCall],
    first_stub: Rva,
    stubs: &mut Vec<SdkStub>,
    code: &mut Vec<u8>,
    memory: &mut Memory,
) -> (r: Result<(), EmitError>)
    requires
        old(stubs)@.len() == 0,
        old(code)@.len() == 0,
    ensures
        forall|g: Grants| #[trigger]
            final(memory).agrees(g) ==> old(memory).agrees(g) && ({
                let planned = stub_plan(g, old(memory).asked(), calls@, first_stub);
                &&& final(memory).asked() == planned.asked
                &&& match planned.out {
                    Ok(plan) => r == Ok::<(), EmitError>(()) && final(stubs)@ == plan.stubs
                        && final(code)@ == plan.code,
                    Err(error) => r == Err::<(), EmitError>(error),
                }
            }),
{
    let mut index: usize = 0;
    let ghost asked = memory.asked();
    assert(calls@.take(0) =~= Seq::empty());
    assert(stubs@ =~= Seq::empty());
    assert(code@ =~= Seq::empty());
    while index < calls.len()
        invariant
            index <= calls@.len(),
            asked == old(memory).asked(),
            forall|g: Grants| #[trigger]
                memory.agrees(g) ==> old(memory).agrees(g) && stub_plan(
                    g,
                    asked,
                    calls@.take(index as int),
                    first_stub,
                ) == (Answered {
                    out: Ok::<StubPlan, EmitError>(StubPlan { stubs: stubs@, code: code@ }),
                    asked: memory.asked(),
                }),
        decreases calls@.len() - index,
    {
        let call = calls[index];
        proof {
            let more = calls@.take(index + 1);
            assert(more.drop_last() =~= calls@.take(index as int));
            assert(more.last() == call);
            assert forall|g: Grants|
                stub_plan(g, asked, more, first_stub).out is Err implies #[trigger] stub_plan(
                g,
                asked,
                calls@,
                first_stub,
            ) == stub_plan(g, asked, more, first_stub) by {
                lemma_plan_prefix(g, asked, calls@, first_stub, index + 1);
            }
        }
        if find_stub(stubs.as_slice(), call.api).is_none() {
            if code.len() > u32::MAX as usize {
                return Err(
                    EmitError::Layout {
                        rva: call.call_rva,
                        reason: "SDK fallback stubs exceed the PE address width",
                    },
                );
            }
            let offset = code.len() as u32;
            let rva = match first_stub.checked_add(offset) {
                Some(rva) => rva,
                None => return Err(
                    EmitError::Layout {
                        rva: call.call_rva,
                        reason: "SDK fallback stub address exceeds the PE address width",
                    },
                ),
            };
            let mut body = sdk_stub_bytes(call.api);
            if !memory.reserve(code, body.len()) {
                return Err(allocation_error());
            }
            code.append(&mut body);
            stubs.push(SdkStub { api: call.api, rva });
        }
        index += 1;
    }
    assert(calls@.take(index as int) =~= calls@);
    Ok(())
}

/// The bytes after each call was redirected in turn, up to the first that fails,
/// and that failure.
pub open spec fn all_redirected(
    base: Rva,
    bytes: Seq<u8>,
    moved: Seq<(Rva, Rva)>,
    calls: Seq<SdkApiCall>,
    stubs: Seq<SdkStub>,
) -> (Seq<u8>, Option<EmitError>)
    decreases calls.len(),
{
    if calls.len() == 0 {
        (bytes, None)
    } else {
        let before = all_redirected(base, bytes, moved, calls.drop_last(), stubs);
        let call = calls.last();
        if before.1 is Some {
            before
        } else {
            match stub_for(stubs, call.api) {
                None => (before.0, Some(EmitError::SdkMarker(SdkFailure::MissingStub))),
                Some(target) => match call_redirected(base, before.0, moved, call, target) {
                    Ok(after) => (after, None),
                    Err(error) => (before.0, Some(error)),
                },
            }
        }
    }
}

/// A failure among the first calls is the failure of all of them.
proof fn lemma_redirected_prefix(
    base: Rva,
    bytes: Seq<u8>,
    moved: Seq<(Rva, Rva)>,
    calls: Seq<SdkApiCall>,
    stubs: Seq<SdkStub>,
    count: int,
)
    requires
        0 <= count <= calls.len(),
        all_redirected(base, bytes, moved, calls.take(count), stubs).1 is Some,
    ensures
        all_redirected(base, bytes, moved, calls, stubs) == all_redirected(
            base,
            bytes,
            moved,
            calls.take(count),
            stubs,
        ),
    decreases calls.len(),
{
    if count < calls.len() {
        let shorter = calls.drop_last();
        assert(shorter.take(count) =~= calls.take(count));
        lemma_redirected_prefix(base, bytes, moved, shorter, stubs, count);
    } else {
        assert(calls.take(count) =~= calls);
    }
}

/// Redirects each call to the stub of its function.
fn redirect_calls(relocated: &mut Relocated, calls: &[SdkApiCall], stubs: &[SdkStub]) -> (r: Result<
    (),
    EmitError,
>)
    ensures
        final(relocated).rva == old(relocated).rva,
        final(relocated).moved == old(relocated).moved,
        ({
            let (bytes, failure) = all_redirected(
                old(relocated).rva,
                old(relocated).bytes@,
                old(relocated).moved@,
                calls@,
                stubs@,
            );
            &&& final(relocated).bytes@ == bytes
            &&& match failure {
                Some(error) => r == Err::<(), EmitError>(error),
                None => r == Ok::<(), EmitError>(()),
            }
        }),
{
    let ghost before = *relocated;
    let mut index: usize = 0;
    assert(calls@.take(0) =~= Seq::empty());
    while index < calls.len()
        invariant
            index <= calls@.len(),
            before == *old(relocated),
            relocated.rva == before.rva,
            relocated.moved == before.moved,
            all_redirected(
                before.rva,
                before.bytes@,
                before.moved@,
                calls@.take(index as int),
                stubs@,
            ) == (relocated.bytes@, None::<EmitError>),
        decreases calls@.len() - index,
    {
        let call = calls[index];
        proof {
            let more = calls@.take(index + 1);
            assert(more.drop_last() =~= calls@.take(index as int));
            assert(more.last() == call);
            if all_redirected(before.rva, before.bytes@, before.moved@, more, stubs@).1 is Some {
                lemma_redirected_prefix(
                    before.rva,
                    before.bytes@,
                    before.moved@,
                    calls@,
                    stubs@,
                    index + 1,
                );
            }
        }
        let target = match find_stub(stubs, call.api) {
            Some(target) => target,
            None => return Err(EmitError::SdkMarker(SdkFailure::MissingStub)),
        };
        match patch_sdk_call(relocated, call, target) {
            Ok(_) => {},
            Err(error) => return Err(error),
        }
        index += 1;
    }
    assert(calls@.take(index as int) =~= calls@);
    Ok(())
}

/// What the copy becomes once its calls lead to stubs that were put behind it. Room
/// is asked for a stub per call, for the code of each stub, and for all of it behind
/// the copy.
pub open spec fn with_stubs(
    g: Grants,
    asked: nat,
    base: Rva,
    bytes: Seq<u8>,
    moved: Seq<(Rva, Rva)>,
    calls: Seq<SdkApiCall>,
    first: Rva,
) -> Answered<(Seq<u8>, Seq<SdkStub>)> {
    let asked1 = memory::counted(asked, calls.len());
    let planned = stub_plan(g, asked1, calls, first);
    if !memory::allows(g, asked, calls.len()) {
        memory::refused(asked1)
    } else {
        match planned.out {
            Err(error) => Answered { out: Err(error), asked: planned.asked },
            Ok(plan) => {
                let (after, failure) = all_redirected(base, bytes, moved, calls, plan.stubs);
                match failure {
                    Some(error) => Answered { out: Err(error), asked: planned.asked },
                    None => memory::once(
                        g,
                        planned.asked,
                        plan.code.len(),
                        Ok((after + plan.code, plan.stubs)),
                    ),
                }
            },
        }
    }
}

/// Puts a stub behind the copy for each interface function that it calls, and lets
/// the calls lead there.
pub fn install_sdk_stubs(
    relocated: &mut Relocated,
    calls: &[SdkApiCall],
    first_stub: Rva,
    memory: &mut Memory,
) -> (r: Result<Vec<SdkStub>, EmitError>)
    ensures
        final(relocated).rva == old(relocated).rva,
        final(relocated).moved == old(relocated).moved,
        forall|g: Grants| #[trigger]
            final(memory).agrees(g) ==> old(memory).agrees(g) && ({
                let installed = with_stubs(
                    g,
                    old(memory).asked(),
                    old(relocated).rva,
                    old(relocated).bytes@,
                    old(relocated).moved@,
                    calls@,
                    first_stub,
                );
                &&& final(memory).asked() == installed.asked
                &&& match installed.out {
                    Ok((bytes, stubs)) => r matches Ok(list) && list@ == stubs
                        && final(relocated).bytes@ == bytes,
                    Err(error) => r == Err::<Vec<SdkStub>, EmitError>(error),
                }
            }),
{
    let mut stubs: Vec<SdkStub> = Vec::new();
    if !memory.reserve(&mut stubs, calls.len()) {
        return Err(allocation_error());
    }
    let mut code: Vec<u8> = Vec::new();
    match plan_stubs(calls, first_stub, &mut stubs, &mut code, memory) {
        Ok(_) => {},
        Err(error) => return Err(error),
    }
    match redirect_calls(relocated, calls, stubs.as_slice()) {
        Ok(_) => {},
        Err(error) => return Err(error),
    }
    if !memory.reserve(&mut relocated.bytes, code.len()) {
        return Err(allocation_error());
    }
    relocated.bytes.append(&mut code);
    Ok(stubs)
}

// ---------------------------------------------------------------------------
// Laws
// ---------------------------------------------------------------------------

/// Where an instruction of `len` bytes at `at` leads, whose last four bytes, at
/// `offset`, are its displacement.
pub open spec fn leads_to(bytes: Seq<u8>, offset: int, at: Rva, len: int) -> int {
    let bits = stub::from_little_endian(bytes.subrange(offset, offset + 4));
    at.0 + len + stub::signed(bits as u32)
}

/// Four bytes encode the displacement that was written.
proof fn lemma_leads_to(bytes: Seq<u8>, offset: int, at: Rva, len: u32, target: Rva, original: Rva)
    requires
        0 <= offset,
        offset + 4 <= bytes.len(),
        displacement_to(at, len, target, original) is Ok,
        bytes.subrange(offset, offset + 4) == encoded(
            displacement_to(at, len, target, original)->Ok_0,
        ),
    ensures
        leads_to(bytes, offset, at, len as int) == target.0,
{
    let displacement = displacement_to(at, len, target, original)->Ok_0;
    let bits = address::two_complement(displacement as int);
    assert(stub::from_little_endian(encoded(displacement)) == bits);
}

/// A bridge leads to where the code continues, and nothing else is touched.
pub proof fn lemma_bridge_reaches(
    base: Rva,
    bytes: Seq<u8>,
    moved: Rva,
    len: usize,
    marker: Rva,
    continuation: Rva,
)
    requires
        bridged(base, bytes, Some(moved), Some(len), marker, continuation) is Ok,
    ensures
        ({
            let after = bridged(base, bytes, Some(moved), Some(len), marker, continuation)->Ok_0;
            let offset = moved.0 - base.0;
            &&& after.len() == bytes.len()
            &&& after[offset] == 0xe9
            &&& leads_to(after, offset + 1, moved, 5) == continuation.0
            &&& forall|i: int|
                0 <= i < bytes.len() && !(offset <= i < offset + 5) ==> #[trigger] after[i]
                    == bytes[i]
        }),
{
    let after = bridged(base, bytes, Some(moved), Some(len), marker, continuation)->Ok_0;
    let offset = moved.0 - base.0;
    let displacement = displacement_to(moved, 5, continuation, marker)->Ok_0;
    assert(after.subrange(offset + 1, offset + 5) =~= encoded(displacement));
    lemma_leads_to(after, offset + 1, moved, 5, continuation, marker);
}

/// A redirected call leads to its target, directly or through the register that is
/// loaded, and nothing else is touched.
pub proof fn lemma_call_reaches(
    base: Rva,
    bytes: Seq<u8>,
    moved: Rva,
    len: usize,
    call: SdkApiCall,
    target: Rva,
)
    requires
        redirected(base, bytes, Some(moved), Some(len), call, target) is Ok,
    ensures
        ({
            let after = redirected(base, bytes, Some(moved), Some(len), call, target)->Ok_0;
            let offset = moved.0 - base.0;
            &&& after.len() == bytes.len()
            &&& match call.load_rva {
                Some(load) => leads_to(after, offset + 3, moved, 7) == target.0,
                None => leads_to(after, offset + 1, moved, 5) == target.0,
            }
            &&& forall|i: int|
                0 <= i < bytes.len() && !(offset <= i < offset + len) ==> #[trigger] after[i]
                    == bytes[i]
        }),
{
    let after = redirected(base, bytes, Some(moved), Some(len), call, target)->Ok_0;
    let offset = moved.0 - base.0;
    match call.load_rva {
        Some(load) => {
            let displacement = displacement_to(moved, 7, target, load)->Ok_0;
            assert(after.subrange(offset + 3, offset + 7) =~= encoded(displacement));
            lemma_leads_to(after, offset + 3, moved, 7, target, load);
        },
        None => {
            let displacement = displacement_to(moved, 5, target, call.call_rva)->Ok_0;
            assert(after.subrange(offset + 1, offset + 5) =~= encoded(displacement));
            lemma_leads_to(after, offset + 1, moved, 5, target, call.call_rva);
        },
    }
}

/// What was found among the stubs is one of them.
proof fn lemma_stub_for(stubs: Seq<SdkStub>, api: SdkApi)
    ensures
        stub_for(stubs, api) is Some ==> exists|i: int|
            0 <= i < stubs.len() && #[trigger] stubs[i] == (SdkStub {
                api,
                rva: stub_for(stubs, api)->0,
            }),
        stub_for(stubs, api) is None ==> forall|i: int|
            0 <= i < stubs.len() ==> (#[trigger] stubs[i]).api != api,
    decreases stubs.len(),
{
    if stubs.len() > 0 {
        let shorter = stubs.drop_last();
        lemma_stub_for(shorter, api);
        if stub_for(shorter, api) is Some {
            let i = choose|i: int|
                0 <= i < shorter.len() && #[trigger] shorter[i] == (SdkStub {
                    api,
                    rva: stub_for(shorter, api)->0,
                });
            assert(stubs[i] == shorter[i]);
        } else if stubs.last().api == api {
            assert(stubs[stubs.len() - 1].api == api);
        } else {
            assert forall|i: int| 0 <= i < stubs.len() implies (#[trigger] stubs[i]).api != api by {
                if i < shorter.len() {
                    assert(stubs[i] == shorter[i]);
                }
            }
        }
    }
}

/// The code of a stub stands in the plan where the stub points.
pub open spec fn stub_stands(plan: StubPlan, first: Rva, i: int) -> bool {
    let offset = plan.stubs[i].rva.0 - first.0;
    let body = stub_code(plan.stubs[i].api);
    &&& 0 <= offset
    &&& offset + body.len() <= plan.code.len()
    &&& plan.code.subrange(offset, offset + body.len() as int) == body
}

/// Every function that is called has exactly one stub, and its code stands where
/// the stub points.
pub proof fn lemma_stub_plan(g: Grants, asked: nat, calls: Seq<SdkApiCall>, first: Rva)
    requires
        stub_plan(g, asked, calls, first).out is Ok,
    ensures
        ({
            let plan = stub_plan(g, asked, calls, first).out->Ok_0;
            &&& forall|i: int|
                0 <= i < calls.len() ==> stub_for(plan.stubs, (#[trigger] calls[i]).api) is Some
            &&& forall|i: int, j: int|
                0 <= i < j < plan.stubs.len() ==> (#[trigger] plan.stubs[i]).api != (
                #[trigger] plan.stubs[j]).api
            &&& forall|i: int| 0 <= i < plan.stubs.len() ==> #[trigger] stub_stands(plan, first, i)
        }),
    decreases calls.len(),
{
    if calls.len() > 0 {
        let shorter = calls.drop_last();
        let call = calls.last();
        lemma_stub_plan(g, asked, shorter, first);
        let before = stub_plan(g, asked, shorter, first).out->Ok_0;
        let plan = stub_plan(g, asked, calls, first).out->Ok_0;
        lemma_stub_for(before.stubs, call.api);
        if stub_for(before.stubs, call.api) is None {
            let last = plan.stubs.len() - 1;
            assert(plan.stubs.drop_last() =~= before.stubs);
            assert forall|i: int| 0 <= i < calls.len() implies stub_for(
                plan.stubs,
                (#[trigger] calls[i]).api,
            ) is Some by {
                if i < shorter.len() {
                    assert(shorter[i] == calls[i]);
                }
            }
            assert forall|i: int, j: int| 0 <= i < j < plan.stubs.len() implies (
            #[trigger] plan.stubs[i]).api != (#[trigger] plan.stubs[j]).api by {
                assert(plan.stubs[i] == before.stubs[i]);
                if j < last {
                    assert(plan.stubs[j] == before.stubs[j]);
                }
            }
            assert forall|i: int| 0 <= i < plan.stubs.len() implies #[trigger] stub_stands(
                plan,
                first,
                i,
            ) by {
                let offset = plan.stubs[i].rva.0 - first.0;
                let body = stub_code(plan.stubs[i].api);
                if i < last {
                    assert(plan.stubs[i] == before.stubs[i]);
                    assert(stub_stands(before, first, i));
                    assert(plan.code.subrange(offset, offset + body.len() as int)
                        =~= before.code.subrange(offset, offset + body.len() as int));
                } else {
                    assert(plan.code.subrange(offset, offset + body.len() as int) =~= body);
                }
            }
        } else {
            assert forall|i: int| 0 <= i < calls.len() implies stub_for(
                plan.stubs,
                (#[trigger] calls[i]).api,
            ) is Some by {
                if i < shorter.len() {
                    assert(shorter[i] == calls[i]);
                }
            }
        }
    }
}

/// Redirecting calls keeps the length of the code.
pub proof fn lemma_redirected_length(
    base: Rva,
    bytes: Seq<u8>,
    moved: Seq<(Rva, Rva)>,
    calls: Seq<SdkApiCall>,
    stubs: Seq<SdkStub>,
)
    ensures
        all_redirected(base, bytes, moved, calls, stubs).0.len() == bytes.len(),
    decreases calls.len(),
{
    if calls.len() > 0 {
        lemma_redirected_length(base, bytes, moved, calls.drop_last(), stubs);
    }
}

} // verus!
