//! Markers that select the code to protect.

use vstd::prelude::*;

use crate::emit::address;
use crate::emit::address::{fill_range, Rva};
use crate::emit::error::{allocation_error, EmitError, MarkerCompilationType, SdkFailure};
use crate::emit::memory;
use crate::emit::memory::{Answered, Grants, Memory};

verus! {

/// A call of a marker function, as it was found in the code.
#[derive(Debug, Clone, Copy, PartialEq, Eq)]
pub enum ApiMarker {
    Begin {
        load_rva: Option<Rva>,
        call_rva: Rva,
        next_rva: Rva,
        /// The name that is passed, and its length with its terminator where it is
        /// a bounded string.
        name: Option<(Rva, Option<u32>)>,
        name_reference_rva: Option<Rva>,
        compilation_type: MarkerCompilationType,
        lock_to_key: bool,
    },
    End { load_rva: Option<Rva>, call_rva: Rva, next_rva: Rva },
}

/// A marker that is spelled out in the code.
#[derive(Debug, Clone, Copy, PartialEq, Eq)]
pub enum SdkMarker {
    Begin { rva: Rva, next_rva: Rva, compilation_type: MarkerCompilationType },
    End { rva: Rva, next_rva: Rva },
}

/// Where a marker stands. A marker function may be loaded into a register first.
#[derive(Debug, Clone, Copy, PartialEq, Eq, Structural)]
pub struct MarkerSite {
    pub call: Rva,
    pub next: Rva,
    pub load: Option<Rva>,
    pub static_marker: bool,
}

/// A marker that opens a region.
#[derive(Debug, Clone, Copy, PartialEq, Eq, Structural)]
pub struct BeginMarker {
    pub site: MarkerSite,
    pub compilation_type: MarkerCompilationType,
    pub lock_to_key: bool,
}

/// The bytes of a closing marker that are written over.
#[derive(Debug, Clone, Copy, PartialEq, Eq, Structural)]
pub enum EndPatch {
    StaticPayload { rva: Rva, length: u32 },
    ApiSpan { rva: Rva, length: u32 },
}

/// What the markers of an image ask for.
#[derive(Debug, PartialEq, Eq)]
pub struct MarkerPlan {
    pub begins: Vec<BeginMarker>,
    pub ends: Vec<MarkerSite>,
    pub names: Vec<(Rva, u32)>,
    pub name_references: Vec<Rva>,
    pub end_patches: Vec<EndPatch>,
}

/// The mathematical view of a `MarkerPlan`.
#[verifier::ext_equal]
pub struct PlanView {
    pub begins: Seq<BeginMarker>,
    pub ends: Seq<MarkerSite>,
    pub names: Seq<(Rva, u32)>,
    pub name_references: Seq<Rva>,
    pub end_patches: Seq<EndPatch>,
}

impl View for MarkerPlan {
    type V = PlanView;

    open spec fn view(&self) -> PlanView {
        PlanView {
            begins: self.begins@,
            ends: self.ends@,
            names: self.names@,
            name_references: self.name_references@,
            end_patches: self.end_patches@,
        }
    }
}

impl MarkerSite {
    /// The first address of the marker.
    pub open spec fn first(self) -> Rva {
        match self.load {
            Some(load) => load,
            None => self.call,
        }
    }

    /// The first address of the marker.
    pub fn start(self) -> (rva: Rva)
        ensures
            rva == self.first(),
    {
        match self.load {
            Some(load) => load,
            None => self.call,
        }
    }
}

/// The length of a name with its terminator, if it was found and fits.
pub fn sdk_name_length(payload: Option<&[u8]>) -> (r: Option<u32>)
    ensures
        r == (match payload {
            Some(name) => if name@.len() + 1 <= u32::MAX {
                Some((name@.len() + 1) as u32)
            } else {
                None
            },
            None => None,
        }),
{
    match payload {
        Some(name) => {
            let len = name.len();
            if len < u32::MAX as usize {
                Some(len as u32 + 1)
            } else {
                None
            }
        },
        None => None,
    }
}

/// The patch of a closing marker. The call of a marker function is written over; a
/// load before it is kept. Of a marker that is spelled out, the payload goes and
/// its first two bytes stay.
pub open spec fn patch_of(end: MarkerSite) -> Result<EndPatch, EmitError> {
    if end.static_marker {
        match address::after(end.call, 2) {
            None => Err(
                EmitError::Layout {
                    rva: end.call,
                    reason: "static SDK End payload exceeds the PE address width",
                },
            ),
            Some(rva) => if end.next.0 < rva.0 {
                Err(EmitError::Layout { rva, reason: "SDK End patch range is inverted" })
            } else {
                Ok(EndPatch::StaticPayload { rva, length: (end.next.0 - rva.0) as u32 })
            },
        }
    } else if end.next.0 < end.call.0 {
        Err(EmitError::Layout { rva: end.call, reason: "SDK End patch range is inverted" })
    } else {
        Ok(EndPatch::ApiSpan { rva: end.call, length: (end.next.0 - end.call.0) as u32 })
    }
}

/// The patch of a closing marker.
pub fn end_patch(end: MarkerSite) -> (r: Result<EndPatch, EmitError>)
    ensures
        r == patch_of(end),
{
    let rva = if end.static_marker {
        match end.call.checked_add(2) {
            Some(rva) => rva,
            None => return Err(
                EmitError::Layout {
                    rva: end.call,
                    reason: "static SDK End payload exceeds the PE address width",
                },
            ),
        }
    } else {
        end.call
    };
    let length = match end.next.0.checked_sub(rva.0) {
        Some(length) => length,
        None => return Err(EmitError::Layout { rva, reason: "SDK End patch range is inverted" }),
    };
    if end.static_marker {
        Ok(EndPatch::StaticPayload { rva, length })
    } else {
        Ok(EndPatch::ApiSpan { rva, length })
    }
}

/// The file range of `length` bytes at `offset`, in `len` bytes.
pub open spec fn file_range(
    rva: Rva,
    offset: u32,
    length: u32,
    len: nat,
    overflow: &'static str,
    outside: &'static str,
) -> Option<EmitError> {
    if offset + length > usize::MAX {
        Some(EmitError::Layout { rva, reason: overflow })
    } else if offset + length > len {
        Some(EmitError::Layout { rva, reason: outside })
    } else {
        None
    }
}

/// The byte that a patch writes.
pub open spec fn patch_fill(patch: EndPatch) -> u8 {
    match patch {
        EndPatch::StaticPayload { rva, length } => 0,
        EndPatch::ApiSpan { rva, length } => 0x90,
    }
}

/// The extent of a patch.
pub open spec fn patch_extent(patch: EndPatch) -> (Rva, u32) {
    match patch {
        EndPatch::StaticPayload { rva, length } => (rva, length),
        EndPatch::ApiSpan { rva, length } => (rva, length),
    }
}

/// Writes a patch over the bytes at file offset `offset`.
pub fn apply_end_patch(patch: EndPatch, offset: u32, data: &mut Vec<u8>) -> (r: Result<
    (),
    EmitError,
>)
    ensures
        match file_range(
            patch_extent(patch).0,
            offset,
            patch_extent(patch).1,
            old(data)@.len(),
            "SDK End patch range overflows the host address width",
            "SDK End patch is not file-backed",
        ) {
            Some(error) => r == Err::<(), EmitError>(error) && final(data)@ == old(data)@,
            None => r == Ok::<(), EmitError>(()) && final(data)@ == address::filled(
                old(data)@,
                offset as int,
                patch_extent(patch).1 as int,
                patch_fill(patch),
            ),
        },
{
    let (rva, length, fill): (Rva, u32, u8) = match patch {
        EndPatch::StaticPayload { rva, length } => (rva, length, 0),
        EndPatch::ApiSpan { rva, length } => (rva, length, 0x90),
    };
    let end = match (offset as usize).checked_add(length as usize) {
        Some(end) => end,
        None => return Err(
            EmitError::Layout {
                rva,
                reason: "SDK End patch range overflows the host address width",
            },
        ),
    };
    if end > data.len() {
        return Err(EmitError::Layout { rva, reason: "SDK End patch is not file-backed" });
    }
    fill_range(data, offset as usize, end, fill);
    Ok(())
}

/// Writes zeros over the name at file offset `offset`.
pub fn erase_sdk_name(rva: Rva, length: u32, offset: u32, data: &mut Vec<u8>) -> (r: Result<
    (),
    EmitError,
>)
    ensures
        match file_range(
            rva,
            offset,
            length,
            old(data)@.len(),
            "SDK marker name range overflows the host address width",
            "SDK marker name is not file-backed",
        ) {
            Some(error) => r == Err::<(), EmitError>(error) && final(data)@ == old(data)@,
            None => r == Ok::<(), EmitError>(()) && final(data)@ == address::filled(
                old(data)@,
                offset as int,
                length as int,
                0,
            ),
        },
{
    let end = match (offset as usize).checked_add(length as usize) {
        Some(end) => end,
        None => return Err(
            EmitError::Layout {
                rva,
                reason: "SDK marker name range overflows the host address width",
            },
        ),
    };
    if end > data.len() {
        return Err(EmitError::Layout { rva, reason: "SDK marker name is not file-backed" });
    }
    fill_range(data, offset as usize, end, 0);
    Ok(())
}

// ---------------------------------------------------------------------------
// Collecting markers
// ---------------------------------------------------------------------------

/// The opening markers among the calls.
pub open spec fn api_begins(markers: Seq<ApiMarker>) -> Seq<BeginMarker>
    decreases markers.len(),
{
    if markers.len() == 0 {
        Seq::empty()
    } else {
        let before = api_begins(markers.drop_last());
        match markers.last() {
            ApiMarker::Begin {
                load_rva,
                call_rva,
                next_rva,
                name,
                name_reference_rva,
                compilation_type,
                lock_to_key,
            } => before.push(
                BeginMarker {
                    site: MarkerSite {
                        call: call_rva,
                        next: next_rva,
                        load: load_rva,
                        static_marker: false,
                    },
                    compilation_type,
                    lock_to_key,
                },
            ),
            ApiMarker::End { load_rva, call_rva, next_rva } => before,
        }
    }
}

/// The closing markers among the calls.
pub open spec fn api_ends(markers: Seq<ApiMarker>) -> Seq<MarkerSite>
    decreases markers.len(),
{
    if markers.len() == 0 {
        Seq::empty()
    } else {
        let before = api_ends(markers.drop_last());
        match markers.last() {
            ApiMarker::End { load_rva, call_rva, next_rva } => before.push(
                MarkerSite {
                    call: call_rva,
                    next: next_rva,
                    load: load_rva,
                    static_marker: false,
                },
            ),
            _ => before,
        }
    }
}

/// The names that opening markers pass, with their lengths.
pub open spec fn api_names(markers: Seq<ApiMarker>) -> Seq<(Rva, u32)>
    decreases markers.len(),
{
    if markers.len() == 0 {
        Seq::empty()
    } else {
        let before = api_names(markers.drop_last());
        match markers.last() {
            ApiMarker::Begin {
                load_rva,
                call_rva,
                next_rva,
                name: Some((rva, Some(length))),
                name_reference_rva,
                compilation_type,
                lock_to_key,
            } => before.push((rva, length)),
            _ => before,
        }
    }
}

/// The instructions that produce the names.
pub open spec fn api_references(markers: Seq<ApiMarker>) -> Seq<Rva>
    decreases markers.len(),
{
    if markers.len() == 0 {
        Seq::empty()
    } else {
        let before = api_references(markers.drop_last());
        match markers.last() {
            ApiMarker::Begin {
                load_rva,
                call_rva,
                next_rva,
                name,
                name_reference_rva: Some(reference),
                compilation_type,
                lock_to_key,
            } => before.push(reference),
            _ => before,
        }
    }
}

/// The first name that is not a bounded string.
pub open spec fn unbounded_name(markers: Seq<ApiMarker>) -> Option<Rva>
    decreases markers.len(),
{
    if markers.len() == 0 {
        None
    } else {
        match unbounded_name(markers.drop_last()) {
            Some(rva) => Some(rva),
            None => match markers.last() {
                ApiMarker::Begin {
                    load_rva,
                    call_rva,
                    next_rva,
                    name: Some((rva, None)),
                    name_reference_rva,
                    compilation_type,
                    lock_to_key,
                } => Some(rva),
                _ => None,
            },
        }
    }
}

/// The opening markers that are spelled out.
pub open spec fn spelled_begins(markers: Seq<SdkMarker>) -> Seq<BeginMarker>
    decreases markers.len(),
{
    if markers.len() == 0 {
        Seq::empty()
    } else {
        let before = spelled_begins(markers.drop_last());
        match markers.last() {
            SdkMarker::Begin { rva, next_rva, compilation_type } => before.push(
                BeginMarker {
                    site: MarkerSite { call: rva, next: next_rva, load: None, static_marker: true },
                    compilation_type,
                    lock_to_key: false,
                },
            ),
            _ => before,
        }
    }
}

/// The closing markers that are spelled out.
pub open spec fn spelled_ends(markers: Seq<SdkMarker>) -> Seq<MarkerSite>
    decreases markers.len(),
{
    if markers.len() == 0 {
        Seq::empty()
    } else {
        let before = spelled_ends(markers.drop_last());
        match markers.last() {
            SdkMarker::End { rva, next_rva } => before.push(
                MarkerSite { call: rva, next: next_rva, load: None, static_marker: true },
            ),
            _ => before,
        }
    }
}

/// The patches of the closing markers, or the first failure.
pub open spec fn patches_of(ends: Seq<MarkerSite>) -> Result<Seq<EndPatch>, EmitError>
    decreases ends.len(),
{
    if ends.len() == 0 {
        Ok(Seq::empty())
    } else {
        match patches_of(ends.drop_last()) {
            Err(error) => Err(error),
            Ok(before) => match patch_of(ends.last()) {
                Err(error) => Err(error),
                Ok(patch) => Ok(before.push(patch)),
            },
        }
    }
}

/// What the markers of an image ask for, and the number of requests for room made to
/// find out. Room for every marker is asked for in each of four lists, and room for
/// the closing markers in one more.
pub open spec fn plan_of(
    g: Grants,
    asked: nat,
    markers: Seq<ApiMarker>,
    spelled: Seq<SdkMarker>,
) -> Answered<PlanView> {
    let count = markers.len() + spelled.len();
    let begins = api_begins(markers) + spelled_begins(spelled);
    let ends = api_ends(markers) + spelled_ends(spelled);
    let (granted, asked1) = memory::repeated(g, asked, count, 4);
    if count > usize::MAX {
        memory::refused(asked)
    } else if !granted {
        memory::refused(asked1)
    } else {
        match unbounded_name(markers) {
            Some(name) => Answered {
                out: Err(EmitError::SdkMarker(SdkFailure::UnboundedName { name })),
                asked: asked1,
            },
            None => if begins.len() == 0 {
                Answered { out: Err(EmitError::NoSdkMarkers), asked: asked1 }
            } else {
                memory::once(
                    g,
                    asked1,
                    ends.len(),
                    match patches_of(ends) {
                        Err(error) => Err(error),
                        Ok(end_patches) => Ok(
                            PlanView {
                                begins,
                                ends,
                                names: api_names(markers),
                                name_references: api_references(markers),
                                end_patches,
                            },
                        ),
                    },
                )
            },
        }
    }
}

/// A result with its plan taken by its view.
pub open spec fn plan_result(r: Result<MarkerPlan, EmitError>) -> Result<PlanView, EmitError> {
    match r {
        Ok(plan) => Ok(plan@),
        Err(error) => Err(error),
    }
}

/// Sorts the markers of an image by what they ask for.
pub fn collect_sdk_markers(
    markers: &[ApiMarker],
    spelled_markers: &[SdkMarker],
    memory: &mut Memory,
) -> (r: Result<MarkerPlan, EmitError>)
    ensures
        forall|g: Grants| #[trigger]
            final(memory).agrees(g) ==> old(memory).agrees(g) && (Answered {
                out: plan_result(r),
                asked: final(memory).asked(),
            }) == plan_of(g, old(memory).asked(), markers@, spelled_markers@),
{
    proof {
        reveal_with_fuel(memory::repeated, 5);
    }
    let count = match markers.len().checked_add(spelled_markers.len()) {
        Some(count) => count,
        None => return Err(allocation_error()),
    };
    let mut ends: Vec<MarkerSite> = Vec::new();
    let mut begins: Vec<BeginMarker> = Vec::new();
    let mut names: Vec<(Rva, u32)> = Vec::new();
    let mut name_references: Vec<Rva> = Vec::new();
    if !memory.reserve(&mut ends, count) || !memory.reserve(&mut begins, count)
        || !memory.reserve(&mut names, count) || !memory.reserve(&mut name_references, count) {
        return Err(allocation_error());
    }
    let ghost reserved = *memory;
    let mut index: usize = 0;
    assert(markers@.take(0) =~= Seq::empty());
    while index < markers.len()
        invariant
            index <= markers@.len(),
            markers@.len() + spelled_markers@.len() <= usize::MAX,
            *memory == reserved,
            forall|g: Grants| #[trigger]
                reserved.agrees(g) ==> old(memory).agrees(g) && memory::repeated(
                    g,
                    old(memory).asked(),
                    markers@.len() + spelled_markers@.len(),
                    4,
                ) == (true, reserved.asked()),
            begins@ == api_begins(markers@.take(index as int)),
            ends@ == api_ends(markers@.take(index as int)),
            names@ == api_names(markers@.take(index as int)),
            name_references@ == api_references(markers@.take(index as int)),
            unbounded_name(markers@.take(index as int)) is None,
        decreases markers@.len() - index,
    {
        proof {
            assert(markers@.take(index + 1).drop_last() =~= markers@.take(index as int));
            assert(markers@.take(index + 1).last() == markers@[index as int]);
        }
        match markers[index] {
            ApiMarker::Begin {
                load_rva,
                call_rva,
                next_rva,
                name,
                name_reference_rva,
                compilation_type,
                lock_to_key,
            } => {
                if let Some((name_rva, length)) = name {
                    match length {
                        Some(length) => names.push((name_rva, length)),
                        None => {
                            proof {
                                lemma_unbounded_prefix(markers@, index + 1);
                            }
                            return Err(
                                EmitError::SdkMarker(
                                    SdkFailure::UnboundedName { name: name_rva },
                                ),
                            );
                        },
                    }
                }
                if let Some(reference) = name_reference_rva {
                    name_references.push(reference);
                }
                begins.push(
                    BeginMarker {
                        site: MarkerSite {
                            call: call_rva,
                            next: next_rva,
                            load: load_rva,
                            static_marker: false,
                        },
                        compilation_type,
                        lock_to_key,
                    },
                );
            },
            ApiMarker::End { load_rva, call_rva, next_rva } => {
                ends.push(
                    MarkerSite {
                        call: call_rva,
                        next: next_rva,
                        load: load_rva,
                        static_marker: false,
                    },
                );
            },
        }
        index += 1;
    }
    assert(markers@.take(index as int) =~= markers@);
    let mut index: usize = 0;
    assert(spelled_markers@.take(0) =~= Seq::empty());
    assert(begins@ =~= api_begins(markers@) + spelled_begins(spelled_markers@.take(0)));
    assert(ends@ =~= api_ends(markers@) + spelled_ends(spelled_markers@.take(0)));
    while index < spelled_markers.len()
        invariant
            index <= spelled_markers@.len(),
            begins@ == api_begins(markers@) + spelled_begins(spelled_markers@.take(index as int)),
            ends@ == api_ends(markers@) + spelled_ends(spelled_markers@.take(index as int)),
        decreases spelled_markers@.len() - index,
    {
        proof {
            assert(spelled_markers@.take(index + 1).drop_last() =~= spelled_markers@.take(index as int));
            assert(spelled_markers@.take(index + 1).last() == spelled_markers@[index as int]);
        }
        match spelled_markers[index] {
            SdkMarker::Begin { rva, next_rva, compilation_type } => {
                begins.push(
                    BeginMarker {
                        site: MarkerSite {
                            call: rva,
                            next: next_rva,
                            load: None,
                            static_marker: true,
                        },
                        compilation_type,
                        lock_to_key: false,
                    },
                );
            },
            SdkMarker::End { rva, next_rva } => {
                ends.push(
                    MarkerSite { call: rva, next: next_rva, load: None, static_marker: true },
                );
            },
        }
        index += 1;
        assert(begins@ =~= api_begins(markers@) + spelled_begins(spelled_markers@.take(index as int)));
        assert(ends@ =~= api_ends(markers@) + spelled_ends(spelled_markers@.take(index as int)));
    }
    assert(spelled_markers@.take(index as int) =~= spelled_markers@);
    if begins.len() == 0 {
        return Err(EmitError::NoSdkMarkers);
    }
    let mut end_patches: Vec<EndPatch> = Vec::new();
    if !memory.reserve(&mut end_patches, ends.len()) {
        return Err(allocation_error());
    }
    let ghost reserved = *memory;
    let mut index: usize = 0;
    assert(ends@.take(0) =~= Seq::empty());
    while index < ends.len()
        invariant
            index <= ends@.len(),
            ends@ == api_ends(markers@) + spelled_ends(spelled_markers@),
            begins@ == api_begins(markers@) + spelled_begins(spelled_markers@),
            begins@.len() > 0,
            markers@.len() + spelled_markers@.len() <= usize::MAX,
            unbounded_name(markers@) is None,
            *memory == reserved,
            forall|g: Grants| #[trigger]
                reserved.agrees(g) ==> old(memory).agrees(g) && plan_of(
                    g,
                    old(memory).asked(),
                    markers@,
                    spelled_markers@,
                ) == (Answered {
                    out: match patches_of(ends@) {
                        Err(error) => Err::<PlanView, EmitError>(error),
                        Ok(end_patches) => Ok(
                            PlanView {
                                begins: begins@,
                                ends: ends@,
                                names: names@,
                                name_references: name_references@,
                                end_patches,
                            },
                        ),
                    },
                    asked: reserved.asked(),
                }),
            patches_of(ends@.take(index as int)) == Ok::<Seq<EndPatch>, EmitError>(end_patches@),
        decreases ends@.len() - index,
    {
        proof {
            assert(ends@.take(index + 1).drop_last() =~= ends@.take(index as int));
            assert(ends@.take(index + 1).last() == ends@[index as int]);
        }
        match end_patch(ends[index]) {
            Ok(patch) => end_patches.push(patch),
            Err(error) => {
                proof {
                    lemma_patch_prefix(ends@, index + 1);
                }
                return Err(error);
            },
        }
        index += 1;
    }
    assert(ends@.take(index as int) =~= ends@);
    Ok(MarkerPlan { begins, ends, names, name_references, end_patches })
}

/// An unbounded name among the first markers is the first of all of them.
proof fn lemma_unbounded_prefix(markers: Seq<ApiMarker>, count: int)
    requires
        0 <= count <= markers.len(),
        unbounded_name(markers.take(count)) is Some,
    ensures
        unbounded_name(markers) == unbounded_name(markers.take(count)),
    decreases markers.len() - count,
{
    if count == markers.len() {
        assert(markers.take(count) =~= markers);
    } else {
        assert(markers.take(count + 1).drop_last() =~= markers.take(count));
        lemma_unbounded_prefix(markers, count + 1);
    }
}

/// A failure among the first closing markers is the failure of all of them.
proof fn lemma_patch_prefix(ends: Seq<MarkerSite>, count: int)
    requires
        0 <= count <= ends.len(),
        patches_of(ends.take(count)) is Err,
    ensures
        patches_of(ends) == patches_of(ends.take(count)),
    decreases ends.len() - count,
{
    if count == ends.len() {
        assert(ends.take(count) =~= ends);
    } else {
        assert(ends.take(count + 1).drop_last() =~= ends.take(count));
        lemma_patch_prefix(ends, count + 1);
    }
}

} // verus!
