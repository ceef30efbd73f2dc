//! Moving marked regions, one region per covering function.

use vstd::prelude::*;

use crate::emit::address;
use crate::emit::address::Rva;
use crate::emit::calls;
use crate::emit::calls::{install_sdk_stubs, patch_exit_bridges, SdkApiCall, SdkStub};
use crate::emit::code::{Epilogue, Function, MachineInstruction, InstructionView, RuntimeFunction};
use crate::emit::error;
use crate::emit::error::{allocation_error, EmitError, SdkFailure};
use crate::emit::layout;
use crate::emit::layout::{
    epilogue_instructions, epilogues_kept_their_shape, has_absolute_fixups,
    prologue_has_valid_boundary,
};
use crate::emit::markers::MarkerSite;
use crate::emit::memory;
use crate::emit::memory::{Answered, Grants, Memory};
use crate::emit::protect::{Protected, Ready};
use crate::emit::region;
use crate::emit::region::{contains, validate_region_entries, validate_register_marker_span};
use crate::emit::relocated;
use crate::emit::relocated::Relocated;
use crate::emit::slice;
use crate::emit::slice::build_region_slice;
use crate::emit::stub::STUB_LEN;
use crate::emit::unwind;
use crate::emit::unwind::{
    chainable_unwind, chained_slice_unwind, follow_chain, ChainWalk, NewFunction, UnwindInfo,
};

verus! {

/// A region to move: the function that covers it, where the code goes, and the
/// marker that opens it.
#[derive(Debug, Clone, Copy, PartialEq, Eq, Structural)]
pub struct SdkSite {
    pub entry: Rva,
    pub placement: Rva,
    pub begin: MarkerSite,
}

/// The function that covers a region, and how it is unwound.
#[derive(Debug, PartialEq, Eq)]
pub struct Covering {
    pub function: Function,
    pub range: RuntimeFunction,
    pub unwind: UnwindInfo,
}

/// The instructions that a walk from the opening marker meets, and the closing
/// markers that it reaches.
#[derive(Debug, PartialEq, Eq)]
pub struct MarkerRegion {
    pub instructions: Vec<Rva>,
    pub reached_ends: Vec<Rva>,
}

/// What is known of a region: the interface calls in it, its instructions, those that
/// may be rewritten and those that something may be inserted behind, and the closing
/// markers that it reaches.
#[derive(Debug, PartialEq, Eq)]
pub struct RegionPlan {
    pub calls: Vec<SdkApiCall>,
    pub selected: Vec<Rva>,
    pub insertion_points: Vec<Rva>,
    pub mutation_targets: Vec<Rva>,
    pub sites: Vec<MarkerSite>,
}

/// A region that is ready to be placed.
#[derive(Debug, PartialEq, Eq)]
pub struct SdkReady<R> {
    pub ready: Ready<R>,
    pub reached_ends: Vec<Rva>,
    pub sdk_stubs: Vec<SdkStub>,
}

/// How far one region has come. Each state but the last two names what has to be
/// done next.
#[derive(Debug, PartialEq, Eq)]
pub enum SdkPreparing<R> {
    /// Decode the covering function.
    Decode,
    /// Read the unwind information of `range`.
    ReadUnwind { function: Function, range: RuntimeFunction },
    /// Read the unwind information that `walk` asks for.
    FollowChain { function: Function, range: RuntimeFunction, walk: ChainWalk },
    /// Find the interface calls.
    FindCalls { covering: Covering },
    /// Walk from the opening marker up to the closing markers.
    RecoverRegion { covering: Covering, calls: Vec<SdkApiCall>, end_starts: Vec<Rva> },
    /// Find the epilogues.
    FindEpilogues { covering: Covering, plan: RegionPlan },
    /// Take the marker calls out of the function: the opening one, and those at
    /// `end_sites` with the loads that go with them.
    Neutralize { covering: Covering, plan: RegionPlan, end_sites: Vec<(Rva, Option<Rva>)> },
    /// Find the epilogues of the function without its markers.
    FindFrozen { covering: Covering, plan: RegionPlan },
    /// Rewrite the selected instructions outside the frozen ranges.
    Mutate {
        covering: Covering,
        plan: RegionPlan,
        epilogues: Vec<Epilogue>,
        frozen: Vec<(Rva, Rva)>,
    },
    /// Encode the slice for its new address.
    Relocate {
        covering: Covering,
        plan: RegionPlan,
        epilogues: Vec<Epilogue>,
        slice: Function,
        report: R,
    },
    Ready(SdkReady<R>),
    Failed(EmitError),
}

/// The result of what a state asked for.
#[derive(Debug, PartialEq, Eq)]
pub enum SdkEvent<R> {
    Decoded(Result<Function, String>),
    Unwind(Result<UnwindInfo, String>),
    Calls(Result<Vec<SdkApiCall>, String>),
    Region(Result<MarkerRegion, String>),
    Epilogues(Vec<Epilogue>),
    Neutralized(Result<Function, String>),
    /// The rewritten function, the report, and whether nothing changed.
    Mutated(Result<(Function, R, bool), String>),
    Relocated(Result<Relocated, String>),
}

/// What an outside step reported.
pub open spec fn reported(message: String) -> EmitError {
    EmitError::SdkMarker(SdkFailure::Tool(message))
}

// ---------------------------------------------------------------------------
// The covering function
// ---------------------------------------------------------------------------

/// The range of a covering function that can be used.
pub open spec fn covering_range(function: Function, site: SdkSite) -> Result<
    RuntimeFunction,
    EmitError,
> {
    if function.issues@.len() != 0 {
        Err(EmitError::SdkMarker(SdkFailure::IncompleteFunction { entry: site.entry }))
    } else {
        match function.unwind {
            None => Err(EmitError::SdkMarkerOutsideRuntimeFunction { rva: site.begin.call }),
            Some(range) => if range.begin != site.entry {
                Err(
                    EmitError::SdkMarker(
                        SdkFailure::CoveringStart { begin: range.begin, entry: site.entry },
                    ),
                )
            } else {
                Ok(range)
            },
        }
    }
}

/// Finds out whether a decoded function can be used.
pub fn check_covering(function: &Function, site: SdkSite) -> (r: Result<
    RuntimeFunction,
    EmitError,
>)
    ensures
        r == covering_range(*function, site),
{
    if !function.is_complete() {
        return Err(EmitError::SdkMarker(SdkFailure::IncompleteFunction { entry: site.entry }));
    }
    match function.unwind {
        None => Err(EmitError::SdkMarkerOutsideRuntimeFunction { rva: site.begin.call }),
        Some(range) => if range.begin != site.entry {
            Err(
                EmitError::SdkMarker(
                    SdkFailure::CoveringStart { begin: range.begin, entry: site.entry },
                ),
            )
        } else {
            Ok(range)
        },
    }
}

/// The load and the call of a marker stand side by side.
pub open spec fn has_span(function: Function, load: Rva, call: Rva) -> bool {
    exists|b: int|
        0 <= b < function.blocks@.len() && region::span_in(
            #[trigger] function.blocks@[b],
            load,
            call,
        )
}

/// Why the load of a marker cannot be told from its call.
pub open spec fn span_problem(function: Function, marker: MarkerSite) -> Option<EmitError> {
    match marker.load {
        Some(load) => if has_span(function, load, marker.call) {
            None
        } else {
            Some(
                EmitError::SdkMarker(
                    SdkFailure::SplitRegisterMarker { load, call: marker.call },
                ),
            )
        },
        None => None,
    }
}

/// The bytes of a marker that a jump can take.
pub open spec fn room(begin: MarkerSite) -> u32 {
    if begin.next.0 >= begin.first().0 {
        (begin.next.0 - begin.first().0) as u32
    } else {
        0
    }
}

/// Why the opening marker cannot become a jump.
pub open spec fn begin_problem(function: Function, size_of_prolog: u8, site: SdkSite) -> Option<
    EmitError,
> {
    let begin = site.begin;
    match address::after(site.entry, size_of_prolog as int) {
        None => Some(
            EmitError::Layout {
                rva: site.entry,
                reason: "covering prologue end exceeds the PE address width",
            },
        ),
        Some(prologue_end) => if begin.first().0 < prologue_end.0 {
            Some(EmitError::SdkMarker(SdkFailure::BeginInPrologue))
        } else if !layout::prologue_boundary(function.code(), site.entry, size_of_prolog) {
            Some(EmitError::SdkMarker(SdkFailure::PrologueInsideInstruction))
        } else if span_problem(function, begin) is Some {
            span_problem(function, begin)
        } else if room(begin) < STUB_LEN {
            Some(
                EmitError::SdkMarker(
                    SdkFailure::NoRoomForJump { call: begin.call, available: room(begin) },
                ),
            )
        } else {
            None
        },
    }
}

/// Finds out whether a marker is one straight-line span.
pub fn check_span(function: &Function, marker: MarkerSite) -> (r: Result<(), EmitError>)
    ensures
        match span_problem(*function, marker) {
            Some(error) => r == Err::<(), EmitError>(error),
            None => r == Ok::<(), EmitError>(()),
        },
{
    match marker.load {
        Some(load) => validate_register_marker_span(function, load, marker.call),
        None => Ok(()),
    }
}

/// Finds out whether the opening marker can become a jump.
pub fn check_begin(function: &Function, size_of_prolog: u8, site: SdkSite) -> (r: Result<
    (),
    EmitError,
>)
    ensures
        match begin_problem(*function, size_of_prolog, site) {
            Some(error) => r == Err::<(), EmitError>(error),
            None => r == Ok::<(), EmitError>(()),
        },
{
    let begin = site.begin;
    let patch_from = begin.start();
    let prologue_end = match site.entry.checked_add(size_of_prolog as u32) {
        Some(end) => end,
        None => return Err(
            EmitError::Layout {
                rva: site.entry,
                reason: "covering prologue end exceeds the PE address width",
            },
        ),
    };
    if patch_from.0 < prologue_end.0 {
        return Err(EmitError::SdkMarker(SdkFailure::BeginInPrologue));
    }
    if !prologue_has_valid_boundary(function, site.entry, size_of_prolog) {
        return Err(EmitError::SdkMarker(SdkFailure::PrologueInsideInstruction));
    }
    match check_span(function, begin) {
        Ok(_) => {},
        Err(error) => return Err(error),
    }
    let available: u32 = if begin.next.0 >= patch_from.0 {
        begin.next.0 - patch_from.0
    } else {
        0
    };
    if available < STUB_LEN {
        return Err(
            EmitError::SdkMarker(SdkFailure::NoRoomForJump { call: begin.call, available }),
        );
    }
    Ok(())
}

/// What follows a step along the chain of unwind information.
pub open spec fn walked<R>(
    function: Function,
    range: RuntimeFunction,
    walk: ChainWalk,
    site: SdkSite,
) -> SdkPreparing<R> {
    match walk {
        ChainWalk::Failed(error) => SdkPreparing::Failed(error),
        ChainWalk::Read { .. } => SdkPreparing::FollowChain { function, range, walk },
        ChainWalk::Done(unwind) => match begin_problem(function, unwind.size_of_prolog, site) {
            Some(error) => SdkPreparing::Failed(error),
            None => SdkPreparing::FindCalls { covering: Covering { function, range, unwind } },
        },
    }
}

/// Goes on after a step along the chain of unwind information.
fn after_walk<R>(
    function: Function,
    range: RuntimeFunction,
    walk: ChainWalk,
    site: SdkSite,
) -> (next: SdkPreparing<R>)
    ensures
        next == walked::<R>(function, range, walk, site),
{
    match walk {
        ChainWalk::Failed(error) => SdkPreparing::Failed(error),
        ChainWalk::Done(unwind) => match check_begin(&function, unwind.size_of_prolog, site) {
            Err(error) => SdkPreparing::Failed(error),
            Ok(_) => SdkPreparing::FindCalls { covering: Covering { function, range, unwind } },
        },
        walk => SdkPreparing::FollowChain { function, range, walk },
    }
}

// ---------------------------------------------------------------------------
// The region
// ---------------------------------------------------------------------------

/// Where the markers start.
pub open spec fn starts(ends: Seq<MarkerSite>) -> Seq<Rva> {
    Seq::new(ends.len(), |i: int| ends[i].first())
}

/// Where the markers start.
pub fn marker_starts(ends: &[MarkerSite], memory: &mut Memory) -> (r: Result<Vec<Rva>, EmitError>)
    ensures
        forall|g: Grants| #[trigger]
            final(memory).agrees(g) ==> old(memory).agrees(g) && (Answered {
                out: memory::listed(r),
                asked: final(memory).asked(),
            }) == memory::once(g, old(memory).asked(), ends@.len(), Ok(starts(ends@))),
{
    let mut list: Vec<Rva> = Vec::new();
    if !memory.reserve(&mut list, ends.len()) {
        return Err(allocation_error());
    }
    let mut index: usize = 0;
    while index < ends.len()
        invariant
            index <= ends@.len(),
            list@ == starts(ends@).take(index as int),
        decreases ends@.len() - index,
    {
        list.push(ends[index].start());
        index += 1;
        assert(list@ =~= starts(ends@).take(index as int));
    }
    assert(list@ =~= starts(ends@));
    Ok(list)
}

/// The first marker that starts at `rva`.
pub open spec fn marker_at(ends: Seq<MarkerSite>, rva: Rva) -> Option<MarkerSite>
    decreases ends.len(),
{
    if ends.len() == 0 {
        None
    } else if ends[0].first() == rva {
        Some(ends[0])
    } else {
        marker_at(ends.drop_first(), rva)
    }
}

/// The first marker that starts at `rva`.
pub fn find_marker(ends: &[MarkerSite], rva: Rva) -> (r: Option<MarkerSite>)
    ensures
        r == marker_at(ends@, rva),
{
    let mut index: usize = 0;
    assert(ends@.skip(0) =~= ends@);
    while index < ends.len()
        invariant
            index <= ends@.len(),
            marker_at(ends@, rva) == marker_at(ends@.skip(index as int), rva),
        decreases ends@.len() - index,
    {
        let ghost rest = ends@.skip(index as int);
        assert(rest.drop_first() =~= ends@.skip(index + 1));
        if ends[index].start() == rva {
            return Some(ends[index]);
        }
        index += 1;
    }
    None
}

/// The closing markers that start where the region ends, in that order.
pub open spec fn reached_sites(function: Function, ends: Seq<MarkerSite>, reached: Seq<Rva>) -> Result<
    Seq<MarkerSite>,
    EmitError,
>
    decreases reached.len(),
{
    if reached.len() == 0 {
        Ok(Seq::empty())
    } else {
        match reached_sites(function, ends, reached.drop_last()) {
            Err(error) => Err(error),
            Ok(sites) => match marker_at(ends, reached.last()) {
                None => Err(
                    EmitError::SdkMarker(SdkFailure::MissingContinuation { end: reached.last() }),
                ),
                Some(marker) => match span_problem(function, marker) {
                    Some(error) => Err(error),
                    None => Ok(sites.push(marker)),
                },
            },
        }
    }
}

/// A failure at the first ends is the failure of all of them.
proof fn lemma_reached_prefix(
    function: Function,
    ends: Seq<MarkerSite>,
    reached: Seq<Rva>,
    count: int,
)
    requires
        0 <= count <= reached.len(),
        reached_sites(function, ends, reached.take(count)) is Err,
    ensures
        reached_sites(function, ends, reached) == reached_sites(
            function,
            ends,
            reached.take(count),
        ),
    decreases reached.len(),
{
    if count < reached.len() {
        let shorter = reached.drop_last();
        assert(shorter.take(count) =~= reached.take(count));
        lemma_reached_prefix(function, ends, shorter, count);
    } else {
        assert(reached.take(count) =~= reached);
    }
}

/// Finds the closing markers that a region reaches.
pub fn find_sites(
    function: &Function,
    ends: &[MarkerSite],
    reached: &[Rva],
    memory: &mut Memory,
) -> (r: Result<Vec<MarkerSite>, EmitError>)
    ensures
        forall|g: Grants| #[trigger]
            final(memory).agrees(g) ==> old(memory).agrees(g) && (Answered {
                out: memory::listed(r),
                asked: final(memory).asked(),
            }) == memory::once(
                g,
                old(memory).asked(),
                reached@.len(),
                reached_sites(*function, ends@, reached@),
            ),
{
    let mut sites: Vec<MarkerSite> = Vec::new();
    if !memory.reserve(&mut sites, reached.len()) {
        return Err(allocation_error());
    }
    let ghost reserved = *memory;
    let mut index: usize = 0;
    assert(reached@.take(0) =~= Seq::empty());
    assert(sites@ =~= Seq::empty());
    while index < reached.len()
        invariant
            index <= reached@.len(),
            *memory == reserved,
            reserved.asked() == memory::counted(old(memory).asked(), reached@.len()),
            forall|g: Grants| #[trigger]
                reserved.agrees(g) ==> old(memory).agrees(g) && memory::allows(
                    g,
                    old(memory).asked(),
                    reached@.len(),
                ),
            reached_sites(*function, ends@, reached@.take(index as int)) == Ok::<
                Seq<MarkerSite>,
                EmitError,
            >(sites@),
        decreases reached@.len() - index,
    {
        proof {
            let more = reached@.take(index + 1);
            assert(more.drop_last() =~= reached@.take(index as int));
            assert(more.last() == reached@[index as int]);
            if reached_sites(*function, ends@, more) is Err {
                lemma_reached_prefix(*function, ends@, reached@, index + 1);
            }
        }
        let marker = match find_marker(ends, reached[index]) {
            Some(marker) => marker,
            None => return Err(
                EmitError::SdkMarker(SdkFailure::MissingContinuation { end: reached[index] }),
            ),
        };
        match check_span(function, marker) {
            Ok(_) => {},
            Err(error) => return Err(error),
        }
        sites.push(marker);
        index += 1;
    }
    assert(reached@.take(index as int) =~= reached@);
    Ok(sites)
}

/// The calls that are made by selected instructions.
pub open spec fn selected_calls(calls: Seq<SdkApiCall>, selected: Seq<Rva>) -> Seq<SdkApiCall> {
    calls.filter(|call: SdkApiCall| selected.contains(call.call_rva))
}

/// Keeps the calls that are made by selected instructions.
pub fn retain_calls(calls: &[SdkApiCall], selected: &[Rva]) -> (kept: Vec<SdkApiCall>)
    ensures
        kept@ == selected_calls(calls@, selected@),
{
    let mut kept: Vec<SdkApiCall> = Vec::new();
    let mut index: usize = 0;
    proof {
        reveal(Seq::filter);
        assert(selected_calls(calls@.take(0), selected@) =~= Seq::empty());
    }
    while index < calls.len()
        invariant
            index <= calls@.len(),
            kept@ == selected_calls(calls@.take(index as int), selected@),
        decreases calls@.len() - index,
    {
        proof {
            reveal(Seq::filter);
            assert(calls@.take(index + 1).drop_last() =~= calls@.take(index as int));
            assert(calls@.take(index + 1).last() == calls@[index as int]);
        }
        if contains(selected, calls[index].call_rva) {
            kept.push(calls[index]);
        }
        index += 1;
    }
    assert(calls@.take(index as int) =~= calls@);
    kept
}

/// A copy of a list.
pub fn copied_list(list: &[Rva], memory: &mut Memory) -> (r: Result<Vec<Rva>, EmitError>)
    ensures
        forall|g: Grants| #[trigger]
            final(memory).agrees(g) ==> old(memory).agrees(g) && (Answered {
                out: memory::listed(r),
                asked: final(memory).asked(),
            }) == memory::once(g, old(memory).asked(), list@.len(), Ok(list@)),
{
    let mut copy: Vec<Rva> = Vec::new();
    if !memory.reserve(&mut copy, list.len()) {
        return Err(allocation_error());
    }
    let mut index: usize = 0;
    while index < list.len()
        invariant
            index <= list@.len(),
            copy@ == list@.take(index as int),
        decreases list@.len() - index,
    {
        copy.push(list[index]);
        index += 1;
        assert(copy@ =~= list@.take(index as int));
    }
    assert(copy@ =~= list@);
    Ok(copy)
}

/// `next` follows once the region was recovered, after `asked1` requests. Room is
/// asked for two copies of the selection, and for the closing markers.
pub open spec fn recovered<R>(
    g: Grants,
    asked: nat,
    covering: Covering,
    calls: Seq<SdkApiCall>,
    region: MarkerRegion,
    ends: Seq<MarkerSite>,
    next: SdkPreparing<R>,
    asked1: nat,
) -> bool {
    let (granted, copied) = memory::repeated(g, asked, region.instructions@.len(), 2);
    let reached = memory::once(
        g,
        copied,
        region.reached_ends@.len(),
        reached_sites(covering.function, ends, region.reached_ends@),
    );
    if !granted {
        asked1 == copied && next == SdkPreparing::<R>::Failed(error::out_of_memory())
    } else {
        &&& asked1 == reached.asked
        &&& match reached.out {
            Err(error) => next == SdkPreparing::<R>::Failed(error),
            Ok(sites) => match next {
                SdkPreparing::FindEpilogues { covering: covering1, plan } => {
                    &&& covering1 == covering
                    &&& plan.calls@ == selected_calls(calls, region.instructions@)
                    &&& plan.selected == region.instructions
                    &&& plan.insertion_points@ == region.instructions@
                    &&& plan.mutation_targets@ == region.instructions@
                    &&& plan.sites@ == sites
                },
                _ => false,
            },
        }
    }
}

/// Goes on once the region was recovered.
fn after_recovery<R>(
    covering: Covering,
    calls: Vec<SdkApiCall>,
    region: MarkerRegion,
    ends: &[MarkerSite],
    memory: &mut Memory,
) -> (next: SdkPreparing<R>)
    ensures
        forall|g: Grants| #[trigger]
            final(memory).agrees(g) ==> old(memory).agrees(g) && recovered(
                g,
                old(memory).asked(),
                covering,
                calls@,
                region,
                ends@,
                next,
                final(memory).asked(),
            ),
{
    proof {
        reveal_with_fuel(memory::repeated, 3);
    }
    let kept = retain_calls(calls.as_slice(), region.instructions.as_slice());
    let insertion_points = match copied_list(region.instructions.as_slice(), memory) {
        Ok(list) => list,
        Err(error) => return SdkPreparing::Failed(error),
    };
    let mutation_targets = match copied_list(region.instructions.as_slice(), memory) {
        Ok(list) => list,
        Err(error) => return SdkPreparing::Failed(error),
    };
    match find_sites(&covering.function, ends, region.reached_ends.as_slice(), memory) {
        Err(error) => SdkPreparing::Failed(error),
        Ok(sites) => SdkPreparing::FindEpilogues {
            covering,
            plan: RegionPlan {
                calls: kept,
                selected: region.instructions,
                insertion_points,
                mutation_targets,
                sites,
            },
        },
    }
}

impl RegionPlan {
    /// Where each bridge starts, and where it leads.
    pub open spec fn continuations(&self) -> Seq<(Rva, Rva)> {
        Seq::new(self.sites@.len(), |i: int| (self.sites@[i].first(), self.sites@[i].next))
    }

    /// The calls of the closing markers, and the loads that go with them.
    pub open spec fn end_sites(&self) -> Seq<(Rva, Option<Rva>)> {
        Seq::new(self.sites@.len(), |i: int| (self.sites@[i].call, self.sites@[i].load))
    }

    /// The calls of the closing markers.
    pub open spec fn end_calls(&self) -> Seq<Rva> {
        Seq::new(self.sites@.len(), |i: int| self.sites@[i].call)
    }

    /// Where each bridge starts, and where it leads.
    pub fn bridges(&self) -> (list: Vec<(Rva, Rva)>)
        ensures
            list@ == self.continuations(),
    {
        let mut list: Vec<(Rva, Rva)> = Vec::new();
        let mut index: usize = 0;
        while index < self.sites.len()
            invariant
                index <= self.sites@.len(),
                list@ == self.continuations().take(index as int),
            decreases self.sites@.len() - index,
        {
            list.push((self.sites[index].start(), self.sites[index].next));
            index += 1;
            assert(list@ =~= self.continuations().take(index as int));
        }
        assert(list@ =~= self.continuations());
        list
    }

    /// The calls of the closing markers, and the loads that go with them.
    pub fn reached_end_sites(&self, memory: &mut Memory) -> (r: Result<
        Vec<(Rva, Option<Rva>)>,
        EmitError,
    >)
        ensures
            forall|g: Grants| #[trigger]
                final(memory).agrees(g) ==> old(memory).agrees(g) && (Answered {
                    out: memory::listed(r),
                    asked: final(memory).asked(),
                }) == memory::once(
                    g,
                    old(memory).asked(),
                    self.sites@.len(),
                    Ok(self.end_sites()),
                ),
    {
        let mut list: Vec<(Rva, Option<Rva>)> = Vec::new();
        if !memory.reserve(&mut list, self.sites.len()) {
            return Err(allocation_error());
        }
        let mut index: usize = 0;
        while index < self.sites.len()
            invariant
                index <= self.sites@.len(),
                list@ == self.end_sites().take(index as int),
            decreases self.sites@.len() - index,
        {
            list.push((self.sites[index].call, self.sites[index].load));
            index += 1;
            assert(list@ =~= self.end_sites().take(index as int));
        }
        assert(list@ =~= self.end_sites());
        Ok(list)
    }

    /// The calls of the closing markers.
    pub fn reached_calls(&self) -> (list: Vec<Rva>)
        ensures
            list@ == self.end_calls(),
    {
        let mut list: Vec<Rva> = Vec::new();
        let mut index: usize = 0;
        while index < self.sites.len()
            invariant
                index <= self.sites@.len(),
                list@ == self.end_calls().take(index as int),
            decreases self.sites@.len() - index,
        {
            list.push(self.sites[index].call);
            index += 1;
            assert(list@ =~= self.end_calls().take(index as int));
        }
        assert(list@ =~= self.end_calls());
        list
    }
}

/// `next` follows once the epilogues were found, after `asked1` requests: the region
/// may be entered only through its opening marker. Room is asked for the calls of
/// the closing markers.
pub open spec fn entries_checked<R>(
    g: Grants,
    asked: nat,
    covering: Covering,
    plan: RegionPlan,
    epilogues: Seq<Epilogue>,
    site: SdkSite,
    next: SdkPreparing<R>,
    asked1: nat,
) -> bool {
    match region::region_problem(
        covering.function,
        site.begin.call,
        site.begin.next,
        plan.selected@,
        epilogues,
        0,
    ) {
        Some(failure) => asked1 == asked && next == SdkPreparing::<R>::Failed(
            EmitError::SdkMarker(failure),
        ),
        None => {
            let listed = memory::once(g, asked, plan.sites@.len(), Ok(plan.end_sites()));
            &&& asked1 == listed.asked
            &&& match listed.out {
                Err(error) => next == SdkPreparing::<R>::Failed(error),
                Ok(list) => match next {
                    SdkPreparing::Neutralize { covering: covering1, plan: plan1, end_sites } =>
                        covering1 == covering && plan1 == plan && end_sites@ == list,
                    _ => false,
                },
            }
        },
    }
}

/// Goes on once the epilogues were found.
fn check_entries<R>(
    covering: Covering,
    plan: RegionPlan,
    epilogues: &[Epilogue],
    site: SdkSite,
    memory: &mut Memory,
) -> (next: SdkPreparing<R>)
    ensures
        forall|g: Grants| #[trigger]
            final(memory).agrees(g) ==> old(memory).agrees(g) && entries_checked(
                g,
                old(memory).asked(),
                covering,
                plan,
                epilogues@,
                site,
                next,
                final(memory).asked(),
            ),
{
    match validate_region_entries(
        &covering.function,
        site.begin.call,
        site.begin.next,
        plan.selected.as_slice(),
        epilogues,
    ) {
        Err(error) => SdkPreparing::Failed(error),
        Ok(_) => match plan.reached_end_sites(memory) {
            Err(error) => SdkPreparing::Failed(error),
            Ok(end_sites) => SdkPreparing::Neutralize { covering, plan, end_sites },
        },
    }
}

// ---------------------------------------------------------------------------
// Epilogues
// ---------------------------------------------------------------------------

/// How many of the instructions are selected.
pub open spec fn selected_count(list: Seq<InstructionView>, selected: Seq<Rva>) -> nat
    decreases list.len(),
{
    if list.len() == 0 {
        0
    } else {
        selected_count(list.drop_last(), selected) + (if region::is_selected(
            list.last(),
            selected,
        ) {
            1nat
        } else {
            0nat
        })
    }
}

/// The epilogues that lie in the region. One that lies in it in part cannot be
/// moved.
pub open spec fn selected_epilogues(
    code: Seq<InstructionView>,
    epilogues: Seq<Epilogue>,
    selected: Seq<Rva>,
) -> Result<Seq<Epilogue>, EmitError>
    decreases epilogues.len(),
{
    if epilogues.len() == 0 {
        Ok(Seq::empty())
    } else {
        let epilogue = epilogues.last();
        let run = layout::epilogue_code(code, epilogue);
        let count = selected_count(run, selected);
        match selected_epilogues(code, epilogues.drop_last(), selected) {
            Err(error) => Err(error),
            Ok(list) => if count == 0 {
                Ok(list)
            } else if count != run.len() {
                Err(
                    EmitError::SdkMarker(
                        SdkFailure::PartialEpilogue { begin: epilogue.begin, end: epilogue.end },
                    ),
                )
            } else {
                Ok(list.push(epilogue))
            },
        }
    }
}

/// The ranges of the epilogues.
pub open spec fn ranges_of(epilogues: Seq<Epilogue>) -> Seq<(Rva, Rva)> {
    Seq::new(epilogues.len(), |i: int| (epilogues[i].begin, epilogues[i].end))
}

/// A failure among the first epilogues is the failure of all of them.
proof fn lemma_epilogues_prefix(
    code: Seq<InstructionView>,
    epilogues: Seq<Epilogue>,
    selected: Seq<Rva>,
    count: int,
)
    requires
        0 <= count <= epilogues.len(),
        selected_epilogues(code, epilogues.take(count), selected) is Err,
    ensures
        selected_epilogues(code, epilogues, selected) == selected_epilogues(
            code,
            epilogues.take(count),
            selected,
        ),
    decreases epilogues.len(),
{
    if count < epilogues.len() {
        let shorter = epilogues.drop_last();
        assert(shorter.take(count) =~= epilogues.take(count));
        lemma_epilogues_prefix(code, shorter, selected, count);
    } else {
        assert(epilogues.take(count) =~= epilogues);
    }
}

/// How many of the instructions are selected.
fn count_selected(
    run: &[&MachineInstruction],
    selected: &[Rva],
    Ghost(list): Ghost<Seq<InstructionView>>,
) -> (count: usize)
    requires
        run@.len() == list.len(),
        forall|i: int| 0 <= i < run@.len() ==> (#[trigger] run@[i])@ == list[i],
    ensures
        count == selected_count(list, selected@),
{
    let mut count: usize = 0;
    let mut index: usize = 0;
    while index < run.len()
        invariant
            index <= run@.len(),
            run@.len() == list.len(),
            forall|i: int| 0 <= i < run@.len() ==> (#[trigger] run@[i])@ == list[i],
            count == selected_count(list.take(index as int), selected@),
            count <= index,
        decreases run@.len() - index,
    {
        proof {
            assert(list.take(index + 1).drop_last() =~= list.take(index as int));
            assert(list.take(index + 1).last() == list[index as int]);
        }
        if let Some(rva) = run[index].rva() {
            if contains(selected, rva) {
                count += 1;
            }
        }
        index += 1;
    }
    assert(list.take(index as int) =~= list);
    count
}

/// Finds the epilogues that lie in the region.
pub fn select_epilogues(
    function: &Function,
    epilogues: &[Epilogue],
    selected: &[Rva],
    memory: &mut Memory,
) -> (r: Result<Vec<Epilogue>, EmitError>)
    ensures
        forall|g: Grants| #[trigger]
            final(memory).agrees(g) ==> old(memory).agrees(g) && (Answered {
                out: memory::listed(r),
                asked: final(memory).asked(),
            }) == memory::once(
                g,
                old(memory).asked(),
                epilogues@.len(),
                selected_epilogues(function.code(), epilogues@, selected@),
            ),
{
    let mut found: Vec<Epilogue> = Vec::new();
    if !memory.reserve(&mut found, epilogues.len()) {
        return Err(allocation_error());
    }
    let ghost reserved = *memory;
    let ghost code = function.code();
    let mut index: usize = 0;
    assert(epilogues@.take(0) =~= Seq::empty());
    assert(found@ =~= Seq::empty());
    while index < epilogues.len()
        invariant
            index <= epilogues@.len(),
            code == function.code(),
            *memory == reserved,
            reserved.asked() == memory::counted(old(memory).asked(), epilogues@.len()),
            forall|g: Grants| #[trigger]
                reserved.agrees(g) ==> old(memory).agrees(g) && memory::allows(
                    g,
                    old(memory).asked(),
                    epilogues@.len(),
                ),
            selected_epilogues(code, epilogues@.take(index as int), selected@) == Ok::<
                Seq<Epilogue>,
                EmitError,
            >(found@),
        decreases epilogues@.len() - index,
    {
        let epilogue = epilogues[index];
        proof {
            let more = epilogues@.take(index + 1);
            assert(more.drop_last() =~= epilogues@.take(index as int));
            assert(more.last() == epilogue);
            if selected_epilogues(code, more, selected@) is Err {
                lemma_epilogues_prefix(code, epilogues@, selected@, index + 1);
            }
        }
        let run = epilogue_instructions(function, epilogue);
        let count = count_selected(
            run.as_slice(),
            selected,
            Ghost(layout::epilogue_code(code, epilogue)),
        );
        if count != 0 {
            if count != run.len() {
                return Err(
                    EmitError::SdkMarker(
                        SdkFailure::PartialEpilogue { begin: epilogue.begin, end: epilogue.end },
                    ),
                );
            }
            found.push(epilogue);
        }
        index += 1;
    }
    assert(epilogues@.take(index as int) =~= epilogues@);
    Ok(found)
}

/// The ranges of the epilogues.
fn epilogue_ranges(epilogues: &[Epilogue]) -> (ranges: Vec<(Rva, Rva)>)
    ensures
        ranges@ == ranges_of(epilogues@),
{
    let mut ranges: Vec<(Rva, Rva)> = Vec::new();
    let mut index: usize = 0;
    while index < epilogues.len()
        invariant
            index <= epilogues@.len(),
            ranges@ == ranges_of(epilogues@).take(index as int),
        decreases epilogues@.len() - index,
    {
        ranges.push((epilogues[index].begin, epilogues[index].end));
        index += 1;
        assert(ranges@ =~= ranges_of(epilogues@).take(index as int));
    }
    assert(ranges@ =~= ranges_of(epilogues@));
    ranges
}

/// `next` follows once the epilogues to freeze were found, after `asked1` requests.
/// Room is asked for every epilogue.
pub open spec fn frozen<R>(
    g: Grants,
    asked: nat,
    covering: Covering,
    plan: RegionPlan,
    found: Seq<Epilogue>,
    next: SdkPreparing<R>,
    asked1: nat,
) -> bool {
    let chosen = memory::once(
        g,
        asked,
        found.len(),
        selected_epilogues(covering.function.code(), found, plan.selected@),
    );
    &&& asked1 == chosen.asked
    &&& match chosen.out {
        Err(error) => next == SdkPreparing::<R>::Failed(error),
        Ok(list) => match next {
            SdkPreparing::Mutate { covering: covering1, plan: plan1, epilogues, frozen } =>
                covering1 == covering && plan1 == plan && epilogues@ == list && frozen@
                    == ranges_of(found),
            _ => false,
        },
    }
}

/// Goes on once the epilogues to freeze were found.
fn after_freezing<R>(
    covering: Covering,
    plan: RegionPlan,
    found: &[Epilogue],
    memory: &mut Memory,
) -> (next: SdkPreparing<R>)
    ensures
        forall|g: Grants| #[trigger]
            final(memory).agrees(g) ==> old(memory).agrees(g) && self::frozen(
                g,
                old(memory).asked(),
                covering,
                plan,
                found@,
                next,
                final(memory).asked(),
            ),
{
    match select_epilogues(&covering.function, found, plan.selected.as_slice(), memory) {
        Err(error) => SdkPreparing::Failed(error),
        Ok(epilogues) => {
            let frozen = epilogue_ranges(found);
            SdkPreparing::Mutate { covering, plan, epilogues, frozen }
        },
    }
}

// ---------------------------------------------------------------------------
// The copy
// ---------------------------------------------------------------------------

/// `next` follows once the region was rewritten, after `asked1` requests.
pub open spec fn sliced<R>(
    g: Grants,
    asked: nat,
    covering: Covering,
    plan: RegionPlan,
    epilogues: Vec<Epilogue>,
    report: R,
    noop: bool,
    site: SdkSite,
    next: SdkPreparing<R>,
    asked1: nat,
) -> bool {
    if noop {
        asked1 == asked && next == SdkPreparing::<R>::Failed(
            EmitError::SdkMarker(SdkFailure::NothingMutated),
        )
    } else {
        let built = slice::slice_of(
            g,
            asked,
            covering.function,
            site.begin.next,
            plan.selected@,
            plan.continuations(),
        );
        &&& asked1 == built.asked
        &&& match built.out {
            Err(error) => next == SdkPreparing::<R>::Failed(error),
            Ok(view) => if layout::absolute_fixups(view.code) {
                next == SdkPreparing::<R>::Failed(
                    EmitError::SdkMarker(SdkFailure::AbsoluteFixups),
                )
            } else {
                match next {
                    SdkPreparing::Relocate {
                        covering: covering1,
                        plan: plan1,
                        epilogues: epilogues1,
                        slice,
                        report: report1,
                    } => covering1 == covering && plan1 == plan && epilogues1 == epilogues
                        && report1 == report && slice::is_slice(slice, view),
                    _ => false,
                }
            },
        }
    }
}

/// Goes on once the region was rewritten.
fn after_mutation<R>(
    covering: Covering,
    plan: RegionPlan,
    epilogues: Vec<Epilogue>,
    report: R,
    noop: bool,
    site: SdkSite,
    memory: &mut Memory,
) -> (next: SdkPreparing<R>)
    ensures
        forall|g: Grants| #[trigger]
            final(memory).agrees(g) ==> old(memory).agrees(g) && sliced(
                g,
                old(memory).asked(),
                covering,
                plan,
                epilogues,
                report,
                noop,
                site,
                next,
                final(memory).asked(),
            ),
{
    if noop {
        return SdkPreparing::Failed(EmitError::SdkMarker(SdkFailure::NothingMutated));
    }
    let bridges = plan.bridges();
    match build_region_slice(
        &covering.function,
        site.begin.next,
        plan.selected.as_slice(),
        bridges.as_slice(),
        memory,
    ) {
        Err(error) => SdkPreparing::Failed(error),
        Ok(slice) => {
            proof {
                let g = memory.lemma_some_grants();
                assert(memory.agrees(g));
                let view = slice::slice_view(
                    covering.function,
                    site.begin.next,
                    plan.selected@,
                    plan.continuations(),
                )->Ok_0;
                slice::lemma_slice_code(slice, view);
            }
            if has_absolute_fixups(&slice) {
                return SdkPreparing::Failed(EmitError::SdkMarker(SdkFailure::AbsoluteFixups));
            }
            SdkPreparing::Relocate { covering, plan, epilogues, slice, report }
        },
    }
}

/// A copy whose exits and calls lead where they should.
#[verifier::ext_equal]
pub struct CopyView {
    pub bytes: Seq<u8>,
    pub length: u32,
    pub end: Rva,
    pub stubs: Seq<SdkStub>,
}

/// The copy that an encoded slice becomes, and the number of requests for room made
/// to finish it.
pub open spec fn copy_of(
    g: Grants,
    asked: nat,
    function: Function,
    base: Rva,
    bytes: Seq<u8>,
    moved: Seq<(Rva, Rva)>,
    plan: RegionPlan,
    epilogues: Seq<Epilogue>,
    site: SdkSite,
) -> Answered<CopyView> {
    let (after, failure) = calls::all_bridged(base, bytes, moved, plan.continuations());
    let measured = relocated::measurements_of(base, after, moved);
    match failure {
        Some(error) => Answered { out: Err(error), asked },
        None => if !layout::epilogue_shapes(function.code(), measured, epilogues) {
            Answered { out: Err(EmitError::SdkMarker(SdkFailure::EpilogueChanged)), asked }
        } else if after.len() > u32::MAX {
            Answered {
                out: Err(
                    EmitError::Layout {
                        rva: site.entry,
                        reason: "relocated SDK function length exceeds the PE address width",
                    },
                ),
                asked,
            }
        } else {
            match address::after(site.placement, after.len() as int) {
                None => Answered {
                    out: Err(
                        EmitError::Layout {
                            rva: site.entry,
                            reason: "relocated SDK function end exceeds the PE address width",
                        },
                    ),
                    asked,
                },
                Some(end) => {
                    let installed = calls::with_stubs(
                        g,
                        asked,
                        base,
                        after,
                        moved,
                        plan.calls@,
                        end,
                    );
                    Answered {
                        out: match installed.out {
                            Err(error) => Err(error),
                            Ok((bytes, stubs)) => Ok(
                                CopyView { bytes, length: after.len() as u32, end, stubs },
                            ),
                        },
                        asked: installed.asked,
                    }
                },
            }
        },
    }
}

/// `next` is the last state of a region whose slice was encoded, after `asked1`
/// requests.
pub open spec fn settled<R>(
    g: Grants,
    asked: nat,
    covering: Covering,
    plan: RegionPlan,
    epilogues: Seq<Epilogue>,
    relocated: Relocated,
    report: R,
    site: SdkSite,
    next: SdkPreparing<R>,
    asked1: nat,
) -> bool {
    let finished = copy_of(
        g,
        asked,
        covering.function,
        relocated.rva,
        relocated.bytes@,
        relocated.moved@,
        plan,
        epilogues,
        site,
    );
    &&& asked1 == finished.asked
    &&& match finished.out {
        Err(error) => next == SdkPreparing::<R>::Failed(error),
        Ok(copy) => match next {
            SdkPreparing::Ready(SdkReady { ready, reached_ends, sdk_stubs }) => {
                &&& ready.bytes@ == copy.bytes
                &&& ready.runtime_function.begin == site.placement
                &&& ready.runtime_function.end == copy.end
                &&& unwind::chains_to(
                    ready.runtime_function.unwind,
                    covering.unwind,
                    covering.range,
                )
                &&& ready.protected == (Protected {
                    original: site.begin.first(),
                    relocated: site.placement,
                    length: copy.length,
                    report,
                })
                &&& reached_ends@ == plan.end_calls()
                &&& sdk_stubs@ == copy.stubs
            },
            _ => false,
        },
    }
}

/// Settles a region whose slice was encoded.
fn settle<R>(
    covering: Covering,
    plan: RegionPlan,
    epilogues: &[Epilogue],
    relocated: Relocated,
    report: R,
    site: SdkSite,
    memory: &mut Memory,
) -> (next: SdkPreparing<R>)
    ensures
        forall|g: Grants| #[trigger]
            final(memory).agrees(g) ==> old(memory).agrees(g) && settled(
                g,
                old(memory).asked(),
                covering,
                plan,
                epilogues@,
                relocated,
                report,
                site,
                next,
                final(memory).asked(),
            ),
{
    let mut copy = relocated;
    let bridges = plan.bridges();
    match patch_exit_bridges(&mut copy, bridges.as_slice()) {
        Ok(_) => {},
        Err(error) => return SdkPreparing::Failed(error),
    }
    if !epilogues_kept_their_shape(&covering.function, &copy, epilogues) {
        return SdkPreparing::Failed(EmitError::SdkMarker(SdkFailure::EpilogueChanged));
    }
    let len = copy.bytes.len();
    if len > u32::MAX as usize {
        return SdkPreparing::Failed(
            EmitError::Layout {
                rva: site.entry,
                reason: "relocated SDK function length exceeds the PE address width",
            },
        );
    }
    let length = len as u32;
    let end = match site.placement.checked_add(length) {
        Some(end) => end,
        None => return SdkPreparing::Failed(
            EmitError::Layout {
                rva: site.entry,
                reason: "relocated SDK function end exceeds the PE address width",
            },
        ),
    };
    let sdk_stubs = match install_sdk_stubs(&mut copy, plan.calls.as_slice(), end, memory) {
        Ok(stubs) => stubs,
        Err(error) => return SdkPreparing::Failed(error),
    };
    let reached_ends = plan.reached_calls();
    let unwind = chained_slice_unwind(&covering.unwind, covering.range);
    SdkPreparing::Ready(
        SdkReady {
            ready: Ready {
                bytes: copy.bytes,
                runtime_function: NewFunction { begin: site.placement, end, unwind },
                protected: Protected {
                    original: site.begin.start(),
                    relocated: site.placement,
                    length,
                    report,
                },
            },
            reached_ends,
            sdk_stubs,
        },
    )
}

// ---------------------------------------------------------------------------
// Step by step
// ---------------------------------------------------------------------------

/// `next` is the state that follows `state` once `event` has happened, and `asked1`
/// the number of requests for room made by then. An event that was not asked for
/// changes nothing.
pub open spec fn advances<R>(
    g: Grants,
    asked: nat,
    state: SdkPreparing<R>,
    event: SdkEvent<R>,
    site: SdkSite,
    ends: Seq<MarkerSite>,
    next: SdkPreparing<R>,
    asked1: nat,
) -> bool {
    match (state, event) {
        (SdkPreparing::Decode, SdkEvent::Decoded(decoded)) => asked1 == asked && next == (
        match decoded {
            Err(message) => SdkPreparing::<R>::Failed(reported(message)),
            Ok(function) => match covering_range(function, site) {
                Err(error) => SdkPreparing::<R>::Failed(error),
                Ok(range) => SdkPreparing::<R>::ReadUnwind { function, range },
            },
        }),
        (SdkPreparing::ReadUnwind { function, range }, SdkEvent::Unwind(parsed)) => asked1 == asked
            && next == walked::<R>(function, range, unwind::first_link(parsed), site),
        (SdkPreparing::FollowChain { function, range, walk }, SdkEvent::Unwind(parsed)) => asked1
            == asked && next == walked::<R>(
            function,
            range,
            unwind::next_link(walk, parsed),
            site,
        ),
        (SdkPreparing::FindCalls { covering }, SdkEvent::Calls(Err(message))) => asked1 == asked
            && next == SdkPreparing::<R>::Failed(reported(message)),
        (SdkPreparing::FindCalls { covering }, SdkEvent::Calls(Ok(found))) => {
            let started = memory::once(g, asked, ends.len(), Ok(starts(ends)));
            &&& asked1 == started.asked
            &&& match started.out {
                Err(error) => next == SdkPreparing::<R>::Failed(error),
                Ok(list) => match next {
                    SdkPreparing::RecoverRegion { covering: covering1, calls, end_starts } =>
                        covering1 == covering && calls == found && end_starts@ == list,
                    _ => false,
                },
            }
        },
        (
            SdkPreparing::RecoverRegion { covering, calls, end_starts },
            SdkEvent::Region(Err(message)),
        ) => asked1 == asked && next == SdkPreparing::<R>::Failed(reported(message)),
        (
            SdkPreparing::RecoverRegion { covering, calls, end_starts },
            SdkEvent::Region(Ok(region)),
        ) => recovered(g, asked, covering, calls@, region, ends, next, asked1),
        (SdkPreparing::FindEpilogues { covering, plan }, SdkEvent::Epilogues(epilogues)) =>
            entries_checked(g, asked, covering, plan, epilogues@, site, next, asked1),
        (
            SdkPreparing::Neutralize { covering, plan, end_sites },
            SdkEvent::Neutralized(neutralized),
        ) => asked1 == asked && next == (match neutralized {
            Err(message) => SdkPreparing::<R>::Failed(reported(message)),
            Ok(function) => SdkPreparing::<R>::FindFrozen {
                covering: Covering { function, range: covering.range, unwind: covering.unwind },
                plan,
            },
        }),
        (SdkPreparing::FindFrozen { covering, plan }, SdkEvent::Epilogues(epilogues)) => frozen(
            g,
            asked,
            covering,
            plan,
            epilogues@,
            next,
            asked1,
        ),
        (
            SdkPreparing::Mutate { covering, plan, epilogues, frozen },
            SdkEvent::Mutated(Err(message)),
        ) => asked1 == asked && next == SdkPreparing::<R>::Failed(reported(message)),
        (
            SdkPreparing::Mutate { covering, plan, epilogues, frozen },
            SdkEvent::Mutated(Ok((function, report, noop))),
        ) => sliced(
            g,
            asked,
            Covering { function, range: covering.range, unwind: covering.unwind },
            plan,
            epilogues,
            report,
            noop,
            site,
            next,
            asked1,
        ),
        (
            SdkPreparing::Relocate { covering, plan, epilogues, slice, report },
            SdkEvent::Relocated(Err(message)),
        ) => asked1 == asked && next == SdkPreparing::<R>::Failed(reported(message)),
        (
            SdkPreparing::Relocate { covering, plan, epilogues, slice, report },
            SdkEvent::Relocated(Ok(relocated)),
        ) => settled(
            g,
            asked,
            covering,
            plan,
            epilogues@,
            relocated,
            report,
            site,
            next,
            asked1,
        ),
        _ => asked1 == asked && next == state,
    }
}

/// Takes one region a step further.
pub fn prepare_sdk<R>(
    state: SdkPreparing<R>,
    event: SdkEvent<R>,
    site: SdkSite,
    ends: &[MarkerSite],
    memory: &mut Memory,
) -> (next: SdkPreparing<R>)
    ensures
        forall|g: Grants| #[trigger]
            final(memory).agrees(g) ==> old(memory).agrees(g) && advances(
                g,
                old(memory).asked(),
                state,
                event,
                site,
                ends@,
                next,
                final(memory).asked(),
            ),
{
    match (state, event) {
        (SdkPreparing::Decode, SdkEvent::Decoded(decoded)) => {
            let function = match decoded {
                Ok(function) => function,
                Err(message) => return SdkPreparing::Failed(
                    EmitError::SdkMarker(SdkFailure::Tool(message)),
                ),
            };
            match check_covering(&function, site) {
                Err(error) => SdkPreparing::Failed(error),
                Ok(range) => SdkPreparing::ReadUnwind { function, range },
            }
        },
        (SdkPreparing::ReadUnwind { function, range }, SdkEvent::Unwind(parsed)) => {
            let walk = chainable_unwind(parsed);
            after_walk(function, range, walk, site)
        },
        (SdkPreparing::FollowChain { function, range, walk }, SdkEvent::Unwind(parsed)) => {
            let walk = follow_chain(walk, parsed);
            after_walk(function, range, walk, site)
        },
        (SdkPreparing::FindCalls { covering }, SdkEvent::Calls(found)) => {
            let calls = match found {
                Ok(calls) => calls,
                Err(message) => return SdkPreparing::Failed(
                    EmitError::SdkMarker(SdkFailure::Tool(message)),
                ),
            };
            match marker_starts(ends, memory) {
                Err(error) => SdkPreparing::Failed(error),
                Ok(end_starts) => SdkPreparing::RecoverRegion { covering, calls, end_starts },
            }
        },
        (
            SdkPreparing::RecoverRegion { covering, calls, end_starts: _ },
            SdkEvent::Region(found),
        ) => match found {
            Err(message) => SdkPreparing::Failed(EmitError::SdkMarker(SdkFailure::Tool(message))),
            Ok(region) => after_recovery(covering, calls, region, ends, memory),
        },
        (SdkPreparing::FindEpilogues { covering, plan }, SdkEvent::Epilogues(epilogues)) =>
            check_entries(covering, plan, epilogues.as_slice(), site, memory),
        (
            SdkPreparing::Neutralize { covering, plan, end_sites: _ },
            SdkEvent::Neutralized(neutralized),
        ) => match neutralized {
            Err(message) => SdkPreparing::Failed(EmitError::SdkMarker(SdkFailure::Tool(message))),
            Ok(function) => SdkPreparing::FindFrozen {
                covering: Covering { function, range: covering.range, unwind: covering.unwind },
                plan,
            },
        },
        (SdkPreparing::FindFrozen { covering, plan }, SdkEvent::Epilogues(epilogues)) =>
            after_freezing(covering, plan, epilogues.as_slice(), memory),
        (
            SdkPreparing::Mutate { covering, plan, epilogues, frozen: _ },
            SdkEvent::Mutated(mutated),
        ) => match mutated {
            Err(message) => SdkPreparing::Failed(EmitError::SdkMarker(SdkFailure::Tool(message))),
            Ok((function, report, noop)) => after_mutation(
                Covering { function, range: covering.range, unwind: covering.unwind },
                plan,
                epilogues,
                report,
                noop,
                site,
                memory,
            ),
        },
        (
            SdkPreparing::Relocate { covering, plan, epilogues, slice: _, report },
            SdkEvent::Relocated(encoded),
        ) => match encoded {
            Err(message) => SdkPreparing::Failed(EmitError::SdkMarker(SdkFailure::Tool(message))),
            Ok(relocated) => settle(
                covering,
                plan,
                epilogues.as_slice(),
                relocated,
                report,
                site,
                memory,
            ),
        },
        (state, _) => state,
    }
}

// ---------------------------------------------------------------------------
// Laws
// ---------------------------------------------------------------------------

impl<R> SdkReady<R> {
    /// The copy belongs to `site`: the jump goes from its opening marker to its
    /// place, and the code that is unwound is part of the copy.
    pub open spec fn fits(self, site: SdkSite) -> bool {
        let ready = self.ready;
        &&& ready.protected.original == site.begin.first()
        &&& ready.protected.relocated == site.placement
        &&& ready.protected.length <= ready.bytes@.len()
        &&& ready.runtime_function.begin == site.placement
        &&& ready.runtime_function.end.0 == site.placement.0 + ready.protected.length
    }
}

/// What is known in each state: past the test of the opening marker there is room
/// for the jump, and a finished copy belongs to its site.
pub open spec fn state_wf<R>(state: SdkPreparing<R>, site: SdkSite) -> bool {
    match state {
        SdkPreparing::Decode => true,
        SdkPreparing::ReadUnwind { .. } => true,
        SdkPreparing::FollowChain { .. } => true,
        SdkPreparing::Failed(_) => true,
        SdkPreparing::Ready(ready) => room(site.begin) >= STUB_LEN && ready.fits(site),
        _ => room(site.begin) >= STUB_LEN,
    }
}

/// Every step keeps what is known.
pub proof fn lemma_sdk_states<R>(
    g: Grants,
    asked: nat,
    state: SdkPreparing<R>,
    event: SdkEvent<R>,
    site: SdkSite,
    ends: Seq<MarkerSite>,
    next: SdkPreparing<R>,
    asked1: nat,
)
    requires
        state_wf(state, site),
        advances(g, asked, state, event, site, ends, next, asked1),
    ensures
        state_wf(next, site),
{
    match (state, event) {
        (
            SdkPreparing::Relocate { covering, plan, epilogues, slice, report },
            SdkEvent::Relocated(Ok(relocated)),
        ) => {
            let (after, failure) = calls::all_bridged(
                relocated.rva,
                relocated.bytes@,
                relocated.moved@,
                plan.continuations(),
            );
            if let Some(end) = address::after(site.placement, after.len() as int) {
                let planned = calls::stub_plan(
                    g,
                    memory::counted(asked, plan.calls@.len()),
                    plan.calls@,
                    end,
                );
                if let Ok(planned) = planned.out {
                    calls::lemma_redirected_length(
                        relocated.rva,
                        after,
                        relocated.moved@,
                        plan.calls@,
                        planned.stubs,
                    );
                }
            }
        },
        _ => {},
    }
}

/// The closing markers of a plan are markers of the image, each a straight-line
/// span, and start where the walk ended, in that order.
pub proof fn lemma_reached_markers(
    function: Function,
    ends: Seq<MarkerSite>,
    reached: Seq<Rva>,
    i: int,
)
    requires
        reached_sites(function, ends, reached) is Ok,
        0 <= i < reached.len(),
    ensures
        ({
            let sites = reached_sites(function, ends, reached)->Ok_0;
            &&& sites.len() == reached.len()
            &&& sites[i].first() == reached[i]
            &&& ends.contains(sites[i])
            &&& span_problem(function, sites[i]) is None
        }),
    decreases reached.len(),
{
    reveal_with_fuel(reached_sites, 2);
    let shorter = reached.drop_last();
    if shorter.len() > 0 {
        lemma_reached_markers(function, ends, shorter, if i < shorter.len() { i } else { 0 });
    }
    if i == shorter.len() {
        lemma_marker_at(ends, reached.last());
    }
}

/// A marker that was found is one of the markers and starts where it was sought.
proof fn lemma_marker_at(ends: Seq<MarkerSite>, rva: Rva)
    ensures
        marker_at(ends, rva) is Some ==> marker_at(ends, rva)->0.first() == rva && ends.contains(
            marker_at(ends, rva)->0,
        ),
    decreases ends.len(),
{
    if ends.len() > 0 {
        if ends[0].first() == rva {
            assert(ends.contains(ends[0]));
        } else {
            let rest = ends.drop_first();
            lemma_marker_at(rest, rva);
            if marker_at(rest, rva) is Some {
                let k = choose|k: int| 0 <= k < rest.len() && rest[k] == marker_at(rest, rva)->0;
                assert(ends[k + 1] == rest[k]);
            }
        }
    }
}

} // verus!
