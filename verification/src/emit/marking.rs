//! What the markers of an image lead to, marker by marker, and what a slice holds,
//! instruction by instruction.

use vstd::prelude::*;

use crate::emit::address;
use crate::emit::address::Rva;
use crate::emit::code;
use crate::emit::code::{BasicBlock, Function, InstructionView};
use crate::emit::decoder;
use crate::emit::error::{EmitError, SdkFailure};
use crate::emit::markers;
use crate::emit::markers::{ApiMarker, EndPatch, MarkerSite, SdkMarker};
use crate::emit::memory;
use crate::emit::memory::Grants;
use crate::emit::slice;
use crate::emit::slice::{Keyed, SliceView};
use crate::emit::stub;

verus! {

// ---------------------------------------------------------------------------
// The plan
// ---------------------------------------------------------------------------

/// The number of opening calls among the first `count` markers.
pub open spec fn opening(markers: Seq<ApiMarker>, count: int) -> nat
    decreases count,
{
    if count <= 0 {
        0
    } else {
        opening(markers, count - 1) + if markers[count - 1] is Begin {
            1nat
        } else {
            0
        }
    }
}

/// The number of opening markers among the first `count` that are spelled out.
pub open spec fn opening_spelled(spelled: Seq<SdkMarker>, count: int) -> nat
    decreases count,
{
    if count <= 0 {
        0
    } else {
        opening_spelled(spelled, count - 1) + if spelled[count - 1] is Begin {
            1nat
        } else {
            0
        }
    }
}

/// The marker passes a name of a known length.
pub open spec fn passes_name(marker: ApiMarker) -> bool {
    marker matches ApiMarker::Begin { name: Some((_, Some(_))), .. }
}

/// The marker passes a name whose length is not known.
pub open spec fn passes_unbounded_name(marker: ApiMarker) -> bool {
    marker matches ApiMarker::Begin { name: Some((_, None)), .. }
}

/// The marker has an instruction that produces its name.
pub open spec fn has_producer(marker: ApiMarker) -> bool {
    marker matches ApiMarker::Begin { name_reference_rva: Some(_), .. }
}

/// The number of names that the first `count` markers pass.
pub open spec fn naming(markers: Seq<ApiMarker>, count: int) -> nat
    decreases count,
{
    if count <= 0 {
        0
    } else {
        naming(markers, count - 1) + if passes_name(markers[count - 1]) {
            1nat
        } else {
            0
        }
    }
}

/// The number of producers that the first `count` markers have.
pub open spec fn producing(markers: Seq<ApiMarker>, count: int) -> nat
    decreases count,
{
    if count <= 0 {
        0
    } else {
        producing(markers, count - 1) + if has_producer(markers[count - 1]) {
            1nat
        } else {
            0
        }
    }
}

/// Counts depend on what is counted alone.
proof fn lemma_counts_of_front(markers: Seq<ApiMarker>, count: int)
    requires
        0 <= count < markers.len(),
    ensures
        opening(markers.drop_last(), count) == opening(markers, count),
        naming(markers.drop_last(), count) == naming(markers, count),
        producing(markers.drop_last(), count) == producing(markers, count),
    decreases count,
{
    if count > 0 {
        lemma_counts_of_front(markers, count - 1);
    }
}

/// Counts depend on what is counted alone.
proof fn lemma_spelled_counts_of_front(spelled: Seq<SdkMarker>, count: int)
    requires
        0 <= count < spelled.len(),
    ensures
        opening_spelled(spelled.drop_last(), count) == opening_spelled(spelled, count),
    decreases count,
{
    if count > 0 {
        lemma_spelled_counts_of_front(spelled, count - 1);
    }
}

/// Counts grow, and count no more than there is.
proof fn lemma_counts_grow(markers: Seq<ApiMarker>, few: int, many: int)
    requires
        0 <= few <= many,
    ensures
        opening(markers, few) <= opening(markers, many) <= opening(markers, few) + many - few,
        naming(markers, few) <= naming(markers, many),
        producing(markers, few) <= producing(markers, many),
    decreases many,
{
    if few < many {
        lemma_counts_grow(markers, few, many - 1);
    }
}

/// Counts grow, and count no more than there is.
proof fn lemma_spelled_counts_grow(spelled: Seq<SdkMarker>, few: int, many: int)
    requires
        0 <= few <= many,
    ensures
        opening_spelled(spelled, few) <= opening_spelled(spelled, many) <= opening_spelled(
            spelled,
            few,
        ) + many - few,
    decreases many,
{
    if few < many {
        lemma_spelled_counts_grow(spelled, few, many - 1);
    }
}

/// The lists that are made of the calls are as long as what they hold.
proof fn lemma_api_lengths(markers: Seq<ApiMarker>)
    ensures
        markers::api_begins(markers).len() == opening(markers, markers.len() as int),
        markers::api_ends(markers).len() == markers.len() - opening(markers, markers.len() as int),
        markers::api_names(markers).len() == naming(markers, markers.len() as int),
        markers::api_references(markers).len() == producing(markers, markers.len() as int),
        (markers::unbounded_name(markers) is None) == (forall|i: int|
            0 <= i < markers.len() ==> !passes_unbounded_name(#[trigger] markers[i])),
    decreases markers.len(),
{
    if markers.len() > 0 {
        let front = markers.drop_last();
        let last = markers.len() - 1;
        lemma_api_lengths(front);
        if last > 0 {
            lemma_counts_of_front(markers, last);
        }
        assert(markers.last() == markers[last]);
        let clean = forall|i: int|
            0 <= i < markers.len() ==> !passes_unbounded_name(#[trigger] markers[i]);
        let front_clean = forall|i: int|
            0 <= i < front.len() ==> !passes_unbounded_name(#[trigger] front[i]);
        if clean {
            assert forall|i: int| 0 <= i < front.len() implies !passes_unbounded_name(
                #[trigger] front[i],
            ) by {
                assert(front[i] == markers[i]);
            }
        }
        if front_clean && !passes_unbounded_name(markers[last]) {
            assert forall|i: int| 0 <= i < markers.len() implies !passes_unbounded_name(
                #[trigger] markers[i],
            ) by {
                if i < last {
                    assert(front[i] == markers[i]);
                }
            }
        }
    }
}

/// The lists that are made of the spelled markers are as long as what they hold.
proof fn lemma_spelled_lengths(spelled: Seq<SdkMarker>)
    ensures
        markers::spelled_begins(spelled).len() == opening_spelled(spelled, spelled.len() as int),
        markers::spelled_ends(spelled).len() == spelled.len() - opening_spelled(
            spelled,
            spelled.len() as int,
        ),
    decreases spelled.len(),
{
    if spelled.len() > 0 {
        let last = spelled.len() - 1;
        lemma_spelled_lengths(spelled.drop_last());
        if last > 0 {
            lemma_spelled_counts_of_front(spelled, last);
        }
        assert(spelled.last() == spelled[last]);
    }
}

/// What call `i` adds to the lists.
proof fn lemma_api_entry(markers: Seq<ApiMarker>, i: int)
    requires
        0 <= i < markers.len(),
    ensures
        match markers[i] {
            ApiMarker::Begin {
                load_rva,
                call_rva,
                next_rva,
                name,
                name_reference_rva,
                compilation_type,
                lock_to_key,
            } => {
                let begin = markers::api_begins(markers)[opening(markers, i) as int];
                &&& opening(markers, i) < markers::api_begins(markers).len()
                &&& begin.site.call == call_rva
                &&& begin.site.next == next_rva
                &&& begin.site.load == load_rva
                &&& !begin.site.static_marker
                &&& begin.compilation_type == compilation_type
                &&& begin.lock_to_key == lock_to_key
                &&& name matches Some((rva, Some(length))) ==> naming(markers, i)
                    < markers::api_names(markers).len() && markers::api_names(markers)[naming(
                    markers,
                    i,
                ) as int] == (rva, length)
                &&& name_reference_rva matches Some(reference) ==> producing(markers, i)
                    < markers::api_references(markers).len() && markers::api_references(
                    markers,
                )[producing(markers, i) as int] == reference
            },
            ApiMarker::End { load_rva, call_rva, next_rva } => {
                let end = markers::api_ends(markers)[i - opening(markers, i)];
                &&& 0 <= i - opening(markers, i) < markers::api_ends(markers).len()
                &&& end.call == call_rva
                &&& end.next == next_rva
                &&& end.load == load_rva
                &&& !end.static_marker
            },
        },
    decreases markers.len(),
{
    let front = markers.drop_last();
    let last = markers.len() - 1;
    lemma_api_lengths(front);
    lemma_api_lengths(markers);
    lemma_counts_of_front(markers, i);
    lemma_counts_of_front(markers, last);
    lemma_counts_grow(markers, 0, i);
    if i < last {
        lemma_api_entry(front, i);
        assert(front[i] == markers[i]);
    } else {
        assert(markers.last() == markers[last]);
    }
}

/// What spelled marker `i` adds to the lists.
proof fn lemma_spelled_entry(spelled: Seq<SdkMarker>, i: int)
    requires
        0 <= i < spelled.len(),
    ensures
        match spelled[i] {
            SdkMarker::Begin { rva, next_rva, compilation_type } => {
                let begin = markers::spelled_begins(spelled)[opening_spelled(spelled, i) as int];
                &&& opening_spelled(spelled, i) < markers::spelled_begins(spelled).len()
                &&& begin.site.call == rva
                &&& begin.site.next == next_rva
                &&& begin.site.load is None
                &&& begin.site.static_marker
                &&& begin.compilation_type == compilation_type
                &&& !begin.lock_to_key
            },
            SdkMarker::End { rva, next_rva } => {
                let end = markers::spelled_ends(spelled)[i - opening_spelled(spelled, i)];
                &&& 0 <= i - opening_spelled(spelled, i) < markers::spelled_ends(spelled).len()
                &&& end.call == rva
                &&& end.next == next_rva
                &&& end.load is None
                &&& end.static_marker
            },
        },
    decreases spelled.len(),
{
    let front = spelled.drop_last();
    let last = spelled.len() - 1;
    lemma_spelled_lengths(front);
    lemma_spelled_lengths(spelled);
    lemma_spelled_counts_of_front(spelled, i);
    lemma_spelled_counts_of_front(spelled, last);
    lemma_spelled_counts_grow(spelled, 0, i);
    if i < last {
        lemma_spelled_entry(front, i);
        assert(front[i] == spelled[i]);
    } else {
        assert(spelled.last() == spelled[last]);
    }
}

/// Every call of a marker function is planned: an opening one as the opening marker
/// with that number, with its type and its lock, and with the name it passes and the
/// instruction that produces the name, and a closing one as the closing marker with
/// that number. No opening marker passes a name of unknown length.
pub proof fn lemma_every_call_is_planned(
    g: Grants,
    asked: nat,
    markers: Seq<ApiMarker>,
    spelled: Seq<SdkMarker>,
    i: int,
)
    requires
        markers::plan_of(g, asked, markers, spelled).out is Ok,
        0 <= i < markers.len(),
    ensures
        ({
            let plan = markers::plan_of(g, asked, markers, spelled).out->Ok_0;
            match markers[i] {
                ApiMarker::Begin {
                    load_rva,
                    call_rva,
                    next_rva,
                    name,
                    name_reference_rva,
                    compilation_type,
                    lock_to_key,
                } => {
                    let begin = plan.begins[opening(markers, i) as int];
                    &&& opening(markers, i) < plan.begins.len()
                    &&& begin.site.call == call_rva
                    &&& begin.site.next == next_rva
                    &&& begin.site.load == load_rva
                    &&& !begin.site.static_marker
                    &&& begin.compilation_type == compilation_type
                    &&& begin.lock_to_key == lock_to_key
                    &&& name matches Some((rva, length)) ==> length is Some && naming(markers, i)
                        < plan.names.len() && plan.names[naming(markers, i) as int] == (
                        rva,
                        length->0,
                    )
                    &&& name_reference_rva matches Some(reference) ==> producing(markers, i)
                        < plan.name_references.len() && plan.name_references[producing(
                        markers,
                        i,
                    ) as int] == reference
                },
                ApiMarker::End { load_rva, call_rva, next_rva } => {
                    let end = plan.ends[i - opening(markers, i)];
                    &&& 0 <= i - opening(markers, i) < plan.ends.len()
                    &&& end.call == call_rva
                    &&& end.next == next_rva
                    &&& end.load == load_rva
                    &&& !end.static_marker
                },
            }
        }),
{
    lemma_api_lengths(markers);
    lemma_api_entry(markers, i);
    assert(!passes_unbounded_name(markers[i]));
}

/// Every marker that is spelled out is planned, behind the calls.
pub proof fn lemma_every_spelled_marker_is_planned(
    g: Grants,
    asked: nat,
    markers: Seq<ApiMarker>,
    spelled: Seq<SdkMarker>,
    i: int,
)
    requires
        markers::plan_of(g, asked, markers, spelled).out is Ok,
        0 <= i < spelled.len(),
    ensures
        ({
            let plan = markers::plan_of(g, asked, markers, spelled).out->Ok_0;
            let calls = markers.len() as int;
            match spelled[i] {
                SdkMarker::Begin { rva, next_rva, compilation_type } => {
                    let place = opening(markers, calls) + opening_spelled(spelled, i);
                    let begin = plan.begins[place as int];
                    &&& place < plan.begins.len()
                    &&& begin.site.call == rva
                    &&& begin.site.next == next_rva
                    &&& begin.site.load is None
                    &&& begin.site.static_marker
                    &&& begin.compilation_type == compilation_type
                    &&& !begin.lock_to_key
                },
                SdkMarker::End { rva, next_rva } => {
                    let place = calls - opening(markers, calls) + i - opening_spelled(spelled, i);
                    let end = plan.ends[place];
                    &&& 0 <= place < plan.ends.len()
                    &&& end.call == rva
                    &&& end.next == next_rva
                    &&& end.load is None
                    &&& end.static_marker
                },
            }
        }),
{
    lemma_api_lengths(markers);
    lemma_counts_grow(markers, 0, markers.len() as int);
    lemma_spelled_lengths(spelled);
    lemma_spelled_entry(spelled, i);
}

/// The patch covers the marker from its first free byte up to what follows it: a call
/// from its start, and a marker that is spelled out from behind its first two bytes.
pub open spec fn covers_marker(patch: EndPatch, end: MarkerSite) -> bool {
    if end.static_marker {
        patch matches EndPatch::StaticPayload { rva, length } && rva.0 == end.call.0 + 2 && rva.0
            + length == end.next.0
    } else {
        patch matches EndPatch::ApiSpan { rva, length } && rva == end.call && rva.0 + length
            == end.next.0
    }
}

/// The marker ends behind its first free byte.
pub open spec fn can_be_patched(end: MarkerSite) -> bool {
    if end.static_marker {
        end.call.0 + 2 <= end.next.0
    } else {
        end.call.0 <= end.next.0
    }
}

/// There is a patch for each closing marker, in order.
proof fn lemma_patches(ends: Seq<MarkerSite>)
    ensures
        (markers::patches_of(ends) is Ok) == (forall|i: int|
            0 <= i < ends.len() ==> can_be_patched(#[trigger] ends[i])),
        markers::patches_of(ends) matches Ok(patches) ==> patches.len() == ends.len() && forall|
            i: int,
        |
            0 <= i < ends.len() ==> covers_marker(#[trigger] patches[i], ends[i]),
    decreases ends.len(),
{
    if ends.len() > 0 {
        let front = ends.drop_last();
        let last = ends.len() - 1;
        lemma_patches(front);
        assert(ends.last() == ends[last]);
        let all = forall|i: int| 0 <= i < ends.len() ==> can_be_patched(#[trigger] ends[i]);
        if all {
            assert forall|i: int| 0 <= i < front.len() implies can_be_patched(
                #[trigger] front[i],
            ) by {
                assert(front[i] == ends[i]);
            }
        }
        if markers::patches_of(front) is Ok && can_be_patched(ends[last]) {
            assert forall|i: int| 0 <= i < ends.len() implies can_be_patched(
                #[trigger] ends[i],
            ) by {
                if i < last {
                    assert(front[i] == ends[i]);
                }
            }
        }
        if markers::patches_of(ends) is Ok {
            let patches = markers::patches_of(ends)->Ok_0;
            let before = markers::patches_of(front)->Ok_0;
            assert forall|i: int| 0 <= i < ends.len() implies covers_marker(
                #[trigger] patches[i],
                ends[i],
            ) by {
                if i < last {
                    assert(patches[i] == before[i]);
                    assert(front[i] == ends[i]);
                }
            }
        }
    }
}

/// A plan holds nothing but what the markers ask for: as many opening markers, closing
/// markers, names and producers as there are, and one patch for each closing marker,
/// which covers it.
pub proof fn lemma_plan_holds_markers_only(
    g: Grants,
    asked: nat,
    markers: Seq<ApiMarker>,
    spelled: Seq<SdkMarker>,
)
    requires
        markers::plan_of(g, asked, markers, spelled).out is Ok,
    ensures
        ({
            let plan = markers::plan_of(g, asked, markers, spelled).out->Ok_0;
            let calls = markers.len() as int;
            let others = spelled.len() as int;
            &&& plan.begins.len() == opening(markers, calls) + opening_spelled(spelled, others)
            &&& plan.begins.len() > 0
            &&& plan.begins.len() + plan.ends.len() == calls + others
            &&& plan.names.len() == naming(markers, calls)
            &&& plan.name_references.len() == producing(markers, calls)
            &&& plan.end_patches.len() == plan.ends.len()
            &&& forall|i: int|
                0 <= i < plan.ends.len() ==> covers_marker(
                    #[trigger] plan.end_patches[i],
                    plan.ends[i],
                )
        }),
{
    lemma_api_lengths(markers);
    lemma_spelled_lengths(spelled);
    lemma_counts_grow(markers, 0, markers.len() as int);
    lemma_spelled_counts_grow(spelled, 0, spelled.len() as int);
    lemma_patches(markers::api_ends(markers) + markers::spelled_ends(spelled));
}

/// A plan is made where some marker opens a region, no name has an unknown length,
/// every closing marker ends behind its first free byte, and the allocator grants
/// every request.
pub proof fn lemma_plan_is_made(
    g: Grants,
    asked: nat,
    markers: Seq<ApiMarker>,
    spelled: Seq<SdkMarker>,
)
    requires
        forall|n: nat, size: nat| #[trigger] g(n, size),
        markers.len() + spelled.len() <= usize::MAX,
        opening(markers, markers.len() as int) + opening_spelled(spelled, spelled.len() as int) > 0,
        forall|i: int| 0 <= i < markers.len() ==> !passes_unbounded_name(#[trigger] markers[i]),
        forall|i: int|
            0 <= i < markers.len() ==> ((#[trigger] markers[i]) matches ApiMarker::End {
                call_rva,
                next_rva,
                ..
            } ==> call_rva.0 <= next_rva.0),
        forall|i: int|
            0 <= i < spelled.len() ==> ((#[trigger] spelled[i]) matches SdkMarker::End {
                rva,
                next_rva,
            } ==> rva.0 + 2 <= next_rva.0),
    ensures
        markers::plan_of(g, asked, markers, spelled).out is Ok,
{
    lemma_api_lengths(markers);
    lemma_spelled_lengths(spelled);
    lemma_always_repeated(g, asked, markers.len() + spelled.len(), 4);
    let ends = markers::api_ends(markers) + markers::spelled_ends(spelled);
    lemma_api_ends_patchable(markers);
    lemma_spelled_ends_patchable(spelled);
    lemma_patches(ends);
    assert forall|i: int| 0 <= i < ends.len() implies can_be_patched(#[trigger] ends[i]) by {
        let calls = markers::api_ends(markers);
        if i < calls.len() {
            assert(ends[i] == calls[i]);
        } else {
            assert(ends[i] == markers::spelled_ends(spelled)[i - calls.len()]);
        }
    }
}

/// An allocator that grants everything grants everything repeatedly.
proof fn lemma_always_repeated(g: Grants, asked: nat, additional: nat, times: nat)
    requires
        forall|n: nat, size: nat| #[trigger] g(n, size),
    ensures
        memory::repeated(g, asked, additional, times).0,
    decreases times,
{
    if times > 0 {
        lemma_always_repeated(
            g,
            memory::counted(asked, additional),
            additional,
            (times - 1) as nat,
        );
    }
}

/// Closing calls that end behind their start can be patched.
proof fn lemma_api_ends_patchable(markers: Seq<ApiMarker>)
    requires
        forall|i: int|
            0 <= i < markers.len() ==> ((#[trigger] markers[i]) matches ApiMarker::End {
                call_rva,
                next_rva,
                ..
            } ==> call_rva.0 <= next_rva.0),
    ensures
        forall|i: int|
            0 <= i < markers::api_ends(markers).len() ==> can_be_patched(
                #[trigger] markers::api_ends(markers)[i],
            ),
    decreases markers.len(),
{
    if markers.len() > 0 {
        let front = markers.drop_last();
        assert forall|i: int| 0 <= i < front.len() implies ((
        #[trigger] front[i]) matches ApiMarker::End { call_rva, next_rva, .. } ==> call_rva.0
            <= next_rva.0) by {
            assert(front[i] == markers[i]);
        }
        lemma_api_ends_patchable(front);
        assert(markers.last() == markers[markers.len() - 1]);
        let before = markers::api_ends(front);
        let ends = markers::api_ends(markers);
        assert forall|i: int| 0 <= i < ends.len() implies can_be_patched(#[trigger] ends[i]) by {
            if i < before.len() {
                assert(ends[i] == before[i]);
            }
        }
    }
}

/// Spelled closing markers that end behind their first two bytes can be patched.
proof fn lemma_spelled_ends_patchable(spelled: Seq<SdkMarker>)
    requires
        forall|i: int|
            0 <= i < spelled.len() ==> ((#[trigger] spelled[i]) matches SdkMarker::End {
                rva,
                next_rva,
            } ==> rva.0 + 2 <= next_rva.0),
    ensures
        forall|i: int|
            0 <= i < markers::spelled_ends(spelled).len() ==> can_be_patched(
                #[trigger] markers::spelled_ends(spelled)[i],
            ),
    decreases spelled.len(),
{
    if spelled.len() > 0 {
        let front = spelled.drop_last();
        assert forall|i: int| 0 <= i < front.len() implies ((
        #[trigger] front[i]) matches SdkMarker::End { rva, next_rva } ==> rva.0 + 2
            <= next_rva.0) by {
            assert(front[i] == spelled[i]);
        }
        lemma_spelled_ends_patchable(front);
        assert(spelled.last() == spelled[spelled.len() - 1]);
        let before = markers::spelled_ends(front);
        let ends = markers::spelled_ends(spelled);
        assert forall|i: int| 0 <= i < ends.len() implies can_be_patched(#[trigger] ends[i]) by {
            if i < before.len() {
                assert(ends[i] == before[i]);
            }
        }
    }
}

// ---------------------------------------------------------------------------
// Slices
// ---------------------------------------------------------------------------

/// The instruction stands at a selected address.
pub open spec fn is_chosen(instruction: InstructionView, selected: Seq<Rva>) -> bool {
    instruction.rva is Some && selected.contains(instruction.rva->0)
}

/// Instruction `i` goes with the region: it is selected, or it has no address and
/// stands behind a selected one with nothing between them that has an address.
pub open spec fn goes_along(list: Seq<InstructionView>, selected: Seq<Rva>, i: int) -> bool {
    ||| is_chosen(list[i], selected)
    ||| list[i].rva is None && exists|j: int|
        0 <= j < i && is_chosen(#[trigger] list[j], selected) && forall|k: int|
            j < k < i ==> (#[trigger] list[k]).rva is None
}

/// What follows a kept instruction is anchored to it.
proof fn lemma_anchor(list: Seq<InstructionView>, selected: Seq<Rva>)
    ensures
        (slice::retained(list, selected).anchor is Some) == exists|j: int|
            0 <= j < list.len() && is_chosen(#[trigger] list[j], selected) && forall|k: int|
                j < k < list.len() ==> (#[trigger] list[k]).rva is None,
    decreases list.len(),
{
    let found = exists|j: int|
        0 <= j < list.len() && is_chosen(#[trigger] list[j], selected) && forall|k: int|
            j < k < list.len() ==> (#[trigger] list[k]).rva is None;
    if list.len() > 0 {
        let front = list.drop_last();
        let last = list.len() - 1;
        lemma_anchor(front, selected);
        assert(list.last() == list[last]);
        let before = exists|j: int|
            0 <= j < front.len() && is_chosen(#[trigger] front[j], selected) && forall|k: int|
                j < k < front.len() ==> (#[trigger] front[k]).rva is None;
        if is_chosen(list[last], selected) {
            assert(found);
        } else if list[last].rva is Some {
            if found {
                let j = choose|j: int|
                    0 <= j < list.len() && is_chosen(#[trigger] list[j], selected) && forall|k: int|
                        j < k < list.len() ==> (#[trigger] list[k]).rva is None;
                assert(j < last);
                assert(list[last].rva is None);
            }
        } else {
            if found {
                let j = choose|j: int|
                    0 <= j < list.len() && is_chosen(#[trigger] list[j], selected) && forall|k: int|
                        j < k < list.len() ==> (#[trigger] list[k]).rva is None;
                assert(front[j] == list[j]);
                assert forall|k: int| j < k < front.len() implies (
                #[trigger] front[k]).rva is None by {
                    assert(front[k] == list[k]);
                }
                assert(before);
            }
            if before {
                let j = choose|j: int|
                    0 <= j < front.len() && is_chosen(#[trigger] front[j], selected) && forall|
                        k: int,
                    |
                        j < k < front.len() ==> (#[trigger] front[k]).rva is None;
                assert(front[j] == list[j]);
                assert forall|k: int| j < k < list.len() implies (
                #[trigger] list[k]).rva is None by {
                    if k < last {
                        assert(front[k] == list[k]);
                    }
                }
                assert(found);
            }
        }
    }
}

/// Whatever goes along is kept.
proof fn lemma_kept_of_block(list: Seq<InstructionView>, selected: Seq<Rva>, i: int)
    requires
        0 <= i < list.len(),
        goes_along(list, selected, i),
    ensures
        exists|k: int|
            0 <= k < slice::retained(list, selected).list.len() && (
            #[trigger] slice::retained(list, selected).list[k]).1 == list[i],
    decreases list.len(),
{
    let front = list.drop_last();
    let last = list.len() - 1;
    let kept = slice::retained(list, selected).list;
    let before = slice::retained(front, selected).list;
    assert(list.last() == list[last]);
    if i < last {
        assert(front[i] == list[i]);
        if !is_chosen(list[i], selected) {
            let j = choose|j: int|
                0 <= j < i && is_chosen(#[trigger] list[j], selected) && forall|k: int|
                    j < k < i ==> (#[trigger] list[k]).rva is None;
            assert(front[j] == list[j]);
            assert forall|k: int| j < k < i implies (#[trigger] front[k]).rva is None by {
                assert(front[k] == list[k]);
            }
        }
        assert(goes_along(front, selected, i));
        lemma_kept_of_block(front, selected, i);
        let k = choose|k: int| 0 <= k < before.len() && (#[trigger] before[k]).1 == front[i];
        assert(kept[k] == before[k]);
    } else if is_chosen(list[i], selected) {
        assert(kept[before.len() as int].1 == list[i]);
    } else {
        lemma_anchor(front, selected);
        let j = choose|j: int|
            0 <= j < i && is_chosen(#[trigger] list[j], selected) && forall|k: int|
                j < k < i ==> (#[trigger] list[k]).rva is None;
        assert(front[j] == list[j]);
        assert forall|k: int| j < k < front.len() implies (#[trigger] front[k]).rva is None by {
            assert(front[k] == list[k]);
        }
        assert(slice::retained(front, selected).anchor is Some);
        assert(kept[before.len() as int].1 == list[i]);
    }
}

/// What one block keeps, all blocks keep.
proof fn lemma_kept_of_blocks(
    blocks: Seq<BasicBlock>,
    selected: Seq<Rva>,
    count: nat,
    b: int,
    item: Keyed,
)
    requires
        0 <= b < count <= blocks.len(),
        slice::retained(code::views(blocks[b].instructions@), selected).list.contains(item),
    ensures
        slice::retained_blocks(blocks, selected, count).list.contains(item),
    decreases count,
{
    let before = slice::retained_blocks(blocks, selected, (count - 1) as nat).list;
    let more = slice::retained(code::views(blocks[count - 1].instructions@), selected).list;
    let kept = slice::retained_blocks(blocks, selected, count).list;
    if b < count - 1 {
        lemma_kept_of_blocks(blocks, selected, (count - 1) as nat, b, item);
        let k = choose|k: int| 0 <= k < before.len() && before[k] == item;
        assert(kept[k] == item);
    } else {
        let k = choose|k: int| 0 <= k < more.len() && more[k] == item;
        assert(kept[before.len() + k] == item);
    }
}

/// What is sorted is there afterwards.
proof fn lemma_sorted_contains(list: Seq<Keyed>, item: Keyed)
    requires
        list.contains(item),
    ensures
        slice::in_order(list).contains(item),
{
    broadcast use vstd::seq_lib::group_to_multiset_ensures;

    slice::lemma_in_order(list);
    assert(list.to_multiset().count(item) > 0);
    assert(slice::in_order(list).to_multiset().count(item) > 0);
}

/// A slice holds the whole region: every selected instruction of every block, and
/// everything that was inserted right behind one.
pub proof fn lemma_slice_holds_whole_region(
    function: Function,
    entry: Rva,
    selected: Seq<Rva>,
    continuations: Seq<(Rva, Rva)>,
    b: int,
    i: int,
)
    requires
        slice::slice_view(function, entry, selected, continuations) is Ok,
        0 <= b < function.blocks@.len(),
        0 <= i < function.blocks@[b].instructions@.len(),
        goes_along(code::views(function.blocks@[b].instructions@), selected, i),
    ensures
        slice::slice_view(function, entry, selected, continuations)->Ok_0.code.contains(
            function.blocks@[b].instructions@[i]@,
        ),
{
    let blocks = function.blocks@;
    let list = code::views(blocks[b].instructions@);
    let kept = slice::retained_blocks(blocks, selected, blocks.len()).list;
    let bridges = slice::bridges_of(continuations)->Ok_0;
    let code = slice::slice_view(function, entry, selected, continuations)->Ok_0.code;
    lemma_kept_of_block(list, selected, i);
    let own = slice::retained(list, selected).list;
    let k = choose|k: int| 0 <= k < own.len() && (#[trigger] own[k]).1 == list[i];
    let item = own[k];
    lemma_kept_of_blocks(blocks, selected, blocks.len(), b, item);
    let m = choose|m: int| 0 <= m < kept.len() && kept[m] == item;
    assert((kept + bridges)[m] == item);
    lemma_sorted_contains(kept + bridges, item);
    let ordered = slice::in_order(kept + bridges);
    let n = choose|n: int| 0 <= n < ordered.len() && ordered[n] == item;
    assert(code[n] == item.1);
}

/// There is a bridge for each closing marker, in order.
proof fn lemma_bridges(continuations: Seq<(Rva, Rva)>)
    ensures
        slice::bridges_of(continuations) matches Ok(bridges) ==> bridges.len()
            == continuations.len() && forall|c: int|
            0 <= c < continuations.len() ==> (#[trigger] bridges[c]).0 == continuations[c].0
                && bridges[c].1 == (InstructionView {
                rva: Some(continuations[c].0),
                bytes: decoder::near_jump(continuations[c].1.0 - (continuations[c].0.0 + 5)),
                refs: Seq::empty(),
            }) && address::fits_near(continuations[c].1.0 - (continuations[c].0.0 + 5)),
    decreases continuations.len(),
{
    if continuations.len() > 0 {
        let front = continuations.drop_last();
        let last = continuations.len() - 1;
        lemma_bridges(front);
        assert(continuations.last() == continuations[last]);
        if slice::bridges_of(continuations) is Ok {
            let bridges = slice::bridges_of(continuations)->Ok_0;
            let before = slice::bridges_of(front)->Ok_0;
            assert forall|c: int| 0 <= c < continuations.len() implies (#[trigger] bridges[c]).0
                == continuations[c].0 && bridges[c].1 == (InstructionView {
                rva: Some(continuations[c].0),
                bytes: decoder::near_jump(continuations[c].1.0 - (continuations[c].0.0 + 5)),
                refs: Seq::empty(),
            }) && address::fits_near(continuations[c].1.0 - (continuations[c].0.0 + 5)) by {
                if c < last {
                    assert(bridges[c] == before[c]);
                    assert(front[c] == continuations[c]);
                }
            }
        }
    }
}

/// The instruction is a near jump from `from` to `to`.
pub open spec fn jumps(instruction: InstructionView, from: Rva, to: Rva) -> bool {
    let bits = stub::from_little_endian(instruction.bytes.subrange(1, 5));
    &&& instruction.rva == Some(from)
    &&& instruction.bytes.len() == 5
    &&& instruction.bytes[0] == 0xe9
    &&& 0 <= bits <= u32::MAX
    &&& from.0 + 5 + stub::signed(bits as u32) == to.0
}

/// The bytes of a near jump hold the distance.
proof fn lemma_near_jump(distance: int)
    requires
        address::fits_near(distance),
    ensures
        decoder::near_jump(distance).len() == 5,
        decoder::near_jump(distance)[0] == 0xe9,
        ({
            let bits = stub::from_little_endian(decoder::near_jump(distance).subrange(1, 5));
            0 <= bits <= u32::MAX && stub::signed(bits as u32) == distance
        }),
{
    let bytes = decoder::near_jump(distance);
    let bits = address::two_complement(distance);
    assert(bytes.subrange(1, 5) =~= address::little_endian(bits));
    assert(stub::from_little_endian(address::little_endian(bits)) == bits);
}

/// A slice leads out of every closing marker: at the marker stands a near jump to
/// where the code continues.
pub proof fn lemma_slice_leads_out(
    function: Function,
    entry: Rva,
    selected: Seq<Rva>,
    continuations: Seq<(Rva, Rva)>,
    c: int,
)
    requires
        slice::slice_view(function, entry, selected, continuations) is Ok,
        0 <= c < continuations.len(),
    ensures
        exists|k: int|
            0 <= k < slice::slice_view(
                function,
                entry,
                selected,
                continuations,
            )->Ok_0.code.len() && jumps(
                #[trigger] slice::slice_view(
                    function,
                    entry,
                    selected,
                    continuations,
                )->Ok_0.code[k],
                continuations[c].0,
                continuations[c].1,
            ),
{
    let blocks = function.blocks@;
    let kept = slice::retained_blocks(blocks, selected, blocks.len()).list;
    let bridges = slice::bridges_of(continuations)->Ok_0;
    let code = slice::slice_view(function, entry, selected, continuations)->Ok_0.code;
    lemma_bridges(continuations);
    let item = bridges[c];
    assert((kept + bridges)[kept.len() + c] == item);
    lemma_sorted_contains(kept + bridges, item);
    let ordered = slice::in_order(kept + bridges);
    let n = choose|n: int| 0 <= n < ordered.len() && ordered[n] == item;
    assert(code[n] == item.1);
    lemma_near_jump(continuations[c].1.0 - (continuations[c].0.0 + 5));
    assert(jumps(code[n], continuations[c].0, continuations[c].1));
}

/// Kept instructions have their own addresses as keys, where they have one.
proof fn lemma_keys_of_block(list: Seq<InstructionView>, selected: Seq<Rva>)
    ensures
        forall|k: int|
            0 <= k < slice::retained(list, selected).list.len() ==> ((
            #[trigger] slice::retained(list, selected).list[k]).1.rva matches Some(rva) ==> rva
                == slice::retained(list, selected).list[k].0),
    decreases list.len(),
{
    if list.len() > 0 {
        lemma_keys_of_block(list.drop_last(), selected);
    }
}

/// Kept instructions of all blocks have their own addresses as keys.
proof fn lemma_keys_of_blocks(blocks: Seq<BasicBlock>, selected: Seq<Rva>, count: nat)
    requires
        count <= blocks.len(),
    ensures
        forall|k: int|
            0 <= k < slice::retained_blocks(blocks, selected, count).list.len() ==> ((
            #[trigger] slice::retained_blocks(
                blocks,
                selected,
                count,
            ).list[k]).1.rva matches Some(rva) ==> rva == slice::retained_blocks(
                blocks,
                selected,
                count,
            ).list[k].0),
    decreases count,
{
    if count > 0 {
        lemma_keys_of_blocks(blocks, selected, (count - 1) as nat);
        lemma_keys_of_block(code::views(blocks[count - 1].instructions@), selected);
    }
}

/// The instructions of a slice that have addresses stand in the order of their
/// addresses, and the slice ends behind the last of them whose end has an address.
pub proof fn lemma_slice_is_in_order(
    function: Function,
    entry: Rva,
    selected: Seq<Rva>,
    continuations: Seq<(Rva, Rva)>,
    i: int,
    j: int,
)
    requires
        slice::slice_view(function, entry, selected, continuations) is Ok,
    ensures
        ({
            let view = slice::slice_view(function, entry, selected, continuations)->Ok_0;
            &&& view.architecture == function.architecture
            &&& view.entry == entry
            &&& 0 <= i < j < view.code.len() && view.code[i].rva is Some && view.code[j].rva is Some
                ==> (view.code[i].rva->0).0 <= (view.code[j].rva->0).0
            &&& exists|k: int|
                0 <= k < view.code.len() && (#[trigger] view.code[k]).next_rva() == Some(view.end)
                    && forall|m: int|
                    k < m < view.code.len() ==> (#[trigger] view.code[m]).next_rva() is None
        }),
{
    let blocks = function.blocks@;
    let kept = slice::retained_blocks(blocks, selected, blocks.len()).list;
    let bridges = slice::bridges_of(continuations)->Ok_0;
    let all = kept + bridges;
    let ordered = slice::in_order(all);
    let view = slice::slice_view(function, entry, selected, continuations)->Ok_0;
    slice::lemma_in_order(all);
    lemma_bridges(continuations);
    lemma_keys_of_blocks(blocks, selected, blocks.len());
    if 0 <= i < j < view.code.len() && view.code[i].rva is Some && view.code[j].rva is Some {
        lemma_comes_from_unsorted(all, i);
        lemma_comes_from_unsorted(all, j);
        let a = choose|a: int| 0 <= a < all.len() && all[a] == ordered[i];
        let b = choose|b: int| 0 <= b < all.len() && all[b] == ordered[j];
        assert(ordered[i].1.rva == Some(ordered[i].0)) by {
            if a < kept.len() {
                assert(all[a] == kept[a]);
            } else {
                assert(all[a] == bridges[a - kept.len()]);
            }
        }
        assert(ordered[j].1.rva == Some(ordered[j].0)) by {
            if b < kept.len() {
                assert(all[b] == kept[b]);
            } else {
                assert(all[b] == bridges[b - kept.len()]);
            }
        }
        assert(ordered[i].0.0 <= ordered[j].0.0);
    }
    lemma_end(ordered);
    let k = choose|k: int|
        0 <= k < ordered.len() && (#[trigger] ordered[k]).1.next_rva() == slice::end_of(ordered)
            && forall|m: int| k < m < ordered.len() ==> (
        #[trigger] ordered[m]).1.next_rva() is None;
    assert(view.code[k].next_rva() == Some(view.end));
    assert forall|m: int| k < m < view.code.len() implies (
    #[trigger] view.code[m]).next_rva() is None by {
        assert(ordered[m].1 == view.code[m]);
    }
}

/// What is there after sorting was there before.
proof fn lemma_comes_from_unsorted(list: Seq<Keyed>, i: int)
    requires
        0 <= i < slice::in_order(list).len(),
    ensures
        list.contains(slice::in_order(list)[i]),
{
    broadcast use vstd::seq_lib::group_to_multiset_ensures;

    slice::lemma_in_order(list);
    let item = slice::in_order(list)[i];
    assert(slice::in_order(list).contains(item));
    assert(slice::in_order(list).to_multiset().count(item) > 0);
    assert(list.to_multiset().count(item) > 0);
}

/// The end is that of the last item that has one.
proof fn lemma_end(list: Seq<Keyed>)
    ensures
        slice::end_of(list) is Some ==> exists|k: int|
            0 <= k < list.len() && (#[trigger] list[k]).1.next_rva() == slice::end_of(list)
                && forall|m: int| k < m < list.len() ==> (#[trigger] list[m]).1.next_rva() is None,
    decreases list.len(),
{
    if list.len() > 0 && slice::end_of(list) is Some {
        let front = list.drop_last();
        let last = list.len() - 1;
        assert(list.last() == list[last]);
        if list[last].1.next_rva() is None {
            lemma_end(front);
            let k = choose|k: int|
                0 <= k < front.len() && (#[trigger] front[k]).1.next_rva() == slice::end_of(front)
                    && forall|m: int|
                    k < m < front.len() ==> (#[trigger] front[m]).1.next_rva() is None;
            assert(list[k] == front[k]);
            assert forall|m: int| k < m < list.len() implies (
            #[trigger] list[m]).1.next_rva() is None by {
                if m < last {
                    assert(list[m] == front[m]);
                }
            }
        } else {
            assert(list[last].1.next_rva() == slice::end_of(list));
        }
    }
}

/// How many of the instructions are selected.
pub open spec fn chosen_count(list: Seq<InstructionView>, selected: Seq<Rva>) -> nat
    decreases list.len(),
{
    if list.len() == 0 {
        0
    } else {
        chosen_count(list.drop_first(), selected) + if is_chosen(list[0], selected) {
            1nat
        } else {
            0
        }
    }
}

/// Counts add up.
proof fn lemma_chosen_count_joined(
    front: Seq<InstructionView>,
    back: Seq<InstructionView>,
    selected: Seq<Rva>,
)
    ensures
        chosen_count(front + back, selected) == chosen_count(front, selected) + chosen_count(
            back,
            selected,
        ),
    decreases front.len(),
{
    if front.len() == 0 {
        assert(front + back =~= back);
    } else {
        assert((front + back).drop_first() =~= front.drop_first() + back);
        lemma_chosen_count_joined(front.drop_first(), back, selected);
    }
}

/// What is counted of a block are its selected instructions.
proof fn lemma_block_count(list: Seq<InstructionView>, selected: Seq<Rva>)
    ensures
        slice::retained(list, selected).selected == chosen_count(list, selected),
    decreases list.len(),
{
    if list.len() > 0 {
        let front = list.drop_last();
        lemma_block_count(front, selected);
        let last = seq![list.last()];
        assert(list =~= front + last);
        lemma_chosen_count_joined(front, last, selected);
        assert(last.drop_first() =~= Seq::empty());
        assert(chosen_count(last.drop_first(), selected) == 0);
    }
}

/// What is counted of the blocks are their selected instructions.
proof fn lemma_blocks_count(blocks: Seq<BasicBlock>, selected: Seq<Rva>, count: nat)
    requires
        count <= blocks.len(),
    ensures
        slice::retained_blocks(blocks, selected, count).selected == chosen_count(
            code::instructions_of(blocks, count),
            selected,
        ),
    decreases count,
{
    if count > 0 {
        let less = (count - 1) as nat;
        lemma_blocks_count(blocks, selected, less);
        let more = code::views(blocks[count - 1].instructions@);
        lemma_block_count(more, selected);
        lemma_chosen_count_joined(code::instructions_of(blocks, less), more, selected);
    }
}

/// A slice is refused for its selection exactly where not as many instructions of the
/// function are selected as the selection has addresses, whatever their number. A slice
/// starts where its first instruction stands, where that has an address.
pub proof fn lemma_slice_needs_whole_selection(
    function: Function,
    entry: Rva,
    selected: Seq<Rva>,
    continuations: Seq<(Rva, Rva)>,
)
    ensures
        (slice::slice_view(function, entry, selected, continuations) == Err::<
            SliceView,
            EmitError,
        >(EmitError::SdkMarker(SdkFailure::UndecodedSelection))) == (chosen_count(
            function.code(),
            selected,
        ) != selected.len()),
        slice::slice_view(function, entry, selected, continuations) matches Ok(view)
            ==> view.code.len() > 0 && (view.code[0].rva matches Some(rva) ==> view.start == rva),
{
    lemma_blocks_count(function.blocks@, selected, function.blocks@.len());
    lemma_bridge_errors(continuations);
    if slice::slice_view(function, entry, selected, continuations) is Ok {
        let blocks = function.blocks@;
        let kept = slice::retained_blocks(blocks, selected, blocks.len()).list;
        let bridges = slice::bridges_of(continuations)->Ok_0;
        let all = kept + bridges;
        let ordered = slice::in_order(all);
        lemma_bridges(continuations);
        lemma_keys_of_blocks(blocks, selected, blocks.len());
        lemma_comes_from_unsorted(all, 0);
        let a = choose|a: int| 0 <= a < all.len() && all[a] == ordered[0];
        if a < kept.len() {
            assert(all[a] == kept[a]);
        } else {
            assert(all[a] == bridges[a - kept.len()]);
        }
    }
}

/// Bridges fail for reasons of their own.
proof fn lemma_bridge_errors(continuations: Seq<(Rva, Rva)>)
    ensures
        slice::bridges_of(continuations) matches Err(error) ==> error != EmitError::SdkMarker(
            SdkFailure::UndecodedSelection,
        ),
    decreases continuations.len(),
{
    if continuations.len() > 0 {
        lemma_bridge_errors(continuations.drop_last());
    }
}

} // verus!
