//! What each step of moving a marked region decides, written out.

use vstd::prelude::*;

use crate::emit::address::Rva;
use crate::emit::calls::SdkApiCall;
use crate::emit::code;
use crate::emit::code::{Epilogue, Function, InstructionView, RuntimeFunction};
use crate::emit::error::MarkerCompilationType;
use crate::emit::laws;
use crate::emit::layout;
use crate::emit::markers::{BeginMarker, MarkerSite};
use crate::emit::marking;
use crate::emit::memory::Grants;
use crate::emit::moving;
use crate::emit::region;
use crate::emit::sdk;
use crate::emit::sdk::{
    Covering, MarkerRegion, RegionPlan, SdkEvent, SdkPreparing, SdkReady, SdkSite,
};
use crate::emit::sdk_run;
use crate::emit::sdk_run::{SdkRun, Selection};
use crate::emit::slice;
use crate::emit::unwind;
use crate::emit::unwind::{ChainWalk, UnwindInfo};

verus! {

// ---------------------------------------------------------------------------
// The covering function
// ---------------------------------------------------------------------------

/// A decoded function covers a region exactly where the decoder found no issue and
/// the function starts where its unwind data says.
pub proof fn lemma_covering_function_is_whole<R>(
    g: Grants,
    asked: nat,
    function: Function,
    site: SdkSite,
    ends: Seq<MarkerSite>,
    next: SdkPreparing<R>,
    asked1: nat,
)
    requires
        sdk::advances(
            g,
            asked,
            SdkPreparing::<R>::Decode,
            SdkEvent::Decoded(Ok(function)),
            site,
            ends,
            next,
            asked1,
        ),
    ensures
        next is ReadUnwind || next is Failed,
        (next is ReadUnwind) == (function.issues@.len() == 0 && function.unwind is Some && (
        function.unwind->0).begin == site.entry),
        next is ReadUnwind ==> next == (SdkPreparing::<R>::ReadUnwind {
            function,
            range: function.unwind->0,
        }),
{
}

/// The load and the call are neighbours in some block.
pub open spec fn are_neighbours(function: Function, load: Rva, call: Rva) -> bool {
    exists|b: int, i: int|
        0 <= b < function.blocks@.len() && 0 <= i < function.blocks@[b].instructions@.len() - 1 && (
        #[trigger] function.blocks@[b].instructions@[i]).rva == Some(load) && load.0
            + function.blocks@[b].instructions@[i].bytes@.len() == call.0
            && function.blocks@[b].instructions@[i + 1].rva == Some(call)
}

/// A marker can be told from its load exactly where it has none, or the two are
/// neighbours.
proof fn lemma_span(function: Function, marker: MarkerSite)
    ensures
        (sdk::span_problem(function, marker) is None) == (marker.load is Some ==> are_neighbours(
            function,
            marker.load->0,
            marker.call,
        )),
{
    if marker.load is Some {
        let load = marker.load->0;
        let call = marker.call;
        if sdk::has_span(function, load, call) {
            let b = choose|b: int|
                0 <= b < function.blocks@.len() && region::span_in(
                    #[trigger] function.blocks@[b],
                    load,
                    call,
                );
            let block = function.blocks@[b];
            let (i, j) = choose|i: int, j: int|
                0 <= i && j == i + 1 && j < block.instructions@.len() && (
                #[trigger] block.instructions@[i])@.rva == Some(load)
                    && block.instructions@[i]@.next_rva() == Some(call) && (
                #[trigger] block.instructions@[j])@.rva == Some(call);
            assert(function.blocks@[b].instructions@[i].rva == Some(load));
        }
        if are_neighbours(function, load, call) {
            let (b, i) = choose|b: int, i: int|
                0 <= b < function.blocks@.len() && 0 <= i < function.blocks@[b].instructions@.len()
                    - 1 && (#[trigger] function.blocks@[b].instructions@[i]).rva == Some(load)
                    && load.0 + function.blocks@[b].instructions@[i].bytes@.len() == call.0
                    && function.blocks@[b].instructions@[i + 1].rva == Some(call);
            let block = function.blocks@[b];
            assert(block.instructions@[i]@.rva == Some(load));
            assert(block.instructions@[i]@.next_rva() == Some(call));
            assert(block.instructions@[i + 1]@.rva == Some(call));
            assert(region::span_in(function.blocks@[b], load, call));
        }
    }
}

/// An opening marker becomes a jump exactly where the prologue is filled by its
/// instructions and ends in front of the marker, the marker has room for the jump,
/// and a load that belongs to it is the neighbour of its call.
pub proof fn lemma_begin_becomes_a_jump(function: Function, size_of_prolog: u8, site: SdkSite)
    ensures
        (sdk::begin_problem(function, size_of_prolog, site) is None) == {
            let first = match site.begin.load {
                Some(load) => load.0,
                None => site.begin.call.0,
            };
            let prologue_end = site.entry.0 + size_of_prolog;
            &&& prologue_end <= u32::MAX
            &&& prologue_end <= first
            &&& moving::fills(function.code(), site.entry.0 as int, prologue_end)
            &&& first + 5 <= site.begin.next.0
            &&& site.begin.load is Some ==> are_neighbours(
                function,
                site.begin.load->0,
                site.begin.call,
            )
        },
{
    moving::lemma_prologue_boundary_is_filled(function.code(), site.entry, size_of_prolog);
    lemma_span(function, site.begin);
}

/// A link of unwind information can be used: it is of the first version and names no
/// language handler.
pub open spec fn is_usable(info: UnwindInfo) -> bool {
    info.version == 1 && info.flags & 3 == 0
}

/// A chain of links leads on: each link is usable, and each but the last names the
/// next, which shares its frame.
pub open spec fn is_usable_chain(chain: Seq<UnwindInfo>) -> bool {
    &&& chain.len() > 0
    &&& forall|i: int| 0 <= i < chain.len() ==> is_usable(#[trigger] chain[i])
    &&& forall|i: int| 0 <= i < chain.len() - 1 ==> (#[trigger] chain[i]).chained is Some
    &&& forall|i: int|
        0 <= i < chain.len() ==> (#[trigger] chain[i]).frame_register == chain[0].frame_register
            && chain[i].frame_offset == chain[0].frame_offset
}

/// What a walk comes to that reads the links of `chain` one after the other.
pub open spec fn walk_of(chain: Seq<UnwindInfo>) -> ChainWalk
    decreases chain.len(),
{
    if chain.len() <= 1 {
        unwind::first_link(Ok(chain[0]))
    } else {
        unwind::next_link(walk_of(chain.drop_last()), Ok(chain.last()))
    }
}

/// A walk along a chain is done exactly where every link of it is usable, all of them
/// share one frame, and the last of them, which is no further than the limit, names
/// no other. What it is done with is the first link.
pub proof fn lemma_walk_accepts_usable_chains(chain: Seq<UnwindInfo>)
    requires
        chain.len() > 0,
        forall|i: int| 0 <= i < chain.len() - 1 ==> (#[trigger] chain[i]).chained is Some,
    ensures
        (walk_of(chain) is Done) == (is_usable_chain(chain) && chain.last().chained is None
            && chain.len() <= 17),
        (walk_of(chain) is Read) == (is_usable_chain(chain) && chain.last().chained is Some
            && chain.len() <= 17),
        walk_of(chain) matches ChainWalk::Done(first) ==> first == chain[0],
        walk_of(chain) matches ChainWalk::Read {
            first,
            frame_register,
            frame_offset,
            next,
            links,
        } ==> first == chain[0] && links == chain.len() - 1 && next == (
        chain.last().chained->0).unwind_info && frame_register == chain[0].frame_register
            && frame_offset == chain[0].frame_offset,
    decreases chain.len(),
{
    assert(1u8 | 2u8 == 3u8) by (bit_vector);
    let last = chain.len() - 1;
    assert(chain.last() == chain[last]);
    assert forall|info: UnwindInfo| #[trigger] is_usable(info) == (unwind::link_obstacle(
        info,
    ) is None) by {}
    if chain.len() > 1 {
        let front = chain.drop_last();
        assert forall|i: int| 0 <= i < front.len() - 1 implies (
        #[trigger] front[i]).chained is Some by {
            assert(front[i] == chain[i]);
        }
        lemma_walk_accepts_usable_chains(front);
        assert(front.last() == chain[last - 1]);
        assert(front[0] == chain[0]);
        let fits = is_usable(chain[last]) && chain[last].frame_register == chain[0].frame_register
            && chain[last].frame_offset == chain[0].frame_offset;
        if is_usable_chain(chain) {
            assert forall|i: int| 0 <= i < front.len() implies is_usable(#[trigger] front[i])
                && front[i].frame_register == front[0].frame_register && front[i].frame_offset
                == front[0].frame_offset by {
                assert(front[i] == chain[i]);
            }
            assert(is_usable_chain(front) && fits);
        }
        if is_usable_chain(front) && fits {
            assert forall|i: int| 0 <= i < chain.len() implies is_usable(#[trigger] chain[i])
                && chain[i].frame_register == chain[0].frame_register && chain[i].frame_offset
                == chain[0].frame_offset by {
                if i < last {
                    assert(front[i] == chain[i]);
                }
            }
            assert(is_usable_chain(chain));
        }
        assert(is_usable_chain(chain) == (is_usable_chain(front) && fits));
    } else {
        assert(is_usable_chain(chain) == is_usable(chain[0]));
    }
}

// ---------------------------------------------------------------------------
// The region
// ---------------------------------------------------------------------------

/// The number of the first `count` calls that selected instructions make.
pub open spec fn chosen_calls(list: Seq<SdkApiCall>, selected: Seq<Rva>, count: int) -> nat
    decreases count,
{
    if count <= 0 {
        0
    } else {
        chosen_calls(list, selected, count - 1) + if selected.contains(list[count - 1].call_rva) {
            1nat
        } else {
            0
        }
    }
}

/// Counts depend on what is counted alone.
proof fn lemma_chosen_front(list: Seq<SdkApiCall>, selected: Seq<Rva>, count: int)
    requires
        0 <= count < list.len(),
    ensures
        chosen_calls(list.drop_last(), selected, count) == chosen_calls(list, selected, count),
    decreases count,
{
    if count > 0 {
        lemma_chosen_front(list, selected, count - 1);
    }
}

/// The calls of a region are as many as selected instructions make.
proof fn lemma_calls_length(list: Seq<SdkApiCall>, selected: Seq<Rva>)
    ensures
        sdk::selected_calls(list, selected).len() == chosen_calls(
            list,
            selected,
            list.len() as int,
        ),
    decreases list.len(),
{
    reveal(Seq::filter);
    if list.len() > 0 {
        let last = list.len() - 1;
        lemma_calls_length(list.drop_last(), selected);
        lemma_chosen_front(list, selected, last);
        assert(list.last() == list[last]);
    }
}

/// Call `i`, where a selected instruction makes it, is a call of the region.
proof fn lemma_call_is_chosen(list: Seq<SdkApiCall>, selected: Seq<Rva>, i: int)
    requires
        0 <= i < list.len(),
        selected.contains(list[i].call_rva),
    ensures
        chosen_calls(list, selected, i) < sdk::selected_calls(list, selected).len(),
        sdk::selected_calls(list, selected)[chosen_calls(list, selected, i) as int] == list[i],
    decreases list.len(),
{
    reveal(Seq::filter);
    let front = list.drop_last();
    let last = list.len() - 1;
    lemma_calls_length(front, selected);
    lemma_chosen_front(list, selected, last);
    lemma_chosen_front(list, selected, i);
    assert(list.last() == list[last]);
    if i < last {
        assert(front[i] == list[i]);
        lemma_call_is_chosen(front, selected, i);
    }
}

/// A marker is found at an address exactly where one starts there, and it is the
/// first that does.
proof fn lemma_marker_at(ends: Seq<MarkerSite>, rva: Rva)
    ensures
        match sdk::marker_at(ends, rva) {
            Some(marker) => exists|e: int|
                0 <= e < ends.len() && #[trigger] ends[e] == marker && starts_at(marker, rva)
                    && forall|f: int| 0 <= f < e ==> !starts_at(#[trigger] ends[f], rva),
            None => forall|e: int| 0 <= e < ends.len() ==> !starts_at(#[trigger] ends[e], rva),
        },
    decreases ends.len(),
{
    if ends.len() > 0 && !starts_at(ends[0], rva) {
        let rest = ends.drop_first();
        lemma_marker_at(rest, rva);
        match sdk::marker_at(rest, rva) {
            Some(marker) => {
                let e = choose|e: int|
                    0 <= e < rest.len() && #[trigger] rest[e] == marker && starts_at(marker, rva)
                        && forall|f: int| 0 <= f < e ==> !starts_at(#[trigger] rest[f], rva);
                assert(ends[e + 1] == marker);
                assert forall|f: int| 0 <= f < e + 1 implies !starts_at(
                    #[trigger] ends[f],
                    rva,
                ) by {
                    if f > 0 {
                        assert(ends[f] == rest[f - 1]);
                    }
                }
            },
            None => {
                assert forall|e: int| 0 <= e < ends.len() implies !starts_at(
                    #[trigger] ends[e],
                    rva,
                ) by {
                    if e > 0 {
                        assert(ends[e] == rest[e - 1]);
                    }
                }
            },
        }
    }
}

/// The marker, with the load that belongs to it, starts at the address.
pub open spec fn starts_at(marker: MarkerSite, rva: Rva) -> bool {
    match marker.load {
        Some(load) => load == rva,
        None => marker.call == rva,
    }
}

/// The closing marker at an end that was reached is the first that starts there, and
/// a load that belongs to it is the neighbour of its call.
proof fn lemma_reached(
    function: Function,
    ends: Seq<MarkerSite>,
    reached: Seq<Rva>,
    i: int,
)
    requires
        sdk::reached_sites(function, ends, reached) is Ok,
        0 <= i < reached.len(),
    ensures
        sdk::reached_sites(function, ends, reached)->Ok_0.len() == reached.len(),
        sdk::marker_at(ends, reached[i]) == Some(
            sdk::reached_sites(function, ends, reached)->Ok_0[i],
        ),
        sdk::span_problem(function, sdk::reached_sites(function, ends, reached)->Ok_0[i]) is None,
    decreases reached.len(),
{
    let front = reached.drop_last();
    let last = reached.len() - 1;
    assert(reached.last() == reached[last]);
    if i < last {
        lemma_reached(function, ends, front, i);
        assert(front[i] == reached[i]);
    } else if last > 0 {
        lemma_reached(function, ends, front, 0);
    }
}

/// What a plan holds of a recovered region: all of its instructions, in which anything
/// may be rewritten or inserted; every interface call that one of them makes, in
/// order, and no other; and for each end that was reached the first closing marker
/// that starts there.
pub proof fn lemma_plan_holds_whole_region<R>(
    g: Grants,
    asked: nat,
    covering: Covering,
    list: Vec<SdkApiCall>,
    end_starts: Vec<Rva>,
    found: MarkerRegion,
    site: SdkSite,
    ends: Seq<MarkerSite>,
    next: SdkPreparing<R>,
    asked1: nat,
    i: int,
)
    requires
        sdk::advances(
            g,
            asked,
            SdkPreparing::<R>::RecoverRegion { covering, calls: list, end_starts },
            SdkEvent::Region(Ok(found)),
            site,
            ends,
            next,
            asked1,
        ),
        next is FindEpilogues,
    ensures
        ({
            let plan = next->FindEpilogues_plan;
            let selected = found.instructions@;
            &&& plan.selected@ == selected
            &&& plan.insertion_points@ == selected
            &&& plan.mutation_targets@ == selected
            &&& plan.calls@.len() == chosen_calls(list@, selected, list@.len() as int)
            &&& 0 <= i < list@.len() && selected.contains(list@[i].call_rva) ==> chosen_calls(
                list@,
                selected,
                i,
            ) < plan.calls@.len() && plan.calls@[chosen_calls(list@, selected, i) as int]
                == list@[i]
            &&& 0 <= i < found.reached_ends@.len() ==> {
                &&& plan.sites@.len() == found.reached_ends@.len()
                &&& starts_at(plan.sites@[i], found.reached_ends@[i])
                &&& exists|e: int|
                    0 <= e < ends.len() && #[trigger] ends[e] == plan.sites@[i] && forall|f: int|
                        0 <= f < e ==> !starts_at(#[trigger] ends[f], found.reached_ends@[i])
                &&& plan.sites@[i].load is Some ==> are_neighbours(
                    covering.function,
                    plan.sites@[i].load->0,
                    plan.sites@[i].call,
                )
            }
        }),
{
    let plan = next->FindEpilogues_plan;
    let selected = found.instructions@;
    lemma_calls_length(list@, selected);
    if 0 <= i < list@.len() && selected.contains(list@[i].call_rva) {
        lemma_call_is_chosen(list@, selected, i);
    }
    if 0 <= i < found.reached_ends@.len() {
        lemma_reached(covering.function, ends, found.reached_ends@, i);
        lemma_marker_at(ends, found.reached_ends@[i]);
        lemma_span(covering.function, plan.sites@[i]);
    }
}

/// A region goes on to be rewritten only where every block of its function is guarded:
/// it is entered through its opening marker alone. The marker calls that are taken
/// out are those of all closing markers.
pub proof fn lemma_only_guarded_regions_go_on<R>(
    g: Grants,
    asked: nat,
    covering: Covering,
    plan: RegionPlan,
    epilogues: Vec<Epilogue>,
    site: SdkSite,
    ends: Seq<MarkerSite>,
    next: SdkPreparing<R>,
    asked1: nat,
)
    requires
        sdk::advances(
            g,
            asked,
            SdkPreparing::<R>::FindEpilogues { covering, plan },
            SdkEvent::Epilogues(epilogues),
            site,
            ends,
            next,
            asked1,
        ),
    ensures
        ({
            let guarded = forall|b: int|
                0 <= b < covering.function.blocks@.len() ==> laws::block_is_guarded(
                    covering.function,
                    #[trigger] covering.function.blocks@[b],
                    site.begin.call,
                    site.begin.next,
                    plan.selected@,
                    epilogues@,
                );
            &&& next is Neutralize ==> guarded
            &&& guarded && (forall|n: nat, size: nat| #[trigger] g(n, size)) ==> next is Neutralize
            &&& next is Neutralize ==> {
                let end_sites = next->end_sites;
                &&& end_sites@.len() == plan.sites@.len()
                &&& forall|i: int|
                    0 <= i < plan.sites@.len() ==> (#[trigger] end_sites@[i]).0
                        == plan.sites@[i].call && end_sites@[i].1 == plan.sites@[i].load
            }
        }),
{
    laws::lemma_region_accepted_where_guarded(
        covering.function,
        site.begin.call,
        site.begin.next,
        plan.selected@,
        epilogues@,
    );
}

// ---------------------------------------------------------------------------
// Epilogues
// ---------------------------------------------------------------------------

/// Some selected instruction stands in the epilogue.
pub open spec fn is_touched(
    list: Seq<InstructionView>,
    range: Epilogue,
    selected: Seq<Rva>,
) -> bool {
    exists|i: int|
        0 <= i < list.len() && moving::stands_in(#[trigger] list[i], range) && laws::chosen(
            list[i],
            selected,
        )
}

/// Every instruction that stands in the epilogue is selected.
pub open spec fn is_inside(
    list: Seq<InstructionView>,
    range: Epilogue,
    selected: Seq<Rva>,
) -> bool {
    forall|i: int|
        0 <= i < list.len() && moving::stands_in(#[trigger] list[i], range) ==> laws::chosen(
            list[i],
            selected,
        )
}

/// Counting the selected instructions of an epilogue tells whether it is touched, and
/// whether it lies inside.
proof fn lemma_epilogue_count(
    list: Seq<InstructionView>,
    range: Epilogue,
    selected: Seq<Rva>,
)
    ensures
        ({
            let run = layout::epilogue_code(list, range);
            let count = sdk::selected_count(run, selected);
            &&& count <= run.len()
            &&& (count > 0) == is_touched(list, range, selected)
            &&& (count == run.len()) == is_inside(list, range, selected)
        }),
    decreases list.len(),
{
    reveal(Seq::filter);
    let run = layout::epilogue_code(list, range);
    let count = sdk::selected_count(run, selected);
    if list.len() > 0 {
        let front = list.drop_last();
        let last = list.len() - 1;
        let before = layout::epilogue_code(front, range);
        lemma_epilogue_count(front, range, selected);
        assert(list.last() == list[last]);
        let here = moving::stands_in(list[last], range);
        let taken = laws::chosen(list[last], selected);
        assert(here == layout::inside(list[last], range));
        assert(taken == region::is_selected(list[last], selected));
        if here {
            assert(run =~= before.push(list[last]));
            assert(run.drop_last() =~= before);
            assert(run.last() == list[last]);
        } else {
            assert(run == before);
        }
        if is_touched(front, range, selected) {
            let i = choose|i: int|
                0 <= i < front.len() && moving::stands_in(#[trigger] front[i], range)
                    && laws::chosen(front[i], selected);
            assert(list[i] == front[i]);
        }
        if is_touched(list, range, selected) {
            let i = choose|i: int|
                0 <= i < list.len() && moving::stands_in(#[trigger] list[i], range)
                    && laws::chosen(list[i], selected);
            if i < last {
                assert(front[i] == list[i]);
            }
        }
        if is_inside(list, range, selected) {
            assert forall|i: int|
                0 <= i < front.len() && moving::stands_in(
                    #[trigger] front[i],
                    range,
                ) implies laws::chosen(front[i], selected) by {
                assert(front[i] == list[i]);
            }
        }
        if is_inside(front, range, selected) && (here ==> taken) {
            assert forall|i: int|
                0 <= i < list.len() && moving::stands_in(
                    #[trigger] list[i],
                    range,
                ) implies laws::chosen(list[i], selected) by {
                if i < last {
                    assert(front[i] == list[i]);
                }
            }
        }
        assert(is_inside(list, range, selected) == (is_inside(front, range, selected) && (here
            ==> taken)));
        assert(is_touched(list, range, selected) == (is_touched(front, range, selected) || (here
            && taken)));
    }
}

/// The epilogues of a region are those that it touches, and it touches none in part.
proof fn lemma_selected_epilogues(
    list: Seq<InstructionView>,
    found: Seq<Epilogue>,
    selected: Seq<Rva>,
)
    ensures
        (sdk::selected_epilogues(list, found, selected) is Ok) == (forall|e: int|
            0 <= e < found.len() ==> (is_touched(list, #[trigger] found[e], selected) ==> is_inside(
                list,
                found[e],
                selected,
            ))),
        sdk::selected_epilogues(list, found, selected) matches Ok(chosen) ==> {
            &&& forall|e: int|
                0 <= e < found.len() && is_touched(list, #[trigger] found[e], selected)
                    ==> chosen.contains(found[e])
            &&& forall|k: int|
                0 <= k < chosen.len() ==> found.contains(#[trigger] chosen[k]) && is_touched(
                    list,
                    chosen[k],
                    selected,
                )
        },
    decreases found.len(),
{
    if found.len() > 0 {
        let front = found.drop_last();
        let last = found.len() - 1;
        let range = found[last];
        lemma_selected_epilogues(list, front, selected);
        lemma_epilogue_count(list, range, selected);
        assert(found.last() == range);
        let fine = forall|e: int|
            0 <= e < found.len() ==> (is_touched(list, #[trigger] found[e], selected) ==> is_inside(
                list,
                found[e],
                selected,
            ));
        let front_fine = forall|e: int|
            0 <= e < front.len() ==> (is_touched(list, #[trigger] front[e], selected) ==> is_inside(
                list,
                front[e],
                selected,
            ));
        if fine {
            assert forall|e: int| 0 <= e < front.len() implies (is_touched(
                list,
                #[trigger] front[e],
                selected,
            ) ==> is_inside(list, front[e], selected)) by {
                assert(front[e] == found[e]);
            }
        }
        if front_fine && (is_touched(list, range, selected) ==> is_inside(list, range, selected)) {
            assert forall|e: int| 0 <= e < found.len() implies (is_touched(
                list,
                #[trigger] found[e],
                selected,
            ) ==> is_inside(list, found[e], selected)) by {
                if e < last {
                    assert(front[e] == found[e]);
                }
            }
        }
        if sdk::selected_epilogues(list, found, selected) is Ok {
            let chosen = sdk::selected_epilogues(list, found, selected)->Ok_0;
            let before = sdk::selected_epilogues(list, front, selected)->Ok_0;
            assert forall|e: int|
                0 <= e < found.len() && is_touched(
                    list,
                    #[trigger] found[e],
                    selected,
                ) implies chosen.contains(found[e]) by {
                if e < last {
                    assert(front[e] == found[e]);
                    assert(before.contains(front[e]));
                    let k = choose|k: int| 0 <= k < before.len() && before[k] == front[e];
                    assert(chosen[k] == found[e]);
                } else {
                    assert(chosen[before.len() as int] == range);
                }
            }
            assert forall|k: int| 0 <= k < chosen.len() implies found.contains(
                #[trigger] chosen[k],
            ) && is_touched(list, chosen[k], selected) by {
                if k < before.len() {
                    assert(chosen[k] == before[k]);
                    assert(front.contains(before[k]));
                    let e = choose|e: int| 0 <= e < front.len() && front[e] == before[k];
                    assert(found[e] == chosen[k]);
                } else {
                    assert(found[last] == chosen[k]);
                }
            }
        }
    }
}

/// Before a region is rewritten, every epilogue of its function is frozen, and nothing
/// else. The epilogues that go with the region are those of which some instruction is
/// selected; all of their instructions are. A region that takes a part of an epilogue
/// goes no further.
pub proof fn lemma_every_epilogue_is_frozen<R>(
    g: Grants,
    asked: nat,
    covering: Covering,
    plan: RegionPlan,
    found: Vec<Epilogue>,
    site: SdkSite,
    ends: Seq<MarkerSite>,
    next: SdkPreparing<R>,
    asked1: nat,
)
    requires
        sdk::advances(
            g,
            asked,
            SdkPreparing::<R>::FindFrozen { covering, plan },
            SdkEvent::Epilogues(found),
            site,
            ends,
            next,
            asked1,
        ),
    ensures
        ({
            let list = covering.function.code();
            let whole = forall|e: int|
                0 <= e < found@.len() ==> (is_touched(list, #[trigger] found@[e], plan.selected@)
                    ==> is_inside(list, found@[e], plan.selected@));
            &&& next is Mutate ==> whole
            &&& whole && (forall|n: nat, size: nat| #[trigger] g(n, size)) ==> next is Mutate
            &&& next is Mutate ==> {
                let frozen = next->frozen;
                let epilogues = next->Mutate_epilogues;
                &&& frozen@.len() == found@.len()
                &&& forall|e: int|
                    0 <= e < found@.len() ==> (#[trigger] frozen@[e]).0 == found@[e].begin
                        && frozen@[e].1 == found@[e].end
                &&& forall|e: int|
                    0 <= e < found@.len() && is_touched(list, #[trigger] found@[e], plan.selected@)
                        ==> epilogues@.contains(found@[e])
                &&& forall|k: int|
                    0 <= k < epilogues@.len() ==> found@.contains(#[trigger] epilogues@[k])
                        && is_touched(list, epilogues@[k], plan.selected@)
            }
        }),
{
    lemma_selected_epilogues(covering.function.code(), found@, plan.selected@);
}

// ---------------------------------------------------------------------------
// The slice
// ---------------------------------------------------------------------------

/// What is moved of a rewritten region is the whole region: every instruction of every
/// block that goes with it. Out of each closing marker a near jump leads to what
/// follows the marker. No instruction that is moved holds an absolute address.
pub proof fn lemma_whole_region_is_moved<R>(
    g: Grants,
    asked: nat,
    covering: Covering,
    plan: RegionPlan,
    epilogues: Vec<Epilogue>,
    frozen: Vec<(Rva, Rva)>,
    function: Function,
    report: R,
    noop: bool,
    site: SdkSite,
    ends: Seq<MarkerSite>,
    next: SdkPreparing<R>,
    asked1: nat,
    b: int,
    i: int,
    c: int,
    k: int,
)
    requires
        sdk::advances(
            g,
            asked,
            SdkPreparing::<R>::Mutate { covering, plan, epilogues, frozen },
            SdkEvent::Mutated(Ok((function, report, noop))),
            site,
            ends,
            next,
            asked1,
        ),
        next is Relocate,
    ensures
        ({
            let code = next->slice.code();
            let start = match plan.sites@[c].load {
                Some(load) => load,
                None => plan.sites@[c].call,
            };
            &&& !noop
            &&& next->Relocate_plan == plan
            &&& next->Relocate_epilogues == epilogues
            &&& next->report == report
            &&& next->Relocate_covering.function == function
            &&& next->Relocate_covering.range == covering.range
            &&& next->Relocate_covering.unwind == covering.unwind
            &&& next->slice.entry == site.begin.next
            &&& plan.selected@.contains(site.begin.next)
            &&& 0 <= b < function.blocks@.len() && 0 <= i < function.blocks@[b].instructions@.len()
                && marking::goes_along(
                code::views(function.blocks@[b].instructions@),
                plan.selected@,
                i,
            ) ==> code.contains(function.blocks@[b].instructions@[i]@)
            &&& 0 <= c < plan.sites@.len() ==> exists|m: int|
                0 <= m < code.len() && marking::jumps(
                    #[trigger] code[m],
                    start,
                    plan.sites@[c].next,
                )
            &&& 0 <= k < code.len() ==> forall|m: int|
                0 <= m < code[k].refs.len() ==> !(#[trigger] code[k].refs[m] is Absolute)
        }),
{
    let code = next->slice.code();
    let continuations = plan.continuations();
    let entry = site.begin.next;
    let view = slice::slice_view(function, entry, plan.selected@, continuations)->Ok_0;
    slice::lemma_slice_code(next->slice, view);
    if 0 <= b < function.blocks@.len() && 0 <= i < function.blocks@[b].instructions@.len()
        && marking::goes_along(
        code::views(function.blocks@[b].instructions@),
        plan.selected@,
        i,
    ) {
        marking::lemma_slice_holds_whole_region(
            function,
            entry,
            plan.selected@,
            continuations,
            b,
            i,
        );
    }
    if 0 <= c < plan.sites@.len() {
        marking::lemma_slice_leads_out(function, entry, plan.selected@, continuations, c);
        let m = choose|m: int|
            0 <= m < view.code.len() && marking::jumps(
                #[trigger] view.code[m],
                continuations[c].0,
                continuations[c].1,
            );
        assert(marking::jumps(code[m], continuations[c].0, continuations[c].1));
    }
    if 0 <= k < code.len() {
        assert(!code[k].has_absolute());
        assert forall|m: int| 0 <= m < code[k].refs.len() implies !(
        #[trigger] code[k].refs[m] is Absolute) by {}
    }
}

// ---------------------------------------------------------------------------
// A run
// ---------------------------------------------------------------------------

/// The function that is found at an address is the first whose extent holds the
/// address, and none is found where no extent does.
pub proof fn lemma_function_at_covers(functions: Seq<RuntimeFunction>, rva: Rva)
    ensures
        match sdk_run::function_at(functions, rva) {
            Some(found) => exists|f: int|
                0 <= f < functions.len() && #[trigger] functions[f] == found && found.begin.0
                    <= rva.0 < found.end.0 && forall|h: int|
                    0 <= h < f ==> !((#[trigger] functions[h]).begin.0 <= rva.0
                        < functions[h].end.0),
            None => forall|f: int|
                0 <= f < functions.len() ==> !((#[trigger] functions[f]).begin.0 <= rva.0
                    < functions[f].end.0),
        },
    decreases functions.len(),
{
    if functions.len() > 0 && !(functions[0].begin.0 <= rva.0 < functions[0].end.0) {
        let rest = functions.drop_first();
        lemma_function_at_covers(rest, rva);
        match sdk_run::function_at(rest, rva) {
            Some(found) => {
                let f = choose|f: int|
                    0 <= f < rest.len() && #[trigger] rest[f] == found && found.begin.0 <= rva.0
                        < found.end.0 && forall|h: int|
                        0 <= h < f ==> !((#[trigger] rest[h]).begin.0 <= rva.0 < rest[h].end.0);
                assert(functions[f + 1] == found);
                assert forall|h: int| 0 <= h < f + 1 implies !((
                #[trigger] functions[h]).begin.0 <= rva.0 < functions[h].end.0) by {
                    if h > 0 {
                        assert(functions[h] == rest[h - 1]);
                    }
                }
            },
            None => {
                assert forall|f: int| 0 <= f < functions.len() implies !((
                #[trigger] functions[f]).begin.0 <= rva.0 < functions[f].end.0) by {
                    if f > 0 {
                        assert(functions[f] == rest[f - 1]);
                    }
                }
            },
        }
    }
}

/// A marker selects its function exactly where it asks for no lock and for the usual
/// kind of rewriting, some function holds it, no region of that function was moved
/// before, and the next aligned place has an address.
pub proof fn lemma_selection_is_first_of_its_function<R>(
    run: SdkRun<R>,
    begin: BeginMarker,
    functions: Seq<RuntimeFunction>,
)
    ensures
        ({
            let found = sdk_run::function_at(functions, begin.site.call);
            let place = layout::aligned(run.code@.len() as int, 16);
            &&& (run.selection(begin, functions) is Ok) == {
                &&& !begin.lock_to_key
                &&& begin.compilation_type == MarkerCompilationType::Default
                    || begin.compilation_type == MarkerCompilationType::Mutation
                &&& found is Some
                &&& forall|i: int|
                    0 <= i < run.outcome@.len() ==> (#[trigger] run.outcome@[i]).function != (
                    found->0).begin
                &&& run.code@.len() + 15 <= u32::MAX
                &&& run.code_rva.0 + place <= u32::MAX
            }
            &&& run.selection(begin, functions) matches Ok(selection) ==> {
                &&& selection.runtime == found->0
                &&& selection.offset == place
                &&& selection.site.entry == (found->0).begin
                &&& selection.site.placement.0 == run.code_rva.0 + place
                &&& selection.site.begin == begin.site
            }
        }),
{
    layout::lemma_aligned(run.code@.len() as int, 16);
}

/// Taking a region in keeps all code that was there, fills the gap in front of the new
/// code with breakpoints, and puts the new code behind it byte for byte. The jump
/// that is noted goes from the start of the marker to the copy, over the whole marker.
pub proof fn lemma_accepting_a_region_appends<R>(
    run: SdkRun<R>,
    selected: Selection,
    done: SdkReady<R>,
    after: SdkRun<R>,
)
    requires
        run.accepts(selected, done, after),
        run.code@.len() <= selected.offset,
        done.ready.protected.original.0 <= selected.site.begin.next.0,
    ensures
        after.code_rva == run.code_rva,
        after.code@.len() == selected.offset + done.ready.bytes@.len(),
        forall|i: int| 0 <= i < run.code@.len() ==> #[trigger] after.code@[i] == run.code@[i],
        forall|i: int|
            run.code@.len() <= i < selected.offset ==> #[trigger] after.code@[i] == 0xcc,
        forall|i: int|
            0 <= i < done.ready.bytes@.len() ==> after.code@[selected.offset + i]
                == #[trigger] done.ready.bytes@[i],
        after.stubs@.len() == run.stubs@.len() + 1,
        after.stubs@.take(run.stubs@.len() as int) == run.stubs@,
        ({
            let stub = after.stubs@[run.stubs@.len() as int];
            stub.from == done.ready.protected.original && stub.to == selected.site.placement
                && stub.from.0 + stub.span_len == selected.site.begin.next.0
        }),
        after.runtime_functions@.len() == run.runtime_functions@.len() + 1,
        after.runtime_functions@.take(run.runtime_functions@.len() as int)
            == run.runtime_functions@,
        after.runtime_functions@[run.runtime_functions@.len() as int]
            == done.ready.runtime_function,
        after.outcome@.len() == run.outcome@.len() + 1,
        after.outcome@.take(run.outcome@.len() as int) == run.outcome@,
        ({
            let account = after.outcome@[run.outcome@.len() as int];
            &&& account.begin == selected.site.begin.call
            &&& account.function == selected.runtime.begin
            &&& account.relocated == done.ready.protected.relocated
            &&& account.length == done.ready.protected.length
            &&& account.reached_ends == done.reached_ends
            &&& account.sdk_stubs == done.sdk_stubs
            &&& account.report == done.ready.protected.report
        }),
{
}

/// The walk from an opening marker is told of every closing marker of the image: where
/// each of them starts, with the load that belongs to it.
pub proof fn lemma_every_closing_marker_ends_the_walk<R>(
    g: Grants,
    asked: nat,
    covering: Covering,
    found: Vec<SdkApiCall>,
    site: SdkSite,
    ends: Seq<MarkerSite>,
    next: SdkPreparing<R>,
    asked1: nat,
)
    requires
        sdk::advances(
            g,
            asked,
            SdkPreparing::<R>::FindCalls { covering },
            SdkEvent::Calls(Ok(found)),
            site,
            ends,
            next,
            asked1,
        ),
    ensures
        next is RecoverRegion || next is Failed,
        (forall|n: nat, size: nat| #[trigger] g(n, size)) ==> next is RecoverRegion,
        next is RecoverRegion ==> {
            let starts = next->end_starts@;
            &&& next->RecoverRegion_covering == covering
            &&& next->calls == found
            &&& starts.len() == ends.len()
            &&& forall|i: int|
                0 <= i < ends.len() ==> starts_at(ends[i], #[trigger] starts[i])
        },
{
}

/// Taking the marker calls out changes the function alone: how it is unwound and what is
/// known of the region stay.
pub proof fn lemma_neutralizing_changes_the_function_alone<R>(
    g: Grants,
    asked: nat,
    covering: Covering,
    plan: RegionPlan,
    end_sites: Vec<(Rva, Option<Rva>)>,
    function: Function,
    site: SdkSite,
    ends: Seq<MarkerSite>,
    next: SdkPreparing<R>,
    asked1: nat,
)
    requires
        sdk::advances(
            g,
            asked,
            SdkPreparing::<R>::Neutralize { covering, plan, end_sites },
            SdkEvent::Neutralized(Ok(function)),
            site,
            ends,
            next,
            asked1,
        ),
    ensures
        next is FindFrozen,
        next->FindFrozen_plan == plan,
        next->FindFrozen_covering.function == function,
        next->FindFrozen_covering.range == covering.range,
        next->FindFrozen_covering.unwind == covering.unwind,
{
}

} // verus!
