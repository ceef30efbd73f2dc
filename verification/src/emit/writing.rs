//! What a rewritten image holds once every edit was made.

use vstd::prelude::*;

use crate::emit::address;
use crate::emit::address::Rva;
use crate::emit::calls;
use crate::emit::code::{Epilogue, Function};
use crate::emit::decoder;
use crate::emit::linking;
use crate::emit::markers::EndPatch;
use crate::emit::memory::Grants;
use crate::emit::relocated::Relocated;
use crate::emit::rewrite;
use crate::emit::rewrite::{Edit, Located, Planned};
use crate::emit::sdk;
use crate::emit::sdk::{Covering, RegionPlan, SdkEvent, SdkPreparing, SdkSite};
use crate::emit::markers::MarkerSite;
use crate::emit::stub;
use crate::emit::stub::Stub;

verus! {

// ---------------------------------------------------------------------------
// Edits
// ---------------------------------------------------------------------------

/// Everything is planned: each jump, then the patch of each closing marker, then each
/// name, in order, and nothing else.
pub proof fn lemma_everything_is_planned(
    stubs: Seq<Stub>,
    patches: Seq<EndPatch>,
    names: Seq<(Rva, u32)>,
)
    ensures
        ({
            let plan = rewrite::planned(stubs, patches, names);
            &&& plan.len() == stubs.len() + patches.len() + names.len()
            &&& forall|i: int|
                0 <= i < stubs.len() ==> plan[i] == Planned::Jump(#[trigger] stubs[i])
            &&& forall|i: int|
                0 <= i < patches.len() ==> plan[stubs.len() + i] == Planned::End(
                    #[trigger] patches[i],
                )
            &&& forall|i: int|
                0 <= i < names.len() ==> plan[stubs.len() + patches.len() + i] == Planned::Name(
                    (#[trigger] names[i]).0,
                    names[i].1,
                )
        }),
{
}

/// Each planned edit keeps its place when the places are found.
pub proof fn lemma_every_edit_has_its_place(plan: Seq<Planned>, located: Seq<Located>, i: int)
    requires
        0 <= i < plan.len(),
    ensures
        rewrite::edits_at(plan, located).len() == plan.len(),
        match (plan[i], rewrite::edits_at(plan, located)[i]) {
            (Planned::Jump(stub), Edit::Jump { stub: stub1, offset, last_offset }) => stub1 == stub
                && offset == located[i].offset && last_offset == located[i].last_offset,
            (Planned::End(patch), Edit::End { patch: patch1, offset }) => patch1 == patch && offset
                == located[i].offset,
            (
                Planned::Name(rva, length),
                Edit::Name { rva: rva1, length: length1, offset },
            ) => rva1 == rva && length1 == length && offset == located[i].offset,
            _ => false,
        },
{
}

/// Where an edit starts, and how many bytes it writes.
pub open spec fn span_of(edit: Edit) -> (int, int) {
    match edit {
        Edit::Jump { stub, offset, last_offset } => (offset->Ok_0 as int, 5),
        Edit::End { patch, offset } => (
            offset->Ok_0 as int,
            match patch {
                EndPatch::StaticPayload { rva, length } => length as int,
                EndPatch::ApiSpan { rva, length } => length as int,
            },
        ),
        Edit::Name { rva, length, offset } => (offset->Ok_0 as int, length as int),
    }
}

/// The edit can be made in `len` bytes: its place was found, lies in the file, and a
/// jump reaches from there.
pub open spec fn can_be_made(edit: Edit, len: nat) -> bool {
    match edit {
        Edit::Jump { stub, offset, last_offset } => {
            &&& offset is Ok
            &&& last_offset is Ok
            &&& stub.span_len >= 5
            &&& offset->Ok_0 + stub.span_len <= usize::MAX
            &&& offset->Ok_0 + stub.span_len <= len
            &&& stub.from.0 + stub.span_len - 1 <= u32::MAX
            &&& last_offset->Ok_0 == offset->Ok_0 + stub.span_len - 1
            &&& stub.from.0 + 5 <= u32::MAX
            &&& -0x8000_0000 <= stub.to.0 - (stub.from.0 + 5) <= 0x7fff_ffff
        },
        Edit::End { patch, offset } => offset is Ok && span_of(edit).0 + span_of(edit).1
            <= usize::MAX && span_of(edit).0 + span_of(edit).1 <= len,
        Edit::Name { rva, length, offset } => offset is Ok && span_of(edit).0 + span_of(edit).1
            <= usize::MAX && span_of(edit).0 + span_of(edit).1 <= len,
    }
}

/// What an edit writes over byte `i` of its span: a closing call becomes instructions
/// that do nothing, the payload of a spelled marker and a name become zeros, and the
/// start of a span becomes a near jump.
pub open spec fn written_byte(edit: Edit, i: int) -> u8 {
    match edit {
        Edit::Jump { stub, offset, last_offset } => decoder::near_jump(
            stub.to.0 - (stub.from.0 + 5),
        )[i - offset->Ok_0],
        Edit::End { patch, offset } => match patch {
            EndPatch::StaticPayload { rva, length } => 0,
            EndPatch::ApiSpan { rva, length } => 0x90,
        },
        Edit::Name { rva, length, offset } => 0,
    }
}

/// One edit is made exactly where it can be, and changes its span alone.
proof fn lemma_one_edit(data: Seq<u8>, edit: Edit)
    ensures
        (rewrite::edited(data, edit) is Ok) == can_be_made(edit, data.len()),
        rewrite::edited(data, edit) matches Ok(after) ==> {
            let (start, length) = span_of(edit);
            &&& after.len() == data.len()
            &&& start + length <= data.len()
            &&& forall|i: int|
                0 <= i < data.len() ==> #[trigger] after[i] == (if start <= i < start + length {
                    written_byte(edit, i)
                } else {
                    data[i]
                })
        },
{
    match edit {
        Edit::Jump { stub, offset, last_offset } => {
            assert(decoder::near_jump(stub.distance()).len() == 5);
        },
        Edit::End { patch, offset } => {},
        Edit::Name { rva, length, offset } => {},
    }
}

/// All edits are made exactly where each of them can be. They keep the length of the
/// image, and every byte holds what the last edit that covers it wrote, or what was
/// there where none does.
pub proof fn lemma_every_edit_is_made(data: Seq<u8>, edits: Seq<Edit>)
    ensures
        (rewrite::all_edited(data, edits).1 is None) == (forall|k: int|
            0 <= k < edits.len() ==> can_be_made(#[trigger] edits[k], data.len())),
        rewrite::all_edited(data, edits).1 is None ==> {
            let after = rewrite::all_edited(data, edits).0;
            &&& after.len() == data.len()
            &&& forall|i: int, k: int|
                0 <= i < data.len() && 0 <= k < edits.len() && #[trigger] is_last_over(edits, k, i)
                    ==> after[i] == written_byte(edits[k], i)
            &&& forall|i: int|
                0 <= i < data.len() && (forall|k: int|
                    0 <= k < edits.len() ==> !covers(#[trigger] edits[k], i))
                    ==> #[trigger] after[i] == data[i]
        },
    decreases edits.len(),
{
    if edits.len() > 0 {
        let rest = edits.drop_first();
        lemma_one_edit(data, edits[0]);
        let all = forall|k: int|
            0 <= k < edits.len() ==> can_be_made(#[trigger] edits[k], data.len());
        if all {
            assert(can_be_made(edits[0], data.len()));
        }
        if rewrite::edited(data, edits[0]) is Ok {
            let first = rewrite::edited(data, edits[0])->Ok_0;
            lemma_every_edit_is_made(first, rest);
            if all {
                assert forall|k: int| 0 <= k < rest.len() implies can_be_made(
                    #[trigger] rest[k],
                    data.len(),
                ) by {
                    assert(rest[k] == edits[k + 1]);
                }
            }
            if forall|k: int| 0 <= k < rest.len() ==> can_be_made(#[trigger] rest[k], data.len()) {
                assert forall|k: int| 0 <= k < edits.len() implies can_be_made(
                    #[trigger] edits[k],
                    data.len(),
                ) by {
                    if k > 0 {
                        assert(edits[k] == rest[k - 1]);
                    }
                }
            }
            let after = rewrite::all_edited(data, edits).0;
            if rewrite::all_edited(data, edits).1 is None {
                assert forall|i: int, k: int|
                    0 <= i < data.len() && 0 <= k < edits.len() && #[trigger] is_last_over(
                        edits,
                        k,
                        i,
                    ) implies after[i] == written_byte(edits[k], i) by {
                    if k > 0 {
                        assert(rest[k - 1] == edits[k]);
                        assert forall|m: int| k - 1 < m < rest.len() implies !covers(
                            #[trigger] rest[m],
                            i,
                        ) by {
                            assert(rest[m] == edits[m + 1]);
                        }
                        assert(is_last_over(rest, k - 1, i));
                    } else {
                        assert forall|m: int| 0 <= m < rest.len() implies !covers(
                            #[trigger] rest[m],
                            i,
                        ) by {
                            assert(rest[m] == edits[m + 1]);
                        }
                        assert(after[i] == first[i]);
                    }
                }
                assert forall|i: int|
                    0 <= i < data.len() && (forall|k: int|
                        0 <= k < edits.len() ==> !covers(
                            #[trigger] edits[k],
                            i,
                        )) implies #[trigger] after[i] == data[i] by {
                    assert forall|m: int| 0 <= m < rest.len() implies !covers(
                        #[trigger] rest[m],
                        i,
                    ) by {
                        assert(rest[m] == edits[m + 1]);
                    }
                    assert(!covers(edits[0], i));
                    assert(after[i] == first[i]);
                }
            }
        }
    }
}

/// Byte `i` lies in the span of the edit.
pub open spec fn covers(edit: Edit, i: int) -> bool {
    span_of(edit).0 <= i < span_of(edit).0 + span_of(edit).1
}

/// Edit `k` is the last that covers byte `i`.
pub open spec fn is_last_over(edits: Seq<Edit>, k: int, i: int) -> bool {
    covers(edits[k], i) && forall|m: int| k < m < edits.len() ==> !covers(#[trigger] edits[m], i)
}

/// Every jump that was planned leads to its copy once all edits were made, unless a
/// later edit was made over it.
pub proof fn lemma_every_jump_leads_to_its_copy(data: Seq<u8>, edits: Seq<Edit>, k: int)
    requires
        rewrite::all_edited(data, edits).1 is None,
        0 <= k < edits.len(),
        edits[k] is Jump,
        forall|m: int|
            k < m < edits.len() ==> {
                let other = span_of(#[trigger] edits[m]);
                let own = span_of(edits[k]);
                other.0 + other.1 <= own.0 || own.0 + own.1 <= other.0
            },
    ensures
        ({
            let after = rewrite::all_edited(data, edits).0;
            let offset = edits[k]->Jump_offset->Ok_0;
            let jump = edits[k]->Jump_stub;
            &&& edits[k]->Jump_offset is Ok
            &&& offset + 5 <= after.len()
            &&& after[offset as int] == 0xe9
            &&& calls::leads_to(after, offset + 1, jump.from, 5) == jump.to.0
        }),
{
    lemma_every_edit_is_made(data, edits);
    let after = rewrite::all_edited(data, edits).0;
    let offset = edits[k]->Jump_offset->Ok_0 as int;
    let jump = edits[k]->Jump_stub;
    assert(can_be_made(edits[k], data.len()));
    let distance = jump.to.0 - (jump.from.0 + 5);
    let bytes = decoder::near_jump(distance);
    assert forall|i: int| offset <= i < offset + 5 implies #[trigger] after[i] == bytes[i
        - offset] by {
        assert forall|m: int| k < m < edits.len() implies !covers(#[trigger] edits[m], i) by {
            let other = span_of(edits[m]);
            let own = span_of(edits[k]);
            assert(other.0 + other.1 <= own.0 || own.0 + own.1 <= other.0);
        }
        assert(is_last_over(edits, k, i));
    }
    let bits = address::two_complement(distance);
    assert(after.subrange(offset + 1, offset + 5) =~= address::little_endian(bits)) by {
        assert(bytes.subrange(1, 5) =~= address::little_endian(bits));
        assert forall|j: int| 0 <= j < 4 implies after.subrange(offset + 1, offset + 5)[j]
            == bytes.subrange(1, 5)[j] by {
            assert(after[offset + 1 + j] == bytes[1 + j]);
        }
    }
    assert(stub::from_little_endian(address::little_endian(bits)) == bits);
}

// ---------------------------------------------------------------------------
// The copy of a region
// ---------------------------------------------------------------------------

/// A region whose copy was encoded is ready with this: the copy stands where it was
/// asked for and is described to the unwinder as chained to the function it came
/// from, the account is that of the opening marker, and the ends that are reported
/// are the calls of all closing markers.
pub proof fn lemma_ready_region_is_described<R>(
    g: Grants,
    asked: nat,
    covering: Covering,
    plan: RegionPlan,
    epilogues: Vec<Epilogue>,
    slice: Function,
    report: R,
    copy: Relocated,
    site: SdkSite,
    ends: Seq<MarkerSite>,
    next: SdkPreparing<R>,
    asked1: nat,
)
    requires
        sdk::advances(
            g,
            asked,
            SdkPreparing::<R>::Relocate { covering, plan, epilogues, slice, report },
            SdkEvent::Relocated(Ok(copy)),
            site,
            ends,
            next,
            asked1,
        ),
        next is Ready,
    ensures
        ({
            let done = next->Ready_0;
            let entry = done.ready.runtime_function;
            &&& entry.begin == site.placement
            &&& entry.end.0 == site.placement.0 + copy.bytes@.len()
            &&& entry.unwind.version == 1
            &&& entry.unwind.flags == 4
            &&& entry.unwind.size_of_prolog == 0
            &&& entry.unwind.frame_register == covering.unwind.frame_register
            &&& entry.unwind.frame_offset == covering.unwind.frame_offset
            &&& entry.unwind.codes@.len() == 0
            &&& entry.unwind.handler is None
            &&& entry.unwind.chained == Some(covering.range)
            &&& done.ready.protected.original == (match site.begin.load {
                Some(load) => load,
                None => site.begin.call,
            })
            &&& done.ready.protected.relocated == site.placement
            &&& done.ready.protected.length == copy.bytes@.len()
            &&& done.ready.protected.report == report
            &&& done.reached_ends@.len() == plan.sites@.len()
            &&& forall|c: int|
                0 <= c < plan.sites@.len() ==> #[trigger] done.reached_ends@[c]
                    == plan.sites@[c].call
            &&& done.ready.bytes@.len() >= copy.bytes@.len()
        }),
{
    let (after, failure) = calls::all_bridged(
        copy.rva,
        copy.bytes@,
        copy.moved@,
        plan.continuations(),
    );
    lemma_bridged_length(copy.rva, copy.bytes@, copy.moved@, plan.continuations());
    let end = Rva((site.placement.0 + after.len()) as u32);
    linking::lemma_stubs_are_those_called(
        g,
        asked,
        copy.rva,
        after,
        copy.moved@,
        plan.calls@,
        end,
    );
}

/// Writing bridges keeps the length of the code.
proof fn lemma_bridged_length(
    base: Rva,
    bytes: Seq<u8>,
    moved: Seq<(Rva, Rva)>,
    continuations: Seq<(Rva, Rva)>,
)
    ensures
        calls::all_bridged(base, bytes, moved, continuations).0.len() == bytes.len(),
    decreases continuations.len(),
{
    if continuations.len() > 0 {
        lemma_bridged_length(base, bytes, moved, continuations.drop_last());
    }
}

/// Where call `c` of a plan went.
pub open spec fn place_of_call(copy: Relocated, plan: RegionPlan, c: int) -> int {
    linking::call_place(copy.moved@, plan.calls@, c)
}

/// Where the bridge of closing marker `c` of a plan went.
pub open spec fn place_of_bridge(copy: Relocated, plan: RegionPlan, c: int) -> int {
    linking::bridge_place(copy.moved@, plan.continuations(), c)
}

/// The finished copy of a region leads out of every closing marker: the bridge of the
/// marker is a near jump to what follows the marker, unless a later bridge or a call
/// was written over it.
pub proof fn lemma_ready_region_leads_out<R>(
    g: Grants,
    asked: nat,
    covering: Covering,
    plan: RegionPlan,
    epilogues: Vec<Epilogue>,
    slice: Function,
    report: R,
    copy: Relocated,
    site: SdkSite,
    ends: Seq<MarkerSite>,
    next: SdkPreparing<R>,
    asked1: nat,
    c: int,
)
    requires
        sdk::advances(
            g,
            asked,
            SdkPreparing::<R>::Relocate { covering, plan, epilogues, slice, report },
            SdkEvent::Relocated(Ok(copy)),
            site,
            ends,
            next,
            asked1,
        ),
        next is Ready,
        0 <= c < plan.sites@.len(),
        forall|d: int|
            c < d < plan.sites@.len() ==> {
                let other = #[trigger] place_of_bridge(copy, plan, d);
                let own = place_of_bridge(copy, plan, c);
                other + 5 <= own || own + 5 <= other
            },
        forall|d: int|
            0 <= d < plan.calls@.len() ==> {
                let other = #[trigger] place_of_call(copy, plan, d);
                let own = place_of_bridge(copy, plan, c);
                other + 7 <= own || own + 5 <= other
            },
    ensures
        ({
            let bytes = next->Ready_0.ready.bytes@;
            let place = place_of_bridge(copy, plan, c);
            let offset = place - copy.rva.0;
            &&& 0 <= offset
            &&& offset + 5 <= copy.bytes@.len() <= bytes.len()
            &&& bytes[offset] == 0xe9
            &&& calls::leads_to(bytes, offset + 1, Rva(place as u32), 5) == plan.sites@[c].next.0
        }),
{
    let continuations = plan.continuations();
    let moved = copy.moved@;
    let (after, failure) = calls::all_bridged(copy.rva, copy.bytes@, moved, continuations);
    lemma_bridged_length(copy.rva, copy.bytes@, moved, continuations);
    let end = Rva((site.placement.0 + after.len()) as u32);
    let installed = calls::with_stubs(g, asked, copy.rva, after, moved, plan.calls@, end);
    let bytes = next->Ready_0.ready.bytes@;
    let stubs = installed.out->Ok_0.1;
    assert forall|d: int| c < d < continuations.len() implies ({
        let other = #[trigger] linking::bridge_place(moved, continuations, d);
        let own = linking::bridge_place(moved, continuations, c);
        other + 5 <= own || own + 5 <= other
    }) by {
        assert(place_of_bridge(copy, plan, d) == linking::bridge_place(moved, continuations, d));
    }
    linking::lemma_every_bridge_leads_on(copy.rva, copy.bytes@, moved, continuations, c);
    let patched = calls::all_redirected(copy.rva, after, moved, plan.calls@, stubs).0;
    calls::lemma_redirected_length(copy.rva, after, moved, plan.calls@, stubs);
    let place = place_of_bridge(copy, plan, c);
    let offset = place - copy.rva.0;
    assert forall|i: int| offset <= i < offset + 5 implies #[trigger] bytes[i] == after[i] by {
        assert forall|d: int| 0 <= d < plan.calls@.len() implies ({
            let other = #[trigger] linking::call_place(moved, plan.calls@, d) - copy.rva.0;
            i < other || other + 7 <= i
        }) by {
            assert(place_of_call(copy, plan, d) == linking::call_place(moved, plan.calls@, d));
        }
        linking::lemma_calls_touch_nothing_else(
            copy.rva,
            after,
            moved,
            plan.calls@,
            stubs,
            i,
        );
        assert(bytes[i] == patched[i]);
    }
    assert(bytes.subrange(offset + 1, offset + 5) =~= after.subrange(offset + 1, offset + 5));
}

/// Every interface call in the finished copy of a region leads to a stub behind the
/// copy that does what the function that is called does, unless a later call was
/// written over it.
pub proof fn lemma_ready_region_calls_its_stubs<R>(
    g: Grants,
    asked: nat,
    covering: Covering,
    plan: RegionPlan,
    epilogues: Vec<Epilogue>,
    slice: Function,
    report: R,
    copy: Relocated,
    site: SdkSite,
    ends: Seq<MarkerSite>,
    next: SdkPreparing<R>,
    asked1: nat,
    c: int,
)
    requires
        sdk::advances(
            g,
            asked,
            SdkPreparing::<R>::Relocate { covering, plan, epilogues, slice, report },
            SdkEvent::Relocated(Ok(copy)),
            site,
            ends,
            next,
            asked1,
        ),
        next is Ready,
        0 <= c < plan.calls@.len(),
        forall|d: int|
            c < d < plan.calls@.len() ==> {
                let other = #[trigger] place_of_call(copy, plan, d);
                let own = place_of_call(copy, plan, c);
                other + 7 <= own || own + 7 <= other
            },
    ensures
        linking::call_leads_to_stub(
            copy.rva,
            next->Ready_0.ready.bytes@,
            copy.moved@,
            plan.calls@,
            next->Ready_0.sdk_stubs@,
            c,
        ),
{
    let continuations = plan.continuations();
    let moved = copy.moved@;
    let (after, failure) = calls::all_bridged(copy.rva, copy.bytes@, moved, continuations);
    lemma_bridged_length(copy.rva, copy.bytes@, moved, continuations);
    let end = Rva((site.placement.0 + after.len()) as u32);
    let installed = calls::with_stubs(g, asked, copy.rva, after, moved, plan.calls@, end);
    let bytes = next->Ready_0.ready.bytes@;
    let stubs = installed.out->Ok_0.1;
    let list = plan.calls@;
    assert forall|d: int| c < d < list.len() implies ({
        let other = #[trigger] linking::call_place(moved, list, d);
        let own = linking::call_place(moved, list, c);
        other + 7 <= own || own + 7 <= other
    }) by {
        assert(place_of_call(copy, plan, d) == linking::call_place(moved, list, d));
    }
    linking::lemma_every_call_leads_to_its_stub(copy.rva, after, moved, list, stubs, c);
    let patched = calls::all_redirected(copy.rva, after, moved, list, stubs).0;
    calls::lemma_redirected_length(copy.rva, after, moved, list, stubs);
    let place = linking::call_place(moved, list, c);
    let offset = place - copy.rva.0;
    let s = choose|s: int|
        0 <= s < stubs.len() && (#[trigger] stubs[s]).api == list[c].api && {
            &&& copy.rva.0 <= place
            &&& match list[c].load_rva {
                Some(_) => offset + 7 <= patched.len() && patched[offset + 1] == 0x8d
                    && calls::leads_to(patched, offset + 3, Rva(place as u32), 7) == stubs[s].rva.0,
                None => offset + 5 <= patched.len() && patched[offset] == (if list[c].tail_call {
                    0xe9u8
                } else {
                    0xe8u8
                }) && calls::leads_to(patched, offset + 1, Rva(place as u32), 5) == stubs[s].rva.0,
            }
        };
    if list[c].load_rva is Some {
        assert(bytes.subrange(offset + 3, offset + 7) =~= patched.subrange(offset + 3, offset + 7));
        assert(bytes[offset + 1] == patched[offset + 1]);
    } else {
        assert(bytes.subrange(offset + 1, offset + 5) =~= patched.subrange(offset + 1, offset + 5));
        assert(bytes[offset] == patched[offset]);
    }
    assert(stubs[s].api == list[c].api);
}

} // verus!
