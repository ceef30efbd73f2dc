//! Where the branches of a copy lead once all of them were written.

use vstd::prelude::*;

use crate::emit::address::Rva;
use crate::emit::calls;
use crate::emit::calls::{SdkApi, SdkApiCall, SdkStub};
use crate::emit::memory;
use crate::emit::memory::Grants;
use crate::emit::relocated;

verus! {

// ---------------------------------------------------------------------------
// Bridges
// ---------------------------------------------------------------------------

/// A bridge is written exactly where it went somewhere, is five bytes long, lies in
/// the code, and reaches where the code continues.
pub proof fn lemma_bridge_is_written_where_it_fits(
    base: Rva,
    bytes: Seq<u8>,
    moved: Option<Rva>,
    len: Option<usize>,
    marker: Rva,
    continuation: Rva,
)
    ensures
        (calls::bridged(base, bytes, moved, len, marker, continuation) is Ok) == {
            &&& moved is Some
            &&& len == Some(5usize)
            &&& (moved->0).0 >= base.0
            &&& (moved->0).0 - base.0 + 5 <= usize::MAX
            &&& (moved->0).0 - base.0 + 5 <= bytes.len()
            &&& (moved->0).0 + 5 <= u32::MAX
            &&& -0x8000_0000 <= continuation.0 - ((moved->0).0 + 5) <= 0x7fff_ffff
        },
{
}

/// Where the bridge of marker `c` went.
pub open spec fn bridge_place(
    moved: Seq<(Rva, Rva)>,
    continuations: Seq<(Rva, Rva)>,
    c: int,
) -> int {
    (relocated::destination(moved, continuations[c].0)->0).0 as int
}

/// The bridge of `c` stands in the code and leads to where the code continues.
pub open spec fn bridge_leads_on(
    base: Rva,
    after: Seq<u8>,
    moved: Seq<(Rva, Rva)>,
    continuations: Seq<(Rva, Rva)>,
    c: int,
) -> bool {
    let place = bridge_place(moved, continuations, c);
    &&& relocated::destination(moved, continuations[c].0) is Some
    &&& base.0 <= place
    &&& place - base.0 + 5 <= after.len()
    &&& after[place - base.0] == 0xe9
    &&& calls::leads_to(after, place - base.0 + 1, Rva(place as u32), 5)
        == continuations[c].1.0
}

/// Every bridge leads on once all of them were written, however many there are,
/// unless a later one was written over it.
pub proof fn lemma_every_bridge_leads_on(
    base: Rva,
    bytes: Seq<u8>,
    moved: Seq<(Rva, Rva)>,
    continuations: Seq<(Rva, Rva)>,
    c: int,
)
    requires
        calls::all_bridged(base, bytes, moved, continuations).1 is None,
        0 <= c < continuations.len(),
        forall|d: int|
            c < d < continuations.len() ==> {
                let other = #[trigger] bridge_place(moved, continuations, d);
                let own = bridge_place(moved, continuations, c);
                other + 5 <= own || own + 5 <= other
            },
    ensures
        bridge_leads_on(
            base,
            calls::all_bridged(base, bytes, moved, continuations).0,
            moved,
            continuations,
            c,
        ),
    decreases continuations.len(),
{
    let front = continuations.drop_last();
    let last = continuations.len() - 1;
    let before = calls::all_bridged(base, bytes, moved, front);
    let after = calls::all_bridged(base, bytes, moved, continuations).0;
    let (marker, continuation) = continuations.last();
    let to = relocated::destination(moved, marker);
    let len = relocated::length_of(base, before.0, to);
    assert(continuations.last() == continuations[last]);
    calls::lemma_bridge_reaches(base, before.0, to->0, len->0, marker, continuation);
    if c < last {
        assert forall|d: int| c < d < front.len() implies ({
            let other = #[trigger] bridge_place(moved, front, d);
            let own = bridge_place(moved, front, c);
            other + 5 <= own || own + 5 <= other
        }) by {
            assert(front[d] == continuations[d]);
            assert(bridge_place(moved, continuations, d) == bridge_place(moved, front, d));
        }
        lemma_every_bridge_leads_on(base, bytes, moved, front, c);
        assert(front[c] == continuations[c]);
        let own = bridge_place(moved, continuations, c);
        let other = bridge_place(moved, continuations, last);
        assert(other + 5 <= own || own + 5 <= other);
        let offset = own - base.0;
        assert(after[offset] == before.0[offset]);
        assert(after.subrange(offset + 1, offset + 5) =~= before.0.subrange(
            offset + 1,
            offset + 5,
        ));
    }
}

/// Writing the bridges keeps the length of the code and every byte outside of them.
pub proof fn lemma_bridges_touch_nothing_else(
    base: Rva,
    bytes: Seq<u8>,
    moved: Seq<(Rva, Rva)>,
    continuations: Seq<(Rva, Rva)>,
    i: int,
)
    requires
        0 <= i < bytes.len(),
        forall|c: int|
            0 <= c < continuations.len() ==> {
                let place = #[trigger] bridge_place(moved, continuations, c) - base.0;
                i < place || place + 5 <= i
            },
    ensures
        calls::all_bridged(base, bytes, moved, continuations).0.len() == bytes.len(),
        calls::all_bridged(base, bytes, moved, continuations).0[i] == bytes[i],
    decreases continuations.len(),
{
    if continuations.len() > 0 {
        let front = continuations.drop_last();
        let last = continuations.len() - 1;
        assert forall|c: int| 0 <= c < front.len() implies ({
            let place = #[trigger] bridge_place(moved, front, c) - base.0;
            i < place || place + 5 <= i
        }) by {
            assert(front[c] == continuations[c]);
            assert(bridge_place(moved, continuations, c) == bridge_place(moved, front, c));
        }
        lemma_bridges_touch_nothing_else(base, bytes, moved, front, i);
        let before = calls::all_bridged(base, bytes, moved, front);
        let (marker, continuation) = continuations.last();
        let to = relocated::destination(moved, marker);
        let len = relocated::length_of(base, before.0, to);
        assert(continuations.last() == continuations[last]);
        if before.1 is None && calls::bridged(
            base,
            before.0,
            to,
            len,
            marker,
            continuation,
        ) is Ok {
            calls::lemma_bridge_reaches(base, before.0, to->0, len->0, marker, continuation);
            let place = bridge_place(moved, continuations, last);
            assert(place == (to->0).0);
        }
    }
}

// ---------------------------------------------------------------------------
// Calls
// ---------------------------------------------------------------------------

/// A call is redirected exactly where the instruction that names the callee went
/// somewhere, lies in the code, reaches its target, and has the expected encoding:
/// seven bytes of a load relative to the instruction pointer, or a call of five or
/// six bytes.
pub proof fn lemma_call_is_redirected_where_it_fits(
    base: Rva,
    bytes: Seq<u8>,
    moved: Option<Rva>,
    len: Option<usize>,
    call: SdkApiCall,
    target: Rva,
)
    ensures
        (calls::redirected(base, bytes, moved, len, call, target) is Ok) == {
            let offset = (moved->0).0 - base.0;
            let encoded: int = if call.load_rva is Some {
                7
            } else {
                5
            };
            &&& moved is Some
            &&& len is Some
            &&& call.load_rva is Some ==> len->0 == 7 && bytes[offset] & 0xf8 == 0x48
                && bytes[offset + 1] == 0x8b && bytes[offset + 2] & 0xc7 == 0x05
            &&& call.load_rva is None ==> len->0 == 5 || len->0 == 6
            &&& offset >= 0
            &&& offset + len->0 <= usize::MAX
            &&& offset + len->0 <= bytes.len()
            &&& (moved->0).0 + encoded <= u32::MAX
            &&& -0x8000_0000 <= target.0 - ((moved->0).0 + encoded) <= 0x7fff_ffff
        },
{
}

/// What stands at a redirected call: a call, or a jump where the original was one, or
/// the same load turned into an address. What is left of a longer call does nothing.
proof fn lemma_redirected_opcode(
    base: Rva,
    bytes: Seq<u8>,
    moved: Rva,
    len: usize,
    call: SdkApiCall,
    target: Rva,
)
    requires
        calls::redirected(base, bytes, Some(moved), Some(len), call, target) is Ok,
    ensures
        ({
            let after = calls::redirected(base, bytes, Some(moved), Some(len), call, target)->Ok_0;
            let offset = moved.0 - base.0;
            &&& len == 5 || len == 6 || len == 7
            &&& len == 7 <==> call.load_rva is Some
            &&& 0 <= offset
            &&& offset + len <= after.len()
            &&& call.load_rva is Some ==> after[offset] == bytes[offset] && after[offset + 1]
                == 0x8d && after[offset + 2] == bytes[offset + 2]
            &&& call.load_rva is None && call.tail_call ==> after[offset] == 0xe9
            &&& call.load_rva is None && !call.tail_call ==> after[offset] == 0xe8
            &&& len == 6 ==> after[offset + 5] == 0x90
        }),
{
}

/// Where the instruction that names the callee of call `c` went.
pub open spec fn call_place(moved: Seq<(Rva, Rva)>, list: Seq<SdkApiCall>, c: int) -> int {
    (relocated::destination(
        moved,
        match list[c].load_rva {
            Some(load) => load,
            None => list[c].call_rva,
        },
    )->0).0 as int
}

/// Call `c` leads to a stub of the function that is called: directly, by a jump where
/// the original was one, or through the register that is loaded.
pub open spec fn call_leads_to_stub(
    base: Rva,
    after: Seq<u8>,
    moved: Seq<(Rva, Rva)>,
    list: Seq<SdkApiCall>,
    stubs: Seq<SdkStub>,
    c: int,
) -> bool {
    let place = call_place(moved, list, c);
    let offset = place - base.0;
    exists|s: int|
        0 <= s < stubs.len() && (#[trigger] stubs[s]).api == list[c].api && {
            &&& base.0 <= place
            &&& match list[c].load_rva {
                Some(_) => offset + 7 <= after.len() && after[offset + 1] == 0x8d
                    && calls::leads_to(after, offset + 3, Rva(place as u32), 7) == stubs[s].rva.0,
                None => offset + 5 <= after.len() && after[offset] == (if list[c].tail_call {
                    0xe9u8
                } else {
                    0xe8u8
                }) && calls::leads_to(after, offset + 1, Rva(place as u32), 5) == stubs[s].rva.0,
            }
        }
}

/// The stub that is found for a function is one of that function, and one is found
/// where there is one.
pub proof fn lemma_stub_for_is_a_stub(stubs: Seq<SdkStub>, api: SdkApi)
    ensures
        match calls::stub_for(stubs, api) {
            Some(rva) => exists|s: int|
                0 <= s < stubs.len() && (#[trigger] stubs[s]).api == api && stubs[s].rva == rva
                    && forall|t: int| 0 <= t < s ==> (#[trigger] stubs[t]).api != api,
            None => forall|s: int| 0 <= s < stubs.len() ==> (#[trigger] stubs[s]).api != api,
        },
    decreases stubs.len(),
{
    if stubs.len() > 0 {
        let front = stubs.drop_last();
        let last = stubs.len() - 1;
        lemma_stub_for_is_a_stub(front, api);
        assert(stubs.last() == stubs[last]);
        if calls::stub_for(front, api) is Some {
            let rva = calls::stub_for(front, api)->0;
            let s = choose|s: int|
                0 <= s < front.len() && (#[trigger] front[s]).api == api && front[s].rva == rva
                    && forall|t: int| 0 <= t < s ==> (#[trigger] front[t]).api != api;
            assert(stubs[s] == front[s]);
            assert forall|t: int| 0 <= t < s implies (#[trigger] stubs[t]).api != api by {
                assert(front[t] == stubs[t]);
            }
        } else {
            assert forall|t: int| 0 <= t < last implies (#[trigger] stubs[t]).api != api by {
                assert(front[t] == stubs[t]);
            }
        }
    }
}

/// Every call leads to a stub of its function once all of them were redirected,
/// however many there are, unless a later one was written over it.
pub proof fn lemma_every_call_leads_to_its_stub(
    base: Rva,
    bytes: Seq<u8>,
    moved: Seq<(Rva, Rva)>,
    list: Seq<SdkApiCall>,
    stubs: Seq<SdkStub>,
    c: int,
)
    requires
        calls::all_redirected(base, bytes, moved, list, stubs).1 is None,
        0 <= c < list.len(),
        forall|d: int|
            c < d < list.len() ==> {
                let other = #[trigger] call_place(moved, list, d);
                let own = call_place(moved, list, c);
                other + 7 <= own || own + 7 <= other
            },
    ensures
        call_leads_to_stub(
            base,
            calls::all_redirected(base, bytes, moved, list, stubs).0,
            moved,
            list,
            stubs,
            c,
        ),
    decreases list.len(),
{
    let front = list.drop_last();
    let last = list.len() - 1;
    let before = calls::all_redirected(base, bytes, moved, front, stubs);
    let after = calls::all_redirected(base, bytes, moved, list, stubs).0;
    let call = list.last();
    let target = calls::stub_for(stubs, call.api)->0;
    let to = relocated::destination(moved, calls::site_of(call));
    let len = relocated::length_of(base, before.0, to);
    assert(call == list[last]);
    lemma_call_is_redirected_where_it_fits(base, before.0, to, len, call, target);
    calls::lemma_call_reaches(base, before.0, to->0, len->0, call, target);
    lemma_redirected_opcode(base, before.0, to->0, len->0, call, target);
    if c == last {
        lemma_stub_for_is_a_stub(stubs, call.api);
        let s = choose|s: int|
            0 <= s < stubs.len() && (#[trigger] stubs[s]).api == call.api && stubs[s].rva == target
                && forall|t: int| 0 <= t < s ==> (#[trigger] stubs[t]).api != call.api;
        assert(stubs[s].api == list[c].api);
    } else {
        assert forall|d: int| c < d < front.len() implies ({
            let other = #[trigger] call_place(moved, front, d);
            let own = call_place(moved, front, c);
            other + 7 <= own || own + 7 <= other
        }) by {
            assert(front[d] == list[d]);
            assert(call_place(moved, list, d) == call_place(moved, front, d));
        }
        lemma_every_call_leads_to_its_stub(base, bytes, moved, front, stubs, c);
        assert(front[c] == list[c]);
        let own = call_place(moved, list, c);
        let other = call_place(moved, list, last);
        assert(other + 7 <= own || own + 7 <= other);
        let offset = own - base.0;
        let s = choose|s: int|
            0 <= s < stubs.len() && (#[trigger] stubs[s]).api == front[c].api && {
                &&& base.0 <= own
                &&& match front[c].load_rva {
                    Some(_) => offset + 7 <= before.0.len() && before.0[offset + 1] == 0x8d
                        && calls::leads_to(before.0, offset + 3, Rva(own as u32), 7)
                        == stubs[s].rva.0,
                    None => offset + 5 <= before.0.len() && before.0[offset] == (
                    if front[c].tail_call {
                        0xe9u8
                    } else {
                        0xe8u8
                    }) && calls::leads_to(before.0, offset + 1, Rva(own as u32), 5)
                        == stubs[s].rva.0,
                }
            };
        if list[c].load_rva is Some {
            assert(after[offset + 1] == before.0[offset + 1]);
            assert(after.subrange(offset + 3, offset + 7) =~= before.0.subrange(
                offset + 3,
                offset + 7,
            ));
        } else {
            assert(after[offset] == before.0[offset]);
            assert(after.subrange(offset + 1, offset + 5) =~= before.0.subrange(
                offset + 1,
                offset + 5,
            ));
        }
        assert(stubs[s].api == list[c].api);
    }
}

/// Redirecting calls keeps every byte outside of them.
pub proof fn lemma_calls_touch_nothing_else(
    base: Rva,
    bytes: Seq<u8>,
    moved: Seq<(Rva, Rva)>,
    list: Seq<SdkApiCall>,
    stubs: Seq<SdkStub>,
    i: int,
)
    requires
        0 <= i < bytes.len(),
        forall|c: int|
            0 <= c < list.len() ==> {
                let place = #[trigger] call_place(moved, list, c) - base.0;
                i < place || place + 7 <= i
            },
    ensures
        calls::all_redirected(base, bytes, moved, list, stubs).0.len() == bytes.len(),
        calls::all_redirected(base, bytes, moved, list, stubs).0[i] == bytes[i],
    decreases list.len(),
{
    if list.len() > 0 {
        let front = list.drop_last();
        let last = list.len() - 1;
        assert forall|c: int| 0 <= c < front.len() implies ({
            let place = #[trigger] call_place(moved, front, c) - base.0;
            i < place || place + 7 <= i
        }) by {
            assert(front[c] == list[c]);
            assert(call_place(moved, list, c) == call_place(moved, front, c));
        }
        lemma_calls_touch_nothing_else(base, bytes, moved, front, stubs, i);
        let before = calls::all_redirected(base, bytes, moved, front, stubs);
        let call = list.last();
        assert(call == list[last]);
        if before.1 is None && calls::stub_for(stubs, call.api) is Some {
            let target = calls::stub_for(stubs, call.api)->0;
            let to = relocated::destination(moved, calls::site_of(call));
            let len = relocated::length_of(base, before.0, to);
            if calls::redirected(base, before.0, to, len, call, target) is Ok {
                lemma_call_is_redirected_where_it_fits(base, before.0, to, len, call, target);
                calls::lemma_call_reaches(base, before.0, to->0, len->0, call, target);
                assert(call_place(moved, list, last) == (to->0).0);
            }
        }
    }
}

/// Some stub stands for the function.
pub open spec fn has_stub(stubs: Seq<SdkStub>, api: SdkApi) -> bool {
    exists|s: int| 0 <= s < stubs.len() && (#[trigger] stubs[s]).api == api
}

/// Some call calls the function.
pub open spec fn is_called(list: Seq<SdkApiCall>, api: SdkApi) -> bool {
    exists|c: int| 0 <= c < list.len() && (#[trigger] list[c]).api == api
}

/// There is a stub for every function that is called and for no other, each once, and
/// its code stands behind the copy where the stub points. The copy itself keeps its
/// length.
pub proof fn lemma_stubs_are_those_called(
    g: Grants,
    asked: nat,
    base: Rva,
    bytes: Seq<u8>,
    moved: Seq<(Rva, Rva)>,
    list: Seq<SdkApiCall>,
    first: Rva,
)
    requires
        calls::with_stubs(g, asked, base, bytes, moved, list, first).out is Ok,
    ensures
        ({
            let (after, stubs) = calls::with_stubs(
                g,
                asked,
                base,
                bytes,
                moved,
                list,
                first,
            ).out->Ok_0;
            &&& after.len() >= bytes.len()
            &&& forall|c: int|
                0 <= c < list.len() ==> has_stub(stubs, (#[trigger] list[c]).api)
            &&& forall|s: int|
                0 <= s < stubs.len() ==> is_called(list, (#[trigger] stubs[s]).api)
            &&& forall|s: int, t: int|
                0 <= s < t < stubs.len() ==> (#[trigger] stubs[s]).api != (#[trigger] stubs[t]).api
            &&& forall|s: int|
                0 <= s < stubs.len() ==> {
                    let body = calls::stub_code((#[trigger] stubs[s]).api);
                    let offset = bytes.len() + stubs[s].rva.0 - first.0;
                    &&& bytes.len() <= offset
                    &&& offset + body.len() <= after.len()
                    &&& after.subrange(offset, offset + body.len()) == body
                }
        }),
{
    let (after, stubs) = calls::with_stubs(g, asked, base, bytes, moved, list, first).out->Ok_0;
    let asked1 = memory::counted(asked, list.len());
    let plan = calls::stub_plan(g, asked1, list, first).out->Ok_0;
    let patched = calls::all_redirected(base, bytes, moved, list, plan.stubs).0;
    calls::lemma_stub_plan(g, asked1, list, first);
    calls::lemma_redirected_length(base, bytes, moved, list, plan.stubs);
    lemma_stubs_come_from_calls(g, asked1, list, first);
    assert forall|c: int| 0 <= c < list.len() implies has_stub(
        stubs,
        (#[trigger] list[c]).api,
    ) by {
        lemma_stub_for_is_a_stub(stubs, list[c].api);
    }
    assert forall|s: int| 0 <= s < stubs.len() implies ({
        let body = calls::stub_code((#[trigger] stubs[s]).api);
        let offset = bytes.len() + stubs[s].rva.0 - first.0;
        &&& bytes.len() <= offset
        &&& offset + body.len() <= after.len()
        &&& after.subrange(offset, offset + body.len()) == body
    }) by {
        assert(calls::stub_stands(plan, first, s));
        let body = calls::stub_code(stubs[s].api);
        let start = stubs[s].rva.0 - first.0;
        let offset = bytes.len() + start;
        assert(after.subrange(offset, offset + body.len()) =~= plan.code.subrange(
            start,
            start + body.len(),
        ));
    }
}

/// Each stub is there for some call.
proof fn lemma_stubs_come_from_calls(g: Grants, asked: nat, list: Seq<SdkApiCall>, first: Rva)
    requires
        calls::stub_plan(g, asked, list, first).out is Ok,
    ensures
        ({
            let stubs = calls::stub_plan(g, asked, list, first).out->Ok_0.stubs;
            forall|s: int|
                0 <= s < stubs.len() ==> is_called(list, (#[trigger] stubs[s]).api)
        }),
    decreases list.len(),
{
    if list.len() > 0 {
        let front = list.drop_last();
        let last = list.len() - 1;
        lemma_stubs_come_from_calls(g, asked, front, first);
        let before = calls::stub_plan(g, asked, front, first).out->Ok_0.stubs;
        let stubs = calls::stub_plan(g, asked, list, first).out->Ok_0.stubs;
        assert(list.last() == list[last]);
        assert forall|s: int| 0 <= s < stubs.len() implies is_called(
            list,
            (#[trigger] stubs[s]).api,
        ) by {
            if s < before.len() {
                assert(stubs[s] == before[s]);
                assert(is_called(front, before[s].api));
                let c = choose|c: int|
                    0 <= c < front.len() && (#[trigger] front[c]).api == before[s].api;
                assert(list[c] == front[c]);
            } else {
                assert(list[last].api == stubs[s].api);
            }
        }
    }
}

} // verus!
