//! The part of a function that is moved on its own.

use vstd::prelude::*;

use crate::emit::address;
use crate::emit::address::Rva;
use crate::emit::code;
use crate::emit::code::{
    Architecture, BasicBlock, BlockId, CompileStage, Function, MachineInstruction, InstructionView,
    Terminator,
};
use crate::emit::decoder;
use crate::emit::decoder::{decode_one, encode_near_jump, RawInstruction};
use crate::emit::error::{allocation_error, EmitError, SdkFailure};
use crate::emit::memory;
use crate::emit::memory::{Answered, Grants, Memory};
use crate::emit::region::contains;

verus! {

/// An instruction and the address that it is sorted by.
pub type Keyed = (Rva, InstructionView);

/// The length of a bridge out of a slice.
pub const BRIDGE_LEN: usize = 5;

// ---------------------------------------------------------------------------
// Sorting
// ---------------------------------------------------------------------------

/// `list` with `item` behind every item that has no greater key.
pub open spec fn inserted(list: Seq<Keyed>, item: Keyed) -> Seq<Keyed>
    decreases list.len(),
{
    if list.len() == 0 || list.last().0.0 <= item.0.0 {
        list.push(item)
    } else {
        inserted(list.drop_last(), item).push(list.last())
    }
}

/// `list` in the order of the keys. Items with the same key keep their order.
pub open spec fn in_order(list: Seq<Keyed>) -> Seq<Keyed>
    decreases list.len(),
{
    if list.len() == 0 {
        Seq::empty()
    } else {
        inserted(in_order(list.drop_last()), list.last())
    }
}

/// The keys ascend.
pub open spec fn keys_ascend(list: Seq<Keyed>) -> bool {
    forall|i: int, j: int| 0 <= i < j < list.len() ==> (#[trigger] list[i]).0.0 <= (#[trigger] list[j]).0.0
}

/// Where an item is inserted.
proof fn lemma_inserted_at(list: Seq<Keyed>, item: Keyed, at: int)
    requires
        0 <= at <= list.len(),
        at > 0 ==> list[at - 1].0.0 <= item.0.0,
        forall|i: int| at <= i < list.len() ==> (#[trigger] list[i]).0.0 > item.0.0,
    ensures
        inserted(list, item) == list.insert(at, item),
    decreases list.len(),
{
    if at == list.len() {
        assert(list.insert(at, item) =~= list.push(item));
    } else {
        assert(list.last().0.0 > item.0.0);
        lemma_inserted_at(list.drop_last(), item, at);
        assert(list.drop_last().insert(at, item).push(list.last()) =~= list.insert(at, item));
    }
}

/// Inserting keeps the keys ascending and adds one item.
proof fn lemma_inserted_ascends(list: Seq<Keyed>, item: Keyed)
    requires
        keys_ascend(list),
    ensures
        keys_ascend(inserted(list, item)),
        inserted(list, item).len() == list.len() + 1,
        inserted(list, item).to_multiset() == list.to_multiset().insert(item),
        forall|i: int|
            0 <= i < inserted(list, item).len() ==> (#[trigger] inserted(list, item)[i]) == item
                || list.contains(inserted(list, item)[i]),
    decreases list.len(),
{
    broadcast use vstd::seq_lib::group_to_multiset_ensures;

    let result = inserted(list, item);
    if list.len() == 0 || list.last().0.0 <= item.0.0 {
        assert forall|i: int, j: int| 0 <= i < j < result.len() implies (#[trigger] result[i]).0.0
            <= (#[trigger] result[j]).0.0 by {
            if j == list.len() && i < list.len() - 1 {
                assert(list[i].0.0 <= list[list.len() - 1].0.0);
            }
        }
        assert forall|i: int| 0 <= i < result.len() implies (#[trigger] result[i]) == item
            || list.contains(result[i]) by {
            if i < list.len() {
                assert(list[i] == result[i]);
            }
        }
    } else {
        let shorter = list.drop_last();
        lemma_inserted_ascends(shorter, item);
        let inner = inserted(shorter, item);
        assert(list =~= shorter.push(list.last()));
        assert forall|i: int| 0 <= i < inner.len() implies (#[trigger] inner[i]).0.0
            <= list.last().0.0 by {
            if inner[i] != item {
                let k = choose|k: int| 0 <= k < shorter.len() && shorter[k] == inner[i];
                assert(list[k].0.0 <= list[list.len() - 1].0.0);
            }
        }
        assert(result.to_multiset() == list.to_multiset().insert(item)) by {
            assert(result.to_multiset() =~= shorter.to_multiset().insert(item).insert(list.last()));
            assert(list.to_multiset() =~= shorter.to_multiset().insert(list.last()));
            assert(result.to_multiset() =~= list.to_multiset().insert(item));
        }
        assert forall|i: int| 0 <= i < result.len() implies (#[trigger] result[i]) == item
            || list.contains(result[i]) by {
            if i < inner.len() {
                assert(result[i] == inner[i]);
                if inner[i] != item {
                    let k = choose|k: int| 0 <= k < shorter.len() && shorter[k] == inner[i];
                    assert(list[k] == inner[i]);
                }
            } else {
                assert(list[list.len() - 1] == result[i]);
            }
        }
    }
}

/// Sorting puts the keys in ascending order and neither adds nor loses an item.
pub proof fn lemma_in_order(list: Seq<Keyed>)
    ensures
        keys_ascend(in_order(list)),
        in_order(list).len() == list.len(),
        in_order(list).to_multiset() == list.to_multiset(),
    decreases list.len(),
{
    broadcast use vstd::seq_lib::group_to_multiset_ensures;

    if list.len() > 0 {
        lemma_in_order(list.drop_last());
        lemma_inserted_ascends(in_order(list.drop_last()), list.last());
        assert(list =~= list.drop_last().push(list.last()));
    } else {
        assert(in_order(list) =~= list);
    }
}

/// Instructions with their keys.
pub open spec fn zipped(keys: Seq<Rva>, items: Seq<MachineInstruction>) -> Seq<Keyed> {
    Seq::new(keys.len(), |i: int| (keys[i], items[i]@))
}

/// Inserts an instruction behind those with no greater key.
fn insert_keyed(
    keys: &mut Vec<Rva>,
    items: &mut Vec<MachineInstruction>,
    key: Rva,
    item: MachineInstruction,
)
    requires
        old(keys)@.len() == old(items)@.len(),
        keys_ascend(zipped(old(keys)@, old(items)@)),
    ensures
        final(keys)@.len() == final(items)@.len(),
        zipped(final(keys)@, final(items)@) == inserted(
            zipped(old(keys)@, old(items)@),
            (key, item@),
        ),
        keys_ascend(zipped(final(keys)@, final(items)@)),
{
    let ghost before = zipped(keys@, items@);
    let ghost added = (key, item@);
    let mut at: usize = keys.len();
    while at > 0 && keys[at - 1].0 > key.0
        invariant
            at <= keys@.len(),
            keys@ == old(keys)@,
            items@ == old(items)@,
            keys@.len() == items@.len(),
            before == zipped(keys@, items@),
            forall|i: int| at <= i < before.len() ==> (#[trigger] before[i]).0.0 > key.0,
        decreases at,
    {
        at = at - 1;
    }
    keys.insert(at, key);
    items.insert(at, item);
    proof {
        lemma_inserted_at(before, added, at as int);
        assert(zipped(keys@, items@) =~= before.insert(at as int, added));
        lemma_inserted_ascends(before, added);
    }
}

// ---------------------------------------------------------------------------
// What a slice keeps
// ---------------------------------------------------------------------------

/// What a slice keeps of the first instructions of a block, and the address that
/// further inserted instructions follow.
pub struct Retained {
    pub list: Seq<Keyed>,
    pub anchor: Option<Rva>,
    /// The number of selected instructions.
    pub selected: nat,
}

/// What a slice keeps of `list`, the start of a block: the selected instructions,
/// and what was inserted right behind them.
pub open spec fn retained(list: Seq<InstructionView>, selected: Seq<Rva>) -> Retained
    decreases list.len(),
{
    if list.len() == 0 {
        Retained { list: Seq::empty(), anchor: None, selected: 0 }
    } else {
        let before = retained(list.drop_last(), selected);
        match list.last().rva {
            Some(rva) => if selected.contains(rva) {
                Retained {
                    list: before.list.push((rva, list.last())),
                    anchor: Some(rva),
                    selected: before.selected + 1,
                }
            } else {
                Retained { anchor: None, ..before }
            },
            None => match before.anchor {
                Some(anchor) => Retained {
                    list: before.list.push((anchor, list.last())),
                    ..before
                },
                None => before,
            },
        }
    }
}

/// What a slice keeps of the first `count` blocks.
pub open spec fn retained_blocks(blocks: Seq<BasicBlock>, selected: Seq<Rva>, count: nat) -> Retained
    decreases count,
{
    if count == 0 || count > blocks.len() {
        Retained { list: Seq::empty(), anchor: None, selected: 0 }
    } else {
        let before = retained_blocks(blocks, selected, (count - 1) as nat);
        let more = retained(code::views(blocks[count - 1].instructions@), selected);
        Retained {
            list: before.list + more.list,
            anchor: None,
            selected: before.selected + more.selected,
        }
    }
}

/// The bridge at a closing marker, for what the decoder says of its bytes.
pub open spec fn bridge_from(marker: Rva, bytes: Seq<u8>, raw: RawInstruction) -> Result<
    InstructionView,
    EmitError,
> {
    if raw.invalid || raw.len != BRIDGE_LEN {
        Err(EmitError::SdkMarker(SdkFailure::BridgeNotNear { marker }))
    } else {
        Ok(InstructionView { rva: Some(marker), bytes, refs: Seq::empty() })
    }
}

/// The bridge from a closing marker to where the code continues.
pub open spec fn bridge_of(marker: Rva, continuation: Rva) -> Result<InstructionView, EmitError> {
    let distance = continuation.0 - (marker.0 + 5);
    let bytes = decoder::near_jump(distance);
    if address::fits_near(distance) {
        bridge_from(marker, bytes, decoder::decoded(bytes, marker.0 as u64))
    } else {
        Err(EmitError::SdkMarker(SdkFailure::BridgeUnreachable { marker }))
    }
}

/// The bridges of the first closing markers, or the first failure.
pub open spec fn bridges_of(continuations: Seq<(Rva, Rva)>) -> Result<Seq<Keyed>, EmitError>
    decreases continuations.len(),
{
    if continuations.len() == 0 {
        Ok(Seq::empty())
    } else {
        match bridges_of(continuations.drop_last()) {
            Err(error) => Err(error),
            Ok(before) => {
                let (marker, continuation) = continuations.last();
                match bridge_of(marker, continuation) {
                    Err(error) => Err(error),
                    Ok(bridge) => Ok(before.push((marker, bridge))),
                }
            },
        }
    }
}

/// The address behind the last instruction that has one.
pub open spec fn end_of(list: Seq<Keyed>) -> Option<Rva>
    decreases list.len(),
{
    if list.len() == 0 {
        None
    } else {
        match list.last().1.next_rva() {
            Some(end) => Some(end),
            None => end_of(list.drop_last()),
        }
    }
}

/// The mathematical view of a slice.
#[verifier::ext_equal]
pub struct SliceView {
    pub architecture: Architecture,
    pub entry: Rva,
    pub start: Rva,
    pub end: Rva,
    pub code: Seq<InstructionView>,
}

/// The instructions without their keys.
pub open spec fn unkeyed(list: Seq<Keyed>) -> Seq<InstructionView> {
    Seq::new(list.len(), |i: int| list[i].1)
}

/// What a region becomes: its instructions and the bridges out of it, in the order of
/// their addresses.
pub open spec fn slice_view(
    function: Function,
    entry: Rva,
    selected: Seq<Rva>,
    continuations: Seq<(Rva, Rva)>,
) -> Result<SliceView, EmitError> {
    let kept = retained_blocks(function.blocks@, selected, function.blocks@.len());
    if kept.selected != selected.len() {
        Err(EmitError::SdkMarker(SdkFailure::UndecodedSelection))
    } else {
        match bridges_of(continuations) {
            Err(error) => Err(error),
            Ok(bridges) => {
                let list = in_order(kept.list + bridges);
                if list.len() == 0 {
                    Err(EmitError::SdkMarker(SdkFailure::EmptyRegion))
                } else {
                    match end_of(list) {
                        None => Err(EmitError::SdkMarker(SdkFailure::RegionEndOverflows)),
                        Some(end) => Ok(
                            SliceView {
                                architecture: function.architecture,
                                entry,
                                start: list[0].0,
                                end,
                                code: unkeyed(list),
                            },
                        ),
                    }
                }
            },
        }
    }
}

/// The slice of a region, and the number of requests for room made to build it. Room
/// for every instruction of the function and for every bridge is asked for at once,
/// and only for a region that its entry opens.
pub open spec fn slice_of(
    g: Grants,
    asked: nat,
    function: Function,
    entry: Rva,
    selected: Seq<Rva>,
    continuations: Seq<(Rva, Rva)>,
) -> Answered<SliceView> {
    let capacity = function.code().len() + continuations.len();
    if !selected.contains(entry) {
        Answered { out: Err(EmitError::SdkMarker(SdkFailure::EntryNotSelected { entry })), asked }
    } else if exists|i: int| 0 <= i < selected.len() && (#[trigger] selected[i]).0 < entry.0 {
        Answered { out: Err(EmitError::SdkMarker(SdkFailure::ReachesBeforeBegin)), asked }
    } else if capacity > usize::MAX {
        memory::refused(asked)
    } else {
        memory::once(g, asked, capacity, slice_view(function, entry, selected, continuations))
    }
}

/// `slice` is a function of one block that holds what `view` says.
pub open spec fn is_slice(slice: Function, view: SliceView) -> bool {
    &&& slice.architecture == view.architecture
    &&& slice.entry == view.entry
    &&& slice.entry_block == BlockId(0)
    &&& slice.unwind is None
    &&& slice.issues@.len() == 0
    &&& slice.stage == CompileStage::Decoded
    &&& slice.blocks@.len() == 1
    &&& slice.blocks@[0].id == BlockId(0)
    &&& slice.blocks@[0].start == view.start
    &&& slice.blocks@[0].end == view.end
    &&& slice.blocks@[0].terminator == Terminator::Halt
    &&& slice.blocks@[0].successors@.len() == 0
    &&& slice.blocks@[0].predecessors@.len() == 0
    &&& code::views(slice.blocks@[0].instructions@) == view.code
}

/// The instructions of a slice are those of its one block.
pub proof fn lemma_slice_code(slice: Function, view: SliceView)
    requires
        is_slice(slice, view),
    ensures
        slice.code() == view.code,
{
    reveal_with_fuel(code::instructions_of, 2);
    assert(slice.code() =~= view.code);
}

/// The bridge at a closing marker, for what the decoder says of its bytes.
pub fn checked_bridge(marker: Rva, bytes: Vec<u8>, raw: RawInstruction) -> (r: Result<
    MachineInstruction,
    EmitError,
>)
    ensures
        match bridge_from(marker, bytes@, raw) {
            Ok(bridge) => r matches Ok(instruction) && instruction@ == bridge,
            Err(error) => r == Err::<MachineInstruction, EmitError>(error),
        },
{
    if raw.invalid || raw.len != BRIDGE_LEN {
        return Err(EmitError::SdkMarker(SdkFailure::BridgeNotNear { marker }));
    }
    Ok(MachineInstruction::decoded(marker, bytes.as_slice()))
}

/// The bridge from a closing marker to where the code continues.
pub fn encode_bridge(marker: Rva, continuation: Rva) -> (r: Result<MachineInstruction, EmitError>)
    ensures
        match bridge_of(marker, continuation) {
            Ok(bridge) => r matches Ok(instruction) && instruction@ == bridge,
            Err(error) => r == Err::<MachineInstruction, EmitError>(error),
        },
{
    let bytes = match encode_near_jump(marker.0, continuation.0) {
        Some(bytes) => bytes,
        None => return Err(EmitError::SdkMarker(SdkFailure::BridgeUnreachable { marker })),
    };
    let raw = decode_one(bytes.as_slice(), marker.0 as u64);
    checked_bridge(marker, bytes, raw)
}

/// Reports whether some address lies before `entry`.
fn reaches_before(selected: &[Rva], entry: Rva) -> (yes: bool)
    ensures
        yes == exists|i: int|
            0 <= i < selected@.len() && (#[trigger] selected@[i]).0 < entry.0,
{
    let mut index: usize = 0;
    while index < selected.len()
        invariant
            index <= selected@.len(),
            forall|i: int| 0 <= i < index ==> (#[trigger] selected@[i]).0 >= entry.0,
        decreases selected@.len() - index,
    {
        if selected[index].0 < entry.0 {
            assert(selected@[index as int].0 < entry.0);
            return true;
        }
        index += 1;
    }
    false
}

/// A failure among the first bridges is the failure of all of them.
proof fn lemma_bridges_prefix(continuations: Seq<(Rva, Rva)>, count: int)
    requires
        0 <= count <= continuations.len(),
        bridges_of(continuations.take(count)) is Err,
    ensures
        bridges_of(continuations) == bridges_of(continuations.take(count)),
    decreases continuations.len() - count,
{
    if count == continuations.len() {
        assert(continuations.take(count) =~= continuations);
    } else {
        assert(continuations.take(count + 1).drop_last() =~= continuations.take(count));
        lemma_bridges_prefix(continuations, count + 1);
    }
}

/// Sorting one more item.
proof fn lemma_in_order_push(list: Seq<Keyed>, item: Keyed)
    ensures
        in_order(list.push(item)) == inserted(in_order(list), item),
{
    assert(list.push(item).drop_last() =~= list);
}

/// Collects what a slice keeps of one block. Returns the number of selected
/// instructions.
fn retain_block(
    block: &BasicBlock,
    selected: &[Rva],
    keys: &mut Vec<Rva>,
    items: &mut Vec<MachineInstruction>,
    Ghost(before): Ghost<Seq<Keyed>>,
) -> (count: usize)
    requires
        old(keys)@.len() == old(items)@.len(),
        zipped(old(keys)@, old(items)@) == in_order(before),
    ensures
        final(keys)@.len() == final(items)@.len(),
        zipped(final(keys)@, final(items)@) == in_order(
            before + retained(code::views(block.instructions@), selected@).list,
        ),
        count == retained(code::views(block.instructions@), selected@).selected,
{
    let ghost list = code::views(block.instructions@);
    let mut anchor: Option<Rva> = None;
    let mut count: usize = 0;
    let mut index: usize = 0;
    proof {
        assert(list.take(0) =~= Seq::empty());
        assert(before + retained(list.take(0), selected@).list =~= before);
    }
    while index < block.instructions.len()
        invariant
            index <= block.instructions@.len(),
            list == code::views(block.instructions@),
            keys@.len() == items@.len(),
            zipped(keys@, items@) == in_order(
                before + retained(list.take(index as int), selected@).list,
            ),
            anchor == retained(list.take(index as int), selected@).anchor,
            count == retained(list.take(index as int), selected@).selected,
            count <= index,
        decreases block.instructions@.len() - index,
    {
        let instruction = &block.instructions[index];
        let ghost so_far = retained(list.take(index as int), selected@).list;
        proof {
            assert(list.take(index + 1).drop_last() =~= list.take(index as int));
            assert(list.take(index + 1).last() == instruction@);
            lemma_in_order(before + so_far);
        }
        if let Some(rva) = instruction.rva() {
            if contains(selected, rva) {
                insert_keyed(keys, items, rva, instruction.duplicate());
                proof {
                    lemma_in_order_push(before + so_far, (rva, instruction@));
                    assert((before + so_far).push((rva, instruction@)) =~= before + so_far.push(
                        (rva, instruction@),
                    ));
                }
                anchor = Some(rva);
                count += 1;
            } else {
                anchor = None;
            }
        } else if let Some(rva) = anchor {
            insert_keyed(keys, items, rva, instruction.duplicate());
            proof {
                lemma_in_order_push(before + so_far, (rva, instruction@));
                assert((before + so_far).push((rva, instruction@)) =~= before + so_far.push(
                    (rva, instruction@),
                ));
            }
        }
        index += 1;
    }
    assert(list.take(index as int) =~= list);
    count
}

/// Builds the slice of a region.
pub fn build_region_slice(
    function: &Function,
    entry: Rva,
    selected: &[Rva],
    continuations: &[(Rva, Rva)],
    memory: &mut Memory,
) -> (r: Result<Function, EmitError>)
    ensures
        forall|g: Grants| #[trigger]
            final(memory).agrees(g) ==> old(memory).agrees(g) && ({
                let built = slice_of(
                    g,
                    old(memory).asked(),
                    *function,
                    entry,
                    selected@,
                    continuations@,
                );
                &&& final(memory).asked() == built.asked
                &&& match built.out {
                    Ok(view) => r matches Ok(slice) && is_slice(slice, view),
                    Err(error) => r == Err::<Function, EmitError>(error),
                }
            }),
{
    if !contains(selected, entry) {
        return Err(EmitError::SdkMarker(SdkFailure::EntryNotSelected { entry }));
    }
    if reaches_before(selected, entry) {
        return Err(EmitError::SdkMarker(SdkFailure::ReachesBeforeBegin));
    }
    let capacity = match function.instructions().len().checked_add(continuations.len()) {
        Some(capacity) => capacity,
        None => return Err(allocation_error()),
    };
    let mut keys: Vec<Rva> = Vec::new();
    let mut items: Vec<MachineInstruction> = Vec::new();
    if !memory.reserve(&mut items, capacity) {
        return Err(allocation_error());
    }
    let ghost reserved = *memory;
    let ghost blocks = function.blocks@;
    let mut decoded: usize = 0;
    let mut index: usize = 0;
    assert(zipped(keys@, items@) =~= in_order(Seq::empty()));
    while index < function.blocks.len()
        invariant
            index <= function.blocks@.len(),
            blocks == function.blocks@,
            *memory == reserved,
            function.code().len() <= usize::MAX,
            keys@.len() == items@.len(),
            zipped(keys@, items@) == in_order(
                retained_blocks(blocks, selected@, index as nat).list,
            ),
            decoded == retained_blocks(blocks, selected@, index as nat).selected,
            decoded <= code::instructions_of(blocks, index as nat).len(),
        decreases function.blocks@.len() - index,
    {
        let ghost so_far = retained_blocks(blocks, selected@, index as nat).list;
        let ghost list = code::views(blocks[index as int].instructions@);
        proof {
            lemma_retained_count(list, selected@);
            lemma_instructions_grow(blocks, (index + 1) as nat, blocks.len());
        }
        let count = retain_block(
            &function.blocks[index],
            selected,
            &mut keys,
            &mut items,
            Ghost(so_far),
        );
        decoded = decoded + count;
        index += 1;
    }
    if decoded != selected.len() {
        return Err(EmitError::SdkMarker(SdkFailure::UndecodedSelection));
    }
    let ghost kept = retained_blocks(blocks, selected@, blocks.len());
    let mut index: usize = 0;
    proof {
        assert(continuations@.take(0) =~= Seq::empty());
        assert(kept.list + Seq::<Keyed>::empty() =~= kept.list);
    }
    while index < continuations.len()
        invariant
            index <= continuations@.len(),
            *memory == reserved,
            blocks == function.blocks@,
            kept == retained_blocks(blocks, selected@, blocks.len()),
            keys@.len() == items@.len(),
            bridges_of(continuations@.take(index as int)) is Ok,
            zipped(keys@, items@) == in_order(
                kept.list + bridges_of(continuations@.take(index as int))->Ok_0,
            ),
            reserved.asked() == memory::counted(
                old(memory).asked(),
                function.code().len() + continuations@.len(),
            ),
            forall|g: Grants| #[trigger]
                reserved.agrees(g) ==> old(memory).agrees(g) && memory::allows(
                    g,
                    old(memory).asked(),
                    function.code().len() + continuations@.len(),
                ),
            selected@.contains(entry),
            !exists|i: int| 0 <= i < selected@.len() && (#[trigger] selected@[i]).0 < entry.0,
            function.code().len() + continuations@.len() <= usize::MAX,
            kept.selected == selected@.len(),
        decreases continuations@.len() - index,
    {
        let (marker, continuation) = continuations[index];
        let ghost so_far = bridges_of(continuations@.take(index as int))->Ok_0;
        proof {
            let more = continuations@.take(index + 1);
            assert(more.drop_last() =~= continuations@.take(index as int));
            assert(more.last() == (marker, continuation));
            lemma_in_order(kept.list + so_far);
        }
        match encode_bridge(marker, continuation) {
            Ok(bridge) => {
                let ghost view = bridge@;
                insert_keyed(&mut keys, &mut items, marker, bridge);
                proof {
                    lemma_in_order_push(kept.list + so_far, (marker, view));
                    assert((kept.list + so_far).push((marker, view)) =~= kept.list + so_far.push(
                        (marker, view),
                    ));
                }
            },
            Err(error) => {
                proof {
                    lemma_bridges_prefix(continuations@, index + 1);
                }
                return Err(error);
            },
        }
        index += 1;
    }
    assert(continuations@.take(index as int) =~= continuations@);
    let ghost list = zipped(keys@, items@);
    if keys.len() == 0 {
        return Err(EmitError::SdkMarker(SdkFailure::EmptyRegion));
    }
    let start = keys[0];
    let mut left: usize = items.len();
    let mut end: Option<Rva> = None;
    assert(list.take(left as int) =~= list);
    while left > 0 && end.is_none()
        invariant
            left <= items@.len(),
            keys@.len() == items@.len(),
            list == zipped(keys@, items@),
            match end {
                Some(found) => end_of(list) == Some(found),
                None => end_of(list) == end_of(list.take(left as int)),
            },
        decreases left,
    {
        proof {
            assert(list.take(left as int).drop_last() =~= list.take(left - 1));
        }
        left = left - 1;
        end = items[left].next_rva();
    }
    let end = match end {
        Some(end) => end,
        None => return Err(EmitError::SdkMarker(SdkFailure::RegionEndOverflows)),
    };
    assert(code::views(items@) =~= unkeyed(list));
    let block = BasicBlock {
        id: BlockId(0),
        start,
        end,
        instructions: items,
        terminator: Terminator::Halt,
        successors: Vec::new(),
        predecessors: Vec::new(),
    };
    let mut slice_blocks: Vec<BasicBlock> = Vec::new();
    slice_blocks.push(block);
    Ok(
        Function {
            architecture: function.architecture,
            entry,
            blocks: slice_blocks,
            entry_block: BlockId(0),
            unwind: None,
            issues: Vec::new(),
            stage: CompileStage::Decoded,
        },
    )
}

/// No more instructions are selected than there are.
proof fn lemma_retained_count(list: Seq<InstructionView>, selected: Seq<Rva>)
    ensures
        retained(list, selected).selected <= list.len(),
    decreases list.len(),
{
    if list.len() > 0 {
        lemma_retained_count(list.drop_last(), selected);
    }
}

/// More blocks have no fewer instructions.
proof fn lemma_instructions_grow(blocks: Seq<BasicBlock>, few: nat, many: nat)
    requires
        few <= many <= blocks.len(),
    ensures
        code::instructions_of(blocks, few).len() <= code::instructions_of(blocks, many).len(),
    decreases many,
{
    if few < many {
        lemma_instructions_grow(blocks, few, (many - 1) as nat);
    }
}

// ---------------------------------------------------------------------------
// Laws
// ---------------------------------------------------------------------------

/// The item is a selected instruction, was inserted behind one, or is a bridge at a
/// closing marker.
pub open spec fn belongs(item: Keyed, selected: Seq<Rva>, continuations: Seq<(Rva, Rva)>) -> bool {
    ||| selected.contains(item.0) && (item.1.rva == Some(item.0) || item.1.rva is None)
    ||| item.1.rva == Some(item.0) && exists|k: int|
        0 <= k < continuations.len() && (#[trigger] continuations[k]).0 == item.0
}

/// What is kept of a block is selected, or was inserted behind what is.
proof fn lemma_retained_selected(list: Seq<InstructionView>, selected: Seq<Rva>)
    ensures
        retained(list, selected).anchor matches Some(anchor) ==> selected.contains(anchor),
        forall|i: int|
            0 <= i < retained(list, selected).list.len() ==> belongs(
                #[trigger] retained(list, selected).list[i],
                selected,
                Seq::empty(),
            ),
    decreases list.len(),
{
    if list.len() > 0 {
        lemma_retained_selected(list.drop_last(), selected);
        let before = retained(list.drop_last(), selected);
        let now = retained(list, selected);
        assert forall|i: int| 0 <= i < now.list.len() implies belongs(
            #[trigger] now.list[i],
            selected,
            Seq::empty(),
        ) by {
            if i < before.list.len() {
                assert(now.list[i] == before.list[i]);
            }
        }
    }
}

/// What is kept of the blocks is selected, or was inserted behind what is.
proof fn lemma_retained_blocks_selected(blocks: Seq<BasicBlock>, selected: Seq<Rva>, count: nat)
    ensures
        forall|i: int|
            0 <= i < retained_blocks(blocks, selected, count).list.len() ==> belongs(
                #[trigger] retained_blocks(blocks, selected, count).list[i],
                selected,
                Seq::empty(),
            ),
    decreases count,
{
    if 0 < count <= blocks.len() {
        lemma_retained_blocks_selected(blocks, selected, (count - 1) as nat);
        let before = retained_blocks(blocks, selected, (count - 1) as nat);
        let list = code::views(blocks[count - 1].instructions@);
        lemma_retained_selected(list, selected);
        let more = retained(list, selected);
        let now = retained_blocks(blocks, selected, count);
        assert forall|i: int| 0 <= i < now.list.len() implies belongs(
            #[trigger] now.list[i],
            selected,
            Seq::empty(),
        ) by {
            if i < before.list.len() {
                assert(now.list[i] == before.list[i]);
            } else {
                assert(now.list[i] == more.list[i - before.list.len()]);
            }
        }
    }
}

/// A bridge stands at its closing marker.
proof fn lemma_bridges_belong(continuations: Seq<(Rva, Rva)>, selected: Seq<Rva>)
    requires
        bridges_of(continuations) is Ok,
    ensures
        bridges_of(continuations)->Ok_0.len() == continuations.len(),
        forall|i: int|
            0 <= i < continuations.len() ==> belongs(
                #[trigger] bridges_of(continuations)->Ok_0[i],
                selected,
                continuations,
            ),
    decreases continuations.len(),
{
    if continuations.len() > 0 {
        let shorter = continuations.drop_last();
        lemma_bridges_belong(shorter, selected);
        let before = bridges_of(shorter)->Ok_0;
        let now = bridges_of(continuations)->Ok_0;
        assert forall|i: int| 0 <= i < continuations.len() implies belongs(
            #[trigger] now[i],
            selected,
            continuations,
        ) by {
            if i < shorter.len() {
                assert(now[i] == before[i]);
                assert(belongs(before[i], selected, shorter));
                assert forall|k: int| 0 <= k < shorter.len() implies continuations[k]
                    == #[trigger] shorter[k] by {}
                if exists|k: int| 0 <= k < shorter.len() && (#[trigger] shorter[k]).0 == now[i].0 {
                    let k = choose|k: int|
                        0 <= k < shorter.len() && (#[trigger] shorter[k]).0 == now[i].0;
                    assert(continuations[k].0 == now[i].0);
                }
            } else {
                assert(continuations[i].0 == now[i].0);
            }
        }
    } else {
        reveal_with_fuel(bridges_of, 1);
    }
}

/// A slice holds nothing but the region: each of its instructions is selected, was
/// inserted behind a selected one, or is the bridge at a closing marker. They stand
/// in the order of the addresses that they belong to.
pub proof fn lemma_slice_holds_region_only(
    function: Function,
    entry: Rva,
    selected: Seq<Rva>,
    continuations: Seq<(Rva, Rva)>,
    i: int,
)
    requires
        slice_view(function, entry, selected, continuations) is Ok,
        0 <= i < slice_view(function, entry, selected, continuations)->Ok_0.code.len(),
    ensures
        ({
            let kept = retained_blocks(function.blocks@, selected, function.blocks@.len()).list;
            let list = in_order(kept + bridges_of(continuations)->Ok_0);
            let code = slice_view(function, entry, selected, continuations)->Ok_0.code;
            &&& code.len() == kept.len() + continuations.len()
            &&& code[i] == list[i].1
            &&& belongs(list[i], selected, continuations)
            &&& keys_ascend(list)
        }),
{
    broadcast use vstd::seq_lib::group_to_multiset_ensures;

    let kept = retained_blocks(function.blocks@, selected, function.blocks@.len()).list;
    let bridges = bridges_of(continuations)->Ok_0;
    let all = kept + bridges;
    let list = in_order(all);
    lemma_retained_blocks_selected(function.blocks@, selected, function.blocks@.len());
    lemma_bridges_belong(continuations, selected);
    lemma_in_order(all);
    assert(list.to_multiset().count(list[i]) > 0);
    assert(all.contains(list[i]));
    let k = choose|k: int| 0 <= k < all.len() && all[k] == list[i];
    if k < kept.len() {
        assert(belongs(kept[k], selected, Seq::empty()));
    } else {
        assert(belongs(bridges[k - kept.len()], selected, continuations));
    }
}

} // verus!
