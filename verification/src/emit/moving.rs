//! What holds of a function that is moved, address by address.

use vstd::prelude::*;

use crate::emit::address::Rva;
use crate::emit::code;
use crate::emit::code::{BasicBlock, Epilogue, Function, InstructionView};
use crate::emit::error::SkipReason;
use crate::emit::layout;
use crate::emit::protect;
use crate::emit::protect::{Event, Preparing, Ready, Run};
use crate::emit::relocated;
use crate::emit::relocated::{Measured, Relocated};
use crate::emit::stub::Stub;
use crate::emit::unwind::UnwindInfo;

verus! {

// ---------------------------------------------------------------------------
// The instructions of a function
// ---------------------------------------------------------------------------

/// The number of instructions in the blocks in front of `block`.
pub open spec fn ahead_of(blocks: Seq<BasicBlock>, block: int) -> int
    decreases block,
{
    if block <= 0 {
        0
    } else {
        ahead_of(blocks, block - 1) + blocks[block - 1].instructions@.len()
    }
}

/// The code of a function is the instructions of its blocks: instruction `i` of block
/// `b` stands behind those of the blocks in front and those in front of it in its own
/// block, and the code is no longer than the blocks.
pub proof fn lemma_code_is_all_blocks(function: Function, b: int, i: int)
    requires
        0 <= b < function.blocks@.len(),
        0 <= i < function.blocks@[b].instructions@.len(),
    ensures
        function.code().len() == ahead_of(function.blocks@, function.blocks@.len() as int),
        0 <= ahead_of(function.blocks@, b) + i < function.code().len(),
        function.code()[ahead_of(function.blocks@, b) + i]
            == function.blocks@[b].instructions@[i]@,
{
    let blocks = function.blocks@;
    lemma_instructions_of(blocks, blocks.len());
    lemma_instruction_placed(blocks, blocks.len(), b, i);
}

/// The first blocks hold that many instructions.
proof fn lemma_instructions_of(blocks: Seq<BasicBlock>, count: nat)
    requires
        count <= blocks.len(),
    ensures
        code::instructions_of(blocks, count).len() == ahead_of(blocks, count as int),
    decreases count,
{
    if count > 0 {
        lemma_instructions_of(blocks, (count - 1) as nat);
    }
}

/// An instruction of one of the first blocks stands behind those of the blocks in
/// front.
proof fn lemma_instruction_placed(blocks: Seq<BasicBlock>, count: nat, b: int, i: int)
    requires
        count <= blocks.len(),
        0 <= b < count,
        0 <= i < blocks[b].instructions@.len(),
    ensures
        0 <= ahead_of(blocks, b) + i < code::instructions_of(blocks, count).len(),
        code::instructions_of(blocks, count)[ahead_of(blocks, b) + i]
            == blocks[b].instructions@[i]@,
    decreases count,
{
    lemma_instructions_of(blocks, (count - 1) as nat);
    let before = code::instructions_of(blocks, (count - 1) as nat);
    let added = code::views(blocks[count - 1].instructions@);
    if b < count - 1 {
        lemma_instruction_placed(blocks, (count - 1) as nat, b, i);
    } else {
        assert(ahead_of(blocks, b) == before.len());
        assert((before + added)[before.len() + i] == added[i]);
    }
}

/// Every instruction of the code stands in some block.
pub proof fn lemma_code_comes_from_blocks(function: Function, place: int)
    requires
        0 <= place < function.code().len(),
    ensures
        exists|b: int, i: int|
            0 <= b < function.blocks@.len() && 0 <= i < function.blocks@[b].instructions@.len() && (
            #[trigger] function.blocks@[b].instructions@[i])@ == function.code()[place],
{
    lemma_comes_from(function.blocks@, function.blocks@.len(), place);
}

/// Every instruction of the first blocks stands in one of them.
proof fn lemma_comes_from(blocks: Seq<BasicBlock>, count: nat, place: int)
    requires
        count <= blocks.len(),
        0 <= place < code::instructions_of(blocks, count).len(),
    ensures
        exists|b: int, i: int|
            0 <= b < count && 0 <= i < blocks[b].instructions@.len() && (
            #[trigger] blocks[b].instructions@[i])@ == code::instructions_of(blocks, count)[place],
    decreases count,
{
    if count > 0 {
        let before = code::instructions_of(blocks, (count - 1) as nat);
        if place < before.len() {
            lemma_comes_from(blocks, (count - 1) as nat, place);
        } else {
            let i = place - before.len();
            assert(blocks[count - 1].instructions@[i]@ == code::instructions_of(
                blocks,
                count,
            )[place]);
        }
    }
}

// ---------------------------------------------------------------------------
// Prologues
// ---------------------------------------------------------------------------

/// The instruction starts in front of `end`.
pub open spec fn starts_before(instruction: InstructionView, end: int) -> bool {
    instruction.rva is Some && (instruction.rva->0).0 < end
}

/// The instructions that start in front of `end` fill the addresses from `start` up
/// to `end` exactly: they lie in them, follow one another, and leave no gap.
pub open spec fn fills(list: Seq<InstructionView>, start: int, end: int) -> bool {
    &&& forall|i: int|
        0 <= i < list.len() && starts_before(#[trigger] list[i], end) ==> start <= (
        list[i].rva->0).0 && (list[i].rva->0).0 + list[i].bytes.len() <= end
    &&& forall|i: int, j: int|
        0 <= i < j < list.len() && starts_before(#[trigger] list[i], end) && starts_before(
            #[trigger] list[j],
            end,
        ) ==> (list[i].rva->0).0 + list[i].bytes.len() <= (list[j].rva->0).0
    &&& forall|rva: int|
        start <= rva < end ==> #[trigger] is_covered(list, rva, end)
}

/// Some instruction that starts in front of `end` covers the address.
pub open spec fn is_covered(list: Seq<InstructionView>, rva: int, end: int) -> bool {
    exists|i: int|
        0 <= i < list.len() && starts_before(#[trigger] list[i], end) && (list[i].rva->0).0 <= rva
            < (list[i].rva->0).0 + list[i].bytes.len()
}

/// The first instruction and the rest cover what they cover together.
proof fn lemma_covered_split(list: Seq<InstructionView>, rva: int, end: int)
    requires
        list.len() > 0,
    ensures
        is_covered(list, rva, end) <==> (is_covered(list.drop_first(), rva, end) || (starts_before(
            list[0],
            end,
        ) && (list[0].rva->0).0 <= rva < (list[0].rva->0).0 + list[0].bytes.len())),
{
    let rest = list.drop_first();
    if is_covered(list, rva, end) {
        let i = choose|i: int|
            0 <= i < list.len() && starts_before(#[trigger] list[i], end) && (list[i].rva->0).0
                <= rva < (list[i].rva->0).0 + list[i].bytes.len();
        if i > 0 {
            assert(rest[i - 1] == list[i]);
        }
    }
    if is_covered(rest, rva, end) {
        let i = choose|i: int|
            0 <= i < rest.len() && starts_before(#[trigger] rest[i], end) && (rest[i].rva->0).0
                <= rva < (rest[i].rva->0).0 + rest[i].bytes.len();
        assert(list[i + 1] == rest[i]);
    }
}

/// A walk that arrives at `end` has filled the addresses in front of it.
proof fn lemma_walk_fills(list: Seq<InstructionView>, end: Rva, at: Rva)
    requires
        layout::contiguous(list, end, at) == Some(end),
    ensures
        at.0 <= end.0,
        fills(list, at.0 as int, end.0 as int),
    decreases list.len(),
{
    let e = end.0 as int;
    if list.len() > 0 {
        let rest = list.drop_first();
        let taken = starts_before(list[0], e);
        let next = if taken {
            list[0].next_rva()->0
        } else {
            at
        };
        lemma_walk_fills(rest, end, next);
        assert forall|i: int|
            0 <= i < list.len() && starts_before(#[trigger] list[i], e) implies at.0 <= (
        list[i].rva->0).0 && (list[i].rva->0).0 + list[i].bytes.len() <= e by {
            if i > 0 {
                assert(rest[i - 1] == list[i]);
            }
        }
        assert forall|i: int, j: int|
            0 <= i < j < list.len() && starts_before(#[trigger] list[i], e) && starts_before(
                #[trigger] list[j],
                e,
            ) implies (list[i].rva->0).0 + list[i].bytes.len() <= (list[j].rva->0).0 by {
            assert(rest[j - 1] == list[j]);
            if i > 0 {
                assert(rest[i - 1] == list[i]);
            }
        }
        assert forall|rva: int| at.0 <= rva < e implies #[trigger] is_covered(list, rva, e) by {
            lemma_covered_split(list, rva, e);
            if next.0 <= rva {
                assert(is_covered(rest, rva, e));
            }
        }
    }
}

/// Addresses that are filled are walked through up to their end.
proof fn lemma_filled_is_walked(list: Seq<InstructionView>, end: Rva, at: Rva)
    requires
        at.0 <= end.0,
        fills(list, at.0 as int, end.0 as int),
    ensures
        layout::contiguous(list, end, at) == Some(end),
    decreases list.len(),
{
    let e = end.0 as int;
    if list.len() == 0 {
        if at.0 < end.0 {
            assert(is_covered(list, at.0 as int, e));
        }
    } else {
        let rest = list.drop_first();
        let taken = starts_before(list[0], e);
        if taken {
            let first = (list[0].rva->0).0;
            if at.0 < first {
                assert(is_covered(list, at.0 as int, e));
                let i = choose|i: int|
                    0 <= i < list.len() && starts_before(#[trigger] list[i], e) && (
                    list[i].rva->0).0 <= at.0 < (list[i].rva->0).0 + list[i].bytes.len();
                assert(starts_before(list[0], e) && starts_before(list[i], e));
                assert(false);
            }
            assert(list[0].rva->0 == at);
        }
        let next = if taken {
            list[0].next_rva()->0
        } else {
            at
        };
        assert forall|i: int|
            0 <= i < rest.len() && starts_before(#[trigger] rest[i], e) implies next.0 <= (
        rest[i].rva->0).0 && (rest[i].rva->0).0 + rest[i].bytes.len() <= e by {
            assert(rest[i] == list[i + 1]);
            assert(starts_before(list[i + 1], e));
            if taken {
                assert(starts_before(list[0], e));
            }
        }
        assert forall|i: int, j: int|
            0 <= i < j < rest.len() && starts_before(#[trigger] rest[i], e) && starts_before(
                #[trigger] rest[j],
                e,
            ) implies (rest[i].rva->0).0 + rest[i].bytes.len() <= (rest[j].rva->0).0 by {
            assert(rest[i] == list[i + 1]);
            assert(rest[j] == list[j + 1]);
        }
        assert forall|rva: int| next.0 <= rva < e implies #[trigger] is_covered(rest, rva, e) by {
            assert(is_covered(list, rva, e));
            lemma_covered_split(list, rva, e);
        }
        lemma_filled_is_walked(rest, end, next);
    }
}

/// A prologue of `size` bytes ends on an instruction boundary exactly where the
/// instructions that start in it fill it: each lies in it, they follow one another,
/// and no byte of it is left over.
pub proof fn lemma_prologue_boundary_is_filled(
    list: Seq<InstructionView>,
    entry: Rva,
    size: u8,
)
    ensures
        layout::prologue_boundary(list, entry, size) == (entry.0 + size <= u32::MAX && fills(
            list,
            entry.0 as int,
            entry.0 + size,
        )),
{
    if entry.0 + size <= u32::MAX {
        let end = Rva((entry.0 + size) as u32);
        if layout::contiguous(list, end, entry) == Some(end) {
            lemma_walk_fills(list, end, entry);
        }
        if fills(list, entry.0 as int, end.0 as int) {
            lemma_filled_is_walked(list, end, entry);
        }
    }
}

/// A measurement of an address is the first that was taken of it.
pub proof fn lemma_measurement_is_first(measured: Seq<Measured>, rva: Rva)
    ensures
        match relocated::measurement(measured, rva) {
            Some(found) => found.from == rva && exists|i: int|
                0 <= i < measured.len() && #[trigger] measured[i] == found && forall|j: int|
                    0 <= j < i ==> (#[trigger] measured[j]).from != rva,
            None => forall|i: int| 0 <= i < measured.len() ==> (#[trigger] measured[i]).from != rva,
        },
    decreases measured.len(),
{
    if measured.len() > 0 && measured[0].from != rva {
        let rest = measured.drop_first();
        lemma_measurement_is_first(rest, rva);
        match relocated::measurement(rest, rva) {
            Some(found) => {
                let i = choose|i: int|
                    0 <= i < rest.len() && #[trigger] rest[i] == found && forall|j: int|
                        0 <= j < i ==> (#[trigger] rest[j]).from != rva;
                assert(measured[i + 1] == found);
                assert forall|j: int| 0 <= j < i + 1 implies (#[trigger] measured[j]).from
                    != rva by {
                    if j > 0 {
                        assert(rest[j - 1] == measured[j]);
                    }
                }
            },
            None => {
                assert forall|i: int| 0 <= i < measured.len() implies (
                #[trigger] measured[i]).from != rva by {
                    if i > 0 {
                        assert(rest[i - 1] == measured[i]);
                    }
                }
            },
        }
    }
}

/// Where an instruction went is where the first entry for it says, and an
/// instruction without an entry went nowhere.
pub proof fn lemma_destination_is_first(moved: Seq<(Rva, Rva)>, rva: Rva)
    ensures
        match relocated::destination(moved, rva) {
            Some(to) => exists|i: int|
                0 <= i < moved.len() && #[trigger] moved[i] == (rva, to) && forall|j: int|
                    0 <= j < i ==> (#[trigger] moved[j]).0 != rva,
            None => forall|i: int| 0 <= i < moved.len() ==> (#[trigger] moved[i]).0 != rva,
        },
    decreases moved.len(),
{
    if moved.len() > 0 && moved[0].0 != rva {
        let rest = moved.drop_first();
        lemma_destination_is_first(rest, rva);
        match relocated::destination(rest, rva) {
            Some(to) => {
                let i = choose|i: int|
                    0 <= i < rest.len() && #[trigger] rest[i] == (rva, to) && forall|j: int|
                        0 <= j < i ==> (#[trigger] rest[j]).0 != rva;
                assert(moved[i + 1] == (rva, to));
                assert forall|j: int| 0 <= j < i + 1 implies (#[trigger] moved[j]).0 != rva by {
                    if j > 0 {
                        assert(rest[j - 1] == moved[j]);
                    }
                }
            },
            None => {
                assert forall|i: int| 0 <= i < moved.len() implies (#[trigger] moved[i]).0
                    != rva by {
                    if i > 0 {
                        assert(rest[i - 1] == moved[i]);
                    }
                }
            },
        }
    } else if moved.len() > 0 {
        assert(moved[0] == (rva, moved[0].1));
    }
}

/// The copy of the instruction stands `shift` bytes further on, and is as long as
/// the instruction.
pub open spec fn moved_alike(
    instruction: InstructionView,
    measured: Seq<Measured>,
    shift: int,
) -> bool {
    match relocated::measurement(measured, instruction.rva->0) {
        Some(place) => place.to.0 == (instruction.rva->0).0 + shift && place.len == Some(
            instruction.bytes.len() as usize,
        ),
        None => false,
    }
}

/// A walk through instructions and their copies arrives where every copy is shifted
/// alike.
proof fn lemma_copies_walked(
    list: Seq<InstructionView>,
    measured: Seq<Measured>,
    end: Rva,
    at: Rva,
    copy: Rva,
)
    requires
        layout::contiguous(list, end, at) == Some(end),
        end.0 + (copy.0 - at.0) <= u32::MAX,
    ensures
        (layout::copied_contiguous(list, measured, end, at, copy) == Some(
            (end, Rva((end.0 + (copy.0 - at.0)) as u32)),
        )) == (forall|i: int|
            0 <= i < list.len() && starts_before(#[trigger] list[i], end.0 as int) ==> moved_alike(
                list[i],
                measured,
                copy.0 - at.0,
            )),
    decreases list.len(),
{
    lemma_walk_fills(list, end, at);
    let e = end.0 as int;
    let shift = copy.0 - at.0;
    let all = forall|i: int|
        0 <= i < list.len() && starts_before(#[trigger] list[i], e) ==> moved_alike(
            list[i],
            measured,
            shift,
        );
    if list.len() > 0 {
        let rest = list.drop_first();
        let rest_all = forall|i: int|
            0 <= i < rest.len() && starts_before(#[trigger] rest[i], e) ==> moved_alike(
                rest[i],
                measured,
                shift,
            );
        let taken = starts_before(list[0], e);
        if all {
            assert forall|i: int|
                0 <= i < rest.len() && starts_before(#[trigger] rest[i], e) implies moved_alike(
                rest[i],
                measured,
                shift,
            ) by {
                assert(rest[i] == list[i + 1]);
            }
        }
        if rest_all && (taken ==> moved_alike(list[0], measured, shift)) {
            assert forall|i: int|
                0 <= i < list.len() && starts_before(#[trigger] list[i], e) implies moved_alike(
                list[i],
                measured,
                shift,
            ) by {
                if i > 0 {
                    assert(list[i] == rest[i - 1]);
                }
            }
        }
        assert(all == (rest_all && (taken ==> moved_alike(list[0], measured, shift))));
        if taken {
            let next = list[0].next_rva()->0;
            lemma_walk_fills(rest, end, next);
            assert(next.0 == at.0 + list[0].bytes.len());
            assert(copy.0 + list[0].bytes.len() <= u32::MAX);
            let next_copy = Rva((copy.0 + list[0].bytes.len()) as u32);
            lemma_copies_walked(rest, measured, end, next, next_copy);
        } else {
            lemma_copies_walked(rest, measured, end, at, copy);
        }
    }
}

/// The prologue of a copy has the layout of the original exactly where the original
/// prologue is filled by its instructions, and the copy of each of them stands at
/// the same distance from the entry of the copy and is as long as before.
pub proof fn lemma_prologue_layout_is_kept(
    list: Seq<InstructionView>,
    measured: Seq<Measured>,
    entry: Rva,
    placement: Rva,
    size: u8,
)
    ensures
        layout::prologue_layout(list, measured, entry, placement, size) == {
            &&& entry.0 + size <= u32::MAX
            &&& placement.0 + size <= u32::MAX
            &&& fills(list, entry.0 as int, entry.0 + size)
            &&& forall|i: int|
                0 <= i < list.len() && starts_before(#[trigger] list[i], entry.0 + size)
                    ==> moved_alike(list[i], measured, placement.0 - entry.0)
        },
{
    lemma_prologue_boundary_is_filled(list, entry, size);
    if layout::prologue_boundary(list, entry, size) && placement.0 + size <= u32::MAX {
        let end = Rva((entry.0 + size) as u32);
        assert(end.0 + (placement.0 - entry.0) == placement.0 + size);
        lemma_copies_walked(list, measured, end, entry, placement);
    }
}

// ---------------------------------------------------------------------------
// Epilogues
// ---------------------------------------------------------------------------

/// The instruction stands in the range.
pub open spec fn stands_in(instruction: InstructionView, range: Epilogue) -> bool {
    instruction.rva is Some && range.begin.0 <= (instruction.rva->0).0 < range.end.0
}

/// No instruction between two places stands in the range.
pub open spec fn none_between(
    list: Seq<InstructionView>,
    range: Epilogue,
    first: int,
    second: int,
) -> bool {
    forall|k: int| first < k < second ==> !stands_in(#[trigger] list[k], range)
}

/// The copy of `second` stands right behind the copy of `first`.
pub open spec fn copied_side_by_side(
    first: InstructionView,
    second: InstructionView,
    measured: Seq<Measured>,
) -> bool {
    match (
        relocated::measurement(measured, first.rva->0),
        relocated::measurement(measured, second.rva->0),
    ) {
        (Some(from), Some(to)) => to.to.0 == from.to.0 + first.bytes.len(),
        _ => false,
    }
}

/// The copy of instruction `i` is as long as before, where it stands in the range.
pub open spec fn keeps_length(
    list: Seq<InstructionView>,
    measured: Seq<Measured>,
    range: Epilogue,
    i: int,
) -> bool {
    stands_in(list[i], range) ==> match relocated::measurement(measured, list[i].rva->0) {
        Some(place) => place.len == Some(list[i].bytes.len() as usize),
        None => false,
    }
}

/// The copies of instructions `i` and `j` stand side by side, where the two are
/// neighbours in the range.
pub open spec fn keeps_neighbour(
    list: Seq<InstructionView>,
    measured: Seq<Measured>,
    range: Epilogue,
    i: int,
    j: int,
) -> bool {
    stands_in(list[i], range) && stands_in(list[j], range) && none_between(list, range, i, j)
        ==> copied_side_by_side(list[i], list[j], measured)
}

/// The instructions of the range are copied with their lengths, and the copies of
/// neighbours stand side by side.
pub open spec fn copied_in_one_piece(
    list: Seq<InstructionView>,
    measured: Seq<Measured>,
    range: Epilogue,
) -> bool {
    &&& forall|i: int|
        0 <= i < list.len() ==> #[trigger] keeps_length(list, measured, range, i)
    &&& forall|i: int, j: int|
        0 <= i < j < list.len() ==> #[trigger] keeps_neighbour(list, measured, range, i, j)
}

/// Some instruction stands in the range.
pub open spec fn some_stand_in(list: Seq<InstructionView>, range: Epilogue) -> bool {
    exists|i: int| 0 <= i < list.len() && stands_in(#[trigger] list[i], range)
}

/// The run of an epilogue has the shape that was asked for.
spec fn run_shape(run: Seq<InstructionView>, measured: Seq<Measured>) -> bool {
    &&& forall|i: int| 0 <= i < run.len() ==> layout::same_length(#[trigger] run[i], measured)
    &&& forall|i: int, j: int|
        0 <= i && j == i + 1 && j < run.len() ==> layout::adjacent(
            #[trigger] run[i],
            #[trigger] run[j],
            measured,
        )
}

/// The shape of a run is that of the instructions it was picked from.
proof fn lemma_run_shape(list: Seq<InstructionView>, measured: Seq<Measured>, range: Epilogue)
    ensures
        (layout::epilogue_code(list, range).len() > 0) == some_stand_in(list, range),
        layout::epilogue_code(list, range).len() > 0 ==> exists|i: int|
            0 <= i < list.len() && #[trigger] list[i] == layout::epilogue_code(list, range).last()
                && stands_in(list[i], range) && none_between(list, range, i, list.len() as int),
        run_shape(layout::epilogue_code(list, range), measured) == copied_in_one_piece(
            list,
            measured,
            range,
        ),
    decreases list.len(),
{
    reveal(Seq::filter);
    let run = layout::epilogue_code(list, range);
    if list.len() > 0 {
        let shorter = list.drop_last();
        let before = layout::epilogue_code(shorter, range);
        let last = list.len() - 1;
        lemma_run_shape(shorter, measured, range);
        assert(stands_in(list[last], range) == layout::inside(list[last], range));
        assert(list.last() == list[last]);
        if !stands_in(list[last], range) {
            assert(run == before);
            if before.len() > 0 {
                let i = choose|i: int|
                    0 <= i < shorter.len() && #[trigger] shorter[i] == before.last() && stands_in(
                        shorter[i],
                        range,
                    ) && none_between(shorter, range, i, shorter.len() as int);
                assert(list[i] == shorter[i]);
                assert forall|k: int| i < k < list.len() implies !stands_in(
                    #[trigger] list[k],
                    range,
                ) by {
                    if k < last {
                        assert(shorter[k] == list[k]);
                    }
                }
            }
            if some_stand_in(list, range) {
                let i = choose|i: int| 0 <= i < list.len() && stands_in(#[trigger] list[i], range);
                assert(shorter[i] == list[i]);
            }
            lemma_piece_shorter(list, measured, range);
        } else {
            assert(run =~= before.push(list[last]));
            assert(run.last() == list[last]);
            let fits_length = layout::same_length(list[last], measured);
            if before.len() > 0 {
                let i = choose|i: int|
                    0 <= i < shorter.len() && #[trigger] shorter[i] == before.last() && stands_in(
                        shorter[i],
                        range,
                    ) && none_between(shorter, range, i, shorter.len() as int);
                assert(list[i] == shorter[i]);
                assert(before.last() == run[run.len() - 2]);
                assert forall|k: int| i < k < last implies !stands_in(#[trigger] list[k], range) by {
                    assert(shorter[k] == list[k]);
                }
                let near = layout::adjacent(list[i], list[last], measured);
                assert(near == copied_side_by_side(list[i], list[last], measured));
                lemma_run_longer(before, list[last], measured);
                assert(run_shape(run, measured) == (run_shape(before, measured) && fits_length
                    && near));
                lemma_neighbour(list, measured, range, i);
                assert(copied_in_one_piece(list, measured, range) == (copied_in_one_piece(
                    shorter,
                    measured,
                    range,
                ) && fits_length && near));
            } else {
                lemma_run_longer(before, list[last], measured);
                assert(run_shape(run, measured) == fits_length);
                assert(!some_stand_in(shorter, range));
                lemma_alone(list, measured, range);
            }
        }
    }
}

/// A run with one instruction more.
proof fn lemma_run_longer(
    before: Seq<InstructionView>,
    next: InstructionView,
    measured: Seq<Measured>,
)
    ensures
        run_shape(before.push(next), measured) == (run_shape(before, measured)
            && layout::same_length(next, measured) && (before.len() > 0 ==> layout::adjacent(
            before.last(),
            next,
            measured,
        ))),
{
    let run = before.push(next);
    if run_shape(run, measured) {
        assert forall|i: int| 0 <= i < before.len() implies layout::same_length(
            #[trigger] before[i],
            measured,
        ) by {
            assert(run[i] == before[i]);
        }
        assert forall|i: int, j: int| 0 <= i && j == i + 1 && j < before.len() implies layout::adjacent(
            #[trigger] before[i],
            #[trigger] before[j],
            measured,
        ) by {
            assert(run[i] == before[i]);
            assert(run[j] == before[j]);
        }
        assert(run[before.len() as int] == next);
        if before.len() > 0 {
            assert(run[before.len() - 1] == before.last());
        }
    }
}

/// Between two places of the front, the front is the whole.
proof fn lemma_front(
    list: Seq<InstructionView>,
    measured: Seq<Measured>,
    range: Epilogue,
    i: int,
    j: int,
)
    requires
        list.len() > 0,
        0 <= i < j < list.len() - 1,
    ensures
        keeps_length(list.drop_last(), measured, range, i) == keeps_length(
            list,
            measured,
            range,
            i,
        ),
        keeps_neighbour(list.drop_last(), measured, range, i, j) == keeps_neighbour(
            list,
            measured,
            range,
            i,
            j,
        ),
{
    let shorter = list.drop_last();
    if none_between(list, range, i, j) {
        assert forall|k: int| i < k < j implies !stands_in(#[trigger] shorter[k], range) by {
            assert(shorter[k] == list[k]);
        }
    }
    if none_between(shorter, range, i, j) {
        assert forall|k: int| i < k < j implies !stands_in(#[trigger] list[k], range) by {
            assert(shorter[k] == list[k]);
        }
    }
    assert(none_between(list, range, i, j) == none_between(shorter, range, i, j));
}

/// A piece is copied well where its front is, and the last instruction fits to it.
proof fn lemma_piece_split(list: Seq<InstructionView>, measured: Seq<Measured>, range: Epilogue)
    requires
        list.len() > 0,
    ensures
        copied_in_one_piece(list, measured, range) == (copied_in_one_piece(
            list.drop_last(),
            measured,
            range,
        ) && keeps_length(list, measured, range, list.len() - 1) && forall|i: int|
            0 <= i < list.len() - 1 ==> #[trigger] keeps_neighbour(
                list,
                measured,
                range,
                i,
                list.len() - 1,
            )),
{
    let shorter = list.drop_last();
    let last = list.len() - 1;
    let rest = keeps_length(list, measured, range, last) && forall|i: int|
        0 <= i < last ==> #[trigger] keeps_neighbour(list, measured, range, i, last);
    if copied_in_one_piece(list, measured, range) {
        assert forall|i: int| 0 <= i < shorter.len() implies #[trigger] keeps_length(
            shorter,
            measured,
            range,
            i,
        ) by {
            assert(keeps_length(list, measured, range, i));
        }
        assert forall|i: int, j: int| 0 <= i < j < shorter.len() implies #[trigger] keeps_neighbour(
            shorter,
            measured,
            range,
            i,
            j,
        ) by {
            lemma_front(list, measured, range, i, j);
            assert(keeps_neighbour(list, measured, range, i, j));
        }
    }
    if copied_in_one_piece(shorter, measured, range) && rest {
        assert forall|i: int| 0 <= i < list.len() implies #[trigger] keeps_length(
            list,
            measured,
            range,
            i,
        ) by {
            if i < last {
                assert(keeps_length(shorter, measured, range, i));
            }
        }
        assert forall|i: int, j: int| 0 <= i < j < list.len() implies #[trigger] keeps_neighbour(
            list,
            measured,
            range,
            i,
            j,
        ) by {
            if j < last {
                lemma_front(list, measured, range, i, j);
                assert(keeps_neighbour(shorter, measured, range, i, j));
            }
        }
    }
}

/// An instruction outside the range changes nothing.
proof fn lemma_piece_shorter(list: Seq<InstructionView>, measured: Seq<Measured>, range: Epilogue)
    requires
        list.len() > 0,
        !stands_in(list[list.len() - 1], range),
    ensures
        copied_in_one_piece(list, measured, range) == copied_in_one_piece(
            list.drop_last(),
            measured,
            range,
        ),
{
    lemma_piece_split(list, measured, range);
}

/// An instruction more in the range has to be as long as before, and to stand behind
/// its neighbour.
proof fn lemma_neighbour(
    list: Seq<InstructionView>,
    measured: Seq<Measured>,
    range: Epilogue,
    i: int,
)
    requires
        list.len() > 0,
        0 <= i < list.len() - 1,
        stands_in(list[i], range),
        stands_in(list[list.len() - 1], range),
        none_between(list, range, i, list.len() - 1),
    ensures
        copied_in_one_piece(list, measured, range) == (copied_in_one_piece(
            list.drop_last(),
            measured,
            range,
        ) && layout::same_length(list[list.len() - 1], measured) && copied_side_by_side(
            list[i],
            list[list.len() - 1],
            measured,
        )),
{
    let last = list.len() - 1;
    lemma_piece_split(list, measured, range);
    assert(keeps_length(list, measured, range, last) == layout::same_length(list[last], measured));
    assert(keeps_neighbour(list, measured, range, i, last) == copied_side_by_side(
        list[i],
        list[last],
        measured,
    ));
    assert forall|a: int| 0 <= a < last && a != i implies #[trigger] keeps_neighbour(
        list,
        measured,
        range,
        a,
        last,
    ) by {
        if a < i {
            assert(stands_in(list[i], range));
        } else {
            assert(!stands_in(list[a], range));
        }
    }
}

/// The first instruction of a range has to be as long as before, and nothing else.
proof fn lemma_alone(list: Seq<InstructionView>, measured: Seq<Measured>, range: Epilogue)
    requires
        list.len() > 0,
        stands_in(list[list.len() - 1], range),
        !some_stand_in(list.drop_last(), range),
    ensures
        copied_in_one_piece(list, measured, range) == layout::same_length(
            list[list.len() - 1],
            measured,
        ),
{
    let shorter = list.drop_last();
    let last = list.len() - 1;
    lemma_piece_split(list, measured, range);
    assert forall|k: int| 0 <= k < last implies !stands_in(#[trigger] list[k], range) by {
        assert(shorter[k] == list[k]);
    }
    assert(keeps_length(list, measured, range, last) == layout::same_length(list[last], measured));
    assert forall|i: int| 0 <= i < shorter.len() implies #[trigger] keeps_length(
        shorter,
        measured,
        range,
        i,
    ) by {
        assert(shorter[i] == list[i]);
    }
    assert forall|i: int, j: int| 0 <= i < j < shorter.len() implies #[trigger] keeps_neighbour(
        shorter,
        measured,
        range,
        i,
        j,
    ) by {
        assert(shorter[i] == list[i]);
    }
}

/// Epilogues keep their shape exactly where each of them, whatever their number, has
/// instructions, the copy of each instruction is as long as before, and copies of
/// neighbours stand side by side.
pub proof fn lemma_epilogue_shapes_are_kept(
    list: Seq<InstructionView>,
    measured: Seq<Measured>,
    ranges: Seq<Epilogue>,
)
    ensures
        layout::epilogue_shapes(list, measured, ranges) == (forall|e: int|
            0 <= e < ranges.len() ==> some_stand_in(list, #[trigger] ranges[e])
                && copied_in_one_piece(list, measured, ranges[e])),
{
    assert forall|e: int| 0 <= e < ranges.len() implies layout::epilogue_shape(
        list,
        measured,
        #[trigger] ranges[e],
    ) == (some_stand_in(list, ranges[e]) && copied_in_one_piece(list, measured, ranges[e])) by {
        lemma_run_shape(list, measured, ranges[e]);
        assert(layout::epilogue_shape(list, measured, ranges[e]) == (layout::epilogue_code(
            list,
            ranges[e],
        ).len() > 0 && run_shape(layout::epilogue_code(list, ranges[e]), measured)));
    }
}

// ---------------------------------------------------------------------------
// The steps
// ---------------------------------------------------------------------------

/// A function that is moved was decoded without an issue, starts where its unwind
/// data says, is long enough for the jump that replaces it, and holds no absolute
/// address in any instruction of any block. One that is all this is moved.
pub proof fn lemma_only_eligible_functions_are_moved<R>(
    function: Function,
    unwind: UnwindInfo,
    entry: Rva,
    placement: Rva,
    decoded: Preparing<R>,
    read: Preparing<R>,
)
    requires
        protect::follows(
            Preparing::<R>::Decode,
            Event::Decoded(Ok(function)),
            entry,
            placement,
            decoded,
        ),
        protect::follows(decoded, Event::Unwind(Ok(unwind)), entry, placement, read),
    ensures
        read is FindEpilogues || read is Skipped,
        (read is FindEpilogues) == {
            &&& function.issues@.len() == 0
            &&& function.unwind is Some
            &&& (function.unwind->0).begin == entry
            &&& (function.unwind->0).end.0 >= entry.0 + 5
            &&& forall|b: int, i: int, k: int|
                0 <= b < function.blocks@.len() && 0 <= i < function.blocks@[b].instructions@.len()
                    && 0 <= k < function.blocks@[b].instructions@[i].refs@.len() ==> !((
                #[trigger] function.blocks@[b].instructions@[i].refs@[k]) is Absolute)
        },
        read is FindEpilogues ==> read == (Preparing::<R>::FindEpilogues { function, unwind }),
{
    lemma_absolute_anywhere(function);
}

/// Some instruction of the code holds an absolute address where some operand of some
/// instruction of some block does.
proof fn lemma_absolute_anywhere(function: Function)
    ensures
        !layout::absolute_fixups(function.code()) == (forall|b: int, i: int, k: int|
            0 <= b < function.blocks@.len() && 0 <= i < function.blocks@[b].instructions@.len()
                && 0 <= k < function.blocks@[b].instructions@[i].refs@.len() ==> !((
            #[trigger] function.blocks@[b].instructions@[i].refs@[k]) is Absolute)),
{
    let blocks = function.blocks@;
    if !layout::absolute_fixups(function.code()) {
        assert forall|b: int, i: int, k: int|
            0 <= b < blocks.len() && 0 <= i < blocks[b].instructions@.len() && 0 <= k
                < blocks[b].instructions@[i].refs@.len() implies !((
        #[trigger] blocks[b].instructions@[i].refs@[k]) is Absolute) by {
            let place = ahead_of(blocks, b) + i;
            lemma_code_is_all_blocks(function, b, i);
            assert(function.code()[place] == blocks[b].instructions@[i]@);
            assert(!function.code()[place].has_absolute());
            assert(function.code()[place].refs[k] == blocks[b].instructions@[i].refs@[k]);
        }
    } else {
        let place = choose|place: int|
            0 <= place < function.code().len() && (
            #[trigger] function.code()[place]).has_absolute();
        lemma_code_comes_from_blocks(function, place);
        let (b, i) = choose|b: int, i: int|
            0 <= b < blocks.len() && 0 <= i < blocks[b].instructions@.len() && (
            #[trigger] blocks[b].instructions@[i])@ == function.code()[place];
        let refs = function.code()[place].refs;
        let k = choose|k: int| 0 <= k < refs.len() && refs[k] is Absolute;
        assert(blocks[b].instructions@[i].refs@[k] is Absolute);
    }
}

/// A rewritten function is placed exactly where its prologue and its epilogues kept
/// their layout and the copy fits the addresses of an image, and then it is placed
/// with the bytes and the report that came back, at the address asked for.
pub proof fn lemma_only_faithful_copies_are_placed<R>(
    function: Function,
    unwind: UnwindInfo,
    epilogues: Vec<Epilogue>,
    report: R,
    copy: Relocated,
    entry: Rva,
    placement: Rva,
    next: Preparing<R>,
)
    requires
        protect::follows(
            Preparing::Relocate { function, unwind, epilogues, report },
            Event::Relocated(Ok(copy)),
            entry,
            placement,
            next,
        ),
    ensures
        ({
            let list = function.code();
            let measured = copy.measurements();
            let prologue = {
                &&& entry.0 + unwind.size_of_prolog <= u32::MAX
                &&& placement.0 + unwind.size_of_prolog <= u32::MAX
                &&& fills(list, entry.0 as int, entry.0 + unwind.size_of_prolog)
                &&& forall|i: int|
                    0 <= i < list.len() && starts_before(
                        #[trigger] list[i],
                        entry.0 + unwind.size_of_prolog,
                    ) ==> moved_alike(list[i], measured, placement.0 - entry.0)
            };
            let endings = forall|e: int|
                0 <= e < epilogues@.len() ==> some_stand_in(list, #[trigger] epilogues@[e])
                    && copied_in_one_piece(list, measured, epilogues@[e]);
            let fits = placement.0 + copy.bytes@.len() <= u32::MAX;
            &&& (next is Ready) == (prologue && endings && fits)
            &&& !prologue ==> next == Preparing::<R>::Skipped(SkipReason::PrologueMoved)
            &&& prologue && !endings ==> next == Preparing::<R>::Skipped(SkipReason::EpilogueMoved)
            &&& next matches Preparing::Ready(ready) ==> {
                &&& ready.bytes == copy.bytes
                &&& ready.runtime_function.begin == placement
                &&& ready.runtime_function.end.0 == placement.0 + copy.bytes@.len()
                &&& ready.runtime_function.unwind == unwind
                &&& ready.protected.original == entry
                &&& ready.protected.relocated == placement
                &&& ready.protected.length == copy.bytes@.len()
                &&& ready.protected.report == report
            }
        }),
{
    lemma_prologue_layout_is_kept(
        function.code(),
        copy.measurements(),
        entry,
        placement,
        unwind.size_of_prolog,
    );
    lemma_epilogue_shapes_are_kept(function.code(), copy.measurements(), epilogues@);
}

/// Taking a function in keeps all code that was there, fills the gap in front of the
/// new code with breakpoints, and puts the new code behind it byte for byte. What
/// was noted before stays noted.
pub proof fn lemma_accepting_appends<R>(
    run: Run<R>,
    entry: Rva,
    offset: u32,
    placement: Rva,
    ready: Ready<R>,
    after: Run<R>,
)
    requires
        run.accepts(entry, offset, placement, ready, after),
        run.code@.len() <= offset,
    ensures
        after.code@.len() == offset + ready.bytes@.len(),
        forall|i: int| 0 <= i < run.code@.len() ==> #[trigger] after.code@[i] == run.code@[i],
        forall|i: int| run.code@.len() <= i < offset ==> #[trigger] after.code@[i] == 0xcc,
        forall|i: int|
            0 <= i < ready.bytes@.len() ==> after.code@[offset + i] == #[trigger] ready.bytes@[i],
        after.code_rva == run.code_rva,
        after.stubs@.len() == run.stubs@.len() + 1,
        after.stubs@.take(run.stubs@.len() as int) == run.stubs@,
        after.stubs@[run.stubs@.len() as int].from == entry,
        after.stubs@[run.stubs@.len() as int].to == placement,
        after.stubs@[run.stubs@.len() as int].span_len == 5,
        after.runtime_functions@.len() == run.runtime_functions@.len() + 1,
        after.runtime_functions@.take(run.runtime_functions@.len() as int)
            == run.runtime_functions@,
        after.runtime_functions@[run.runtime_functions@.len() as int] == ready.runtime_function,
        after.outcome.protected@.len() == run.outcome.protected@.len() + 1,
        after.outcome.protected@.take(run.outcome.protected@.len() as int)
            == run.outcome.protected@,
        after.outcome.protected@[run.outcome.protected@.len() as int] == ready.protected,
        after.outcome.skipped@ == run.outcome.skipped@,
{
}

/// A stub is written exactly where its span holds a near jump, lies in the file in
/// one piece, ends within the addresses of an image, and the jump reaches the copy.
pub proof fn lemma_stub_is_written_where_it_fits(
    stub: Stub,
    offset: u32,
    last_offset: u32,
    len: nat,
)
    ensures
        (stub.obstacle(offset, last_offset, len) is None) == {
            &&& stub.span_len >= 5
            &&& offset + stub.span_len <= usize::MAX
            &&& offset + stub.span_len <= len
            &&& stub.from.0 + stub.span_len - 1 <= u32::MAX
            &&& last_offset == offset + stub.span_len - 1
            &&& stub.from.0 + 5 <= u32::MAX
            &&& -0x8000_0000 <= stub.to.0 - (stub.from.0 + 5) <= 0x7fff_ffff
        },
{
}

} // verus!
