//! Marked regions: what may enter them, and the slice that is moved.

use vstd::prelude::*;

use crate::emit::address::Rva;
use crate::emit::code::{
    Architecture, BasicBlock, Epilogue, Function, MachineInstruction, InstructionView, Terminator,
};
use crate::emit::error::{EmitError, SdkFailure};

verus! {

/// The instruction is selected.
pub open spec fn is_selected(instruction: InstructionView, selected: Seq<Rva>) -> bool {
    match instruction.rva {
        Some(rva) => selected.contains(rva),
        None => false,
    }
}

/// Reports whether `rva` is in the list.
pub fn contains(list: &[Rva], rva: Rva) -> (yes: bool)
    ensures
        yes == list@.contains(rva),
{
    let mut index: usize = 0;
    while index < list.len()
        invariant
            index <= list@.len(),
            forall|i: int| 0 <= i < index ==> list@[i] != rva,
        decreases list@.len() - index,
    {
        if list[index] == rva {
            assert(list@[index as int] == rva);
            return true;
        }
        index += 1;
    }
    false
}

/// Reports whether an instruction is selected.
fn selects(selected: &[Rva], instruction: &MachineInstruction) -> (yes: bool)
    ensures
        yes == is_selected(instruction@, selected@),
{
    match instruction.rva() {
        Some(rva) => contains(selected, rva),
        None => false,
    }
}

// ---------------------------------------------------------------------------
// Markers that are loaded into a register
// ---------------------------------------------------------------------------

/// The load and the call stand side by side in one block.
pub open spec fn span_in(block: BasicBlock, load: Rva, call: Rva) -> bool {
    exists|i: int, j: int|
        0 <= i && j == i + 1 && j < block.instructions@.len() && (
        #[trigger] block.instructions@[i])@.rva == Some(load) && block.instructions@[i]@.next_rva()
            == Some(call) && (#[trigger] block.instructions@[j])@.rva == Some(call)
}

/// Finds out whether control that reaches the load runs straight into the call.
pub fn validate_register_marker_span(function: &Function, load: Rva, call: Rva) -> (r: Result<
    (),
    EmitError,
>)
    ensures
        r == (if exists|b: int|
            0 <= b < function.blocks@.len() && span_in(#[trigger] function.blocks@[b], load, call) {
            Ok(())
        } else {
            Err(EmitError::SdkMarker(SdkFailure::SplitRegisterMarker { load, call }))
        }),
{
    let mut block: usize = 0;
    while block < function.blocks.len()
        invariant
            block <= function.blocks@.len(),
            forall|b: int|
                0 <= b < block ==> !span_in(#[trigger] function.blocks@[b], load, call),
        decreases function.blocks@.len() - block,
    {
        let list = &function.blocks[block].instructions;
        let mut index: usize = 1;
        while index < list.len()
            invariant
                1 <= index,
                index <= list@.len() || index == 1,
                block < function.blocks@.len(),
                list@ == function.blocks@[block as int].instructions@,
                forall|i: int, j: int|
                    0 <= i && j == i + 1 && j < index && j < list@.len() ==> !((
                    #[trigger] list@[i])@.rva == Some(load) && list@[i]@.next_rva() == Some(call)
                        && (#[trigger] list@[j])@.rva == Some(call)),
            decreases list@.len() - index,
        {
            if list[index - 1].rva() == Some(load) && list[index - 1].next_rva() == Some(call)
                && list[index].rva() == Some(call) {
                proof {
                    let b = function.blocks@[block as int];
                    assert(b.instructions@[index - 1]@.rva == Some(load));
                    assert(b.instructions@[index as int]@.rva == Some(call));
                    assert(span_in(b, load, call));
                }
                return Ok(());
            }
            index += 1;
        }
        assert(!span_in(function.blocks@[block as int], load, call));
        block += 1;
    }
    Err(EmitError::SdkMarker(SdkFailure::SplitRegisterMarker { load, call }))
}

// ---------------------------------------------------------------------------
// Ways into a region
// ---------------------------------------------------------------------------

/// Some of the first `count` instructions of the block stands at `rva`.
pub open spec fn stands_among(block: BasicBlock, count: int, rva: Rva) -> bool {
    exists|i: int|
        0 <= i < count && i < block.instructions@.len() && (
        #[trigger] block.instructions@[i])@.rva == Some(rva)
}

/// The block holds the instruction at `rva`.
pub open spec fn holds(block: BasicBlock, rva: Rva) -> bool {
    stands_among(block, block.instructions@.len() as int, rva)
}

/// The position of the first selected instruction among those from `from` on.
pub open spec fn first_selected(block: BasicBlock, selected: Seq<Rva>, from: int) -> Option<int>
    decreases block.instructions@.len() - from,
{
    if from < 0 || from >= block.instructions@.len() {
        None
    } else if is_selected(block.instructions@[from]@, selected) {
        Some(from)
    } else {
        first_selected(block, selected, from + 1)
    }
}

/// The block is an epilogue that is selected as a whole and returns.
pub open spec fn complete_epilogue(
    architecture: Architecture,
    block: BasicBlock,
    selected: Seq<Rva>,
    epilogues: Seq<Epilogue>,
) -> bool {
    &&& architecture == Architecture::X64
    &&& block.terminator == Terminator::Return
    &&& forall|i: int|
        0 <= i < block.instructions@.len() ==> is_selected(
            (#[trigger] block.instructions@[i])@,
            selected,
        )
    &&& exists|i: int|
        0 <= i < epilogues.len() && (#[trigger] epilogues[i]).begin == block.start
            && epilogues[i].end == block.end
}

/// Control may pass from `predecessor` into the region at the start of `block`.
pub open spec fn may_enter(
    predecessor: BasicBlock,
    begin_marker: Rva,
    is_entry_block: bool,
    complete: bool,
    selected: Seq<Rva>,
) -> bool {
    ||| predecessor.instructions@.len() > 0 && is_selected(
        predecessor.instructions@.last()@,
        selected,
    )
    ||| is_entry_block && holds(predecessor, begin_marker)
    ||| complete
}

/// What is wrong with the predecessors from `from` on.
pub open spec fn predecessor_problem(
    blocks: Seq<BasicBlock>,
    block: BasicBlock,
    begin_marker: Rva,
    is_entry_block: bool,
    complete: bool,
    selected: Seq<Rva>,
    from: int,
) -> Option<SdkFailure>
    decreases block.predecessors@.len() - from,
{
    if from < 0 || from >= block.predecessors@.len() {
        None
    } else {
        let index = block.predecessors@[from].0;
        if index >= blocks.len() {
            Some(SdkFailure::InvalidPredecessor { block: block.start })
        } else if !may_enter(
            blocks[index as int],
            begin_marker,
            is_entry_block,
            complete,
            selected,
        ) {
            Some(SdkFailure::BypassesBegin { block: block.start })
        } else {
            predecessor_problem(
                blocks,
                block,
                begin_marker,
                is_entry_block,
                complete,
                selected,
                from + 1,
            )
        }
    }
}

/// What is wrong with the ways into one block of the region. The region starts
/// inside a block only behind its opening marker; elsewhere every way into a
/// selected block comes from the region, from the opening marker, or is harmless
/// because the block is a complete epilogue.
pub open spec fn block_problem(
    function: Function,
    block: BasicBlock,
    begin_marker: Rva,
    entry: Rva,
    selected: Seq<Rva>,
    epilogues: Seq<Epilogue>,
) -> Option<SdkFailure> {
    match first_selected(block, selected, 0) {
        None => None,
        Some(first) => if first != 0 {
            if holds(block, entry) && stands_among(block, first, begin_marker) {
                None
            } else {
                Some(SdkFailure::EntersBeforeSelection { block: block.start })
            }
        } else {
            predecessor_problem(
                function.blocks@,
                block,
                begin_marker,
                holds(block, entry),
                complete_epilogue(function.architecture, block, selected, epilogues),
                selected,
                0,
            )
        },
    }
}

/// What is wrong with the ways into the blocks from `from` on.
pub open spec fn region_problem(
    function: Function,
    begin_marker: Rva,
    entry: Rva,
    selected: Seq<Rva>,
    epilogues: Seq<Epilogue>,
    from: int,
) -> Option<SdkFailure>
    decreases function.blocks@.len() - from,
{
    if from < 0 || from >= function.blocks@.len() {
        None
    } else {
        match block_problem(
            function,
            function.blocks@[from],
            begin_marker,
            entry,
            selected,
            epilogues,
        ) {
            Some(failure) => Some(failure),
            None => region_problem(function, begin_marker, entry, selected, epilogues, from + 1),
        }
    }
}

/// Reports whether one of the first `count` instructions stands at `rva`.
fn has_among(block: &BasicBlock, count: usize, rva: Rva) -> (yes: bool)
    requires
        count <= block.instructions@.len(),
    ensures
        yes == stands_among(*block, count as int, rva),
{
    let mut index: usize = 0;
    while index < count
        invariant
            index <= count <= block.instructions@.len(),
            forall|i: int|
                0 <= i < index ==> (#[trigger] block.instructions@[i])@.rva != Some(rva),
        decreases count - index,
    {
        if block.instructions[index].rva() == Some(rva) {
            assert(block.instructions@[index as int]@.rva == Some(rva));
            return true;
        }
        index += 1;
    }
    false
}

/// The position of the first selected instruction.
fn find_selected(block: &BasicBlock, selected: &[Rva]) -> (r: Option<usize>)
    ensures
        match r {
            Some(index) => first_selected(*block, selected@, 0) == Some(index as int) && index
                < block.instructions@.len(),
            None => first_selected(*block, selected@, 0) is None,
        },
{
    let mut index: usize = 0;
    while index < block.instructions.len()
        invariant
            index <= block.instructions@.len(),
            first_selected(*block, selected@, 0) == first_selected(
                *block,
                selected@,
                index as int,
            ),
        decreases block.instructions@.len() - index,
    {
        if selects(selected, &block.instructions[index]) {
            return Some(index);
        }
        index += 1;
    }
    None
}

/// Reports whether the block is a complete epilogue.
fn is_complete_epilogue(
    architecture: Architecture,
    block: &BasicBlock,
    selected: &[Rva],
    epilogues: &[Epilogue],
) -> (yes: bool)
    ensures
        yes == complete_epilogue(architecture, *block, selected@, epilogues@),
{
    if architecture != Architecture::X64 || block.terminator != Terminator::Return {
        return false;
    }
    let mut index: usize = 0;
    while index < block.instructions.len()
        invariant
            index <= block.instructions@.len(),
            forall|i: int|
                0 <= i < index ==> is_selected((#[trigger] block.instructions@[i])@, selected@),
        decreases block.instructions@.len() - index,
    {
        if !selects(selected, &block.instructions[index]) {
            assert(!is_selected(block.instructions@[index as int]@, selected@));
            return false;
        }
        index += 1;
    }
    let mut index: usize = 0;
    while index < epilogues.len()
        invariant
            index <= epilogues@.len(),
            forall|i: int|
                0 <= i < index ==> !((#[trigger] epilogues@[i]).begin == block.start
                    && epilogues@[i].end == block.end),
            architecture == Architecture::X64,
            block.terminator == Terminator::Return,
            forall|i: int|
                0 <= i < block.instructions@.len() ==> is_selected(
                    (#[trigger] block.instructions@[i])@,
                    selected@,
                ),
        decreases epilogues@.len() - index,
    {
        if epilogues[index].begin == block.start && epilogues[index].end == block.end {
            assert(epilogues@[index as int].begin == block.start);
            return true;
        }
        index += 1;
    }
    false
}

/// Finds out whether control can enter one block of the region unmarked.
fn validate_block(
    function: &Function,
    block: &BasicBlock,
    begin_marker: Rva,
    entry: Rva,
    selected: &[Rva],
    epilogues: &[Epilogue],
) -> (r: Option<SdkFailure>)
    ensures
        r == block_problem(*function, *block, begin_marker, entry, selected@, epilogues@),
{
    let first = match find_selected(block, selected) {
        Some(first) => first,
        None => return None,
    };
    let is_entry_block = has_among(block, block.instructions.len(), entry);
    if first != 0 {
        if is_entry_block && has_among(block, first, begin_marker) {
            return None;
        }
        return Some(SdkFailure::EntersBeforeSelection { block: block.start });
    }
    let complete = is_complete_epilogue(function.architecture, block, selected, epilogues);
    let mut index: usize = 0;
    while index < block.predecessors.len()
        invariant
            index <= block.predecessors@.len(),
            first_selected(*block, selected@, 0) == Some(0int),
            is_entry_block == holds(*block, entry),
            complete == complete_epilogue(function.architecture, *block, selected@, epilogues@),
            predecessor_problem(
                function.blocks@,
                *block,
                begin_marker,
                is_entry_block,
                complete,
                selected@,
                0,
            ) == predecessor_problem(
                function.blocks@,
                *block,
                begin_marker,
                is_entry_block,
                complete,
                selected@,
                index as int,
            ),
        decreases block.predecessors@.len() - index,
    {
        let id = block.predecessors[index].0;
        if id >= function.blocks.len() {
            return Some(SdkFailure::InvalidPredecessor { block: block.start });
        }
        let predecessor = &function.blocks[id];
        let count = predecessor.instructions.len();
        let ends_selected = count > 0 && selects(selected, &predecessor.instructions[count - 1]);
        if !(ends_selected || (is_entry_block && has_among(predecessor, count, begin_marker))
            || complete) {
            return Some(SdkFailure::BypassesBegin { block: block.start });
        }
        index += 1;
    }
    None
}

/// Finds out whether control can enter the region without passing its opening
/// marker. `epilogues` are those of the function.
pub fn validate_region_entries(
    function: &Function,
    begin_marker: Rva,
    entry: Rva,
    selected: &[Rva],
    epilogues: &[Epilogue],
) -> (r: Result<(), EmitError>)
    ensures
        r == (match region_problem(
            *function,
            begin_marker,
            entry,
            selected@,
            epilogues@,
            0,
        ) {
            Some(failure) => Err(EmitError::SdkMarker(failure)),
            None => Ok(()),
        }),
{
    let mut index: usize = 0;
    while index < function.blocks.len()
        invariant
            index <= function.blocks@.len(),
            region_problem(*function, begin_marker, entry, selected@, epilogues@, 0)
                == region_problem(
                *function,
                begin_marker,
                entry,
                selected@,
                epilogues@,
                index as int,
            ),
        decreases function.blocks@.len() - index,
    {
        if let Some(failure) = validate_block(
            function,
            &function.blocks[index],
            begin_marker,
            entry,
            selected,
            epilogues,
        ) {
            return Err(EmitError::SdkMarker(failure));
        }
        index += 1;
    }
    Ok(())
}

/// Predecessors without a problem are blocks of the function that may enter.
proof fn lemma_predecessors_enter(
    blocks: Seq<BasicBlock>,
    block: BasicBlock,
    begin_marker: Rva,
    is_entry_block: bool,
    complete: bool,
    selected: Seq<Rva>,
    from: int,
    k: int,
)
    requires
        0 <= from <= k < block.predecessors@.len(),
        predecessor_problem(
            blocks,
            block,
            begin_marker,
            is_entry_block,
            complete,
            selected,
            from,
        ) is None,
    ensures
        block.predecessors@[k].0 < blocks.len(),
        may_enter(
            blocks[block.predecessors@[k].0 as int],
            begin_marker,
            is_entry_block,
            complete,
            selected,
        ),
    decreases k - from,
{
    if from < k {
        lemma_predecessors_enter(
            blocks,
            block,
            begin_marker,
            is_entry_block,
            complete,
            selected,
            from + 1,
            k,
        );
    }
}

/// A region without a problem has no problem in any block.
proof fn lemma_every_block(
    function: Function,
    begin_marker: Rva,
    entry: Rva,
    selected: Seq<Rva>,
    epilogues: Seq<Epilogue>,
    from: int,
    b: int,
)
    requires
        0 <= from <= b < function.blocks@.len(),
        region_problem(function, begin_marker, entry, selected, epilogues, from) is None,
    ensures
        block_problem(
            function,
            function.blocks@[b],
            begin_marker,
            entry,
            selected,
            epilogues,
        ) is None,
    decreases b - from,
{
    if from < b {
        lemma_every_block(function, begin_marker, entry, selected, epilogues, from + 1, b);
    }
}

/// Control enters an accepted region only through its opening marker: whatever
/// runs into a selected block `b` from another block `k` ends in the region, holds
/// the marker, or runs into a complete epilogue. A block that is selected from the
/// middle on has the marker in front of its selected part.
pub proof fn lemma_region_entered_through_begin(
    function: Function,
    begin_marker: Rva,
    entry: Rva,
    selected: Seq<Rva>,
    epilogues: Seq<Epilogue>,
    b: int,
    k: int,
)
    requires
        region_problem(function, begin_marker, entry, selected, epilogues, 0) is None,
        0 <= b < function.blocks@.len(),
        first_selected(function.blocks@[b], selected, 0) is Some,
    ensures
        ({
            let block = function.blocks@[b];
            let first = first_selected(block, selected, 0)->0;
            &&& first != 0 ==> stands_among(block, first, begin_marker)
            &&& first == 0 && 0 <= k < block.predecessors@.len() ==> {
                &&& block.predecessors@[k].0 < function.blocks@.len()
                &&& may_enter(
                    function.blocks@[block.predecessors@[k].0 as int],
                    begin_marker,
                    holds(block, entry),
                    complete_epilogue(function.architecture, block, selected, epilogues),
                    selected,
                )
            }
        }),
{
    lemma_every_block(function, begin_marker, entry, selected, epilogues, 0, b);
    let block = function.blocks@[b];
    let first = first_selected(block, selected, 0)->0;
    if first == 0 && 0 <= k < block.predecessors@.len() {
        lemma_predecessors_enter(
            function.blocks@,
            block,
            begin_marker,
            holds(block, entry),
            complete_epilogue(function.architecture, block, selected, epilogues),
            selected,
            0,
            k,
        );
    }
}

} // verus!
