//! What is moved, what is left alone and what is written over, in terms of the code
//! itself.

use vstd::prelude::*;

use crate::emit::address::Rva;
use crate::emit::code::{Architecture, BasicBlock, Epilogue, Function, InstructionView, Terminator};
use crate::emit::decoder::{Opcode, RawInstruction};
use crate::emit::protect;
use crate::emit::protect::{Event, Preparing};
use crate::emit::references;
use crate::emit::region;
use crate::emit::unwind::UnwindInfo;

verus! {

// ---------------------------------------------------------------------------
// Ways into a region
// ---------------------------------------------------------------------------

/// The instruction stands at a selected address.
pub open spec fn chosen(instruction: InstructionView, selected: Seq<Rva>) -> bool {
    instruction.rva is Some && selected.contains(instruction.rva->0)
}

/// Control that comes from `from` may run into the first instruction of `block`: it
/// comes out of the region, or from the opening marker to the entry, or the block is
/// an epilogue that returns and is selected as a whole.
pub open spec fn enters_rightly(
    function: Function,
    from: BasicBlock,
    block: BasicBlock,
    begin_marker: Rva,
    entry: Rva,
    selected: Seq<Rva>,
    epilogues: Seq<Epilogue>,
) -> bool {
    ||| from.instructions@.len() > 0 && chosen(
        from.instructions@[from.instructions@.len() - 1]@,
        selected,
    )
    ||| {
        &&& exists|i: int|
            0 <= i < block.instructions@.len() && (#[trigger] block.instructions@[i])@.rva == Some(
                entry,
            )
        &&& exists|i: int|
            0 <= i < from.instructions@.len() && (#[trigger] from.instructions@[i])@.rva == Some(
                begin_marker,
            )
    }
    ||| {
        &&& function.architecture == Architecture::X64
        &&& block.terminator == Terminator::Return
        &&& forall|i: int|
            0 <= i < block.instructions@.len() ==> chosen(
                (#[trigger] block.instructions@[i])@,
                selected,
            )
        &&& exists|e: int|
            0 <= e < epilogues.len() && (#[trigger] epilogues[e]).begin == block.start
                && epilogues[e].end == block.end
    }
}

/// A block of an accepted region: whatever can run into it comes rightly, and where
/// only a later part of it is selected, the opening marker stands in front of that
/// part.
pub open spec fn block_is_guarded(
    function: Function,
    block: BasicBlock,
    begin_marker: Rva,
    entry: Rva,
    selected: Seq<Rva>,
    epilogues: Seq<Epilogue>,
) -> bool {
    &&& block.instructions@.len() > 0 && chosen(block.instructions@[0]@, selected)
        ==> forall|k: int|
        0 <= k < block.predecessors@.len() ==> {
            &&& (#[trigger] block.predecessors@[k]).0 < function.blocks@.len()
            &&& enters_rightly(
                function,
                function.blocks@[block.predecessors@[k].0 as int],
                block,
                begin_marker,
                entry,
                selected,
                epilogues,
            )
        }
    &&& block.instructions@.len() > 0 && !chosen(block.instructions@[0]@, selected)
        ==> forall|i: int|
        0 < i < block.instructions@.len() && chosen(
            (#[trigger] block.instructions@[i])@,
            selected,
        ) ==> {
            &&& exists|j: int|
                0 <= j < i && (#[trigger] block.instructions@[j])@.rva == Some(begin_marker)
            &&& exists|j: int|
                0 <= j < block.instructions@.len() && (#[trigger] block.instructions@[j])@.rva
                    == Some(entry)
        }
}

/// The first selected instruction is selected, and none in front of it is.
proof fn lemma_first_selected(block: BasicBlock, selected: Seq<Rva>, from: int)
    requires
        0 <= from <= block.instructions@.len(),
    ensures
        match region::first_selected(block, selected, from) {
            Some(first) => {
                &&& from <= first < block.instructions@.len()
                &&& chosen(block.instructions@[first]@, selected)
                &&& forall|i: int|
                    from <= i < first ==> !chosen((#[trigger] block.instructions@[i])@, selected)
            },
            None => forall|i: int|
                from <= i < block.instructions@.len() ==> !chosen(
                    (#[trigger] block.instructions@[i])@,
                    selected,
                ),
        },
    decreases block.instructions@.len() - from,
{
    if from < block.instructions@.len() {
        assert(region::is_selected(block.instructions@[from]@, selected) == chosen(
            block.instructions@[from]@,
            selected,
        ));
        if !chosen(block.instructions@[from]@, selected) {
            lemma_first_selected(block, selected, from + 1);
        }
    }
}

/// What the test of one predecessor asks is that it enters rightly.
proof fn lemma_may_enter(
    function: Function,
    from: BasicBlock,
    block: BasicBlock,
    begin_marker: Rva,
    entry: Rva,
    selected: Seq<Rva>,
    epilogues: Seq<Epilogue>,
)
    ensures
        region::may_enter(
            from,
            begin_marker,
            region::holds(block, entry),
            region::complete_epilogue(function.architecture, block, selected, epilogues),
            selected,
        ) == enters_rightly(function, from, block, begin_marker, entry, selected, epilogues),
{
    assert forall|i: int| 0 <= i < block.instructions@.len() implies region::is_selected(
        (#[trigger] block.instructions@[i])@,
        selected,
    ) == chosen(block.instructions@[i]@, selected) by {}
    if from.instructions@.len() > 0 {
        assert(from.instructions@.last() == from.instructions@[from.instructions@.len() - 1]);
        assert(region::is_selected(from.instructions@.last()@, selected) == chosen(
            from.instructions@.last()@,
            selected,
        ));
    }
    let whole = region::complete_epilogue(function.architecture, block, selected, epilogues);
    assert(region::holds(block, entry) == exists|i: int|
        0 <= i < block.instructions@.len() && (#[trigger] block.instructions@[i])@.rva == Some(
            entry,
        ));
    assert(region::holds(from, begin_marker) == exists|i: int|
        0 <= i < from.instructions@.len() && (#[trigger] from.instructions@[i])@.rva == Some(
            begin_marker,
        ));
    assert(whole == {
        &&& function.architecture == Architecture::X64
        &&& block.terminator == Terminator::Return
        &&& forall|i: int|
            0 <= i < block.instructions@.len() ==> chosen(
                (#[trigger] block.instructions@[i])@,
                selected,
            )
        &&& exists|e: int|
            0 <= e < epilogues.len() && (#[trigger] epilogues[e]).begin == block.start
                && epilogues[e].end == block.end
    });
}

/// The predecessors from `from` on have no problem where they all enter rightly, and
/// only there.
proof fn lemma_predecessors(
    function: Function,
    block: BasicBlock,
    begin_marker: Rva,
    entry: Rva,
    selected: Seq<Rva>,
    epilogues: Seq<Epilogue>,
    from: int,
)
    requires
        0 <= from <= block.predecessors@.len(),
    ensures
        (region::predecessor_problem(
            function.blocks@,
            block,
            begin_marker,
            region::holds(block, entry),
            region::complete_epilogue(function.architecture, block, selected, epilogues),
            selected,
            from,
        ) is None) == forall|k: int|
            from <= k < block.predecessors@.len() ==> {
                &&& (#[trigger] block.predecessors@[k]).0 < function.blocks@.len()
                &&& enters_rightly(
                    function,
                    function.blocks@[block.predecessors@[k].0 as int],
                    block,
                    begin_marker,
                    entry,
                    selected,
                    epilogues,
                )
            },
    decreases block.predecessors@.len() - from,
{
    if from < block.predecessors@.len() {
        lemma_predecessors(
            function,
            block,
            begin_marker,
            entry,
            selected,
            epilogues,
            from + 1,
        );
        let p = block.predecessors@[from].0;
        if p < function.blocks@.len() {
            lemma_may_enter(
                function,
                function.blocks@[p as int],
                block,
                begin_marker,
                entry,
                selected,
                epilogues,
            );
        }
    }
}

/// One block has no problem where it is guarded, and only there.
proof fn lemma_block(
    function: Function,
    block: BasicBlock,
    begin_marker: Rva,
    entry: Rva,
    selected: Seq<Rva>,
    epilogues: Seq<Epilogue>,
)
    ensures
        (region::block_problem(
            function,
            block,
            begin_marker,
            entry,
            selected,
            epilogues,
        ) is None) == block_is_guarded(
            function,
            block,
            begin_marker,
            entry,
            selected,
            epilogues,
        ),
{
    lemma_first_selected(block, selected, 0);
    lemma_predecessors(function, block, begin_marker, entry, selected, epilogues, 0);
    match region::first_selected(block, selected, 0) {
        None => {},
        Some(first) => {
            if first != 0 {
                assert(chosen(block.instructions@[first]@, selected));
                if region::holds(block, entry) && region::stands_among(block, first, begin_marker) {
                    let j = choose|j: int|
                        0 <= j < first && j < block.instructions@.len() && (
                        #[trigger] block.instructions@[j])@.rva == Some(begin_marker);
                    assert forall|i: int|
                        0 < i < block.instructions@.len() && chosen(
                            (#[trigger] block.instructions@[i])@,
                            selected,
                        ) implies exists|j: int|
                        0 <= j < i && (#[trigger] block.instructions@[j])@.rva == Some(
                            begin_marker,
                        ) by {
                        assert(first <= i);
                        assert(block.instructions@[j]@.rva == Some(begin_marker));
                    }
                }
                if block_is_guarded(function, block, begin_marker, entry, selected, epilogues) {
                    let j = choose|j: int|
                        0 <= j < first && (#[trigger] block.instructions@[j])@.rva == Some(
                            begin_marker,
                        );
                    assert(block.instructions@[j]@.rva == Some(begin_marker));
                    assert(region::stands_among(block, first, begin_marker));
                }
            }
        },
    }
}

/// A region is accepted exactly where every one of its blocks is guarded: control
/// reaches selected code only through the opening marker, from inside the region, or
/// where a complete epilogue returns. How the code in front of it ends plays no part.
pub proof fn lemma_region_accepted_where_guarded(
    function: Function,
    begin_marker: Rva,
    entry: Rva,
    selected: Seq<Rva>,
    epilogues: Seq<Epilogue>,
)
    ensures
        (region::region_problem(
            function,
            begin_marker,
            entry,
            selected,
            epilogues,
            0,
        ) is None) == forall|b: int|
            0 <= b < function.blocks@.len() ==> block_is_guarded(
                function,
                #[trigger] function.blocks@[b],
                begin_marker,
                entry,
                selected,
                epilogues,
            ),
{
    lemma_blocks_guarded(function, begin_marker, entry, selected, epilogues, 0);
}

/// The blocks from `from` on have no problem where each is guarded.
proof fn lemma_blocks_guarded(
    function: Function,
    begin_marker: Rva,
    entry: Rva,
    selected: Seq<Rva>,
    epilogues: Seq<Epilogue>,
    from: int,
)
    requires
        0 <= from <= function.blocks@.len(),
    ensures
        (region::region_problem(
            function,
            begin_marker,
            entry,
            selected,
            epilogues,
            from,
        ) is None) == forall|b: int|
            from <= b < function.blocks@.len() ==> block_is_guarded(
                function,
                #[trigger] function.blocks@[b],
                begin_marker,
                entry,
                selected,
                epilogues,
            ),
    decreases function.blocks@.len() - from,
{
    if from < function.blocks@.len() {
        lemma_block(
            function,
            function.blocks@[from],
            begin_marker,
            entry,
            selected,
            epilogues,
        );
        lemma_blocks_guarded(function, begin_marker, entry, selected, epilogues, from + 1);
    }
}

// ---------------------------------------------------------------------------
// Frozen code
// ---------------------------------------------------------------------------

/// The address lies in one of the ranges.
pub open spec fn lies_in(ranges: Seq<(Rva, Rva)>, rva: int) -> bool {
    exists|i: int| 0 <= i < ranges.len() && (#[trigger] ranges[i]).0.0 <= rva < ranges[i].1.0
}

/// Before a function is rewritten, its prologue and every epilogue that was found are
/// frozen, whatever their number, and nothing else is.
pub proof fn lemma_prologue_and_epilogues_are_frozen<R>(
    function: Function,
    unwind: UnwindInfo,
    found: Vec<Epilogue>,
    entry: Rva,
    placement: Rva,
    next: Preparing<R>,
)
    requires
        protect::follows(
            Preparing::FindEpilogues { function, unwind },
            Event::Epilogues(found),
            entry,
            placement,
            next,
        ),
    ensures
        next is Mutate,
        next->Mutate_epilogues == found,
        forall|e: int|
            0 <= e < found@.len() ==> next->frozen@.contains(
                ((#[trigger] found@[e]).begin, found@[e].end),
            ),
        forall|e: int, rva: int|
            0 <= e < found@.len() && (#[trigger] found@[e]).begin.0 <= rva < found@[e].end.0
                ==> #[trigger] lies_in(next->frozen@, rva),
        entry.0 + unwind.size_of_prolog <= u32::MAX ==> forall|rva: int|
            entry.0 <= rva < entry.0 + unwind.size_of_prolog ==> #[trigger] lies_in(
                next->frozen@,
                rva,
            ),
        forall|rva: int| #[trigger]
            lies_in(next->frozen@, rva) ==> entry.0 <= rva < entry.0 + unwind.size_of_prolog
                || exists|e: int|
                0 <= e < found@.len() && (#[trigger] found@[e]).begin.0 <= rva < found@[e].end.0,
{
    let frozen = next->frozen@;
    let head: int = if entry.0 + unwind.size_of_prolog <= u32::MAX {
        1
    } else {
        0
    };
    assert(frozen.len() == head + found@.len());
    assert forall|e: int| 0 <= e < found@.len() implies frozen[head + e] == (
        (#[trigger] found@[e]).begin,
        found@[e].end,
    ) by {}
    assert forall|e: int| 0 <= e < found@.len() implies frozen.contains(
        ((#[trigger] found@[e]).begin, found@[e].end),
    ) by {
        assert(frozen[head + e] == (found@[e].begin, found@[e].end));
    }
    assert forall|e: int, rva: int|
        0 <= e < found@.len() && (#[trigger] found@[e]).begin.0 <= rva
            < found@[e].end.0 implies #[trigger] lies_in(frozen, rva) by {
        assert(frozen[head + e] == (found@[e].begin, found@[e].end));
    }
    if head == 1 {
        assert(frozen[0].0 == entry);
        assert(frozen[0].1.0 == entry.0 + unwind.size_of_prolog);
    }
    assert forall|rva: int| #[trigger] lies_in(frozen, rva) implies entry.0 <= rva < entry.0
        + unwind.size_of_prolog || exists|e: int|
        0 <= e < found@.len() && (#[trigger] found@[e]).begin.0 <= rva < found@[e].end.0 by {
        let i = choose|i: int|
            0 <= i < frozen.len() && (#[trigger] frozen[i]).0.0 <= rva < frozen[i].1.0;
        if i >= head {
            assert(frozen[i] == (found@[i - head].begin, found@[i - head].end));
        }
    }
}

// ---------------------------------------------------------------------------
// References
// ---------------------------------------------------------------------------

/// Moving an absolute address into a register refers to that address: adding the
/// base of the image and finding the target are inverse, whatever the base.
pub proof fn lemma_target_of_absolute_address(base: u64, rva: Rva, raw: RawInstruction)
    requires
        base + rva.0 <= u64::MAX,
    ensures
        raw.opcode == Opcode::MovImmediate64 && raw.immediate64 == base + rva.0
            ==> references::target_of(raw, base) == Some(rva),
        raw.opcode == Opcode::MovImmediate32 && raw.immediate32 == base + rva.0
            ==> references::target_of(raw, base) == Some(rva),
{
}

/// What an instruction refers to, in terms of what it holds. A relative address is
/// the target. A moved number that is not below the base counts from the base, and
/// another one is the target itself. A target is an address of an image.
pub proof fn lemma_target_is_what_is_held(base: u64, raw: RawInstruction)
    ensures
        match references::target_of(raw, base) {
            Some(target) => {
                ||| raw.opcode == Opcode::LeaMemory && raw.ip_relative && raw.ip_relative_address
                    == target.0
                ||| raw.opcode == Opcode::MovImmediate64 && raw.immediate64 == base + target.0
                ||| raw.opcode == Opcode::MovImmediate64 && raw.immediate64 < base
                    && raw.immediate64 == target.0
                ||| raw.opcode == Opcode::MovImmediate32 && raw.immediate32 == base + target.0
                ||| raw.opcode == Opcode::MovImmediate32 && raw.immediate32 < base
                    && raw.immediate32 == target.0
            },
            None => {
                ||| raw.opcode == Opcode::Other
                ||| raw.opcode == Opcode::LeaMemory && (!raw.ip_relative || raw.ip_relative_address
                    > u32::MAX)
                ||| raw.opcode == Opcode::MovImmediate64 && raw.immediate64 >= base
                    && raw.immediate64 - base > u32::MAX
                ||| raw.opcode == Opcode::MovImmediate64 && raw.immediate64 < base
                    && raw.immediate64 > u32::MAX
                ||| raw.opcode == Opcode::MovImmediate32 && raw.immediate32 >= base
                    && raw.immediate32 - base > u32::MAX
            },
        },
{
}

} // verus!
