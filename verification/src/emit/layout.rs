//! Rules on where code is placed and on what has to survive the move.

use vstd::prelude::*;

use crate::emit::address;
use crate::emit::address::Rva;
use crate::emit::code::{Epilogue, Function, MachineInstruction, InstructionView};
use crate::emit::relocated;
use crate::emit::relocated::{find_measurement, Measured, Relocated};

verus! {

/// Every protected function starts on this boundary inside the new section.
pub const FUNCTION_ALIGNMENT: u32 = 16;

/// The characteristics of the section that holds moved code: it contains code,
/// can be executed and can be read.
pub const CODE_SECTION: u32 = 0x6000_0020;

/// The byte between two functions: a breakpoint, so that nothing runs through.
pub const PADDING: u8 = 0xcc;

/// The least multiple of `alignment` that is not less than `value`.
pub open spec fn aligned(value: int, alignment: int) -> int {
    (value + alignment - 1) / alignment * alignment
}

/// An aligned value is the least multiple that is not less than the value.
pub proof fn lemma_aligned(value: int, alignment: int)
    requires
        0 <= value,
        0 < alignment,
    ensures
        aligned(value, alignment) % alignment == 0,
        value <= aligned(value, alignment) < value + alignment,
        forall|m: int|
            value <= #[trigger] (m * alignment) ==> aligned(value, alignment) <= m * alignment,
        value % alignment == 0 ==> aligned(value, alignment) == value,
        value % alignment != 0 ==> aligned(value, alignment) == (value / alignment + 1) * alignment,
{
    let q = (value + alignment - 1) / alignment;
    vstd::arithmetic::div_mod::lemma_fundamental_div_mod(value + alignment - 1, alignment);
    vstd::arithmetic::div_mod::lemma_fundamental_div_mod(value, alignment);
    assert(q * alignment == alignment * q) by (nonlinear_arith);
    vstd::arithmetic::div_mod::lemma_mod_multiples_basic(q, alignment);
    assert forall|m: int| value <= #[trigger] (m * alignment) implies q * alignment <= m
        * alignment by {
        assert(q <= m) by (nonlinear_arith)
            requires
                value <= m * alignment,
                q * alignment < value + alignment,
                0 < alignment,
        ;
        assert(q * alignment <= m * alignment) by (nonlinear_arith)
            requires
                q <= m,
                0 < alignment,
        ;
    }
    let p = value / alignment;
    let r = value % alignment;
    assert(value == alignment * p + r);
    if r == 0 {
        assert(q == p) by (nonlinear_arith)
            requires
                value == alignment * p,
                value <= q * alignment < value + alignment,
                0 < alignment,
        ;
        assert(p * alignment == alignment * p) by (nonlinear_arith);
    } else {
        assert(q == p + 1) by (nonlinear_arith)
            requires
                value == alignment * p + r,
                0 < r < alignment,
                value <= q * alignment < value + alignment,
        ;
    }
}

/// The least multiple of `alignment` that is not less than `value`.
pub fn align_up(value: u32, alignment: u32) -> (r: u32)
    requires
        alignment > 0,
        aligned(value as int, alignment as int) <= u32::MAX,
    ensures
        r == aligned(value as int, alignment as int),
{
    proof {
        lemma_aligned(value as int, alignment as int);
    }
    if value % alignment == 0 {
        value
    } else {
        (value / alignment + 1) * alignment
    }
}

/// `buffer` extended to `length` bytes, where it is shorter.
pub open spec fn padded(buffer: Seq<u8>, length: int) -> Seq<u8> {
    if length > buffer.len() {
        buffer + Seq::new((length - buffer.len()) as nat, |i: int| PADDING)
    } else {
        buffer
    }
}

/// Extends `buffer` to `length` bytes, where it is shorter.
pub fn pad_to(buffer: &mut Vec<u8>, length: usize)
    ensures
        final(buffer)@ == padded(old(buffer)@, length as int),
{
    if length > buffer.len() {
        buffer.resize(length, PADDING);
        assert(buffer@ =~= padded(old(buffer)@, length as int));
    }
}

// ---------------------------------------------------------------------------
// Prologues
// ---------------------------------------------------------------------------

/// Walks the instructions before `end`: each has to start where the one before it
/// ended. The result is where the last of them ends.
pub open spec fn contiguous(list: Seq<InstructionView>, end: Rva, at: Rva) -> Option<Rva>
    decreases list.len(),
{
    if list.len() == 0 {
        Some(at)
    } else {
        match list[0].rva {
            Some(rva) if rva.0 < end.0 => if rva != at {
                None
            } else {
                match list[0].next_rva() {
                    Some(next) => contiguous(list.drop_first(), end, next),
                    None => None,
                }
            },
            _ => contiguous(list.drop_first(), end, at),
        }
    }
}

/// The first `size` bytes of the function are whole instructions in a row.
pub open spec fn prologue_boundary(list: Seq<InstructionView>, entry: Rva, size: u8) -> bool {
    match address::after(entry, size as int) {
        Some(end) => contiguous(list, end, entry) == Some(end),
        None => false,
    }
}

/// Reports whether the declared prologue ends on an instruction boundary.
pub fn prologue_has_valid_boundary(function: &Function, entry: Rva, size_of_prolog: u8) -> (yes: bool)
    ensures
        yes == prologue_boundary(function.code(), entry, size_of_prolog),
{
    let end = match entry.checked_add(size_of_prolog as u32) {
        Some(end) => end,
        None => return false,
    };
    let list = function.instructions();
    let ghost code = function.code();
    let mut expected = entry;
    let mut index: usize = 0;
    assert(code.skip(0) =~= code);
    while index < list.len()
        invariant
            index <= list@.len(),
            list@.len() == code.len(),
            forall|i: int| 0 <= i < list@.len() ==> (#[trigger] list@[i])@ == code[i],
            contiguous(code, end, entry) == contiguous(code.skip(index as int), end, expected),
            address::after(entry, size_of_prolog as int) == Some(end),
            code == function.code(),
        decreases list@.len() - index,
    {
        let ghost rest = code.skip(index as int);
        assert(rest.drop_first() =~= code.skip(index + 1));
        assert(rest[0] == code[index as int]);
        let instruction = list[index];
        if let Some(rva) = instruction.rva() {
            if rva.0 < end.0 {
                if rva != expected {
                    return false;
                }
                expected = match instruction.next_rva() {
                    Some(next) => next,
                    None => return false,
                };
            }
        }
        index += 1;
    }
    expected == end
}

/// Walks the instructions before `end` and their copies side by side. Each copy
/// has to be as long as the original and to start where the one before it ended.
pub open spec fn copied_contiguous(
    list: Seq<InstructionView>,
    measured: Seq<Measured>,
    end: Rva,
    at: Rva,
    copy: Rva,
) -> Option<(Rva, Rva)>
    decreases list.len(),
{
    if list.len() == 0 {
        Some((at, copy))
    } else {
        match list[0].rva {
            Some(rva) if rva.0 < end.0 => match relocated::measurement(measured, rva) {
                Some(place) if rva == at && place.to == copy && place.len == Some(
                    list[0].bytes.len() as usize,
                ) => match (
                    list[0].next_rva(),
                    address::after(copy, list[0].bytes.len() as int),
                ) {
                    (Some(next), Some(next_copy)) => copied_contiguous(
                        list.drop_first(),
                        measured,
                        end,
                        next,
                        next_copy,
                    ),
                    _ => None,
                },
                _ => None,
            },
            _ => copied_contiguous(list.drop_first(), measured, end, at, copy),
        }
    }
}

/// The prologue of the copy has the layout of the original.
pub open spec fn prologue_layout(
    list: Seq<InstructionView>,
    measured: Seq<Measured>,
    entry: Rva,
    placement: Rva,
    size: u8,
) -> bool {
    prologue_boundary(list, entry, size) && match (
        address::after(entry, size as int),
        address::after(placement, size as int),
    ) {
        (Some(end), Some(copy_end)) => copied_contiguous(list, measured, end, entry, placement)
            == Some((end, copy_end)),
        _ => false,
    }
}

/// Reports whether every prologue instruction sits at the same offset from the
/// entry as before, given where the instructions went and how long they are.
pub fn prologue_measures_the_same(
    function: &Function,
    measured: &[Measured],
    entry: Rva,
    placement: Rva,
    size_of_prolog: u8,
) -> (yes: bool)
    ensures
        yes == prologue_layout(function.code(), measured@, entry, placement, size_of_prolog),
{
    if !prologue_has_valid_boundary(function, entry, size_of_prolog) {
        return false;
    }
    let end = match entry.checked_add(size_of_prolog as u32) {
        Some(end) => end,
        None => return false,
    };
    let copy_end = match placement.checked_add(size_of_prolog as u32) {
        Some(copy_end) => copy_end,
        None => return false,
    };
    let list = function.instructions();
    let ghost code = function.code();
    let mut expected = entry;
    let mut expected_copy = placement;
    let mut index: usize = 0;
    assert(code.skip(0) =~= code);
    while index < list.len()
        invariant
            index <= list@.len(),
            list@.len() == code.len(),
            forall|i: int| 0 <= i < list@.len() ==> (#[trigger] list@[i])@ == code[i],
            copied_contiguous(code, measured@, end, entry, placement) == copied_contiguous(
                code.skip(index as int),
                measured@,
                end,
                expected,
                expected_copy,
            ),
            address::after(entry, size_of_prolog as int) == Some(end),
            address::after(placement, size_of_prolog as int) == Some(copy_end),
            code == function.code(),
            prologue_boundary(code, entry, size_of_prolog),
        decreases list@.len() - index,
    {
        let ghost rest = code.skip(index as int);
        assert(rest.drop_first() =~= code.skip(index + 1));
        assert(rest[0] == code[index as int]);
        let instruction = list[index];
        if let Some(rva) = instruction.rva() {
            if rva.0 < end.0 {
                let place = match find_measurement(measured, rva) {
                    Some(place) => place,
                    None => return false,
                };
                let len = instruction.len();
                if rva != expected || place.to != expected_copy || place.len != Some(len) {
                    return false;
                }
                expected = match instruction.next_rva() {
                    Some(next) => next,
                    None => return false,
                };
                assert(len <= u32::MAX);
                expected_copy = match expected_copy.checked_add(len as u32) {
                    Some(next) => next,
                    None => return false,
                };
            }
        }
        index += 1;
    }
    expected == end && expected_copy == copy_end
}

/// Reports whether every prologue instruction sits at the same offset from the
/// entry as before.
pub fn prologue_kept_its_layout(
    function: &Function,
    relocated: &Relocated,
    entry: Rva,
    placement: Rva,
    size_of_prolog: u8,
) -> (yes: bool)
    ensures
        yes == prologue_layout(
            function.code(),
            relocated.measurements(),
            entry,
            placement,
            size_of_prolog,
        ),
{
    let measured = relocated.measure();
    prologue_measures_the_same(function, measured.as_slice(), entry, placement, size_of_prolog)
}

// ---------------------------------------------------------------------------
// Epilogues
// ---------------------------------------------------------------------------

/// The instruction lies in the range.
pub open spec fn inside(instruction: InstructionView, range: Epilogue) -> bool {
    match instruction.rva {
        Some(rva) => range.begin.0 <= rva.0 < range.end.0,
        None => false,
    }
}

/// The copy of an instruction is as long as the original.
pub open spec fn same_length(instruction: InstructionView, measured: Seq<Measured>) -> bool {
    match instruction.rva {
        Some(rva) => match relocated::measurement(measured, rva) {
            Some(place) => place.len == Some(instruction.bytes.len() as usize),
            None => false,
        },
        None => false,
    }
}

/// The copies of two instructions stand side by side.
pub open spec fn adjacent(
    first: InstructionView,
    second: InstructionView,
    measured: Seq<Measured>,
) -> bool {
    match (first.rva, second.rva) {
        (Some(first_rva), Some(second_rva)) => match (
            relocated::measurement(measured, first_rva),
            relocated::measurement(measured, second_rva),
        ) {
            (Some(from), Some(to)) => address::after(from.to, first.bytes.len() as int) == Some(
                to.to,
            ),
            _ => false,
        },
        _ => false,
    }
}

/// The instructions of an epilogue, in order.
pub open spec fn epilogue_code(list: Seq<InstructionView>, range: Epilogue) -> Seq<
    InstructionView,
> {
    list.filter(|instruction: InstructionView| inside(instruction, range))
}

/// The epilogue is there, its instructions are as long as before, and each copy
/// stands right behind the one before it.
pub open spec fn epilogue_shape(
    list: Seq<InstructionView>,
    measured: Seq<Measured>,
    range: Epilogue,
) -> bool {
    let run = epilogue_code(list, range);
    &&& run.len() > 0
    &&& forall|i: int| 0 <= i < run.len() ==> same_length(#[trigger] run[i], measured)
    &&& forall|i: int, j: int|
        0 <= i && j == i + 1 && j < run.len() ==> adjacent(
            #[trigger] run[i],
            #[trigger] run[j],
            measured,
        )
}

/// The instructions of an epilogue, in order.
pub fn epilogue_instructions<'a>(function: &'a Function, range: Epilogue) -> (run: Vec<
    &'a MachineInstruction,
>)
    ensures
        run@.len() == epilogue_code(function.code(), range).len(),
        forall|i: int|
            0 <= i < run@.len() ==> (#[trigger] run@[i])@ == epilogue_code(
                function.code(),
                range,
            )[i],
{
    let list = function.instructions();
    let ghost code = function.code();
    let mut run: Vec<&'a MachineInstruction> = Vec::new();
    let mut index: usize = 0;
    proof {
        reveal(Seq::filter);
        assert(epilogue_code(code.take(0), range) =~= Seq::empty());
    }
    while index < list.len()
        invariant
            index <= list@.len(),
            list@.len() == code.len(),
            forall|i: int| 0 <= i < list@.len() ==> (#[trigger] list@[i])@ == code[i],
            run@.len() == epilogue_code(code.take(index as int), range).len(),
            forall|i: int|
                0 <= i < run@.len() ==> (#[trigger] run@[i])@ == epilogue_code(
                    code.take(index as int),
                    range,
                )[i],
        decreases list@.len() - index,
    {
        proof {
            reveal(Seq::filter);
            assert(code.take(index + 1).drop_last() =~= code.take(index as int));
            assert(code.take(index + 1).last() == code[index as int]);
        }
        let instruction = list[index];
        if let Some(rva) = instruction.rva() {
            if range.begin.0 <= rva.0 && rva.0 < range.end.0 {
                run.push(instruction);
            }
        }
        index += 1;
    }
    assert(code.take(index as int) =~= code);
    run
}

/// Reports whether one epilogue kept its shape, given where the instructions went
/// and how long they are.
pub fn epilogue_measures_the_same(function: &Function, measured: &[Measured], range: Epilogue) -> (yes: bool)
    ensures
        yes == epilogue_shape(function.code(), measured@, range),
{
    let run = epilogue_instructions(function, range);
    let ghost expected = epilogue_code(function.code(), range);
    if run.len() == 0 {
        return false;
    }
    let mut index: usize = 0;
    while index < run.len()
        invariant
            index <= run@.len(),
            run@.len() == expected.len(),
            expected == epilogue_code(function.code(), range),
            forall|i: int| 0 <= i < run@.len() ==> (#[trigger] run@[i])@ == expected[i],
            forall|i: int|
                0 <= i < index ==> same_length(#[trigger] expected[i], measured@),
            forall|i: int, j: int|
                0 <= i && j == i + 1 && j < index ==> adjacent(
                    #[trigger] expected[i],
                    #[trigger] expected[j],
                    measured@,
                ),
        decreases run@.len() - index,
    {
        let instruction = run[index];
        let place = match instruction.rva() {
            Some(rva) => match find_measurement(measured, rva) {
                Some(place) => place,
                None => {
                    assert(!same_length(expected[index as int], measured@));
                    return false;
                },
            },
            None => {
                assert(!same_length(expected[index as int], measured@));
                return false;
            },
        };
        if place.len != Some(instruction.len()) {
            assert(!same_length(expected[index as int], measured@));
            return false;
        }
        if index > 0 {
            let previous = run[index - 1];
            let follows = match previous.rva() {
                Some(rva) => match find_measurement(measured, rva) {
                    Some(before) => {
                        let len = previous.len();
                        len <= u32::MAX as usize && before.to.checked_add(len as u32) == Some(
                            place.to,
                        )
                    },
                    None => false,
                },
                None => false,
            };
            if !follows {
                assert(!adjacent(expected[index - 1], expected[index as int], measured@));
                return false;
            }
        }
        index += 1;
    }
    true
}

/// Every epilogue kept its shape.
pub open spec fn epilogue_shapes(
    list: Seq<InstructionView>,
    measured: Seq<Measured>,
    ranges: Seq<Epilogue>,
) -> bool {
    forall|i: int| 0 <= i < ranges.len() ==> epilogue_shape(list, measured, #[trigger] ranges[i])
}

/// Reports whether every epilogue kept its shape, given where the instructions
/// went and how long they are.
pub fn epilogues_measure_the_same(
    function: &Function,
    measured: &[Measured],
    ranges: &[Epilogue],
) -> (yes: bool)
    ensures
        yes == epilogue_shapes(function.code(), measured@, ranges@),
{
    let mut index: usize = 0;
    while index < ranges.len()
        invariant
            index <= ranges@.len(),
            forall|i: int|
                0 <= i < index ==> epilogue_shape(function.code(), measured@, #[trigger] ranges@[i]),
        decreases ranges@.len() - index,
    {
        if !epilogue_measures_the_same(function, measured, ranges[index]) {
            assert(!epilogue_shape(function.code(), measured@, ranges@[index as int]));
            return false;
        }
        index += 1;
    }
    true
}

/// Reports whether every epilogue came back with its instructions still adjacent
/// and still the same size.
pub fn epilogues_kept_their_shape(
    function: &Function,
    relocated: &Relocated,
    ranges: &[Epilogue],
) -> (yes: bool)
    ensures
        yes == epilogue_shapes(function.code(), relocated.measurements(), ranges@),
{
    let measured = relocated.measure();
    epilogues_measure_the_same(function, measured.as_slice(), ranges)
}

/// Some instruction holds an absolute address.
pub open spec fn absolute_fixups(list: Seq<InstructionView>) -> bool {
    exists|i: int| 0 <= i < list.len() && (#[trigger] list[i]).has_absolute()
}

/// Reports whether some instruction holds an absolute address.
pub fn has_absolute_fixups(function: &Function) -> (yes: bool)
    ensures
        yes == absolute_fixups(function.code()),
{
    let list = function.instructions();
    let ghost code = function.code();
    let mut index: usize = 0;
    while index < list.len()
        invariant
            index <= list@.len(),
            list@.len() == code.len(),
            code == function.code(),
            forall|i: int| 0 <= i < list@.len() ==> (#[trigger] list@[i])@ == code[i],
            forall|i: int| 0 <= i < index ==> !(#[trigger] code[i]).has_absolute(),
        decreases list@.len() - index,
    {
        if list[index].has_absolute() {
            assert(code[index as int].has_absolute());
            return true;
        }
        index += 1;
    }
    false
}

} // verus!
