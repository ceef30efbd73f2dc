//! Functions as decoded instructions in basic blocks.

use vstd::prelude::*;

use crate::emit::address;
use crate::emit::address::Rva;

verus! {

/// The instruction set of an image.
#[derive(Debug, Clone, Copy, PartialEq, Eq, Structural)]
pub enum Architecture {
    X86,
    X64,
}

/// The index of a block in its function.
#[derive(Debug, Clone, Copy, PartialEq, Eq, Structural)]
pub struct BlockId(pub usize);

/// How a block ends.
#[derive(Debug, Clone, Copy, PartialEq, Eq, Structural)]
pub enum Terminator {
    FallThrough,
    Jump,
    Return,
    Halt,
}

/// How control reaches another block.
#[derive(Debug, Clone, Copy, PartialEq, Eq, Structural)]
pub enum EdgeKind {
    FallThrough,
    Jump,
}

/// Where an edge leads.
#[derive(Debug, Clone, Copy, PartialEq, Eq, Structural)]
pub enum EdgeTarget {
    Block(BlockId),
    External(Rva),
}

/// A way out of a block.
#[derive(Debug, Clone, Copy, PartialEq, Eq, Structural)]
pub struct Edge {
    pub kind: EdgeKind,
    pub target: EdgeTarget,
}

/// How an operand refers to an address.
#[derive(Debug, Clone, Copy, PartialEq, Eq, Structural)]
pub enum OperandRef {
    /// An absolute address that the loader fixes up.
    Absolute { target: Rva },
    /// A distance from the instruction.
    Relative { target: Rva },
}

/// How far a function has come.
#[derive(Debug, Clone, Copy, PartialEq, Eq, Structural)]
pub enum CompileStage {
    Decoded,
}

/// Something that the decoder could not account for.
#[derive(Debug, PartialEq, Eq)]
pub struct DecodeIssue {
    pub rva: Rva,
    pub reason: String,
}

/// One instruction. An instruction that the rewriter inserted has no address.
#[derive(Debug, PartialEq, Eq)]
pub struct MachineInstruction {
    pub rva: Option<Rva>,
    pub bytes: Vec<u8>,
    pub refs: Vec<OperandRef>,
}

/// A run of instructions with one entry and one exit.
#[derive(Debug, PartialEq, Eq)]
pub struct BasicBlock {
    pub id: BlockId,
    pub start: Rva,
    pub end: Rva,
    pub instructions: Vec<MachineInstruction>,
    pub terminator: Terminator,
    pub successors: Vec<Edge>,
    pub predecessors: Vec<BlockId>,
}

/// The extent of a function and the address of its unwind information.
#[derive(Debug, Clone, Copy, PartialEq, Eq, Structural)]
pub struct RuntimeFunction {
    pub begin: Rva,
    pub end: Rva,
    pub unwind_info: Rva,
}

/// A decoded function.
#[derive(Debug, PartialEq, Eq)]
pub struct Function {
    pub architecture: Architecture,
    pub entry: Rva,
    pub blocks: Vec<BasicBlock>,
    pub entry_block: BlockId,
    pub unwind: Option<RuntimeFunction>,
    pub issues: Vec<DecodeIssue>,
    pub stage: CompileStage,
}

/// The extent of an epilogue.
#[derive(Debug, Clone, Copy, PartialEq, Eq, Structural)]
pub struct Epilogue {
    pub begin: Rva,
    pub end: Rva,
}

/// The mathematical view of an instruction.
#[verifier::ext_equal]
pub struct InstructionView {
    pub rva: Option<Rva>,
    pub bytes: Seq<u8>,
    pub refs: Seq<OperandRef>,
}

impl View for MachineInstruction {
    type V = InstructionView;

    open spec fn view(&self) -> InstructionView {
        InstructionView { rva: self.rva, bytes: self.bytes@, refs: self.refs@ }
    }
}

impl InstructionView {
    /// The address behind the instruction, if it has one.
    pub open spec fn next_rva(self) -> Option<Rva> {
        match self.rva {
            Some(rva) => address::after(rva, self.bytes.len() as int),
            None => None,
        }
    }

    /// Some operand holds an absolute address.
    pub open spec fn has_absolute(self) -> bool {
        exists|i: int| 0 <= i < self.refs.len() && self.refs[i] is Absolute
    }
}

/// The views of a sequence of instructions.
pub open spec fn views(instructions: Seq<MachineInstruction>) -> Seq<InstructionView> {
    Seq::new(instructions.len(), |i: int| instructions[i]@)
}

/// The instructions of the first `count` blocks, in order.
pub open spec fn instructions_of(blocks: Seq<BasicBlock>, count: nat) -> Seq<InstructionView>
    decreases count,
{
    if count == 0 || count > blocks.len() {
        Seq::empty()
    } else {
        instructions_of(blocks, (count - 1) as nat) + views(blocks[count - 1].instructions@)
    }
}

/// A vector with the items of a slice.
pub fn copied<T: Copy>(items: &[T]) -> (copy: Vec<T>)
    ensures
        copy@ == items@,
{
    let mut copy: Vec<T> = Vec::new();
    let mut index: usize = 0;
    while index < items.len()
        invariant
            index <= items@.len(),
            copy@ == items@.take(index as int),
        decreases items@.len() - index,
    {
        copy.push(items[index]);
        index += 1;
        assert(copy@ =~= items@.take(index as int));
    }
    assert(copy@ =~= items@);
    copy
}

impl MachineInstruction {
    /// An instruction as it stands at `rva`.
    pub fn decoded(rva: Rva, bytes: &[u8]) -> (instruction: Self)
        ensures
            instruction@ == (InstructionView {
                rva: Some(rva),
                bytes: bytes@,
                refs: Seq::empty(),
            }),
    {
        let instruction = MachineInstruction { rva: Some(rva), bytes: copied(bytes), refs: Vec::new() };
        assert(instruction@ =~= InstructionView {
            rva: Some(rva),
            bytes: bytes@,
            refs: Seq::empty(),
        });
        instruction
    }

    /// The address of this instruction, if it has one.
    pub fn rva(&self) -> (rva: Option<Rva>)
        ensures
            rva == self@.rva,
    {
        self.rva
    }

    /// The number of bytes of this instruction.
    pub fn len(&self) -> (len: usize)
        ensures
            len == self@.bytes.len(),
    {
        self.bytes.len()
    }

    /// The address behind this instruction, if it has one.
    pub fn next_rva(&self) -> (rva: Option<Rva>)
        ensures
            rva == self@.next_rva(),
    {
        match self.rva {
            Some(rva) => {
                let len = self.bytes.len();
                if len > u32::MAX as usize {
                    return None;
                }
                rva.checked_add(len as u32)
            },
            None => None,
        }
    }

    /// A copy of this instruction.
    pub fn duplicate(&self) -> (copy: Self)
        ensures
            copy@ == self@,
    {
        let copy = MachineInstruction {
            rva: self.rva,
            bytes: copied(self.bytes.as_slice()),
            refs: copied(self.refs.as_slice()),
        };
        assert(copy@ =~= self@);
        copy
    }

    /// Reports whether some operand holds an absolute address.
    pub fn has_absolute(&self) -> (yes: bool)
        ensures
            yes == self@.has_absolute(),
    {
        let mut index: usize = 0;
        while index < self.refs.len()
            invariant
                index <= self.refs@.len(),
                forall|i: int| 0 <= i < index ==> !(self.refs@[i] is Absolute),
            decreases self.refs@.len() - index,
        {
            match self.refs[index] {
                OperandRef::Absolute { target: _ } => {
                    assert(self@.refs[index as int] is Absolute);
                    return true;
                },
                OperandRef::Relative { target: _ } => {},
            }
            index += 1;
        }
        false
    }
}

impl Function {
    /// The instructions of all blocks, in order.
    pub open spec fn code(&self) -> Seq<InstructionView> {
        instructions_of(self.blocks@, self.blocks@.len())
    }

    /// Reports whether the decoder could account for everything.
    pub fn is_complete(&self) -> (yes: bool)
        ensures
            yes == (self.issues@.len() == 0),
    {
        self.issues.len() == 0
    }

    /// The instructions of all blocks, in order.
    pub fn instructions(&self) -> (list: Vec<&MachineInstruction>)
        ensures
            list@.len() == self.code().len(),
            forall|i: int| 0 <= i < list@.len() ==> (#[trigger] list@[i])@ == self.code()[i],
    {
        let mut list: Vec<&MachineInstruction> = Vec::new();
        let mut block: usize = 0;
        while block < self.blocks.len()
            invariant
                block <= self.blocks@.len(),
                list@.len() == instructions_of(self.blocks@, block as nat).len(),
                forall|i: int|
                    0 <= i < list@.len() ==> (#[trigger] list@[i])@ == instructions_of(
                        self.blocks@,
                        block as nat,
                    )[i],
            decreases self.blocks@.len() - block,
        {
            let ghost before = instructions_of(self.blocks@, block as nat);
            let items = &self.blocks[block].instructions;
            let mut index: usize = 0;
            while index < items.len()
                invariant
                    index <= items@.len(),
                    list@.len() == before.len() + index,
                    forall|i: int|
                        0 <= i < before.len() ==> (#[trigger] list@[i])@ == before[i],
                    forall|i: int|
                        before.len() <= i < list@.len() ==> (#[trigger] list@[i])@
                            == items@[i - before.len()]@,
                decreases items@.len() - index,
            {
                list.push(&items[index]);
                index += 1;
            }
            block += 1;
        }
        list
    }
}

} // verus!
