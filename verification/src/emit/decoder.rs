//! Decoding and encoding of single instructions.

use vstd::prelude::*;

use crate::emit::address;

verus! {

/// The instructions that materialize an address.
#[derive(Debug, Clone, Copy, PartialEq, Eq, Structural)]
pub enum Opcode {
    /// `lea r64, m`
    LeaMemory,
    /// `mov r64, imm64`
    MovImmediate64,
    /// `mov r32, imm32`
    MovImmediate32,
    Other,
}

/// What is read off one decoded instruction.
#[derive(Debug, Clone, Copy, PartialEq, Eq, Structural)]
pub struct RawInstruction {
    pub opcode: Opcode,
    pub len: usize,
    pub invalid: bool,
    pub ip_relative: bool,
    pub ip_relative_address: u64,
    pub immediate64: u64,
    pub immediate32: u32,
}

/// The 64-bit instruction at the start of `bytes`, which stand at address `ip`,
/// as `iced_x86::Decoder` reads it.
pub uninterp spec fn decoded(bytes: Seq<u8>, ip: u64) -> RawInstruction;

/// `iced_x86::Decoder::with_ip` and `decode`, in 64-bit mode without options: the
/// instruction that the bytes start with, as a function of the bytes and their
/// address. What that instruction is for given bytes is not stated.
#[verifier::external_body]
pub(crate) fn decode_one(bytes: &[u8], ip: u64) -> (raw: RawInstruction)
    ensures
        raw == decoded(bytes@, ip),
{
    let raw = iced_x86::Decoder::with_ip(64, bytes, ip, iced_x86::DecoderOptions::NONE).decode();
    RawInstruction {
        opcode: match raw.code() {
            iced_x86::Code::Lea_r64_m => Opcode::LeaMemory,
            iced_x86::Code::Mov_r64_imm64 => Opcode::MovImmediate64,
            iced_x86::Code::Mov_r32_imm32 => Opcode::MovImmediate32,
            _ => Opcode::Other,
        },
        len: raw.len(),
        invalid: raw.is_invalid(),
        ip_relative: raw.is_ip_rel_memory_operand(),
        ip_relative_address: raw.ip_rel_memory_address(),
        immediate64: raw.immediate64(),
        immediate32: raw.immediate32(),
    }
}

/// `iced_x86::Instruction::with_branch` and `iced_x86::Encoder::encode` of a near
/// jump: the opcode `E9` and the distance from the end of the jump, where a
/// signed 32-bit distance reaches the target, and an error otherwise.
#[verifier::external_body]
pub(crate) fn encode_near_jump(from: u32, to: u32) -> (r: Option<Vec<u8>>)
    ensures
        match r {
            Some(bytes) => address::fits_near(to - (from + 5)) && bytes@ == near_jump(
                to - (from + 5),
            ),
            None => !address::fits_near(to - (from + 5)),
        },
{
    let jump = iced_x86::Instruction::with_branch(iced_x86::Code::Jmp_rel32_64, u64::from(to)).ok()?;
    let mut encoder = iced_x86::Encoder::new(64);
    encoder.encode(&jump, u64::from(from)).ok()?;
    Some(encoder.take_buffer())
}

/// The bytes of a near jump over `distance` bytes.
pub open spec fn near_jump(distance: int) -> Seq<u8> {
    seq![0xe9u8] + address::little_endian(address::two_complement(distance))
}

/// An instruction as `iced_x86` holds it.
#[verifier::external_type_specification]
#[verifier::external_body]
pub struct ExInstruction(iced_x86::Instruction);

/// The instruction at the start of `bytes`, which stand at address `ip`, equals
/// `raw`, as `iced_x86` reads and compares instructions.
pub uninterp spec fn reads_as(bytes: Seq<u8>, ip: u64, raw: iced_x86::Instruction) -> bool;

/// `iced_x86::Decoder::with_ip` and `decode`, in 64-bit mode without options, and
/// `==` on the instruction: whether the bytes start with one that equals `raw`, as
/// a function of the three arguments. For which bytes that holds is not stated.
#[verifier::external_body]
pub(crate) fn decodes_as(bytes: &[u8], ip: u64, raw: &iced_x86::Instruction) -> (yes: bool)
    ensures
        yes == reads_as(bytes@, ip, *raw),
{
    iced_x86::Decoder::with_ip(64, bytes, ip, iced_x86::DecoderOptions::NONE).decode() == *raw
}

} // verus!
