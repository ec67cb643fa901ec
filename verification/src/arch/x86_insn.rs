//! Decoded x86 instructions as plain values.
//!
//! `iced_x86` decodes the bytes. What the scanners read of an instruction is copied
//! into an [`X86Insn`]; instruction codes, flow kinds, operand kinds, registers and
//! accesses are the numbers of the enums of `iced_x86`.

use crate::va::wrap64;
use iced_x86::{Decoder, DecoderOptions, Formatter, InstructionInfoFactory, IntelFormatter};
use vstd::prelude::*;

verus! {

pub const CODE_INVALID: u16 = 0;

pub const CODE_ADD_RM64_R64: u16 = 8;

pub const CODE_ADD_R64_RM64: u16 = 12;

pub const CODE_SUB_EAX_IMM32: u16 = 91;

pub const CODE_SUB_RAX_IMM32: u16 = 92;

pub const CODE_CMP_EAX_IMM32: u16 = 117;

pub const CODE_CMP_RAX_IMM32: u16 = 118;

pub const CODE_MOVSXD_R64_RM32: u16 = 140;

pub const CODE_SUB_RM64_IMM32: u16 = 232;

pub const CODE_CMP_RM32_IMM32: u16 = 237;

pub const CODE_CMP_RM64_IMM32: u16 = 238;

pub const CODE_SUB_RM64_IMM8: u16 = 264;

pub const CODE_CMP_RM32_IMM8: u16 = 269;

pub const CODE_CMP_RM64_IMM8: u16 = 270;

pub const CODE_MOV_RM32_R32: u16 = 281;

pub const CODE_MOV_RM64_R64: u16 = 282;

pub const CODE_MOV_R32_RM32: u16 = 285;

pub const CODE_MOV_R64_RM64: u16 = 286;

pub const CODE_LEA_R16_M: u16 = 290;

pub const CODE_LEA_R32_M: u16 = 291;

pub const CODE_LEA_R64_M: u16 = 292;

pub const CODE_MOV_R32_IMM32: u16 = 357;

pub const CODE_MOV_R64_IMM64: u16 = 358;

pub const CODE_MOV_RM64_IMM32: u16 = 405;

pub const CODE_CALL_RM64: u16 = 759;

pub const CODE_JMP_RM64: u16 = 765;

pub const FLOW_UNCONDITIONAL_BRANCH: u8 = 1;

pub const FLOW_INDIRECT_BRANCH: u8 = 2;

pub const FLOW_CONDITIONAL_BRANCH: u8 = 3;

pub const FLOW_CALL: u8 = 5;

pub const FLOW_INDIRECT_CALL: u8 = 6;

pub const FLOW_XBEGIN: u8 = 8;

pub const KIND_REGISTER: u8 = 0;

pub const KIND_NEAR_BRANCH16: u8 = 1;

pub const KIND_NEAR_BRANCH32: u8 = 2;

pub const KIND_NEAR_BRANCH64: u8 = 3;

pub const KIND_MEMORY: u8 = 24;

pub const REG_NONE: u8 = 0;

pub const REG_AL: u8 = 1;

pub const REG_AH: u8 = 5;

pub const REG_SPL: u8 = 9;

pub const REG_AX: u8 = 21;

pub const REG_EAX: u8 = 37;

pub const REG_RAX: u8 = 53;

pub const REG_R15: u8 = 68;

pub const REG_RIP: u8 = 70;

pub const ACCESS_WRITE: u8 = 3;

pub const ACCESS_COND_WRITE: u8 = 4;

pub const ACCESS_READ_WRITE: u8 = 5;

pub const ACCESS_READ_COND_WRITE: u8 = 6;

/// A decoded instruction.
#[derive(Clone, Copy, Debug)]
pub struct X86Insn {
    /// Bytes that it takes.
    pub len: usize,
    pub code: u16,
    pub flow: u8,
    pub op_count: u32,
    /// Kind of each operand.
    pub kinds: [u8; 5],
    /// Registers of the first two operands, where they are registers.
    pub reg0: u8,
    pub reg1: u8,
    /// Base register, index register, index scale and displacement of the memory
    /// operand. Relative to RIP, the displacement is the address.
    pub base: u8,
    pub index: u8,
    pub scale: u32,
    pub disp: u64,
    /// Target of a near branch.
    pub near: u64,
    /// The immediate at several widths.
    pub imm8: u8,
    pub imm32: u32,
    pub imm32to64: i64,
    pub imm64: u64,
}

/// What `Decoder::decode` makes of the start of some code at an address.
pub uninterp spec fn x86_decoded(bitness: u32, code: Seq<u8>, ip: u64) -> X86Insn;

/// How the first instruction of some code accesses an operand, from
/// `InstructionInfo::op_access`.
pub uninterp spec fn x86_access(bitness: u32, code: Seq<u8>, ip: u64, op: u32) -> u8;

/// A decoder on its way through some code.
#[verifier::external_type_specification]
#[verifier::external_body]
pub struct ExDecoder<'a>(iced_x86::Decoder<'a>) where iced_x86::Decoder<'a>: Send + Sync;

/// The bytes that a decoder has still to decode.
pub uninterp spec fn decoder_rest(d: iced_x86::Decoder<'_>) -> Seq<u8>;

/// The address of the first of them.
pub uninterp spec fn decoder_ip(d: iced_x86::Decoder<'_>) -> u64;

/// The operating mode of a decoder, in bits.
pub uninterp spec fn decoder_bits(d: iced_x86::Decoder<'_>) -> u32;

/// Starts a decoder with `Decoder::with_ip`.
///
/// Trusted: all of the code is still to be decoded, from the given address on, in
/// the given mode. Other modes than 16, 32 and 64 bits make the outside function
/// panic and are left out.
#[verifier::external_body]
pub(crate) fn open_decoder<'a>(bitness: u32, code: &'a [u8], ip: u64) -> (d: Decoder<'a>)
    requires
        bitness == 16 || bitness == 32 || bitness == 64,
    ensures
        decoder_rest(d) == code@,
        decoder_ip(d) == ip,
        decoder_bits(d) == bitness,
{
    Decoder::with_ip(bitness, code, ip, DecoderOptions::NONE)
}

/// Asks `Decoder::can_decode`.
///
/// Trusted: the result says whether any byte is left.
#[verifier::external_body]
pub(crate) fn more_code(d: &Decoder<'_>) -> (r: bool)
    ensures
        r == (decoder_rest(*d).len() > 0),
{
    d.can_decode()
}

/// Takes the next instruction with `Decoder::decode`. The fields are those of the
/// accessors of `Instruction`.
///
/// Trusted: the instruction depends on the mode, the bytes left and their address
/// alone; it takes at least one byte and no more than are left, and the decoder
/// moves past it. An instruction has at most five operands.
#[verifier::external_body]
pub(crate) fn decode_next(d: &mut Decoder<'_>) -> (r: X86Insn)
    requires
        decoder_rest(*old(d)).len() > 0,
    ensures
        r == x86_decoded(decoder_bits(*old(d)), decoder_rest(*old(d)), decoder_ip(*old(d))),
        1 <= r.len <= decoder_rest(*old(d)).len(),
        r.op_count <= 5,
        decoder_rest(*final(d)) == decoder_rest(*old(d)).skip(r.len as int),
        decoder_ip(*final(d)) == wrap64(decoder_ip(*old(d)) + r.len),
        decoder_bits(*final(d)) == decoder_bits(*old(d)),
{
    let i = d.decode();
    X86Insn {
        len: i.len(), code: i.code() as u16, flow: i.flow_control() as u8,
        op_count: i.op_count(), kinds: core::array::from_fn(|k| i.op_kind(k as u32) as u8),
        reg0: i.op0_register() as u8, reg1: i.op1_register() as u8,
        base: i.memory_base() as u8, index: i.memory_index() as u8,
        scale: i.memory_index_scale(), disp: i.memory_displacement64(),
        near: i.near_branch_target(), imm8: i.immediate8(), imm32: i.immediate32(),
        imm32to64: i.immediate32to64(), imm64: i.immediate64(),
    }
}

/// Asks `InstructionInfo::op_access` how the first instruction of `code` accesses
/// an operand.
///
/// Trusted: the answer depends on the arguments alone.
#[verifier::external_body]
pub(crate) fn operand_access(bitness: u32, code: &[u8], ip: u64, op: u32) -> (r: u8)
    requires
        bitness == 16 || bitness == 32 || bitness == 64,
        code@.len() > 0,
        op < 5,
    ensures
        r == x86_access(bitness, code@, ip, op),
{
    let insn = Decoder::with_ip(bitness, code, ip, DecoderOptions::NONE).decode();
    InstructionInfoFactory::new().info(&insn).op_access(op) as u8
}

/// The text of the first instruction of some code, from `IntelFormatter`.
pub uninterp spec fn x86_text(
    bitness: u32,
    code: Seq<u8>,
    ip: u64,
    uppercase: bool,
    spaced: bool,
) -> Seq<char>;

/// Formats the first instruction of `code` with `IntelFormatter`: keywords in upper
/// case or not, operands with a space between them or not.
///
/// Trusted: the text depends on the arguments alone.
#[verifier::external_body]
pub(crate) fn format_insn(
    bitness: u32,
    code: &[u8],
    ip: u64,
    uppercase: bool,
    spaced: bool,
) -> (r: String)
    requires
        bitness == 16 || bitness == 32 || bitness == 64,
        code@.len() > 0,
    ensures
        r@ == x86_text(bitness, code@, ip, uppercase, spaced),
{
    let insn = Decoder::with_ip(bitness, code, ip, DecoderOptions::NONE).decode();
    let mut formatter = IntelFormatter::new();
    formatter.options_mut().set_uppercase_keywords(uppercase);
    formatter.options_mut().set_space_after_operand_separator(spaced);
    let mut text = String::new();
    formatter.format(&insn, &mut text);
    text
}

} // verus!
