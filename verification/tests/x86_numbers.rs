//! The numbers that decoded instructions carry are those of the decoder.

use iced_x86::{Code, FlowControl, OpAccess, OpKind, Register};
use xr::arch::x86_insn;

#[test]
fn codes_are_those_of_the_decoder() {
    let pairs: [(u16, Code); 26] = [
        (x86_insn::CODE_INVALID, Code::INVALID),
        (x86_insn::CODE_ADD_RM64_R64, Code::Add_rm64_r64),
        (x86_insn::CODE_ADD_R64_RM64, Code::Add_r64_rm64),
        (x86_insn::CODE_SUB_EAX_IMM32, Code::Sub_EAX_imm32),
        (x86_insn::CODE_SUB_RAX_IMM32, Code::Sub_RAX_imm32),
        (x86_insn::CODE_CMP_EAX_IMM32, Code::Cmp_EAX_imm32),
        (x86_insn::CODE_CMP_RAX_IMM32, Code::Cmp_RAX_imm32),
        (x86_insn::CODE_MOVSXD_R64_RM32, Code::Movsxd_r64_rm32),
        (x86_insn::CODE_SUB_RM64_IMM32, Code::Sub_rm64_imm32),
        (x86_insn::CODE_CMP_RM32_IMM32, Code::Cmp_rm32_imm32),
        (x86_insn::CODE_CMP_RM64_IMM32, Code::Cmp_rm64_imm32),
        (x86_insn::CODE_SUB_RM64_IMM8, Code::Sub_rm64_imm8),
        (x86_insn::CODE_CMP_RM32_IMM8, Code::Cmp_rm32_imm8),
        (x86_insn::CODE_CMP_RM64_IMM8, Code::Cmp_rm64_imm8),
        (x86_insn::CODE_MOV_RM32_R32, Code::Mov_rm32_r32),
        (x86_insn::CODE_MOV_RM64_R64, Code::Mov_rm64_r64),
        (x86_insn::CODE_MOV_R32_RM32, Code::Mov_r32_rm32),
        (x86_insn::CODE_MOV_R64_RM64, Code::Mov_r64_rm64),
        (x86_insn::CODE_LEA_R16_M, Code::Lea_r16_m),
        (x86_insn::CODE_LEA_R32_M, Code::Lea_r32_m),
        (x86_insn::CODE_LEA_R64_M, Code::Lea_r64_m),
        (x86_insn::CODE_MOV_R32_IMM32, Code::Mov_r32_imm32),
        (x86_insn::CODE_MOV_R64_IMM64, Code::Mov_r64_imm64),
        (x86_insn::CODE_MOV_RM64_IMM32, Code::Mov_rm64_imm32),
        (x86_insn::CODE_CALL_RM64, Code::Call_rm64),
        (x86_insn::CODE_JMP_RM64, Code::Jmp_rm64),
    ];
    for (number, code) in pairs {
        assert_eq!(number, code as u16, "{code:?}");
    }
}

#[test]
fn other_numbers_are_those_of_the_decoder() {
    assert_eq!(x86_insn::FLOW_UNCONDITIONAL_BRANCH, FlowControl::UnconditionalBranch as u8);
    assert_eq!(x86_insn::FLOW_INDIRECT_BRANCH, FlowControl::IndirectBranch as u8);
    assert_eq!(x86_insn::FLOW_CONDITIONAL_BRANCH, FlowControl::ConditionalBranch as u8);
    assert_eq!(x86_insn::FLOW_CALL, FlowControl::Call as u8);
    assert_eq!(x86_insn::FLOW_INDIRECT_CALL, FlowControl::IndirectCall as u8);
    assert_eq!(x86_insn::FLOW_XBEGIN, FlowControl::XbeginXabortXend as u8);
    assert_eq!(x86_insn::KIND_REGISTER, OpKind::Register as u8);
    assert_eq!(x86_insn::KIND_NEAR_BRANCH16, OpKind::NearBranch16 as u8);
    assert_eq!(x86_insn::KIND_NEAR_BRANCH32, OpKind::NearBranch32 as u8);
    assert_eq!(x86_insn::KIND_NEAR_BRANCH64, OpKind::NearBranch64 as u8);
    assert_eq!(x86_insn::KIND_MEMORY, OpKind::Memory as u8);
    assert_eq!(x86_insn::ACCESS_WRITE, OpAccess::Write as u8);
    assert_eq!(x86_insn::ACCESS_COND_WRITE, OpAccess::CondWrite as u8);
    assert_eq!(x86_insn::ACCESS_READ_WRITE, OpAccess::ReadWrite as u8);
    assert_eq!(x86_insn::ACCESS_READ_COND_WRITE, OpAccess::ReadCondWrite as u8);
    assert_eq!(x86_insn::REG_NONE, Register::None as u8);
    assert_eq!(x86_insn::REG_AL, Register::AL as u8);
    assert_eq!(x86_insn::REG_AH, Register::AH as u8);
    assert_eq!(x86_insn::REG_SPL, Register::SPL as u8);
    assert_eq!(x86_insn::REG_AX, Register::AX as u8);
    assert_eq!(x86_insn::REG_EAX, Register::EAX as u8);
    assert_eq!(x86_insn::REG_RAX, Register::RAX as u8);
    assert_eq!(x86_insn::REG_R15, Register::R15 as u8);
    assert_eq!(x86_insn::REG_RIP, Register::RIP as u8);
}

#[test]
fn registers_stand_in_order() {
    let bytes = [
        Register::AL, Register::CL, Register::DL, Register::BL, Register::AH, Register::CH,
        Register::DH, Register::BH, Register::SPL, Register::BPL, Register::SIL, Register::DIL,
        Register::R8L, Register::R9L, Register::R10L, Register::R11L, Register::R12L,
        Register::R13L, Register::R14L, Register::R15L,
    ];
    for (i, r) in bytes.iter().enumerate() {
        assert_eq!(*r as usize, x86_insn::REG_AL as usize + i);
    }
    let words = [
        Register::AX, Register::CX, Register::DX, Register::BX, Register::SP, Register::BP,
        Register::SI, Register::DI, Register::R8W, Register::R9W, Register::R10W, Register::R11W,
        Register::R12W, Register::R13W, Register::R14W, Register::R15W,
    ];
    let doubles = [
        Register::EAX, Register::ECX, Register::EDX, Register::EBX, Register::ESP, Register::EBP,
        Register::ESI, Register::EDI, Register::R8D, Register::R9D, Register::R10D,
        Register::R11D, Register::R12D, Register::R13D, Register::R14D, Register::R15D,
    ];
    let quads = [
        Register::RAX, Register::RCX, Register::RDX, Register::RBX, Register::RSP, Register::RBP,
        Register::RSI, Register::RDI, Register::R8, Register::R9, Register::R10, Register::R11,
        Register::R12, Register::R13, Register::R14, Register::R15,
    ];
    for i in 0..16 {
        assert_eq!(words[i] as usize, x86_insn::REG_AX as usize + i);
        assert_eq!(doubles[i] as usize, x86_insn::REG_EAX as usize + i);
        assert_eq!(quads[i] as usize, x86_insn::REG_RAX as usize + i);
    }
}
