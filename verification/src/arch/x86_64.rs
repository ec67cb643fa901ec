//! Cross-references from x86-64 code.
//!
//! The linear scan reports direct branches, operands relative to RIP, branches
//! through import slots, and immediates that are addresses. The propagating scan
//! also remembers constants in registers, and reports branches through them and
//! through switch tables of the form
//!
//! ```text
//!   CMP    ridx, last
//!   JA     default
//!   LEA    rbase, [rip + table]
//!   MOVSXD roff, dword [rbase + ridx*4]
//!   ADD    roff, rbase
//!   JMP    roff
//! ```

use crate::arch::x86_insn::{
    decode_next, decoder_bits, decoder_ip, decoder_rest, more_code, open_decoder, operand_access,
    x86_access, x86_decoded, X86Insn, ACCESS_COND_WRITE, ACCESS_READ_COND_WRITE, ACCESS_READ_WRITE,
    ACCESS_WRITE, CODE_ADD_R64_RM64, CODE_ADD_RM64_R64, CODE_CALL_RM64, CODE_CMP_EAX_IMM32,
    CODE_CMP_RAX_IMM32, CODE_CMP_RM32_IMM32, CODE_CMP_RM32_IMM8, CODE_CMP_RM64_IMM32,
    CODE_CMP_RM64_IMM8, CODE_INVALID, CODE_JMP_RM64, CODE_LEA_R16_M, CODE_LEA_R32_M,
    CODE_LEA_R64_M, CODE_MOVSXD_R64_RM32, CODE_MOV_R32_IMM32, CODE_MOV_R32_RM32,
    CODE_MOV_R64_IMM64, CODE_MOV_R64_RM64, CODE_MOV_RM32_R32, CODE_MOV_RM64_IMM32,
    CODE_MOV_RM64_R64, CODE_SUB_EAX_IMM32, CODE_SUB_RAX_IMM32, CODE_SUB_RM64_IMM32,
    CODE_SUB_RM64_IMM8, FLOW_CALL, FLOW_CONDITIONAL_BRANCH, FLOW_INDIRECT_BRANCH,
    FLOW_INDIRECT_CALL, FLOW_UNCONDITIONAL_BRANCH, FLOW_XBEGIN, KIND_MEMORY, KIND_NEAR_BRANCH16,
    KIND_NEAR_BRANCH32, KIND_NEAR_BRANCH64, KIND_REGISTER, REG_AH, REG_AL, REG_AX, REG_EAX,
    REG_NONE, REG_R15, REG_RAX, REG_RIP, REG_SPL,
};
use crate::arch::{
    exec_in, i32_at, mapped_in, one_or_none, DataSpanView, ScanRegion, SegmentDataIndex,
    SegmentIndex, SegmentSpan,
};
use crate::slots::has_slot;
use crate::va::{wrap64, Va};
use crate::xref::{Confidence, Xref, XrefKind};
use rustc_hash::FxHashSet;
use vstd::prelude::*;

verus! {

/// Immediates of 32 bits that are sign-extended to this value or above are
/// negative numbers, not addresses.
pub const IMM32_ADDR_MAX: u64 = 0x1_0000_0000;

/// Most entries of a switch table.
pub const MAX_JUMP_TABLE_ENTRIES: u32 = 4096;

/// The number of a general-purpose register of any width; `None` for any other
/// register.
pub open spec fn gpr(reg: u8) -> Option<int> {
    if REG_AL <= reg < REG_AH {
        Some(reg - REG_AL)
    } else if REG_AH <= reg < REG_SPL {
        Some(reg - REG_AH)
    } else if REG_SPL <= reg < REG_AX {
        Some(reg - REG_SPL + 4)
    } else if REG_AX <= reg < REG_EAX {
        Some(reg - REG_AX)
    } else if REG_EAX <= reg < REG_RAX {
        Some(reg - REG_EAX)
    } else if REG_RAX <= reg <= REG_R15 {
        Some(reg - REG_RAX)
    } else {
        None
    }
}

/// A register that takes part in a jump through a switch table.
#[derive(Clone, Copy, Debug, PartialEq, Eq, Structural)]
pub struct JumpTableInfo {
    /// Address of the first entry.
    pub table_start: Va,
    /// Address that the entries are added to.
    pub target_base: Va,
    /// Bound of the index, if one is known.
    pub max_entries: Option<u32>,
}

/// What is known of the registers.
#[verifier::ext_equal]
pub struct RegsView {
    /// The constant in each register.
    pub vals: Seq<Option<u64>>,
    /// The switch table of each register.
    pub tables: Seq<Option<JumpTableInfo>>,
    /// The bound of each register.
    pub bounds: Seq<Option<u32>>,
}

/// Nothing known of any register.
pub open spec fn blank_regs() -> RegsView {
    RegsView {
        vals: Seq::new(16, |i: int| None),
        tables: Seq::new(16, |i: int| None),
        bounds: Seq::new(16, |i: int| None),
    }
}

impl RegsView {
    pub open spec fn wf(self) -> bool {
        self.vals.len() == 16 && self.tables.len() == 16 && self.bounds.len() == 16
    }
}

/// What a scan works on.
#[verifier::ext_equal]
pub struct X86Model {
    /// The code, and the address of its first byte.
    pub data: Seq<u8>,
    pub base: u64,
    /// Which addresses are mapped, and what they hold.
    pub spans: Seq<SegmentSpan>,
    pub image: Seq<DataSpanView>,
    /// The import slots.
    pub slots: Set<u64>,
}

impl X86Model {
    /// The address of the byte at `pos`.
    pub open spec fn va(self, pos: int) -> u64 {
        wrap64(self.base + pos)
    }

    /// The instruction at `pos`.
    pub open spec fn insn(self, pos: int) -> X86Insn {
        x86_decoded(64, self.data.skip(pos), self.va(pos))
    }

    /// Whether the instruction at `pos` takes some bytes and no more than there
    /// are. Every decoded instruction does.
    pub open spec fn ends_inside(self, pos: int) -> bool {
        1 <= self.insn(pos).len && pos + self.insn(pos).len <= self.data.len()
    }
}

/// The target of a direct branch.
pub open spec fn direct_target(insn: X86Insn) -> Option<u64> {
    let kind = insn.kinds[0];
    if kind == KIND_NEAR_BRANCH16 || kind == KIND_NEAR_BRANCH32 || kind == KIND_NEAR_BRANCH64 {
        Some(insn.near)
    } else {
        None
    }
}

/// The kind of a direct branch. XBEGIN branches where the transaction aborts.
pub open spec fn branch_kind(flow: u8) -> Option<XrefKind> {
    if flow == FLOW_CALL {
        Some(XrefKind::Call)
    } else if flow == FLOW_UNCONDITIONAL_BRANCH {
        Some(XrefKind::Jump)
    } else if flow == FLOW_CONDITIONAL_BRANCH || flow == FLOW_XBEGIN {
        Some(XrefKind::CondJump)
    } else {
        None
    }
}

/// A reference that one instruction gives by itself.
pub open spec fn immediate_ref(from: u64, to: u64, kind: XrefKind) -> Xref {
    Xref { from: Va(from), to: Va(to), kind, confidence: Confidence::LinearImmediate }
}

/// A reference that what is known of the registers gives.
pub open spec fn prop_ref(from: u64, to: u64, kind: XrefKind) -> Xref {
    Xref { from: Va(from), to: Va(to), kind, confidence: Confidence::LocalProp }
}

/// The reference of a direct branch to a mapped address, or of a branch through an
/// import slot to the slot.
#[verifier::opaque]
pub open spec fn branch_ref(m: X86Model, insn: X86Insn, va: u64) -> Option<Xref> {
    match (branch_kind(insn.flow), direct_target(insn)) {
        (Some(kind), Some(to)) => if mapped_in(m.spans, to) {
            Some(immediate_ref(va, to, kind))
        } else {
            None
        },
        (Some(_), None) => None,
        (None, _) => if (insn.flow == FLOW_INDIRECT_CALL || insn.flow == FLOW_INDIRECT_BRANCH)
            && insn.op_count == 1 && insn.kinds[0] == KIND_MEMORY && insn.base == REG_RIP
            && m.slots.contains(insn.disp) {
            Some(
                immediate_ref(
                    va,
                    insn.disp,
                    if insn.flow == FLOW_INDIRECT_CALL {
                        XrefKind::Call
                    } else {
                        XrefKind::Jump
                    },
                ),
            )
        } else {
            None
        },
    }
}

/// The first memory operand from the `op`-th on.
pub open spec fn memory_operand(insn: X86Insn, op: int) -> Option<int>
    decreases insn.op_count - op,
{
    if op < 0 || op >= insn.op_count {
        None
    } else if insn.kinds[op] == KIND_MEMORY {
        Some(op)
    } else {
        memory_operand(insn, op + 1)
    }
}

pub open spec fn is_lea(code: u16) -> bool {
    code == CODE_LEA_R16_M || code == CODE_LEA_R32_M || code == CODE_LEA_R64_M
}

/// Whether an access writes.
pub open spec fn is_write(access: u8) -> bool {
    access == ACCESS_WRITE || access == ACCESS_COND_WRITE || access == ACCESS_READ_WRITE || access
        == ACCESS_READ_COND_WRITE
}

/// The reference of a memory operand relative to RIP: a pointer for LEA, a read or
/// write of data for any other instruction.
#[verifier::opaque]
pub open spec fn rip_ref(m: X86Model, insn: X86Insn, pos: int) -> Option<Xref> {
    match memory_operand(insn, 0) {
        Some(op) => {
            let va = m.va(pos);
            let to = insn.disp;
            if insn.base == REG_RIP && mapped_in(m.spans, to) && (is_lea(insn.code) || !exec_in(
                m.spans,
                to,
            )) {
                let kind = if is_lea(insn.code) {
                    XrefKind::DataPointer
                } else if is_write(x86_access(64, m.data.skip(pos), va, op as u32)) {
                    XrefKind::DataWrite
                } else {
                    XrefKind::DataRead
                };
                Some(immediate_ref(va, to, kind))
            } else {
                None
            }
        },
        None => None,
    }
}

/// The immediate of a MOV, CMP or SUB, where it can be an address.
pub open spec fn imm_address(insn: X86Insn) -> Option<u64> {
    let code = insn.code;
    let imm32 = wrap64(insn.imm32to64 as int);
    if code == CODE_MOV_R64_IMM64 {
        if insn.imm64 > 0 {
            Some(insn.imm64)
        } else {
            None
        }
    } else if code == CODE_MOV_RM64_IMM32 || code == CODE_MOV_R32_IMM32 || code
        == CODE_CMP_RM64_IMM32 || code == CODE_CMP_RM64_IMM8 || code == CODE_CMP_RAX_IMM32 || code
        == CODE_CMP_EAX_IMM32 || code == CODE_SUB_RM64_IMM32 || code == CODE_SUB_RM64_IMM8 || code
        == CODE_SUB_RAX_IMM32 || code == CODE_SUB_EAX_IMM32 {
        if 0 < imm32 < IMM32_ADDR_MAX {
            Some(imm32)
        } else {
            None
        }
    } else {
        None
    }
}

/// The reference of an immediate that is a mapped address.
#[verifier::opaque]
pub open spec fn imm_ref(m: X86Model, insn: X86Insn, va: u64) -> Option<Xref> {
    match imm_address(insn) {
        Some(to) => if mapped_in(m.spans, to) {
            Some(immediate_ref(va, to, XrefKind::DataPointer))
        } else {
            None
        },
        None => None,
    }
}

/// The target of the `k`-th entry of a switch table, if the entry can be read and
/// its target is code.
pub open spec fn case_target(m: X86Model, jt: JumpTableInfo, k: int) -> Option<u64> {
    match i32_at(m.image, wrap64(jt.table_start.0 + k * 4)) {
        Some(entry) => {
            let to = wrap64(jt.target_base.0 + entry);
            if exec_in(m.spans, to) {
                Some(to)
            } else {
                None
            }
        },
        None => None,
    }
}

/// The references of the entries from the `k`-th on, up to the first without a
/// target.
pub open spec fn case_refs(m: X86Model, jt: JumpTableInfo, from: u64, k: int, limit: int) -> Seq<
    Xref,
>
    decreases limit - k,
{
    if k >= limit {
        Seq::empty()
    } else {
        match case_target(m, jt, k) {
            Some(to) => seq![prop_ref(from, to, XrefKind::Jump)] + case_refs(
                m,
                jt,
                from,
                k + 1,
                limit,
            ),
            None => Seq::empty(),
        }
    }
}

/// The references of a switch table; none without a bound.
pub open spec fn table_refs(m: X86Model, jt: JumpTableInfo, from: u64) -> Seq<Xref> {
    match jt.max_entries {
        Some(max) => case_refs(
            m,
            jt,
            from,
            0,
            if max < MAX_JUMP_TABLE_ENTRIES {
                max as int
            } else {
                MAX_JUMP_TABLE_ENTRIES as int
            },
        ),
        None => Seq::empty(),
    }
}

/// The references of a call or jump through a register.
#[verifier::opaque]
pub open spec fn register_refs(m: X86Model, st: RegsView, insn: X86Insn, va: u64) -> Seq<Xref> {
    if (insn.code == CODE_CALL_RM64 || insn.code == CODE_JMP_RM64) && insn.kinds[0]
        == KIND_REGISTER {
        match gpr(insn.reg0) {
            Some(r) => match st.vals[r] {
                Some(to) => if mapped_in(m.spans, to) {
                    seq![
                        prop_ref(
                            va,
                            to,
                            if insn.code == CODE_CALL_RM64 {
                                XrefKind::Call
                            } else {
                                XrefKind::Jump
                            },
                        ),
                    ]
                } else {
                    Seq::empty()
                },
                None => match st.tables[r] {
                    Some(jt) => if insn.code == CODE_JMP_RM64 {
                        table_refs(m, jt, va)
                    } else {
                        Seq::empty()
                    },
                    None => Seq::empty(),
                },
            },
            None => Seq::empty(),
        }
    } else {
        Seq::empty()
    }
}

/// The register that an instruction takes as its first operand.
pub open spec fn dest(insn: X86Insn) -> Option<int> {
    if insn.op_count > 0 && insn.kinds[0] == KIND_REGISTER {
        gpr(insn.reg0)
    } else {
        None
    }
}

/// The switch table that MOVSXD loads an entry of.
pub open spec fn loaded_table(st: RegsView, insn: X86Insn) -> Option<JumpTableInfo> {
    if insn.index != REG_NONE && insn.scale == 4 {
        match gpr(insn.base) {
            Some(b) => match st.vals[b] {
                Some(base) => Some(
                    JumpTableInfo {
                        table_start: Va(wrap64(base + insn.disp)),
                        target_base: Va(base),
                        max_entries: match gpr(insn.index) {
                            Some(x) => st.bounds[x],
                            None => None,
                        },
                    },
                ),
                None => None,
            },
            None => None,
        }
    } else {
        None
    }
}

/// The switch table of the sum of two registers, one an entry and the other the
/// address that entries are added to.
pub open spec fn summed_table(st: RegsView, d: int, s: int) -> Option<JumpTableInfo> {
    match (st.tables[d], st.tables[s]) {
        (Some(jt), _) => if st.vals[s] == Some(jt.target_base.0) {
            Some(jt)
        } else {
            None
        },
        (None, Some(jt)) => if st.vals[d] == Some(jt.target_base.0) {
            Some(jt)
        } else {
            None
        },
        (None, None) => None,
    }
}

/// The switch tables after an instruction.
#[verifier::opaque]
pub open spec fn next_tables(st: RegsView, insn: X86Insn) -> Seq<Option<JumpTableInfo>> {
    match dest(insn) {
        Some(d) => st.tables.update(
            d,
            if insn.code == CODE_MOVSXD_R64_RM32 && insn.kinds[1] == KIND_MEMORY {
                loaded_table(st, insn)
            } else if (insn.code == CODE_ADD_RM64_R64 || insn.code == CODE_ADD_R64_RM64)
                && insn.kinds[1] == KIND_REGISTER {
                match gpr(insn.reg1) {
                    Some(s) => summed_table(st, d, s),
                    None => None,
                }
            } else {
                None
            },
        ),
        None => st.tables,
    }
}

/// The immediate of a comparison of a register.
pub open spec fn compared_with(insn: X86Insn) -> Option<int> {
    let code = insn.code;
    if code == CODE_CMP_RM64_IMM32 || code == CODE_CMP_RM32_IMM32 || code == CODE_CMP_RAX_IMM32
        || code == CODE_CMP_EAX_IMM32 {
        Some(insn.imm32 as int)
    } else if code == CODE_CMP_RM64_IMM8 || code == CODE_CMP_RM32_IMM8 {
        Some(insn.imm8 as int)
    } else {
        None
    }
}

pub open spec fn is_register_move(code: u16) -> bool {
    code == CODE_MOV_R32_RM32 || code == CODE_MOV_RM32_R32 || code == CODE_MOV_R64_RM64 || code
        == CODE_MOV_RM64_R64
}

/// The bounds after an instruction: a comparison sets one, a move copies it, and
/// anything else that names the register first drops it.
#[verifier::opaque]
pub open spec fn next_bounds(st: RegsView, insn: X86Insn) -> Seq<Option<u32>> {
    let reg0 = if insn.kinds[0] == KIND_REGISTER {
        gpr(insn.reg0)
    } else {
        None
    };
    let reg1 = if insn.kinds[1] == KIND_REGISTER {
        gpr(insn.reg1)
    } else {
        None
    };
    match (compared_with(insn), reg0) {
        (Some(imm), Some(r)) => st.bounds.update(
            r,
            if imm < MAX_JUMP_TABLE_ENTRIES {
                Some((imm + 1) as u32)
            } else {
                None
            },
        ),
        _ => match (reg0, reg1) {
            (Some(d), Some(s)) if is_register_move(insn.code) => st.bounds.update(
                d,
                st.bounds[s],
            ),
            _ => match dest(insn) {
                Some(d) => st.bounds.update(d, None),
                None => st.bounds,
            },
        },
    }
}

/// The constant that an instruction puts into its first operand.
pub open spec fn moved_constant(insn: X86Insn) -> Option<u64> {
    if insn.code == CODE_MOV_R64_IMM64 {
        Some(insn.imm64)
    } else if insn.code == CODE_MOV_RM64_IMM32 {
        Some(wrap64(insn.imm32to64 as int))
    } else if insn.code == CODE_MOV_R32_IMM32 {
        Some(insn.imm32 as u64)
    } else if insn.code == CODE_LEA_R64_M && insn.base == REG_RIP {
        Some(insn.disp)
    } else {
        None
    }
}

/// The constants after an instruction.
#[verifier::opaque]
pub open spec fn next_vals(st: RegsView, insn: X86Insn) -> Seq<Option<u64>> {
    match dest(insn) {
        Some(d) => st.vals.update(d, moved_constant(insn)),
        None => st.vals,
    }
}

/// What is known of the registers after an instruction.
pub open spec fn next_regs(st: RegsView, insn: X86Insn) -> RegsView {
    RegsView {
        vals: next_vals(st, insn),
        tables: next_tables(st, insn),
        bounds: next_bounds(st, insn),
    }
}

/// The references of the instruction at `pos`. Those of branches and immediates
/// count in code alone.
pub open spec fn insn_refs(m: X86Model, prop: bool, st: RegsView, pos: int) -> Seq<Xref> {
    let insn = m.insn(pos);
    let va = m.va(pos);
    let code = exec_in(m.spans, m.base);
    (if code {
        one_or_none(branch_ref(m, insn, va))
    } else {
        Seq::empty()
    }) + one_or_none(rip_ref(m, insn, pos)) + (if prop {
        register_refs(m, st, insn, va)
    } else {
        Seq::empty()
    }) + (if code {
        one_or_none(imm_ref(m, insn, va))
    } else {
        Seq::empty()
    })
}

/// The references of the instructions from `pos` on. Bytes that are no instruction
/// are passed over.
pub open spec fn x86_refs(m: X86Model, prop: bool, st: RegsView, pos: int) -> Seq<Xref>
    decreases m.data.len() - pos,
{
    if pos < 0 || pos >= m.data.len() || !m.ends_inside(pos) {
        Seq::empty()
    } else {
        let insn = m.insn(pos);
        if insn.code == CODE_INVALID {
            x86_refs(m, prop, st, pos + insn.len)
        } else {
            insn_refs(m, prop, st, pos) + x86_refs(
                m,
                prop,
                if prop {
                    next_regs(st, insn)
                } else {
                    st
                },
                pos + insn.len,
            )
        }
    }
}

/// The model of a scan.
pub open spec fn x86_model(
    region: ScanRegion<'_>,
    idx: SegmentIndex,
    slots: FxHashSet<u64>,
    data_idx: SegmentDataIndex<'_>,
) -> X86Model {
    X86Model {
        data: region.data@,
        base: region.base_va.0,
        spans: idx@,
        image: data_idx@,
        slots: slots@,
    }
}

/// The number of a general-purpose register.
fn gpr_index(reg: u8) -> (r: Option<usize>)
    ensures
        match r {
            Some(i) => gpr(reg) == Some(i as int) && i < 16,
            None => gpr(reg) is None,
        },
{
    if reg < REG_AL || reg > REG_R15 {
        None
    } else if reg < REG_AH {
        Some((reg - REG_AL) as usize)
    } else if reg < REG_SPL {
        Some((reg - REG_AH) as usize)
    } else if reg < REG_AX {
        Some((reg - REG_SPL + 4) as usize)
    } else if reg < REG_EAX {
        Some((reg - REG_AX) as usize)
    } else if reg < REG_RAX {
        Some((reg - REG_EAX) as usize)
    } else {
        Some((reg - REG_RAX) as usize)
    }
}

/// What is known of the registers.
pub struct Regs {
    vals: [Option<u64>; 16],
    tables: [Option<JumpTableInfo>; 16],
    bounds: [Option<u32>; 16],
}

impl View for Regs {
    type V = RegsView;

    closed spec fn view(&self) -> RegsView {
        RegsView { vals: self.vals@, tables: self.tables@, bounds: self.bounds@ }
    }
}

/// Reports a direct branch, or a branch through an import slot.
#[inline]
fn emit_direct_branches(
    insn: &X86Insn,
    va: u64,
    idx: &SegmentIndex,
    got_slots: &FxHashSet<u64>,
    xrefs: &mut Vec<Xref>,
    Ghost(m): Ghost<X86Model>,
)
    requires
        idx.wf(),
        m.spans == idx@,
        m.slots == got_slots@,
    ensures
        final(xrefs)@ == old(xrefs)@ + one_or_none(branch_ref(m, *insn, va)),
{
    proof {
        reveal(branch_ref);
    }
    let kind: Option<XrefKind> = if insn.flow == FLOW_CALL {
        Some(XrefKind::Call)
    } else if insn.flow == FLOW_UNCONDITIONAL_BRANCH {
        Some(XrefKind::Jump)
    } else if insn.flow == FLOW_CONDITIONAL_BRANCH || insn.flow == FLOW_XBEGIN {
        Some(XrefKind::CondJump)
    } else {
        None
    };
    match kind {
        Some(kind) => {
            let op: u8 = insn.kinds[0];
            if op == KIND_NEAR_BRANCH16 || op == KIND_NEAR_BRANCH32 || op == KIND_NEAR_BRANCH64 {
                let to: u64 = insn.near;
                if idx.contains(Va(to)) {
                    xrefs.push(
                        Xref {
                            from: Va(va),
                            to: Va(to),
                            kind,
                            confidence: Confidence::LinearImmediate,
                        },
                    );
                }
            }
        },
        None => {
            if insn.flow == FLOW_INDIRECT_CALL || insn.flow == FLOW_INDIRECT_BRANCH {
                emit_got_indirect(insn, va, got_slots, xrefs);
            }
        },
    }
    assert(xrefs@ =~= old(xrefs)@ + one_or_none(branch_ref(m, *insn, va)));
}

/// Reports a branch through an import slot, as a reference to the slot.
///
/// Other pointers in memory are not imports, and a branch through one is not
/// reported.
#[inline]
fn emit_got_indirect(insn: &X86Insn, va: u64, got_slots: &FxHashSet<u64>, xrefs: &mut Vec<Xref>)
    ensures
        final(xrefs)@ == if insn.op_count == 1 && insn.kinds[0] == KIND_MEMORY && insn.base
            == REG_RIP && got_slots@.contains(insn.disp) {
            old(xrefs)@.push(
                immediate_ref(
                    va,
                    insn.disp,
                    if insn.flow == FLOW_INDIRECT_CALL {
                        XrefKind::Call
                    } else {
                        XrefKind::Jump
                    },
                ),
            )
        } else {
            old(xrefs)@
        },
{
    if insn.op_count == 1 && insn.kinds[0] == KIND_MEMORY && insn.base == REG_RIP {
        if has_slot(got_slots, insn.disp) {
            let kind = if insn.flow == FLOW_INDIRECT_CALL {
                XrefKind::Call
            } else {
                XrefKind::Jump
            };
            xrefs.push(
                Xref {
                    from: Va(va),
                    to: Va(insn.disp),
                    kind,
                    confidence: Confidence::LinearImmediate,
                },
            );
        }
    }
}

/// Whether an instruction writes its memory operand.
#[inline]
fn mem_op_is_write(code: &[u8], va: u64, op_idx: u32) -> (r: bool)
    requires
        code@.len() > 0,
        op_idx < 5,
    ensures
        r == is_write(x86_access(64, code@, va, op_idx)),
{
    let access: u8 = operand_access(64, code, va, op_idx);
    access == ACCESS_WRITE || access == ACCESS_COND_WRITE || access == ACCESS_READ_WRITE || access
        == ACCESS_READ_COND_WRITE
}

/// Reports a memory operand relative to RIP.
///
/// LEA takes the address, and may take that of code. Any other instruction reads
/// or writes there, and is not reported where that is code.
#[inline]
fn emit_rip_relative(
    insn: &X86Insn,
    data: &[u8],
    pos: usize,
    va: u64,
    idx: &SegmentIndex,
    xrefs: &mut Vec<Xref>,
    Ghost(m): Ghost<X86Model>,
)
    requires
        idx.wf(),
        m.spans == idx@,
        m.data == data@,
        va == m.va(pos as int),
        pos < data.len(),
        insn.op_count <= 5,
    ensures
        final(xrefs)@ == old(xrefs)@ + one_or_none(rip_ref(m, *insn, pos as int)),
{
    proof {
        reveal(rip_ref);
    }
    let mut op_idx: u32 = 0;
    while op_idx < insn.op_count && insn.kinds[op_idx as usize] != KIND_MEMORY
        invariant
            op_idx <= insn.op_count <= 5,
            memory_operand(*insn, 0) == memory_operand(*insn, op_idx as int),
        decreases insn.op_count - op_idx,
    {
        op_idx = op_idx + 1;
    }
    if op_idx < insn.op_count && insn.base == REG_RIP {
        let to: u64 = insn.disp;
        if idx.contains(Va(to)) {
            let lea = insn.code == CODE_LEA_R16_M || insn.code == CODE_LEA_R32_M || insn.code
                == CODE_LEA_R64_M;
            if lea || !idx.is_exec(Va(to)) {
                let code = &data[pos..data.len()];
                assert(code@ =~= data@.skip(pos as int));
                let kind = if lea {
                    XrefKind::DataPointer
                } else if mem_op_is_write(code, va, op_idx) {
                    XrefKind::DataWrite
                } else {
                    XrefKind::DataRead
                };
                xrefs.push(
                    Xref {
                        from: Va(va),
                        to: Va(to),
                        kind,
                        confidence: Confidence::LinearImmediate,
                    },
                );
            }
        }
    }
    assert(xrefs@ =~= old(xrefs)@ + one_or_none(rip_ref(m, *insn, pos as int)));
}

/// The immediate of a MOV, CMP or SUB, where it can be an address.
#[inline]
fn imm_as_address(insn: &X86Insn) -> (r: Option<u64>)
    ensures
        r == imm_address(*insn),
{
    let code: u16 = insn.code;
    if code == CODE_MOV_R64_IMM64 {
        if insn.imm64 > 0 {
            return Some(insn.imm64);
        }
        return None;
    }
    if code == CODE_MOV_RM64_IMM32 || code == CODE_MOV_R32_IMM32 || code == CODE_CMP_RM64_IMM32
        || code == CODE_CMP_RM64_IMM8 || code == CODE_CMP_RAX_IMM32 || code == CODE_CMP_EAX_IMM32
        || code == CODE_SUB_RM64_IMM32 || code == CODE_SUB_RM64_IMM8 || code == CODE_SUB_RAX_IMM32
        || code == CODE_SUB_EAX_IMM32 {
        let v: u64 = Va(0).offset(insn.imm32to64).0;
        if v > 0 && v < IMM32_ADDR_MAX {
            return Some(v);
        }
    }
    None
}

/// Reports an immediate that is a mapped address.
#[inline]
fn emit_immediate(
    insn: &X86Insn,
    va: u64,
    idx: &SegmentIndex,
    xrefs: &mut Vec<Xref>,
    Ghost(m): Ghost<X86Model>,
)
    requires
        idx.wf(),
        m.spans == idx@,
    ensures
        final(xrefs)@ == old(xrefs)@ + one_or_none(imm_ref(m, *insn, va)),
{
    proof {
        reveal(imm_ref);
    }
    match imm_as_address(insn) {
        Some(imm) => {
            if idx.contains(Va(imm)) {
                xrefs.push(
                    Xref {
                        from: Va(va),
                        to: Va(imm),
                        kind: XrefKind::DataPointer,
                        confidence: Confidence::LinearImmediate,
                    },
                );
            }
        },
        None => {},
    }
    assert(xrefs@ =~= old(xrefs)@ + one_or_none(imm_ref(m, *insn, va)));
}

/// Reports the cases of a switch table.
///
/// Without a bound the size of the table is unknown, and nothing is reported.
fn recover_jump_table(
    jmp_va: u64,
    jt: JumpTableInfo,
    data_idx: &SegmentDataIndex<'_>,
    seg_idx: &SegmentIndex,
    xrefs: &mut Vec<Xref>,
    Ghost(m): Ghost<X86Model>,
)
    requires
        seg_idx.wf(),
        data_idx.wf(),
        m.spans == seg_idx@,
        m.image == data_idx@,
    ensures
        final(xrefs)@ == old(xrefs)@ + table_refs(m, jt, jmp_va),
{
    let ghost start = xrefs@;
    let max: u32 = match jt.max_entries {
        Some(max) => max,
        None => {
            assert(xrefs@ =~= start + Seq::<Xref>::empty());
            return ;
        },
    };
    let limit: u32 = if max < MAX_JUMP_TABLE_ENTRIES {
        max
    } else {
        MAX_JUMP_TABLE_ENTRIES
    };
    let mut k: u32 = 0;
    while k < limit
        invariant_except_break
            k <= limit,
            xrefs@ + case_refs(m, jt, jmp_va, k as int, limit as int) == start + case_refs(
                m,
                jt,
                jmp_va,
                0,
                limit as int,
            ),
        invariant
            limit <= MAX_JUMP_TABLE_ENTRIES,
            seg_idx.wf(),
            data_idx.wf(),
            m.spans == seg_idx@,
            m.image == data_idx@,
        ensures
            xrefs@ == start + case_refs(m, jt, jmp_va, 0, limit as int),
        decreases limit - k,
    {
        assert(xrefs@ + Seq::<Xref>::empty() =~= xrefs@);
        let slot_va = jt.table_start + k as u64 * 4;
        let entry: i64 = match data_idx.read_i32_at(slot_va) {
            Some(v) => v,
            None => {
                break ;
            },
        };
        let target = jt.target_base.offset(entry);
        if !seg_idx.is_exec(target) {
            break ;
        }
        let ghost before = xrefs@;
        let x = Xref {
            from: Va(jmp_va),
            to: target,
            kind: XrefKind::Jump,
            confidence: Confidence::LocalProp,
        };
        xrefs.push(x);
        assert(before + (seq![x] + case_refs(m, jt, jmp_va, k + 1, limit as int)) =~= xrefs@
            + case_refs(m, jt, jmp_va, k + 1, limit as int));
        k = k + 1;
        assert(xrefs@ + Seq::<Xref>::empty() =~= xrefs@);
    }
}

impl Regs {
    fn new() -> (r: Regs)
        ensures
            r@ == blank_regs(),
    {
        let r = Regs { vals: [None; 16], tables: [None; 16], bounds: [None; 16] };
        assert(r@ =~= blank_regs());
        r
    }

    /// Reports a call or jump through a register.
    fn emit_register(
        &self,
        insn: &X86Insn,
        va: u64,
        idx: &SegmentIndex,
        data_idx: &SegmentDataIndex<'_>,
        xrefs: &mut Vec<Xref>,
        Ghost(m): Ghost<X86Model>,
    )
        requires
            idx.wf(),
            data_idx.wf(),
            m.spans == idx@,
            m.image == data_idx@,
        ensures
            final(xrefs)@ == old(xrefs)@ + register_refs(m, self@, *insn, va),
    {
        proof {
            reveal(register_refs);
        }
        if (insn.code == CODE_CALL_RM64 || insn.code == CODE_JMP_RM64) && insn.kinds[0]
            == KIND_REGISTER {
            match gpr_index(insn.reg0) {
                Some(ri) => {
                    match self.vals[ri] {
                        Some(known) => {
                            if idx.contains(Va(known)) {
                                let kind = if insn.code == CODE_CALL_RM64 {
                                    XrefKind::Call
                                } else {
                                    XrefKind::Jump
                                };
                                xrefs.push(
                                    Xref {
                                        from: Va(va),
                                        to: Va(known),
                                        kind,
                                        confidence: Confidence::LocalProp,
                                    },
                                );
                            }
                        },
                        None => {
                            if insn.code == CODE_JMP_RM64 {
                                match self.tables[ri] {
                                    Some(jt) => {
                                        recover_jump_table(
                                            va,
                                            jt,
                                            data_idx,
                                            idx,
                                            xrefs,
                                            Ghost(m),
                                        );
                                    },
                                    None => {},
                                }
                            }
                        },
                    }
                },
                None => {},
            }
        }
        assert(xrefs@ =~= old(xrefs)@ + register_refs(m, self@, *insn, va));
    }

    /// Follows an instruction through the switch tables.
    fn update_jt_state(&mut self, insn: &X86Insn)
        ensures
            final(self)@ == (RegsView { tables: next_tables(old(self)@, *insn), ..old(self)@ }),
    {
        proof {
            reveal(next_tables);
        }
        if insn.op_count == 0 || insn.kinds[0] != KIND_REGISTER {
            return ;
        }
        let di: usize = match gpr_index(insn.reg0) {
            Some(i) => i,
            None => {
                return ;
            },
        };
        let mut info: Option<JumpTableInfo> = None;
        if insn.code == CODE_MOVSXD_R64_RM32 && insn.kinds[1] == KIND_MEMORY {
            if insn.index != REG_NONE && insn.scale == 4 {
                match gpr_index(insn.base) {
                    Some(bi) => {
                        match self.vals[bi] {
                            Some(base_val) => {
                                let max_entries: Option<u32> = match gpr_index(insn.index) {
                                    Some(ii) => self.bounds[ii],
                                    None => None,
                                };
                                info = Some(
                                    JumpTableInfo {
                                        table_start: Va(base_val) + insn.disp,
                                        target_base: Va(base_val),
                                        max_entries,
                                    },
                                );
                            },
                            None => {},
                        }
                    },
                    None => {},
                }
            }
        } else if (insn.code == CODE_ADD_RM64_R64 || insn.code == CODE_ADD_R64_RM64)
            && insn.kinds[1] == KIND_REGISTER {
            // One side holds the entry; the other has to hold the base that goes with it.
            match gpr_index(insn.reg1) {
                Some(si) => {
                    let (found, other) = match self.tables[di] {
                        Some(jt) => (Some(jt), si),
                        None => (self.tables[si], di),
                    };
                    match found {
                        Some(jt) => {
                            match self.vals[other] {
                                Some(v) => {
                                    if v == jt.target_base.0 {
                                        info = Some(jt);
                                    }
                                },
                                None => {},
                            }
                        },
                        None => {},
                    }
                },
                None => {},
            }
        }
        self.tables[di] = info;
    }

    /// Follows an instruction through the bounds.
    fn update_bounds(&mut self, insn: &X86Insn)
        ensures
            final(self)@ == (RegsView { bounds: next_bounds(old(self)@, *insn), ..old(self)@ }),
    {
        proof {
            reveal(next_bounds);
        }
        let reg0: Option<usize> = if insn.kinds[0] == KIND_REGISTER {
            gpr_index(insn.reg0)
        } else {
            None
        };
        let reg1: Option<usize> = if insn.kinds[1] == KIND_REGISTER {
            gpr_index(insn.reg1)
        } else {
            None
        };
        let code: u16 = insn.code;
        let imm: Option<u32> = if code == CODE_CMP_RM64_IMM32 || code == CODE_CMP_RM32_IMM32
            || code == CODE_CMP_RAX_IMM32 || code == CODE_CMP_EAX_IMM32 {
            Some(insn.imm32)
        } else if code == CODE_CMP_RM64_IMM8 || code == CODE_CMP_RM32_IMM8 {
            Some(insn.imm8 as u32)
        } else {
            None
        };
        match (imm, reg0) {
            (Some(imm), Some(ri)) => {
                self.bounds[ri] = if imm < MAX_JUMP_TABLE_ENTRIES {
                    Some(imm + 1)
                } else {
                    None
                };
                return ;
            },
            _ => {},
        }
        if code == CODE_MOV_R32_RM32 || code == CODE_MOV_RM32_R32 || code == CODE_MOV_R64_RM64
            || code == CODE_MOV_RM64_R64 {
            match (reg0, reg1) {
                (Some(di), Some(si)) => {
                    let bound: Option<u32> = self.bounds[si];
                    self.bounds[di] = bound;
                    return ;
                },
                _ => {},
            }
        }
        if insn.op_count > 0 {
            match reg0 {
                Some(di) => {
                    self.bounds[di] = None;
                },
                None => {},
            }
        }
    }

    /// Follows an instruction through the constants.
    fn update_prop_state(&mut self, insn: &X86Insn)
        ensures
            final(self)@ == (RegsView { vals: next_vals(old(self)@, *insn), ..old(self)@ }),
    {
        proof {
            reveal(next_vals);
        }
        if insn.op_count == 0 || insn.kinds[0] != KIND_REGISTER {
            return ;
        }
        let di: usize = match gpr_index(insn.reg0) {
            Some(i) => i,
            None => {
                return ;
            },
        };
        let code: u16 = insn.code;
        self.vals[di] = if code == CODE_MOV_R64_IMM64 {
            Some(insn.imm64)
        } else if code == CODE_MOV_RM64_IMM32 {
            Some(Va(0).offset(insn.imm32to64).0)
        } else if code == CODE_MOV_R32_IMM32 {
            // Writing the low half of a register clears the high half.
            Some(insn.imm32 as u64)
        } else if code == CODE_LEA_R64_M && insn.base == REG_RIP {
            Some(insn.disp)
        } else {
            None
        };
    }
}

/// Reports all that an instruction refers to; with registers, what is known of
/// them too.
fn emit_insn(
    insn: &X86Insn,
    data: &[u8],
    pos: usize,
    va: u64,
    region_is_exec: bool,
    idx: &SegmentIndex,
    got_slots: &FxHashSet<u64>,
    data_idx: &SegmentDataIndex<'_>,
    regs: Option<&Regs>,
    xrefs: &mut Vec<Xref>,
    Ghost(m): Ghost<X86Model>,
    Ghost(st): Ghost<RegsView>,
)
    requires
        idx.wf(),
        data_idx.wf(),
        m.data == data@,
        m.spans == idx@,
        m.image == data_idx@,
        m.slots == got_slots@,
        region_is_exec == exec_in(m.spans, m.base),
        pos < data.len(),
        va == m.va(pos as int),
        *insn == m.insn(pos as int),
        insn.op_count <= 5,
        regs matches Some(r) ==> r@ == st,
    ensures
        final(xrefs)@ == old(xrefs)@ + insn_refs(m, regs is Some, st, pos as int),
{
    let ghost done = xrefs@;
    if region_is_exec {
        emit_direct_branches(insn, va, idx, got_slots, xrefs, Ghost(m));
    } else {
        assert(xrefs@ =~= done + Seq::<Xref>::empty());
    }
    emit_rip_relative(insn, data, pos, va, idx, xrefs, Ghost(m));
    let ghost before = xrefs@;
    match regs {
        Some(regs) => {
            regs.emit_register(insn, va, idx, data_idx, xrefs, Ghost(m));
        },
        None => {
            assert(xrefs@ =~= before + Seq::<Xref>::empty());
        },
    }
    let ghost before = xrefs@;
    if region_is_exec {
        emit_immediate(insn, va, idx, xrefs, Ghost(m));
    } else {
        assert(xrefs@ =~= before + Seq::<Xref>::empty());
    }
    assert(xrefs@ =~= done + insn_refs(m, regs is Some, st, pos as int));
}

/// Scans code at either depth.
fn scan_core(
    region: &ScanRegion<'_>,
    idx: &SegmentIndex,
    got_slots: &FxHashSet<u64>,
    data_idx: &SegmentDataIndex<'_>,
    prop: bool,
) -> (r: Vec<Xref>)
    requires
        idx.wf(),
        data_idx.wf(),
    ensures
        r@ == x86_refs(x86_model(*region, *idx, *got_slots, *data_idx), prop, blank_regs(), 0),
{
    let mut xrefs: Vec<Xref> = Vec::new();
    let data = region.data;
    let base = region.base_va;
    let region_is_exec = idx.is_exec(base);
    let ghost m = x86_model(*region, *idx, *got_slots, *data_idx);
    let mut regs = Regs::new();
    let mut decoder = open_decoder(64, data, base.0);
    let mut pos: usize = 0;
    proof {
        assert(data@.skip(0) =~= data@);
        assert(xrefs@ + x86_refs(m, prop, blank_regs(), 0) =~= x86_refs(m, prop, blank_regs(), 0));
    }
    while more_code(&decoder)
        invariant
            idx.wf(),
            data_idx.wf(),
            pos <= data.len(),
            m.data == data@,
            m.base == base.0,
            m.spans == idx@,
            m.image == data_idx@,
            m.slots == got_slots@,
            region_is_exec == exec_in(m.spans, m.base),
            decoder_rest(decoder) == data@.skip(pos as int),
            decoder_ip(decoder) == m.va(pos as int),
            decoder_bits(decoder) == 64,
            xrefs@ + x86_refs(m, prop, regs@, pos as int) == x86_refs(m, prop, blank_regs(), 0),
        decreases data.len() - pos,
    {
        let ghost st = regs@;
        let ghost done = xrefs@;
        let ghost at = pos as int;
        let va: u64 = (base + pos as u64).0;
        let insn = decode_next(&mut decoder);
        assert(insn == m.insn(at));
        assert(m.ends_inside(at));
        assert(data@.skip(at).skip(insn.len as int) =~= data@.skip(at + insn.len));
        assert(wrap64(m.va(at) + insn.len) == m.va(at + insn.len));
        if insn.code == CODE_INVALID {
            pos = pos + insn.len;
            continue ;
        }
        emit_insn(
            &insn,
            data,
            pos,
            va,
            region_is_exec,
            idx,
            got_slots,
            data_idx,
            if prop {
                Some(&regs)
            } else {
                None
            },
            &mut xrefs,
            Ghost(m),
            Ghost(regs@),
        );
        if prop {
            regs.update_jt_state(&insn);
            proof {
                lemma_parts(st, insn);
            }
            regs.update_bounds(&insn);
            regs.update_prop_state(&insn);
            assert(regs@ =~= next_regs(st, insn));
        }
        pos = pos + insn.len;
        proof {
            let rest = x86_refs(m, prop, regs@, pos as int);
            assert(done + (insn_refs(m, prop, st, at) + rest) =~= xrefs@ + rest);
        }
    }
    assert(x86_refs(m, prop, regs@, pos as int) =~= Seq::<Xref>::empty());
    assert(xrefs@ + Seq::<Xref>::empty() =~= xrefs@);
    xrefs
}

/// The three parts of the register state are followed independently once the
/// tables are done.
proof fn lemma_parts(st: RegsView, insn: X86Insn)
    ensures
        forall|t: Seq<Option<JumpTableInfo>>|
            #[trigger] next_bounds(RegsView { tables: t, ..st }, insn) == next_bounds(st, insn),
        forall|t: Seq<Option<JumpTableInfo>>, b: Seq<Option<u32>>|
            #[trigger] next_vals(RegsView { tables: t, bounds: b, ..st }, insn) == next_vals(
                st,
                insn,
            ),
{
    reveal(next_bounds);
    reveal(next_vals);
}

/// Reports what each instruction refers to by itself.
pub fn scan_linear(
    region: &ScanRegion<'_>,
    idx: &SegmentIndex,
    got_slots: &FxHashSet<u64>,
    data_idx: &SegmentDataIndex<'_>,
) -> (r: Vec<Xref>)
    requires
        idx.wf(),
        data_idx.wf(),
    ensures
        r@ == x86_refs(x86_model(*region, *idx, *got_slots, *data_idx), false, blank_regs(), 0),
{
    scan_core(region, idx, got_slots, data_idx, false)
}

/// Reports that, and what constants in registers and switch tables refer to.
pub fn scan_with_prop(
    region: &ScanRegion<'_>,
    idx: &SegmentIndex,
    got_slots: &FxHashSet<u64>,
    data_idx: &SegmentDataIndex<'_>,
) -> (r: Vec<Xref>)
    requires
        idx.wf(),
        data_idx.wf(),
    ensures
        r@ == x86_refs(x86_model(*region, *idx, *got_slots, *data_idx), true, blank_regs(), 0),
{
    scan_core(region, idx, got_slots, data_idx, true)
}

/// What one instruction gives by itself it also gives with registers known.
proof fn lemma_insn_refs_grow(m: X86Model, st0: RegsView, st: RegsView, pos: int)
    ensures
        forall|x: Xref|
            insn_refs(m, false, st0, pos).contains(x) ==> #[trigger] insn_refs(
                m,
                true,
                st,
                pos,
            ).contains(x),
{
    let insn = m.insn(pos);
    let va = m.va(pos);
    let code = exec_in(m.spans, m.base);
    let a = if code {
        one_or_none(branch_ref(m, insn, va))
    } else {
        Seq::empty()
    };
    let b = one_or_none(rip_ref(m, insn, pos));
    let c = register_refs(m, st, insn, va);
    let d = if code {
        one_or_none(imm_ref(m, insn, va))
    } else {
        Seq::empty()
    };
    let less = insn_refs(m, false, st0, pos);
    let more = insn_refs(m, true, st, pos);
    assert(less =~= a + b + d);
    assert(more =~= a + b + c + d);
    assert forall|x: Xref| less.contains(x) implies #[trigger] more.contains(x) by {
        let j = choose|j: int| 0 <= j < less.len() && less[j] == x;
        if j < a.len() + b.len() {
            assert(more[j] == x);
        } else {
            assert(more[j + c.len()] == x);
        }
    }
}

/// The propagating scan reports everything that the linear scan reports.
pub proof fn law_prop_has_linear(m: X86Model, st0: RegsView, st: RegsView, pos: int)
    ensures
        forall|x: Xref|
            x86_refs(m, false, st0, pos).contains(x) ==> #[trigger] x86_refs(
                m,
                true,
                st,
                pos,
            ).contains(x),
    decreases m.data.len() - pos,
{
    if 0 <= pos < m.data.len() && m.ends_inside(pos) {
        let insn = m.insn(pos);
        let next = pos + insn.len;
        if insn.code == CODE_INVALID {
            law_prop_has_linear(m, st0, st, next);
            assert(x86_refs(m, false, st0, pos) == x86_refs(m, false, st0, next));
            assert(x86_refs(m, true, st, pos) == x86_refs(m, true, st, next));
            assert forall|x: Xref| x86_refs(m, false, st0, pos).contains(x) implies #[trigger] x86_refs(
                m,
                true,
                st,
                pos,
            ).contains(x) by {
                assert(x86_refs(m, true, st, next).contains(x));
            }
        } else {
            let after = next_regs(st, insn);
            law_prop_has_linear(m, st0, after, next);
            lemma_insn_refs_grow(m, st0, st, pos);
            let less = insn_refs(m, false, st0, pos);
            let more = insn_refs(m, true, st, pos);
            let less_rest = x86_refs(m, false, st0, next);
            let more_rest = x86_refs(m, true, after, next);
            let all = x86_refs(m, false, st0, pos);
            let big = x86_refs(m, true, st, pos);
            assert(all == less + less_rest);
            assert(big == more + more_rest);
            assert forall|x: Xref| all.contains(x) implies #[trigger] big.contains(x) by {
                let j = choose|j: int| 0 <= j < all.len() && all[j] == x;
                if j < less.len() {
                    assert(less[j] == x);
                    assert(less.contains(x));
                    assert(more.contains(x));
                    let k = choose|k: int| 0 <= k < more.len() && more[k] == x;
                    assert(big[k] == x);
                } else {
                    assert(less_rest[j - less.len()] == x);
                    assert(less_rest.contains(x));
                    assert(more_rest.contains(x));
                    let k = choose|k: int| 0 <= k < more_rest.len() && more_rest[k] == x;
                    assert(big[more.len() + k] == x);
                }
            }
        }
    }
}

/// What every reference keeps to: its target is mapped or an import slot.
pub open spec fn sound_ref(m: X86Model, x: Xref) -> bool {
    mapped_in(m.spans, x.to.0) || m.slots.contains(x.to.0)
}

proof fn lemma_case_refs(m: X86Model, jt: JumpTableInfo, from: u64, k: int, limit: int)
    ensures
        forall|j: int|
            0 <= j < case_refs(m, jt, from, k, limit).len() ==> sound_ref(
                m,
                #[trigger] case_refs(m, jt, from, k, limit)[j],
            ) && case_refs(m, jt, from, k, limit)[j].from == Va(from),
    decreases limit - k,
{
    if k < limit {
        lemma_case_refs(m, jt, from, k + 1, limit);
    }
}

proof fn lemma_insn_refs_sound(m: X86Model, prop: bool, st: RegsView, pos: int)
    ensures
        forall|j: int|
            0 <= j < insn_refs(m, prop, st, pos).len() ==> sound_ref(
                m,
                #[trigger] insn_refs(m, prop, st, pos)[j],
            ) && insn_refs(m, prop, st, pos)[j].from == Va(m.va(pos)),
{
    let insn = m.insn(pos);
    let va = m.va(pos);
    let c = register_refs(m, st, insn, va);
    assert forall|j: int| 0 <= j < c.len() implies sound_ref(m, #[trigger] c[j]) && c[j].from
        == Va(va) by {
        reveal(register_refs);
        match gpr(insn.reg0) {
            Some(r) => match st.tables[r] {
                Some(jt) => match jt.max_entries {
                    Some(max) => lemma_case_refs(
                        m,
                        jt,
                        va,
                        0,
                        if max < MAX_JUMP_TABLE_ENTRIES {
                            max as int
                        } else {
                            MAX_JUMP_TABLE_ENTRIES as int
                        },
                    ),
                    None => {},
                },
                None => {},
            },
            None => {},
        }
    }
    reveal(branch_ref);
    reveal(rip_ref);
    reveal(imm_ref);
}

/// Every reference starts at an address of the region and ends at a mapped address
/// or an import slot.
pub proof fn law_x86_sound(m: X86Model, prop: bool, st: RegsView, pos: int)
    requires
        0 <= pos,
    ensures
        forall|j: int|
            0 <= j < x86_refs(m, prop, st, pos).len() ==> sound_ref(
                m,
                #[trigger] x86_refs(m, prop, st, pos)[j],
            ) && exists|p: int|
                pos <= p < m.data.len() && x86_refs(m, prop, st, pos)[j].from == Va(
                    #[trigger] m.va(p),
                ),
    decreases m.data.len() - pos,
{
    if pos < m.data.len() && m.ends_inside(pos) {
        let insn = m.insn(pos);
        let next = pos + insn.len;
        let after = if prop {
            next_regs(st, insn)
        } else {
            st
        };
        let all = x86_refs(m, prop, st, pos);
        let (here, rest) = if insn.code == CODE_INVALID {
            law_x86_sound(m, prop, st, next);
            (Seq::<Xref>::empty(), x86_refs(m, prop, st, next))
        } else {
            law_x86_sound(m, prop, after, next);
            lemma_insn_refs_sound(m, prop, st, pos);
            (insn_refs(m, prop, st, pos), x86_refs(m, prop, after, next))
        };
        assert(all =~= here + rest);
        assert forall|j: int| 0 <= j < all.len() implies sound_ref(m, #[trigger] all[j])
            && exists|p: int| pos <= p < m.data.len() && all[j].from == Va(#[trigger] m.va(p)) by {
            if j < here.len() {
                assert(all[j] == here[j]);
                assert(all[j].from == Va(m.va(pos)));
            } else {
                assert(all[j] == rest[j - here.len()]);
                let p = choose|p: int|
                    next <= p < m.data.len() && rest[j - here.len()].from == Va(
                        #[trigger] m.va(p),
                    );
                assert(all[j].from == Va(m.va(p)));
            }
        }
    }
}

} // verus!
