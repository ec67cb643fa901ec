//! What the AArch64 scans report of instructions, told from the encoding side.
//!
//! Each law takes the fields of an instruction, puts the word together from them,
//! and says which references the scan adds at that word and no others.

use crate::arch::arm64::{
    access_addr, add_amount, direct_target, immediate_ref, lemma_state_before, linear_refs, next_state, pair_refs,
    paired_refs, state_before, step_refs, tracked_reg, usable, AdrpRegState, RegSource,
    ScanStateView,
};
use crate::arch::arm64_decode::{
    access_bytes, bit_field, decoded, field_imm12, field_imm14, field_imm19, field_imm21, field_imm26, field_rd, field_rn, law_families_exclusive, Arm64Insn,
};
use crate::arch::arm64_jump_table::compared;
use crate::arch::{
    exec_in, flags_in, mapped_in, one_or_none, u64_at_nonexec, DataSpanView, ScanModel,
};
use crate::bytes::le32;
use crate::va::{wrap64, Va};
use crate::xref::{Confidence, Xref, XrefKind};
use vstd::arithmetic::power2::{lemma2_to64, pow2};
use vstd::prelude::*;

verus! {

/// The masks of the families as quotients and remainders of the word.
pub proof fn lemma_masks(w: u32)
    ensures
        w & 0xFFFF_FC1F == 0xD63F_0000 <==> w / 0x400 == 0x35_8FC0 && w % 0x20 == 0,
        w & 0xFFFF_FC1F == 0xD61F_0000 <==> w / 0x400 == 0x35_87C0 && w % 0x20 == 0,
        w & 0x9F00_0000 == 0x9000_0000 <==> w / 0x8000_0000 == 1 && (w / 0x100_0000) % 0x20 == 0x10,
        w & 0x9F00_0000 == 0x1000_0000 <==> w / 0x8000_0000 == 0 && (w / 0x100_0000) % 0x20 == 0x10,
        w & 0xFC00_0000 == 0x9400_0000 <==> w / 0x400_0000 == 0x25,
        w & 0xFC00_0000 == 0x1400_0000 <==> w / 0x400_0000 == 5,
        w & 0xFF00_0000 == 0x5400_0000 <==> w / 0x100_0000 == 0x54,
        w & 0x7F00_0000 == 0x3400_0000 <==> (w / 0x100_0000) % 0x80 == 0x34,
        w & 0x7F00_0000 == 0x3500_0000 <==> (w / 0x100_0000) % 0x80 == 0x35,
        w & 0x7F00_0000 == 0x3600_0000 <==> (w / 0x100_0000) % 0x80 == 0x36,
        w & 0x7F00_0000 == 0x3700_0000 <==> (w / 0x100_0000) % 0x80 == 0x37,
        w & 0x7F80_0000 == 0x1100_0000 <==> (w / 0x80_0000) % 0x100 == 0x22,
        w & 0x3FC0_0000 == 0x3940_0000 <==> (w / 0x40_0000) % 0x100 == 0xE5,
        w & 0x3FC0_0000 == 0x3900_0000 <==> (w / 0x40_0000) % 0x100 == 0xE4,
        w & 0x3F00_0000 == 0x1800_0000 <==> (w / 0x100_0000) % 0x40 == 0x18,
{
    assert((w & 0xFFFF_FC1F == 0xD63F_0000 <==> w / 0x400 == 0x35_8FC0 && w % 0x20 == 0) && (w
        & 0xFFFF_FC1F == 0xD61F_0000 <==> w / 0x400 == 0x35_87C0 && w % 0x20 == 0) && (w
        & 0x9F00_0000 == 0x9000_0000 <==> w / 0x8000_0000 == 1 && (w / 0x100_0000) % 0x20 == 0x10)
        && (w & 0x9F00_0000 == 0x1000_0000 <==> w / 0x8000_0000 == 0 && (w / 0x100_0000) % 0x20
        == 0x10) && (w & 0xFC00_0000 == 0x9400_0000 <==> w / 0x400_0000 == 0x25) && (w
        & 0xFC00_0000 == 0x1400_0000 <==> w / 0x400_0000 == 5) && (w & 0xFF00_0000 == 0x5400_0000
        <==> w / 0x100_0000 == 0x54) && (w & 0x7F00_0000 == 0x3400_0000 <==> (w / 0x100_0000)
        % 0x80 == 0x34) && (w & 0x7F00_0000 == 0x3500_0000 <==> (w / 0x100_0000) % 0x80 == 0x35)
        && (w & 0x7F00_0000 == 0x3600_0000 <==> (w / 0x100_0000) % 0x80 == 0x36) && (w
        & 0x7F00_0000 == 0x3700_0000 <==> (w / 0x100_0000) % 0x80 == 0x37) && (w & 0x7F80_0000
        == 0x1100_0000 <==> (w / 0x80_0000) % 0x100 == 0x22) && (w & 0x3FC0_0000 == 0x3940_0000
        <==> (w / 0x40_0000) % 0x100 == 0xE5) && (w & 0x3FC0_0000 == 0x3900_0000 <==> (w
        / 0x40_0000) % 0x100 == 0xE4) && (w & 0x3F00_0000 == 0x1800_0000 <==> (w / 0x100_0000)
        % 0x40 == 0x18)) by (bit_vector);
}

/// An instruction that names its target as a distance in words.
pub enum DirectInsn {
    /// BL.
    Call,
    /// B.
    Jump,
    /// B.cond and BC.cond, with the low five bits.
    JumpIf { cond: int },
    /// CBZ and CBNZ.
    JumpOnZero { wide: int, nonzero: int, reg: int },
    /// TBZ and TBNZ.
    JumpOnBit { set: int, bit: int, reg: int },
    /// LDR (literal).
    LoadLiteral { opc: int, reg: int },
}

impl DirectInsn {
    /// Whether the fields are in range.
    pub open spec fn valid(self) -> bool {
        match self {
            DirectInsn::Call => true,
            DirectInsn::Jump => true,
            DirectInsn::JumpIf { cond } => 0 <= cond < 32,
            DirectInsn::JumpOnZero { wide, nonzero, reg } => 0 <= wide < 2 && 0 <= nonzero < 2
                && 0 <= reg < 32,
            DirectInsn::JumpOnBit { set, bit, reg } => 0 <= set < 2 && 0 <= bit < 64 && 0 <= reg
                < 32,
            DirectInsn::LoadLiteral { opc, reg } => 0 <= opc < 4 && 0 <= reg < 32,
        }
    }

    /// The distance that is out of reach, either way.
    pub open spec fn reach(self) -> int {
        match self {
            DirectInsn::Call => 0x200_0000,
            DirectInsn::Jump => 0x200_0000,
            DirectInsn::JumpOnBit { .. } => 0x2000,
            _ => 0x4_0000,
        }
    }

    /// The instruction word for a distance.
    pub open spec fn encoded(self, words: int) -> int {
        match self {
            DirectInsn::Call => 0x9400_0000 + words % 0x400_0000,
            DirectInsn::Jump => 0x1400_0000 + words % 0x400_0000,
            DirectInsn::JumpIf { cond } => 0x5400_0000 + (words % 0x8_0000) * 0x20 + cond,
            DirectInsn::JumpOnZero { wide, nonzero, reg } => wide * 0x8000_0000 + 0x3400_0000
                + nonzero * 0x100_0000 + (words % 0x8_0000) * 0x20 + reg,
            DirectInsn::JumpOnBit { set, bit, reg } => (bit / 32) * 0x8000_0000 + 0x3600_0000 + set
                * 0x100_0000 + (bit % 32) * 0x8_0000 + (words % 0x4000) * 0x20 + reg,
            DirectInsn::LoadLiteral { opc, reg } => opc * 0x4000_0000 + 0x1800_0000 + (words
                % 0x8_0000) * 0x20 + reg,
        }
    }

    /// The kind of its reference.
    pub open spec fn kind(self) -> XrefKind {
        match self {
            DirectInsn::Call => XrefKind::Call,
            DirectInsn::Jump => XrefKind::Jump,
            DirectInsn::LoadLiteral { .. } => XrefKind::DataRead,
            _ => XrefKind::CondJump,
        }
    }

    /// What a scan reports of the instruction at an address: its target, where that
    /// is mapped, and code for a call.
    pub open spec fn reported(self, m: ScanModel, pc: u64, words: int) -> Seq<Xref> {
        let to = wrap64(pc + 4 * words);
        if mapped_in(m.spans, to) && (self == DirectInsn::Call ==> exec_in(m.spans, to)) {
            seq![
                Xref {
                    from: Va(pc),
                    to: Va(to),
                    kind: self.kind(),
                    confidence: Confidence::LinearImmediate,
                },
            ]
        } else {
            Seq::empty()
        }
    }
}

/// The address of the `i`-th instruction.
pub open spec fn pc_of(m: ScanModel, i: int) -> u64 {
    wrap64(m.base + 4 * i)
}

/// A direct branch or literal load of any distance refers to the address so many
/// words from itself, and both scans add that reference alone.
pub proof fn law_direct_target(
    m: ScanModel,
    image: Seq<DataSpanView>,
    i: int,
    insn: DirectInsn,
    words: int,
)
    requires
        0 <= i,
        insn.valid(),
        -insn.reach() <= words < insn.reach(),
        le32(m.data, 4 * i) == insn.encoded(words),
    ensures
        linear_refs(m, i + 1) == linear_refs(m, i) + insn.reported(m, pc_of(m, i), words),
        paired_refs(m, image, i + 1) == paired_refs(m, image, i) + insn.reported(
            m,
            pc_of(m, i),
            words,
        ),
{
    let w = m.word(i);
    assert(w == insn.encoded(words)) by {
        assert(0 <= insn.encoded(words) <= u32::MAX) by {
            lemma_encoded_fits(insn, words);
        }
    }
    lemma_direct(w, insn, words);
    assert(m.va(i) == Va(pc_of(m, i)));
    let seen = immediate_ref(decoded(w), m.va(i), m.spans);
    assert(one_or_none(seen) == insn.reported(m, pc_of(m, i), words));
    let st = state_before(m, image, i);
    assert(pair_refs(m, image, st, i) == Seq::<Xref>::empty()) by {
        reveal(pair_refs);
    }
    assert(step_refs(m, image, st, i) =~= one_or_none(seen));
}

proof fn lemma_encoded_fits(insn: DirectInsn, words: int)
    requires
        insn.valid(),
    ensures
        0 <= insn.encoded(words) <= u32::MAX,
{
}

proof fn lemma_imm26(w: u32, words: int, base: int)
    requires
        -0x200_0000 <= words < 0x200_0000,
        base == 0x9400_0000 || base == 0x1400_0000,
        w == base + words % 0x400_0000,
    ensures
        base == 0x9400_0000 ==> decoded(w) == Arm64Insn::Bl(w),
        base == 0x1400_0000 ==> decoded(w) == Arm64Insn::B(w),
        field_imm26(w) == words,
{
    lemma_masks(w);
    law_families_exclusive(w);
    assert(w / 0x400_0000 == base / 0x400_0000);
}

proof fn lemma_imm19(w: u32, words: int, top: int, low: int)
    requires
        -0x4_0000 <= words < 0x4_0000,
        0 <= low < 32,
        0 <= top < 0x100,
        w == top * 0x100_0000 + (words % 0x8_0000) * 0x20 + low,
    ensures
        field_imm19(w) == words,
        w / 0x100_0000 == top,
{
}

proof fn lemma_imm14(w: u32, words: int, top: int, bit: int, low: int)
    requires
        -0x2000 <= words < 0x2000,
        0 <= low < 32,
        0 <= bit < 32,
        0 <= top < 0x100,
        w == top * 0x100_0000 + bit * 0x8_0000 + (words % 0x4000) * 0x20 + low,
    ensures
        field_imm14(w) == words,
        w / 0x100_0000 == top,
{
}

/// The families that the top byte decides.
proof fn lemma_top_byte(w: u32, top: int)
    requires
        w / 0x100_0000 == top,
    ensures
        top == 0x54 ==> decoded(w) == Arm64Insn::BCond(w),
        top % 0x80 == 0x34 ==> decoded(w) == Arm64Insn::Cbz(w),
        top % 0x80 == 0x35 ==> decoded(w) == Arm64Insn::Cbnz(w),
        top % 0x80 == 0x36 ==> decoded(w) == Arm64Insn::Tbz(w),
        top % 0x80 == 0x37 ==> decoded(w) == Arm64Insn::Tbnz(w),
        top % 0x40 == 0x18 ==> decoded(w) == Arm64Insn::LdrLiteral(w),
{
    lemma_masks(w);
    law_families_exclusive(w);
}

/// An encoded direct instruction decodes to its family with its distance.
proof fn lemma_direct(w: u32, insn: DirectInsn, words: int)
    requires
        insn.valid(),
        -insn.reach() <= words < insn.reach(),
        w == insn.encoded(words),
    ensures
        forall|pc: u64|
            #[trigger] direct_target(decoded(w), pc) == Some(
                (wrap64(pc + 4 * words), insn.kind()),
            ),
{
    match insn {
        DirectInsn::Call => {
            lemma_imm26(w, words, 0x9400_0000);
        },
        DirectInsn::Jump => {
            lemma_imm26(w, words, 0x1400_0000);
        },
        DirectInsn::JumpIf { cond } => {
            lemma_imm19(w, words, 0x54, cond);
            lemma_top_byte(w, 0x54);
        },
        DirectInsn::JumpOnZero { wide, nonzero, reg } => {
            lemma_imm19(w, words, wide * 0x80 + 0x34 + nonzero, reg);
            lemma_top_byte(w, wide * 0x80 + 0x34 + nonzero);
        },
        DirectInsn::JumpOnBit { set, bit, reg } => {
            lemma_imm14(w, words, (bit / 32) * 0x80 + 0x36 + set, bit % 32, reg);
            lemma_top_byte(w, (bit / 32) * 0x80 + 0x36 + set);
        },
        DirectInsn::LoadLiteral { opc, reg } => {
            lemma_imm19(w, words, opc * 0x40 + 0x18, reg);
            lemma_top_byte(w, opc * 0x40 + 0x18);
        },
    }
}

/// The word of a hint that does nothing.
pub const NOP: u32 = 0xD503_201F;

/// The word of ADRP or ADR for a distance in pages or bytes.
pub open spec fn encoded_adr(pages: bool, distance: int, rd: int) -> int {
    (if pages {
        0x9000_0000int
    } else {
        0x1000_0000
    }) + (distance % 4) * 0x2000_0000 + ((distance % 0x20_0000) / 4) * 0x20 + rd
}

/// The address that ADRP or ADR at an address computes: pages count from the start
/// of the one that the instruction is in.
pub open spec fn computed_adr(pages: bool, distance: int, pc: u64) -> u64 {
    if pages {
        wrap64(4096 * (pc as int / 4096 + distance))
    } else {
        wrap64(pc + distance)
    }
}

/// Whether the `k`-th instruction is such a hint.
pub open spec fn does_nothing(m: ScanModel, k: int) -> bool {
    le32(m.data, 4 * k) == NOP
}

/// Whether the `i`-th instruction puts an address into a register, and nothing
/// happens from there to the `j`-th.
pub open spec fn address_held(
    m: ScanModel,
    i: int,
    j: int,
    pages: bool,
    distance: int,
    reg: int,
) -> bool {
    &&& 0 <= i < j <= usize::MAX
    &&& 0 <= reg < 31
    &&& -0x10_0000 <= distance < 0x10_0000
    &&& le32(m.data, 4 * i) == encoded_adr(pages, distance, reg)
    &&& forall|k: int| i < k < j ==> #[trigger] does_nothing(m, k)
}

pub proof fn lemma_adr(w: u32, pages: bool, distance: int, rd: int)
    requires
        -0x10_0000 <= distance < 0x10_0000,
        0 <= rd < 31,
        w == encoded_adr(pages, distance, rd),
    ensures
        pages ==> decoded(w) == Arm64Insn::Adrp(w),
        !pages ==> decoded(w) == Arm64Insn::Adr(w),
        field_imm21(w) == distance,
        field_rd(w) == rd,
{
    let hi = (distance % 0x20_0000) / 4;
    let lo = distance % 4;
    assert(distance % 0x20_0000 == hi * 4 + lo);
    assert(0 <= hi < 0x8_0000);
    assert((w as int / 0x20) % 0x8_0000 == hi);
    assert((w as int / 0x2000_0000) % 4 == lo);
    assert((w as int / 0x100_0000) % 0x20 == 0x10);
    lemma_masks(w);
    law_families_exclusive(w);
}

proof fn lemma_nop()
    ensures
        decoded(NOP) == Arm64Insn::Other(NOP),
        field_rd(NOP) == 31,
        compared(NOP) is None,
{
    reveal(compared);
    lemma_masks(NOP);
    law_families_exclusive(NOP);
    assert(0xD503_201Fu32 & 0x7F80_0000u32 != 0x7100_0000u32) by (bit_vector);
}

/// What is known of a register after the instruction that set it.
spec fn known(i: int, pc: u64, value: u64) -> AdrpRegState {
    AdrpRegState {
        insn_index: i as usize,
        origin_va: Va(pc),
        value: Va(value),
        source: RegSource::Direct,
    }
}

proof fn lemma_nop_keeps(m: ScanModel, image: Seq<DataSpanView>, k: int)
    requires
        0 <= k,
        does_nothing(m, k),
    ensures
        state_before(m, image, k + 1) == state_before(m, image, k),
        paired_refs(m, image, k + 1) == paired_refs(m, image, k),
{
    assert(m.word(k) == NOP);
    lemma_nop();
    reveal(next_state);
    reveal(pair_refs);
    assert(paired_refs(m, image, k + 1) =~= paired_refs(m, image, k));
}

/// Nothing changes over instructions that do nothing.
proof fn lemma_nops_keep(m: ScanModel, image: Seq<DataSpanView>, i: int, j: int)
    requires
        0 <= i < j,
        forall|k: int| i < k < j ==> #[trigger] does_nothing(m, k),
    ensures
        state_before(m, image, j) == state_before(m, image, i + 1),
        paired_refs(m, image, j) == paired_refs(m, image, i + 1),
    decreases j - i,
{
    if i + 1 < j {
        lemma_nops_keep(m, image, i, j - 1);
        assert(does_nothing(m, j - 1));
        lemma_nop_keeps(m, image, j - 1);
    }
}

proof fn lemma_page_of(pc: u64, distance: int)
    ensures
        pc - pc % 4096 + 4096 * distance == 4096 * (pc as int / 4096 + distance),
{
}

/// The register holds the address where it is used.
proof fn lemma_address_held(
    m: ScanModel,
    image: Seq<DataSpanView>,
    i: int,
    j: int,
    pages: bool,
    distance: int,
    reg: int,
)
    requires
        address_held(m, i, j, pages, distance, reg),
    ensures
        state_before(m, image, j).adrp[reg] == Some(
            known(i, pc_of(m, i), computed_adr(pages, distance, pc_of(m, i))),
        ),
        state_before(m, image, j).before(j),
{
    let w = m.word(i);
    assert(w == encoded_adr(pages, distance, reg));
    lemma_adr(w, pages, distance, reg);
    lemma_state_before(m, image, i);
    lemma_state_before(m, image, j);
    lemma_page_of(pc_of(m, i), distance);
    reveal(next_state);
    let st = state_before(m, image, i);
    assert(state_before(m, image, i + 1) == next_state(m, image, st, i));
    assert(m.va(i) == Va(pc_of(m, i)));
    lemma_nops_keep(m, image, i, j);
}

/// An instruction that uses the address in a register.
pub enum AddressUse {
    /// ADD (immediate), the immediate counted in units or in pages of 4096.
    Add { wide: int, pages: bool, imm: int, rd: int },
    /// LDR with an unsigned offset; an access moves two to the power of `size` bytes.
    Load { size: nat, imm: int, rt: int },
    /// STR with an unsigned offset.
    Store { size: nat, imm: int, rt: int },
    /// BLR.
    Call,
}

impl AddressUse {
    /// Whether the fields are in range.
    pub open spec fn valid(self) -> bool {
        match self {
            AddressUse::Add { wide, imm, rd, .. } => 0 <= wide < 2 && 0 <= imm < 0x1000 && 0 <= rd
                < 32,
            AddressUse::Load { size, imm, rt } => size < 4 && 0 <= imm < 0x1000 && 0 <= rt < 32,
            AddressUse::Store { size, imm, rt } => size < 4 && 0 <= imm < 0x1000 && 0 <= rt < 32,
            AddressUse::Call => true,
        }
    }

    /// The instruction word for the register that holds the address.
    pub open spec fn encoded(self, rn: int) -> int {
        match self {
            AddressUse::Add { wide, pages, imm, rd } => wide * 0x8000_0000 + 0x1100_0000 + (if pages {
                0x40_0000int
            } else {
                0
            }) + imm * 0x400 + rn * 0x20 + rd,
            AddressUse::Load { size, imm, rt } => size * 0x4000_0000 + 0x3940_0000 + imm * 0x400
                + rn * 0x20 + rt,
            AddressUse::Store { size, imm, rt } => size * 0x4000_0000 + 0x3900_0000 + imm * 0x400
                + rn * 0x20 + rt,
            AddressUse::Call => 0xD63F_0000 + rn * 0x20,
        }
    }

    /// The address that it computes, reads, writes or calls.
    pub open spec fn reached(self, base: u64) -> u64 {
        match self {
            AddressUse::Add { pages, imm, .. } => if pages {
                wrap64(base + 4096 * imm)
            } else {
                wrap64(base + imm)
            },
            AddressUse::Load { size, imm, .. } => wrap64(base + imm * pow2(size)),
            AddressUse::Store { size, imm, .. } => wrap64(base + imm * pow2(size)),
            AddressUse::Call => base,
        }
    }

    /// What the scan reports where the address was put into the register at `origin`
    /// and is used at `pc`. A load of eight bytes from data is followed to the mapped
    /// address that it loads.
    pub open spec fn reported(
        self,
        m: ScanModel,
        image: Seq<DataSpanView>,
        origin: u64,
        pc: u64,
        base: u64,
    ) -> Seq<Xref> {
        let to = self.reached(base);
        match self {
            AddressUse::Add { .. } => if mapped_in(m.spans, to) {
                seq![resolved(origin, to, XrefKind::DataPointer)]
            } else {
                Seq::empty()
            },
            AddressUse::Load { size, .. } => (if mapped_in(m.spans, to) {
                seq![
                    resolved(origin, to, XrefKind::DataPointer),
                    resolved(pc, to, XrefKind::DataRead),
                ]
            } else {
                Seq::empty()
            }) + (match u64_at_nonexec(image, to) {
                Some(v) => if size == 3 && !exec_in(m.spans, to) && v != 0 && mapped_in(
                    m.spans,
                    v,
                ) {
                    seq![resolved(pc, v, XrefKind::DataPointer)]
                } else {
                    Seq::empty()
                },
                None => Seq::empty(),
            }),
            AddressUse::Store { .. } => match flags_in(m.spans, to) {
                Some(f) => if f.write && !f.execute {
                    seq![resolved(pc, to, XrefKind::DataWrite)]
                } else {
                    Seq::empty()
                },
                None => Seq::empty(),
            },
            AddressUse::Call => if exec_in(m.spans, to) {
                seq![resolved(pc, to, XrefKind::Call)]
            } else {
                Seq::empty()
            },
        }
    }
}

/// A reference that a pair of instructions gives.
pub open spec fn resolved(from: u64, to: u64, kind: XrefKind) -> Xref {
    Xref { from: Va(from), to: Va(to), kind, confidence: Confidence::PairResolved }
}

proof fn lemma_access_word(w: u32, store: bool, size: nat, imm: int, rn: int, rt: int)
    requires
        size < 4,
        0 <= imm < 0x1000,
        0 <= rn < 31,
        0 <= rt < 32,
        w == size * 0x4000_0000 + (if store {
            0x3900_0000int
        } else {
            0x3940_0000
        }) + imm * 0x400 + rn * 0x20 + rt,
    ensures
        store ==> decoded(w) == Arm64Insn::Str(w),
        !store ==> decoded(w) == Arm64Insn::Ldr(w),
        field_imm12(w) == imm,
        field_rn(w) == rn,
        bit_field(w, 0x4000_0000, 4) == size,
        access_bytes(bit_field(w, 0x4000_0000, 4)) == pow2(size),
{
    lemma2_to64();
    let half = if store {
        0xE4int
    } else {
        0xE5
    };
    lemma_fields(w, size * 0x100 + half, imm, rn, rt);
    lemma_access_family(w, size * 0x100 + half);
}

/// The fields behind the ten bits of the opcode.
pub proof fn lemma_fields(w: u32, top: int, imm: int, rn: int, low: int)
    requires
        0 <= top < 0x400,
        0 <= imm < 0x1000,
        0 <= rn < 31,
        0 <= low < 32,
        w == top * 0x40_0000 + imm * 0x400 + rn * 0x20 + low,
    ensures
        field_imm12(w) == imm,
        field_rn(w) == rn,
        w / 0x40_0000 == top,
{
    assert(w as int / 0x20 == top * 0x2_0000 + imm * 0x20 + rn);
    assert(w as int / 0x400 == top * 0x1000 + imm);
}

proof fn lemma_access_family(w: u32, top: int)
    requires
        w / 0x40_0000 == top,
    ensures
        top % 0x100 == 0xE4 ==> decoded(w) == Arm64Insn::Str(w),
        top % 0x100 == 0xE5 ==> decoded(w) == Arm64Insn::Ldr(w),
        top % 0x200 == 0x44 || top % 0x200 == 0x45 ==> decoded(w) == Arm64Insn::AddImm(w),
        bit_field(w, 0x4000_0000, 4) == (top / 0x100) % 4,
        bit_field(w, 0x40_0000, 4) == top % 4,
{
    assert(w as int / 0x80_0000 == top / 2);
    assert(w as int / 0x4000_0000 == top / 0x100);
    lemma_masks(w);
    law_families_exclusive(w);
}

pub proof fn lemma_add_word(w: u32, wide: int, pages: bool, imm: int, rn: int, rd: int)
    requires
        0 <= wide < 2,
        0 <= imm < 0x1000,
        0 <= rn < 31,
        0 <= rd < 32,
        w == (AddressUse::Add { wide, pages, imm, rd }).encoded(rn),
    ensures
        decoded(w) == Arm64Insn::AddImm(w),
        field_rn(w) == rn,
        add_amount(w) == if pages {
            4096 * imm
        } else {
            imm
        },
{
    let top = wide * 0x200 + 0x44 + (if pages {
        1int
    } else {
        0
    });
    lemma_fields(w, top, imm, rn, rd);
    lemma_access_family(w, top);
}

proof fn lemma_call_word(w: u32, rn: int)
    requires
        0 <= rn < 31,
        w == 0xD63F_0000 + rn * 0x20,
    ensures
        decoded(w) == Arm64Insn::Blr(w),
        field_rn(w) == rn,
{
    assert(w / 0x400 == 0x35_8FC0);
    lemma_masks(w);
    law_families_exclusive(w);
}

/// An address that ADRP or ADR puts into a register and an instruction at most eight
/// further on uses is resolved: an immediate counts in bytes or pages, an offset in
/// accesses of the width that the size field says. Later than that nothing is
/// reported.
pub proof fn law_address_pair(
    m: ScanModel,
    image: Seq<DataSpanView>,
    i: int,
    j: int,
    pages: bool,
    distance: int,
    reg: int,
    user: AddressUse,
)
    requires
        address_held(m, i, j, pages, distance, reg),
        user.valid(),
        le32(m.data, 4 * j) == user.encoded(reg),
    ensures
        paired_refs(m, image, j + 1) == paired_refs(m, image, i + 1) + (if j - i <= 8 {
            user.reported(
                m,
                image,
                pc_of(m, i),
                pc_of(m, j),
                computed_adr(pages, distance, pc_of(m, i)),
            )
        } else {
            Seq::empty()
        }),
{
    lemma_address_held(m, image, i, j, pages, distance, reg);
    lemma_nops_keep(m, image, i, j);
    let base = computed_adr(pages, distance, pc_of(m, i));
    let w = m.word(j);
    let st = state_before(m, image, j);
    assert(w == user.encoded(reg));
    match user {
        AddressUse::Add { wide, pages, imm, rd } => {
            lemma_add_word(w, wide, pages, imm, reg, rd);
        },
        AddressUse::Load { size, imm, rt } => {
            lemma_access_word(w, false, size, imm, reg, rt);
        },
        AddressUse::Store { size, imm, rt } => {
            lemma_access_word(w, true, size, imm, reg, rt);
        },
        AddressUse::Call => {
            lemma_call_word(w, reg);
        },
    }
    let want = if j - i <= 8 {
        user.reported(m, image, pc_of(m, i), pc_of(m, j), base)
    } else {
        Seq::empty()
    };
    let a = known(i, pc_of(m, i), base);
    assert(usable(st, tracked_reg(field_rn(w)), j) == if j - i <= 8 {
        Some(a)
    } else {
        None
    });
    lemma_use_refs(m, image, st, i, j, reg, base, user);
    assert(step_refs(m, image, st, j) =~= want);
}

proof fn lemma_use_refs(
    m: ScanModel,
    image: Seq<DataSpanView>,
    st: ScanStateView,
    i: int,
    j: int,
    reg: int,
    base: u64,
    user: AddressUse,
)
    requires
        user.valid(),
        0 <= reg < 31,
        m.word(j) == user.encoded(reg),
        usable(st, tracked_reg(field_rn(m.word(j))), j) == if j - i <= 8 {
            Some(known(i, pc_of(m, i), base))
        } else {
            None
        },
    ensures
        pair_refs(m, image, st, j) == if j - i <= 8 {
            user.reported(m, image, pc_of(m, i), pc_of(m, j), base)
        } else {
            Seq::empty()
        },
        !(decoded(m.word(j)) is Br),
        direct_target(decoded(m.word(j)), m.va(j).0) is None,
{
    reveal(pair_refs);
    let w = m.word(j);
    assert(m.va(j) == Va(pc_of(m, j)));
    match user {
        AddressUse::Add { wide, pages, imm, rd } => {
            lemma_add_word(w, wide, pages, imm, reg, rd);
        },
        AddressUse::Load { size, imm, rt } => {
            lemma_access_word(w, false, size, imm, reg, rt);
            let a = known(i, pc_of(m, i), base);
            assert(access_addr(a, w) == user.reached(base));
            if j - i <= 8 {
                assert(pair_refs(m, image, st, j) =~= user.reported(
                    m,
                    image,
                    pc_of(m, i),
                    pc_of(m, j),
                    base,
                ));
            }
        },
        AddressUse::Store { size, imm, rt } => {
            lemma_access_word(w, true, size, imm, reg, rt);
            assert(access_addr(known(i, pc_of(m, i), base), w) == user.reached(base));
        },
        AddressUse::Call => {
            lemma_call_word(w, reg);
        },
    }
}

/// A jump through a register goes to the address that ADRP or ADR put there at most
/// eight instructions before, where that is code.
pub proof fn law_register_jump(
    m: ScanModel,
    image: Seq<DataSpanView>,
    i: int,
    j: int,
    pages: bool,
    distance: int,
    reg: int,
)
    requires
        address_held(m, i, j, pages, distance, reg),
        j - i <= 8,
        le32(m.data, 4 * j) == 0xD61F_0000 + reg * 0x20,
        exec_in(m.spans, computed_adr(pages, distance, pc_of(m, i))),
    ensures
        paired_refs(m, image, j + 1).contains(
            resolved(
                pc_of(m, j),
                computed_adr(pages, distance, pc_of(m, i)),
                XrefKind::Jump,
            ),
        ),
{
    lemma_address_held(m, image, i, j, pages, distance, reg);
    let base = computed_adr(pages, distance, pc_of(m, i));
    let st = state_before(m, image, j);
    let x = resolved(pc_of(m, j), base, XrefKind::Jump);
    lemma_jump_word(m.word(j), reg);
    lemma_jump_refs(m, image, st, i, j, base);
    let one = one_or_none(immediate_ref(decoded(m.word(j)), m.va(j), m.spans));
    let pair = pair_refs(m, image, st, j);
    let step = step_refs(m, image, st, j);
    assert(pair[0] == x);
    assert(step[one.len() as int] == x);
    let before = paired_refs(m, image, j);
    assert(paired_refs(m, image, j + 1) == before + step);
    assert((before + step)[(before.len() + one.len()) as int] == x);
}

proof fn lemma_jump_word(w: u32, rn: int)
    requires
        0 <= rn < 31,
        w == 0xD61F_0000 + rn * 0x20,
    ensures
        decoded(w) == Arm64Insn::Br(w),
        field_rn(w) == rn,
{
    assert(w / 0x400 == 0x35_87C0);
    lemma_masks(w);
    law_families_exclusive(w);
}

proof fn lemma_jump_refs(
    m: ScanModel,
    image: Seq<DataSpanView>,
    st: ScanStateView,
    i: int,
    j: int,
    base: u64,
)
    requires
        decoded(m.word(j)) is Br,
        usable(st, tracked_reg(field_rn(m.word(j))), j) == Some(known(i, pc_of(m, i), base)),
        exec_in(m.spans, base),
    ensures
        pair_refs(m, image, st, j) == seq![resolved(pc_of(m, j), base, XrefKind::Jump)],
{
    reveal(pair_refs);
}

/// A register that an instruction of no family overwrites holds no address any more:
/// nothing is reported where it is used.
pub proof fn law_overwritten_is_forgotten(
    m: ScanModel,
    image: Seq<DataSpanView>,
    j: int,
    reg: int,
    user: AddressUse,
)
    requires
        1 <= j <= usize::MAX,
        0 <= reg < 31,
        decoded(m.word(j - 1)) is Other,
        field_rd(m.word(j - 1)) == reg,
        user.valid(),
        le32(m.data, 4 * j) == user.encoded(reg),
    ensures
        paired_refs(m, image, j + 1) == paired_refs(m, image, j),
{
    let w = m.word(j);
    let st = state_before(m, image, j);
    assert(w == user.encoded(reg));
    lemma_state_before(m, image, j - 1);
    assert(st.adrp[reg] is None) by {
        reveal(next_state);
    }
    match user {
        AddressUse::Add { wide, pages, imm, rd } => {
            lemma_add_word(w, wide, pages, imm, reg, rd);
        },
        AddressUse::Load { size, imm, rt } => {
            lemma_access_word(w, false, size, imm, reg, rt);
        },
        AddressUse::Store { size, imm, rt } => {
            lemma_access_word(w, true, size, imm, reg, rt);
        },
        AddressUse::Call => {
            lemma_call_word(w, reg);
        },
    }
    assert(usable(st, tracked_reg(field_rn(w)), j) is None);
    assert(step_refs(m, image, st, j) =~= Seq::<Xref>::empty()) by {
        reveal(pair_refs);
    }
    assert(paired_refs(m, image, j + 1) =~= paired_refs(m, image, j));
}

} // verus!
