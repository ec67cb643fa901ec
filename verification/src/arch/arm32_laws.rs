//! What the ARM and Thumb scans report of instructions, told from the encoding side.

use crate::arch::arm32::{
    a32_offset, a32_refs, a32_target, rounded_down, thumb_bcond_offset, thumb_bl_offset,
    thumb_narrow_target, thumb_refs, thumb_wide_target,
};
use crate::arch::{exec_in, mapped_in, ScanModel};
use crate::bytes::{le16, le32};
use crate::va::{wrap64, Va};
use crate::xref::{Confidence, Xref, XrefKind};
use vstd::prelude::*;

verus! {

/// The reference from one address to another: to code for a branch, to anything mapped
/// for a read.
pub open spec fn refers(m: ScanModel, from: u64, to: u64, kind: XrefKind) -> Seq<Xref> {
    if (kind == XrefKind::DataRead && mapped_in(m.spans, to)) || (kind != XrefKind::DataRead
        && exec_in(m.spans, to)) {
        seq![Xref { from: Va(from), to: Va(to), kind, confidence: Confidence::LinearImmediate }]
    } else {
        Seq::empty()
    }
}

/// An ARM instruction that names its target.
pub enum A32Insn {
    /// BL, under a condition.
    Call { cond: int, words: int },
    /// B, under a condition.
    Jump { cond: int, words: int },
    /// BLX to Thumb code, by words and perhaps half a word more.
    Switch { words: int, half: int },
    /// LDR (literal), upwards or downwards.
    Load { cond: int, up: int, reg: int, imm: int },
}

impl A32Insn {
    /// Whether the fields are in range.
    pub open spec fn valid(self) -> bool {
        match self {
            A32Insn::Call { cond, words } => 0 <= cond < 15 && -0x80_0000 <= words < 0x80_0000,
            A32Insn::Jump { cond, words } => 0 <= cond < 15 && -0x80_0000 <= words < 0x80_0000,
            A32Insn::Switch { words, half } => -0x80_0000 <= words < 0x80_0000 && 0 <= half < 2,
            A32Insn::Load { cond, up, reg, imm } => 0 <= cond < 15 && 0 <= up < 2 && 0 <= reg < 16
                && 0 <= imm < 0x1000,
        }
    }

    /// The instruction word.
    pub open spec fn encoded(self) -> int {
        match self {
            A32Insn::Call { cond, words } => cond * 0x1000_0000 + 0x0B00_0000 + words % 0x100_0000,
            A32Insn::Jump { cond, words } => cond * 0x1000_0000 + 0x0A00_0000 + words % 0x100_0000,
            A32Insn::Switch { words, half } => 0xFA00_0000 + half * 0x100_0000 + words % 0x100_0000,
            A32Insn::Load { cond, up, reg, imm } => cond * 0x1000_0000 + 0x051F_0000 + up
                * 0x80_0000 + reg * 0x1000 + imm,
        }
    }

    /// The kind of its reference.
    pub open spec fn kind(self) -> XrefKind {
        match self {
            A32Insn::Call { .. } => XrefKind::Call,
            A32Insn::Jump { .. } => XrefKind::Jump,
            A32Insn::Switch { .. } => XrefKind::Call,
            A32Insn::Load { .. } => XrefKind::DataRead,
        }
    }

    /// The distance of the target from eight bytes past the instruction.
    pub open spec fn distance(self) -> int {
        match self {
            A32Insn::Call { words, .. } => 4 * words,
            A32Insn::Jump { words, .. } => 4 * words,
            A32Insn::Switch { words, half } => 4 * words + 2 * half,
            A32Insn::Load { up, imm, .. } => if up == 1 {
                imm
            } else {
                -imm
            },
        }
    }
}

proof fn lemma_a32_masks(w: u32)
    ensures
        w & 0xFE00_0000 == 0xFA00_0000 <==> w / 0x200_0000 == 0x7D,
        w & 0x0F00_0000 == 0x0B00_0000 <==> (w / 0x100_0000) % 0x10 == 0xB,
        w & 0x0F00_0000 == 0x0A00_0000 <==> (w / 0x100_0000) % 0x10 == 0xA,
        w & 0x0F7F_0000 == 0x051F_0000 <==> (w / 0x100_0000) % 0x10 == 5 && (w / 0x1_0000) % 0x80
            == 0x1F,
{
    assert((w & 0xFE00_0000 == 0xFA00_0000 <==> w / 0x200_0000 == 0x7D) && (w & 0x0F00_0000
        == 0x0B00_0000 <==> (w / 0x100_0000) % 0x10 == 0xB) && (w & 0x0F00_0000 == 0x0A00_0000 <==>
        (w / 0x100_0000) % 0x10 == 0xA) && (w & 0x0F7F_0000 == 0x051F_0000 <==> (w / 0x100_0000)
        % 0x10 == 5 && (w / 0x1_0000) % 0x80 == 0x1F)) by (bit_vector);
}

/// The top byte and what is behind it.
proof fn lemma_top(w: u32, top: int, low: int)
    requires
        0 <= low < 0x100_0000,
        w == top * 0x100_0000 + low,
    ensures
        w / 0x100_0000 == top,
        w % 0x100_0000 == low,
        w / 0x200_0000 == top / 2,
{
}

proof fn lemma_a32_target(w: u32, insn: A32Insn, pc: u64)
    requires
        insn.valid(),
        w == insn.encoded(),
        pc % 2 == 0,
    ensures
        a32_target(w, pc) == Some((wrap64(pc + 8 + insn.distance()), insn.kind())),
{
    match insn {
        A32Insn::Call { cond, words } => {
            lemma_a32_branch(w, cond * 16 + 11, words, pc);
        },
        A32Insn::Jump { cond, words } => {
            lemma_a32_branch(w, cond * 16 + 10, words, pc);
        },
        A32Insn::Switch { words, half } => {
            lemma_a32_branch(w, 0xFA + half, words, pc);
        },
        A32Insn::Load { cond, up, reg, imm } => {
            lemma_a32_load(w, cond, up, reg, imm, pc);
        },
    }
}

proof fn lemma_a32_branch(w: u32, top: int, words: int, pc: u64)
    requires
        0 <= top < 0x100,
        -0x80_0000 <= words < 0x80_0000,
        w == top * 0x100_0000 + words % 0x100_0000,
        pc % 2 == 0,
    ensures
        top / 2 == 0x7D ==> a32_target(w, pc) == Some(
            (wrap64(pc + 8 + 4 * words + 2 * (top % 2)), XrefKind::Call),
        ),
        top / 2 != 0x7D && top % 16 == 11 ==> a32_target(w, pc) == Some(
            (wrap64(pc + 8 + 4 * words), XrefKind::Call),
        ),
        top / 2 != 0x7D && top % 16 == 10 ==> a32_target(w, pc) == Some(
            (wrap64(pc + 8 + 4 * words), XrefKind::Jump),
        ),
{
    reveal(a32_target);
    lemma_a32_masks(w);
    lemma_top(w, top, words % 0x100_0000);
    assert(a32_offset(w) == 4 * words);
    let to = wrap64(pc + 8 + 4 * words + 2 * (top % 2));
    assert(to % 2 == 0);
}

proof fn lemma_a32_load(w: u32, cond: int, up: int, reg: int, imm: int, pc: u64)
    requires
        0 <= cond < 15,
        0 <= up < 2,
        0 <= reg < 16,
        0 <= imm < 0x1000,
        w == cond * 0x1000_0000 + 0x051F_0000 + up * 0x80_0000 + reg * 0x1000 + imm,
    ensures
        a32_target(w, pc) == Some(
            (
                wrap64(
                    pc + 8 + if up == 1 {
                        imm
                    } else {
                        -imm
                    },
                ),
                XrefKind::DataRead,
            ),
        ),
{
    reveal(a32_target);
    lemma_a32_masks(w);
    let rest = reg * 0x1000 + imm;
    assert(w as int / 0x1_0000 == (cond * 16 + 5) * 0x100 + up * 0x80 + 0x1F);
    assert(w as int / 0x80_0000 == (cond * 16 + 5) * 2 + up);
    assert(w as int / 0x100_0000 == cond * 16 + 5);
    assert(w as int / 0x200_0000 == (cond * 16 + 5) / 2);
    assert(w as int % 0x1000 == imm);
}

/// An ARM branch or literal load of any distance refers to the address so far from
/// eight bytes past itself, and the scan adds that reference alone.
pub proof fn law_a32_target(m: ScanModel, k: int, insn: A32Insn)
    requires
        0 <= k,
        m.base % 2 == 0,
        insn.valid(),
        le32(m.data, 4 * k) == insn.encoded(),
    ensures
        a32_refs(m, k + 1) == a32_refs(m, k) + refers(
            m,
            wrap64(m.base + 4 * k),
            wrap64(m.base + 4 * k + 8 + insn.distance()),
            insn.kind(),
        ),
{
    let pc = wrap64(m.base + 4 * k);
    let w = m.word(k);
    assert(w == insn.encoded());
    lemma_a32_target(w, insn, pc);
    crate::va::lemma_wrap64_sum(m.base + 4 * k, 8 + insn.distance());
    assert(wrap64(pc + 8 + insn.distance()) == wrap64(m.base + 4 * k + 8 + insn.distance()));
}

/// A Thumb instruction that names its target.
pub enum ThumbInsn {
    /// B under a condition, by halfwords.
    NarrowJumpIf { cond: int, halves: int },
    /// B, by halfwords.
    NarrowJump { halves: int },
    /// LDR (literal), by words from the word that holds the program counter.
    NarrowLoad { reg: int, words: int },
    /// BL, by halfwords.
    Call { halves: int },
    /// BLX to ARM code, by words from the word that holds the program counter.
    Switch { words: int },
    /// B with a long reach, by halfwords.
    Jump { halves: int },
    /// B under a condition with a long reach, by halfwords.
    JumpIf { cond: int, halves: int },
    /// LDR (literal), by bytes upwards or downwards from the word that holds the
    /// program counter.
    Load { up: int, reg: int, imm: int },
}

/// The two halves of a long branch for a distance in bytes: the sign, ten bits, two
/// bits that are flipped where the sign is clear, and eleven bits.
pub open spec fn long_branch(distance: int, low: int) -> (int, int) {
    let o = distance % 0x200_0000;
    let s = o / 0x100_0000;
    let j1: int = if (o / 0x80_0000) % 2 == s {
        1
    } else {
        0
    };
    let j2: int = if (o / 0x40_0000) % 2 == s {
        1
    } else {
        0
    };
    (
        0xF000 + s * 0x400 + (o / 0x1000) % 0x400,
        low + j1 * 0x2000 + j2 * 0x800 + (o / 2) % 0x800,
    )
}

impl ThumbInsn {
    /// Whether the fields are in range.
    pub open spec fn valid(self) -> bool {
        match self {
            ThumbInsn::NarrowJumpIf { cond, halves } => 0 <= cond < 14 && -0x80 <= halves < 0x80,
            ThumbInsn::NarrowJump { halves } => -0x400 <= halves < 0x400,
            ThumbInsn::NarrowLoad { reg, words } => 0 <= reg < 8 && 0 <= words < 0x100,
            ThumbInsn::Call { halves } => -0x80_0000 <= halves < 0x80_0000,
            ThumbInsn::Switch { words } => -0x40_0000 <= words < 0x40_0000,
            ThumbInsn::Jump { halves } => -0x80_0000 <= halves < 0x80_0000,
            ThumbInsn::JumpIf { cond, halves } => 0 <= cond < 14 && -0x8_0000 <= halves < 0x8_0000,
            ThumbInsn::Load { up, reg, imm } => 0 <= up < 2 && 0 <= reg < 16 && 0 <= imm < 0x1000,
        }
    }

    /// Whether it takes two bytes.
    pub open spec fn narrow(self) -> bool {
        self is NarrowJumpIf || self is NarrowJump || self is NarrowLoad
    }

    /// The first and the second halfword; a narrow instruction has no second.
    pub open spec fn encoded(self) -> (int, int) {
        match self {
            ThumbInsn::NarrowJumpIf { cond, halves } => (0xD000 + cond * 0x100 + halves % 0x100, 0),
            ThumbInsn::NarrowJump { halves } => (0xE000 + halves % 0x800, 0),
            ThumbInsn::NarrowLoad { reg, words } => (0x4800 + reg * 0x100 + words, 0),
            ThumbInsn::Call { halves } => long_branch(2 * halves, 0xD000),
            ThumbInsn::Switch { words } => long_branch(4 * words, 0xC000),
            ThumbInsn::Jump { halves } => long_branch(2 * halves, 0x9000),
            ThumbInsn::JumpIf { cond, halves } => {
                let o = halves % 0x10_0000;
                (
                    0xF000 + (o / 0x8_0000) * 0x400 + cond * 0x40 + (o / 0x800) % 0x40,
                    0x8000 + ((o / 0x2_0000) % 2) * 0x2000 + ((o / 0x4_0000) % 2) * 0x800 + o
                        % 0x800,
                )
            },
            ThumbInsn::Load { up, reg, imm } => (0xF85F + up * 0x80, reg * 0x1000 + imm),
        }
    }

    /// The kind of its reference.
    pub open spec fn kind(self) -> XrefKind {
        match self {
            ThumbInsn::NarrowLoad { .. } => XrefKind::DataRead,
            ThumbInsn::Load { .. } => XrefKind::DataRead,
            ThumbInsn::Call { .. } => XrefKind::Call,
            ThumbInsn::Switch { .. } => XrefKind::Call,
            _ => XrefKind::Jump,
        }
    }

    /// The target: so far from four bytes past the instruction, or from the word that
    /// holds that address.
    pub open spec fn target(self, pc: u64) -> u64 {
        let next = wrap64(pc + 4);
        let word = 4 * (next as int / 4);
        match self {
            ThumbInsn::NarrowJumpIf { halves, .. } => wrap64(pc + 4 + 2 * halves),
            ThumbInsn::NarrowJump { halves } => wrap64(pc + 4 + 2 * halves),
            ThumbInsn::NarrowLoad { words, .. } => wrap64(word + 4 * words),
            ThumbInsn::Call { halves } => wrap64(pc + 4 + 2 * halves),
            ThumbInsn::Switch { words } => wrap64(word + 4 * words),
            ThumbInsn::Jump { halves } => wrap64(pc + 4 + 2 * halves),
            ThumbInsn::JumpIf { halves, .. } => wrap64(pc + 4 + 2 * halves),
            ThumbInsn::Load { up, imm, .. } => if up == 1 {
                wrap64(word + imm)
            } else {
                wrap64(word - imm)
            },
        }
    }
}

proof fn lemma_thumb_masks(a: u16, b: u16)
    ensures
        a & 0xF800 == 0xF000 <==> a / 0x800 == 0x1E,
        a & 0xFF7F == 0xF85F <==> a == 0xF85F || a == 0xF8DF,
        a & 0xF000 == 0xD000 <==> a / 0x1000 == 0xD,
        a & 0xF800 == 0xE000 <==> a / 0x800 == 0x1C,
        a & 0xF800 == 0x4800 <==> a / 0x800 == 9,
        b & 0xD000 == 0xD000 <==> b / 0x4000 == 3 && (b / 0x1000) % 2 == 1,
        b & 0xD000 == 0xC000 <==> b / 0x4000 == 3 && (b / 0x1000) % 2 == 0,
        b & 0xD000 == 0x9000 <==> b / 0x4000 == 2 && (b / 0x1000) % 2 == 1,
        b & 0xD000 == 0x8000 <==> b / 0x4000 == 2 && (b / 0x1000) % 2 == 0,
{
    assert((a & 0xF800 == 0xF000 <==> a / 0x800 == 0x1E) && (a & 0xFF7F == 0xF85F <==> a == 0xF85F
        || a == 0xF8DF) && (a & 0xF000 == 0xD000 <==> a / 0x1000 == 0xD) && (a & 0xF800 == 0xE000
        <==> a / 0x800 == 0x1C) && (a & 0xF800 == 0x4800 <==> a / 0x800 == 9) && (b & 0xD000
        == 0xD000 <==> b / 0x4000 == 3 && (b / 0x1000) % 2 == 1) && (b & 0xD000 == 0xC000 <==> b
        / 0x4000 == 3 && (b / 0x1000) % 2 == 0) && (b & 0xD000 == 0x9000 <==> b / 0x4000 == 2 && (b
        / 0x1000) % 2 == 1) && (b & 0xD000 == 0x8000 <==> b / 0x4000 == 2 && (b / 0x1000) % 2
        == 0)) by (bit_vector);
}

proof fn lemma_narrow_target(hw: u16, insn: ThumbInsn, pc: u64)
    requires
        insn.valid(),
        insn.narrow(),
        hw == insn.encoded().0,
    ensures
        thumb_narrow_target(hw, pc) == Some((insn.target(pc), insn.kind())),
        hw < 0xE800,
{
    reveal(thumb_narrow_target);
    lemma_thumb_masks(hw, 0);
}

/// A narrow Thumb branch or literal load of any distance refers to its target, and the
/// scan goes on two bytes further.
pub proof fn law_thumb_narrow_target(m: ScanModel, i: int, insn: ThumbInsn)
    requires
        0 <= i,
        i + 2 <= m.data.len(),
        insn.valid(),
        insn.narrow(),
        le16(m.data, i) == insn.encoded().0,
    ensures
        thumb_refs(m, i) == refers(
            m,
            wrap64(m.base + i),
            insn.target(wrap64(m.base + i)),
            insn.kind(),
        ) + thumb_refs(m, i + 2),
{
    lemma_narrow_target(le16(m.data, i) as u16, insn, wrap64(m.base + i));
}

proof fn lemma_long_branch(a: u16, b: u16, distance: int, low: int)
    requires
        -0x100_0000 <= distance < 0x100_0000,
        distance % 2 == 0,
        low == 0xD000 || low == 0xC000 || low == 0x9000,
        (a as int, b as int) == long_branch(distance, low),
    ensures
        low != 0xC000 ==> thumb_bl_offset(a, b, false) == distance,
        low == 0xC000 && distance % 4 == 0 ==> thumb_bl_offset(a, b, true) == distance,
        a / 0x800 == 0x1E,
        b / 0x4000 == low / 0x4000,
        (b / 0x1000) % 2 == (low / 0x1000) % 2,
{
    let o = distance % 0x200_0000;
    let s = o / 0x100_0000;
    let i1 = (o / 0x80_0000) % 2;
    let i2 = (o / 0x40_0000) % 2;
    let imm10 = (o / 0x1000) % 0x400;
    let imm11 = (o / 2) % 0x800;
    let j1: int = if i1 == s {
        1
    } else {
        0
    };
    let j2: int = if i2 == s {
        1
    } else {
        0
    };
    assert(o == s * 0x100_0000 + i1 * 0x80_0000 + i2 * 0x40_0000 + imm10 * 0x1000 + imm11 * 2);
    assert(a as int == 0xF000 + s * 0x400 + imm10);
    assert(b as int == low + j1 * 0x2000 + j2 * 0x800 + imm11);
    assert((a as int / 0x400) % 2 == s && a as int % 0x400 == imm10);
    assert((b as int / 0x2000) % 2 == j1);
    assert((b as int / 0x800) % 2 == j2);
    assert(b as int % 0x800 == imm11);
}

proof fn lemma_long_jump_if(a: u16, b: u16, cond: int, halves: int)
    requires
        0 <= cond < 14,
        -0x8_0000 <= halves < 0x8_0000,
        (a as int, b as int) == (ThumbInsn::JumpIf { cond, halves }).encoded(),
    ensures
        thumb_bcond_offset(a, b) == 2 * halves,
        (a as int / 0x40) % 0x10 == cond,
        a / 0x800 == 0x1E,
        b / 0x4000 == 2,
        (b / 0x1000) % 2 == 0,
{
    let o = halves % 0x10_0000;
    let s = o / 0x8_0000;
    let j2 = (o / 0x4_0000) % 2;
    let j1 = (o / 0x2_0000) % 2;
    let imm6 = (o / 0x800) % 0x40;
    let imm11 = o % 0x800;
    assert(o == s * 0x8_0000 + j2 * 0x4_0000 + j1 * 0x2_0000 + imm6 * 0x800 + imm11);
    assert(a as int == 0xF000 + s * 0x400 + cond * 0x40 + imm6);
    assert(b as int == 0x8000 + j1 * 0x2000 + j2 * 0x800 + imm11);
    assert((a as int / 0x400) % 2 == s && a as int % 0x40 == imm6);
    assert((b as int / 0x2000) % 2 == j1);
    assert((b as int / 0x800) % 2 == j2);
    assert(b as int % 0x800 == imm11);
}

proof fn lemma_word_of(pc: u64, words: int)
    ensures
        rounded_down(wrap64(pc + 4 + 4 * words), 4) == wrap64(
            4 * (wrap64(pc + 4) as int / 4) + 4 * words,
        ),
{
    let next = wrap64(pc + 4);
    crate::va::lemma_wrap64_sum(pc + 4, 4 * words);
    let word = 4 * (next as int / 4);
    let r = next - word;
    assert(0 <= r < 4);
    let t = wrap64(word + 4 * words);
    assert(t % 4 == 0);
    crate::va::lemma_wrap64_sum(word + 4 * words, r);
    assert(wrap64(t + r) == t + r);
    assert(wrap64(next + 4 * words) == t + r);
}

proof fn lemma_wide_target(a: u16, b: u16, insn: ThumbInsn, pc: u64)
    requires
        insn.valid(),
        !insn.narrow(),
        (a as int, b as int) == insn.encoded(),
    ensures
        thumb_wide_target(a, b, pc) == Some((insn.target(pc), insn.kind())),
        a >= 0xE800,
{
    reveal(thumb_wide_target);
    lemma_thumb_masks(a, b);
    match insn {
        ThumbInsn::Call { halves } => {
            lemma_long_branch(a, b, 2 * halves, 0xD000);
        },
        ThumbInsn::Switch { words } => {
            lemma_long_branch(a, b, 4 * words, 0xC000);
            lemma_word_of(pc, words);
        },
        ThumbInsn::Jump { halves } => {
            lemma_long_branch(a, b, 2 * halves, 0x9000);
        },
        ThumbInsn::JumpIf { cond, halves } => {
            lemma_long_jump_if(a, b, cond, halves);
        },
        _ => {},
    }
}

/// A wide Thumb branch or literal load of any distance refers to its target, and the
/// scan goes on four bytes further.
pub proof fn law_thumb_wide_target(m: ScanModel, i: int, insn: ThumbInsn)
    requires
        0 <= i,
        i + 4 <= m.data.len(),
        insn.valid(),
        !insn.narrow(),
        le16(m.data, i) == insn.encoded().0,
        le16(m.data, i + 2) == insn.encoded().1,
    ensures
        thumb_refs(m, i) == refers(
            m,
            wrap64(m.base + i),
            insn.target(wrap64(m.base + i)),
            insn.kind(),
        ) + thumb_refs(m, i + 4),
{
    lemma_wide_target(
        le16(m.data, i) as u16,
        le16(m.data, i + 2) as u16,
        insn,
        wrap64(m.base + i),
    );
}

} // verus!
