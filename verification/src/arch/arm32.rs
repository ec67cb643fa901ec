//! Cross-references from 32-bit ARM code, in its two encodings.
//!
//! ARM instructions are four bytes; the program counter reads eight bytes ahead.
//! Decoded are:
//! - `B` `cond 1010 imm24`, a jump
//! - `BL` `cond 1011 imm24`, a call
//! - `BLX` `1111 101H imm24`, a call into Thumb code
//! - `LDR` from the program counter, `cond 0101 U001 1111 Rt imm12`, a read
//!
//! Thumb instructions are two bytes, or four where the first halfword is at least
//! `E800`; the program counter reads four bytes ahead. Decoded are:
//! - `B` `1101 cond imm8` and `11100 imm11`, jumps
//! - `LDR` literal `01001 Rt imm8`, a read
//! - `BL`, `BLX` (calls), `B.W`, `B.cond.W` (jumps) with a first halfword `11110..`
//! - `LDR.W` literal `11111000 U101 1111`, a read

use crate::arch::arm64_decode::signed_field;
use crate::arch::{
    exec_in, mapped_in, one_or_none, scan_model, ScanModel, ScanRegion, SegmentIndex, SegmentSpan,
};
use crate::bytes::{le16, read_u16_le, read_u32_le};
use crate::va::{wrap64, Va};
use crate::xref::{Confidence, Xref, XrefKind};
use vstd::prelude::*;

verus! {

/// The signed offset in the low 24 bits, in bytes.
pub open spec fn a32_offset(word: u32) -> int {
    4 * signed_field(word as int % 0x100_0000, 0x100_0000)
}

/// An address rounded down to a multiple of `n`.
pub open spec fn rounded_down(va: u64, n: int) -> u64 {
    (va - va as int % n) as u64
}

/// The address that an ARM instruction names, and how it refers to it.
#[verifier::opaque]
pub open spec fn a32_target(word: u32, pc: u64) -> Option<(u64, XrefKind)> {
    if word & 0xFE00_0000 == 0xFA00_0000 {
        let half = (word as int / 0x100_0000) % 2;
        Some((rounded_down(wrap64(pc + 8 + a32_offset(word) + 2 * half), 2), XrefKind::Call))
    } else if word & 0x0F00_0000 == 0x0B00_0000 {
        Some((wrap64(pc + 8 + a32_offset(word)), XrefKind::Call))
    } else if word & 0x0F00_0000 == 0x0A00_0000 {
        Some((wrap64(pc + 8 + a32_offset(word)), XrefKind::Jump))
    } else if word & 0x0F7F_0000 == 0x051F_0000 {
        let imm12 = word as int % 0x1000;
        if (word as int / 0x80_0000) % 2 == 1 {
            Some((wrap64(pc + 8 + imm12), XrefKind::DataRead))
        } else {
            Some((wrap64(pc + 8 - imm12), XrefKind::DataRead))
        }
    } else {
        None
    }
}

/// The reference to a named address: code for a branch, anything mapped for a read.
pub open spec fn ref_to(
    from: Va,
    target: Option<(u64, XrefKind)>,
    spans: Seq<SegmentSpan>,
) -> Option<Xref> {
    match target {
        Some((to, kind)) => if if kind == XrefKind::DataRead {
            mapped_in(spans, to)
        } else {
            exec_in(spans, to)
        } {
            Some(Xref { from, to: Va(to), kind, confidence: Confidence::LinearImmediate })
        } else {
            None
        },
        None => None,
    }
}

/// The references of the first `k` ARM instructions.
pub open spec fn a32_refs(m: ScanModel, k: int) -> Seq<Xref>
    decreases k,
{
    if k <= 0 {
        Seq::empty()
    } else {
        a32_refs(m, k - 1) + one_or_none(
            ref_to(m.va(k - 1), a32_target(m.word(k - 1), m.va(k - 1).0), m.spans),
        )
    }
}

/// The signed offset of `BL`, `BLX` and `B.W`: S:I1:I2:imm10:imm11:0, where I1 and
/// I2 are set where J1 and J2 are as S. `BLX` ignores the lowest bit of imm11.
pub open spec fn thumb_bl_offset(hw1: u16, hw2: u16, is_blx: bool) -> int {
    let s = (hw1 as int / 0x400) % 2;
    let imm10 = hw1 as int % 0x400;
    let j1 = (hw2 as int / 0x2000) % 2;
    let j2 = (hw2 as int / 0x800) % 2;
    let low = hw2 as int % 0x800;
    let imm11 = if is_blx {
        low - low % 2
    } else {
        low
    };
    let i1 = if j1 == s {
        1int
    } else {
        0
    };
    let i2 = if j2 == s {
        1int
    } else {
        0
    };
    signed_field(
        s * 0x100_0000 + i1 * 0x80_0000 + i2 * 0x40_0000 + imm10 * 0x1000 + imm11 * 2,
        0x200_0000,
    )
}

/// The signed offset of `B.cond.W`: S:J2:J1:imm6:imm11:0.
pub open spec fn thumb_bcond_offset(hw1: u16, hw2: u16) -> int {
    let s = (hw1 as int / 0x400) % 2;
    let imm6 = hw1 as int % 0x40;
    let j1 = (hw2 as int / 0x2000) % 2;
    let j2 = (hw2 as int / 0x800) % 2;
    let imm11 = hw2 as int % 0x800;
    signed_field(
        s * 0x10_0000 + j2 * 0x8_0000 + j1 * 0x4_0000 + imm6 * 0x1000 + imm11 * 2,
        0x20_0000,
    )
}

/// The address that a four-byte Thumb instruction names.
#[verifier::opaque]
pub open spec fn thumb_wide_target(hw1: u16, hw2: u16, pc: u64) -> Option<(u64, XrefKind)> {
    if hw1 & 0xF800 == 0xF000 {
        if hw2 & 0xD000 == 0xD000 {
            Some((wrap64(pc + 4 + thumb_bl_offset(hw1, hw2, false)), XrefKind::Call))
        } else if hw2 & 0xD000 == 0xC000 {
            Some(
                (
                    rounded_down(wrap64(pc + 4 + thumb_bl_offset(hw1, hw2, true)), 4),
                    XrefKind::Call,
                ),
            )
        } else if hw2 & 0xD000 == 0x9000 {
            Some((wrap64(pc + 4 + thumb_bl_offset(hw1, hw2, false)), XrefKind::Jump))
        } else if hw2 & 0xD000 == 0x8000 && (hw1 as int / 0x40) % 0x10 < 0xE {
            Some((wrap64(pc + 4 + thumb_bcond_offset(hw1, hw2)), XrefKind::Jump))
        } else {
            None
        }
    } else if hw1 & 0xFF7F == 0xF85F {
        let aligned = rounded_down(wrap64(pc + 4), 4);
        let imm12 = hw2 as int % 0x1000;
        if (hw1 as int / 0x80) % 2 == 1 {
            Some((wrap64(aligned + imm12), XrefKind::DataRead))
        } else {
            Some((wrap64(aligned - imm12), XrefKind::DataRead))
        }
    } else {
        None
    }
}

/// The address that a two-byte Thumb instruction names.
#[verifier::opaque]
pub open spec fn thumb_narrow_target(hw: u16, pc: u64) -> Option<(u64, XrefKind)> {
    if hw & 0xF000 == 0xD000 {
        if (hw as int / 0x100) % 0x10 < 0xE {
            Some(
                (wrap64(pc + 4 + 2 * signed_field(hw as int % 0x100, 0x100)), XrefKind::Jump),
            )
        } else {
            None
        }
    } else if hw & 0xF800 == 0xE000 {
        Some((wrap64(pc + 4 + 2 * signed_field(hw as int % 0x800, 0x800)), XrefKind::Jump))
    } else if hw & 0xF800 == 0x4800 {
        Some(
            (
                wrap64(rounded_down(wrap64(pc + 4), 4) + 4 * (hw as int % 0x100)),
                XrefKind::DataRead,
            ),
        )
    } else {
        None
    }
}

/// The references of the Thumb instructions from offset `i` on.
pub open spec fn thumb_refs(m: ScanModel, i: int) -> Seq<Xref>
    decreases m.data.len() - i,
{
    if i < 0 || i + 2 > m.data.len() {
        Seq::empty()
    } else {
        let pc = Va(wrap64(m.base + i));
        let hw1 = le16(m.data, i) as u16;
        if hw1 >= 0xE800 {
            if i + 4 > m.data.len() {
                Seq::empty()
            } else {
                let hw2 = le16(m.data, i + 2) as u16;
                one_or_none(ref_to(pc, thumb_wide_target(hw1, hw2, pc.0), m.spans)) + thumb_refs(
                    m,
                    i + 4,
                )
            }
        } else {
            one_or_none(ref_to(pc, thumb_narrow_target(hw1, pc.0), m.spans)) + thumb_refs(m, i + 2)
        }
    }
}

/// The reference to a named address, if it is mapped as it has to be.
fn checked_xref(from: Va, target: Option<(u64, XrefKind)>, seg_idx: &SegmentIndex) -> (r: Option<
    Xref,
>)
    requires
        seg_idx.wf(),
    ensures
        r == ref_to(from, target, seg_idx@),
{
    match target {
        Some((to, kind)) => {
            let known = if kind == XrefKind::DataRead {
                seg_idx.contains(Va(to))
            } else {
                seg_idx.is_exec(Va(to))
            };
            if known {
                Some(Xref { from, to: Va(to), kind, confidence: Confidence::LinearImmediate })
            } else {
                None
            }
        },
        None => None,
    }
}

/// The signed byte offset in the low 24 bits.
#[inline]
fn a32_branch_offset(word: u32) -> (r: i64)
    ensures
        r == a32_offset(word),
        -0x200_0000 <= r < 0x200_0000,
{
    let imm24: i64 = (word % 0x100_0000) as i64;
    if imm24 >= 0x80_0000 {
        (imm24 - 0x100_0000) * 4
    } else {
        imm24 * 4
    }
}

/// The address that an ARM instruction names.
fn decode_a32(word: u32, pc: Va) -> (r: Option<(u64, XrefKind)>)
    ensures
        r == a32_target(word, pc.0),
{
    proof {
        reveal(a32_target);
    }
    // Tried first: the condition field of BLX would read as B or BL.
    if word & 0xFE00_0000 == 0xFA00_0000 {
        let half: i64 = ((word / 0x100_0000) % 2) as i64;
        let to: u64 = pc.offset(8 + a32_branch_offset(word) + 2 * half).0;
        return Some((to - to % 2, XrefKind::Call));
    }
    let op: u32 = word & 0x0F00_0000;
    if op == 0x0B00_0000 {
        return Some((pc.offset(8 + a32_branch_offset(word)).0, XrefKind::Call));
    }
    if op == 0x0A00_0000 {
        return Some((pc.offset(8 + a32_branch_offset(word)).0, XrefKind::Jump));
    }
    if word & 0x0F7F_0000 == 0x051F_0000 {
        let imm12: i64 = (word % 0x1000) as i64;
        let to: u64 = if (word / 0x80_0000) % 2 == 1 {
            pc.offset(8 + imm12).0
        } else {
            pc.offset(8 - imm12).0
        };
        return Some((to, XrefKind::DataRead));
    }
    None
}

/// Scans ARM code, four bytes at a time.
pub fn scan_arm32(region: &ScanRegion<'_>, seg_idx: &SegmentIndex) -> (r: Vec<Xref>)
    requires
        seg_idx.wf(),
    ensures
        r@ == a32_refs(scan_model(*region, *seg_idx), region.data@.len() as int / 4),
{
    let data = region.data;
    let base = region.base_va;
    let n: usize = data.len() / 4;
    let ghost m = scan_model(*region, *seg_idx);
    let mut xrefs: Vec<Xref> = Vec::new();
    let mut i: usize = 0;
    while i < n
        invariant
            seg_idx.wf(),
            i <= n,
            n == data.len() / 4,
            m == (ScanModel { data: data@, base: base.0, spans: seg_idx@ }),
            xrefs@ == a32_refs(m, i as int),
        decreases n - i,
    {
        let pc = base + (i * 4) as u64;
        let word: u32 = read_u32_le(data, i * 4);
        assert(word == m.word(i as int) && pc == m.va(i as int));
        match checked_xref(pc, decode_a32(word, pc), seg_idx) {
            Some(x) => {
                xrefs.push(x);
            },
            None => {},
        }
        assert(xrefs@ =~= a32_refs(m, i + 1));
        i = i + 1;
    }
    xrefs
}

/// The target of `BL`, `BLX` and `B.W`.
#[inline]
fn thumb_bl_target(pc: Va, hw1: u16, hw2: u16, is_blx: bool) -> (r: u64)
    ensures
        r == if is_blx {
            rounded_down(wrap64(pc.0 + 4 + thumb_bl_offset(hw1, hw2, is_blx)), 4)
        } else {
            wrap64(pc.0 + 4 + thumb_bl_offset(hw1, hw2, is_blx))
        },
{
    let s: i64 = ((hw1 / 0x400) % 2) as i64;
    let imm10: i64 = (hw1 % 0x400) as i64;
    let j1: i64 = ((hw2 / 0x2000) % 2) as i64;
    let j2: i64 = ((hw2 / 0x800) % 2) as i64;
    let low: i64 = (hw2 % 0x800) as i64;
    let imm11: i64 = if is_blx {
        low - low % 2
    } else {
        low
    };
    let i1: i64 = if j1 == s {
        1
    } else {
        0
    };
    let i2: i64 = if j2 == s {
        1
    } else {
        0
    };
    let raw: i64 = s * 0x100_0000 + i1 * 0x80_0000 + i2 * 0x40_0000 + imm10 * 0x1000 + imm11 * 2;
    let offset: i64 = if s != 0 {
        raw - 0x200_0000
    } else {
        raw
    };
    let to: u64 = pc.offset(4 + offset).0;
    if is_blx {
        to - to % 4
    } else {
        to
    }
}

/// The target of `B.cond.W`.
#[inline]
fn thumb_bcond_w_target(pc: Va, hw1: u16, hw2: u16) -> (r: u64)
    ensures
        r == wrap64(pc.0 + 4 + thumb_bcond_offset(hw1, hw2)),
{
    let s: i64 = ((hw1 / 0x400) % 2) as i64;
    let imm6: i64 = (hw1 % 0x40) as i64;
    let j1: i64 = ((hw2 / 0x2000) % 2) as i64;
    let j2: i64 = ((hw2 / 0x800) % 2) as i64;
    let imm11: i64 = (hw2 % 0x800) as i64;
    let raw: i64 = s * 0x10_0000 + j2 * 0x8_0000 + j1 * 0x4_0000 + imm6 * 0x1000 + imm11 * 2;
    let offset: i64 = if s != 0 {
        raw - 0x20_0000
    } else {
        raw
    };
    pc.offset(4 + offset).0
}

/// The address that a four-byte Thumb instruction names.
fn decode_thumb_wide(hw1: u16, hw2: u16, pc: Va) -> (r: Option<(u64, XrefKind)>)
    ensures
        r == thumb_wide_target(hw1, hw2, pc.0),
{
    proof {
        reveal(thumb_wide_target);
    }
    if hw1 & 0xF800 == 0xF000 {
        let op: u16 = hw2 & 0xD000;
        if op == 0xD000 {
            return Some((thumb_bl_target(pc, hw1, hw2, false), XrefKind::Call));
        }
        if op == 0xC000 {
            return Some((thumb_bl_target(pc, hw1, hw2, true), XrefKind::Call));
        }
        if op == 0x9000 {
            return Some((thumb_bl_target(pc, hw1, hw2, false), XrefKind::Jump));
        }
        // Conditions E and F encode other instructions.
        if op == 0x8000 && (hw1 / 0x40) % 0x10 < 0xE {
            return Some((thumb_bcond_w_target(pc, hw1, hw2), XrefKind::Jump));
        }
        return None;
    }
    if hw1 & 0xFF7F == 0xF85F {
        let ahead = pc + 4;
        let aligned = Va(ahead.0 - ahead.0 % 4);
        let imm12: i64 = (hw2 % 0x1000) as i64;
        let to: u64 = if (hw1 / 0x80) % 2 == 1 {
            aligned.offset(imm12).0
        } else {
            aligned.offset(-imm12).0
        };
        return Some((to, XrefKind::DataRead));
    }
    None
}

/// The address that a two-byte Thumb instruction names.
fn decode_thumb_narrow(hw: u16, pc: Va) -> (r: Option<(u64, XrefKind)>)
    ensures
        r == thumb_narrow_target(hw, pc.0),
{
    proof {
        reveal(thumb_narrow_target);
    }
    if hw & 0xF000 == 0xD000 {
        // Conditions E and F encode other instructions.
        if (hw / 0x100) % 0x10 >= 0xE {
            return None;
        }
        let imm8: i64 = (hw % 0x100) as i64;
        let offset: i64 = if imm8 >= 0x80 {
            imm8 - 0x100
        } else {
            imm8
        };
        return Some((pc.offset(4 + 2 * offset).0, XrefKind::Jump));
    }
    if hw & 0xF800 == 0xE000 {
        let imm11: i64 = (hw % 0x800) as i64;
        let offset: i64 = if imm11 >= 0x400 {
            imm11 - 0x800
        } else {
            imm11
        };
        return Some((pc.offset(4 + 2 * offset).0, XrefKind::Jump));
    }
    if hw & 0xF800 == 0x4800 {
        let ahead = pc + 4;
        let aligned = Va(ahead.0 - ahead.0 % 4);
        let to = aligned + 4 * (hw % 0x100) as u64;
        return Some((to.0, XrefKind::DataRead));
    }
    None
}

/// Scans Thumb code, two or four bytes at a time.
pub fn scan_thumb(region: &ScanRegion<'_>, seg_idx: &SegmentIndex) -> (r: Vec<Xref>)
    requires
        seg_idx.wf(),
    ensures
        r@ == thumb_refs(scan_model(*region, *seg_idx), 0),
{
    let data = region.data;
    let base = region.base_va;
    let total: usize = data.len();
    let ghost m = scan_model(*region, *seg_idx);
    let mut xrefs: Vec<Xref> = Vec::new();
    let mut i: usize = 0;
    assert(xrefs@ + thumb_refs(m, 0) =~= thumb_refs(m, 0));
    while i < total && total - i >= 2
        invariant
            seg_idx.wf(),
            i <= total,
            total == data.len(),
            m == scan_model(*region, *seg_idx),
            m == (ScanModel { data: data@, base: base.0, spans: seg_idx@ }),
            xrefs@ + thumb_refs(m, i as int) == thumb_refs(m, 0),
        decreases total - i,
    {
        let pc = base + i as u64;
        let hw1: u16 = read_u16_le(data, i);
        let ghost before = xrefs@;
        let ghost at = i as int;
        let target: Option<(u64, XrefKind)>;
        if hw1 >= 0xE800 {
            if total - i < 4 {
                assert(before + Seq::<Xref>::empty() =~= before);
                return xrefs;
            }
            let hw2: u16 = read_u16_le(data, i + 2);
            target = decode_thumb_wide(hw1, hw2, pc);
            i = i + 4;
        } else {
            target = decode_thumb_narrow(hw1, pc);
            i = i + 2;
        }
        let found = checked_xref(pc, target, seg_idx);
        match found {
            Some(x) => {
                xrefs.push(x);
            },
            None => {},
        }
        proof {
            let rest = thumb_refs(m, i as int);
            assert(thumb_refs(m, at) == one_or_none(found) + rest);
            assert(before + (one_or_none(found) + rest) =~= xrefs@ + rest);
        }
    }
    assert(xrefs@ + Seq::<Xref>::empty() =~= xrefs@);
    xrefs
}

/// What every reference from ARM code keeps to: a branch ends at code, a read at a
/// mapped address.
pub open spec fn sound_ref(m: ScanModel, x: Xref) -> bool {
    if x.kind == XrefKind::DataRead {
        mapped_in(m.spans, x.to.0)
    } else {
        exec_in(m.spans, x.to.0)
    }
}

/// Every reference of the ARM scan is to code, or to mapped data for a read, and
/// starts at an instruction of the region.
pub proof fn law_a32_sound(m: ScanModel, k: int)
    ensures
        forall|j: int|
            0 <= j < a32_refs(m, k).len() ==> sound_ref(m, #[trigger] a32_refs(m, k)[j])
                && exists|i: int| 0 <= i < k && a32_refs(m, k)[j].from == #[trigger] m.va(i),
    decreases k,
{
    if k > 0 {
        law_a32_sound(m, k - 1);
        let prior = a32_refs(m, k - 1);
        let all = a32_refs(m, k);
        assert forall|j: int| 0 <= j < all.len() implies sound_ref(m, #[trigger] all[j])
            && exists|i: int| 0 <= i < k && all[j].from == #[trigger] m.va(i) by {
            if j < prior.len() {
                assert(all[j] == prior[j]);
                let i = choose|i: int| 0 <= i < k - 1 && prior[j].from == #[trigger] m.va(i);
                assert(all[j].from == m.va(i));
            } else {
                assert(all[j].from == m.va(k - 1));
            }
        }
    }
}

/// Every reference of the Thumb scan is to code, or to mapped data for a read, and
/// starts inside the region.
pub proof fn law_thumb_sound(m: ScanModel, at: int)
    requires
        0 <= at,
    ensures
        forall|j: int|
            0 <= j < thumb_refs(m, at).len() ==> sound_ref(m, #[trigger] thumb_refs(m, at)[j])
                && exists|i: int|
                at <= i < m.data.len() && thumb_refs(m, at)[j].from == Va(
                    #[trigger] wrap64(m.base + i),
                ),
    decreases m.data.len() - at,
{
    if at + 2 <= m.data.len() {
        let hw1 = le16(m.data, at) as u16;
        if hw1 < 0xE800 || at + 4 <= m.data.len() {
            let next = if hw1 >= 0xE800 {
                at + 4
            } else {
                at + 2
            };
            law_thumb_sound(m, next);
            let all = thumb_refs(m, at);
            let rest = thumb_refs(m, next);
            let n = all.len() - rest.len();
            assert forall|j: int| 0 <= j < all.len() implies sound_ref(m, #[trigger] all[j])
                && exists|i: int|
                at <= i < m.data.len() && all[j].from == Va(#[trigger] wrap64(m.base + i)) by {
                if j < n {
                    assert(all[j].from == Va(wrap64(m.base + at)));
                } else {
                    assert(all[j] == rest[j - n]);
                    let i = choose|i: int|
                        next <= i < m.data.len() && rest[j - n].from == Va(
                            #[trigger] wrap64(m.base + i),
                        );
                    assert(all[j].from == Va(wrap64(m.base + i)));
                }
            }
        }
    }
}

} // verus!
