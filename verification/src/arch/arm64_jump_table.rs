//! Switch tables behind AArch64 register branches.
//!
//! The code that compilers emit for a switch looks like this, with other
//! instructions in between:
//!
//! ```text
//!   CMP    wIdx, #last
//!   B.HI   default
//!   ADRP   xTbl, table_page
//!   ADD    xTbl, xTbl, #table_offset
//!   ADR    xBase, first_case
//!   LDRB   wOff, [xTbl, wIdx, UXTW]
//!   ADD    xTgt, xBase, wOff, SXTB #2
//!   BR     xTgt
//! ```
//!
//! Looking back from the branch, the nearest instruction of each form counts.

use crate::arch::arm64::{
    table_limit, tracked_reg, CmpBound, Reg, ScanState, ScanStateView,
    JUMP_TABLE_LOOKBACK, MAX_JUMP_TABLE_SHIFT,
};
use crate::arch::arm64_decode::{bit_field, field_imm12, field_imm21, field_rd, field_rn, Arm64Insn};
use crate::arch::{
    exec_in, u16_at, u8_at, DataSpanView, ScanModel, SegmentDataIndex, SegmentIndex,
};
use crate::bytes::{as_signed, read_u32_le, signed16, signed8};
use crate::va::{wrap64, Va};
use crate::xref::{Confidence, Xref, XrefKind};
use vstd::prelude::*;

verus! {

/// Width of a table entry.
#[derive(Clone, Copy, Debug, PartialEq, Eq, Structural)]
pub enum JumpTableEntrySize {
    Byte,
    Halfword,
}

impl JumpTableEntrySize {
    /// Bytes of an entry.
    pub open spec fn width(self) -> int {
        match self {
            JumpTableEntrySize::Byte => 1,
            JumpTableEntrySize::Halfword => 2,
        }
    }

    /// Bytes of an entry.
    pub fn bytes(self) -> (r: u64)
        ensures
            r == self.width(),
    {
        match self {
            JumpTableEntrySize::Byte => 1,
            JumpTableEntrySize::Halfword => 2,
        }
    }
}

/// What the ADD before the branch makes of a table entry.
#[derive(Clone, Copy, Debug, PartialEq, Eq, Structural)]
pub struct JumpTableAddInfo {
    /// Left shift of the entry.
    pub shift: u32,
    /// Whether the entry is signed.
    pub sign_extend: bool,
    /// Register that the entry is added to.
    pub base_reg: Reg,
}

/// A load of a table entry.
#[derive(Clone, Copy, Debug, PartialEq, Eq, Structural)]
pub struct TableLoad {
    /// Register that holds the address of the table.
    pub table: Reg,
    /// Register that holds the index.
    pub index: Reg,
    pub size: JumpTableEntrySize,
}

/// A switch table.
#[derive(Clone, Copy, Debug, PartialEq, Eq, Structural)]
pub struct JumpTablePattern {
    /// Address that the entries are added to.
    pub target_base: Va,
    /// Address of the first entry.
    pub table_base: Va,
    pub entry_size: JumpTableEntrySize,
    /// Register that holds the index.
    pub index_reg: Reg,
    pub add_info: JumpTableAddInfo,
    /// Bound of the index from the nearest comparison, where that compares it.
    pub near_bound: Option<CmpBound>,
}

/// ADD of a shifted or extended register, with a shift that a table can have.
#[verifier::opaque]
pub open spec fn combining_add(word: u32) -> Option<JumpTableAddInfo> {
    let shifted = word & 0xFF20_0000 == 0x8B00_0000;
    let extended = word & 0xFFE0_0000 == 0x8B20_0000;
    let shift = bit_field(
        word,
        0x400,
        if shifted {
            0x40
        } else {
            8
        },
    ) as u32;
    match tracked_reg(field_rn(word)) {
        Some(base_reg) => if (shifted || extended) && shift <= MAX_JUMP_TABLE_SHIFT {
            Some(
                JumpTableAddInfo {
                    shift,
                    sign_extend: !shifted && bit_field(word, 0x8000, 2) == 1,
                    base_reg,
                },
            )
        } else {
            None
        },
        None => None,
    }
}

/// LDRB or LDRH with a register index.
#[verifier::opaque]
pub open spec fn table_load(word: u32) -> Option<TableLoad> {
    let byte = word & 0xFFE0_0C00 == 0x3860_0800;
    let half = word & 0xFFE0_0C00 == 0x7860_0800;
    if byte || half {
        match (tracked_reg(field_rn(word)), tracked_reg(bit_field(word, 0x1_0000, 0x20) as u8)) {
            (Some(table), Some(index)) => Some(
                TableLoad {
                    table,
                    index,
                    size: if byte {
                        JumpTableEntrySize::Byte
                    } else {
                        JumpTableEntrySize::Halfword
                    },
                },
            ),
            _ => None,
        }
    } else {
        None
    }
}

/// CMP of a register with an immediate: the register and the bound.
#[verifier::opaque]
pub open spec fn compared(word: u32) -> Option<(Reg, CmpBound)> {
    if field_rd(word) == 31 && word & 0x7F80_0000 == 0x7100_0000 && bit_field(word, 0x40_0000, 2)
        == 0 {
        match tracked_reg(field_rn(word)) {
            Some(r) => Some((r, CmpBound((field_imm12(word) + 1) as u32))),
            None => None,
        }
    } else {
        None
    }
}

/// ADRP into a register: the register and the page.
#[verifier::opaque]
pub open spec fn page_set(word: u32, va: Va) -> Option<(Reg, u64)> {
    if word & 0x9F00_0000 == 0x9000_0000 {
        match tracked_reg(field_rd(word)) {
            Some(r) => Some((r, wrap64(va.0 - va.0 % 4096 + 4096 * field_imm21(word)))),
            None => None,
        }
    } else {
        None
    }
}

/// ADD of an immediate to a register in place: the register and the immediate.
#[verifier::opaque]
pub open spec fn offset_added(word: u32) -> Option<(Reg, u64)> {
    if word & 0x7F00_0000 == 0x1100_0000 && field_rd(word) == field_rn(word) {
        match tracked_reg(field_rd(word)) {
            Some(r) => Some(
                (
                    r,
                    (if bit_field(word, 0x40_0000, 4) == 1 {
                        field_imm12(word) * 4096
                    } else {
                        field_imm12(word)
                    }) as u64,
                ),
            ),
            None => None,
        }
    } else {
        None
    }
}

/// ADR into the base register of an addition: the address.
#[verifier::opaque]
pub open spec fn adr_into(word: u32, va: Va, add: Option<JumpTableAddInfo>) -> Option<Va> {
    match add {
        Some(ai) => if word & 0x9F00_0000 == 0x1000_0000 && tracked_reg(field_rd(word)) == Some(
            ai.base_reg,
        ) {
            Some(Va(wrap64(va.0 + field_imm21(word))))
        } else {
            None
        },
        None => None,
    }
}

/// The first result among `f(1)` to `f(limit)`.
pub open spec fn nearest<A>(f: spec_fn(int) -> Option<A>, limit: int) -> Option<A>
    decreases limit,
{
    if limit < 1 {
        None
    } else {
        match nearest(f, limit - 1) {
            Some(a) => Some(a),
            None => f(limit),
        }
    }
}

/// The nearest combining addition at most `limit` instructions before the branch.
pub open spec fn nearest_add(m: ScanModel, br: int, limit: int) -> Option<JumpTableAddInfo> {
    nearest(|back: int| combining_add(m.word(br - back)), limit)
}

/// The address in the base register of the nearest combining addition, from the
/// nearest ADR at or before it.
pub open spec fn nearest_base(m: ScanModel, br: int, limit: int) -> Option<Va> {
    nearest(
        |back: int| adr_into(m.word(br - back), m.va(br - back), nearest_add(m, br, back)),
        limit,
    )
}

/// The nearest load of a table entry.
pub open spec fn nearest_load(m: ScanModel, br: int, limit: int) -> Option<TableLoad> {
    nearest(|back: int| table_load(m.word(br - back)), limit)
}

/// The nearest page address.
pub open spec fn nearest_page(m: ScanModel, br: int, limit: int) -> Option<(Reg, u64)> {
    nearest(|back: int| page_set(m.word(br - back), m.va(br - back)), limit)
}

/// The nearest addition of an immediate in place.
pub open spec fn nearest_offset(m: ScanModel, br: int, limit: int) -> Option<(Reg, u64)> {
    nearest(|back: int| offset_added(m.word(br - back)), limit)
}

/// The nearest comparison with an immediate.
pub open spec fn nearest_compared(m: ScanModel, br: int, limit: int) -> Option<(Reg, CmpBound)> {
    nearest(|back: int| compared(m.word(br - back)), limit)
}

/// The address of a table in a register: the nearest page and immediate where they
/// are for that register, else what the forward scan knows of it.
pub open spec fn table_base_of(
    reg: Reg,
    page: Option<(Reg, u64)>,
    offset: Option<(Reg, u64)>,
    st: ScanStateView,
) -> Option<Va> {
    match page {
        Some((page_reg, page)) if page_reg == reg => match offset {
            Some((add_reg, imm)) if add_reg == reg => Some(Va(wrap64(page + imm))),
            _ => Some(Va(page)),
        },
        _ => match st.addr(reg) {
            Some(a) => Some(a.value),
            None => None,
        },
    }
}

/// How many instructions there are to look back over.
pub open spec fn lookback(br: int) -> int {
    if br < JUMP_TABLE_LOOKBACK {
        br
    } else {
        JUMP_TABLE_LOOKBACK as int
    }
}

/// The switch table behind the branch at index `br`, where every part of the
/// pattern is found.
pub open spec fn table_pattern(m: ScanModel, st: ScanStateView, br: int) -> Option<
    JumpTablePattern,
> {
    let limit = lookback(br);
    match (nearest_add(m, br, limit), nearest_base(m, br, limit), nearest_load(m, br, limit)) {
        (Some(add_info), Some(target_base), Some(load)) => match table_base_of(
            load.table,
            nearest_page(m, br, limit),
            nearest_offset(m, br, limit),
            st,
        ) {
            Some(table_base) => Some(
                JumpTablePattern {
                    target_base,
                    table_base,
                    entry_size: load.size,
                    index_reg: load.index,
                    add_info,
                    near_bound: match nearest_compared(m, br, limit) {
                        Some((r, b)) if r == load.index => Some(b),
                        _ => None,
                    },
                },
            ),
            None => None,
        },
        _ => None,
    }
}

/// Factor of a left shift by at most four.
pub open spec fn shift_factor(shift: u32) -> int {
    if shift == 0 {
        1
    } else if shift == 1 {
        2
    } else if shift == 2 {
        4
    } else if shift == 3 {
        8
    } else {
        16
    }
}

/// The table entry at an address, signed where the addition takes it so.
pub open spec fn entry_at(
    image: Seq<DataSpanView>,
    size: JumpTableEntrySize,
    sign_extend: bool,
    va: u64,
) -> Option<int> {
    let raw = match size {
        JumpTableEntrySize::Byte => u8_at(image, va),
        JumpTableEntrySize::Halfword => u16_at(image, va),
    };
    let range = match size {
        JumpTableEntrySize::Byte => 0x100int,
        JumpTableEntrySize::Halfword => 0x1_0000int,
    };
    match raw {
        Some(v) => Some(
            if sign_extend {
                as_signed(v, range)
            } else {
                v
            },
        ),
        None => None,
    }
}

/// The target of the `k`-th entry of a table, if the entry can be read and its
/// target is code.
pub open spec fn case_target(
    m: ScanModel,
    image: Seq<DataSpanView>,
    p: JumpTablePattern,
    k: int,
) -> Option<Va> {
    let slot = wrap64(p.table_base.0 + k * p.entry_size.width());
    match entry_at(image, p.entry_size, p.add_info.sign_extend, slot) {
        Some(entry) => {
            let to = wrap64(p.target_base.0 + entry * shift_factor(p.add_info.shift));
            if exec_in(m.spans, to) {
                Some(Va(to))
            } else {
                None
            }
        },
        None => None,
    }
}

/// The references of the entries from the `k`-th on, up to the first without a
/// target.
pub open spec fn case_refs(
    m: ScanModel,
    image: Seq<DataSpanView>,
    p: JumpTablePattern,
    from: Va,
    k: int,
    limit: int,
) -> Seq<Xref>
    decreases limit - k,
{
    if k >= limit {
        Seq::empty()
    } else {
        match case_target(m, image, p, k) {
            Some(to) => seq![
                Xref { from, to, kind: XrefKind::Jump, confidence: Confidence::LocalProp },
            ] + case_refs(m, image, p, from, k + 1, limit),
            None => Seq::empty(),
        }
    }
}

/// The references of the switch table behind the branch at index `br`; none
/// without a pattern or a bound of its index.
pub open spec fn table_refs(
    m: ScanModel,
    image: Seq<DataSpanView>,
    st: ScanStateView,
    br: int,
) -> Seq<Xref> {
    match table_pattern(m, st, br) {
        Some(p) => {
            let bound = match p.near_bound {
                Some(b) => Some(b),
                None => st.recent_bound(p.index_reg, br, JUMP_TABLE_LOOKBACK as int),
            };
            match bound {
                Some(b) => case_refs(m, image, p, m.va(br), 0, table_limit(b)),
                None => Seq::empty(),
            }
        },
        None => Seq::empty(),
    }
}

/// What looking back for a table works on.
#[derive(Clone, Copy)]
pub struct JumpTableCtx<'a> {
    pub data: &'a [u8],
    pub base: Va,
    pub state: &'a ScanState,
    pub data_idx: &'a SegmentDataIndex<'a>,
    pub seg_idx: &'a SegmentIndex,
}

impl<'a> JumpTableCtx<'a> {
    pub open spec fn model(self) -> ScanModel {
        ScanModel { data: self.data@, base: self.base.0, spans: self.seg_idx@ }
    }

    /// Whether the lookups are in order and the branch at index `br` is in the
    /// region.
    pub open spec fn wf(self, br: int) -> bool {
        &&& self.seg_idx.wf()
        &&& self.data_idx.wf()
        &&& 0 <= br < self.data.len() / 4
        &&& self.state@.before(br)
    }
}

impl JumpTableAddInfo {
    /// Reads the addition that combines an entry with the base.
    pub fn decode(word: u32) -> (r: Option<JumpTableAddInfo>)
        ensures
            r == combining_add(word),
    {
        proof {
            reveal(combining_add);
        }
        let shifted = word & 0xFF20_0000 == 0x8B00_0000;
        let extended = word & 0xFFE0_0000 == 0x8B20_0000;
        if !shifted && !extended {
            return None;
        }
        let shift: u32 = if shifted {
            (word / 0x400) % 0x40
        } else {
            (word / 0x400) % 8
        };
        let sign_extend = !shifted && (word / 0x8000) % 2 == 1;
        match Reg::new(((word / 0x20) % 0x20) as u8) {
            Some(base_reg) => if shift <= MAX_JUMP_TABLE_SHIFT {
                Some(JumpTableAddInfo { shift, sign_extend, base_reg })
            } else {
                None
            },
            None => None,
        }
    }

    /// Reads a table entry.
    pub fn read_offset(
        self,
        entry_sz: JumpTableEntrySize,
        data_idx: &SegmentDataIndex<'_>,
        slot_va: Va,
    ) -> (r: Option<i64>)
        requires
            data_idx.wf(),
        ensures
            r is Some <==> entry_at(data_idx@, entry_sz, self.sign_extend, slot_va.0) is Some,
            r matches Some(v) ==> entry_at(data_idx@, entry_sz, self.sign_extend, slot_va.0)
                == Some(v as int) && -0x8000 <= v < 0x1_0000,
    {
        match entry_sz {
            JumpTableEntrySize::Byte => match data_idx.read_u8_at(slot_va) {
                Some(v) => Some(
                    if self.sign_extend {
                        signed8(v)
                    } else {
                        v as i64
                    },
                ),
                None => None,
            },
            JumpTableEntrySize::Halfword => match data_idx.read_u16_at(slot_va) {
                Some(v) => Some(
                    if self.sign_extend {
                        signed16(v)
                    } else {
                        v as i64
                    },
                ),
                None => None,
            },
        }
    }
}

/// Reads a load of a table entry.
fn decode_load(word: u32) -> (r: Option<TableLoad>)
    ensures
        r == table_load(word),
{
    proof {
        reveal(table_load);
    }
    let byte = word & 0xFFE0_0C00 == 0x3860_0800;
    let half = word & 0xFFE0_0C00 == 0x7860_0800;
    if !byte && !half {
        return None;
    }
    let size = if byte {
        JumpTableEntrySize::Byte
    } else {
        JumpTableEntrySize::Halfword
    };
    match (Reg::new(((word / 0x20) % 0x20) as u8), Reg::new(((word / 0x1_0000) % 0x20) as u8)) {
        (Some(table), Some(index)) => Some(TableLoad { table, index, size }),
        _ => None,
    }
}

/// Reads a comparison of a register with an immediate.
pub fn decode_compare(word: u32) -> (r: Option<(Reg, CmpBound)>)
    ensures
        r == compared(word),
{
    proof {
        reveal(compared);
    }
    if word % 0x20 != 31 || word & 0x7F80_0000 != 0x7100_0000 || (word / 0x40_0000) % 2 != 0 {
        return None;
    }
    let imm12: u32 = (word / 0x400) % 0x1000;
    match Reg::new(((word / 0x20) % 0x20) as u8) {
        Some(r) => Some((r, CmpBound(imm12 + 1))),
        None => None,
    }
}

/// Reads a page address set in a register.
fn decode_page(word: u32, va: Va) -> (r: Option<(Reg, u64)>)
    ensures
        r == page_set(word, va),
{
    proof {
        reveal(page_set);
    }
    if word & 0x9F00_0000 != 0x9000_0000 {
        return None;
    }
    let insn = Arm64Insn::Adrp(word);
    match Reg::new(insn.rd()) {
        Some(r) => Some((r, insn.adrp_page(va.0))),
        None => None,
    }
}

/// Reads an addition of an immediate in place.
fn decode_offset(word: u32) -> (r: Option<(Reg, u64)>)
    ensures
        r == offset_added(word),
{
    proof {
        reveal(offset_added);
    }
    if word & 0x7F00_0000 != 0x1100_0000 {
        return None;
    }
    let insn = Arm64Insn::AddImm(word);
    if insn.rd() != insn.rn() {
        return None;
    }
    match Reg::new(insn.rd()) {
        Some(r) => Some((r, insn.add_imm())),
        None => None,
    }
}

/// Reads an address set in the base register of an addition.
fn decode_base(word: u32, va: Va, add: Option<JumpTableAddInfo>) -> (r: Option<Va>)
    ensures
        r == adr_into(word, va, add),
{
    proof {
        reveal(adr_into);
    }
    match add {
        Some(ai) => {
            if word & 0x9F00_0000 != 0x1000_0000 {
                return None;
            }
            let insn = Arm64Insn::Adr(word);
            match Reg::new(insn.rd()) {
                Some(r) => if r == ai.base_reg {
                    Some(Va(insn.adr_target(va.0)))
                } else {
                    None
                },
                None => None,
            }
        },
        None => None,
    }
}

/// Finds the address of a table.
fn resolve_table_base(
    tbl_reg: Reg,
    page: Option<(Reg, u64)>,
    offset: Option<(Reg, u64)>,
    state: &ScanState,
) -> (r: Option<Va>)
    requires
        tbl_reg.wf(),
    ensures
        r == table_base_of(tbl_reg, page, offset, state@),
{
    match page {
        Some((page_reg, page)) => {
            if page_reg == tbl_reg {
                match offset {
                    Some((add_reg, imm)) => {
                        if add_reg == tbl_reg {
                            return Some(Va(page) + imm);
                        }
                    },
                    None => {},
                }
                return Some(Va(page));
            }
        },
        None => {},
    }
    match state.get_adrp(tbl_reg) {
        Some(st) => Some(st.value),
        None => None,
    }
}

/// Looks back from the branch at `br_index` for the parts of a switch table.
///
/// The address of the table comes from the instructions looked at where they give
/// it, since the register may have been overwritten before the branch.
pub fn scan_backward_for_pattern(br_index: usize, ctx: &JumpTableCtx<'_>) -> (r: Option<
    JumpTablePattern,
>)
    requires
        ctx.wf(br_index as int),
    ensures
        r == table_pattern(ctx.model(), ctx.state@, br_index as int),
{
    let ghost m = ctx.model();
    let ghost br = br_index as int;
    let limit: usize = if br_index < JUMP_TABLE_LOOKBACK {
        br_index
    } else {
        JUMP_TABLE_LOOKBACK
    };
    let mut add_info: Option<JumpTableAddInfo> = None;
    let mut target_base: Option<Va> = None;
    let mut load: Option<TableLoad> = None;
    let mut page: Option<(Reg, u64)> = None;
    let mut offset: Option<(Reg, u64)> = None;
    let mut bound: Option<(Reg, CmpBound)> = None;
    let mut back: usize = 0;
    while back < limit
        invariant
            back <= limit <= br_index,
            limit <= JUMP_TABLE_LOOKBACK,
            ctx.wf(br_index as int),
            br == br_index,
            m == ctx.model(),
            add_info == nearest_add(m, br, back as int),
            target_base == nearest_base(m, br, back as int),
            load == nearest_load(m, br, back as int),
            page == nearest_page(m, br, back as int),
            offset == nearest_offset(m, br, back as int),
            bound == nearest_compared(m, br, back as int),
        decreases limit - back,
    {
        back = back + 1;
        let at: usize = (br_index - back) * 4;
        let word: u32 = read_u32_le(ctx.data, at);
        let va = ctx.base + at as u64;
        proof {
            assert(word == m.word(br - back));
            assert(va == m.va(br - back));
        }
        if add_info.is_none() {
            add_info = JumpTableAddInfo::decode(word);
        }
        assert(add_info == nearest_add(m, br, back as int));
        if target_base.is_none() {
            target_base = decode_base(word, va, add_info);
        }
        if load.is_none() {
            load = decode_load(word);
        }
        if page.is_none() {
            page = decode_page(word, va);
        }
        if offset.is_none() {
            offset = decode_offset(word);
        }
        if bound.is_none() {
            bound = decode_compare(word);
        }
    }
    proof {
        lemma_nearest_load_wf(m, br, limit as int);
    }
    match (add_info, target_base, load) {
        (Some(add_info), Some(target_base), Some(load)) => {
            match resolve_table_base(load.table, page, offset, ctx.state) {
                Some(table_base) => {
                    let near_bound = match bound {
                        Some((r, b)) => if r == load.index {
                            Some(b)
                        } else {
                            None
                        },
                        None => None,
                    };
                    Some(
                        JumpTablePattern {
                            target_base,
                            table_base,
                            entry_size: load.size,
                            index_reg: load.index,
                            add_info,
                            near_bound,
                        },
                    )
                },
                None => None,
            }
        },
        _ => None,
    }
}

/// The registers of a load are tracked ones.
proof fn lemma_nearest_load_wf(m: ScanModel, br: int, limit: int)
    ensures
        match nearest_load(m, br, limit) {
            Some(l) => l.table.wf() && l.index.wf(),
            None => true,
        },
    decreases limit,
{
    reveal(table_load);
    if limit >= 1 {
        lemma_nearest_load_wf(m, br, limit - 1);
    }
}

/// The shift of an addition is one that a table can have.
proof fn lemma_nearest_add_wf(m: ScanModel, br: int, limit: int)
    ensures
        match nearest_add(m, br, limit) {
            Some(a) => a.shift <= MAX_JUMP_TABLE_SHIFT,
            None => true,
        },
    decreases limit,
{
    reveal(combining_add);
    if limit >= 1 {
        lemma_nearest_add_wf(m, br, limit - 1);
    }
}

/// Reports the cases of a switch table behind the branch at `br_index`.
///
/// Without a bound of the index nothing is reported. The bound found looking back
/// counts before that of the forward scan, whose register may have been
/// overwritten since.
pub fn recover_arm64_jump_table(
    br_va: Va,
    br_index: usize,
    ctx: &JumpTableCtx<'_>,
    xrefs: &mut Vec<Xref>,
)
    requires
        ctx.wf(br_index as int),
        br_va == ctx.model().va(br_index as int),
    ensures
        final(xrefs)@ == old(xrefs)@ + table_refs(
            ctx.model(),
            ctx.data_idx@,
            ctx.state@,
            br_index as int,
        ),
{
    let ghost m = ctx.model();
    let ghost image = ctx.data_idx@;
    let ghost start = xrefs@;
    proof {
        lemma_nearest_load_wf(m, br_index as int, lookback(br_index as int));
        lemma_nearest_add_wf(m, br_index as int, lookback(br_index as int));
    }
    let p = match scan_backward_for_pattern(br_index, ctx) {
        Some(p) => p,
        None => {
            assert(xrefs@ =~= start + Seq::<Xref>::empty());
            return ;
        },
    };
    let bound = match p.near_bound {
        Some(b) => b,
        None => match ctx.state.get_bound(p.index_reg, br_index, JUMP_TABLE_LOOKBACK) {
            Some(b) => b,
            None => {
                assert(xrefs@ =~= start + Seq::<Xref>::empty());
                return ;
            },
        },
    };
    let limit: usize = bound.table_limit();
    let factor: i64 = match p.add_info.shift {
        0 => 1,
        1 => 2,
        2 => 4,
        3 => 8,
        _ => 16,
    };
    let mut k: usize = 0;
    assert(xrefs@ + case_refs(m, image, p, br_va, 0, limit as int) =~= start + case_refs(
        m,
        image,
        p,
        br_va,
        0,
        limit as int,
    ));
    while k < limit
        invariant_except_break
            k <= limit,
            xrefs@ + case_refs(m, image, p, br_va, k as int, limit as int) == start + case_refs(
                m,
                image,
                p,
                br_va,
                0,
                limit as int,
            ),
        invariant
            limit <= 8192,
            ctx.seg_idx.wf(),
            ctx.data_idx.wf(),
            m == ctx.model(),
            image == ctx.data_idx@,
            factor == shift_factor(p.add_info.shift),
            1 <= factor <= 16,
        ensures
            xrefs@ == start + case_refs(m, image, p, br_va, 0, limit as int),
        decreases limit - k,
    {
        proof {
            assert(k * p.entry_size.width() <= 8192 * 2) by (nonlinear_arith)
                requires
                    k < 8192,
                    0 <= p.entry_size.width() <= 2,
            ;
            assert(xrefs@ + Seq::<Xref>::empty() =~= xrefs@);
        }
        let slot_va = p.table_base + k as u64 * p.entry_size.bytes();
        let entry: i64 = match p.add_info.read_offset(p.entry_size, ctx.data_idx, slot_va) {
            Some(v) => v,
            None => {
                break ;
            },
        };
        proof {
            assert(-0x8000 * 16 <= entry * factor <= 0x1_0000 * 16) by (nonlinear_arith)
                requires
                    -0x8000 <= entry < 0x1_0000,
                    1 <= factor <= 16,
            ;
        }
        let target = p.target_base.offset(entry * factor);
        if !ctx.seg_idx.is_exec(target) {
            break ;
        }
        let ghost before = xrefs@;
        let x = Xref {
            from: br_va,
            to: target,
            kind: XrefKind::Jump,
            confidence: Confidence::LocalProp,
        };
        xrefs.push(x);
        assert(before + (seq![x] + case_refs(m, image, p, br_va, k + 1, limit as int)) =~= xrefs@
            + case_refs(m, image, p, br_va, k + 1, limit as int));
        k = k + 1;
        assert(k == limit ==> xrefs@ + Seq::<Xref>::empty() =~= xrefs@);
    }
}

} // verus!
