//! Cross-references from AArch64 code.
//!
//! The linear scan reports instructions that name their target. The paired scan
//! also follows page addresses: it remembers, per register, an address that ADRP,
//! ADR, ADD or LDR computed, and reports what a later instruction makes of it. At
//! a register branch it looks back for a switch table.

use crate::arch::arm64_decode::{
    bit_field, decoded, field_imm12, field_imm14, field_imm19, field_imm21, field_imm26, field_rd,
    field_rn, access_bytes, Arm64Insn,
};
use crate::arch::arm64_jump_table::{
    case_refs, compared, decode_compare, recover_arm64_jump_table, table_pattern, table_refs,
    JumpTableCtx, JumpTablePattern,
};
use crate::arch::{
    exec_in, flags_in, mapped_in, one_or_none, scan_model, u64_at_nonexec, DataSpanView, ScanModel,
    ScanRegion, SegmentDataIndex, SegmentIndex, SegmentSpan,
};
use crate::bytes::read_u32_le;
use crate::va::{wrap64, Va};
use crate::xref::{Confidence, Xref, XrefKind};
use vstd::prelude::*;

verus! {

/// How many instructions an address held in a register stays usable.
pub const ADRP_WINDOW: usize = 8;

/// Most entries of a switch table.
pub const MAX_JUMP_TABLE_ENTRIES: usize = 8192;

/// Greatest left shift of a switch table entry.
pub const MAX_JUMP_TABLE_SHIFT: u32 = 4;

/// How many instructions before the branch a switch table is looked for.
pub const JUMP_TABLE_LOOKBACK: usize = 12;

/// The number of whole instruction words; none where the region is misaligned.
pub open spec fn aligned_count(m: ScanModel) -> int {
    if m.base % 4 == 0 {
        m.data.len() as int / 4
    } else {
        0
    }
}

/// The address that an instruction names, and how it refers to it.
pub open spec fn direct_target(insn: Arm64Insn, pc: u64) -> Option<(u64, XrefKind)> {
    match insn {
        Arm64Insn::Bl(w) => Some((wrap64(pc + 4 * field_imm26(w)), XrefKind::Call)),
        Arm64Insn::B(w) => Some((wrap64(pc + 4 * field_imm26(w)), XrefKind::Jump)),
        Arm64Insn::BCond(w) => Some((wrap64(pc + 4 * field_imm19(w)), XrefKind::CondJump)),
        Arm64Insn::Cbz(w) => Some((wrap64(pc + 4 * field_imm19(w)), XrefKind::CondJump)),
        Arm64Insn::Cbnz(w) => Some((wrap64(pc + 4 * field_imm19(w)), XrefKind::CondJump)),
        Arm64Insn::Tbz(w) => Some((wrap64(pc + 4 * field_imm14(w)), XrefKind::CondJump)),
        Arm64Insn::Tbnz(w) => Some((wrap64(pc + 4 * field_imm14(w)), XrefKind::CondJump)),
        Arm64Insn::LdrLiteral(w) => Some((wrap64(pc + 4 * field_imm19(w)), XrefKind::DataRead)),
        _ => None,
    }
}

/// The reference of an instruction that names its target: the target is mapped,
/// that of a call as code.
pub open spec fn immediate_ref(insn: Arm64Insn, va: Va, spans: Seq<SegmentSpan>) -> Option<Xref> {
    match direct_target(insn, va.0) {
        Some((to, kind)) => if mapped_in(spans, to) && (kind == XrefKind::Call ==> exec_in(
            spans,
            to,
        )) {
            Some(
                Xref { from: va, to: Va(to), kind, confidence: Confidence::LinearImmediate },
            )
        } else {
            None
        },
        None => None,
    }
}

/// The references of the first `k` instructions that name their target.
pub open spec fn linear_refs(m: ScanModel, k: int) -> Seq<Xref>
    decreases k,
{
    if k <= 0 {
        Seq::empty()
    } else {
        linear_refs(m, k - 1) + one_or_none(
            immediate_ref(decoded(m.word(k - 1)), m.va(k - 1), m.spans),
        )
    }
}

/// The reference of an instruction that names its target.
#[inline]
fn immediate_xref(insn: Arm64Insn, va: Va, idx: &SegmentIndex) -> (r: Option<Xref>)
    requires
        idx.wf(),
    ensures
        r == immediate_ref(insn, va, idx@),
{
    let (to, kind) = match insn {
        Arm64Insn::Bl(_) => (insn.imm26_target(va.0), XrefKind::Call),
        Arm64Insn::B(_) => (insn.imm26_target(va.0), XrefKind::Jump),
        Arm64Insn::BCond(_) => (insn.imm19_target(va.0), XrefKind::CondJump),
        Arm64Insn::Cbz(_) | Arm64Insn::Cbnz(_) => (insn.cbz_target(va.0), XrefKind::CondJump),
        Arm64Insn::Tbz(_) | Arm64Insn::Tbnz(_) => (insn.imm14_target(va.0), XrefKind::CondJump),
        Arm64Insn::LdrLiteral(_) => (insn.ldr_literal_target(va.0), XrefKind::DataRead),
        _ => {
            return None;
        },
    };
    let target = Va(to);
    if !idx.contains(target) {
        return None;
    }
    if kind == XrefKind::Call && !idx.is_exec(target) {
        return None;
    }
    Some(Xref { from: va, to: target, kind, confidence: Confidence::LinearImmediate })
}

/// Reports the instructions that name their target.
///
/// A region whose address is not a multiple of four holds no instructions.
pub fn scan_linear(region: &ScanRegion<'_>, idx: &SegmentIndex) -> (r: Vec<Xref>)
    requires
        idx.wf(),
    ensures
        r@ == linear_refs(
            scan_model(*region, *idx),
            aligned_count(scan_model(*region, *idx)),
        ),
{
    let mut xrefs: Vec<Xref> = Vec::new();
    let data = region.data;
    let base = region.base_va;
    if base.0 % 4 != 0 {
        return xrefs;
    }
    let n: usize = data.len() / 4;
    let ghost m = scan_model(*region, *idx);
    let mut i: usize = 0;
    while i < n
        invariant
            idx.wf(),
            i <= n,
            n == data.len() / 4,
            m == (ScanModel { data: data@, base: base.0, spans: idx@ }),
            xrefs@ == linear_refs(m, i as int),
        decreases n - i,
    {
        let va = base + (i * 4) as u64;
        let insn = Arm64Insn::decode(read_u32_le(data, i * 4));
        match immediate_xref(insn, va, idx) {
            Some(x) => {
                xrefs.push(x);
            },
            None => {},
        }
        proof {
            assert(xrefs@ =~= linear_refs(m, i + 1));
        }
        i = i + 1;
    }
    xrefs
}

/// A general-purpose register, X0 to X30. Register 31 is SP or ZR and is never
/// tracked.
#[derive(Clone, Copy, Debug, PartialEq, Eq, Structural)]
pub struct Reg(pub u8);

/// The register in a five-bit field, if it is tracked.
pub open spec fn tracked_reg(raw: u8) -> Option<Reg> {
    if raw < 31 {
        Some(Reg(raw))
    } else {
        None
    }
}

impl Reg {
    pub open spec fn wf(self) -> bool {
        self.0 < 31
    }

    /// The register in a five-bit field; `None` for register 31.
    #[inline]
    pub fn new(raw: u8) -> (r: Option<Reg>)
        ensures
            r == tracked_reg(raw),
    {
        if raw < 31 {
            Some(Reg(raw))
        } else {
            None
        }
    }

    /// The destination register of an instruction.
    #[inline]
    pub fn from_rd(insn: Arm64Insn) -> (r: Option<Reg>)
        ensures
            r == tracked_reg(field_rd(insn.bits())),
    {
        Self::new(insn.rd())
    }

    /// The base register of an instruction.
    #[inline]
    pub fn from_rn(insn: Arm64Insn) -> (r: Option<Reg>)
        ensures
            r == tracked_reg(field_rn(insn.bits())),
    {
        Self::new(insn.rn())
    }

    /// Index into the register arrays.
    #[inline]
    pub fn idx(self) -> (r: usize)
        ensures
            r == self.0,
    {
        self.0 as usize
    }
}

/// How a register came by its address.
#[derive(Clone, Copy, Debug, PartialEq, Eq, Structural)]
pub enum RegSource {
    /// Computed by ADRP, ADR or ADD: it may be called or jumped to.
    Direct,
    /// Loaded from memory: it is data, never a branch target.
    Chain,
}

/// An address held in a register.
#[derive(Clone, Copy, Debug, PartialEq, Eq, Structural)]
pub struct AdrpRegState {
    /// Index of the instruction that set it.
    pub insn_index: usize,
    /// Address of the instruction that references to it start from.
    pub origin_va: Va,
    /// The address.
    pub value: Va,
    pub source: RegSource,
}

/// One more than the immediate of a comparison: how many table indices it lets
/// through.
#[derive(Clone, Copy, Debug, PartialEq, Eq, Structural)]
pub struct CmpBound(pub u32);

/// The bound that a register was compared with.
#[derive(Clone, Copy, Debug, PartialEq, Eq, Structural)]
pub struct CmpRegState {
    /// Index of the comparison.
    pub insn_index: usize,
    pub bound: CmpBound,
}

/// How many table entries a bound lets through.
pub open spec fn table_limit(b: CmpBound) -> int {
    if b.0 < MAX_JUMP_TABLE_ENTRIES {
        b.0 as int
    } else {
        MAX_JUMP_TABLE_ENTRIES as int
    }
}

impl CmpBound {
    /// How many table entries the bound lets through.
    pub fn table_limit(self) -> (r: usize)
        ensures
            r == table_limit(self),
    {
        if (self.0 as usize) < MAX_JUMP_TABLE_ENTRIES {
            self.0 as usize
        } else {
            MAX_JUMP_TABLE_ENTRIES
        }
    }
}

/// What is known of each register.
pub struct ScanState {
    adrp: [Option<AdrpRegState>; 32],
    bound: [Option<CmpRegState>; 32],
}

/// What a [`ScanState`] says.
#[verifier::ext_equal]
pub struct ScanStateView {
    /// The address in each register.
    pub adrp: Seq<Option<AdrpRegState>>,
    /// The bound of each register.
    pub bound: Seq<Option<CmpRegState>>,
}

impl View for ScanState {
    type V = ScanStateView;

    closed spec fn view(&self) -> ScanStateView {
        ScanStateView { adrp: self.adrp@, bound: self.bound@ }
    }
}

/// Nothing known of any register.
pub open spec fn blank_state() -> ScanStateView {
    ScanStateView { adrp: Seq::new(32, |i: int| None), bound: Seq::new(32, |i: int| None) }
}

impl ScanStateView {
    /// Whether there is an entry for each register, none of an instruction at or
    /// behind index `i`.
    pub open spec fn before(self, i: int) -> bool {
        &&& self.adrp.len() == 32
        &&& self.bound.len() == 32
        &&& forall|r: int|
            0 <= r < 32 ==> match #[trigger] self.adrp[r] {
                Some(st) => st.insn_index < i,
                None => true,
            }
        &&& forall|r: int|
            0 <= r < 32 ==> match #[trigger] self.bound[r] {
                Some(st) => st.insn_index < i,
                None => true,
            }
    }

    /// The address in a register.
    pub open spec fn addr(self, r: Reg) -> Option<AdrpRegState> {
        self.adrp[r.0 as int]
    }

    /// A register set to an address; its bound is gone.
    pub open spec fn set_addr(self, r: Reg, st: AdrpRegState) -> ScanStateView {
        ScanStateView {
            adrp: self.adrp.update(r.0 as int, Some(st)),
            bound: self.bound.update(r.0 as int, None),
        }
    }

    /// A register whose address is no longer known.
    pub open spec fn drop_addr(self, r: Reg) -> ScanStateView {
        ScanStateView { adrp: self.adrp.update(r.0 as int, None), bound: self.bound }
    }

    /// A register of which nothing is known.
    pub open spec fn clear_reg(self, r: Reg) -> ScanStateView {
        ScanStateView {
            adrp: self.adrp.update(r.0 as int, None),
            bound: self.bound.update(r.0 as int, None),
        }
    }

    /// A register with a bound.
    pub open spec fn set_bound(self, r: Reg, st: CmpRegState) -> ScanStateView {
        ScanStateView { adrp: self.adrp, bound: self.bound.update(r.0 as int, Some(st)) }
    }

    /// The bound of a register, if it was set at most `window` instructions ago.
    pub open spec fn recent_bound(self, r: Reg, now: int, window: int) -> Option<CmpBound> {
        match self.bound[r.0 as int] {
            Some(st) => if now - st.insn_index <= window {
                Some(st.bound)
            } else {
                None
            },
            None => None,
        }
    }
}

impl ScanState {
    pub fn new() -> (r: ScanState)
        ensures
            r@ == blank_state(),
    {
        let s = ScanState { adrp: [None; 32], bound: [None; 32] };
        assert(s@ =~= blank_state());
        s
    }

    #[inline]
    pub fn get_adrp(&self, r: Reg) -> (st: Option<AdrpRegState>)
        requires
            r.wf(),
        ensures
            st == self@.addr(r),
    {
        self.adrp[r.idx()]
    }

    #[inline]
    pub fn set_adrp(&mut self, r: Reg, st: AdrpRegState)
        requires
            r.wf(),
        ensures
            final(self)@ == old(self)@.set_addr(r, st),
    {
        let i: usize = r.idx();
        self.adrp[i] = Some(st);
        self.bound[i] = None;
    }

    #[inline]
    pub fn clear(&mut self, r: Reg)
        requires
            r.wf(),
        ensures
            final(self)@ == old(self)@.clear_reg(r),
    {
        let i: usize = r.idx();
        self.adrp[i] = None;
        self.bound[i] = None;
    }

    #[inline]
    pub fn clear_adrp(&mut self, r: Reg)
        requires
            r.wf(),
        ensures
            final(self)@ == old(self)@.drop_addr(r),
    {
        let i: usize = r.idx();
        self.adrp[i] = None;
    }

    #[inline]
    pub fn set_bound(&mut self, r: Reg, insn_index: usize, bound: CmpBound)
        requires
            r.wf(),
        ensures
            final(self)@ == old(self)@.set_bound(r, CmpRegState { insn_index, bound }),
    {
        let i: usize = r.idx();
        self.bound[i] = Some(CmpRegState { insn_index, bound });
    }

    /// The bound of a register, if it was set at most `window` instructions ago.
    #[inline]
    pub fn get_bound(&self, r: Reg, current_index: usize, window: usize) -> (b: Option<CmpBound>)
        requires
            r.wf(),
            self@.before(current_index as int),
        ensures
            b == self@.recent_bound(r, current_index as int, window as int),
    {
        match self.bound[r.idx()] {
            Some(st) => {
                assert(self@.bound[r.0 as int] == Some(st));
                if current_index - st.insn_index <= window {
                    Some(st.bound)
                } else {
                    None
                }
            },
            None => None,
        }
    }
}

/// The address in a register, if it was set at most [`ADRP_WINDOW`] instructions ago.
pub open spec fn usable(st: ScanStateView, r: Option<Reg>, i: int) -> Option<AdrpRegState> {
    match r {
        Some(r) => match st.addr(r) {
            Some(a) => if i - a.insn_index <= ADRP_WINDOW {
                Some(a)
            } else {
                None
            },
            None => None,
        },
        None => None,
    }
}

/// The address that a load or store reaches from an address in its base register.
pub open spec fn access_addr(base: AdrpRegState, w: u32) -> u64 {
    wrap64(
        base.value.0 + field_imm12(w) * access_bytes(bit_field(w, 0x4000_0000, 4)),
    )
}

/// The immediate of ADD.
pub open spec fn add_amount(w: u32) -> int {
    if bit_field(w, 0x40_0000, 4) == 1 {
        field_imm12(w) * 4096
    } else {
        field_imm12(w)
    }
}

/// The pointer that an eight-byte load gets from data, if it is one to a mapped
/// address.
pub open spec fn followed_pointer(
    m: ScanModel,
    image: Seq<DataSpanView>,
    w: u32,
    addr: u64,
) -> Option<u64> {
    if bit_field(w, 0x4000_0000, 4) == 3 && !exec_in(m.spans, addr) {
        match u64_at_nonexec(image, addr) {
            Some(v) => if v != 0 && mapped_in(m.spans, v) {
                Some(v)
            } else {
                None
            },
            None => None,
        }
    } else {
        None
    }
}

/// Whether data may be written at an address.
pub open spec fn writable_data(spans: Seq<SegmentSpan>, va: u64) -> bool {
    match flags_in(spans, va) {
        Some(f) => f.write && !f.execute,
        None => false,
    }
}

/// What an instruction leaves known of the registers.
#[verifier::opaque]
pub open spec fn next_state(
    m: ScanModel,
    image: Seq<DataSpanView>,
    st: ScanStateView,
    i: int,
) -> ScanStateView {
    let w = m.word(i);
    let va = m.va(i);
    let rd = tracked_reg(field_rd(w));
    let rn = tracked_reg(field_rn(w));
    match decoded(w) {
        Arm64Insn::Adrp(_) => match rd {
            Some(rd) => st.set_addr(
                rd,
                AdrpRegState {
                    insn_index: i as usize,
                    origin_va: va,
                    value: Va(wrap64(va.0 - va.0 % 4096 + 4096 * field_imm21(w))),
                    source: RegSource::Direct,
                },
            ),
            None => st,
        },
        Arm64Insn::Adr(_) => match rd {
            Some(rd) => st.set_addr(
                rd,
                AdrpRegState {
                    insn_index: i as usize,
                    origin_va: va,
                    value: Va(wrap64(va.0 + field_imm21(w))),
                    source: RegSource::Direct,
                },
            ),
            None => st,
        },
        Arm64Insn::AddImm(_) => match usable(st, rn, i) {
            Some(a) => {
                let set = match rd {
                    Some(rd) => st.set_addr(
                        rd,
                        AdrpRegState {
                            insn_index: i as usize,
                            origin_va: a.origin_va,
                            value: Va(wrap64(a.value.0 + add_amount(w))),
                            source: RegSource::Direct,
                        },
                    ),
                    None => st,
                };
                if rd == rn {
                    set
                } else {
                    set.drop_addr(rn.unwrap())
                }
            },
            None => st,
        },
        Arm64Insn::Ldr(_) => match rd {
            Some(rt) => {
                let dropped = st.drop_addr(rt);
                match usable(st, rn, i) {
                    Some(a) => match followed_pointer(m, image, w, access_addr(a, w)) {
                        Some(v) => dropped.set_addr(
                            rt,
                            AdrpRegState {
                                insn_index: i as usize,
                                origin_va: va,
                                value: Va(v),
                                source: RegSource::Chain,
                            },
                        ),
                        None => dropped,
                    },
                    None => dropped,
                }
            },
            None => st,
        },
        Arm64Insn::Str(_) => st,
        Arm64Insn::Blr(_) => st,
        Arm64Insn::Br(_) => st,
        Arm64Insn::Other(_) => match rd {
            Some(rd) => st.clear_reg(rd),
            None => match compared(w) {
                Some((r, bound)) => st.set_bound(
                    r,
                    CmpRegState { insn_index: i as usize, bound },
                ),
                None => st,
            },
        },
        _ => match rd {
            Some(rd) => st.clear_reg(rd),
            None => st,
        },
    }
}

/// A reference found by pairing instructions.
pub open spec fn pair_ref(from: Va, to: u64, kind: XrefKind) -> Xref {
    Xref { from, to: Va(to), kind, confidence: Confidence::PairResolved }
}

/// The references of an instruction that come of what is known of the registers.
#[verifier::opaque]
pub open spec fn pair_refs(
    m: ScanModel,
    image: Seq<DataSpanView>,
    st: ScanStateView,
    i: int,
) -> Seq<Xref> {
    let w = m.word(i);
    let va = m.va(i);
    let base = usable(st, tracked_reg(field_rn(w)), i);
    match (decoded(w), base) {
        (Arm64Insn::AddImm(_), Some(a)) => {
            let to = wrap64(a.value.0 + add_amount(w));
            if mapped_in(m.spans, to) {
                seq![pair_ref(a.origin_va, to, XrefKind::DataPointer)]
            } else {
                Seq::empty()
            }
        },
        (Arm64Insn::Ldr(_), Some(a)) => {
            let addr = access_addr(a, w);
            let read = if mapped_in(m.spans, addr) {
                seq![
                    pair_ref(a.origin_va, addr, XrefKind::DataPointer),
                    pair_ref(va, addr, XrefKind::DataRead),
                ]
            } else {
                Seq::empty()
            };
            match followed_pointer(m, image, w, addr) {
                Some(v) => read.push(pair_ref(va, v, XrefKind::DataPointer)),
                None => read,
            }
        },
        (Arm64Insn::Str(_), Some(a)) => {
            let addr = access_addr(a, w);
            if writable_data(m.spans, addr) {
                seq![pair_ref(va, addr, XrefKind::DataWrite)]
            } else {
                Seq::empty()
            }
        },
        (Arm64Insn::Blr(_), Some(a)) => if a.source == RegSource::Direct && exec_in(
            m.spans,
            a.value.0,
        ) {
            seq![pair_ref(va, a.value.0, XrefKind::Call)]
        } else {
            Seq::empty()
        },
        (Arm64Insn::Br(_), Some(a)) => if a.source == RegSource::Direct && exec_in(
            m.spans,
            a.value.0,
        ) {
            seq![pair_ref(va, a.value.0, XrefKind::Jump)]
        } else {
            Seq::empty()
        },
        _ => Seq::empty(),
    }
}

/// The references of the `i`-th instruction.
pub open spec fn step_refs(
    m: ScanModel,
    image: Seq<DataSpanView>,
    st: ScanStateView,
    i: int,
) -> Seq<Xref> {
    one_or_none(immediate_ref(decoded(m.word(i)), m.va(i), m.spans)) + pair_refs(m, image, st, i)
        + (if decoded(m.word(i)) is Br {
        table_refs(m, image, st, i)
    } else {
        Seq::empty()
    })
}

/// What is known of the registers before the `i`-th instruction.
pub open spec fn state_before(m: ScanModel, image: Seq<DataSpanView>, i: int) -> ScanStateView
    decreases i,
{
    if i <= 0 {
        blank_state()
    } else {
        next_state(m, image, state_before(m, image, i - 1), i - 1)
    }
}

/// The references of the first `k` instructions.
pub open spec fn paired_refs(m: ScanModel, image: Seq<DataSpanView>, k: int) -> Seq<Xref>
    decreases k,
{
    if k <= 0 {
        Seq::empty()
    } else {
        paired_refs(m, image, k - 1) + step_refs(m, image, state_before(m, image, k - 1), k - 1)
    }
}

/// What a step leaves behind holds nothing of later instructions.
proof fn lemma_next_state_before(m: ScanModel, image: Seq<DataSpanView>, st: ScanStateView, i: int)
    requires
        st.before(i),
        0 <= i <= usize::MAX,
    ensures
        next_state(m, image, st, i).before(i + 1),
{
    reveal(compared);
    reveal(next_state);
}

pub proof fn lemma_state_before(m: ScanModel, image: Seq<DataSpanView>, i: int)
    requires
        0 <= i <= usize::MAX,
    ensures
        state_before(m, image, i).before(i),
    decreases i,
{
    if i > 0 {
        lemma_state_before(m, image, i - 1);
        lemma_next_state_before(m, image, state_before(m, image, i - 1), i - 1);
    }
}

/// The address in a register, if it was set at most [`ADRP_WINDOW`] instructions ago.
#[inline]
fn usable_addr(state: &ScanState, r: Option<Reg>, i: usize) -> (a: Option<AdrpRegState>)
    requires
        state@.before(i as int),
        r matches Some(r) ==> r.wf(),
    ensures
        a == usable(state@, r, i as int),
{
    match r {
        Some(r) => match state.get_adrp(r) {
            Some(a) => {
                assert(state@.adrp[r.0 as int] == Some(a));
                if i - a.insn_index <= ADRP_WINDOW {
                    Some(a)
                } else {
                    None
                }
            },
            None => None,
        },
        None => None,
    }
}

/// Handles ADD: it completes a page address.
fn step_add(
    insn: Arm64Insn,
    i: usize,
    idx: &SegmentIndex,
    state: &mut ScanState,
    xrefs: &mut Vec<Xref>,
    Ghost(m): Ghost<ScanModel>,
    Ghost(image): Ghost<Seq<DataSpanView>>,
)
    requires
        idx.wf(),
        m.spans == idx@,
        old(state)@.before(i as int),
        decoded(m.word(i as int)) == insn,
        insn is AddImm,
    ensures
        final(state)@ == next_state(m, image, old(state)@, i as int),
        final(xrefs)@ == old(xrefs)@ + pair_refs(m, image, old(state)@, i as int),
{
    proof {
        reveal(next_state);
        reveal(pair_refs);
    }
    let rd = Reg::from_rd(insn);
    let rn = Reg::from_rn(insn);
    match usable_addr(state, rn, i) {
        Some(st) => {
            let target = st.value + insn.add_imm();
            if idx.contains(target) {
                xrefs.push(
                    Xref {
                        from: st.origin_va,
                        to: target,
                        kind: XrefKind::DataPointer,
                        confidence: Confidence::PairResolved,
                    },
                );
            }
            match rd {
                Some(rd) => {
                    state.set_adrp(
                        rd,
                        AdrpRegState {
                            insn_index: i,
                            origin_va: st.origin_va,
                            value: target,
                            source: RegSource::Direct,
                        },
                    );
                },
                None => {},
            }
            match rn {
                Some(rn) => {
                    let same = match rd {
                        Some(rd) => rd == rn,
                        None => false,
                    };
                    if !same {
                        state.clear_adrp(rn);
                    }
                },
                None => {},
            }
        },
        None => {},
    }
    assert(xrefs@ =~= old(xrefs)@ + pair_refs(m, image, old(state)@, i as int));
}

/// Handles LDR: it reads from an address and may load a pointer to follow.
///
/// The base register is read before the destination is cleared, since they may be
/// the same.
fn step_load(
    insn: Arm64Insn,
    va: Va,
    i: usize,
    idx: &SegmentIndex,
    data_idx: &SegmentDataIndex<'_>,
    state: &mut ScanState,
    xrefs: &mut Vec<Xref>,
    Ghost(m): Ghost<ScanModel>,
)
    requires
        idx.wf(),
        data_idx.wf(),
        m.spans == idx@,
        old(state)@.before(i as int),
        va == m.va(i as int),
        decoded(m.word(i as int)) == insn,
        insn is Ldr,
    ensures
        final(state)@ == next_state(m, data_idx@, old(state)@, i as int),
        final(xrefs)@ == old(xrefs)@ + pair_refs(m, data_idx@, old(state)@, i as int),
{
    proof {
        reveal(next_state);
        reveal(pair_refs);
    }
    let rt = Reg::from_rd(insn);
    let rn = Reg::from_rn(insn);
    let base_state = usable_addr(state, rn, i);
    match rt {
        Some(rt) => {
            state.clear_adrp(rt);
        },
        None => {},
    }
    match base_state {
        Some(st) => {
            let addr = st.value + insn.ldr_str_offset();
            if idx.contains(addr) {
                xrefs.push(
                    Xref {
                        from: st.origin_va,
                        to: addr,
                        kind: XrefKind::DataPointer,
                        confidence: Confidence::PairResolved,
                    },
                );
                xrefs.push(
                    Xref {
                        from: va,
                        to: addr,
                        kind: XrefKind::DataRead,
                        confidence: Confidence::PairResolved,
                    },
                );
            }
            let stored: Option<u64> = if insn.ldr_str_size() == 3 && !idx.is_exec(addr) {
                match data_idx.read_u64_at_nonexec(addr) {
                    Some(v) => if v != 0 && idx.contains(Va(v)) {
                        Some(v)
                    } else {
                        None
                    },
                    None => None,
                }
            } else {
                None
            };
            assert(stored == followed_pointer(m, data_idx@, insn.bits(), addr.0));
            match stored {
                Some(v) => {
                    xrefs.push(
                        Xref {
                            from: va,
                            to: Va(v),
                            kind: XrefKind::DataPointer,
                            confidence: Confidence::PairResolved,
                        },
                    );
                    match rt {
                        Some(rt) => {
                            state.set_adrp(
                                rt,
                                AdrpRegState {
                                    insn_index: i,
                                    origin_va: va,
                                    value: Va(v),
                                    source: RegSource::Chain,
                                },
                            );
                        },
                        None => {},
                    }
                },
                None => {},
            }
        },
        None => {},
    }
    assert(xrefs@ =~= old(xrefs)@ + pair_refs(m, data_idx@, old(state)@, i as int));
}

/// Handles STR, BLR and BR: they use an address in their base register.
fn step_use(
    insn: Arm64Insn,
    va: Va,
    i: usize,
    idx: &SegmentIndex,
    state: &ScanState,
    xrefs: &mut Vec<Xref>,
    Ghost(m): Ghost<ScanModel>,
    Ghost(image): Ghost<Seq<DataSpanView>>,
)
    requires
        idx.wf(),
        m.spans == idx@,
        state@.before(i as int),
        va == m.va(i as int),
        decoded(m.word(i as int)) == insn,
        insn is Str || insn is Blr || insn is Br,
    ensures
        state@ == next_state(m, image, state@, i as int),
        final(xrefs)@ == old(xrefs)@ + pair_refs(m, image, state@, i as int),
{
    proof {
        reveal(next_state);
        reveal(pair_refs);
    }
    match usable_addr(state, Reg::from_rn(insn), i) {
        Some(st) => {
            match insn {
                Arm64Insn::Str(_) => {
                    let addr = st.value + insn.ldr_str_offset();
                    let writable = match idx.flags_at(addr) {
                        Some(f) => f.write && !f.execute,
                        None => false,
                    };
                    if writable {
                        xrefs.push(
                            Xref {
                                from: va,
                                to: addr,
                                kind: XrefKind::DataWrite,
                                confidence: Confidence::PairResolved,
                            },
                        );
                    }
                },
                _ => {
                    if st.source == RegSource::Direct && idx.is_exec(st.value) {
                        let kind = if matches!(insn, Arm64Insn::Blr(_)) {
                            XrefKind::Call
                        } else {
                            XrefKind::Jump
                        };
                        xrefs.push(
                            Xref {
                                from: va,
                                to: st.value,
                                kind,
                                confidence: Confidence::PairResolved,
                            },
                        );
                    }
                },
            }
        },
        None => {},
    }
    assert(xrefs@ =~= old(xrefs)@ + pair_refs(m, image, state@, i as int));
}

/// Handles ADRP and ADR: they set a register to an address. No reference starts
/// here, only from what is made of the address.
fn step_address(
    insn: Arm64Insn,
    va: Va,
    i: usize,
    state: &mut ScanState,
    Ghost(m): Ghost<ScanModel>,
    Ghost(image): Ghost<Seq<DataSpanView>>,
)
    requires
        va == m.va(i as int),
        decoded(m.word(i as int)) == insn,
        insn is Adrp || insn is Adr,
    ensures
        final(state)@ == next_state(m, image, old(state)@, i as int),
        pair_refs(m, image, old(state)@, i as int) == Seq::<Xref>::empty(),
{
    proof {
        reveal(next_state);
        reveal(pair_refs);
    }
    let value: u64 = match insn {
        Arm64Insn::Adrp(_) => insn.adrp_page(va.0),
        _ => insn.adr_target(va.0),
    };
    match Reg::from_rd(insn) {
        Some(rd) => {
            state.set_adrp(
                rd,
                AdrpRegState {
                    insn_index: i,
                    origin_va: va,
                    value: Va(value),
                    source: RegSource::Direct,
                },
            );
        },
        None => {},
    }
}

/// Handles a word of no family, and the branches: the destination register is
/// overwritten, and a comparison sets a bound.
fn step_other(
    word: u32,
    i: usize,
    state: &mut ScanState,
    Ghost(m): Ghost<ScanModel>,
    Ghost(image): Ghost<Seq<DataSpanView>>,
)
    requires
        m.word(i as int) == word,
        !(decoded(word) is Adrp || decoded(word) is Adr || decoded(word) is AddImm || decoded(
            word,
        ) is Ldr || decoded(word) is Str || decoded(word) is Blr || decoded(word) is Br),
    ensures
        final(state)@ == next_state(m, image, old(state)@, i as int),
        pair_refs(m, image, old(state)@, i as int) == Seq::<Xref>::empty(),
{
    proof {
        reveal(next_state);
        reveal(pair_refs);
        reveal(compared);
    }
    match Reg::new((word % 0x20) as u8) {
        Some(rd) => {
            state.clear(rd);
        },
        None => {
            if !Arm64Insn::is_tracked(word) {
                match decode_compare(word) {
                    Some((rn, bound)) => {
                        state.set_bound(rn, i, bound);
                    },
                    None => {},
                }
            }
        },
    }
}

/// Reports what the linear scan reports, and what pairs of instructions and switch
/// tables refer to.
#[verifier::rlimit(30)]
pub fn scan_adrp(
    region: &ScanRegion<'_>,
    idx: &SegmentIndex,
    data_idx: &SegmentDataIndex<'_>,
) -> (r: Vec<Xref>)
    requires
        idx.wf(),
        data_idx.wf(),
    ensures
        r@ == paired_refs(
            scan_model(*region, *idx),
            data_idx@,
            aligned_count(scan_model(*region, *idx)),
        ),
{
    let mut xrefs: Vec<Xref> = Vec::new();
    let data = region.data;
    let base = region.base_va;
    if base.0 % 4 != 0 {
        return xrefs;
    }
    let n: usize = data.len() / 4;
    let ghost m = scan_model(*region, *idx);
    let ghost image = data_idx@;
    let mut state = ScanState::new();
    let mut i: usize = 0;
    while i < n
        invariant
            idx.wf(),
            data_idx.wf(),
            i <= n,
            n == data.len() / 4,
            m == (ScanModel { data: data@, base: base.0, spans: idx@ }),
            image == data_idx@,
            state@ == state_before(m, image, i as int),
            xrefs@ == paired_refs(m, image, i as int),
        decreases n - i,
    {
        let va = base + (i * 4) as u64;
        let word: u32 = read_u32_le(data, i * 4);
        let ghost st = state@;
        let ghost done = xrefs@;
        proof {
            lemma_state_before(m, image, i as int);
            assert(word == m.word(i as int));
            assert(va == m.va(i as int));
        }
        // Most words belong to no family: only the destination register matters.
        if !Arm64Insn::is_tracked(word) {
            step_other(word, i, &mut state, Ghost(m), Ghost(image));
            assert(xrefs@ =~= done + step_refs(m, image, st, i as int));
            i = i + 1;
            continue ;
        }
        let insn = Arm64Insn::decode(word);
        match immediate_xref(insn, va, idx) {
            Some(x) => {
                xrefs.push(x);
            },
            None => {},
        }
        let ghost direct = xrefs@;
        assert(direct =~= done + one_or_none(immediate_ref(insn, va, m.spans)));
        match insn {
            Arm64Insn::Adrp(_) | Arm64Insn::Adr(_) => {
                step_address(insn, va, i, &mut state, Ghost(m), Ghost(image));
            },
            Arm64Insn::AddImm(_) => {
                step_add(insn, i, idx, &mut state, &mut xrefs, Ghost(m), Ghost(image));
            },
            Arm64Insn::Ldr(_) => {
                step_load(insn, va, i, idx, data_idx, &mut state, &mut xrefs, Ghost(m));
            },
            Arm64Insn::Str(_) | Arm64Insn::Blr(_) => {
                step_use(insn, va, i, idx, &state, &mut xrefs, Ghost(m), Ghost(image));
            },
            Arm64Insn::Br(_) => {
                step_use(insn, va, i, idx, &state, &mut xrefs, Ghost(m), Ghost(image));
                let ctx = JumpTableCtx { data, base, state: &state, data_idx, seg_idx: idx };
                recover_arm64_jump_table(va, i, &ctx, &mut xrefs);
            },
            _ => {
                step_other(word, i, &mut state, Ghost(m), Ghost(image));
            },
        }
        assert(state@ == next_state(m, image, st, i as int));
        assert(xrefs@ =~= done + step_refs(m, image, st, i as int));
        i = i + 1;
    }
    xrefs
}

/// The paired scan reports everything that the linear scan reports.
pub proof fn law_paired_has_linear(m: ScanModel, image: Seq<DataSpanView>, k: int)
    ensures
        forall|x: Xref|
            linear_refs(m, k).contains(x) ==> #[trigger] paired_refs(m, image, k).contains(x),
    decreases k,
{
    if k > 0 {
        law_paired_has_linear(m, image, k - 1);
        let one = one_or_none(immediate_ref(decoded(m.word(k - 1)), m.va(k - 1), m.spans));
        let st = state_before(m, image, k - 1);
        let step = step_refs(m, image, st, k - 1);
        assert forall|x: Xref| linear_refs(m, k).contains(x) implies #[trigger] paired_refs(
            m,
            image,
            k,
        ).contains(x) by {
            let before = linear_refs(m, k - 1);
            let j = choose|j: int| 0 <= j < linear_refs(m, k).len() && linear_refs(m, k)[j] == x;
            let all = paired_refs(m, image, k);
            let prior = paired_refs(m, image, k - 1);
            if j < before.len() {
                assert(before[j] == x);
                assert(before.contains(x));
                assert(prior.contains(x));
                let q = choose|q: int| 0 <= q < prior.len() && prior[q] == x;
                assert(all[q] == x);
            } else {
                assert(one[j - before.len()] == x);
                assert(step[j - before.len()] == x);
                assert(all[prior.len() + j - before.len()] == x);
            }
        }
    }
}

/// What every reference keeps to: a mapped target, and code as the target of a
/// call.
pub open spec fn sound_target(m: ScanModel, x: Xref) -> bool {
    mapped_in(m.spans, x.to.0) && (x.kind == XrefKind::Call ==> exec_in(m.spans, x.to.0)) && (
    x.kind == XrefKind::DataWrite ==> writable_data(m.spans, x.to.0))
}

/// Whether an address is that of one of the first `k` instructions.
pub open spec fn instruction_at(m: ScanModel, k: int, va: Va) -> bool {
    exists|j: int| 0 <= j < k && va == #[trigger] m.va(j)
}

/// Whether the references from registers would start from one of the first `k`
/// instructions.
pub open spec fn origins_within(m: ScanModel, st: ScanStateView, k: int) -> bool {
    forall|r: int|
        0 <= r < 32 ==> match #[trigger] st.adrp[r] {
            Some(a) => instruction_at(m, k, a.origin_va),
            None => true,
        }
}

proof fn lemma_case_refs(
    m: ScanModel,
    image: Seq<DataSpanView>,
    p: JumpTablePattern,
    from: Va,
    k: int,
    limit: int,
)
    ensures
        forall|j: int|
            0 <= j < case_refs(m, image, p, from, k, limit).len() ==> sound_target(
                m,
                #[trigger] case_refs(m, image, p, from, k, limit)[j],
            ) && case_refs(m, image, p, from, k, limit)[j].from == from,
    decreases limit - k,
{
    if k < limit {
        lemma_case_refs(m, image, p, from, k + 1, limit);
    }
}

/// An address of the first instructions is one of more.
proof fn lemma_instruction_later(m: ScanModel, i: int)
    requires
        0 <= i,
    ensures
        forall|va: Va| instruction_at(m, i, va) ==> #[trigger] instruction_at(m, i + 1, va),
        instruction_at(m, i + 1, m.va(i)),
{
    assert forall|va: Va| instruction_at(m, i, va) implies #[trigger] instruction_at(
        m,
        i + 1,
        va,
    ) by {
        let j = choose|j: int| 0 <= j < i && va == #[trigger] m.va(j);
        assert(va == m.va(j));
    }
    assert(m.va(i) == m.va(i));
}

/// One step keeps known origins.
proof fn lemma_step_origins(m: ScanModel, image: Seq<DataSpanView>, st: ScanStateView, i: int)
    requires
        0 <= i <= usize::MAX,
        st.before(i),
        origins_within(m, st, i),
    ensures
        origins_within(m, next_state(m, image, st, i), i + 1),
{
    lemma_instruction_later(m, i);
    let rn = tracked_reg(field_rn(m.word(i)));
    match usable(st, rn, i) {
        Some(a) => {
            assert(st.adrp[rn.unwrap().0 as int] == Some(a));
            assert(instruction_at(m, i + 1, a.origin_va));
        },
        None => {},
    }
    let next = next_state(m, image, st, i);
    assert forall|r: int| 0 <= r < 32 implies match #[trigger] next.adrp[r] {
        Some(a) => instruction_at(m, i + 1, a.origin_va),
        None => true,
    } by {
        reveal(next_state);
        reveal(compared);
        assert(match st.adrp[r] {
            Some(a) => instruction_at(m, i + 1, a.origin_va),
            None => true,
        });
    }
}

/// What an instruction refers to by itself is sound.
proof fn lemma_immediate_sound(m: ScanModel, i: int)
    ensures
        match immediate_ref(decoded(m.word(i)), m.va(i), m.spans) {
            Some(x) => sound_target(m, x) && x.from == m.va(i),
            None => true,
        },
{
}

/// What pairs of instructions refer to is sound.
proof fn lemma_pair_sound(m: ScanModel, image: Seq<DataSpanView>, st: ScanStateView, i: int)
    requires
        0 <= i <= usize::MAX,
        origins_within(m, st, i),
    ensures
        forall|j: int|
            0 <= j < pair_refs(m, image, st, i).len() ==> sound_target(
                m,
                #[trigger] pair_refs(m, image, st, i)[j],
            ) && instruction_at(m, i + 1, pair_refs(m, image, st, i)[j].from),
{
    lemma_instruction_later(m, i);
    let rn = tracked_reg(field_rn(m.word(i)));
    match usable(st, rn, i) {
        Some(a) => {
            assert(st.adrp[rn.unwrap().0 as int] == Some(a));
            assert(instruction_at(m, i + 1, a.origin_va));
        },
        None => {},
    }
    reveal(pair_refs);
}

/// What a jump table refers to is sound.
proof fn lemma_table_sound(m: ScanModel, image: Seq<DataSpanView>, st: ScanStateView, i: int)
    ensures
        forall|j: int|
            0 <= j < table_refs(m, image, st, i).len() ==> sound_target(
                m,
                #[trigger] table_refs(m, image, st, i)[j],
            ) && table_refs(m, image, st, i)[j].from == m.va(i),
{
    match table_pattern(m, st, i) {
        Some(p) => {
            lemma_case_refs(
                m,
                image,
                p,
                m.va(i),
                0,
                match p.near_bound {
                    Some(b) => table_limit(b),
                    None => match st.recent_bound(p.index_reg, i, JUMP_TABLE_LOOKBACK as int) {
                        Some(b) => table_limit(b),
                        None => 0,
                    },
                },
            );
        },
        None => {},
    }
}

/// One step keeps to sound targets.
proof fn lemma_step_sound(m: ScanModel, image: Seq<DataSpanView>, st: ScanStateView, i: int)
    requires
        0 <= i <= usize::MAX,
        origins_within(m, st, i),
    ensures
        forall|j: int|
            0 <= j < step_refs(m, image, st, i).len() ==> sound_target(
                m,
                #[trigger] step_refs(m, image, st, i)[j],
            ) && instruction_at(m, i + 1, step_refs(m, image, st, i)[j].from),
{
    let found = immediate_ref(decoded(m.word(i)), m.va(i), m.spans);
    let one = one_or_none(found);
    let pair = pair_refs(m, image, st, i);
    let table = table_refs(m, image, st, i);
    let step = step_refs(m, image, st, i);
    lemma_instruction_later(m, i);
    lemma_immediate_sound(m, i);
    lemma_pair_sound(m, image, st, i);
    lemma_table_sound(m, image, st, i);
    assert forall|j: int| 0 <= j < step.len() implies sound_target(m, #[trigger] step[j])
        && instruction_at(m, i + 1, step[j].from) by {
        if j < one.len() {
            assert(step[j] == found.unwrap());
        } else if j < one.len() + pair.len() {
            assert(step[j] == pair[j - one.len()]);
        } else {
            assert(step[j] == table[j - one.len() - pair.len()]);
        }
    }
}

/// Every reference of the paired scan starts at an instruction of the region and
/// ends at a mapped address: at code for a call, at writable data for a write.
pub proof fn law_paired_sound(m: ScanModel, image: Seq<DataSpanView>, k: int)
    requires
        0 <= k <= usize::MAX,
    ensures
        origins_within(m, state_before(m, image, k), k),
        forall|j: int|
            0 <= j < paired_refs(m, image, k).len() ==> sound_target(
                m,
                #[trigger] paired_refs(m, image, k)[j],
            ) && instruction_at(m, k, paired_refs(m, image, k)[j].from),
    decreases k,
{
    if k > 0 {
        law_paired_sound(m, image, k - 1);
        let st = state_before(m, image, k - 1);
        lemma_state_before(m, image, k - 1);
        lemma_step_origins(m, image, st, k - 1);
        lemma_step_sound(m, image, st, k - 1);
        let prior = paired_refs(m, image, k - 1);
        let all = paired_refs(m, image, k);
        assert forall|j: int| 0 <= j < all.len() implies sound_target(m, #[trigger] all[j])
            && instruction_at(m, k, all[j].from) by {
            if j < prior.len() {
                assert(all[j] == prior[j]);
                let q = choose|q: int| 0 <= q < k - 1 && all[j].from == #[trigger] m.va(q);
                assert(all[j].from == m.va(q));
            } else {
                assert(all[j] == step_refs(m, image, st, k - 1)[j - prior.len()]);
            }
        }
    }
}

/// Every reference of the linear scan starts at an instruction of the region and
/// ends at a mapped address, that of a call at code.
pub proof fn law_linear_sound(m: ScanModel, k: int)
    requires
        0 <= k <= usize::MAX,
    ensures
        forall|j: int|
            0 <= j < linear_refs(m, k).len() ==> sound_target(m, #[trigger] linear_refs(m, k)[j])
                && instruction_at(m, k, linear_refs(m, k)[j].from),
{
    let image = Seq::<DataSpanView>::empty();
    law_paired_has_linear(m, image, k);
    law_paired_sound(m, image, k);
    assert forall|j: int| 0 <= j < linear_refs(m, k).len() implies sound_target(
        m,
        #[trigger] linear_refs(m, k)[j],
    ) && instruction_at(m, k, linear_refs(m, k)[j].from) by {
        let x = linear_refs(m, k)[j];
        assert(linear_refs(m, k).contains(x));
        assert(paired_refs(m, image, k).contains(x));
        let q = choose|q: int|
            0 <= q < paired_refs(m, image, k).len() && paired_refs(m, image, k)[q] == x;
        assert(paired_refs(m, image, k)[q] == x);
    }
}

} // verus!
