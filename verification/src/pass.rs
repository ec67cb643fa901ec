//! One pass over an image: what is scanned how, and which references are kept.

use crate::arch::arm32::{a32_refs, scan_arm32, scan_thumb, thumb_refs};
use crate::arch::arm64::{aligned_count, linear_refs, paired_refs, scan_adrp, scan_linear};
use crate::arch::x86_64::{blank_regs, x86_refs, X86Model};
use crate::arch::{
    exec_in, mapped_in, one_or_none, DataSpanView, ScanModel, ScanRegion, SegmentDataIndex,
    SegmentIndex, SegmentSpan,
};
use crate::bytes::{le32, le64, read_u32_le, read_u64_le};
use crate::loader::{
    lemma_filter_take, Arch, DecodeMode, ModeSwitch, RelocPointer, Segment, SegmentView,
};
use crate::report::{pointer_size, pointer_size_of};
use crate::va::{wrap64, Va};
use crate::xref::{Confidence, Xref, XrefKind};
use rustc_hash::FxHashSet;
use vstd::prelude::*;

verus! {

/// How deep a pass looks.
#[derive(Clone, Copy, Debug, PartialEq, Eq, Structural)]
pub enum Depth {
    /// Pointer-sized values in data.
    ByteScan,
    /// Also what each instruction refers to by itself.
    Linear,
    /// Also what pairs of instructions and constants in registers refer to.
    Paired,
}

/// Addresses from `start` up to and without `end`; a missing bound is no bound.
#[derive(Clone, Copy, Debug, PartialEq, Eq, Structural)]
pub struct VaRange {
    pub start: Option<Va>,
    pub end: Option<Va>,
}

impl VaRange {
    /// Whether an address lies in the range.
    pub open spec fn holds(self, va: u64) -> bool {
        (match self.start {
            Some(s) => s.0 <= va,
            None => true,
        }) && (match self.end {
            Some(e) => va < e.0,
            None => true,
        })
    }

    /// The range between two bounds.
    pub fn from_bounds(start: Option<Va>, end: Option<Va>) -> (r: VaRange)
        ensures
            r == (VaRange { start, end }),
    {
        VaRange { start, end }
    }

    /// Whether an address lies in the range.
    pub fn contains(&self, va: Va) -> (r: bool)
        ensures
            r == self.holds(va.0),
    {
        let above = match self.start {
            Some(s) => s.0 <= va.0,
            None => true,
        };
        let below = match self.end {
            Some(e) => va.0 < e.0,
            None => true,
        };
        above && below
    }
}

/// Which references a pass keeps.
#[derive(Clone, Copy, Debug, PartialEq, Eq, Structural)]
pub struct PassFilter {
    /// Lowest target; relocation metadata is exempt.
    pub min_ref_va: Option<Va>,
    pub from_range: VaRange,
    pub to_range: VaRange,
}

impl PassFilter {
    /// Whether a reference is kept.
    pub open spec fn keeps(self, x: Xref, authoritative: bool) -> bool {
        self.from_range.holds(x.from.0) && self.to_range.holds(x.to.0) && (authoritative || (
        match self.min_ref_va {
            Some(m) => m.0 <= x.to.0,
            None => true,
        }))
    }

    /// The references to keep. Those of relocation metadata are `authoritative`.
    pub fn retain(&self, xrefs: &Vec<Xref>, authoritative: bool) -> (r: Vec<Xref>)
        ensures
            r@ == xrefs@.filter(|x: Xref| self.keeps(x, authoritative)),
    {
        let ghost p = |x: Xref| self.keeps(x, authoritative);
        let mut out: Vec<Xref> = Vec::new();
        let mut i: usize = 0;
        assert(xrefs@.take(0).filter(p) =~= Seq::empty()) by {
            reveal(Seq::filter);
        }
        while i < xrefs.len()
            invariant
                i <= xrefs@.len(),
                p == (|x: Xref| self.keeps(x, authoritative)),
                out@ == xrefs@.take(i as int).filter(p),
            decreases xrefs@.len() - i,
        {
            proof {
                lemma_filter_take(xrefs@, i as int, p);
            }
            let x = xrefs[i];
            let high = match self.min_ref_va {
                Some(m) => m.0 <= x.to.0,
                None => true,
            };
            if self.from_range.contains(x.from) && self.to_range.contains(x.to) && (authoritative
                || high) {
                out.push(x);
            }
            i = i + 1;
        }
        assert(xrefs@.take(i as int) =~= xrefs@);
        out
    }
}

/// The lowest target does not touch the references of relocation metadata: a filter
/// keeps the same ones whatever it is.
pub proof fn law_metadata_is_exempt(f: PassFilter, min_ref_va: Option<Va>, x: Xref)
    ensures
        f.keeps(x, true) == (PassFilter {
            min_ref_va,
            from_range: f.from_range,
            to_range: f.to_range,
        }).keeps(x, true),
        f.keeps(x, false) ==> f.keeps(x, true),
{
}

/// The reference of a pointer that relocation metadata vouches for.
pub open spec fn reloc_ref(p: RelocPointer) -> Xref {
    Xref {
        from: p.from,
        to: p.to,
        kind: XrefKind::DataPointer,
        confidence: Confidence::LinearImmediate,
    }
}

/// The references of pointers that relocation metadata vouches for.
pub fn reloc_xrefs(pointers: &Vec<RelocPointer>) -> (r: Vec<Xref>)
    ensures
        r@ == pointers@.map_values(|p: RelocPointer| reloc_ref(p)),
{
    let mut out: Vec<Xref> = Vec::new();
    let mut i: usize = 0;
    while i < pointers.len()
        invariant
            i <= pointers@.len(),
            out@.len() == i,
            forall|j: int| 0 <= j < i ==> #[trigger] out@[j] == reloc_ref(pointers@[j]),
        decreases pointers@.len() - i,
    {
        let p = pointers[i];
        out.push(
            Xref {
                from: p.from,
                to: p.to,
                kind: XrefKind::DataPointer,
                confidence: Confidence::LinearImmediate,
            },
        );
        i = i + 1;
    }
    assert(out@ =~= pointers@.map_values(|p: RelocPointer| reloc_ref(p)));
    out
}

/// The number of pointer size at a position.
pub open spec fn pointer_at(data: Seq<u8>, at: int, size: nat) -> u64 {
    if size == 8 {
        le64(data, at) as u64
    } else {
        le32(data, at) as u64
    }
}

/// The reference of a pointer-sized value in data: it leads to a mapped address. In
/// AArch64 images values that lead to code are mostly no pointers.
pub open spec fn value_ref(
    arch: Arch,
    spans: Seq<SegmentSpan>,
    from: u64,
    value: u64,
) -> Option<Xref> {
    if mapped_in(spans, value) && !(arch == Arch::Arm64 && exec_in(spans, value)) {
        Some(
            Xref {
                from: Va(from),
                to: Va(value),
                kind: XrefKind::DataPointer,
                confidence: Confidence::ByteScan,
            },
        )
    } else {
        None
    }
}

/// The references of the pointer-sized values from a position on.
pub open spec fn value_refs(
    arch: Arch,
    spans: Seq<SegmentSpan>,
    base: u64,
    data: Seq<u8>,
    size: nat,
    at: int,
) -> Seq<Xref>
    decreases data.len() - at,
{
    if at < 0 || size == 0 || at + size > data.len() {
        Seq::empty()
    } else {
        one_or_none(value_ref(arch, spans, wrap64(base + at), pointer_at(data, at, size)))
            + value_refs(arch, spans, base, data, size, at + size)
    }
}

/// How far the first aligned address is from an address.
pub open spec fn to_aligned(va: u64, size: nat) -> int {
    if va as int % size as int == 0 {
        0
    } else {
        size - va as int % size as int
    }
}

/// Reports the aligned pointer-sized values of a data segment that are addresses.
pub fn byte_scan_pointers(arch: Arch, region: &ScanRegion<'_>, idx: &SegmentIndex) -> (r: Vec<Xref>)
    requires
        idx.wf(),
    ensures
        r@ == match pointer_size(arch) {
            Some(size) => value_refs(
                arch,
                idx@,
                region.base_va.0,
                region.data@,
                size,
                to_aligned(region.base_va.0, size),
            ),
            None => Seq::empty(),
        },
{
    let mut out: Vec<Xref> = Vec::new();
    let size: usize = match pointer_size_of(arch) {
        Some(n) => n,
        None => {
            return out;
        },
    };
    let data = region.data;
    let base = region.base_va;
    let total: usize = data.len();
    let odd: usize = (base.0 % size as u64) as usize;
    let mut at: usize = if odd == 0 {
        0
    } else {
        size - odd
    };
    let ghost sz = size as nat;
    let ghost full = value_refs(arch, idx@, base.0, data@, sz, at as int);
    assert(out@ + full =~= full);
    while at <= total && size <= total - at
        invariant
            idx.wf(),
            size == 4 || size == 8,
            sz == size,
            total == data.len(),
            out@ + value_refs(arch, idx@, base.0, data@, sz, at as int) == full,
        decreases
                if at <= total {
                    total - at
                } else {
                    0
                },
    {
        let ghost before = out@;
        let value: u64 = if size == 8 {
            read_u64_le(data, at)
        } else {
            read_u32_le(data, at) as u64
        };
        let from = base + at as u64;
        let quiet = match arch {
            Arch::Arm64 => idx.is_exec(Va(value)),
            _ => false,
        };
        if idx.contains(Va(value)) && !quiet {
            out.push(
                Xref {
                    from,
                    to: Va(value),
                    kind: XrefKind::DataPointer,
                    confidence: Confidence::ByteScan,
                },
            );
        }
        proof {
            let here = one_or_none(value_ref(arch, idx@, from.0, value));
            let rest = value_refs(arch, idx@, base.0, data@, sz, at + sz);
            assert(out@ =~= before + here);
            assert(before + (here + rest) =~= out@ + rest);
        }
        at = at + size;
    }
    assert(out@ + Seq::<Xref>::empty() =~= out@);
    out
}

/// A part of a segment in one encoding, as offsets.
#[derive(Clone, Copy, Debug, PartialEq, Eq, Structural)]
pub struct ModeRun {
    pub from: usize,
    pub to: usize,
    pub mode: DecodeMode,
}

/// The parts of a segment of `len` bytes at `va` between the changes of encoding
/// from the `i`-th on, starting at an offset in a mode.
pub open spec fn runs_from(
    va: u64,
    len: usize,
    switches: Seq<ModeSwitch>,
    i: int,
    from: usize,
    mode: DecodeMode,
) -> Seq<ModeRun>
    decreases switches.len() - i,
{
    if i < 0 || i >= switches.len() {
        if from < len {
            seq![ModeRun { from, to: len, mode }]
        } else {
            Seq::empty()
        }
    } else {
        let s = switches[i];
        if s.va.0 < va || s.va.0 - va < from {
            runs_from(va, len, switches, i + 1, from, mode)
        } else if s.va.0 - va >= len {
            runs_from(va, len, switches, i + 1, from, mode)
        } else {
            let at = (s.va.0 - va) as usize;
            (if from < at {
                seq![ModeRun { from, to: at, mode }]
            } else {
                Seq::empty()
            }) + runs_from(va, len, switches, i + 1, at, s.mode)
        }
    }
}

/// Whether parts follow one another from an offset to another.
pub open spec fn adjoining(runs: Seq<ModeRun>, from: int, to: int) -> bool
    decreases runs.len(),
{
    if runs.len() == 0 {
        from == to
    } else {
        runs[0].from == from && from < runs[0].to && adjoining(
            runs.drop_first(),
            runs[0].to as int,
            to,
        )
    }
}

/// The parts of a segment cover it without gap or overlap.
pub proof fn law_runs_cover(
    va: u64,
    len: usize,
    switches: Seq<ModeSwitch>,
    i: int,
    from: usize,
    mode: DecodeMode,
)
    requires
        from <= len,
        0 <= i,
    ensures
        adjoining(runs_from(va, len, switches, i, from, mode), from as int, len as int),
    decreases switches.len() - i,
{
    if i >= switches.len() {
        let all = runs_from(va, len, switches, i, from, mode);
        if from < len {
            assert(all.drop_first() =~= Seq::empty());
            assert(adjoining(all.drop_first(), len as int, len as int));
        }
    } else {
        let s = switches[i];
        if s.va.0 < va || s.va.0 - va < from || s.va.0 - va >= len {
            law_runs_cover(va, len, switches, i + 1, from, mode);
        } else {
            let at = (s.va.0 - va) as usize;
            law_runs_cover(va, len, switches, i + 1, at, s.mode);
            let rest = runs_from(va, len, switches, i + 1, at, s.mode);
            let all = runs_from(va, len, switches, i, from, mode);
            if from < at {
                assert(all.drop_first() =~= rest);
            } else {
                assert(all =~= rest);
            }
        }
    }
}

/// The parts of a segment by encoding.
pub fn mode_runs(seg: &Segment<'_>) -> (r: Vec<ModeRun>)
    ensures
        r@ == runs_from(
            seg@.va.0,
            seg@.data.len() as usize,
            seg@.switches,
            0,
            0,
            seg@.mode,
        ),
        adjoining(r@, 0, seg@.data.len() as int),
{
    let len: usize = seg.data.len();
    let va: u64 = seg.va.0;
    let ghost switches = seg.switches@;
    let mut out: Vec<ModeRun> = Vec::new();
    let mut from: usize = 0;
    let mut mode = seg.mode;
    let mut i: usize = 0;
    let ghost full = runs_from(va, len, switches, 0, 0, mode);
    assert(out@ + full =~= full);
    while i < seg.switches.len()
        invariant
            i <= seg.switches@.len(),
            switches == seg.switches@,
            from <= len,
            out@ + runs_from(va, len, switches, i as int, from, mode) == full,
        decreases seg.switches@.len() - i,
    {
        let s = seg.switches[i];
        let ghost before = out@;
        if s.va.0 >= va && s.va.0 - va >= from as u64 && s.va.0 - va < len as u64 {
            let at: usize = (s.va.0 - va) as usize;
            let ghost rest = runs_from(va, len, switches, i + 1, at, s.mode);
            if from < at {
                out.push(ModeRun { from, to: at, mode });
                assert(before + (seq![ModeRun { from, to: at, mode }] + rest) =~= out@ + rest);
            } else {
                assert(Seq::<ModeRun>::empty() + rest =~= rest);
            }
            from = at;
            mode = s.mode;
        }
        i = i + 1;
    }
    if from < len {
        out.push(ModeRun { from, to: len, mode });
    }
    proof {
        assert(out@ =~= full);
        law_runs_cover(va, len, switches, 0, 0, seg.mode);
    }
    out
}

/// The references of the first `k` parts of 32-bit ARM code.
pub open spec fn arm_refs(
    va: u64,
    data: Seq<u8>,
    spans: Seq<SegmentSpan>,
    runs: Seq<ModeRun>,
    k: int,
) -> Seq<Xref>
    decreases k,
{
    if k <= 0 {
        Seq::empty()
    } else {
        let run = runs[k - 1];
        let m = ScanModel {
            data: data.subrange(run.from as int, run.to as int),
            base: wrap64(va + run.from),
            spans,
        };
        arm_refs(va, data, spans, runs, k - 1) + (if run.mode == DecodeMode::Thumb {
            thumb_refs(m, 0)
        } else {
            a32_refs(m, m.data.len() as int / 4)
        })
    }
}

/// The references of a segment.
///
/// Code is scanned from the linear depth on, except on architectures without a
/// scanner. Data is scanned for pointers at every depth, where that is worth it.
pub open spec fn segment_refs(
    arch: Arch,
    depth: Depth,
    s: SegmentView,
    spans: Seq<SegmentSpan>,
    image: Seq<DataSpanView>,
    slots: Set<u64>,
) -> Seq<Xref> {
    let m = ScanModel { data: s.data, base: s.va.0, spans };
    let x = X86Model { data: s.data, base: s.va.0, spans, image, slots };
    let runs = runs_from(s.va.0, s.data.len() as usize, s.switches, 0, 0, s.mode);
    if s.executable {
        match (depth, arch) {
            (Depth::ByteScan, _) => Seq::empty(),
            (Depth::Linear, Arch::Arm64) => linear_refs(m, aligned_count(m)),
            (Depth::Paired, Arch::Arm64) => paired_refs(m, image, aligned_count(m)),
            (Depth::Linear, Arch::X86_64) => x86_refs(x, false, blank_regs(), 0),
            (Depth::Paired, Arch::X86_64) => x86_refs(x, true, blank_regs(), 0),
            (_, Arch::Arm32) => arm_refs(s.va.0, s.data, spans, runs, runs.len() as int),
            _ => Seq::empty(),
        }
    } else if s.readable && s.byte_scannable {
        match pointer_size(arch) {
            Some(size) => value_refs(
                arch,
                spans,
                s.va.0,
                s.data,
                size,
                to_aligned(s.va.0, size),
            ),
            None => Seq::empty(),
        }
    } else {
        Seq::empty()
    }
}

/// Scans 32-bit ARM code, each part in its encoding.
fn scan_arm(seg: &Segment<'_>, idx: &SegmentIndex) -> (r: Vec<Xref>)
    requires
        idx.wf(),
    ensures
        ({
            let s = seg@;
            let runs = runs_from(s.va.0, s.data.len() as usize, s.switches, 0, 0, s.mode);
            r@ == arm_refs(s.va.0, s.data, idx@, runs, runs.len() as int)
        }),
{
    let data = seg.data();
    let runs: Vec<ModeRun> = mode_runs(seg);
    let mut out: Vec<Xref> = Vec::new();
    let mut i: usize = 0;
    while i < runs.len()
        invariant
            i <= runs@.len(),
            idx.wf(),
            data@ == seg@.data,
            adjoining(runs@, 0, data@.len() as int),
            out@ == arm_refs(seg@.va.0, data@, idx@, runs@, i as int),
        decreases runs@.len() - i,
    {
        proof {
            lemma_run_inside(runs@, 0, data@.len() as int, i as int);
        }
        let run = runs[i];
        let region = ScanRegion {
            data: &data[run.from..run.to],
            base_va: seg.va + run.from as u64,
        };
        let mut found: Vec<Xref> = match run.mode {
            DecodeMode::Thumb => scan_thumb(&region, idx),
            _ => scan_arm32(&region, idx),
        };
        out.append(&mut found);
        i = i + 1;
    }
    out
}

/// Adjoining parts end inside the whole.
proof fn lemma_run_inside(runs: Seq<ModeRun>, from: int, to: int, i: int)
    requires
        adjoining(runs, from, to),
        0 <= i < runs.len(),
    ensures
        runs[i].from < runs[i].to <= to,
    decreases runs.len(),
{
    lemma_adjoining_ends(runs.drop_first(), runs[0].to as int, to);
    if i > 0 {
        lemma_run_inside(runs.drop_first(), runs[0].to as int, to, i - 1);
        assert(runs.drop_first()[i - 1] == runs[i]);
    }
}

proof fn lemma_adjoining_ends(runs: Seq<ModeRun>, from: int, to: int)
    requires
        adjoining(runs, from, to),
    ensures
        from <= to,
    decreases runs.len(),
{
    if runs.len() > 0 {
        lemma_adjoining_ends(runs.drop_first(), runs[0].to as int, to);
    }
}

/// Scans a segment as its kind and the depth ask for.
pub fn scan_segment(
    arch: Arch,
    depth: Depth,
    seg: &Segment<'_>,
    idx: &SegmentIndex,
    data_idx: &SegmentDataIndex<'_>,
    got_slots: &FxHashSet<u64>,
) -> (r: Vec<Xref>)
    requires
        idx.wf(),
        data_idx.wf(),
    ensures
        r@ == segment_refs(arch, depth, seg@, idx@, data_idx@, got_slots@),
{
    let region = ScanRegion { data: seg.data(), base_va: seg.va };
    if seg.executable {
        match (depth, arch) {
            (Depth::ByteScan, _) => Vec::new(),
            (Depth::Linear, Arch::Arm64) => scan_linear(&region, idx),
            (Depth::Paired, Arch::Arm64) => scan_adrp(&region, idx, data_idx),
            (Depth::Linear, Arch::X86_64) => crate::arch::x86_64::scan_linear(
                &region,
                idx,
                got_slots,
                data_idx,
            ),
            (Depth::Paired, Arch::X86_64) => crate::arch::x86_64::scan_with_prop(
                &region,
                idx,
                got_slots,
                data_idx,
            ),
            (_, Arch::Arm32) => scan_arm(seg, idx),
            _ => Vec::new(),
        }
    } else if seg.readable && seg.byte_scannable {
        byte_scan_pointers(arch, &region, idx)
    } else {
        Vec::new()
    }
}

/// A deeper pass over a segment finds everything that a shallower one finds.
pub proof fn law_deeper_finds_more(
    arch: Arch,
    s: SegmentView,
    spans: Seq<SegmentSpan>,
    image: Seq<DataSpanView>,
    slots: Set<u64>,
    x: Xref,
)
    ensures
        segment_refs(arch, Depth::ByteScan, s, spans, image, slots).contains(x)
            ==> segment_refs(arch, Depth::Linear, s, spans, image, slots).contains(x),
        segment_refs(arch, Depth::Linear, s, spans, image, slots).contains(x) ==> segment_refs(
            arch,
            Depth::Paired,
            s,
            spans,
            image,
            slots,
        ).contains(x),
{
    let m = ScanModel { data: s.data, base: s.va.0, spans };
    let xm = X86Model { data: s.data, base: s.va.0, spans, image, slots };
    crate::arch::arm64::law_paired_has_linear(m, image, aligned_count(m));
    crate::arch::x86_64::law_prop_has_linear(xm, blank_regs(), blank_regs(), 0);
}

proof fn lemma_value_found(
    arch: Arch,
    spans: Seq<SegmentSpan>,
    base: u64,
    data: Seq<u8>,
    size: nat,
    from: int,
    n: nat,
    x: Xref,
)
    requires
        0 <= from,
        size > 0,
        from + n * size + size <= data.len(),
        value_ref(
            arch,
            spans,
            wrap64(base + (from + n * size)),
            pointer_at(data, from + n * size, size),
        ) == Some(x),
    ensures
        value_refs(arch, spans, base, data, size, from).contains(x),
    decreases n,
{
    let all = value_refs(arch, spans, base, data, size, from);
    let rest = value_refs(arch, spans, base, data, size, from + size);
    let here = one_or_none(
        value_ref(arch, spans, wrap64(base + from), pointer_at(data, from, size)),
    );
    assert(0 <= n * size) by (nonlinear_arith);
    if n == 0 {
        assert(0 * size == 0) by (nonlinear_arith);
        assert(all[0] == x);
    } else {
        let less = (n - 1) as nat;
        assert(n * size == less * size + size) by (nonlinear_arith)
            requires
                n == less + 1,
        ;
        assert(from + size + less * size == from + n * size);
        assert(0 <= less * size) by (nonlinear_arith);
        lemma_value_found(arch, spans, base, data, size, from + size, less, x);
        assert(all == here + rest);
        let j = choose|j: int| 0 <= j < rest.len() && rest[j] == x;
        assert(all[here.len() + j] == x);
    }
}

/// The number of an aligned slot, counted from the first.
proof fn lemma_slot_number(va: u64, size: nat, at: int) -> (n: nat)
    requires
        size == 8 || size == 4,
        0 <= at,
        (va + at) % size as int == 0,
    ensures
        to_aligned(va, size) >= 0,
        to_aligned(va, size) + n * size == at,
{
    let from = to_aligned(va, size);
    if size == 8 {
        let r = va as int % 8;
        assert((va + at) % 8 == 0);
        assert((r + at) % 8 == 0);
        assert(from == if r == 0 {
            0
        } else {
            8 - r
        });
        assert((at - from) % 8 == 0 && at >= from);
        let n = ((at - from) / 8) as nat;
        assert(n * size == 8 * n) by (nonlinear_arith)
            requires
                size == 8,
        ;
        n
    } else {
        let r = va as int % 4;
        assert((va + at) % 4 == 0);
        assert((r + at) % 4 == 0);
        assert(from == if r == 0 {
            0
        } else {
            4 - r
        });
        assert((at - from) % 4 == 0 && at >= from);
        let n = ((at - from) / 4) as nat;
        assert(n * size == 4 * n) by (nonlinear_arith)
            requires
                size == 4,
        ;
        n
    }
}

/// Every aligned slot of data that is scanned refers to the mapped address that it
/// holds, eight bytes on the wide architectures and four on the narrow; on AArch64 an
/// address of code does not count.
pub proof fn law_pointer_found(
    arch: Arch,
    depth: Depth,
    s: SegmentView,
    spans: Seq<SegmentSpan>,
    image: Seq<DataSpanView>,
    slots: Set<u64>,
    at: int,
    value: u64,
)
    requires
        !s.executable,
        s.readable,
        s.byte_scannable,
        0 <= at,
        arch != Arch::Unknown,
        (arch == Arch::X86_64 || arch == Arch::Arm64) ==> (s.va.0 + at) % 8 == 0 && at + 8
            <= s.data.len() && le64(s.data, at) == value,
        (arch == Arch::X86 || arch == Arch::Arm32) ==> (s.va.0 + at) % 4 == 0 && at + 4
            <= s.data.len() && le32(s.data, at) == value,
        mapped_in(spans, value),
        arch == Arch::Arm64 ==> !exec_in(spans, value),
    ensures
        segment_refs(arch, depth, s, spans, image, slots).contains(
            Xref {
                from: Va(wrap64(s.va.0 + at)),
                to: Va(value),
                kind: XrefKind::DataPointer,
                confidence: Confidence::ByteScan,
            },
        ),
{
    let size: nat = if arch == Arch::X86_64 || arch == Arch::Arm64 {
        8
    } else {
        4
    };
    let from = to_aligned(s.va.0, size);
    let n = lemma_slot_number(s.va.0, size, at);
    let x = Xref {
        from: Va(wrap64(s.va.0 + at)),
        to: Va(value),
        kind: XrefKind::DataPointer,
        confidence: Confidence::ByteScan,
    };
    lemma_value_found(arch, spans, s.va.0, s.data, size, from, n, x);
}

/// A reference is kept exactly where both its ends lie in their ranges, the ends of the
/// ranges left out, and its target is not below the least, from which relocation
/// metadata is exempt.
pub proof fn law_filter_bounds(
    low: Va,
    high: Va,
    to_low: Va,
    to_high: Va,
    least: Va,
    x: Xref,
    authoritative: bool,
)
    ensures
        (PassFilter {
            min_ref_va: Some(least),
            from_range: VaRange { start: Some(low), end: Some(high) },
            to_range: VaRange { start: Some(to_low), end: Some(to_high) },
        }).keeps(x, authoritative) <==> low.0 <= x.from.0 && x.from.0 < high.0 && to_low.0
            <= x.to.0 && x.to.0 < to_high.0 && (authoritative || least.0 <= x.to.0),
        (PassFilter {
            min_ref_va: None,
            from_range: VaRange { start: None, end: None },
            to_range: VaRange { start: None, end: None },
        }).keeps(x, authoritative),
{
}

/// Whether the changes from the `i`-th on are in order and none lies before an address.
pub open spec fn in_order(switches: Seq<ModeSwitch>, i: int, from: int) -> bool {
    &&& forall|j: int| i <= j < switches.len() ==> from <= (#[trigger] switches[j]).va.0
    &&& forall|j: int, k: int|
        i <= j <= k < switches.len() ==> (#[trigger] switches[j]).va.0 <= (
        #[trigger] switches[k]).va.0
}

/// The mode at an address by the changes from the `i`-th up to the `k`-th: that of the
/// last one at or before it, else the one given.
pub open spec fn mode_at(
    switches: Seq<ModeSwitch>,
    i: int,
    k: int,
    at: int,
    start: DecodeMode,
) -> DecodeMode
    decreases k - i,
{
    if k <= i {
        start
    } else if switches[k - 1].va.0 <= at {
        switches[k - 1].mode
    } else {
        mode_at(switches, i, k - 1, at, start)
    }
}

/// Every byte of a segment is decoded in the mode of the last change at or before it,
/// or in the mode of the segment where there is none.
pub proof fn law_runs_have_modes(
    va: u64,
    len: usize,
    switches: Seq<ModeSwitch>,
    i: int,
    from: usize,
    mode: DecodeMode,
    r: int,
    p: int,
)
    requires
        0 <= i <= switches.len(),
        from <= len,
        in_order(switches, i, va + from),
        0 <= r < runs_from(va, len, switches, i, from, mode).len(),
        runs_from(va, len, switches, i, from, mode)[r].from <= p < runs_from(
            va,
            len,
            switches,
            i,
            from,
            mode,
        )[r].to,
    ensures
        runs_from(va, len, switches, i, from, mode)[r].mode == mode_at(
            switches,
            i,
            switches.len() as int,
            va + p,
            mode,
        ),
    decreases switches.len() - i,
{
    let all = runs_from(va, len, switches, i, from, mode);
    law_runs_cover(va, len, switches, i, from, mode);
    lemma_adjoining_within(all, from as int, len as int, r);
    if i < switches.len() {
        let s = switches[i];
        if s.va.0 - va >= len {
            law_runs_have_modes(va, len, switches, i + 1, from, mode, r, p);
            lemma_before_changes(switches, i, switches.len() as int, va + p, mode);
            if i + 1 < switches.len() {
                assert(switches[i].va.0 <= switches[i + 1].va.0);
            }
            lemma_before_changes(switches, i + 1, switches.len() as int, va + p, mode);
        } else {
            let at = (s.va.0 - va) as usize;
            let rest = runs_from(va, len, switches, i + 1, at, s.mode);
            let first = all.len() - rest.len();
            if r < first {
                assert(all[r] == (ModeRun { from, to: at, mode }));
                lemma_before_changes(switches, i, switches.len() as int, va + p, mode);
            } else {
                assert(all[r] == rest[r - first]);
                lemma_later_order(switches, i, va + from);
                law_runs_cover(va, len, switches, i + 1, at, s.mode);
                lemma_adjoining_within(rest, at as int, len as int, r - first);
                law_runs_have_modes(va, len, switches, i + 1, at, s.mode, r - first, p);
                lemma_change_counts(switches, i, switches.len() as int, va + p, mode);
            }
        }
    }
}

proof fn lemma_later_order(switches: Seq<ModeSwitch>, i: int, from: int)
    requires
        0 <= i < switches.len(),
        in_order(switches, i, from),
    ensures
        in_order(switches, i + 1, switches[i].va.0 as int),
{
    assert forall|j: int| i + 1 <= j < switches.len() implies switches[i].va.0 <= (
    #[trigger] switches[j]).va.0 by {}
}

/// Before the first change the mode is the one given.
proof fn lemma_before_changes(
    switches: Seq<ModeSwitch>,
    i: int,
    k: int,
    at: int,
    start: DecodeMode,
)
    requires
        0 <= i,
        k <= switches.len(),
        forall|j: int, l: int|
            i <= j <= l < switches.len() ==> (#[trigger] switches[j]).va.0 <= (
            #[trigger] switches[l]).va.0,
        i < switches.len() ==> switches[i].va.0 > at,
    ensures
        mode_at(switches, i, k, at, start) == start,
    decreases k - i,
{
    if i < k {
        lemma_before_changes(switches, i, k - 1, at, start);
        assert(switches[i].va.0 <= switches[k - 1].va.0);
    }
}

/// A change counts from its address on, unless a later one does.
proof fn lemma_change_counts(
    switches: Seq<ModeSwitch>,
    i: int,
    k: int,
    at: int,
    start: DecodeMode,
)
    requires
        0 <= i < k <= switches.len(),
        switches[i].va.0 <= at,
    ensures
        mode_at(switches, i, k, at, start) == mode_at(switches, i + 1, k, at, switches[i].mode),
    decreases k - i,
{
    if i + 1 < k {
        lemma_change_counts(switches, i, k - 1, at, start);
    } else {
        assert(mode_at(switches, i + 1, k, at, switches[i].mode) == switches[i].mode);
    }
}

proof fn lemma_adjoining_within(runs: Seq<ModeRun>, from: int, to: int, r: int)
    requires
        adjoining(runs, from, to),
        0 <= r < runs.len(),
    ensures
        from <= runs[r].from,
        runs[r].to <= to,
    decreases runs.len(),
{
    let rest = runs.drop_first();
    if r > 0 {
        lemma_adjoining_within(rest, runs[0].to as int, to, r - 1);
        assert(rest[r - 1] == runs[r]);
    } else if rest.len() > 0 {
        lemma_adjoining_within(rest, runs[0].to as int, to, 0);
    }
}

} // verus!
