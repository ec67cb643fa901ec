//! Mach-O images: from segment commands and chained fixups to segments and
//! pointers.

use crate::bytes::{le16, le32, le64, read_u16_le, read_u32_le, read_u64_le};
use crate::loader::elf::opt_text;
use crate::loader::{
    alloc_bss, in_spans, segment_views, symbol_views, zeros, Arch, DecodeMode, LoadedBinary,
    RelocPointer, SegData, Segment, SegmentView, Symbol, SymbolView, VaRangeSet,
};
use crate::text::str_eq;
use crate::va::{wrap64, Va};
use rustc_hash::FxHashSet;
use vstd::prelude::*;
use vstd::string::StringExecFns;

verus! {

pub const CPU_TYPE_X86: u32 = 7;

pub const CPU_TYPE_ARM: u32 = 12;

pub const CPU_TYPE_X86_64: u32 = 0x0100_0007;

pub const CPU_TYPE_ARM64: u32 = 0x0100_000c;

/// Page start of a page without fixups.
pub const CHAIN_START_NONE: u16 = 0xFFFF;

/// A section of a segment command.
#[derive(Clone, Debug)]
pub struct MachSection {
    /// Name, where it is text.
    pub name: Option<String>,
    pub addr: u64,
    pub size: u64,
    /// Position in the file.
    pub offset: u32,
    /// Bytes of it that the file holds.
    pub held: usize,
}

/// What a [`MachSection`] says.
#[verifier::ext_equal]
pub struct MachSectionView {
    pub name: Option<Seq<char>>,
    pub addr: u64,
    pub size: u64,
    pub offset: u32,
    pub held: usize,
}

impl View for MachSection {
    type V = MachSectionView;

    open spec fn view(&self) -> MachSectionView {
        MachSectionView {
            name: opt_text(self.name),
            addr: self.addr,
            size: self.size,
            offset: self.offset,
            held: self.held,
        }
    }
}

/// What a list of sections says.
pub open spec fn mach_section_views(s: Seq<MachSection>) -> Seq<MachSectionView> {
    s.map_values(|x: MachSection| x@)
}

/// A segment command.
#[derive(Clone, Debug)]
pub struct MachSegment {
    /// Name, where it is text.
    pub name: Option<String>,
    pub vmaddr: u64,
    /// Initial protection.
    pub initprot: u32,
    /// Sections, where they can be read.
    pub sections: Option<Vec<MachSection>>,
}

/// What a [`MachSegment`] says.
#[verifier::ext_equal]
pub struct MachSegmentView {
    pub name: Option<Seq<char>>,
    pub vmaddr: u64,
    pub initprot: u32,
    pub sections: Option<Seq<MachSectionView>>,
}

impl View for MachSegment {
    type V = MachSegmentView;

    open spec fn view(&self) -> MachSegmentView {
        MachSegmentView {
            name: opt_text(self.name),
            vmaddr: self.vmaddr,
            initprot: self.initprot,
            sections: match self.sections {
                Some(v) => Some(mach_section_views(v@)),
                None => None,
            },
        }
    }
}

/// What a list of segment commands says.
pub open spec fn mach_segment_views(s: Seq<MachSegment>) -> Seq<MachSegmentView> {
    s.map_values(|x: MachSegment| x@)
}

/// A symbol.
#[derive(Clone, Debug)]
pub struct MachSym {
    pub name: String,
    pub value: u64,
}

/// What an entry of the symbol table says; `None` for one that cannot be read.
pub open spec fn mach_sym_view(s: Option<MachSym>) -> Option<SymbolView> {
    match s {
        Some(s) => Some(SymbolView { name: s.name@, va: Va(s.value) }),
        None => None,
    }
}

/// What a symbol table says.
pub open spec fn mach_sym_views(s: Seq<Option<MachSym>>) -> Seq<Option<SymbolView>> {
    s.map_values(|x: Option<MachSym>| mach_sym_view(x))
}

/// Position and size of a blob in the file.
#[derive(Clone, Copy, Debug, PartialEq, Eq, Structural)]
pub struct MachBlob {
    pub offset: u32,
    pub size: u32,
}

/// The parts of a Mach-O file that loading looks at.
#[derive(Clone, Debug)]
pub struct MachImage {
    pub cputype: u32,
    pub entry: u64,
    pub segments: Vec<MachSegment>,
    pub symbols: Vec<Option<MachSym>>,
    /// For each load command, the chained fixups if it is the command for them.
    pub fixups: Vec<Option<MachBlob>>,
}

/// What a [`MachImage`] says.
#[verifier::ext_equal]
pub struct MachImageView {
    pub cputype: u32,
    pub entry: u64,
    pub segments: Seq<MachSegmentView>,
    pub symbols: Seq<Option<SymbolView>>,
    pub fixups: Seq<Option<MachBlob>>,
}

impl View for MachImage {
    type V = MachImageView;

    open spec fn view(&self) -> MachImageView {
        MachImageView {
            cputype: self.cputype,
            entry: self.entry,
            segments: mach_segment_views(self.segments@),
            symbols: mach_sym_views(self.symbols@),
            fixups: self.fixups@,
        }
    }
}

/// The architecture for a processor type.
pub open spec fn mach_arch(cputype: u32) -> Arch {
    if cputype == CPU_TYPE_X86_64 {
        Arch::X86_64
    } else if cputype == CPU_TYPE_ARM64 {
        Arch::Arm64
    } else if cputype == CPU_TYPE_X86 {
        Arch::X86
    } else if cputype == CPU_TYPE_ARM {
        Arch::Arm32
    } else {
        Arch::Unknown
    }
}

/// Whether a section holds slots that fixups fill, which a scan for pointers would
/// only misread.
pub open spec fn is_slot_section(name: Seq<char>) -> bool {
    name == "__DATA_CONST,__got"@ || name == "__DATA,__got"@ || name == "__DATA_CONST,__auth_got"@
        || name == "__DATA,__la_symbol_ptr"@ || name == "__DATA,__nl_symbol_ptr"@ || name
        == "__DATA_CONST,__cfstring"@ || name == "__DATA,__cfstring"@
}

/// A name, `?` where it is no text.
pub open spec fn name_or_mark(name: Option<Seq<char>>) -> Seq<char> {
    match name {
        Some(n) => n,
        None => "?"@,
    }
}

/// The name of a section behind that of its segment.
pub open spec fn full_name(seg: MachSegmentView, sect: MachSectionView) -> Seq<char> {
    name_or_mark(seg.name) + ","@ + name_or_mark(sect.name)
}

/// The segment of a section: none for an empty one, nor where the file ends before
/// it does.
#[verifier::opaque]
pub open spec fn mach_segment(seg: MachSegmentView, sect: MachSectionView, file: Seq<u8>) -> Seq<
    SegmentView,
> {
    let executable = (seg.initprot / 4) % 2 == 1;
    let name = full_name(seg, sect);
    if sect.size == 0 || (sect.held > 0 && sect.offset + sect.size > file.len()) {
        Seq::empty()
    } else {
        seq![
            SegmentView {
                va: Va(sect.addr),
                data: if sect.held == 0 {
                    zeros(sect.size as usize as nat)
                } else {
                    file.subrange(sect.offset as int, sect.offset + sect.size)
                },
                executable,
                readable: seg.initprot % 2 == 1,
                writable: (seg.initprot / 2) % 2 == 1,
                byte_scannable: !executable && !is_slot_section(name),
                mode: DecodeMode::Default,
                switches: Seq::empty(),
                name,
            },
        ]
    }
}

/// The segments of the first `k` sections of a segment command.
pub open spec fn sections_upto(
    seg: MachSegmentView,
    sections: Seq<MachSectionView>,
    file: Seq<u8>,
    k: int,
) -> Seq<SegmentView>
    decreases k,
{
    if k <= 0 {
        Seq::empty()
    } else {
        sections_upto(seg, sections, file, k - 1) + mach_segment(seg, sections[k - 1], file)
    }
}

/// The segments of the first `k` segment commands; `None` where the sections of one
/// cannot be read.
pub open spec fn commands_upto(segs: Seq<MachSegmentView>, file: Seq<u8>, k: int) -> Option<
    Seq<SegmentView>,
>
    decreases k,
{
    if k <= 0 {
        Some(Seq::empty())
    } else {
        match (commands_upto(segs, file, k - 1), segs[k - 1].sections) {
            (Some(before), Some(sections)) => Some(
                before + sections_upto(segs[k - 1], sections, file, sections.len() as int),
            ),
            _ => None,
        }
    }
}

/// The segments of an image; `None` where its sections cannot be read.
pub open spec fn mach_segments(img: MachImageView, file: Seq<u8>) -> Option<Seq<SegmentView>> {
    commands_upto(img.segments, file, img.segments.len() as int)
}

/// The named addresses among the first `k` symbols.
pub open spec fn mach_symbols(syms: Seq<Option<SymbolView>>, k: int) -> Seq<SymbolView>
    decreases k,
{
    if k <= 0 {
        Seq::empty()
    } else {
        let before = mach_symbols(syms, k - 1);
        match syms[k - 1] {
            Some(s) if s.name.len() > 0 && s.va.0 != 0 => before.push(s),
            _ => before,
        }
    }
}

/// The address of the first `__TEXT` segment from the `k`-th on, zero without one.
pub open spec fn preferred_base(segs: Seq<MachSegmentView>, k: int) -> u64
    decreases segs.len() - k,
{
    if k < 0 || k >= segs.len() {
        0
    } else if segs[k].name == Some("__TEXT"@) {
        segs[k].vmaddr
    } else {
        preferred_base(segs, k + 1)
    }
}

/// The first of the blobs from the `k`-th on.
pub open spec fn first_blob(fixups: Seq<Option<MachBlob>>, k: int) -> Option<MachBlob>
    decreases fixups.len() - k,
{
    if k < 0 || k >= fixups.len() {
        None
    } else if fixups[k] is Some {
        fixups[k]
    } else {
        first_blob(fixups, k + 1)
    }
}

/// Format of the entries in a chain of fixups.
///
/// Generic formats: bit 63 bind, bits 62 to 51 next in units of four bytes, bits 43
/// to 36 top byte, bits 35 to 0 target.
///
/// ARM64E formats: bit 63 authenticated, bit 62 bind, bits 61 to 51 next in units of
/// eight bytes; bits 50 to 43 top byte and 42 to 0 target, or bits 31 to 0 target
/// where authenticated.
#[derive(Clone, Copy, Debug, PartialEq, Eq, Structural)]
pub enum ChainedPtrFormat {
    /// Generic, the target an address.
    Ptr64,
    /// Generic, the target an offset from the preferred base.
    Ptr64Offset,
    /// ARM64E, the target an address.
    Arm64e,
    /// ARM64E, the target an offset from the preferred base.
    Arm64eUserland,
    /// The same with binds of 24 bits.
    Arm64eUserland24,
}

impl ChainedPtrFormat {
    /// The format of a number.
    pub open spec fn of_number(raw: u16) -> Option<ChainedPtrFormat> {
        if raw == 1 {
            Some(ChainedPtrFormat::Arm64e)
        } else if raw == 2 {
            Some(ChainedPtrFormat::Ptr64)
        } else if raw == 6 {
            Some(ChainedPtrFormat::Ptr64Offset)
        } else if raw == 9 {
            Some(ChainedPtrFormat::Arm64eUserland)
        } else if raw == 12 {
            Some(ChainedPtrFormat::Arm64eUserland24)
        } else {
            None
        }
    }

    /// Whether it is one of the generic formats.
    pub open spec fn is_generic(self) -> bool {
        self == ChainedPtrFormat::Ptr64 || self == ChainedPtrFormat::Ptr64Offset
    }

    /// Whether targets are offsets from the preferred base.
    pub open spec fn is_offset(self) -> bool {
        self != ChainedPtrFormat::Ptr64 && self != ChainedPtrFormat::Arm64e
    }

    /// Bytes per unit of the distance to the next entry.
    pub open spec fn unit(self) -> int {
        if self.is_generic() {
            4
        } else {
            8
        }
    }

    /// Units to the next entry; zero in the last.
    pub open spec fn next_of(self, val: u64) -> int {
        (val as int / 0x8_0000_0000_0000) % (if self.is_generic() {
            0x1000
        } else {
            0x800
        })
    }

    /// Bytes to the next entry; zero in the last.
    pub open spec fn distance(self, val: u64) -> int {
        if self.is_generic() {
            4 * self.next_of(val)
        } else {
            8 * self.next_of(val)
        }
    }

    /// Whether an entry is a bind, that is, an import.
    pub open spec fn is_bind(self, val: u64) -> bool {
        if self.is_generic() {
            val as int / 0x8000_0000_0000_0000 == 1
        } else {
            (val as int / 0x4000_0000_0000_0000) % 2 == 1
        }
    }

    /// The address that an entry stands for; `None` for a bind.
    pub open spec fn rebase_target(self, val: u64, base: u64) -> Option<Va> {
        let v = val as int;
        let auth = v / 0x8000_0000_0000_0000 == 1;
        if self.is_bind(val) {
            None
        } else {
            let low = if self.is_generic() {
                v % 0x10_0000_0000
            } else if auth {
                v % 0x1_0000_0000
            } else {
                v % 0x800_0000_0000
            };
            let top = if self.is_generic() {
                (v / 0x10_0000_0000) % 0x100
            } else if auth {
                0
            } else {
                (v / 0x800_0000_0000) % 0x100
            };
            let target = if self.is_offset() {
                wrap64(base + low)
            } else {
                low as u64
            };
            Some(Va(((top * 0x100_0000_0000_0000) as u64) | target))
        }
    }

    /// The format of a number, if it is a known one.
    pub fn from_raw(raw: u16) -> (r: Option<ChainedPtrFormat>)
        ensures
            r == ChainedPtrFormat::of_number(raw),
    {
        match raw {
            2 => Some(ChainedPtrFormat::Ptr64),
            6 => Some(ChainedPtrFormat::Ptr64Offset),
            1 => Some(ChainedPtrFormat::Arm64e),
            9 => Some(ChainedPtrFormat::Arm64eUserland),
            12 => Some(ChainedPtrFormat::Arm64eUserland24),
            _ => None,
        }
    }

    /// Bytes per unit of the distance to the next entry.
    pub fn stride(self) -> (r: usize)
        ensures
            r == self.unit(),
    {
        match self {
            ChainedPtrFormat::Ptr64 | ChainedPtrFormat::Ptr64Offset => 4,
            _ => 8,
        }
    }

    /// Units to the next entry; zero in the last.
    pub fn next_delta(self, val: u64) -> (r: usize)
        ensures
            r == self.next_of(val),
            r < 0x1000,
    {
        match self {
            ChainedPtrFormat::Ptr64 | ChainedPtrFormat::Ptr64Offset => ((val / 0x8_0000_0000_0000)
                % 0x1000) as usize,
            _ => ((val / 0x8_0000_0000_0000) % 0x800) as usize,
        }
    }

    /// The address that an entry stands for; `None` for a bind.
    pub fn decode_rebase(self, val: u64, preferred_base: u64) -> (r: Option<Va>)
        ensures
            r == self.rebase_target(val, preferred_base),
    {
        let high = val / 0x8000_0000_0000_0000 == 1;
        match self {
            ChainedPtrFormat::Ptr64 | ChainedPtrFormat::Ptr64Offset => {
                if high {
                    return None;
                }
                let low: u64 = val % 0x10_0000_0000;
                let top: u64 = ((val / 0x10_0000_0000) % 0x100) * 0x100_0000_0000_0000;
                let target: u64 = match self {
                    ChainedPtrFormat::Ptr64 => low,
                    _ => (Va(preferred_base) + low).0,
                };
                Some(Va(top | target))
            },
            _ => {
                if (val / 0x4000_0000_0000_0000) % 2 == 1 {
                    return None;
                }
                let low: u64 = if high {
                    val % 0x1_0000_0000
                } else {
                    val % 0x800_0000_0000
                };
                let top: u64 = if high {
                    0
                } else {
                    ((val / 0x800_0000_0000) % 0x100) * 0x100_0000_0000_0000
                };
                let target: u64 = match self {
                    ChainedPtrFormat::Arm64e => low,
                    _ => (Va(preferred_base) + low).0,
                };
                Some(Va(top | target))
            },
        }
    }
}

/// What following the chains of an image works on.
#[verifier::ext_equal]
pub struct FixupModel {
    pub file: Seq<u8>,
    pub base: u64,
    /// Addresses of the segment commands.
    pub vmaddrs: Seq<u64>,
    pub segments: Seq<SegmentView>,
}

/// The pointer of the entry at a position in the file.
pub open spec fn entry_pointer(
    m: FixupModel,
    fmt: ChainedPtrFormat,
    vmaddr: u64,
    start: u64,
    at: int,
) -> Seq<RelocPointer> {
    match fmt.rebase_target(le64(m.file, at) as u64, m.base) {
        Some(to) => if in_spans(m.segments, to.0) {
            seq![RelocPointer { from: Va(wrap64(vmaddr + (at - start))), to }]
        } else {
            Seq::empty()
        },
        None => Seq::empty(),
    }
}

/// The pointers of a chain from a position in the file on. A position in the
/// segment is as far from its start in memory as in the file.
pub open spec fn chain_pointers(
    m: FixupModel,
    fmt: ChainedPtrFormat,
    vmaddr: u64,
    start: u64,
    at: int,
) -> Seq<RelocPointer>
    decreases
            if at < m.file.len() {
                m.file.len() - at
            } else {
                0
            },
{
    if at < 0 || at + 8 > m.file.len() {
        Seq::empty()
    } else {
        let step = fmt.distance(le64(m.file, at) as u64);
        let here = entry_pointer(m, fmt, vmaddr, start, at);
        if step <= 0 {
            here
        } else {
            here + chain_pointers(m, fmt, vmaddr, start, at + step)
        }
    }
}

/// The pointers of the pages of a segment from the `p`-th on; the record of the
/// segment is at `rec`.
pub open spec fn page_pointers(
    m: FixupModel,
    fmt: ChainedPtrFormat,
    vmaddr: u64,
    rec: int,
    p: int,
    count: int,
) -> Seq<RelocPointer>
    decreases count - p,
{
    let at = rec + 22 + p * 2;
    if p >= count || at + 2 > m.file.len() {
        Seq::empty()
    } else {
        let first = le16(m.file, at);
        let start = le64(m.file, rec + 8);
        (if first == CHAIN_START_NONE {
            Seq::empty()
        } else {
            chain_pointers(
                m,
                fmt,
                vmaddr,
                start as u64,
                start + p * le16(m.file, rec + 4) + first,
            )
        }) + page_pointers(m, fmt, vmaddr, rec, p + 1, count)
    }
}

/// The pointers of a segment whose record is at `rec`; none where the record is cut
/// off or its format unknown.
pub open spec fn segment_pointers(m: FixupModel, vmaddr: u64, rec: int) -> Seq<RelocPointer> {
    if rec + 22 > m.file.len() {
        Seq::empty()
    } else {
        match ChainedPtrFormat::of_number(le16(m.file, rec + 6) as u16) {
            Some(fmt) => page_pointers(m, fmt, vmaddr, rec, 0, le16(m.file, rec + 20)),
            None => Seq::empty(),
        }
    }
}

/// The pointers of the segments from the `i`-th on; the table of their records is
/// at `table`.
pub open spec fn fixup_table(m: FixupModel, table: int, i: int, count: int) -> Seq<RelocPointer>
    decreases count - i,
{
    let at = table + 4 + i * 4;
    if i >= count || at + 4 > m.file.len() {
        Seq::empty()
    } else {
        let rec = le32(m.file, at);
        (if rec == 0 {
            Seq::empty()
        } else {
            segment_pointers(
                m,
                if 0 <= i < m.vmaddrs.len() {
                    m.vmaddrs[i]
                } else {
                    0
                },
                table + rec,
            )
        }) + fixup_table(m, table, i + 1, count)
    }
}

/// The pointers of the chained fixups of an image.
pub open spec fn fixup_pointers(m: FixupModel, blob: Option<MachBlob>) -> Seq<RelocPointer> {
    match blob {
        Some(b) => {
            let table = b.offset + le32(m.file, b.offset + 4);
            if b.offset + b.size > m.file.len() || b.size < 28 || table + 4 > m.file.len() {
                Seq::empty()
            } else {
                fixup_table(m, table, 0, le32(m.file, table))
            }
        },
        None => Seq::empty(),
    }
}

/// The model of an image with the given segments.
pub open spec fn fixup_model(
    img: MachImageView,
    file: Seq<u8>,
    segments: Seq<SegmentView>,
) -> FixupModel {
    FixupModel {
        file,
        base: preferred_base(img.segments, 0),
        vmaddrs: img.segments.map_values(|s: MachSegmentView| s.vmaddr),
        segments,
    }
}

/// What following the chains of an image works on.
struct FixupWalk<'p> {
    bytes: &'p [u8],
    base: u64,
    segments: &'p Vec<MachSegment>,
    seg_set: &'p VaRangeSet,
}

impl<'p> FixupWalk<'p> {
    spec fn wf(&self, m: FixupModel) -> bool {
        &&& self.bytes@ == m.file
        &&& self.base == m.base
        &&& m.vmaddrs.len() == self.segments@.len()
        &&& forall|i: int|
            0 <= i < self.segments@.len() ==> (#[trigger] m.vmaddrs[i])
                == self.segments@[i].vmaddr
        &&& self.seg_set.is_of(m.segments)
    }

    /// Adds the pointers of a chain.
    fn add_chain(
        &self,
        fmt: ChainedPtrFormat,
        vmaddr: u64,
        start: u64,
        first: u64,
        out: &mut Vec<RelocPointer>,
        Ghost(m): Ghost<FixupModel>,
    )
        requires
            self.wf(m),
            start <= first,
        ensures
            final(out)@ == old(out)@ + chain_pointers(m, fmt, vmaddr, start, first as int),
    {
        let total: usize = self.bytes.len();
        let ghost begin = out@;
        let ghost full = chain_pointers(m, fmt, vmaddr, start, first as int);
        let mut at: u64 = first;
        while total >= 8 && at <= (total - 8) as u64
            invariant_except_break
                out@ + chain_pointers(m, fmt, vmaddr, start, at as int) == begin + full,
            invariant
                self.wf(m),
                total == self.bytes.len(),
                start <= at,
                full == chain_pointers(m, fmt, vmaddr, start, first as int),
            ensures
                out@ == begin + full,
            decreases
                    if at < total {
                        total - at
                    } else {
                        0
                    },
        {
            let ghost before = out@;
            let ghost pos = at as int;
            let val: u64 = read_u64_le(self.bytes, at as usize);
            match fmt.decode_rebase(val, self.base) {
                Some(to) => {
                    if self.seg_set.contains(to) {
                        out.push(RelocPointer { from: Va(vmaddr) + (at - start), to });
                    }
                },
                None => {},
            }
            let ghost here = entry_pointer(m, fmt, vmaddr, start, pos);
            assert(out@ =~= before + here);
            let next: usize = fmt.next_delta(val);
            if next == 0 {
                break ;
            }
            let step: u64 = match fmt {
                ChainedPtrFormat::Ptr64 | ChainedPtrFormat::Ptr64Offset => next as u64 * 4,
                _ => next as u64 * 8,
            };
            assert(step == fmt.distance(val));
            if step > total as u64 - at {
                assert(chain_pointers(m, fmt, vmaddr, start, pos + step) =~= Seq::empty());
                assert(out@ + Seq::<RelocPointer>::empty() =~= out@);
                assert(here + Seq::<RelocPointer>::empty() =~= here);
                break ;
            }
            at = at + step;
            proof {
                let rest = chain_pointers(m, fmt, vmaddr, start, at as int);
                assert(before + (here + rest) =~= out@ + rest);
            }
            assert(out@ + Seq::<RelocPointer>::empty() =~= out@);
        }
    }

    /// Adds the pointers of a segment whose record is at `rec`.
    fn add_segment(
        &self,
        vmaddr: u64,
        rec: u64,
        out: &mut Vec<RelocPointer>,
        Ghost(m): Ghost<FixupModel>,
    )
        requires
            self.wf(m),
        ensures
            final(out)@ == old(out)@ + segment_pointers(m, vmaddr, rec as int),
    {
        assert(out@ + Seq::<RelocPointer>::empty() =~= out@);
        let total: usize = self.bytes.len();
        if total < 22 || rec > (total - 22) as u64 {
            return ;
        }
        let r: usize = rec as usize;
        let page_size: u64 = read_u16_le(self.bytes, r + 4) as u64;
        let start: u64 = read_u64_le(self.bytes, r + 8);
        let count: u64 = read_u16_le(self.bytes, r + 20) as u64;
        let fmt = match ChainedPtrFormat::from_raw(read_u16_le(self.bytes, r + 6)) {
            Some(f) => f,
            None => {
                return ;
            },
        };
        let ghost begin = out@;
        let ghost full = page_pointers(m, fmt, vmaddr, rec as int, 0, count as int);
        let mut p: u64 = 0;
        while p < count && 2 * (p + 1) <= (total - r - 22) as u64
            invariant
                self.wf(m),
                total == self.bytes.len(),
                r + 22 <= total,
                r == rec,
                p <= count < 0x1_0000,
                page_size == le16(m.file, rec + 4),
                page_size < 0x1_0000,
                start == le64(m.file, rec + 8),
                full == page_pointers(m, fmt, vmaddr, rec as int, 0, count as int),
                out@ + page_pointers(m, fmt, vmaddr, rec as int, p as int, count as int) == begin
                    + full,
            decreases count - p,
        {
            let ghost before = out@;
            let ghost rest = page_pointers(m, fmt, vmaddr, rec as int, p + 1, count as int);
            let first: u16 = read_u16_le(self.bytes, r + 22 + 2 * p as usize);
            assert(p * page_size <= 0xFFFF * 0xFFFF) by (nonlinear_arith)
                requires
                    p <= 0xFFFF,
                    page_size <= 0xFFFF,
            ;
            let into: u64 = p * page_size + first as u64;
            if first != CHAIN_START_NONE {
                match start.checked_add(into) {
                    Some(at) => {
                        self.add_chain(fmt, vmaddr, start, at, out, Ghost(m));
                    },
                    None => {
                        assert(chain_pointers(m, fmt, vmaddr, start, start + into)
                            =~= Seq::<RelocPointer>::empty());
                    },
                }
                proof {
                    let chain = chain_pointers(m, fmt, vmaddr, start, start + into);
                    assert(before + (chain + rest) =~= out@ + rest);
                }
            } else {
                assert(Seq::<RelocPointer>::empty() + rest =~= rest);
            }
            p = p + 1;
        }
        assert(out@ + Seq::<RelocPointer>::empty() =~= out@);
    }
}

/// Follows the chained fixups of an image to the pointers that are not imports, as
/// far as they point into its segments.
fn build_macho_fixup_pointers(
    bytes: &[u8],
    img: &MachImage,
    segments: &Vec<Segment<'_>>,
) -> (r: Vec<RelocPointer>)
    ensures
        r@ == fixup_pointers(
            fixup_model(img@, bytes@, segment_views(segments@)),
            first_blob(img@.fixups, 0),
        ),
{
    let ghost m = fixup_model(img@, bytes@, segment_views(segments@));
    let mut out: Vec<RelocPointer> = Vec::new();
    let mut k: usize = 0;
    while k < img.fixups.len() && img.fixups[k].is_none()
        invariant
            k <= img.fixups@.len(),
            first_blob(img.fixups@, 0) == first_blob(img.fixups@, k as int),
        decreases img.fixups@.len() - k,
    {
        k = k + 1;
    }
    if k >= img.fixups.len() {
        return out;
    }
    let blob = match img.fixups[k] {
        Some(b) => b,
        None => {
            return out;
        },
    };
    let total: u64 = bytes.len() as u64;
    if blob.size < 28 || blob.offset as u64 > total || blob.size as u64 > total
        - blob.offset as u64 {
        return out;
    }
    let table: u64 = blob.offset as u64 + read_u32_le(bytes, blob.offset as usize + 4) as u64;
    if total < 4 || table > total - 4 {
        return out;
    }
    let count: u64 = read_u32_le(bytes, table as usize) as u64;
    let seg_set = VaRangeSet::build(segments);
    let base: u64 = text_base(&img.segments);
    let walk = FixupWalk { bytes, base, segments: &img.segments, seg_set: &seg_set };
    let ghost full = fixup_table(m, table as int, 0, count as int);
    assert(walk.wf(m)) by {
        assert forall|i: int| 0 <= i < img.segments@.len() implies (#[trigger] m.vmaddrs[i])
            == img.segments@[i].vmaddr by {
            assert(img@.segments[i] == img.segments@[i]@);
        }
    }
    assert(out@ + full =~= full);
    let mut i: u64 = 0;
    while i < count && 4 * (i + 1) <= total - table - 4
        invariant
            walk.wf(m),
            walk.segments == &img.segments,
            walk.bytes == bytes,
            total == bytes.len(),
            table + 4 <= total,
            table <= 0x2_0000_0000,
            i <= count <= 0xFFFF_FFFF,
            full == fixup_table(m, table as int, 0, count as int),
            out@ + fixup_table(m, table as int, i as int, count as int) == full,
        decreases count - i,
    {
        let ghost before = out@;
        let ghost rest = fixup_table(m, table as int, i + 1, count as int);
        let rec: u64 = read_u32_le(bytes, (table + 4 + 4 * i) as usize) as u64;
        if rec != 0 {
            let vmaddr: u64 = if i < img.segments.len() as u64 {
                img.segments[i as usize].vmaddr
            } else {
                0
            };
            walk.add_segment(vmaddr, table + rec, &mut out, Ghost(m));
            proof {
                let here = segment_pointers(m, vmaddr, table + rec);
                assert(before + (here + rest) =~= out@ + rest);
            }
        } else {
            assert(Seq::<RelocPointer>::empty() + rest =~= rest);
        }
        i = i + 1;
    }
    assert(out@ + Seq::<RelocPointer>::empty() =~= out@);
    out
}

/// The address of the first `__TEXT` segment, zero without one.
fn text_base(segments: &Vec<MachSegment>) -> (r: u64)
    ensures
        r == preferred_base(mach_segment_views(segments@), 0),
{
    let ghost all = mach_segment_views(segments@);
    let mut k: usize = 0;
    while k < segments.len()
        invariant
            k <= segments@.len(),
            all == mach_segment_views(segments@),
            preferred_base(all, 0) == preferred_base(all, k as int),
        decreases segments@.len() - k,
    {
        let seg = &segments[k];
        assert(all[k as int] == seg@);
        match &seg.name {
            Some(name) => {
                if str_eq(name.as_str(), "__TEXT") {
                    return seg.vmaddr;
                }
            },
            None => {},
        }
        k = k + 1;
    }
    0
}

/// A name, `?` where it is no text.
fn name_or(name: &Option<String>) -> (r: String)
    ensures
        r@ == name_or_mark(opt_text(*name)),
{
    match name {
        Some(n) => n.clone(),
        None => String::from_str("?"),
    }
}

/// Whether a section holds slots that fixups fill.
fn holds_slots(name: &str) -> (r: bool)
    ensures
        r == is_slot_section(name@),
{
    str_eq(name, "__DATA_CONST,__got") || str_eq(name, "__DATA,__got") || str_eq(
        name,
        "__DATA_CONST,__auth_got",
    ) || str_eq(name, "__DATA,__la_symbol_ptr") || str_eq(name, "__DATA,__nl_symbol_ptr")
        || str_eq(name, "__DATA_CONST,__cfstring") || str_eq(name, "__DATA,__cfstring")
}

/// Adds the segment of a section.
fn add_section<'a>(
    seg: &MachSegment,
    sect: &MachSection,
    bytes: &'a [u8],
    out: &mut Vec<Segment<'a>>,
)
    ensures
        segment_views(final(out)@) == segment_views(old(out)@) + mach_segment(
            seg@,
            sect@,
            bytes@,
        ),
{
    proof {
        reveal(mach_segment);
    }
    let ghost start = segment_views(out@);
    assert(start + Seq::<SegmentView>::empty() =~= start);
    if sect.size == 0 {
        return ;
    }
    let executable = (seg.initprot / 4) % 2 == 1;
    let name: String = name_or(&seg.name).concat(",").concat(name_or(&sect.name).as_str());
    let byte_scannable = !executable && !holds_slots(name.as_str());
    let total: u64 = bytes.len() as u64;
    let data: SegData<'a> = if sect.held == 0 {
        alloc_bss(sect.size as usize)
    } else {
        let offset: u64 = sect.offset as u64;
        if offset > total || sect.size > total - offset {
            return ;
        }
        SegData::new(&bytes[offset as usize..(offset + sect.size) as usize])
    };
    let segment = Segment {
        va: Va(sect.addr),
        data,
        executable,
        readable: seg.initprot % 2 == 1,
        writable: (seg.initprot / 2) % 2 == 1,
        byte_scannable,
        mode: DecodeMode::Default,
        switches: Vec::new(),
        name,
    };
    out.push(segment);
    assert(segment_views(out@) =~= start.push(segment@));
    assert(segment_views(out@) =~= start + mach_segment(seg@, sect@, bytes@));
}

/// Adds the segments of the sections of a segment command.
fn add_sections<'a>(
    seg: &MachSegment,
    sections: &Vec<MachSection>,
    bytes: &'a [u8],
    out: &mut Vec<Segment<'a>>,
)
    ensures
        segment_views(final(out)@) == segment_views(old(out)@) + sections_upto(
            seg@,
            mach_section_views(sections@),
            bytes@,
            sections@.len() as int,
        ),
{
    let ghost start = segment_views(out@);
    let ghost all = mach_section_views(sections@);
    let mut i: usize = 0;
    assert(start + Seq::<SegmentView>::empty() =~= start);
    while i < sections.len()
        invariant
            i <= sections@.len(),
            all == mach_section_views(sections@),
            segment_views(out@) == start + sections_upto(seg@, all, bytes@, i as int),
        decreases sections@.len() - i,
    {
        assert(all[i as int] == sections@[i as int]@);
        add_section(seg, &sections[i], bytes, out);
        i = i + 1;
        assert(segment_views(out@) =~= start + sections_upto(seg@, all, bytes@, i as int));
    }
}

/// Collects the named addresses.
fn collect_symbols(symbols: &Vec<Option<MachSym>>) -> (r: Vec<Symbol>)
    ensures
        symbol_views(r@) == mach_symbols(mach_sym_views(symbols@), symbols@.len() as int),
{
    let mut out: Vec<Symbol> = Vec::new();
    let ghost all = mach_sym_views(symbols@);
    let mut i: usize = 0;
    assert(symbol_views(out@) =~= Seq::empty());
    while i < symbols.len()
        invariant
            i <= symbols@.len(),
            all == mach_sym_views(symbols@),
            symbol_views(out@) == mach_symbols(all, i as int),
        decreases symbols@.len() - i,
    {
        assert(all[i as int] == mach_sym_view(symbols@[i as int]));
        match &symbols[i] {
            Some(s) => {
                if !s.name.as_str().is_empty() && s.value != 0 {
                    let ghost before = out@;
                    let symbol = Symbol { name: s.name.clone(), va: Va(s.value) };
                    out.push(symbol);
                    assert(symbol_views(out@) =~= symbol_views(before).push(symbol@));
                    assert(symbol@ =~= all[i as int].unwrap());
                }
            },
            None => {},
        }
        i = i + 1;
    }
    out
}

/// The architecture for a processor type.
fn arch_of(cputype: u32) -> (r: Arch)
    ensures
        r == mach_arch(cputype),
{
    if cputype == CPU_TYPE_X86_64 {
        Arch::X86_64
    } else if cputype == CPU_TYPE_ARM64 {
        Arch::Arm64
    } else if cputype == CPU_TYPE_X86 {
        Arch::X86
    } else if cputype == CPU_TYPE_ARM {
        Arch::Arm32
    } else {
        Arch::Unknown
    }
}

/// Whether an image is loaded as its load commands say.
pub open spec fn loads_macho(img: MachImageView, file: Seq<u8>, b: LoadedBinary<'_>) -> bool {
    &&& b.arch == mach_arch(img.cputype)
    &&& b.pie_base == 0
    &&& Some(b.layout()) == mach_segments(img, file)
    &&& b.entry_points@ == seq![Va(img.entry)]
    &&& symbol_views(b.symbols@) == mach_symbols(img.symbols, img.symbols.len() as int)
    &&& b.got_slots@ == Set::<u64>::empty()
    &&& b.reloc_pointers@ == fixup_pointers(
        fixup_model(img, file, b.layout()),
        first_blob(img.fixups, 0),
    )
}

/// Loads a Mach-O image from its load commands; `None` where the sections of a
/// segment cannot be read.
pub fn parse_macho<'a>(bytes: &'a [u8], img: &MachImage) -> (r: Option<LoadedBinary<'a>>)
    ensures
        r is Some <==> mach_segments(img@, bytes@) is Some,
        r matches Some(b) ==> loads_macho(img@, bytes@, b),
{
    let mut segments: Vec<Segment<'a>> = Vec::new();
    let ghost all = img@.segments;
    let mut i: usize = 0;
    assert(segment_views(segments@) =~= Seq::empty());
    while i < img.segments.len()
        invariant
            i <= img.segments@.len(),
            all == img@.segments,
            commands_upto(all, bytes@, i as int) == Some(segment_views(segments@)),
        decreases img.segments@.len() - i,
    {
        let seg = &img.segments[i];
        assert(all[i as int] == seg@);
        match &seg.sections {
            Some(sections) => {
                add_sections(seg, sections, bytes, &mut segments);
            },
            None => {
                proof {
                    lemma_commands_none(all, bytes@, i + 1, all.len() as int);
                }
                return None;
            },
        }
        i = i + 1;
    }
    let mut entry_points: Vec<Va> = Vec::new();
    entry_points.push(Va(img.entry));
    assert(entry_points@ =~= seq![Va(img@.entry)]);
    let symbols = collect_symbols(&img.symbols);
    let reloc_pointers = build_macho_fixup_pointers(bytes, img, &segments);
    Some(
        LoadedBinary {
            arch: arch_of(img.cputype),
            segments,
            entry_points,
            symbols,
            pie_base: 0,
            got_slots: FxHashSet::default(),
            reloc_pointers,
        },
    )
}

/// Once the sections of a command cannot be read there are no segments.
proof fn lemma_commands_none(segs: Seq<MachSegmentView>, file: Seq<u8>, k: int, n: int)
    requires
        1 <= k <= n,
        commands_upto(segs, file, k) is None,
    ensures
        commands_upto(segs, file, n) is None,
    decreases n - k,
{
    if k < n {
        lemma_commands_none(segs, file, k, n - 1);
    }
}

/// Whether all pointers of a list lead to mapped addresses.
pub open spec fn all_mapped(m: FixupModel, s: Seq<RelocPointer>) -> bool {
    forall|i: int| 0 <= i < s.len() ==> in_spans(m.segments, (#[trigger] s[i]).to.0)
}

proof fn lemma_mapped_concat(m: FixupModel, a: Seq<RelocPointer>, b: Seq<RelocPointer>)
    requires
        all_mapped(m, a),
        all_mapped(m, b),
    ensures
        all_mapped(m, a + b),
{
    assert forall|i: int| 0 <= i < (a + b).len() implies in_spans(
        m.segments,
        (#[trigger] (a + b)[i]).to.0,
    ) by {
        if i < a.len() {
            assert((a + b)[i] == a[i]);
        } else {
            assert((a + b)[i] == b[i - a.len()]);
        }
    }
}

proof fn lemma_chain_mapped(
    m: FixupModel,
    fmt: ChainedPtrFormat,
    vmaddr: u64,
    start: u64,
    at: int,
)
    ensures
        all_mapped(m, chain_pointers(m, fmt, vmaddr, start, at)),
    decreases
            if at < m.file.len() {
                m.file.len() - at
            } else {
                0
            },
{
    if 0 <= at && at + 8 <= m.file.len() {
        let step = fmt.distance(le64(m.file, at) as u64);
        if step > 0 {
            lemma_chain_mapped(m, fmt, vmaddr, start, at + step);
            lemma_mapped_concat(
                m,
                entry_pointer(m, fmt, vmaddr, start, at),
                chain_pointers(m, fmt, vmaddr, start, at + step),
            );
        }
    }
}

proof fn lemma_pages_mapped(
    m: FixupModel,
    fmt: ChainedPtrFormat,
    vmaddr: u64,
    rec: int,
    p: int,
    count: int,
)
    ensures
        all_mapped(m, page_pointers(m, fmt, vmaddr, rec, p, count)),
    decreases count - p,
{
    let at = rec + 22 + p * 2;
    if p < count && at + 2 <= m.file.len() {
        let first = le16(m.file, at);
        let start = le64(m.file, rec + 8);
        let begin = start + p * le16(m.file, rec + 4) + first;
        let here = if first == CHAIN_START_NONE {
            Seq::empty()
        } else {
            chain_pointers(m, fmt, vmaddr, start as u64, begin)
        };
        lemma_chain_mapped(m, fmt, vmaddr, start as u64, begin);
        lemma_pages_mapped(m, fmt, vmaddr, rec, p + 1, count);
        lemma_mapped_concat(m, here, page_pointers(m, fmt, vmaddr, rec, p + 1, count));
    }
}

proof fn lemma_fixup_table_mapped(m: FixupModel, table: int, i: int, count: int)
    ensures
        all_mapped(m, fixup_table(m, table, i, count)),
    decreases count - i,
{
    let at = table + 4 + i * 4;
    if i < count && at + 4 <= m.file.len() {
        let rec = le32(m.file, at);
        let vmaddr = if 0 <= i < m.vmaddrs.len() {
            m.vmaddrs[i]
        } else {
            0
        };
        let here = if rec == 0 {
            Seq::empty()
        } else {
            segment_pointers(m, vmaddr, table + rec)
        };
        match ChainedPtrFormat::of_number(le16(m.file, table + rec + 6) as u16) {
            Some(fmt) => lemma_pages_mapped(
                m,
                fmt,
                vmaddr,
                table + rec,
                0,
                le16(m.file, table + rec + 20),
            ),
            None => {},
        }
        lemma_fixup_table_mapped(m, table, i + 1, count);
        lemma_mapped_concat(m, here, fixup_table(m, table, i + 1, count));
    }
}

/// Every pointer of the chained fixups leads to a mapped address.
pub proof fn law_fixups_mapped(m: FixupModel, blob: Option<MachBlob>)
    ensures
        all_mapped(m, fixup_pointers(m, blob)),
{
    match blob {
        Some(b) => {
            let table = b.offset + le32(m.file, b.offset + 4);
            lemma_fixup_table_mapped(m, table, 0, le32(m.file, table));
        },
        None => {},
    }
}

} // verus!
