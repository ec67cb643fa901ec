//! ELF images: from headers, symbols and relocations to segments and pointers.

use crate::bytes::{le32, read_u32_le};
use crate::loader::elf_relocs::{
    build_elf_got_slots, build_elf_reloc_pointers, elf_pointers, elf_slots,
};
use crate::loader::{
    alloc_bss, lemma_filter_take, segment_views, symbol_views, zeros, Arch, DecodeMode,
    LoadedBinary, ModeSwitch, SegData, Segment, SegmentView, Symbol, SymbolView,
};
use crate::order::{
    insert_by_key, last_at_most, lemma_stable_sort, rank, rank_of, sorted, stable_sort, Keyed,
};
use crate::text::{str_eq, tagged, tagged_name};
use crate::va::{wrap64, Va};
use vstd::prelude::*;
use vstd::string::StrSliceExecFns;

verus! {

pub const EM_386: u16 = 3;

pub const EM_ARM: u16 = 40;

pub const EM_X86_64: u16 = 62;

pub const EM_AARCH64: u16 = 183;

pub const ET_DYN: u16 = 3;

pub const PT_LOAD: u32 = 1;

pub const SHT_NULL: u32 = 0;

pub const SHT_NOBITS: u32 = 8;

pub const STT_FUNC: u8 = 2;

/// Base of a position-independent image that is linked at zero, unless another is
/// given.
pub const DEFAULT_PIE_BASE: u64 = 0x0040_0000;

/// How many words of a section are looked at to tell ARM from Thumb code.
///
/// More would reach the constants between functions, which look like neither.
pub const PROBE_WORDS: usize = 16;

/// A section header.
#[derive(Clone, Debug)]
pub struct ElfSection {
    pub kind: u32,
    pub flags: u64,
    pub addr: u64,
    pub offset: u64,
    pub size: u64,
    /// Name, where the string table has one.
    pub name: Option<String>,
}

/// What an [`ElfSection`] says.
#[verifier::ext_equal]
pub struct ElfSectionView {
    pub kind: u32,
    pub flags: u64,
    pub addr: u64,
    pub offset: u64,
    pub size: u64,
    pub name: Option<Seq<char>>,
}

/// What a text that may be missing says.
pub open spec fn opt_text(s: Option<String>) -> Option<Seq<char>> {
    match s {
        Some(s) => Some(s@),
        None => None,
    }
}

impl View for ElfSection {
    type V = ElfSectionView;

    open spec fn view(&self) -> ElfSectionView {
        ElfSectionView {
            kind: self.kind,
            flags: self.flags,
            addr: self.addr,
            offset: self.offset,
            size: self.size,
            name: opt_text(self.name),
        }
    }
}

/// A program header.
#[derive(Clone, Copy, Debug, PartialEq, Eq, Structural)]
pub struct ElfProgram {
    pub kind: u32,
    pub flags: u32,
    pub offset: u64,
    pub vaddr: u64,
    pub filesz: u64,
    pub memsz: u64,
}

/// A symbol.
#[derive(Clone, Debug)]
pub struct ElfSym {
    pub value: u64,
    /// Type, the low four bits of the info byte.
    pub kind: u8,
    /// Index of the section that defines it; zero for an import.
    pub shndx: usize,
    /// Name, where the string table has one.
    pub name: Option<String>,
}

/// What an [`ElfSym`] says.
#[verifier::ext_equal]
pub struct ElfSymView {
    pub value: u64,
    pub kind: u8,
    pub shndx: usize,
    pub name: Option<Seq<char>>,
}

impl View for ElfSym {
    type V = ElfSymView;

    open spec fn view(&self) -> ElfSymView {
        ElfSymView {
            value: self.value,
            kind: self.kind,
            shndx: self.shndx,
            name: opt_text(self.name),
        }
    }
}

/// A relocation.
#[derive(Clone, Copy, Debug, PartialEq, Eq, Structural)]
pub struct ElfReloc {
    pub offset: u64,
    pub kind: u32,
    /// Index of its symbol; zero for none.
    pub sym: usize,
    /// Addend, where the entry has one.
    pub addend: Option<i64>,
}

/// The parts of an ELF file that loading looks at.
#[derive(Clone, Debug)]
pub struct ElfImage {
    pub machine: u16,
    pub etype: u16,
    pub entry: u64,
    pub sections: Vec<ElfSection>,
    pub programs: Vec<ElfProgram>,
    pub syms: Vec<ElfSym>,
    pub dynsyms: Vec<ElfSym>,
    pub dynrelas: Vec<ElfReloc>,
    pub dynrels: Vec<ElfReloc>,
    pub pltrelocs: Vec<ElfReloc>,
}

/// What an [`ElfImage`] says.
#[verifier::ext_equal]
pub struct ElfImageView {
    pub machine: u16,
    pub etype: u16,
    pub entry: u64,
    pub sections: Seq<ElfSectionView>,
    pub programs: Seq<ElfProgram>,
    pub syms: Seq<ElfSymView>,
    pub dynsyms: Seq<ElfSymView>,
    pub dynrelas: Seq<ElfReloc>,
    pub dynrels: Seq<ElfReloc>,
    pub pltrelocs: Seq<ElfReloc>,
}

/// What a list of section headers says.
pub open spec fn section_views(s: Seq<ElfSection>) -> Seq<ElfSectionView> {
    s.map_values(|x: ElfSection| x@)
}

/// What a list of symbols says.
pub open spec fn sym_views(s: Seq<ElfSym>) -> Seq<ElfSymView> {
    s.map_values(|x: ElfSym| x@)
}

impl View for ElfImage {
    type V = ElfImageView;

    open spec fn view(&self) -> ElfImageView {
        ElfImageView {
            machine: self.machine,
            etype: self.etype,
            entry: self.entry,
            sections: section_views(self.sections@),
            programs: self.programs@,
            syms: sym_views(self.syms@),
            dynsyms: sym_views(self.dynsyms@),
            dynrelas: self.dynrelas@,
            dynrels: self.dynrels@,
            pltrelocs: self.pltrelocs@,
        }
    }
}

/// The architecture for a machine number.
pub open spec fn elf_arch(machine: u16) -> Arch {
    if machine == EM_X86_64 {
        Arch::X86_64
    } else if machine == EM_AARCH64 {
        Arch::Arm64
    } else if machine == EM_386 {
        Arch::X86
    } else if machine == EM_ARM {
        Arch::Arm32
    } else {
        Arch::Unknown
    }
}

/// How many of the first `n` words from `offset` on have the ARM condition "always".
pub open spec fn arm_votes(file: Seq<u8>, offset: int, n: int) -> int
    decreases n,
{
    if n <= 0 {
        0
    } else {
        arm_votes(file, offset, n - 1) + if le32(file, offset + 4 * (n - 1)) / 0x1000_0000 == 0xE {
            1int
        } else {
            0
        }
    }
}

/// How many words of a section are looked at.
pub open spec fn probe_count(file: Seq<u8>, offset: int, size: int) -> int {
    let available = if size < file.len() - offset {
        size
    } else {
        file.len() - offset
    };
    if available / 4 < PROBE_WORDS {
        available / 4
    } else {
        PROBE_WORDS as int
    }
}

/// The encoding of a section by its first words: Thumb only where fewer than half
/// have the ARM condition "always".
///
/// Decoding ARM code as Thumb gives hundreds of false branches, the reverse only
/// misses some.
pub open spec fn probed_mode(file: Seq<u8>, offset: int, size: int) -> DecodeMode {
    if size < 4 || offset + 4 > file.len() {
        DecodeMode::Arm32
    } else {
        let n = probe_count(file, offset, size);
        if arm_votes(file, offset, n) * 2 >= n {
            DecodeMode::Arm32
        } else {
            DecodeMode::Thumb
        }
    }
}

/// Decides by its first words whether a section holds ARM or Thumb code.
pub fn probe_arm32_section_mode(file: &[u8], offset: u64, size: u64) -> (r: DecodeMode)
    ensures
        r == probed_mode(file@, offset as int, size as int),
{
    let total: usize = file.len();
    if size < 4 || total < 4 || offset > (total - 4) as u64 {
        return DecodeMode::Arm32;
    }
    let at: usize = offset as usize;
    let rest: usize = total - at;
    let available: usize = if size < rest as u64 {
        size as usize
    } else {
        rest
    };
    let n: usize = if available / 4 < PROBE_WORDS {
        available / 4
    } else {
        PROBE_WORDS
    };
    let mut votes: usize = 0;
    let mut i: usize = 0;
    while i < n
        invariant
            i <= n <= PROBE_WORDS,
            at + 4 * n <= file.len(),
            votes <= i,
            votes == arm_votes(file@, at as int, i as int),
        decreases n - i,
    {
        let w: u32 = read_u32_le(file, at + i * 4);
        if w / 0x1000_0000 == 0xE {
            votes = votes + 1;
        }
        i = i + 1;
    }
    if votes * 2 >= n {
        DecodeMode::Arm32
    } else {
        DecodeMode::Thumb
    }
}

/// A section that is mapped.
#[derive(Clone, Copy, Debug, PartialEq, Eq, Structural)]
pub struct SectionInfo {
    pub va: u64,
    pub end: u64,
    pub offset: u64,
    pub size: u64,
    /// Index of the header.
    pub index: usize,
    /// Whether a scan for pointers is worth it.
    pub byte_scannable: bool,
    /// Whether it holds instructions.
    pub is_code: bool,
}

impl Keyed for SectionInfo {
    open spec fn key(&self) -> u64 {
        self.va
    }

    fn get_key(&self) -> (r: u64) {
        self.va
    }
}

impl Keyed for ModeSwitch {
    open spec fn key(&self) -> u64 {
        self.va.0
    }

    fn get_key(&self) -> (r: u64) {
        self.va.0
    }
}

/// Whether sections of this name are full of values that only relocations make
/// sense of.
pub open spec fn is_unscannable(name: Seq<char>) -> bool {
    name == ".data.rel.ro"@ || name == ".data.rel.ro.local"@
}

/// Whether a section is mapped from the file and has a name.
pub open spec fn is_mapped_section(s: ElfSectionView) -> bool {
    s.kind != SHT_NULL && s.kind != SHT_NOBITS && s.addr != 0 && s.size != 0 && s.name is Some
}

/// The `i`-th section as mapped, before any rebasing.
pub open spec fn section_info(s: ElfSectionView, i: int) -> SectionInfo {
    SectionInfo {
        va: s.addr,
        end: wrap64(s.addr + s.size),
        offset: s.offset,
        size: s.size,
        index: i as usize,
        byte_scannable: !is_unscannable(s.name.unwrap()),
        is_code: (s.flags / 4) % 2 == 1,
    }
}

/// The mapped ones of the first `k` sections.
pub open spec fn mapped_sections(sections: Seq<ElfSectionView>, k: int) -> Seq<SectionInfo>
    decreases k,
{
    if k <= 0 {
        Seq::empty()
    } else if is_mapped_section(sections[k - 1]) {
        mapped_sections(sections, k - 1).push(section_info(sections[k - 1], k - 1))
    } else {
        mapped_sections(sections, k - 1)
    }
}

/// The mapped sections in order of address.
pub open spec fn section_table(img: ElfImageView) -> Seq<SectionInfo> {
    stable_sort(mapped_sections(img.sections, img.sections.len() as int))
}

/// Whether a name is that of a mapping symbol: `$` and a letter, with an index or
/// without.
pub open spec fn is_mapping_name(name: Seq<char>, letter: char) -> bool {
    name == seq!['$', letter] || (name.len() >= 3 && name[0] == '$' && name[1] == letter && name[2]
        == '.')
}

/// The change of encoding that a mapping symbol marks.
pub open spec fn mapping_switch(sym: ElfSymView) -> Option<ModeSwitch> {
    match sym.name {
        Some(name) => if is_mapping_name(name, 't') {
            Some(ModeSwitch { va: Va(sym.value), mode: DecodeMode::Thumb })
        } else if is_mapping_name(name, 'a') {
            Some(ModeSwitch { va: Va(sym.value), mode: DecodeMode::Arm32 })
        } else {
            None
        },
        None => None,
    }
}

/// The changes that the first `k` symbols mark.
pub open spec fn mapping_switches(syms: Seq<ElfSymView>, k: int) -> Seq<ModeSwitch>
    decreases k,
{
    if k <= 0 {
        Seq::empty()
    } else {
        match mapping_switch(syms[k - 1]) {
            Some(s) => mapping_switches(syms, k - 1).push(s),
            None => mapping_switches(syms, k - 1),
        }
    }
}

/// The changes that mapping symbols mark, in order of address.
pub open spec fn mapping_table(img: ElfImageView) -> Seq<ModeSwitch> {
    stable_sort(mapping_switches(img.syms, img.syms.len() as int))
}

/// The encoding at the start of a section: that of the last mapping symbol at or
/// before it, ARM where there is none before it; without mapping symbols, what its
/// first words look like.
pub open spec fn section_mode(table: Seq<ModeSwitch>, file: Seq<u8>, s: SectionInfo) -> DecodeMode {
    if table.len() == 0 {
        probed_mode(file, s.offset as int, s.size as int)
    } else {
        match last_at_most(table, s.va) {
            Some(x) => x.mode,
            None => DecodeMode::Arm32,
        }
    }
}

/// How many of the ordered changes lie below an address.
pub open spec fn rank_below(table: Seq<ModeSwitch>, va: u64) -> int {
    if va == 0 {
        0
    } else {
        rank(table, (va - 1) as u64) as int
    }
}

/// Changes moved by a base.
pub open spec fn rebased(s: Seq<ModeSwitch>, base: u64) -> Seq<ModeSwitch> {
    s.map_values(|x: ModeSwitch| ModeSwitch { va: Va(wrap64(x.va.0 + base)), mode: x.mode })
}

/// The changes that mapping symbols mark behind the start of a section and before
/// its end.
pub open spec fn section_switches(table: Seq<ModeSwitch>, s: SectionInfo, base: u64) -> Seq<
    ModeSwitch,
> {
    let from = rank(table, s.va) as int;
    let to = rank_below(table, s.end);
    if from <= to {
        rebased(table.subrange(from, to), base)
    } else {
        Seq::empty()
    }
}

/// The encoding that a function symbol shows by its lowest bit.
pub open spec fn func_switch(sym: ElfSymView, base: u64) -> Option<ModeSwitch> {
    if sym.value != 0 && sym.kind == STT_FUNC && sym.shndx != 0 {
        Some(
            ModeSwitch {
                va: Va(wrap64(sym.value - sym.value % 2 + base)),
                mode: if sym.value % 2 == 1 {
                    DecodeMode::Thumb
                } else {
                    DecodeMode::Arm32
                },
            },
        )
    } else {
        None
    }
}

/// What the first `k` symbols show of functions.
pub open spec fn func_switches(syms: Seq<ElfSymView>, base: u64, k: int) -> Seq<ModeSwitch>
    decreases k,
{
    if k <= 0 {
        Seq::empty()
    } else {
        match func_switch(syms[k - 1], base) {
            Some(s) => func_switches(syms, base, k - 1).push(s),
            None => func_switches(syms, base, k - 1),
        }
    }
}

/// A sequence with only the first of neighbours at the same address.
pub open spec fn first_of_each(s: Seq<ModeSwitch>) -> Seq<ModeSwitch>
    decreases s.len(),
{
    if s.len() == 0 {
        s
    } else {
        let before = first_of_each(s.drop_last());
        if before.len() > 0 && before.last().va == s.last().va {
            before
        } else {
            before.push(s.last())
        }
    }
}

/// What function symbols show, in order of address and once for each: the symbol
/// table first, then the dynamic one.
pub open spec fn func_table(img: ElfImageView, base: u64) -> Seq<ModeSwitch> {
    first_of_each(
        stable_sort(
            func_switches(img.syms + img.dynsyms, base, (img.syms + img.dynsyms).len() as int),
        ),
    )
}

/// The changes of a segment between two addresses: those of the functions in it,
/// and those of mapping symbols at other addresses.
pub open spec fn merged_switches(
    mapped: Seq<ModeSwitch>,
    funcs: Seq<ModeSwitch>,
    lo: u64,
    hi: u64,
) -> Seq<ModeSwitch> {
    let own = funcs.filter(|f: ModeSwitch| lo <= f.va.0 < hi);
    if own.len() == 0 {
        mapped
    } else {
        stable_sort(mapped.filter(|e: ModeSwitch| !marks(own, e.va)) + own)
    }
}

/// Whether a change is marked at an address.
pub open spec fn marks(s: Seq<ModeSwitch>, va: Va) -> bool {
    exists|i: int| 0 <= i < s.len() && (#[trigger] s[i]).va == va
}

/// What the segments of an image are made from, besides its headers.
#[verifier::ext_equal]
pub struct ElfPlan {
    pub file: Seq<u8>,
    pub arch: Arch,
    /// Base that is added to every address.
    pub base: u64,
    /// Mapped sections by address.
    pub table: Seq<SectionInfo>,
    /// Names of all sections.
    pub names: Seq<Option<Seq<char>>>,
    /// Changes of encoding by mapping symbols and by function symbols.
    pub mapping: Seq<ModeSwitch>,
    pub funcs: Seq<ModeSwitch>,
}

/// The plan for an image under a base.
pub open spec fn elf_plan(img: ElfImageView, file: Seq<u8>, base: u64) -> ElfPlan {
    ElfPlan {
        file,
        arch: elf_arch(img.machine),
        base,
        table: section_table(img),
        names: img.sections.map_values(|s: ElfSectionView| s.name),
        mapping: mapping_table(img),
        funcs: func_table(img, base),
    }
}

/// The address range of a program header in memory.
pub open spec fn program_start(p: ElfProgram, base: u64) -> u64 {
    wrap64(p.vaddr + base)
}

pub open spec fn program_end(p: ElfProgram, base: u64) -> u64 {
    wrap64(program_start(p, base) + p.memsz)
}

pub open spec fn is_exec(p: ElfProgram) -> bool {
    p.flags % 2 == 1
}

pub open spec fn is_write(p: ElfProgram) -> bool {
    (p.flags / 2) % 2 == 1
}

pub open spec fn is_read(p: ElfProgram) -> bool {
    (p.flags / 4) % 2 == 1
}

/// Whether a section lies inside a program header.
pub open spec fn inside(s: SectionInfo, p: ElfProgram, base: u64) -> bool {
    wrap64(s.va + base) >= program_start(p, base) && wrap64(s.end + base) <= program_end(p, base)
}

/// The segment of a section, where the file holds all of it.
pub open spec fn section_segment(plan: ElfPlan, p: ElfProgram, s: SectionInfo) -> Option<
    SegmentView,
> {
    if s.offset + s.size > plan.file.len() {
        None
    } else {
        let arm = plan.arch == Arch::Arm32 && s.is_code;
        let va = wrap64(s.va + plan.base);
        Some(
            SegmentView {
                va: Va(va),
                data: plan.file.subrange(s.offset as int, s.offset + s.size),
                executable: s.is_code,
                readable: is_read(p),
                writable: is_write(p),
                byte_scannable: s.byte_scannable,
                mode: if arm {
                    section_mode(plan.mapping, plan.file, s)
                } else {
                    DecodeMode::Default
                },
                switches: if arm {
                    merged_switches(
                        section_switches(plan.mapping, s, plan.base),
                        plan.funcs,
                        va,
                        wrap64(va + s.size),
                    )
                } else {
                    Seq::empty()
                },
                name: plan.names[s.index as int].unwrap(),
            },
        )
    }
}

/// The segments of those of the first `k` sections that lie inside a program header.
pub open spec fn section_segments(plan: ElfPlan, p: ElfProgram, k: int) -> Seq<SegmentView>
    decreases k,
{
    if k <= 0 {
        Seq::empty()
    } else {
        let before = section_segments(plan, p, k - 1);
        let s = plan.table[k - 1];
        if inside(s, p, plan.base) {
            match section_segment(plan, p, s) {
                Some(v) => before.push(v),
                None => before,
            }
        } else {
            before
        }
    }
}

/// The greatest end of those of the first `k` sections that lie inside a program
/// header; `None` where none does.
pub open spec fn sections_end(plan: ElfPlan, p: ElfProgram, k: int) -> Option<u64>
    decreases k,
{
    if k <= 0 {
        None
    } else {
        let s = plan.table[k - 1];
        let end = wrap64(s.end + plan.base);
        if inside(s, p, plan.base) {
            match sections_end(plan, p, k - 1) {
                Some(e) if e > end => Some(e),
                _ => Some(end),
            }
        } else {
            sections_end(plan, p, k - 1)
        }
    }
}

/// Memory that a program header has and the file does not.
pub open spec fn bss_segment(p: ElfProgram, va: u64, size: u64) -> SegmentView {
    SegmentView {
        va: Va(va),
        data: zeros(size as usize as nat),
        executable: false,
        readable: is_read(p),
        writable: is_write(p),
        byte_scannable: false,
        mode: DecodeMode::Default,
        switches: Seq::empty(),
        name: tagged("BSS"@, va as nat),
    }
}

/// Whether a section that is not worth a scan overlaps a program header.
pub open spec fn overlaps_unscannable(plan: ElfPlan, p: ElfProgram) -> bool {
    let start = program_start(p, plan.base);
    let end = wrap64(start + p.filesz);
    exists|i: int|
        0 <= i < plan.table.len() && !(#[trigger] plan.table[i]).byte_scannable && wrap64(
            plan.table[i].va + plan.base,
        ) < end && wrap64(plan.table[i].end + plan.base) > start
}

/// The segment of a program header as a whole.
pub open spec fn program_segment(plan: ElfPlan, p: ElfProgram) -> SegmentView {
    let va = program_start(p, plan.base);
    let arm = plan.arch == Arch::Arm32 && is_exec(p);
    SegmentView {
        va: Va(va),
        data: plan.file.subrange(p.offset as int, p.offset + p.filesz),
        executable: is_exec(p),
        readable: is_read(p),
        writable: is_write(p),
        byte_scannable: !overlaps_unscannable(plan, p),
        mode: if arm {
            probed_mode(plan.file, p.offset as int, p.filesz as int)
        } else {
            DecodeMode::Default
        },
        switches: if arm {
            merged_switches(Seq::empty(), plan.funcs, va, wrap64(va + p.filesz))
        } else {
            Seq::empty()
        },
        name: tagged("LOAD"@, va as nat),
    }
}

/// Memory up to the end of a program header.
pub open spec fn bss_tail(p: ElfProgram, va: u64, end: u64) -> Seq<SegmentView> {
    if va < end {
        seq![bss_segment(p, va, (end - va) as u64)]
    } else {
        Seq::empty()
    }
}

/// A program header as one segment, with what the file does not hold behind it.
pub open spec fn whole_segments(plan: ElfPlan, p: ElfProgram) -> Seq<SegmentView> {
    (if p.filesz > 0 && p.offset + p.filesz <= plan.file.len() {
        seq![program_segment(plan, p)]
    } else {
        Seq::empty()
    }) + (if p.memsz > p.filesz {
        seq![
            bss_segment(
                p,
                wrap64(program_start(p, plan.base) + p.filesz),
                (p.memsz - p.filesz) as u64,
            ),
        ]
    } else {
        Seq::empty()
    })
}

/// The segments of a program header. An executable one is split into its sections
/// where it has any, so that what is not code is not taken for it; any other is
/// one segment. What the file does not hold is zero.
#[verifier::opaque]
pub open spec fn program_segments(plan: ElfPlan, p: ElfProgram) -> Seq<SegmentView> {
    let k = plan.table.len() as int;
    if p.kind != PT_LOAD {
        Seq::empty()
    } else {
        match sections_end(plan, p, k) {
            Some(last) if is_exec(p) => section_segments(plan, p, k) + bss_tail(
                p,
                last,
                program_end(p, plan.base),
            ),
            _ => whole_segments(plan, p),
        }
    }
}

/// The segments of the first `k` program headers.
pub open spec fn segments_upto(plan: ElfPlan, programs: Seq<ElfProgram>, k: int) -> Seq<
    SegmentView,
>
    decreases k,
{
    if k <= 0 {
        Seq::empty()
    } else {
        segments_upto(plan, programs, k - 1) + program_segments(plan, programs[k - 1])
    }
}

/// The segments of an image under a base.
pub open spec fn elf_segments(img: ElfImageView, file: Seq<u8>, base: u64) -> Seq<SegmentView> {
    segments_upto(elf_plan(img, file, base), img.programs, img.programs.len() as int)
}

/// Whether an image is position-independent and linked at zero.
pub open spec fn is_pie(img: ElfImageView) -> bool {
    img.etype == ET_DYN && (exists|i: int|
        0 <= i < img.programs.len() && (#[trigger] img.programs[i]).kind == PT_LOAD
            && img.programs[i].vaddr == 0)
}

/// The base of an image: zero unless it is position-independent and linked at zero.
pub open spec fn pie_base_of(img: ElfImageView, base_override: Option<u64>) -> u64 {
    if is_pie(img) {
        match base_override {
            Some(b) => b,
            None => DEFAULT_PIE_BASE,
        }
    } else {
        0
    }
}

/// The named addresses among the first `k` symbols. The lowest bit of an address
/// only marks Thumb code.
pub open spec fn named_symbols(syms: Seq<ElfSymView>, base: u64, k: int) -> Seq<SymbolView>
    decreases k,
{
    if k <= 0 {
        Seq::empty()
    } else {
        let before = named_symbols(syms, base, k - 1);
        let sym = syms[k - 1];
        match sym.name {
            Some(name) if sym.value != 0 && name.len() > 0 => before.push(
                SymbolView { name, va: Va(wrap64(sym.value - sym.value % 2 + base)) },
            ),
            _ => before,
        }
    }
}

/// The entry point, where there is one.
pub open spec fn elf_entries(img: ElfImageView, base: u64) -> Seq<Va> {
    if img.entry != 0 {
        seq![Va(wrap64(img.entry + base))]
    } else {
        Seq::empty()
    }
}

/// Collects the mapped sections in order of address.
fn collect_sections(img: &ElfImage) -> (r: Vec<SectionInfo>)
    ensures
        r@ == section_table(img@),
        sorted(r@),
        forall|i: int|
            0 <= i < r@.len() ==> (#[trigger] r@[i]).index < img.sections@.len()
                && img@.sections[r@[i].index as int].name is Some,
{
    let mut out: Vec<SectionInfo> = Vec::new();
    let ghost all = img@.sections;
    let mut i: usize = 0;
    while i < img.sections.len()
        invariant
            i <= img.sections@.len(),
            all == img@.sections,
            sorted(out@),
            out@ == stable_sort(mapped_sections(all, i as int)),
        decreases img.sections@.len() - i,
    {
        let sh = &img.sections[i];
        assert(all[i as int] == sh@);
        if sh.kind != SHT_NULL && sh.kind != SHT_NOBITS && sh.addr != 0 && sh.size != 0 {
            match &sh.name {
                Some(name) => {
                    let byte_scannable = !(str_eq(name.as_str(), ".data.rel.ro") || str_eq(
                        name.as_str(),
                        ".data.rel.ro.local",
                    ));
                    let info = SectionInfo {
                        va: sh.addr,
                        end: sh.addr.wrapping_add(sh.size),
                        offset: sh.offset,
                        size: sh.size,
                        index: i,
                        byte_scannable,
                        is_code: (sh.flags / 4) % 2 == 1,
                    };
                    proof {
                        crate::order::lemma_stable_sort_push(
                            mapped_sections(all, i as int),
                            info,
                        );
                    }
                    insert_by_key(&mut out, info);
                },
                None => {},
            }
        }
        i = i + 1;
    }
    proof {
        let raw = mapped_sections(all, i as int);
        lemma_stable_sort(raw);
        lemma_mapped_sections(all, i as int);
        assert forall|j: int| 0 <= j < out@.len() implies (#[trigger] out@[j]).index
            < img.sections@.len() && img@.sections[out@[j].index as int].name is Some by {
            assert(out@.contains(out@[j]));
            assert(raw.contains(out@[j]));
        }
    }
    out
}

/// A mapped section has the index of a header with a name.
proof fn lemma_mapped_sections(sections: Seq<ElfSectionView>, k: int)
    requires
        0 <= k <= sections.len() <= usize::MAX,
    ensures
        forall|s: SectionInfo|
            #[trigger] mapped_sections(sections, k).contains(s) ==> s.index < k
                && sections[s.index as int].name is Some,
    decreases k,
{
    if k > 0 {
        lemma_mapped_sections(sections, k - 1);
        let before = mapped_sections(sections, k - 1);
        let all = mapped_sections(sections, k);
        assert forall|s: SectionInfo| #[trigger] all.contains(s) implies s.index < k
            && sections[s.index as int].name is Some by {
            let j = choose|j: int| 0 <= j < all.len() && all[j] == s;
            if j < before.len() {
                assert(before[j] == s);
                assert(before.contains(s));
            }
        }
    }
}

/// Whether a name is that of a mapping symbol.
fn has_mapping_name(name: &str, letter: char) -> (r: bool)
    ensures
        r == is_mapping_name(name@, letter),
{
    let len: usize = name.unicode_len();
    if len < 2 || name.get_char(0) != '$' || name.get_char(1) != letter {
        return false;
    }
    assert(len == 2 ==> name@ =~= seq!['$', letter]);
    len == 2 || name.get_char(2) == '.'
}

/// Collects the changes that mapping symbols mark, in order of address.
fn collect_mapping(img: &ElfImage) -> (r: Vec<ModeSwitch>)
    ensures
        r@ == mapping_table(img@),
        sorted(r@),
{
    let mut out: Vec<ModeSwitch> = Vec::new();
    let ghost all = img@.syms;
    let mut i: usize = 0;
    while i < img.syms.len()
        invariant
            i <= img.syms@.len(),
            all == img@.syms,
            sorted(out@),
            out@ == stable_sort(mapping_switches(all, i as int)),
        decreases img.syms@.len() - i,
    {
        let sym = &img.syms[i];
        assert(all[i as int] == sym@);
        let mode: Option<DecodeMode> = match &sym.name {
            Some(name) => if has_mapping_name(name.as_str(), 't') {
                Some(DecodeMode::Thumb)
            } else if has_mapping_name(name.as_str(), 'a') {
                Some(DecodeMode::Arm32)
            } else {
                None
            },
            None => None,
        };
        match mode {
            Some(mode) => {
                let switch = ModeSwitch { va: Va(sym.value), mode };
                proof {
                    crate::order::lemma_stable_sort_push(mapping_switches(all, i as int), switch);
                }
                insert_by_key(&mut out, switch);
            },
            None => {},
        }
        i = i + 1;
    }
    out
}

/// Adds what some symbols show of functions, in order of address.
fn add_func_switches(
    out: &mut Vec<ModeSwitch>,
    syms: &Vec<ElfSym>,
    base: u64,
    Ghost(before): Ghost<Seq<ElfSymView>>,
)
    requires
        sorted(old(out)@),
        old(out)@ == stable_sort(func_switches(before, base, before.len() as int)),
    ensures
        sorted(final(out)@),
        final(out)@ == stable_sort(
            func_switches(
                before + sym_views(syms@),
                base,
                (before + sym_views(syms@)).len() as int,
            ),
        ),
{
    let ghost all = before + sym_views(syms@);
    let mut i: usize = 0;
    proof {
        lemma_func_switches_prefix(before, all, base, before.len() as int);
    }
    while i < syms.len()
        invariant
            i <= syms@.len(),
            all == before + sym_views(syms@),
            sorted(out@),
            out@ == stable_sort(func_switches(all, base, before.len() + i)),
        decreases syms@.len() - i,
    {
        let sym = &syms[i];
        assert(all[before.len() + i] == sym@);
        if sym.value != 0 && sym.kind == STT_FUNC && sym.shndx != 0 {
            let switch = ModeSwitch {
                va: Va(sym.value - sym.value % 2) + base,
                mode: if sym.value % 2 == 1 {
                    DecodeMode::Thumb
                } else {
                    DecodeMode::Arm32
                },
            };
            proof {
                crate::order::lemma_stable_sort_push(
                    func_switches(all, base, before.len() + i),
                    switch,
                );
            }
            insert_by_key(out, switch);
        }
        i = i + 1;
    }
}

proof fn lemma_func_switches_prefix(a: Seq<ElfSymView>, b: Seq<ElfSymView>, base: u64, k: int)
    requires
        0 <= k <= a.len() <= b.len(),
        forall|i: int| 0 <= i < a.len() ==> a[i] == b[i],
    ensures
        func_switches(a, base, k) == func_switches(b, base, k),
    decreases k,
{
    if k > 0 {
        lemma_func_switches_prefix(a, b, base, k - 1);
    }
}

/// Collects what function symbols show, in order of address and once for each.
fn collect_funcs(img: &ElfImage, base: u64) -> (r: Vec<ModeSwitch>)
    ensures
        r@ == func_table(img@, base),
{
    let mut all: Vec<ModeSwitch> = Vec::new();
    let ghost none = Seq::<ElfSymView>::empty();
    add_func_switches(&mut all, &img.syms, base, Ghost(none));
    assert(none + img@.syms =~= img@.syms);
    add_func_switches(&mut all, &img.dynsyms, base, Ghost(img@.syms));
    let mut out: Vec<ModeSwitch> = Vec::new();
    let mut i: usize = 0;
    assert(first_of_each(all@.take(0)) =~= Seq::empty());
    while i < all.len()
        invariant
            i <= all@.len(),
            out@ == first_of_each(all@.take(i as int)),
        decreases all@.len() - i,
    {
        assert(all@.take(i + 1).drop_last() =~= all@.take(i as int));
        let switch = all[i];
        let n: usize = out.len();
        if !(n > 0 && out[n - 1].va == switch.va) {
            out.push(switch);
        }
        i = i + 1;
    }
    assert(all@.take(i as int) =~= all@);
    out
}

/// The changes of a segment between two addresses.
fn merge_switches(mapped: Vec<ModeSwitch>, funcs: &Vec<ModeSwitch>, lo: u64, hi: u64) -> (r: Vec<
    ModeSwitch,
>)
    ensures
        r@ == merged_switches(mapped@, funcs@, lo, hi),
{
    let mut own: Vec<ModeSwitch> = Vec::new();
    let ghost p = |f: ModeSwitch| lo <= f.va.0 < hi;
    let mut i: usize = 0;
    assert(funcs@.take(0).filter(p) =~= Seq::empty()) by {
        reveal(Seq::filter);
    }
    while i < funcs.len()
        invariant
            i <= funcs@.len(),
            p == (|f: ModeSwitch| lo <= f.va.0 < hi),
            own@ == funcs@.take(i as int).filter(p),
        decreases funcs@.len() - i,
    {
        proof {
            lemma_filter_take(funcs@, i as int, p);
        }
        let f = funcs[i];
        if lo <= f.va.0 && f.va.0 < hi {
            own.push(f);
        }
        i = i + 1;
    }
    assert(funcs@.take(i as int) =~= funcs@);
    if own.len() == 0 {
        return mapped;
    }
    let mut out: Vec<ModeSwitch> = Vec::new();
    let ghost q = |e: ModeSwitch| !marks(own@, e.va);
    let mut i: usize = 0;
    assert(mapped@.take(0).filter(q) =~= Seq::empty()) by {
        reveal(Seq::filter);
    }
    while i < mapped.len()
        invariant
            i <= mapped@.len(),
            q == (|e: ModeSwitch| !marks(own@, e.va)),
            sorted(out@),
            out@ == stable_sort(mapped@.take(i as int).filter(q)),
        decreases mapped@.len() - i,
    {
        proof {
            lemma_filter_take(mapped@, i as int, q);
        }
        let e = mapped[i];
        let mut marked = false;
        let mut j: usize = 0;
        while j < own.len()
            invariant
                j <= own@.len(),
                marked == exists|k: int| 0 <= k < j && (#[trigger] own@[k]).va == e.va,
            decreases own@.len() - j,
        {
            if own[j].va == e.va {
                assert(own@[j as int].va == e.va);
                marked = true;
            }
            j = j + 1;
        }
        assert(marked == marks(own@, e.va));
        if !marked {
            proof {
                crate::order::lemma_stable_sort_push(mapped@.take(i as int).filter(q), e);
            }
            insert_by_key(&mut out, e);
        }
        i = i + 1;
    }
    assert(mapped@.take(i as int) =~= mapped@);
    let ghost kept = mapped@.filter(q);
    let mut i: usize = 0;
    assert(kept + own@.take(0) =~= kept);
    while i < own.len()
        invariant
            i <= own@.len(),
            sorted(out@),
            out@ == stable_sort(kept + own@.take(i as int)),
        decreases own@.len() - i,
    {
        proof {
            assert(kept + own@.take(i + 1) =~= (kept + own@.take(i as int)).push(own@[i as int]));
            crate::order::lemma_stable_sort_push(kept + own@.take(i as int), own@[i as int]);
        }
        insert_by_key(&mut out, own[i]);
        i = i + 1;
    }
    assert(own@.take(i as int) =~= own@);
    out
}

/// What the segments of an image are made from.
struct Plan<'p, 'a> {
    file: &'a [u8],
    arch: Arch,
    base: u64,
    img: &'p ElfImage,
    table: Vec<SectionInfo>,
    mapping: Vec<ModeSwitch>,
    funcs: Vec<ModeSwitch>,
}

impl<'p, 'a> Plan<'p, 'a> {
    spec fn plan(&self) -> ElfPlan {
        elf_plan(self.img@, self.file@, self.base)
    }

    spec fn wf(&self) -> bool {
        &&& self.arch == elf_arch(self.img.machine)
        &&& self.table@ == section_table(self.img@)
        &&& self.mapping@ == mapping_table(self.img@)
        &&& sorted(self.mapping@)
        &&& self.funcs@ == func_table(self.img@, self.base)
        &&& forall|i: int|
            0 <= i < self.table@.len() ==> (#[trigger] self.table@[i]).index
                < self.img.sections@.len() && self.img@.sections[self.table@[i].index as int].name
                is Some
    }

    /// The encoding at the start of a section.
    fn mode_of(&self, s: &SectionInfo) -> (r: DecodeMode)
        requires
            self.wf(),
        ensures
            r == section_mode(self.plan().mapping, self.plan().file, *s),
    {
        if self.mapping.len() == 0 {
            return probe_arm32_section_mode(self.file, s.offset, s.size);
        }
        let at: usize = rank_of(&self.mapping, s.va);
        if at > 0 {
            self.mapping[at - 1].mode
        } else {
            DecodeMode::Arm32
        }
    }

    /// The changes of encoding inside a section by mapping symbols.
    fn switches_of(&self, s: &SectionInfo) -> (r: Vec<ModeSwitch>)
        requires
            self.wf(),
        ensures
            r@ == section_switches(self.plan().mapping, *s, self.base),
    {
        let from: usize = rank_of(&self.mapping, s.va);
        let to: usize = if s.end == 0 {
            0
        } else {
            rank_of(&self.mapping, s.end - 1)
        };
        let mut out: Vec<ModeSwitch> = Vec::new();
        let ghost part = self.mapping@.subrange(from as int, to as int);
        let mut i: usize = from;
        while i < to
            invariant
                from <= i,
                i <= to || from > to,
                to <= self.mapping@.len(),
                part == self.mapping@.subrange(from as int, to as int),
                from <= to ==> out@ =~= rebased(part, self.base).take(i - from),
                from > to ==> out@.len() == 0,
            decreases to - i,
        {
            let x = self.mapping[i];
            assert(part[i - from] == x);
            out.push(ModeSwitch { va: x.va + self.base, mode: x.mode });
            i = i + 1;
        }
        assert(out@ =~= section_switches(self.plan().mapping, *s, self.base));
        out
    }

    /// The segment of a section, where the file holds all of it.
    fn section_to_segment(&self, p: &ElfProgram, s: &SectionInfo) -> (r: Option<Segment<'a>>)
        requires
            self.wf(),
            s.index < self.img.sections@.len(),
            self.img@.sections[s.index as int].name is Some,
        ensures
            match section_segment(self.plan(), *p, *s) {
                Some(v) => r matches Some(seg) && seg@ == v,
                None => r is None,
            },
    {
        let total: u64 = self.file.len() as u64;
        if s.offset > total || s.size > total - s.offset {
            return None;
        }
        let from: usize = s.offset as usize;
        let to: usize = (s.offset + s.size) as usize;
        let data = &self.file[from..to];
        let arm = self.arch == Arch::Arm32 && s.is_code;
        let va = Va(s.va) + self.base;
        let mode = if arm {
            self.mode_of(s)
        } else {
            DecodeMode::Default
        };
        let switches: Vec<ModeSwitch> = if arm {
            merge_switches(self.switches_of(s), &self.funcs, va.0, (va + s.size).0)
        } else {
            Vec::new()
        };
        let name: String = match &self.img.sections[s.index].name {
            Some(name) => name.clone(),
            None => String::new(),
        };
        let seg = Segment {
            va,
            data: SegData::new(data),
            executable: s.is_code,
            readable: (p.flags / 4) % 2 == 1,
            writable: (p.flags / 2) % 2 == 1,
            byte_scannable: s.byte_scannable,
            mode,
            switches,
            name,
        };
        proof {
            let view = self.img@.sections[s.index as int];
            assert(self.plan().names[s.index as int] == view.name);
            assert(seg@ =~= section_segment(self.plan(), *p, *s).unwrap());
        }
        Some(seg)
    }

    /// Zeros that a program header has in memory.
    fn bss(&self, p: &ElfProgram, va: u64, size: u64) -> (r: Segment<'a>)
        ensures
            r@ == bss_segment(*p, va, size),
    {
        let seg = Segment {
            va: Va(va),
            data: alloc_bss(size as usize),
            executable: false,
            readable: (p.flags / 4) % 2 == 1,
            writable: (p.flags / 2) % 2 == 1,
            byte_scannable: false,
            mode: DecodeMode::Default,
            switches: Vec::new(),
            name: tagged_name("BSS", va),
        };
        assert(seg@ =~= bss_segment(*p, va, size));
        seg
    }

    /// A program header as one segment.
    fn program_to_segment(&self, p: &ElfProgram) -> (r: Segment<'a>)
        requires
            self.wf(),
            p.offset + p.filesz <= self.file@.len(),
        ensures
            r@ == program_segment(self.plan(), *p),
    {
        let total: usize = self.file.len();
        let from: usize = p.offset as usize;
        let to: usize = (p.offset + p.filesz) as usize;
        let data = &self.file[from..to];
        let va = Va(p.vaddr) + self.base;
        let end = va + p.filesz;
        let mut overlap = false;
        let mut i: usize = 0;
        while i < self.table.len()
            invariant
                i <= self.table@.len(),
                overlap == exists|j: int|
                    0 <= j < i && !(#[trigger] self.table@[j]).byte_scannable && wrap64(
                        self.table@[j].va + self.base,
                    ) < end.0 && wrap64(self.table@[j].end + self.base) > va.0,
            decreases self.table@.len() - i,
        {
            let s = &self.table[i];
            if !s.byte_scannable && (Va(s.va) + self.base).0 < end.0 && (Va(s.end) + self.base).0
                > va.0 {
                assert(!self.table@[i as int].byte_scannable);
                overlap = true;
            }
            i = i + 1;
        }
        let arm = self.arch == Arch::Arm32 && p.flags % 2 == 1;
        let mode = if arm {
            probe_arm32_section_mode(self.file, p.offset, p.filesz)
        } else {
            DecodeMode::Default
        };
        let switches: Vec<ModeSwitch> = if arm {
            merge_switches(Vec::new(), &self.funcs, va.0, end.0)
        } else {
            Vec::new()
        };
        let seg = Segment {
            va,
            data: SegData::new(data),
            executable: p.flags % 2 == 1,
            readable: (p.flags / 4) % 2 == 1,
            writable: (p.flags / 2) % 2 == 1,
            byte_scannable: !overlap,
            mode,
            switches,
            name: tagged_name("LOAD", va.0),
        };
        proof {
            let plan = self.plan();
            assert(plan.table == self.table@ && i == plan.table.len());
            if overlap {
                let j = choose|j: int|
                    0 <= j < i && !(#[trigger] self.table@[j]).byte_scannable && wrap64(
                        self.table@[j].va + self.base,
                    ) < end.0 && wrap64(self.table@[j].end + self.base) > va.0;
                assert(!plan.table[j].byte_scannable);
            }
            assert(overlap == overlaps_unscannable(plan, *p));
        }
        assert(seg@ =~= program_segment(self.plan(), *p));
        seg
    }

    /// Adds the segments of a program header.
    fn add_program(&self, p: &ElfProgram, segments: &mut Vec<Segment<'a>>)
        requires
            self.wf(),
        ensures
            segment_views(final(segments)@) == segment_views(old(segments)@) + program_segments(
                self.plan(),
                *p,
            ),
    {
        proof {
            reveal(program_segments);
        }
        let ghost start = segment_views(segments@);
        let ghost plan = self.plan();
        if p.kind != PT_LOAD {
            assert(segment_views(segments@) =~= start + Seq::<SegmentView>::empty());
            return ;
        }
        let va = Va(p.vaddr) + self.base;
        let end = va + p.memsz;
        let mut last: Option<u64> = None;
        let mut i: usize = 0;
        while i < self.table.len()
            invariant
                i <= self.table@.len(),
                plan == self.plan(),
                plan.table == self.table@,
                va.0 == program_start(*p, self.base),
                end.0 == program_end(*p, self.base),
                last == sections_end(plan, *p, i as int),
            decreases self.table@.len() - i,
        {
            let s = &self.table[i];
            let s_end: u64 = (Va(s.end) + self.base).0;
            if (Va(s.va) + self.base).0 >= va.0 && s_end <= end.0 {
                last = match last {
                    Some(e) => if e > s_end {
                        Some(e)
                    } else {
                        Some(s_end)
                    },
                    None => Some(s_end),
                };
            }
            i = i + 1;
        }
        if p.flags % 2 == 1 {
            match last {
                Some(last) => {
                    let mut i: usize = 0;
                    assert(start + section_segments(plan, *p, 0) =~= start);
                    while i < self.table.len()
                        invariant
                            i <= self.table@.len(),
                            self.wf(),
                            plan == self.plan(),
                            va.0 == program_start(*p, self.base),
                            end.0 == program_end(*p, self.base),
                            segment_views(segments@) == start + section_segments(
                                plan,
                                *p,
                                i as int,
                            ),
                        decreases self.table@.len() - i,
                    {
                        let s = &self.table[i];
                        if (Va(s.va) + self.base).0 >= va.0 && (Va(s.end) + self.base).0 <= end.0 {
                            match self.section_to_segment(p, s) {
                                Some(seg) => {
                                    let ghost before = segments@;
                                    segments.push(seg);
                                    assert(segment_views(segments@) =~= segment_views(before).push(
                                        seg@,
                                    ));
                                },
                                None => {},
                            }
                        }
                        i = i + 1;
                        assert(segment_views(segments@) =~= start + section_segments(
                            plan,
                            *p,
                            i as int,
                        ));
                    }
                    if last < end.0 {
                        let ghost before = segments@;
                        let seg = self.bss(p, last, end.0 - last);
                        segments.push(seg);
                        assert(segment_views(segments@) =~= segment_views(before).push(seg@));
                    }
                    assert(segment_views(segments@) =~= start + program_segments(plan, *p));
                    return ;
                },
                None => {},
            }
        }
        let total: u64 = self.file.len() as u64;
        if p.filesz > 0 && p.offset <= total && p.filesz <= total - p.offset {
            let ghost before = segments@;
            let seg = self.program_to_segment(p);
            segments.push(seg);
            assert(segment_views(segments@) =~= segment_views(before).push(seg@));
        }
        if p.memsz > p.filesz {
            let ghost before = segments@;
            let seg = self.bss(p, (va + p.filesz).0, p.memsz - p.filesz);
            segments.push(seg);
            assert(segment_views(segments@) =~= segment_views(before).push(seg@));
        }
        assert(segment_views(segments@) =~= start + program_segments(plan, *p));
    }
}

/// The architecture for a machine number.
fn arch_of(machine: u16) -> (r: Arch)
    ensures
        r == elf_arch(machine),
{
    if machine == EM_X86_64 {
        Arch::X86_64
    } else if machine == EM_AARCH64 {
        Arch::Arm64
    } else if machine == EM_386 {
        Arch::X86
    } else if machine == EM_ARM {
        Arch::Arm32
    } else {
        Arch::Unknown
    }
}

/// The base of an image.
fn choose_base(img: &ElfImage, base_override: Option<u64>) -> (r: u64)
    ensures
        r == pie_base_of(img@, base_override),
{
    if img.etype != ET_DYN {
        return 0;
    }
    let mut i: usize = 0;
    while i < img.programs.len()
        invariant
            i <= img.programs@.len(),
            img.etype == ET_DYN,
            forall|j: int|
                0 <= j < i ==> !((#[trigger] img.programs@[j]).kind == PT_LOAD
                    && img.programs@[j].vaddr == 0),
        decreases img.programs@.len() - i,
    {
        let p = img.programs[i];
        if p.kind == PT_LOAD && p.vaddr == 0 {
            assert(img@.programs[i as int].kind == PT_LOAD);
            assert(is_pie(img@));
            return match base_override {
                Some(b) => b,
                None => DEFAULT_PIE_BASE,
            };
        }
        i = i + 1;
    }
    0
}

/// Collects the named addresses.
fn collect_symbols(img: &ElfImage, base: u64) -> (r: Vec<Symbol>)
    ensures
        symbol_views(r@) == named_symbols(img@.syms, base, img@.syms.len() as int),
{
    let mut out: Vec<Symbol> = Vec::new();
    let ghost all = img@.syms;
    let mut i: usize = 0;
    assert(symbol_views(out@) =~= Seq::empty());
    while i < img.syms.len()
        invariant
            i <= img.syms@.len(),
            all == img@.syms,
            symbol_views(out@) == named_symbols(all, base, i as int),
        decreases img.syms@.len() - i,
    {
        let sym = &img.syms[i];
        assert(all[i as int] == sym@);
        if sym.value != 0 {
            match &sym.name {
                Some(name) => {
                    if !name.as_str().is_empty() {
                        let ghost before = out@;
                        let symbol = Symbol {
                            name: name.clone(),
                            va: Va(sym.value - sym.value % 2) + base,
                        };
                        out.push(symbol);
                        assert(symbol_views(out@) =~= symbol_views(before).push(symbol@));
                    }
                },
                None => {},
            }
        }
        i = i + 1;
    }
    out
}

/// Whether an image is loaded as its headers say.
pub open spec fn loads_elf(
    img: ElfImageView,
    file: Seq<u8>,
    base_override: Option<u64>,
    b: LoadedBinary<'_>,
) -> bool {
    &&& b.arch == elf_arch(img.machine)
    &&& b.pie_base == pie_base_of(img, base_override)
    &&& b.layout() == elf_segments(img, file, b.pie_base)
    &&& b.entry_points@ == elf_entries(img, b.pie_base)
    &&& symbol_views(b.symbols@) == named_symbols(img.syms, b.pie_base, img.syms.len() as int)
    &&& b.got_slots@ == elf_slots(img, b.pie_base)
    &&& b.reloc_pointers@ == elf_pointers(img, file, b.pie_base, b.layout())
}

/// Loads an ELF image from its headers.
///
/// A position-independent image that is linked at zero is moved to
/// `base_override`, or to [`DEFAULT_PIE_BASE`] where that is `None`: the base is
/// added to every address.
pub fn parse_elf<'a>(bytes: &'a [u8], img: &ElfImage, base_override: Option<u64>) -> (r:
    LoadedBinary<'a>)
    ensures
        loads_elf(img@, bytes@, base_override, r),
{
    let arch = arch_of(img.machine);
    let pie_base: u64 = choose_base(img, base_override);
    let plan = Plan {
        file: bytes,
        arch,
        base: pie_base,
        img,
        table: collect_sections(img),
        mapping: collect_mapping(img),
        funcs: collect_funcs(img, pie_base),
    };
    let mut segments: Vec<Segment<'a>> = Vec::new();
    let mut i: usize = 0;
    assert(segment_views(segments@) =~= Seq::empty());
    while i < img.programs.len()
        invariant
            i <= img.programs@.len(),
            plan.wf(),
            plan.img == img,
            plan.plan() == elf_plan(img@, bytes@, pie_base),
            segment_views(segments@) == segments_upto(plan.plan(), img@.programs, i as int),
        decreases img.programs@.len() - i,
    {
        plan.add_program(&img.programs[i], &mut segments);
        i = i + 1;
    }
    let mut entry_points: Vec<Va> = Vec::new();
    if img.entry != 0 {
        entry_points.push(Va(img.entry) + pie_base);
    }
    assert(entry_points@ =~= elf_entries(img@, pie_base));
    let symbols = collect_symbols(img, pie_base);
    let got_slots = build_elf_got_slots(img, pie_base);
    let reloc_pointers = build_elf_reloc_pointers(img, bytes, pie_base, &segments);
    LoadedBinary {
        arch,
        segments,
        entry_points,
        symbols,
        pie_base,
        got_slots,
        reloc_pointers,
    }
}

/// Whether every address of an image stays inside 64 bits when a base is added.
pub open spec fn fits_at(img: ElfImageView, base: u64) -> bool {
    &&& forall|i: int|
        0 <= i < img.sections.len() ==> (#[trigger] img.sections[i]).addr + img.sections[i].size
            + base <= u64::MAX
    &&& forall|i: int|
        0 <= i < img.programs.len() ==> (#[trigger] img.programs[i]).vaddr
            + img.programs[i].memsz + base <= u64::MAX && img.programs[i].vaddr
            + img.programs[i].filesz + base <= u64::MAX
}

/// Whether two segments are the same but for a shift of the address, and what goes
/// with it in the name and the changes of encoding.
pub open spec fn shifted_segment(a: SegmentView, b: SegmentView, base: u64) -> bool {
    &&& b.va.0 == a.va.0 + base
    &&& b.data == a.data
    &&& b.executable == a.executable
    &&& b.readable == a.readable
    &&& b.writable == a.writable
    &&& b.byte_scannable == a.byte_scannable
    &&& b.mode == a.mode
}

/// Whether two lists of segments are the same but for a shift.
pub open spec fn shifted(a: Seq<SegmentView>, b: Seq<SegmentView>, base: u64) -> bool {
    a.len() == b.len() && forall|i: int|
        0 <= i < a.len() ==> shifted_segment(#[trigger] a[i], b[i], base)
}

proof fn lemma_shifted_concat(
    a1: Seq<SegmentView>,
    b1: Seq<SegmentView>,
    a2: Seq<SegmentView>,
    b2: Seq<SegmentView>,
    base: u64,
)
    requires
        shifted(a1, b1, base),
        shifted(a2, b2, base),
    ensures
        shifted(a1 + a2, b1 + b2, base),
{
    assert forall|i: int| 0 <= i < (a1 + a2).len() implies shifted_segment(
        #[trigger] (a1 + a2)[i],
        (b1 + b2)[i],
        base,
    ) by {
        if i < a1.len() {
            assert((a1 + a2)[i] == a1[i]);
            assert((b1 + b2)[i] == b1[i]);
        } else {
            assert((a1 + a2)[i] == a2[i - a1.len()]);
            assert((b1 + b2)[i] == b2[i - a1.len()]);
        }
    }
}

/// Whether the mapped sections stay inside 64 bits when a base is added.
spec fn table_fits(table: Seq<SectionInfo>, base: u64) -> bool {
    forall|i: int|
        0 <= i < table.len() ==> (#[trigger] table[i]).va + table[i].size + base <= u64::MAX
            && table[i].end == table[i].va + table[i].size
}

proof fn lemma_table_fits(img: ElfImageView, base: u64)
    requires
        fits_at(img, base),
    ensures
        table_fits(section_table(img), base),
{
    let n = img.sections.len() as int;
    let raw = mapped_sections(img.sections, n);
    let table = section_table(img);
    lemma_raw_fits(img, base, n);
    lemma_stable_sort(raw);
    assert forall|i: int| 0 <= i < table.len() implies (#[trigger] table[i]).va + table[i].size
        + base <= u64::MAX && table[i].end == table[i].va + table[i].size by {
        assert(table.contains(table[i]));
        assert(raw.contains(table[i]));
        let j = choose|j: int| 0 <= j < raw.len() && raw[j] == table[i];
        assert(raw[j].va + raw[j].size + base <= u64::MAX);
    }
}

proof fn lemma_raw_fits(img: ElfImageView, base: u64, k: int)
    requires
        fits_at(img, base),
        0 <= k <= img.sections.len(),
    ensures
        table_fits(mapped_sections(img.sections, k), base),
    decreases k,
{
    if k > 0 {
        lemma_raw_fits(img, base, k - 1);
        let before = mapped_sections(img.sections, k - 1);
        let all = mapped_sections(img.sections, k);
        assert forall|i: int| 0 <= i < all.len() implies (#[trigger] all[i]).va + all[i].size
            + base <= u64::MAX && all[i].end == all[i].va + all[i].size by {
            if i < before.len() {
                assert(all[i] == before[i]);
            } else {
                assert(img.sections[k - 1].addr + img.sections[k - 1].size + base <= u64::MAX);
            }
        }
    }
}

/// Where the plans agree: all but the base and what goes with it.
spec fn same_plan(a: ElfPlan, b: ElfPlan) -> bool {
    &&& a.base == 0
    &&& a.table == b.table
    &&& a.file == b.file
    &&& a.arch == b.arch
    &&& a.mapping == b.mapping
    &&& table_fits(a.table, b.base)
}

proof fn lemma_inside_shift(s: SectionInfo, p: ElfProgram, base: u64)
    requires
        s.va + s.size + base <= u64::MAX,
        s.end == s.va + s.size,
        p.vaddr + p.memsz + base <= u64::MAX,
    ensures
        inside(s, p, 0) == inside(s, p, base),
        wrap64(s.va + base) == s.va + base,
        wrap64(s.va + 0) == s.va,
        wrap64(s.end + base) == s.end + base,
        wrap64(s.end + 0) == s.end,
        program_start(p, 0) == p.vaddr,
        program_start(p, base) == p.vaddr + base,
        program_end(p, 0) == p.vaddr + p.memsz,
        program_end(p, base) == p.vaddr + p.memsz + base,
{
}

proof fn lemma_section_segment_shift(a: ElfPlan, b: ElfPlan, p: ElfProgram, s: SectionInfo)
    requires
        same_plan(a, b),
        s.va + s.size + b.base <= u64::MAX,
    ensures
        match section_segment(a, p, s) {
            Some(x) => section_segment(b, p, s) matches Some(y) && shifted_segment(x, y, b.base),
            None => section_segment(b, p, s) is None,
        },
{
    assert(wrap64(s.va + b.base) == s.va + b.base);
    assert(wrap64(s.va + 0) == s.va);
}

/// The sections inside a program header are the same under every base.
proof fn lemma_section_segments_shift(a: ElfPlan, b: ElfPlan, p: ElfProgram, k: int)
    requires
        same_plan(a, b),
        p.vaddr + p.memsz + b.base <= u64::MAX,
        0 <= k <= a.table.len(),
    ensures
        shifted(section_segments(a, p, k), section_segments(b, p, k), b.base),
    decreases k,
{
    if k > 0 {
        lemma_section_segments_shift(a, b, p, k - 1);
        let s = a.table[k - 1];
        assert(s.va + s.size + b.base <= u64::MAX);
        lemma_inside_shift(s, p, b.base);
        lemma_section_segment_shift(a, b, p, s);
        let before_a = section_segments(a, p, k - 1);
        let before_b = section_segments(b, p, k - 1);
        if inside(s, p, 0) && section_segment(a, p, s) is Some {
            let x = section_segment(a, p, s).unwrap();
            let y = section_segment(b, p, s).unwrap();
            assert(section_segments(a, p, k) =~= before_a + seq![x]);
            assert(section_segments(b, p, k) =~= before_b + seq![y]);
            lemma_shifted_concat(before_a, before_b, seq![x], seq![y], b.base);
        } else {
            assert(section_segments(a, p, k) == before_a);
            assert(section_segments(b, p, k) == before_b);
        }
    }
}

/// So is where they end, but for the shift.
proof fn lemma_sections_end_shift(a: ElfPlan, b: ElfPlan, p: ElfProgram, k: int)
    requires
        same_plan(a, b),
        p.vaddr + p.memsz + b.base <= u64::MAX,
        0 <= k <= a.table.len(),
    ensures
        match sections_end(a, p, k) {
            Some(e) => sections_end(b, p, k) matches Some(f) && f == e + b.base && e <= p.vaddr
                + p.memsz,
            None => sections_end(b, p, k) is None,
        },
    decreases k,
{
    if k > 0 {
        lemma_sections_end_shift(a, b, p, k - 1);
        let s = a.table[k - 1];
        assert(s.va + s.size + b.base <= u64::MAX);
        lemma_inside_shift(s, p, b.base);
    }
}

proof fn lemma_overlap_shift(a: ElfPlan, b: ElfPlan, p: ElfProgram)
    requires
        same_plan(a, b),
        p.vaddr + p.filesz + b.base <= u64::MAX,
    ensures
        overlaps_unscannable(a, p) == overlaps_unscannable(b, p),
{
    let start_a = program_start(p, a.base);
    let end_a = wrap64(start_a + p.filesz);
    let start_b = program_start(p, b.base);
    let end_b = wrap64(start_b + p.filesz);
    assert(start_b == start_a + b.base && end_b == end_a + b.base);
    assert forall|i: int| 0 <= i < a.table.len() implies wrap64(
        (#[trigger] a.table[i]).va + b.base,
    ) == wrap64(a.table[i].va + a.base) + b.base && wrap64(a.table[i].end + b.base) == wrap64(
        a.table[i].end + a.base,
    ) + b.base by {
        assert(a.table[i].va + a.table[i].size + b.base <= u64::MAX);
    }
    if overlaps_unscannable(a, p) {
        let i = choose|i: int|
            0 <= i < a.table.len() && !(#[trigger] a.table[i]).byte_scannable && wrap64(
                a.table[i].va + a.base,
            ) < end_a && wrap64(a.table[i].end + a.base) > start_a;
        assert(!b.table[i].byte_scannable);
    }
    if overlaps_unscannable(b, p) {
        let i = choose|i: int|
            0 <= i < b.table.len() && !(#[trigger] b.table[i]).byte_scannable && wrap64(
                b.table[i].va + b.base,
            ) < end_b && wrap64(b.table[i].end + b.base) > start_b;
        assert(!a.table[i].byte_scannable);
    }
}

proof fn lemma_whole_shift(a: ElfPlan, b: ElfPlan, p: ElfProgram)
    requires
        same_plan(a, b),
        p.vaddr + p.filesz + b.base <= u64::MAX,
    ensures
        shifted(whole_segments(a, p), whole_segments(b, p), b.base),
{
    lemma_overlap_shift(a, b, p);
    assert(program_start(p, 0) == p.vaddr);
    assert(program_start(p, b.base) == p.vaddr + b.base);
    let va_a = wrap64(program_start(p, a.base) + p.filesz);
    let va_b = wrap64(program_start(p, b.base) + p.filesz);
    assert(va_b == va_a + b.base);
    let size = (p.memsz - p.filesz) as u64;
    let x = program_segment(a, p);
    let y = program_segment(b, p);
    assert(shifted_segment(x, y, b.base));
    assert(shifted_segment(bss_segment(p, va_a, size), bss_segment(p, va_b, size), b.base));
}

proof fn lemma_tail_shift(p: ElfProgram, va: u64, end: u64, base: u64)
    requires
        va + base <= u64::MAX,
        end + base <= u64::MAX,
    ensures
        shifted(bss_tail(p, va, end), bss_tail(p, (va + base) as u64, (end + base) as u64), base),
{
}

/// The segments of a program header are the same under every base, but for the
/// shift.
#[verifier::rlimit(30)]
proof fn lemma_program_shift(a: ElfPlan, b: ElfPlan, p: ElfProgram)
    requires
        same_plan(a, b),
        p.vaddr + p.memsz + b.base <= u64::MAX,
        p.vaddr + p.filesz + b.base <= u64::MAX,
    ensures
        shifted(program_segments(a, p), program_segments(b, p), b.base),
{
    let k = a.table.len() as int;
    lemma_sections_end_shift(a, b, p, k);
    if p.kind == PT_LOAD {
        if is_exec(p) && sections_end(a, p, k) is Some {
            let last = sections_end(a, p, k).unwrap();
            let end = program_end(p, a.base);
            assert(end == p.vaddr + p.memsz);
            assert(program_end(p, b.base) == end + b.base);
            lemma_section_segments_shift(a, b, p, k);
            lemma_tail_shift(p, last, end, b.base);
            lemma_shifted_concat(
                section_segments(a, p, k),
                section_segments(b, p, k),
                bss_tail(p, last, end),
                bss_tail(p, (last + b.base) as u64, (end + b.base) as u64),
                b.base,
            );
        } else {
            lemma_whole_shift(a, b, p);
        }
    }
    reveal(program_segments);
}

proof fn lemma_segments_shift(a: ElfPlan, b: ElfPlan, img: ElfImageView, k: int)
    requires
        same_plan(a, b),
        fits_at(img, b.base),
        0 <= k <= img.programs.len(),
    ensures
        shifted(segments_upto(a, img.programs, k), segments_upto(b, img.programs, k), b.base),
    decreases k,
{
    if k > 0 {
        lemma_segments_shift(a, b, img, k - 1);
        assert(img.programs[k - 1].vaddr + img.programs[k - 1].memsz + b.base <= u64::MAX);
        lemma_program_shift(a, b, img.programs[k - 1]);
        lemma_shifted_concat(
            segments_upto(a, img.programs, k - 1),
            segments_upto(b, img.programs, k - 1),
            program_segments(a, img.programs[k - 1]),
            program_segments(b, img.programs[k - 1]),
            b.base,
        );
    }
}

/// A base moves every segment of an image by exactly the base, and changes neither
/// their number nor what they hold.
pub proof fn law_base_shifts_segments(img: ElfImageView, file: Seq<u8>, base: u64)
    requires
        fits_at(img, base),
    ensures
        shifted(elf_segments(img, file, 0), elf_segments(img, file, base), base),
{
    lemma_table_fits(img, base);
    lemma_segments_shift(
        elf_plan(img, file, 0),
        elf_plan(img, file, base),
        img,
        img.programs.len() as int,
    );
}

/// Function symbols decide where they and mapping symbols mark the same address:
/// every change that a function in the range shows is among the merged ones, no
/// other stands at its address, and the changes of mapping symbols elsewhere stay.
pub proof fn law_functions_decide(
    mapped: Seq<ModeSwitch>,
    funcs: Seq<ModeSwitch>,
    lo: u64,
    hi: u64,
    f: ModeSwitch,
    e: ModeSwitch,
)
    requires
        funcs.contains(f),
        lo <= f.va.0 < hi,
    ensures
        merged_switches(mapped, funcs, lo, hi).contains(f),
        merged_switches(mapped, funcs, lo, hi).contains(e) && e.va == f.va ==> funcs.contains(e),
        mapped.contains(e) && !marks(funcs, e.va) ==> merged_switches(
            mapped,
            funcs,
            lo,
            hi,
        ).contains(e),
{
    broadcast use vstd::seq_lib::group_filter_ensures;

    let in_range = |x: ModeSwitch| lo <= x.va.0 < hi;
    let own = funcs.filter(in_range);
    let unmarked = |x: ModeSwitch| !marks(own, x.va);
    let kept = mapped.filter(unmarked);
    assert(own.contains(f));
    let at = choose|i: int| 0 <= i < own.len() && own[i] == f;
    lemma_stable_sort(kept + own);
    assert((kept + own)[kept.len() + at] == f);
    assert((kept + own).contains(f));
    if merged_switches(mapped, funcs, lo, hi).contains(e) && e.va == f.va {
        assert(marks(own, e.va)) by {
            assert(own[at].va == e.va);
        }
        let j = choose|j: int| 0 <= j < (kept + own).len() && (kept + own)[j] == e;
        if j < kept.len() {
            assert(kept.contains(e)) by {
                assert(kept[j] == e);
            }
            assert(unmarked(e));
        } else {
            assert(own[j - kept.len()] == e);
            funcs.lemma_filter_contains_rev(in_range, e);
        }
    }
    if mapped.contains(e) && !marks(funcs, e.va) {
        assert(!marks(own, e.va)) by {
            if marks(own, e.va) {
                let i = choose|i: int| 0 <= i < own.len() && (#[trigger] own[i]).va == e.va;
                funcs.lemma_filter_contains_rev(in_range, own[i]);
                let k = choose|k: int| 0 <= k < funcs.len() && funcs[k] == own[i];
                assert(funcs[k].va == e.va);
            }
        }
        assert(unmarked(e));
        assert(kept.contains(e));
        let j = choose|j: int| 0 <= j < kept.len() && kept[j] == e;
        assert((kept + own)[j] == e);
        assert((kept + own).contains(e));
    }
}

/// A LOAD header that no section divides becomes a segment of its bytes in the file,
/// the base past its address, with the rights of its three flag bits: execute, write
/// and read. What it takes in memory beyond them becomes zeros right behind.
pub proof fn law_program_becomes(plan: ElfPlan, p: ElfProgram)
    requires
        p.kind == 1,
        p.flags % 2 == 0 || sections_end(plan, p, plan.table.len() as int) is None,
        0 < p.filesz,
        p.offset + p.filesz <= plan.file.len(),
    ensures
        ({
            let made = program_segments(plan, p);
            let own = made[0];
            &&& made.len() == if p.memsz > p.filesz {
                2int
            } else {
                1
            }
            &&& own.va == Va(wrap64(p.vaddr + plan.base))
            &&& own.data.len() == p.filesz
            &&& forall|i: int| 0 <= i < p.filesz ==> own.data[i] == #[trigger] plan.file[p.offset
                + i]
            &&& own.executable == (p.flags % 2 == 1)
            &&& own.writable == (p.flags % 4 >= 2)
            &&& own.readable == (p.flags % 8 >= 4)
            &&& p.memsz > p.filesz ==> made[1].va == Va(wrap64(p.vaddr + plan.base + p.filesz))
                && made[1].data == zeros((p.memsz - p.filesz) as u64 as usize as nat)
                && !made[1].executable && made[1].writable == own.writable && made[1].readable
                == own.readable && !made[1].byte_scannable
        }),
{
    reveal(program_segments);
    crate::va::lemma_wrap64_sum(p.vaddr + plan.base, p.filesz as int);
    let own = program_segments(plan, p)[0];
    assert forall|i: int| 0 <= i < p.filesz implies own.data[i] == #[trigger] plan.file[p.offset
        + i] by {}
}

/// A section of an executable LOAD header becomes a segment of its bytes in the file,
/// the base past its address: code by its own flag, readable and writable as the header
/// says.
pub proof fn law_section_of_program(plan: ElfPlan, p: ElfProgram, sect: ElfSectionView, i: int)
    requires
        sect.offset + sect.size <= plan.file.len(),
        sect.name is Some,
    ensures
        section_segment(plan, p, section_info(sect, i)) matches Some(own) && own.va == Va(
            wrap64(sect.addr + plan.base),
        ) && own.data.len() == sect.size && (forall|j: int|
            0 <= j < sect.size ==> own.data[j] == #[trigger] plan.file[sect.offset + j])
            && own.executable == (sect.flags % 8 >= 4) && own.writable == (p.flags % 4 >= 2)
            && own.readable == (p.flags % 8 >= 4) && own.byte_scannable == (sect.name != Some(
            ".data.rel.ro"@,
        ) && sect.name != Some(".data.rel.ro.local"@)),
{
    let own = section_segment(plan, p, section_info(sect, i)).unwrap();
    assert forall|j: int| 0 <= j < sect.size implies own.data[j] == #[trigger] plan.file[sect.offset
        + j] by {}
}

/// A named symbol lies the base past its value, whose lowest bit does not count; a
/// symbol without a name or a value is left out.
pub proof fn law_symbol_moves(syms: Seq<ElfSymView>, base: u64, k: int)
    requires
        0 <= k < syms.len(),
    ensures
        syms[k].value != 0 && (syms[k].name matches Some(n) && n.len() > 0) ==> named_symbols(
            syms,
            base,
            k + 1,
        ) == named_symbols(syms, base, k).push(
            SymbolView {
                name: syms[k].name.unwrap(),
                va: Va(wrap64(2 * (syms[k].value as int / 2) + base)),
            },
        ),
        syms[k].value == 0 || syms[k].name is None || syms[k].name == Some(Seq::<char>::empty())
            ==> named_symbols(syms, base, k + 1) == named_symbols(syms, base, k),
{
}

/// A function symbol that the image defines marks its encoding: Thumb where its value is
/// odd, ARM where it is even, at the even address the base past it.
pub proof fn law_function_marks(sym: ElfSymView, base: u64)
    requires
        sym.value != 0,
        sym.kind == 2,
        sym.shndx != 0,
    ensures
        func_switch(sym, base) == Some(
            ModeSwitch {
                va: Va(wrap64(2 * (sym.value as int / 2) + base)),
                mode: if sym.value % 2 == 1 {
                    DecodeMode::Thumb
                } else {
                    DecodeMode::Arm32
                },
            },
        ),
{
}

proof fn lemma_all_votes(file: Seq<u8>, offset: int, n: int, yes: bool)
    requires
        0 <= n,
        forall|i: int|
            0 <= i < n ==> ((#[trigger] le32(file, offset + 4 * i)) / 0x1000_0000 == 0xE) == yes,
    ensures
        arm_votes(file, offset, n) == if yes {
            n
        } else {
            0
        },
    decreases n,
{
    if n > 0 {
        lemma_all_votes(file, offset, n - 1, yes);
        assert((le32(file, offset + 4 * (n - 1)) / 0x1000_0000 == 0xE) == yes);
    }
}

/// Code whose first sixteen words, or all it has, start with the digit of unconditional
/// ARM instructions is ARM; code of which none does is Thumb.
pub proof fn law_probe_decides(file: Seq<u8>, offset: int, size: int, yes: bool)
    requires
        0 <= offset,
        4 <= size,
        offset + 4 <= file.len(),
        forall|i: int|
            0 <= i < 16 && 4 * i + 4 <= size && offset + 4 * i + 4 <= file.len() ==> ((
            #[trigger] le32(file, offset + 4 * i)) / 0x1000_0000 == 0xE) == yes,
    ensures
        probed_mode(file, offset, size) == if yes {
            DecodeMode::Arm32
        } else {
            DecodeMode::Thumb
        },
{
    lemma_all_votes(file, offset, probe_count(file, offset, size), yes);
}

/// The entry point lies the base past where the header says, and a position-independent
/// image is one that loads something at zero.
pub proof fn law_base_and_entry(img: ElfImageView, base: Option<u64>, p: int)
    requires
        0 <= p < img.programs.len(),
        img.programs[p].kind == 1,
        img.programs[p].vaddr == 0,
        img.etype == 3,
        img.entry != 0,
    ensures
        base matches Some(b) ==> pie_base_of(img, base) == b && elf_entries(
            img,
            pie_base_of(img, base),
        ) == seq![Va(wrap64(img.entry + b))],
        base is None ==> pie_base_of(img, base) == 0x40_0000 && elf_entries(
            img,
            pie_base_of(img, base),
        ) == seq![Va(wrap64(img.entry + 0x40_0000))],
{
    assert(is_pie(img));
}

/// An image of another type, or one that loads nothing at zero, stays where it is,
/// whatever base is asked for.
pub proof fn law_fixed_image_stays(img: ElfImageView, base: Option<u64>)
    requires
        img.etype != 3 || forall|p: int|
            0 <= p < img.programs.len() ==> (#[trigger] img.programs[p]).kind != 1
                || img.programs[p].vaddr != 0,
    ensures
        pie_base_of(img, base) == 0,
{
}

} // verus!
