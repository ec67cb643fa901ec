//! PE images: from section headers and directories to segments and pointers.

use crate::bytes::{le16, le32, le64, read_u16_le, read_u32_le, read_u64_le, wrap32};
use crate::loader::elf::opt_text;
use crate::loader::{
    alloc_bss, in_spans, segment_views, symbol_views, zeros, Arch, DecodeMode, LoadedBinary,
    RelocPointer, SegData, Segment, SegmentView, Symbol, SymbolView, VaRangeSet,
};
use crate::order::{
    insert_by_key, last_at_most, lemma_rank, lemma_stable_sort, lemma_stable_sort_push, rank,
    rank_of, sorted, stable_sort, Keyed,
};
use crate::slots::add_slot;
use crate::text::starts_with;
use crate::va::{wrap64, Va};
use rustc_hash::FxHashSet;
use vstd::prelude::*;
use vstd::string::StringExecFns;

verus! {

pub const MACHINE_X86: u16 = 0x14c;

pub const MACHINE_ARMNT: u16 = 0x1c4;

pub const MACHINE_X86_64: u16 = 0x8664;

pub const MACHINE_ARM64: u16 = 0xaa64;

/// Type of a base relocation of an eight-byte slot.
pub const IMAGE_REL_BASED_DIR64: u16 = 10;

/// A section header of a PE or COFF file.
#[derive(Clone, Debug)]
pub struct PeSection {
    /// Address relative to the image base.
    pub rva: u32,
    /// Size in memory.
    pub virtual_size: u32,
    /// Position and size in the file.
    pub raw_offset: u32,
    pub raw_size: u32,
    /// Characteristics.
    pub flags: u32,
    /// Name, where it is text.
    pub name: Option<String>,
}

/// What a [`PeSection`] says.
#[verifier::ext_equal]
pub struct PeSectionView {
    pub rva: u32,
    pub virtual_size: u32,
    pub raw_offset: u32,
    pub raw_size: u32,
    pub flags: u32,
    pub name: Option<Seq<char>>,
}

impl View for PeSection {
    type V = PeSectionView;

    open spec fn view(&self) -> PeSectionView {
        PeSectionView {
            rva: self.rva,
            virtual_size: self.virtual_size,
            raw_offset: self.raw_offset,
            raw_size: self.raw_size,
            flags: self.flags,
            name: opt_text(self.name),
        }
    }
}

/// What a list of section headers says.
pub open spec fn pe_section_views(s: Seq<PeSection>) -> Seq<PeSectionView> {
    s.map_values(|x: PeSection| x@)
}

/// The name of a section, `?` where it is no text.
pub open spec fn section_name(s: PeSectionView) -> Seq<char> {
    match s.name {
        Some(n) => n,
        None => "?"@,
    }
}

impl PeSectionView {
    pub open spec fn executable(self) -> bool {
        (self.flags / 0x2000_0000) % 2 == 1
    }

    pub open spec fn readable(self) -> bool {
        (self.flags / 0x4000_0000) % 2 == 1
    }

    pub open spec fn writable(self) -> bool {
        (self.flags / 0x8000_0000) % 2 == 1
    }
}

/// An exported symbol.
#[derive(Clone, Debug)]
pub struct PeExport {
    pub name: Option<String>,
    pub rva: u64,
}

/// What a [`PeExport`] says.
#[verifier::ext_equal]
pub struct PeExportView {
    pub name: Option<Seq<char>>,
    pub rva: u64,
}

impl View for PeExport {
    type V = PeExportView;

    open spec fn view(&self) -> PeExportView {
        PeExportView { name: opt_text(self.name), rva: self.rva }
    }
}

/// What a list of exports says.
pub open spec fn export_views(s: Seq<PeExport>) -> Seq<PeExportView> {
    s.map_values(|x: PeExport| x@)
}

/// Address and size of a table in the image.
#[derive(Clone, Copy, Debug, PartialEq, Eq, Structural)]
pub struct PeDirectory {
    pub rva: u32,
    pub size: u32,
}

/// The parts of a PE file that loading looks at.
#[derive(Clone, Debug)]
pub struct PeImage {
    pub machine: u16,
    pub image_base: u64,
    pub entry: u32,
    pub sections: Vec<PeSection>,
    pub exports: Vec<PeExport>,
    /// Addresses of the import slots, relative to the image base.
    pub imports: Vec<u64>,
    /// Table of the functions with unwind information.
    pub exceptions: Option<PeDirectory>,
    /// Table of the base relocations.
    pub relocations: Option<PeDirectory>,
}

/// What a [`PeImage`] says.
#[verifier::ext_equal]
pub struct PeImageView {
    pub machine: u16,
    pub image_base: u64,
    pub entry: u32,
    pub sections: Seq<PeSectionView>,
    pub exports: Seq<PeExportView>,
    pub imports: Seq<u64>,
    pub exceptions: Option<PeDirectory>,
    pub relocations: Option<PeDirectory>,
}

impl View for PeImage {
    type V = PeImageView;

    open spec fn view(&self) -> PeImageView {
        PeImageView {
            machine: self.machine,
            image_base: self.image_base,
            entry: self.entry,
            sections: pe_section_views(self.sections@),
            exports: export_views(self.exports@),
            imports: self.imports@,
            exceptions: self.exceptions,
            relocations: self.relocations,
        }
    }
}

/// The architecture for a machine number.
pub open spec fn pe_arch(machine: u16) -> Arch {
    if machine == MACHINE_X86_64 {
        Arch::X86_64
    } else if machine == MACHINE_X86 {
        Arch::X86
    } else if machine == MACHINE_ARM64 {
        Arch::Arm64
    } else if machine == MACHINE_ARMNT {
        Arch::Arm32
    } else {
        Arch::Unknown
    }
}

/// The architecture for a machine number.
pub fn pe_arch_of(machine: u16) -> (r: Arch)
    ensures
        r == pe_arch(machine),
{
    if machine == MACHINE_X86_64 {
        Arch::X86_64
    } else if machine == MACHINE_X86 {
        Arch::X86
    } else if machine == MACHINE_ARM64 {
        Arch::Arm64
    } else if machine == MACHINE_ARMNT {
        Arch::Arm32
    } else {
        Arch::Unknown
    }
}

/// A segment of a section with the given bytes.
pub open spec fn pe_segment(
    s: PeSectionView,
    va: u64,
    data: Seq<u8>,
    byte_scannable: bool,
    name: Seq<char>,
) -> SegmentView {
    SegmentView {
        va: Va(va),
        data,
        executable: s.executable(),
        readable: s.readable(),
        writable: s.writable(),
        byte_scannable,
        mode: DecodeMode::Default,
        switches: Seq::empty(),
        name,
    }
}

/// The bytes of a section in the file.
pub open spec fn raw_bytes(s: PeSectionView, file: Seq<u8>) -> Seq<u8> {
    file.subrange(s.raw_offset as int, s.raw_offset + s.raw_size)
}

/// The segments of a section: its bytes in the file, before them the memory that
/// it has besides. A section of which the file holds only a part has none. Debug
/// information is never scanned for pointers.
#[verifier::opaque]
pub open spec fn pe_section_segments(s: PeSectionView, file: Seq<u8>, image_base: u64) -> Seq<
    SegmentView,
> {
    let va = wrap64(image_base + s.rva);
    let name = section_name(s);
    let held = s.raw_offset + s.raw_size <= file.len();
    if ".debug_"@.is_prefix_of(name) {
        if s.raw_size > 0 && held {
            seq![pe_segment(s, va, raw_bytes(s, file), false, name)]
        } else {
            Seq::empty()
        }
    } else if s.raw_size == 0 {
        if s.virtual_size == 0 {
            Seq::empty()
        } else {
            seq![pe_segment(s, va, zeros(s.virtual_size as nat), false, name)]
        }
    } else if !held {
        Seq::empty()
    } else {
        (if s.virtual_size > s.raw_size {
            seq![
                pe_segment(
                    s,
                    wrap64(va + s.raw_size),
                    zeros((s.virtual_size - s.raw_size) as nat),
                    false,
                    name + "[bss]"@,
                ),
            ]
        } else {
            Seq::empty()
        }).push(pe_segment(s, va, raw_bytes(s, file), true, name))
    }
}

/// The segments of the first `k` sections.
pub open spec fn pe_segments(
    sections: Seq<PeSectionView>,
    file: Seq<u8>,
    image_base: u64,
    k: int,
) -> Seq<SegmentView>
    decreases k,
{
    if k <= 0 {
        Seq::empty()
    } else {
        pe_segments(sections, file, image_base, k - 1) + pe_section_segments(
            sections[k - 1],
            file,
            image_base,
        )
    }
}

/// The named ones of the first `k` exports.
pub open spec fn pe_symbols(exports: Seq<PeExportView>, image_base: u64, k: int) -> Seq<SymbolView>
    decreases k,
{
    if k <= 0 {
        Seq::empty()
    } else {
        let before = pe_symbols(exports, image_base, k - 1);
        match exports[k - 1].name {
            Some(name) => before.push(
                SymbolView { name, va: Va(wrap64(image_base + exports[k - 1].rva)) },
            ),
            None => before,
        }
    }
}

/// The slots of the first `k` imports.
pub open spec fn import_slots(imports: Seq<u64>, image_base: u64, k: int) -> Set<u64>
    decreases k,
{
    if k <= 0 {
        Set::empty()
    } else {
        import_slots(imports, image_base, k - 1).insert(wrap64(image_base + imports[k - 1]))
    }
}

/// The entry point, where there is one.
pub open spec fn pe_entries(img: PeImageView) -> Seq<Va> {
    if img.entry != 0 {
        seq![Va(wrap64(img.image_base + img.entry))]
    } else {
        Seq::empty()
    }
}

/// A section that the file holds bytes of.
#[derive(Clone, Copy, Debug, PartialEq, Eq, Structural)]
pub struct PeSectionEntry {
    pub rva: u32,
    pub end_rva: u32,
    pub raw_offset: u32,
    pub raw_size: u32,
}

impl Keyed for PeSectionEntry {
    open spec fn key(&self) -> u64 {
        self.rva as u64
    }

    fn get_key(&self) -> (r: u64) {
        self.rva as u64
    }
}

/// Those of the first `k` sections that the file holds bytes of.
pub open spec fn held_sections(sections: Seq<PeSectionView>, k: int) -> Seq<PeSectionEntry>
    decreases k,
{
    if k <= 0 {
        Seq::empty()
    } else {
        let before = held_sections(sections, k - 1);
        let s = sections[k - 1];
        if s.raw_size > 0 {
            before.push(
                PeSectionEntry {
                    rva: s.rva,
                    end_rva: wrap32(s.rva + s.virtual_size),
                    raw_offset: s.raw_offset,
                    raw_size: s.raw_size,
                },
            )
        } else {
            before
        }
    }
}

/// The sections that the file holds bytes of, by address.
pub open spec fn section_map(sections: Seq<PeSectionView>) -> Seq<PeSectionEntry> {
    stable_sort(held_sections(sections, sections.len() as int))
}

/// Where in the file an address of the image is.
pub open spec fn rva_offset(map: Seq<PeSectionEntry>, rva: u32) -> Option<int> {
    match last_at_most(map, rva as u64) {
        Some(e) => if rva < e.end_rva && rva - e.rva < e.raw_size {
            Some(e.raw_offset + (rva - e.rva))
        } else {
            None
        },
        None => None,
    }
}

/// What following the tables of an image works on.
#[verifier::ext_equal]
pub struct PeModel {
    pub file: Seq<u8>,
    pub image_base: u64,
    pub map: Seq<PeSectionEntry>,
    pub segments: Seq<SegmentView>,
}

impl PeModel {
    /// The address for one relative to the image base.
    pub open spec fn va(self, rva: int) -> Va {
        Va(wrap64(self.image_base + rva))
    }

    /// The pointer from an address to another relative to the image base, where
    /// that is mapped and not the base itself.
    pub open spec fn pointer_to(self, from: Va, rva: int) -> Seq<RelocPointer> {
        if rva != 0 && in_spans(self.segments, self.va(rva).0) {
            seq![RelocPointer { from, to: self.va(rva) }]
        } else {
            Seq::empty()
        }
    }
}

/// The pointers of one entry of the function table: to the image base, to the
/// start and end of the function, and to its unwind information.
#[verifier::opaque]
pub open spec fn function_pointers(m: PeModel, from: Va, at: int) -> Seq<RelocPointer> {
    let unwind = le32(m.file, at + 8);
    seq![RelocPointer { from, to: Va(m.image_base) }] + m.pointer_to(from, le32(m.file, at))
        + m.pointer_to(from, le32(m.file, at + 4)) + m.pointer_to(from, unwind - unwind % 2)
}

/// The address of the `i`-th entry of the function table.
pub open spec fn function_rva(dir: PeDirectory, i: int) -> u32 {
    wrap32(dir.rva + i * 12)
}

/// The pointers of the entries of the function table from the `i`-th on. Entries
/// outside the file's sections are passed over; one that runs past the end of the
/// file is the last.
pub open spec fn function_table(m: PeModel, dir: PeDirectory, i: int, count: int) -> Seq<
    RelocPointer,
>
    decreases count - i,
{
    if i >= count {
        Seq::empty()
    } else {
        let rva = function_rva(dir, i);
        match rva_offset(m.map, rva) {
            Some(at) => if at + 12 > m.file.len() {
                Seq::empty()
            } else {
                function_pointers(m, m.va(rva as int), at) + function_table(m, dir, i + 1, count)
            },
            None => function_table(m, dir, i + 1, count),
        }
    }
}

/// A position rounded up to a multiple of four.
pub open spec fn round_up4(at: int) -> int {
    if at % 4 == 0 {
        at
    } else {
        at + 4 - at % 4
    }
}

/// Where the file has the handler of the unwind information at a position: behind
/// the unwind codes, at the next multiple of four. `None` where it has no handler
/// or is cut off.
#[verifier::opaque]
pub open spec fn handler_field(file: Seq<u8>, at: int) -> Option<int> {
    let field = round_up4(at + 4 + 2 * file[at + 2]);
    if at + 4 > file.len() || (file[at] / 8) % 4 == 0 || field + 4 > file.len() {
        None
    } else {
        Some(field)
    }
}

/// The pointer of unwind information to its handler, where it has one.
#[verifier::opaque]
pub open spec fn handler_pointer(m: PeModel, unwind: u32) -> Seq<RelocPointer> {
    match rva_offset(m.map, unwind) {
        Some(at) => match handler_field(m.file, at) {
            Some(field) => m.pointer_to(
                m.va(wrap32(unwind + (field - at)) as int),
                le32(m.file, field),
            ),
            None => Seq::empty(),
        },
        None => Seq::empty(),
    }
}

/// The handler pointers of the entries of the function table from the `i`-th on,
/// once for each unwind information that was not seen before.
pub open spec fn handler_table(
    m: PeModel,
    dir: PeDirectory,
    i: int,
    count: int,
    seen: Set<u64>,
) -> Seq<RelocPointer>
    decreases count - i,
{
    if i >= count {
        Seq::empty()
    } else {
        match rva_offset(m.map, function_rva(dir, i)) {
            Some(at) => if at + 12 > m.file.len() {
                Seq::empty()
            } else {
                let word = le32(m.file, at + 8);
                let unwind = (word - word % 2) as u32;
                if unwind == 0 || seen.contains(unwind as u64) {
                    handler_table(m, dir, i + 1, count, seen)
                } else {
                    handler_pointer(m, unwind) + handler_table(
                        m,
                        dir,
                        i + 1,
                        count,
                        seen.insert(unwind as u64),
                    )
                }
            },
            None => handler_table(m, dir, i + 1, count, seen),
        }
    }
}

/// The pointer of one base relocation: the eight bytes in its slot, where they are
/// a mapped address.
#[verifier::opaque]
pub open spec fn slot_pointer(m: PeModel, page: int, entry: int) -> Seq<RelocPointer> {
    let rva = wrap32(page + entry % 0x1000);
    if entry / 0x1000 == IMAGE_REL_BASED_DIR64 {
        match rva_offset(m.map, rva) {
            Some(at) => if at + 8 <= m.file.len() && le64(m.file, at) != 0 && in_spans(
                m.segments,
                le64(m.file, at) as u64,
            ) {
                seq![RelocPointer { from: m.va(rva as int), to: Va(le64(m.file, at) as u64) }]
            } else {
                Seq::empty()
            },
            None => Seq::empty(),
        }
    } else {
        Seq::empty()
    }
}

/// The pointers of the base relocations of a block between two positions.
pub open spec fn block_pointers(
    m: PeModel,
    table: Seq<u8>,
    page: int,
    at: int,
    end: int,
) -> Seq<RelocPointer>
    decreases end - at,
{
    if at + 2 > end {
        Seq::empty()
    } else {
        slot_pointer(m, page, le16(table, at)) + block_pointers(m, table, page, at + 2, end)
    }
}

/// The pointers of the blocks of base relocations from a position on. A block that
/// is too short or runs past the end ends the table.
pub open spec fn relocation_table(m: PeModel, table: Seq<u8>, at: int) -> Seq<RelocPointer>
    decreases table.len() - at,
{
    if at < 0 || at + 8 > table.len() {
        Seq::empty()
    } else {
        let size = le32(table, at + 4);
        if size < 8 || at + size > table.len() {
            Seq::empty()
        } else {
            block_pointers(m, table, le32(table, at), at + 8, at + size) + relocation_table(
                m,
                table,
                at + size,
            )
        }
    }
}

/// The pointers of the base relocations.
pub open spec fn relocation_pointers(m: PeModel, dir: Option<PeDirectory>) -> Seq<RelocPointer> {
    match dir {
        Some(dir) => match rva_offset(m.map, dir.rva) {
            Some(at) => if at + dir.size <= m.file.len() {
                relocation_table(m, m.file.subrange(at, at + dir.size), 0)
            } else {
                Seq::empty()
            },
            None => Seq::empty(),
        },
        None => Seq::empty(),
    }
}

/// The pointers of the function table and of the unwind information.
pub open spec fn exception_pointers(m: PeModel, dir: Option<PeDirectory>) -> Seq<RelocPointer> {
    match dir {
        Some(dir) => {
            let count = dir.size as int / 12;
            function_table(m, dir, 0, count) + handler_table(m, dir, 0, count, Set::empty())
        },
        None => Seq::empty(),
    }
}

/// The model of an image.
pub open spec fn pe_model(img: PeImageView, file: Seq<u8>) -> PeModel {
    PeModel {
        file,
        image_base: img.image_base,
        map: section_map(img.sections),
        segments: pe_segments(
            img.sections,
            file,
            img.image_base,
            img.sections.len() as int,
        ),
    }
}

/// Sections by address, for lookup by binary search.
pub struct PeSectionMap {
    entries: Vec<PeSectionEntry>,
}

impl PeSectionMap {
    pub closed spec fn entries(&self) -> Seq<PeSectionEntry> {
        self.entries@
    }

    pub closed spec fn wf(&self) -> bool {
        sorted(self.entries@)
    }

    /// The map of the sections that the file holds bytes of.
    pub fn build(sections: &Vec<PeSection>) -> (r: PeSectionMap)
        ensures
            r.wf(),
            r.entries() == section_map(pe_section_views(sections@)),
    {
        let mut entries: Vec<PeSectionEntry> = Vec::new();
        let ghost all = pe_section_views(sections@);
        let mut i: usize = 0;
        while i < sections.len()
            invariant
                i <= sections@.len(),
                all == pe_section_views(sections@),
                sorted(entries@),
                entries@ == stable_sort(held_sections(all, i as int)),
            decreases sections@.len() - i,
        {
            let s = &sections[i];
            assert(all[i as int] == s@);
            if s.raw_size > 0 {
                let entry = PeSectionEntry {
                    rva: s.rva,
                    end_rva: s.rva.wrapping_add(s.virtual_size),
                    raw_offset: s.raw_offset,
                    raw_size: s.raw_size,
                };
                proof {
                    lemma_stable_sort_push(held_sections(all, i as int), entry);
                }
                insert_by_key(&mut entries, entry);
            }
            i = i + 1;
        }
        PeSectionMap { entries }
    }

    /// Where in the file an address of the image is.
    pub fn rva_to_file_offset(&self, rva: u32) -> (r: Option<u64>)
        requires
            self.wf(),
        ensures
            r is Some <==> rva_offset(self.entries(), rva) is Some,
            r matches Some(at) ==> rva_offset(self.entries(), rva) == Some(at as int),
    {
        let at: usize = rank_of(&self.entries, rva as u64);
        if at == 0 {
            return None;
        }
        proof {
            lemma_rank(self.entries@, rva as u64);
        }
        let e = self.entries[at - 1];
        assert(e.key() <= rva);
        if rva < e.end_rva && rva - e.rva < e.raw_size {
            Some(e.raw_offset as u64 + (rva - e.rva) as u64)
        } else {
            None
        }
    }
}

/// What following the tables of an image works on.
struct PeTables<'p> {
    bytes: &'p [u8],
    image_base: u64,
    map: &'p PeSectionMap,
    seg_set: &'p VaRangeSet,
}

impl<'p> PeTables<'p> {
    spec fn wf(&self, m: PeModel) -> bool {
        &&& self.map.wf()
        &&& self.bytes@ == m.file
        &&& self.image_base == m.image_base
        &&& self.map.entries() == m.map
        &&& self.seg_set.is_of(m.segments)
    }

    /// Adds the pointer from an address to another relative to the image base.
    fn add_pointer(
        &self,
        from: Va,
        rva: u32,
        out: &mut Vec<RelocPointer>,
        Ghost(m): Ghost<PeModel>,
    )
        requires
            self.wf(m),
        ensures
            final(out)@ == old(out)@ + m.pointer_to(from, rva as int),
    {
        if rva != 0 {
            let to = Va(self.image_base) + rva as u64;
            if self.seg_set.contains(to) {
                out.push(RelocPointer { from, to });
            }
        }
        assert(out@ =~= old(out)@ + m.pointer_to(from, rva as int));
    }

    /// Adds the pointers of one entry of the function table.
    fn add_function(
        &self,
        from: Va,
        at: usize,
        out: &mut Vec<RelocPointer>,
        Ghost(m): Ghost<PeModel>,
    )
        requires
            self.wf(m),
            at + 12 <= self.bytes.len(),
        ensures
            final(out)@ == old(out)@ + function_pointers(m, from, at as int),
    {
        proof {
            reveal(function_pointers);
        }
        let ghost start = out@;
        let begin: u32 = read_u32_le(self.bytes, at);
        let end: u32 = read_u32_le(self.bytes, at + 4);
        let unwind: u32 = read_u32_le(self.bytes, at + 8);
        out.push(RelocPointer { from, to: Va(self.image_base) });
        self.add_pointer(from, begin, out, Ghost(m));
        self.add_pointer(from, end, out, Ghost(m));
        self.add_pointer(from, unwind - unwind % 2, out, Ghost(m));
        assert(out@ =~= start + function_pointers(m, from, at as int));
    }

    /// Adds the pointers of the function table.
    fn add_functions(&self, dir: PeDirectory, out: &mut Vec<RelocPointer>, Ghost(m): Ghost<PeModel>)
        requires
            self.wf(m),
        ensures
            final(out)@ == old(out)@ + function_table(m, dir, 0, dir.size as int / 12),
    {
        let count: u32 = dir.size / 12;
        let total: usize = self.bytes.len();
        let ghost start = out@;
        let ghost full = function_table(m, dir, 0, count as int);
        let mut i: u32 = 0;
        while i < count
            invariant_except_break
                i <= count,
                out@ + function_table(m, dir, i as int, count as int) == start + full,
            invariant
                self.wf(m),
                total == self.bytes.len(),
                count == dir.size / 12,
                full == function_table(m, dir, 0, count as int),
            ensures
                out@ == start + full,
            decreases count - i,
        {
            let ghost before = out@;
            let ghost rest = function_table(m, dir, i + 1, count as int);
            let rva: u32 = dir.rva.wrapping_add(i * 12);
            assert(rva == function_rva(dir, i as int));
            match self.map.rva_to_file_offset(rva) {
                Some(at) => {
                    if total < 12 || at > (total - 12) as u64 {
                        assert(before + Seq::<RelocPointer>::empty() =~= before);
                        break ;
                    }
                    let from = Va(self.image_base) + rva as u64;
                    self.add_function(from, at as usize, out, Ghost(m));
                    assert(before + (function_pointers(m, from, at as int) + rest) =~= out@ + rest);
                },
                None => {},
            }
            i = i + 1;
            assert(out@ + Seq::<RelocPointer>::empty() =~= out@);
        }
    }

    /// Where the file has the handler of the unwind information at a position.
    fn find_handler(&self, at: u64) -> (r: Option<usize>)
        ensures
            match r {
                Some(field) => handler_field(self.bytes@, at as int) == Some(field as int) && at
                    <= field && field + 4 <= self.bytes.len(),
                None => handler_field(self.bytes@, at as int) is None,
            },
    {
        proof {
            reveal(handler_field);
        }
        let total: usize = self.bytes.len();
        if total < 4 || at > (total - 4) as u64 {
            return None;
        }
        let at: usize = at as usize;
        if (self.bytes[at] / 8) % 4 == 0 {
            return None;
        }
        let skip: usize = 4 + 2 * self.bytes[at + 2] as usize;
        if total - at < skip {
            return None;
        }
        let codes_end: usize = at + skip;
        let pad: usize = if codes_end % 4 == 0 {
            0
        } else {
            4 - codes_end % 4
        };
        if total - codes_end < pad + 4 {
            return None;
        }
        Some(codes_end + pad)
    }

    /// Adds the pointer of unwind information to its handler.
    fn add_handler(&self, unwind: u32, out: &mut Vec<RelocPointer>, Ghost(m): Ghost<PeModel>)
        requires
            self.wf(m),
        ensures
            final(out)@ == old(out)@ + handler_pointer(m, unwind),
    {
        proof {
            reveal(handler_pointer);
            assert(out@ + Seq::<RelocPointer>::empty() =~= out@);
        }
        match self.map.rva_to_file_offset(unwind) {
            Some(at) => {
                match self.find_handler(at) {
                    Some(field) => {
                        let distance: u64 = field as u64 - at;
                        let low: u32 = (distance % 0x1_0000_0000) as u32;
                        let field_rva: u32 = unwind.wrapping_add(low);
                        assert(field_rva == wrap32(unwind + distance));
                        let from = Va(self.image_base) + field_rva as u64;
                        let handler: u32 = read_u32_le(self.bytes, field);
                        self.add_pointer(from, handler, out, Ghost(m));
                    },
                    None => {},
                }
            },
            None => {},
        }
    }

    /// Adds the handler pointers of the function table.
    fn add_handlers(&self, dir: PeDirectory, out: &mut Vec<RelocPointer>, Ghost(m): Ghost<PeModel>)
        requires
            self.wf(m),
        ensures
            final(out)@ == old(out)@ + handler_table(
                m,
                dir,
                0,
                dir.size as int / 12,
                Set::empty(),
            ),
    {
        let count: u32 = dir.size / 12;
        let total: usize = self.bytes.len();
        let ghost start = out@;
        let ghost full = handler_table(m, dir, 0, count as int, Set::empty());
        let mut seen: FxHashSet<u64> = FxHashSet::default();
        let mut i: u32 = 0;
        while i < count
            invariant_except_break
                i <= count,
                out@ + handler_table(m, dir, i as int, count as int, seen@) == start + full,
            invariant
                self.wf(m),
                total == self.bytes.len(),
                count == dir.size / 12,
                full == handler_table(m, dir, 0, count as int, Set::empty()),
            ensures
                out@ == start + full,
            decreases count - i,
        {
            let ghost before = out@;
            let ghost known = seen@;
            let rva: u32 = dir.rva.wrapping_add(i * 12);
            assert(rva == function_rva(dir, i as int));
            match self.map.rva_to_file_offset(rva) {
                Some(at) => {
                    if total < 12 || at > (total - 12) as u64 {
                        assert(before + Seq::<RelocPointer>::empty() =~= before);
                        break ;
                    }
                    let word: u32 = read_u32_le(self.bytes, at as usize + 8);
                    let unwind: u32 = word - word % 2;
                    if unwind != 0 && add_slot(&mut seen, unwind as u64) {
                        self.add_handler(unwind, out, Ghost(m));
                        proof {
                            let rest = handler_table(m, dir, i + 1, count as int, seen@);
                            assert(before + (handler_pointer(m, unwind) + rest) =~= out@ + rest);
                        }
                    } else {
                        assert(seen@ =~= known);
                    }
                },
                None => {},
            }
            i = i + 1;
            assert(out@ + Seq::<RelocPointer>::empty() =~= out@);
        }
    }

    /// Adds the pointer of one base relocation.
    fn add_slot_pointer(
        &self,
        page: u32,
        entry: u16,
        out: &mut Vec<RelocPointer>,
        Ghost(m): Ghost<PeModel>,
    )
        requires
            self.wf(m),
        ensures
            final(out)@ == old(out)@ + slot_pointer(m, page as int, entry as int),
    {
        proof {
            reveal(slot_pointer);
        }
        let ghost start = out@;
        if entry / 0x1000 == IMAGE_REL_BASED_DIR64 {
            let rva: u32 = page.wrapping_add((entry % 0x1000) as u32);
            let total: usize = self.bytes.len();
            match self.map.rva_to_file_offset(rva) {
                Some(at) => {
                    if total >= 8 && at <= (total - 8) as u64 {
                        let value: u64 = read_u64_le(self.bytes, at as usize);
                        if value != 0 && self.seg_set.contains(Va(value)) {
                            out.push(
                                RelocPointer {
                                    from: Va(self.image_base) + rva as u64,
                                    to: Va(value),
                                },
                            );
                        }
                    }
                },
                None => {},
            }
        }
        assert(out@ =~= start + slot_pointer(m, page as int, entry as int));
    }

    /// Adds the pointers of a block of base relocations.
    fn add_block(
        &self,
        table: &[u8],
        page: u32,
        from: usize,
        end: usize,
        out: &mut Vec<RelocPointer>,
        Ghost(m): Ghost<PeModel>,
    )
        requires
            self.wf(m),
            from <= end <= table.len(),
        ensures
            final(out)@ == old(out)@ + block_pointers(
                m,
                table@,
                page as int,
                from as int,
                end as int,
            ),
    {
        let ghost start = out@;
        let ghost full = block_pointers(m, table@, page as int, from as int, end as int);
        let mut at: usize = from;
        while end - at >= 2
            invariant
                self.wf(m),
                at <= end <= table.len(),
                full == block_pointers(m, table@, page as int, from as int, end as int),
                out@ + block_pointers(m, table@, page as int, at as int, end as int) == start
                    + full,
            decreases end - at,
        {
            let ghost before = out@;
            let entry: u16 = read_u16_le(table, at);
            self.add_slot_pointer(page, entry, out, Ghost(m));
            proof {
                let rest = block_pointers(m, table@, page as int, at + 2, end as int);
                assert(before + (slot_pointer(m, page as int, entry as int) + rest) =~= out@
                    + rest);
            }
            at = at + 2;
        }
        assert(out@ + Seq::<RelocPointer>::empty() =~= out@);
    }

    /// Adds the pointers of the base relocations.
    fn add_relocations(
        &self,
        dir: PeDirectory,
        out: &mut Vec<RelocPointer>,
        Ghost(m): Ghost<PeModel>,
    )
        requires
            self.wf(m),
        ensures
            final(out)@ == old(out)@ + relocation_pointers(m, Some(dir)),
    {
        assert(out@ + Seq::<RelocPointer>::empty() =~= out@);
        let total: u64 = self.bytes.len() as u64;
        let base: u64 = match self.map.rva_to_file_offset(dir.rva) {
            Some(at) => at,
            None => {
                return ;
            },
        };
        if base > total || dir.size as u64 > total - base {
            return ;
        }
        let table = &self.bytes[base as usize..(base + dir.size as u64) as usize];
        let len: usize = table.len();
        let ghost start = out@;
        let ghost full = relocation_table(m, table@, 0);
        let mut at: usize = 0;
        while len - at >= 8
            invariant_except_break
                at <= len,
                out@ + relocation_table(m, table@, at as int) == start + full,
            invariant
                self.wf(m),
                len == table.len(),
                full == relocation_table(m, table@, 0),
            ensures
                out@ == start + full,
            decreases len - at,
        {
            let ghost before = out@;
            let page: u32 = read_u32_le(table, at);
            let size: u32 = read_u32_le(table, at + 4);
            if size < 8 || size as u64 > (len - at) as u64 {
                assert(before + Seq::<RelocPointer>::empty() =~= before);
                break ;
            }
            let end: usize = at + size as usize;
            self.add_block(table, page, at + 8, end, out, Ghost(m));
            proof {
                let rest = relocation_table(m, table@, end as int);
                let block = block_pointers(m, table@, page as int, at + 8, end as int);
                assert(before + (block + rest) =~= out@ + rest);
            }
            at = end;
            assert(out@ + Seq::<RelocPointer>::empty() =~= out@);
        }
    }
}

/// Adds the segments of a section.
fn add_section<'a>(
    s: &PeSection,
    bytes: &'a [u8],
    image_base: u64,
    segments: &mut Vec<Segment<'a>>,
)
    ensures
        segment_views(final(segments)@) == segment_views(old(segments)@) + pe_section_segments(
            s@,
            bytes@,
            image_base,
        ),
{
    proof {
        reveal(pe_section_segments);
    }
    let ghost start = segment_views(segments@);
    let executable = (s.flags / 0x2000_0000) % 2 == 1;
    let readable = (s.flags / 0x4000_0000) % 2 == 1;
    let writable = (s.flags / 0x8000_0000) % 2 == 1;
    let va = Va(image_base) + s.rva as u64;
    let name: String = match &s.name {
        Some(n) => n.clone(),
        None => String::from_str("?"),
    };
    let debug = starts_with(name.as_str(), ".debug_");
    let total: u64 = bytes.len() as u64;
    let held = s.raw_offset as u64 <= total && s.raw_size as u64 <= total - s.raw_offset as u64;
    let ghost before = segments@;
    if debug {
        if s.raw_size == 0 || !held {
            assert(segment_views(segments@) =~= start + Seq::<SegmentView>::empty());
            return ;
        }
    } else if s.raw_size == 0 {
        if s.virtual_size == 0 {
            assert(segment_views(segments@) =~= start + Seq::<SegmentView>::empty());
            return ;
        }
        let seg = Segment {
            va,
            data: alloc_bss(s.virtual_size as usize),
            executable,
            readable,
            writable,
            byte_scannable: false,
            mode: DecodeMode::Default,
            switches: Vec::new(),
            name,
        };
        segments.push(seg);
        assert(segment_views(segments@) =~= start.push(seg@));
        assert(segment_views(segments@) =~= start + pe_section_segments(s@, bytes@, image_base));
        return ;
    } else {
        if !held {
            assert(segment_views(segments@) =~= start + Seq::<SegmentView>::empty());
            return ;
        }
        if s.virtual_size > s.raw_size {
            let seg = Segment {
                va: va + s.raw_size as u64,
                data: alloc_bss((s.virtual_size - s.raw_size) as usize),
                executable,
                readable,
                writable,
                byte_scannable: false,
                mode: DecodeMode::Default,
                switches: Vec::new(),
                name: name.clone().concat("[bss]"),
            };
            segments.push(seg);
            assert(segment_views(segments@) =~= start.push(seg@));
        }
    }
    let ghost middle = segment_views(segments@);
    let data = &bytes[s.raw_offset as usize..(s.raw_offset as u64 + s.raw_size as u64) as usize];
    let seg = Segment {
        va,
        data: SegData::new(data),
        executable,
        readable,
        writable,
        byte_scannable: !debug,
        mode: DecodeMode::Default,
        switches: Vec::new(),
        name,
    };
    segments.push(seg);
    assert(segment_views(segments@) =~= middle.push(seg@));
    assert(segment_views(segments@) =~= start + pe_section_segments(s@, bytes@, image_base));
}

/// The slots that the loader fills with the addresses of imports.
pub fn build_pe_iat_slots(imports: &Vec<u64>, image_base: u64) -> (r: FxHashSet<u64>)
    ensures
        r@ == import_slots(imports@, image_base, imports@.len() as int),
{
    let mut slots: FxHashSet<u64> = FxHashSet::default();
    let mut i: usize = 0;
    while i < imports.len()
        invariant
            i <= imports@.len(),
            slots@ == import_slots(imports@, image_base, i as int),
        decreases imports@.len() - i,
    {
        add_slot(&mut slots, (Va(image_base) + imports[i]).0);
        i = i + 1;
    }
    slots
}

/// Collects the named exports.
fn collect_exports(exports: &Vec<PeExport>, image_base: u64) -> (r: Vec<Symbol>)
    ensures
        symbol_views(r@) == pe_symbols(
            export_views(exports@),
            image_base,
            exports@.len() as int,
        ),
{
    let mut out: Vec<Symbol> = Vec::new();
    let ghost all = export_views(exports@);
    let mut i: usize = 0;
    assert(symbol_views(out@) =~= Seq::empty());
    while i < exports.len()
        invariant
            i <= exports@.len(),
            all == export_views(exports@),
            symbol_views(out@) == pe_symbols(all, image_base, i as int),
        decreases exports@.len() - i,
    {
        let e = &exports[i];
        assert(all[i as int] == e@);
        match &e.name {
            Some(name) => {
                let ghost before = out@;
                let symbol = Symbol { name: name.clone(), va: Va(image_base) + e.rva };
                out.push(symbol);
                assert(symbol_views(out@) =~= symbol_views(before).push(symbol@));
            },
            None => {},
        }
        i = i + 1;
    }
    out
}

/// Whether an image is loaded as its headers say.
pub open spec fn loads_pe(img: PeImageView, file: Seq<u8>, b: LoadedBinary<'_>) -> bool {
    &&& b.arch == pe_arch(img.machine)
    &&& b.pie_base == 0
    &&& b.layout() == pe_model(img, file).segments
    &&& b.entry_points@ == pe_entries(img)
    &&& symbol_views(b.symbols@) == pe_symbols(
        img.exports,
        img.image_base,
        img.exports.len() as int,
    )
    &&& b.got_slots@ == import_slots(img.imports, img.image_base, img.imports.len() as int)
    &&& b.reloc_pointers@ == relocation_pointers(pe_model(img, file), img.relocations)
        + exception_pointers(pe_model(img, file), img.exceptions)
}

/// Loads a PE image from its headers.
pub fn parse_pe<'a>(bytes: &'a [u8], img: &PeImage) -> (r: LoadedBinary<'a>)
    ensures
        loads_pe(img@, bytes@, r),
{
    let arch = pe_arch_of(img.machine);
    let image_base: u64 = img.image_base;
    let mut segments: Vec<Segment<'a>> = Vec::new();
    let mut i: usize = 0;
    assert(segment_views(segments@) =~= Seq::empty());
    while i < img.sections.len()
        invariant
            i <= img.sections@.len(),
            segment_views(segments@) == pe_segments(
                img@.sections,
                bytes@,
                image_base,
                i as int,
            ),
        decreases img.sections@.len() - i,
    {
        assert(img@.sections[i as int] == img.sections@[i as int]@);
        add_section(&img.sections[i], bytes, image_base, &mut segments);
        i = i + 1;
    }
    let ghost m = pe_model(img@, bytes@);
    let mut entry_points: Vec<Va> = Vec::new();
    if img.entry != 0 {
        entry_points.push(Va(image_base) + img.entry as u64);
    }
    assert(entry_points@ =~= pe_entries(img@));
    let symbols = collect_exports(&img.exports, image_base);
    let map = PeSectionMap::build(&img.sections);
    let seg_set = VaRangeSet::build(&segments);
    let mut reloc_pointers: Vec<RelocPointer> = Vec::new();
    let tables = PeTables { bytes, image_base, map: &map, seg_set: &seg_set };
    match img.relocations {
        Some(dir) => {
            tables.add_relocations(dir, &mut reloc_pointers, Ghost(m));
        },
        None => {},
    }
    assert(reloc_pointers@ =~= relocation_pointers(m, img@.relocations));
    let ghost before = reloc_pointers@;
    match img.exceptions {
        Some(dir) => {
            tables.add_functions(dir, &mut reloc_pointers, Ghost(m));
            tables.add_handlers(dir, &mut reloc_pointers, Ghost(m));
        },
        None => {},
    }
    assert(reloc_pointers@ =~= before + exception_pointers(m, img@.exceptions));
    let got_slots = build_pe_iat_slots(&img.imports, image_base);
    LoadedBinary {
        arch,
        segments,
        entry_points,
        symbols,
        pie_base: 0,
        got_slots,
        reloc_pointers,
    }
}

/// Whether a pointer leads to the image base or to a mapped address.
pub open spec fn leads_inside(m: PeModel, p: RelocPointer) -> bool {
    p.to == Va(m.image_base) || in_spans(m.segments, p.to.0)
}

/// Whether all pointers of a list do.
pub open spec fn all_lead_inside(m: PeModel, s: Seq<RelocPointer>) -> bool {
    forall|i: int| 0 <= i < s.len() ==> leads_inside(m, #[trigger] s[i])
}

proof fn lemma_lead_concat(m: PeModel, a: Seq<RelocPointer>, b: Seq<RelocPointer>)
    requires
        all_lead_inside(m, a),
        all_lead_inside(m, b),
    ensures
        all_lead_inside(m, a + b),
{
    assert forall|i: int| 0 <= i < (a + b).len() implies leads_inside(m, #[trigger] (a + b)[i]) by {
        if i < a.len() {
            assert((a + b)[i] == a[i]);
        } else {
            assert((a + b)[i] == b[i - a.len()]);
        }
    }
}

proof fn lemma_function_table_inside(m: PeModel, dir: PeDirectory, i: int, count: int)
    ensures
        all_lead_inside(m, function_table(m, dir, i, count)),
    decreases count - i,
{
    if i < count {
        lemma_function_table_inside(m, dir, i + 1, count);
        let rva = function_rva(dir, i);
        match rva_offset(m.map, rva) {
            Some(at) => {
                let here = function_pointers(m, m.va(rva as int), at);
                assert(all_lead_inside(m, here)) by {
                    reveal(function_pointers);
                }
                lemma_lead_concat(m, here, function_table(m, dir, i + 1, count));
            },
            None => {},
        }
    }
}

proof fn lemma_handler_table_inside(
    m: PeModel,
    dir: PeDirectory,
    i: int,
    count: int,
    seen: Set<u64>,
)
    ensures
        all_lead_inside(m, handler_table(m, dir, i, count, seen)),
    decreases count - i,
{
    if i < count {
        lemma_handler_table_inside(m, dir, i + 1, count, seen);
        match rva_offset(m.map, function_rva(dir, i)) {
            Some(at) => {
                let word = le32(m.file, at + 8);
                let unwind = (word - word % 2) as u32;
                let after = seen.insert(unwind as u64);
                lemma_handler_table_inside(m, dir, i + 1, count, after);
                assert(all_lead_inside(m, handler_pointer(m, unwind))) by {
                    reveal(handler_pointer);
                }
                lemma_lead_concat(
                    m,
                    handler_pointer(m, unwind),
                    handler_table(m, dir, i + 1, count, after),
                );
            },
            None => {},
        }
    }
}

proof fn lemma_block_inside(m: PeModel, table: Seq<u8>, page: int, at: int, end: int)
    ensures
        all_lead_inside(m, block_pointers(m, table, page, at, end)),
    decreases end - at,
{
    if at + 2 <= end {
        lemma_block_inside(m, table, page, at + 2, end);
        let here = slot_pointer(m, page, le16(table, at));
        assert(all_lead_inside(m, here)) by {
            reveal(slot_pointer);
        }
        lemma_lead_concat(m, here, block_pointers(m, table, page, at + 2, end));
    }
}

proof fn lemma_relocation_table_inside(m: PeModel, table: Seq<u8>, at: int)
    ensures
        all_lead_inside(m, relocation_table(m, table, at)),
    decreases table.len() - at,
{
    if 0 <= at && at + 8 <= table.len() {
        let size = le32(table, at + 4);
        if size >= 8 && at + size <= table.len() {
            let page = le32(table, at);
            lemma_block_inside(m, table, page, at + 8, at + size);
            lemma_relocation_table_inside(m, table, at + size);
            lemma_lead_concat(
                m,
                block_pointers(m, table, page, at + 8, at + size),
                relocation_table(m, table, at + size),
            );
        }
    }
}

/// Every pointer of an image leads to its base or to a mapped address.
pub proof fn law_pe_pointers_mapped(
    m: PeModel,
    relocations: Option<PeDirectory>,
    exceptions: Option<PeDirectory>,
)
    ensures
        all_lead_inside(m, relocation_pointers(m, relocations)),
        all_lead_inside(m, exception_pointers(m, exceptions)),
{
    match relocations {
        Some(dir) => match rva_offset(m.map, dir.rva) {
            Some(at) => lemma_relocation_table_inside(
                m,
                m.file.subrange(at, at + dir.size),
                0,
            ),
            None => {},
        },
        None => {},
    }
    match exceptions {
        Some(dir) => {
            let count = dir.size as int / 12;
            lemma_function_table_inside(m, dir, 0, count);
            lemma_handler_table_inside(m, dir, 0, count, Set::empty());
            lemma_lead_concat(
                m,
                function_table(m, dir, 0, count),
                handler_table(m, dir, 0, count, Set::empty()),
            );
        },
        None => {},
    }
}

/// Whether the `i`-th section holds an address relative to the image base in the
/// file, and no section with bytes starts between its start and there.
pub open spec fn section_holds(sections: Seq<PeSectionView>, i: int, rva: int) -> bool {
    &&& 0 <= i < sections.len()
    &&& sections[i].rva <= rva < sections[i].rva + sections[i].virtual_size <= u32::MAX
    &&& rva < sections[i].rva + sections[i].raw_size
    &&& forall|j: int|
        0 <= j < sections.len() && j != i && (#[trigger] sections[j]).raw_size > 0
            ==> sections[j].rva < sections[i].rva || rva < sections[j].rva
}

proof fn lemma_held(sections: Seq<PeSectionView>, k: int, e: PeSectionEntry)
    requires
        0 <= k <= sections.len(),
    ensures
        held_sections(sections, k).contains(e) <==> exists|i: int|
            0 <= i < k && entry_of(#[trigger] sections[i], e),
    decreases k,
{
    if k > 0 {
        lemma_held(sections, k - 1, e);
        let before = held_sections(sections, k - 1);
        let all = held_sections(sections, k);
        if all.contains(e) {
            let j = choose|j: int| 0 <= j < all.len() && all[j] == e;
            if j < before.len() {
                assert(before[j] == e);
                let i = choose|i: int| 0 <= i < k - 1 && entry_of(#[trigger] sections[i], e);
                assert(entry_of(sections[i], e));
            } else {
                assert(entry_of(sections[k - 1], e));
            }
        }
        if exists|i: int| 0 <= i < k && entry_of(#[trigger] sections[i], e) {
            let i = choose|i: int| 0 <= i < k && entry_of(#[trigger] sections[i], e);
            if i < k - 1 {
                assert(before.contains(e));
                let j = choose|j: int| 0 <= j < before.len() && before[j] == e;
                assert(all[j] == e);
            } else {
                assert(all[all.len() - 1] == e);
            }
        }
    }
}

spec fn entry_of(s: PeSectionView, e: PeSectionEntry) -> bool {
    s.raw_size > 0 && e == (PeSectionEntry {
        rva: s.rva,
        end_rva: wrap32(s.rva + s.virtual_size),
        raw_offset: s.raw_offset,
        raw_size: s.raw_size,
    })
}

/// An address that a section holds is as far into its bytes in the file as it is from
/// the start of the section.
pub proof fn law_rva_in_file(sections: Seq<PeSectionView>, i: int, rva: u32)
    requires
        section_holds(sections, i, rva as int),
    ensures
        rva_offset(section_map(sections), rva) == Some(
            sections[i].raw_offset + (rva - sections[i].rva),
        ),
{
    let n = sections.len() as int;
    let raw = held_sections(sections, n);
    let map = section_map(sections);
    lemma_stable_sort(raw);
    lemma_rank(map, rva as u64);
    let s = sections[i];
    let e = PeSectionEntry {
        rva: s.rva,
        end_rva: wrap32(s.rva + s.virtual_size),
        raw_offset: s.raw_offset,
        raw_size: s.raw_size,
    };
    assert(entry_of(sections[i], e));
    lemma_held(sections, n, e);
    assert(map.contains(e));
    let q = choose|q: int| 0 <= q < map.len() && map[q] == e;
    let r = rank(map, rva as u64) as int;
    assert(map[q].key() <= rva);
    assert(q < r);
    let top = map[r - 1];
    assert(top.key() <= rva);
    assert(map[q].key() <= top.key());
    assert(map.contains(top));
    assert(raw.contains(top));
    lemma_held(sections, n, top);
    let j = choose|j: int| 0 <= j < n && entry_of(#[trigger] sections[j], top);
    assert(j == i);
}

/// The pointer from an address relative to the image base to another address, where
/// that is mapped and not zero.
pub open spec fn slot_holds(m: PeModel, rva: int, value: int) -> Seq<RelocPointer> {
    if value != 0 && in_spans(m.segments, value as u64) {
        seq![RelocPointer { from: Va(wrap64(m.image_base + rva)), to: Va(value as u64) }]
    } else {
        Seq::empty()
    }
}

/// An entry of a block of base relocations names the eight-byte slot at its low twelve
/// bits from the page of the block, where its type is that of such slots, and adds the
/// pointer that the slot holds; an entry of another type adds nothing.
pub proof fn law_relocation_entry(
    img: PeImageView,
    file: Seq<u8>,
    table: Seq<u8>,
    page: int,
    at: int,
    end: int,
    kind: int,
    d: int,
    i: int,
    slot: int,
)
    requires
        0 <= page,
        0 <= d < 4096,
        0 <= kind < 16,
        at + 2 <= end,
        le16(table, at) == kind * 4096 + d,
        kind == 10 ==> section_holds(img.sections, i, page + d) && slot - img.sections[i].raw_offset
            == page + d - img.sections[i].rva && slot + 8 <= file.len(),
    ensures
        kind == 10 ==> block_pointers(pe_model(img, file), table, page, at, end) == slot_holds(
            pe_model(img, file),
            page + d,
            le64(file, slot),
        ) + block_pointers(pe_model(img, file), table, page, at + 2, end),
        kind != 10 ==> block_pointers(pe_model(img, file), table, page, at, end) == block_pointers(
            pe_model(img, file),
            table,
            page,
            at + 2,
            end,
        ),
{
    reveal(slot_pointer);
    let m = pe_model(img, file);
    let rest = block_pointers(m, table, page, at + 2, end);
    assert(Seq::<RelocPointer>::empty() + rest =~= rest);
    if kind == 10 {
        law_rva_in_file(img.sections, i, (page + d) as u32);
        assert(wrap32(page + d) == page + d);
    }
}

/// Whether some bytes are one block of base relocations: its page, its size, and its
/// entries.
pub open spec fn is_block(block: Seq<u8>) -> bool {
    block.len() >= 8 && le32(block, 4) == block.len()
}

/// A table of base relocations is read block by block: a block gives its entries, from
/// behind the page and the size to its end, and what follows it gives what it would by
/// itself.
pub proof fn law_blocks_follow(m: PeModel, block: Seq<u8>, rest: Seq<u8>)
    requires
        is_block(block),
    ensures
        relocation_table(m, block + rest, 0) == block_pointers(
            m,
            block,
            le32(block, 0),
            8,
            block.len() as int,
        ) + relocation_table(m, rest, 0),
{
    let all = block + rest;
    let n = block.len() as int;
    assert(le32(all, 4) == le32(block, 4));
    assert(le32(all, 0) == le32(block, 0));
    lemma_block_within(m, all, block, le32(block, 0), 8);
    lemma_table_moved(m, all, rest, n, 0);
}

proof fn lemma_block_within(m: PeModel, all: Seq<u8>, block: Seq<u8>, page: int, at: int)
    requires
        0 <= at,
        block.len() <= all.len(),
        forall|i: int| 0 <= i < block.len() ==> all[i] == block[i],
    ensures
        block_pointers(m, all, page, at, block.len() as int) == block_pointers(
            m,
            block,
            page,
            at,
            block.len() as int,
        ),
    decreases block.len() - at,
{
    if at + 2 <= block.len() {
        lemma_block_within(m, all, block, page, at + 2);
        assert(le16(all, at) == le16(block, at));
    }
}

proof fn lemma_block_moved(
    m: PeModel,
    all: Seq<u8>,
    rest: Seq<u8>,
    page: int,
    n: int,
    at: int,
    end: int,
)
    requires
        0 <= at,
        0 <= n,
        end <= rest.len(),
        n + rest.len() == all.len(),
        forall|i: int| 0 <= i < rest.len() ==> all[n + i] == rest[i],
    ensures
        block_pointers(m, all, page, n + at, n + end) == block_pointers(m, rest, page, at, end),
    decreases end - at,
{
    if at + 2 <= end {
        lemma_block_moved(m, all, rest, page, n, at + 2, end);
        assert(all[n + at] == rest[at] && all[n + (at + 1)] == rest[at + 1]);
        assert(le16(all, n + at) == le16(rest, at));
    }
}

proof fn lemma_le32_moved(all: Seq<u8>, rest: Seq<u8>, n: int, at: int)
    requires
        0 <= at,
        0 <= n,
        at + 4 <= rest.len(),
        n + rest.len() == all.len(),
        forall|i: int| 0 <= i < rest.len() ==> all[n + i] == rest[i],
    ensures
        le32(all, n + at) == le32(rest, at),
{
    assert(all[n + at] == rest[at] && all[n + (at + 1)] == rest[at + 1] && all[n + (at + 2)]
        == rest[at + 2] && all[n + (at + 3)] == rest[at + 3]);
}

proof fn lemma_table_moved(m: PeModel, all: Seq<u8>, rest: Seq<u8>, n: int, at: int)
    requires
        0 <= at,
        0 <= n,
        n + rest.len() == all.len(),
        forall|i: int| 0 <= i < rest.len() ==> all[n + i] == rest[i],
    ensures
        relocation_table(m, all, n + at) == relocation_table(m, rest, at),
    decreases rest.len() - at,
{
    if at + 8 <= rest.len() {
        lemma_le32_moved(all, rest, n, at);
        lemma_le32_moved(all, rest, n, at + 4);
        let size = le32(rest, at + 4);
        if size >= 8 && at + size <= rest.len() {
            lemma_block_moved(m, all, rest, le32(rest, at), n, at + 8, at + size);
            lemma_table_moved(m, all, rest, n, at + size);
        }
    }
}

/// The pointer to an address relative to the image base, where that is mapped and not
/// the base itself.
pub open spec fn image_pointer(m: PeModel, from: int, rva: int) -> Seq<RelocPointer> {
    if rva != 0 && in_spans(m.segments, wrap64(m.image_base + rva)) {
        seq![
            RelocPointer {
                from: Va(wrap64(m.image_base + from)),
                to: Va(wrap64(m.image_base + rva)),
            },
        ]
    } else {
        Seq::empty()
    }
}

/// The entries of the function table take twelve bytes each, one behind another. An
/// entry points to the image base, to the start and the end of its function, and to its
/// unwind information, whose lowest bit does not count.
pub proof fn law_function_entry(
    img: PeImageView,
    file: Seq<u8>,
    dir: PeDirectory,
    i: int,
    count: int,
    s: int,
    at: int,
)
    requires
        0 <= i < count,
        section_holds(img.sections, s, dir.rva + 12 * i),
        at - img.sections[s].raw_offset == dir.rva + 12 * i - img.sections[s].rva,
        at + 12 <= file.len(),
    ensures
        function_table(pe_model(img, file), dir, i, count) == seq![
            RelocPointer {
                from: Va(wrap64(img.image_base + dir.rva + 12 * i)),
                to: Va(img.image_base),
            },
        ] + image_pointer(pe_model(img, file), dir.rva + 12 * i, le32(file, at)) + image_pointer(
            pe_model(img, file),
            dir.rva + 12 * i,
            le32(file, at + 4),
        ) + image_pointer(
            pe_model(img, file),
            dir.rva + 12 * i,
            2 * (le32(file, at + 8) / 2),
        ) + function_table(pe_model(img, file), dir, i + 1, count),
{
    reveal(function_pointers);
    let rva = dir.rva + 12 * i;
    law_rva_in_file(img.sections, s, rva as u32);
    assert(dir.rva + i * 12 == rva);
    assert(wrap32(rva) == rva);
}

/// Unwind information says how many codes of two bytes follow its four bytes, and by
/// two bits of its first byte whether a handler follows them, where the codes are
/// filled up to four bytes. The handler is pointed to from where it is named.
pub proof fn law_handler_named(img: PeImageView, file: Seq<u8>, unwind: u32, s: int, at: int)
    requires
        section_holds(img.sections, s, unwind as int),
        at - img.sections[s].raw_offset == unwind - img.sections[s].rva,
        0 <= at,
        at % 4 == 0,
        at + 4 + 2 * (file[at + 2] + file[at + 2] % 2) + 4 <= file.len(),
        unwind + 4 + 2 * (file[at + 2] + file[at + 2] % 2) <= u32::MAX,
    ensures
        (file[at] / 8) % 4 != 0 ==> handler_pointer(pe_model(img, file), unwind) == image_pointer(
            pe_model(img, file),
            unwind + 4 + 2 * (file[at + 2] + file[at + 2] % 2),
            le32(file, at + 4 + 2 * (file[at + 2] + file[at + 2] % 2)),
        ),
        (file[at] / 8) % 4 == 0 ==> handler_pointer(pe_model(img, file), unwind) == Seq::<
            RelocPointer,
        >::empty(),
{
    reveal(handler_pointer);
    reveal(handler_field);
    law_rva_in_file(img.sections, s, unwind);
    let n = file[at + 2] as int;
    let field = at + 4 + 2 * (n + n % 2);
    assert(round_up4(at + 4 + 2 * n) == field);
}

/// A section with bytes in the file becomes a segment of those bytes at its address
/// from the image base, with the rights that the top three bits of its characteristics
/// give: write, read and execute. What it takes in memory beyond them becomes a segment
/// of zeros right behind.
pub proof fn law_section_becomes(s: PeSectionView, file: Seq<u8>, image_base: u64)
    requires
        s.raw_size > 0,
        s.raw_offset + s.raw_size <= file.len(),
        !".debug_"@.is_prefix_of(section_name(s)),
    ensures
        ({
            let made = pe_section_segments(s, file, image_base);
            let own = made.last();
            &&& made.len() == if s.virtual_size > s.raw_size {
                2int
            } else {
                1
            }
            &&& own.va == Va(wrap64(image_base + s.rva))
            &&& own.data.len() == s.raw_size
            &&& forall|i: int| 0 <= i < s.raw_size ==> own.data[i] == #[trigger] file[s.raw_offset
                + i]
            &&& own.writable == (s.flags >= 0x8000_0000)
            &&& own.readable == (s.flags % 0x8000_0000 >= 0x4000_0000)
            &&& own.executable == (s.flags % 0x4000_0000 >= 0x2000_0000)
            &&& own.byte_scannable
            &&& own.mode == DecodeMode::Default
            &&& s.virtual_size > s.raw_size ==> made[0].va == Va(
                wrap64(image_base + s.rva + s.raw_size),
            ) && made[0].data == zeros((s.virtual_size - s.raw_size) as nat) && made[0].executable
                == own.executable && made[0].readable == own.readable && made[0].writable
                == own.writable && !made[0].byte_scannable
        }),
{
    reveal(pe_section_segments);
    crate::va::lemma_wrap64_sum(image_base + s.rva, s.raw_size as int);
    let own = pe_section_segments(s, file, image_base).last();
    assert forall|i: int| 0 <= i < s.raw_size implies own.data[i] == #[trigger] file[s.raw_offset
        + i] by {}
}

/// The table of base relocations is as many bytes as its directory says, where the
/// section that holds its address has them in the file.
pub proof fn law_relocation_directory(
    img: PeImageView,
    file: Seq<u8>,
    dir: PeDirectory,
    i: int,
    at: int,
)
    requires
        section_holds(img.sections, i, dir.rva as int),
        at - img.sections[i].raw_offset == dir.rva - img.sections[i].rva,
        at + dir.size <= file.len(),
    ensures
        relocation_pointers(pe_model(img, file), Some(dir)) == relocation_table(
            pe_model(img, file),
            file.subrange(at, at + dir.size),
            0,
        ),
{
    law_rva_in_file(img.sections, i, dir.rva);
}

/// An address is an import slot exactly where an import names it, relative to the image
/// base.
pub proof fn law_import_slots(imports: Seq<u64>, image_base: u64, k: int, va: u64)
    requires
        0 <= k <= imports.len(),
    ensures
        import_slots(imports, image_base, k).contains(va) <==> exists|i: int|
            0 <= i < k && va == wrap64(image_base + #[trigger] imports[i]),
    decreases k,
{
    if k > 0 {
        law_import_slots(imports, image_base, k - 1, va);
        if import_slots(imports, image_base, k).contains(va) {
            if import_slots(imports, image_base, k - 1).contains(va) {
                let i = choose|i: int|
                    0 <= i < k - 1 && va == wrap64(image_base + #[trigger] imports[i]);
                assert(va == wrap64(image_base + imports[i]));
            } else {
                assert(va == wrap64(image_base + imports[k - 1]));
            }
        }
    }
}

/// An export with a name lies its address past the image base, and so does the entry
/// point, where there is one.
pub proof fn law_names_from_base(img: PeImageView, k: int)
    requires
        0 <= k < img.exports.len(),
    ensures
        img.exports[k].name matches Some(name) ==> pe_symbols(img.exports, img.image_base, k + 1)
            == pe_symbols(img.exports, img.image_base, k).push(
            SymbolView { name, va: Va(wrap64(img.image_base + img.exports[k].rva)) },
        ),
        img.entry != 0 ==> pe_entries(img) == seq![Va(wrap64(img.image_base + img.entry))],
        img.entry == 0 ==> pe_entries(img).len() == 0,
{
}

/// The handler of unwind information counts once: an entry of the function table whose
/// unwind information was met before adds nothing, another adds its handler.
pub proof fn law_handler_counts_once(
    img: PeImageView,
    file: Seq<u8>,
    dir: PeDirectory,
    i: int,
    count: int,
    seen: Set<u64>,
    s: int,
    at: int,
)
    requires
        0 <= i < count,
        section_holds(img.sections, s, dir.rva + 12 * i),
        at - img.sections[s].raw_offset == dir.rva + 12 * i - img.sections[s].rva,
        at + 12 <= file.len(),
    ensures
        ({
            let m = pe_model(img, file);
            let unwind = 2 * (le32(file, at + 8) / 2);
            let here = handler_table(m, dir, i, count, seen);
            if unwind == 0 || seen.contains(unwind as u64) {
                here == handler_table(m, dir, i + 1, count, seen)
            } else {
                here == handler_pointer(m, unwind as u32) + handler_table(
                    m,
                    dir,
                    i + 1,
                    count,
                    seen.insert(unwind as u64),
                )
            }
        }),
{
    let rva = dir.rva + 12 * i;
    law_rva_in_file(img.sections, s, rva as u32);
    assert(dir.rva + i * 12 == rva);
    assert(wrap32(rva) == rva);
}

} // verus!
