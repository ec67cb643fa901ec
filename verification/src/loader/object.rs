//! Reading of object files with `goblin`.
//!
//! `goblin` parses the file once. The functions here copy what loading looks at
//! into plain values.

use crate::bytes::{le32, read_u32_le};
use crate::loader::coff::{coff_sym_views, CoffImage, CoffImageView, CoffSym, CoffSymView};
use crate::loader::elf::{
    opt_text, section_views, sym_views, ElfImage, ElfImageView, ElfProgram, ElfReloc, ElfSection,
    ElfSectionView, ElfSym, ElfSymView,
};
use crate::loader::mach_entry::mach_entry_fits;
use crate::loader::macho::{
    mach_segment_views, mach_sym_views, MachBlob, MachImage, MachImageView, MachSection,
    MachSegment, MachSegmentView, MachSym,
};
use crate::loader::pe::{
    export_views, pe_section_views, PeDirectory, PeExport, PeExportView, PeImage, PeImageView,
    PeSection, PeSectionView,
};
use crate::loader::SymbolView;
use goblin::mach::load_command::CommandVariant;
use goblin::mach::Mach;
use goblin::Object;
use vstd::prelude::*;

verus! {

/// A parsed object file.
#[verifier::external_type_specification]
#[verifier::external_body]
pub struct ExObject<'a>(goblin::Object<'a>);

/// Why an object file could not be parsed.
#[verifier::external_type_specification]
#[verifier::external_body]
pub struct ExGoblinError(goblin::error::Error);

/// The format of an object file.
#[derive(Clone, Copy, Debug, PartialEq, Eq, Structural)]
pub enum ObjectKind {
    Elf,
    MachO,
    /// Several Mach-O images in one file.
    FatMachO,
    Pe,
    Coff,
    /// A format that is parsed but not loaded.
    Other,
    /// No known format.
    Unknown,
}

/// Machine, type and entry point of an ELF file.
#[derive(Clone, Copy, Debug, PartialEq, Eq, Structural)]
pub struct ElfHeader {
    pub machine: u16,
    pub etype: u16,
    pub entry: u64,
}

/// Processor type and entry point of a Mach-O file.
#[derive(Clone, Copy, Debug, PartialEq, Eq, Structural)]
pub struct MachHeader {
    pub cputype: u32,
    pub entry: u64,
}

/// Machine, base, entry point and tables of a PE file.
#[derive(Clone, Copy, Debug, PartialEq, Eq, Structural)]
pub struct PeHeader {
    pub machine: u16,
    pub image_base: u64,
    pub entry: u32,
    pub exceptions: Option<PeDirectory>,
    pub relocations: Option<PeDirectory>,
}

/// An entry of a COFF symbol table, its name still as the file has it.
#[derive(Clone, Copy, Debug)]
pub struct CoffEntry {
    pub section: i16,
    pub class: u8,
    pub value: u32,
    pub short_name: [u8; 8],
}

/// The bytes that an object file was parsed from.
pub uninterp spec fn object_source(o: goblin::Object<'_>) -> Seq<u8>;

/// The format that `Object::parse` finds in some bytes; `None` where it fails.
pub uninterp spec fn object_kind_of(file: Seq<u8>) -> Option<ObjectKind>;

/// The header of an ELF file.
pub uninterp spec fn elf_header_of(file: Seq<u8>) -> ElfHeader;

/// The section headers of an ELF file.
pub uninterp spec fn elf_sections_of(file: Seq<u8>) -> Seq<ElfSectionView>;

/// The program headers of an ELF file.
pub uninterp spec fn elf_programs_of(file: Seq<u8>) -> Seq<ElfProgram>;

/// The symbol table of an ELF file.
pub uninterp spec fn elf_syms_of(file: Seq<u8>) -> Seq<ElfSymView>;

/// The dynamic symbol table of an ELF file, without the names.
pub uninterp spec fn elf_dynsyms_of(file: Seq<u8>) -> Seq<ElfSymView>;

/// The dynamic relocations of an ELF file that have addends.
pub uninterp spec fn elf_dynrelas_of(file: Seq<u8>) -> Seq<ElfReloc>;

/// The dynamic relocations of an ELF file that have none.
pub uninterp spec fn elf_dynrels_of(file: Seq<u8>) -> Seq<ElfReloc>;

/// The relocations of the linkage table of an ELF file.
pub uninterp spec fn elf_pltrelocs_of(file: Seq<u8>) -> Seq<ElfReloc>;

/// The header of a Mach-O file.
pub uninterp spec fn mach_header_of(file: Seq<u8>) -> MachHeader;

/// The segment commands of a Mach-O file.
pub uninterp spec fn mach_segments_of(file: Seq<u8>) -> Seq<MachSegmentView>;

/// The symbol table of a Mach-O file.
pub uninterp spec fn mach_symbols_of(file: Seq<u8>) -> Seq<Option<SymbolView>>;

/// For each load command of a Mach-O file, the chained fixups if it is the one for
/// them.
pub uninterp spec fn mach_fixups_of(file: Seq<u8>) -> Seq<Option<MachBlob>>;

/// The header of a PE file.
pub uninterp spec fn pe_header_of(file: Seq<u8>) -> PeHeader;

/// The section headers of a PE file.
pub uninterp spec fn pe_sections_of(file: Seq<u8>) -> Seq<PeSectionView>;

/// The exports of a PE file.
pub uninterp spec fn pe_exports_of(file: Seq<u8>) -> Seq<PeExportView>;

/// The import slots of a PE file, relative to the image base.
pub uninterp spec fn pe_imports_of(file: Seq<u8>) -> Seq<u64>;

/// The machine of a COFF file.
pub uninterp spec fn coff_machine_of(file: Seq<u8>) -> u16;

/// The section headers of a COFF file.
pub uninterp spec fn coff_sections_of(file: Seq<u8>) -> Seq<PeSectionView>;

/// The symbol table of a COFF file, the names as the file has them.
pub uninterp spec fn coff_entries_of(file: Seq<u8>) -> Seq<CoffEntry>;

/// The text of a name of a COFF file, `None` where it cannot be read.
pub uninterp spec fn coff_name_of(file: Seq<u8>, short_name: Seq<u8>) -> Option<Seq<char>>;

/// Whether an object was parsed as a format.
pub open spec fn has_kind(o: goblin::Object<'_>, kind: ObjectKind) -> bool {
    object_kind_of(object_source(o)) == Some(kind)
}

/// Parses an object file with `Object::parse`.
///
/// Trusted: it succeeds exactly where the bytes have a format, and the object is
/// that of the bytes. Which bytes have one is not stated. The outside function adds
/// up the entry point of a Mach-O image without a check; images whose entry point
/// is no address are left out.
#[verifier::external_body]
pub(crate) fn open_object<'a>(file: &'a [u8]) -> (r: Result<Object<'a>, goblin::error::Error>)
    requires
        mach_entry_fits(file@),
    ensures
        r is Ok <==> object_kind_of(file@) is Some,
        r matches Ok(o) ==> object_source(o) == file@,
{
    Object::parse(file)
}

/// Tells the variants of `Object` apart.
///
/// Trusted: the variant depends on the parsed bytes alone.
#[verifier::external_body]
pub(crate) fn object_kind(o: &Object<'_>) -> (r: ObjectKind)
    ensures
        has_kind(*o, r),
{
    match o {
        Object::Elf(_) => ObjectKind::Elf,
        Object::Mach(Mach::Binary(_)) => ObjectKind::MachO,
        Object::Mach(Mach::Fat(_)) => ObjectKind::FatMachO,
        Object::PE(_) => ObjectKind::Pe,
        Object::COFF(_) => ObjectKind::Coff,
        Object::Unknown(_) => ObjectKind::Unknown,
        _ => ObjectKind::Other,
    }
}

/// Copies fields of `Elf` and its header.
///
/// Trusted: they depend on the parsed bytes alone.
#[verifier::external_body]
pub(crate) fn elf_header(o: &Object<'_>) -> (r: Option<ElfHeader>)
    requires
        has_kind(*o, ObjectKind::Elf),
    ensures
        r == Some(elf_header_of(object_source(*o))),
{
    match o {
        Object::Elf(e) => Some(ElfHeader {
            machine: e.header.e_machine,
            etype: e.header.e_type,
            entry: e.entry,
        }),
        _ => None,
    }
}

/// Copies the section headers of `Elf`, the names from `Strtab::get_at`.
///
/// Trusted: they depend on the parsed bytes alone.
#[verifier::external_body]
pub(crate) fn elf_sections(o: &Object<'_>) -> (r: Vec<ElfSection>)
    requires
        has_kind(*o, ObjectKind::Elf),
    ensures
        section_views(r@) == elf_sections_of(object_source(*o)),
{
    match o {
        Object::Elf(e) => e.section_headers.iter().map(|s| ElfSection {
            kind: s.sh_type,
            flags: s.sh_flags,
            addr: s.sh_addr,
            offset: s.sh_offset,
            size: s.sh_size,
            name: e.shdr_strtab.get_at(s.sh_name).map(String::from),
        }).collect(),
        _ => Vec::new(),
    }
}

/// Copies the program headers of `Elf`.
///
/// Trusted: they depend on the parsed bytes alone.
#[verifier::external_body]
pub(crate) fn elf_programs(o: &Object<'_>) -> (r: Vec<ElfProgram>)
    requires
        has_kind(*o, ObjectKind::Elf),
    ensures
        r@ == elf_programs_of(object_source(*o)),
{
    match o {
        Object::Elf(e) => e.program_headers.iter().map(|p| ElfProgram {
            kind: p.p_type,
            flags: p.p_flags,
            offset: p.p_offset,
            vaddr: p.p_vaddr,
            filesz: p.p_filesz,
            memsz: p.p_memsz,
        }).collect(),
        _ => Vec::new(),
    }
}

/// Copies the symbol table of `Elf`, the names from `Strtab::get_at`.
///
/// Trusted: it depends on the parsed bytes alone.
#[verifier::external_body]
pub(crate) fn elf_syms(o: &Object<'_>) -> (r: Vec<ElfSym>)
    requires
        has_kind(*o, ObjectKind::Elf),
    ensures
        sym_views(r@) == elf_syms_of(object_source(*o)),
{
    match o {
        Object::Elf(e) => e.syms.iter().map(|s| ElfSym {
            value: s.st_value,
            kind: s.st_type(),
            shndx: s.st_shndx,
            name: e.strtab.get_at(s.st_name).map(String::from),
        }).collect(),
        _ => Vec::new(),
    }
}

/// Copies the dynamic symbol table of `Elf`; the names are not looked at.
///
/// Trusted: it depends on the parsed bytes alone.
#[verifier::external_body]
pub(crate) fn elf_dynsyms(o: &Object<'_>) -> (r: Vec<ElfSym>)
    requires
        has_kind(*o, ObjectKind::Elf),
    ensures
        sym_views(r@) == elf_dynsyms_of(object_source(*o)),
{
    match o {
        Object::Elf(e) => e.dynsyms.iter().map(|s| ElfSym {
            value: s.st_value,
            kind: s.st_type(),
            shndx: s.st_shndx,
            name: None,
        }).collect(),
        _ => Vec::new(),
    }
}

/// Copies the dynamic relocations with addends of `Elf`.
///
/// Trusted: they depend on the parsed bytes alone.
#[verifier::external_body]
pub(crate) fn elf_dynrelas(o: &Object<'_>) -> (r: Vec<ElfReloc>)
    requires
        has_kind(*o, ObjectKind::Elf),
    ensures
        r@ == elf_dynrelas_of(object_source(*o)),
{
    match o {
        Object::Elf(e) => e.dynrelas.iter().map(|r| ElfReloc {
            offset: r.r_offset,
            kind: r.r_type,
            sym: r.r_sym,
            addend: r.r_addend,
        }).collect(),
        _ => Vec::new(),
    }
}

/// Copies the dynamic relocations without addends of `Elf`.
///
/// Trusted: they depend on the parsed bytes alone.
#[verifier::external_body]
pub(crate) fn elf_dynrels(o: &Object<'_>) -> (r: Vec<ElfReloc>)
    requires
        has_kind(*o, ObjectKind::Elf),
    ensures
        r@ == elf_dynrels_of(object_source(*o)),
{
    match o {
        Object::Elf(e) => e.dynrels.iter().map(|r| ElfReloc {
            offset: r.r_offset,
            kind: r.r_type,
            sym: r.r_sym,
            addend: r.r_addend,
        }).collect(),
        _ => Vec::new(),
    }
}

/// Copies the relocations of the linkage table of `Elf`.
///
/// Trusted: they depend on the parsed bytes alone.
#[verifier::external_body]
pub(crate) fn elf_pltrelocs(o: &Object<'_>) -> (r: Vec<ElfReloc>)
    requires
        has_kind(*o, ObjectKind::Elf),
    ensures
        r@ == elf_pltrelocs_of(object_source(*o)),
{
    match o {
        Object::Elf(e) => e.pltrelocs.iter().map(|r| ElfReloc {
            offset: r.r_offset,
            kind: r.r_type,
            sym: r.r_sym,
            addend: r.r_addend,
        }).collect(),
        _ => Vec::new(),
    }
}

/// What an ELF file holds.
pub open spec fn elf_image_of(file: Seq<u8>) -> ElfImageView {
    ElfImageView {
        machine: elf_header_of(file).machine,
        etype: elf_header_of(file).etype,
        entry: elf_header_of(file).entry,
        sections: elf_sections_of(file),
        programs: elf_programs_of(file),
        syms: elf_syms_of(file),
        dynsyms: elf_dynsyms_of(file),
        dynrelas: elf_dynrelas_of(file),
        dynrels: elf_dynrels_of(file),
        pltrelocs: elf_pltrelocs_of(file),
    }
}

/// Copies what an ELF file holds.
pub(crate) fn read_elf(o: &Object<'_>) -> (r: Option<ElfImage>)
    requires
        has_kind(*o, ObjectKind::Elf),
    ensures
        r matches Some(img) && img@ == elf_image_of(object_source(*o)),
{
    match elf_header(o) {
        Some(h) => Some(
            ElfImage {
                machine: h.machine,
                etype: h.etype,
                entry: h.entry,
                sections: elf_sections(o),
                programs: elf_programs(o),
                syms: elf_syms(o),
                dynsyms: elf_dynsyms(o),
                dynrelas: elf_dynrelas(o),
                dynrels: elf_dynrels(o),
                pltrelocs: elf_pltrelocs(o),
            },
        ),
        None => None,
    }
}

/// Copies fields of `MachO` and its header.
///
/// Trusted: they depend on the parsed bytes alone.
#[verifier::external_body]
pub(crate) fn mach_header(o: &Object<'_>) -> (r: Option<MachHeader>)
    requires
        has_kind(*o, ObjectKind::MachO),
    ensures
        r == Some(mach_header_of(object_source(*o))),
{
    match o {
        Object::Mach(Mach::Binary(m)) => Some(MachHeader {
            cputype: m.header.cputype(),
            entry: m.entry,
        }),
        _ => None,
    }
}

/// Copies the segments of `MachO`, the sections from `Segment::sections`.
///
/// Trusted: they depend on the parsed bytes alone.
#[verifier::external_body]
pub(crate) fn mach_segments(o: &Object<'_>) -> (r: Vec<MachSegment>)
    requires
        has_kind(*o, ObjectKind::MachO),
    ensures
        mach_segment_views(r@) == mach_segments_of(object_source(*o)),
{
    match o {
        Object::Mach(Mach::Binary(m)) => m.segments.iter().map(|s| MachSegment {
            name: s.name().ok().map(String::from),
            vmaddr: s.vmaddr,
            initprot: s.initprot,
            sections: s.sections().ok().map(|v| v.iter().map(|(t, data)| MachSection {
                name: t.name().ok().map(String::from),
                addr: t.addr, size: t.size, offset: t.offset, held: data.len(),
            }).collect()),
        }).collect(),
        _ => Vec::new(),
    }
}

/// Copies the symbols of `MachO` from `Symbols::iter`.
///
/// Trusted: they depend on the parsed bytes alone.
#[verifier::external_body]
pub(crate) fn mach_symbols(o: &Object<'_>) -> (r: Vec<Option<MachSym>>)
    requires
        has_kind(*o, ObjectKind::MachO),
    ensures
        mach_sym_views(r@) == mach_symbols_of(object_source(*o)),
{
    match o {
        Object::Mach(Mach::Binary(m)) => m.symbols.iter().flat_map(|s| s.iter()).map(|s| {
            s.ok().map(|(name, n)| MachSym { name: name.to_string(), value: n.n_value })
        }).collect(),
        _ => Vec::new(),
    }
}

/// Tells the load command for chained fixups from the others of `MachO`.
///
/// Trusted: the commands depend on the parsed bytes alone.
#[verifier::external_body]
pub(crate) fn mach_fixups(o: &Object<'_>) -> (r: Vec<Option<MachBlob>>)
    requires
        has_kind(*o, ObjectKind::MachO),
    ensures
        r@ == mach_fixups_of(object_source(*o)),
{
    match o {
        Object::Mach(Mach::Binary(m)) => m.load_commands.iter().map(|c| match &c.command {
            CommandVariant::DyldChainedFixups(f) => {
                Some(MachBlob { offset: f.dataoff, size: f.datasize })
            }
            _ => None,
        }).collect(),
        _ => Vec::new(),
    }
}

/// What a Mach-O file holds.
pub open spec fn mach_image_of(file: Seq<u8>) -> MachImageView {
    MachImageView {
        cputype: mach_header_of(file).cputype,
        entry: mach_header_of(file).entry,
        segments: mach_segments_of(file),
        symbols: mach_symbols_of(file),
        fixups: mach_fixups_of(file),
    }
}

/// Copies what a Mach-O file holds.
pub(crate) fn read_mach(o: &Object<'_>) -> (r: Option<MachImage>)
    requires
        has_kind(*o, ObjectKind::MachO),
    ensures
        r matches Some(img) && img@ == mach_image_of(object_source(*o)),
{
    match mach_header(o) {
        Some(h) => Some(
            MachImage {
                cputype: h.cputype,
                entry: h.entry,
                segments: mach_segments(o),
                symbols: mach_symbols(o),
                fixups: mach_fixups(o),
            },
        ),
        None => None,
    }
}

/// Copies fields of `PE` and its headers, the tables from
/// `DataDirectories::get_exception_table` and `get_base_relocation_table`.
///
/// Trusted: they depend on the parsed bytes alone.
#[verifier::external_body]
pub(crate) fn pe_header(o: &Object<'_>) -> (r: Option<PeHeader>)
    requires
        has_kind(*o, ObjectKind::Pe),
    ensures
        r == Some(pe_header_of(object_source(*o))),
{
    let Object::PE(p) = o else { return None };
    let dirs = p.header.optional_header.map(|h| h.data_directories);
    Some(PeHeader {
        machine: p.header.coff_header.machine,
        image_base: p.image_base,
        entry: p.entry,
        exceptions: dirs.and_then(|d| d.get_exception_table().map(|t| PeDirectory {
            rva: t.virtual_address, size: t.size,
        })),
        relocations: dirs.and_then(|d| d.get_base_relocation_table().map(|t| PeDirectory {
            rva: t.virtual_address, size: t.size,
        })),
    })
}

/// Copies the section headers of `PE`, the names from `SectionTable::name`.
///
/// Trusted: they depend on the parsed bytes alone.
#[verifier::external_body]
pub(crate) fn pe_sections(o: &Object<'_>) -> (r: Vec<PeSection>)
    requires
        has_kind(*o, ObjectKind::Pe),
    ensures
        pe_section_views(r@) == pe_sections_of(object_source(*o)),
{
    match o {
        Object::PE(p) => p.sections.iter().map(|s| PeSection {
            rva: s.virtual_address,
            virtual_size: s.virtual_size,
            raw_offset: s.pointer_to_raw_data,
            raw_size: s.size_of_raw_data,
            flags: s.characteristics,
            name: s.name().ok().map(String::from),
        }).collect(),
        _ => Vec::new(),
    }
}

/// Copies the exports of `PE`.
///
/// Trusted: they depend on the parsed bytes alone.
#[verifier::external_body]
pub(crate) fn pe_exports(o: &Object<'_>) -> (r: Vec<PeExport>)
    requires
        has_kind(*o, ObjectKind::Pe),
    ensures
        export_views(r@) == pe_exports_of(object_source(*o)),
{
    match o {
        Object::PE(p) => p.exports.iter().map(|e| PeExport {
            name: e.name.map(String::from),
            rva: e.rva as u64,
        }).collect(),
        _ => Vec::new(),
    }
}

/// Copies `Import::offset` of the imports of `PE`: the place of each in the import
/// address table, relative to the image base.
///
/// Trusted: they depend on the parsed bytes alone.
#[verifier::external_body]
pub(crate) fn pe_imports(o: &Object<'_>) -> (r: Vec<u64>)
    requires
        has_kind(*o, ObjectKind::Pe),
    ensures
        r@ == pe_imports_of(object_source(*o)),
{
    match o {
        Object::PE(p) => p.imports.iter().map(|i| i.offset as u64).collect(),
        _ => Vec::new(),
    }
}

/// What a PE file holds.
pub open spec fn pe_image_of(file: Seq<u8>) -> PeImageView {
    PeImageView {
        machine: pe_header_of(file).machine,
        image_base: pe_header_of(file).image_base,
        entry: pe_header_of(file).entry,
        sections: pe_sections_of(file),
        exports: pe_exports_of(file),
        imports: pe_imports_of(file),
        exceptions: pe_header_of(file).exceptions,
        relocations: pe_header_of(file).relocations,
    }
}

/// Copies what a PE file holds.
pub(crate) fn read_pe(o: &Object<'_>) -> (r: Option<PeImage>)
    requires
        has_kind(*o, ObjectKind::Pe),
    ensures
        r matches Some(img) && img@ == pe_image_of(object_source(*o)),
{
    match pe_header(o) {
        Some(h) => Some(
            PeImage {
                machine: h.machine,
                image_base: h.image_base,
                entry: h.entry,
                sections: pe_sections(o),
                exports: pe_exports(o),
                imports: pe_imports(o),
                exceptions: h.exceptions,
                relocations: h.relocations,
            },
        ),
        None => None,
    }
}

/// Copies the machine of `Coff`.
///
/// Trusted: it depends on the parsed bytes alone.
#[verifier::external_body]
pub(crate) fn coff_machine(o: &Object<'_>) -> (r: Option<u16>)
    requires
        has_kind(*o, ObjectKind::Coff),
    ensures
        r == Some(coff_machine_of(object_source(*o))),
{
    match o {
        Object::COFF(c) => Some(c.header.machine),
        _ => None,
    }
}

/// Copies the section headers of `Coff`, the names from `SectionTable::name`.
///
/// Trusted: they depend on the parsed bytes alone.
#[verifier::external_body]
pub(crate) fn coff_sections(o: &Object<'_>) -> (r: Vec<PeSection>)
    requires
        has_kind(*o, ObjectKind::Coff),
    ensures
        pe_section_views(r@) == coff_sections_of(object_source(*o)),
{
    match o {
        Object::COFF(c) => c.sections.iter().map(|s| PeSection {
            rva: s.virtual_address,
            virtual_size: s.virtual_size,
            raw_offset: s.pointer_to_raw_data,
            raw_size: s.size_of_raw_data,
            flags: s.characteristics,
            name: s.name().ok().map(String::from),
        }).collect(),
        _ => Vec::new(),
    }
}

/// Copies the symbol table of `Coff` from `SymbolTable::iter`.
///
/// Trusted: it depends on the parsed bytes alone.
#[verifier::external_body]
pub(crate) fn coff_entries(o: &Object<'_>) -> (r: Vec<CoffEntry>)
    requires
        has_kind(*o, ObjectKind::Coff),
    ensures
        r@ == coff_entries_of(object_source(*o)),
{
    match o {
        Object::COFF(c) => c.symbols.iter().flat_map(|t| t.iter()).map(|(_, _, s)| CoffEntry {
            section: s.section_number,
            class: s.storage_class,
            value: s.value,
            short_name: s.name,
        }).collect(),
        _ => Vec::new(),
    }
}

/// Reads the name of a symbol with `Symbol::name`, from the symbol itself or from
/// the string table. A file with a symbol table has a string table.
///
/// Trusted: the name depends on the parsed bytes and the short name alone. Offsets
/// into the string table count its four bytes of length; a smaller one makes the
/// outside function overflow and is left out.
#[verifier::external_body]
pub(crate) fn coff_name(o: &Object<'_>, short_name: &[u8; 8]) -> (r: Option<String>)
    requires
        has_kind(*o, ObjectKind::Coff),
        short_name@[0] != 0 || le32(short_name@, 4) >= 4,
    ensures
        opt_text(r) == coff_name_of(object_source(*o), short_name@),
{
    let symbol = goblin::pe::symbol::Symbol { name: *short_name, ..Default::default() };
    match o {
        Object::COFF(c) => {
            c.strings.as_ref().and_then(|t| symbol.name(t).ok().map(String::from))
        }
        _ => None,
    }
}

/// The symbol of an entry of a COFF symbol table.
pub open spec fn coff_sym_of(file: Seq<u8>, e: CoffEntry) -> CoffSymView {
    CoffSymView {
        section: e.section,
        class: e.class,
        value: e.value,
        name: if e.short_name@[0] != 0 || le32(e.short_name@, 4) >= 4 {
            coff_name_of(file, e.short_name@)
        } else {
            None
        },
    }
}

/// What a COFF file holds.
pub open spec fn coff_image_of(file: Seq<u8>) -> CoffImageView {
    CoffImageView {
        machine: coff_machine_of(file),
        sections: coff_sections_of(file),
        symbols: coff_entries_of(file).map_values(|e: CoffEntry| coff_sym_of(file, e)),
    }
}

/// Copies the symbols of a COFF file with their names.
fn read_coff_symbols(o: &Object<'_>) -> (r: Vec<CoffSym>)
    requires
        has_kind(*o, ObjectKind::Coff),
    ensures
        coff_sym_views(r@) == coff_image_of(object_source(*o)).symbols,
{
    let ghost file = object_source(*o);
    let entries: Vec<CoffEntry> = coff_entries(o);
    let mut out: Vec<CoffSym> = Vec::new();
    let mut i: usize = 0;
    while i < entries.len()
        invariant
            i <= entries@.len(),
            has_kind(*o, ObjectKind::Coff),
            file == object_source(*o),
            entries@ == coff_entries_of(file),
            out@.len() == i,
            forall|j: int| 0 <= j < i ==> (#[trigger] out@[j])@ == coff_sym_of(file, entries@[j]),
        decreases entries@.len() - i,
    {
        let e = entries[i];
        let offset: u32 = read_u32_le(e.short_name.as_slice(), 4);
        let name: Option<String> = if e.short_name[0] != 0 || offset >= 4 {
            coff_name(o, &e.short_name)
        } else {
            None
        };
        let sym = CoffSym { section: e.section, class: e.class, value: e.value, name };
        assert(sym@ =~= coff_sym_of(file, e));
        out.push(sym);
        i = i + 1;
    }
    assert(coff_sym_views(out@) =~= coff_image_of(file).symbols);
    out
}

/// Copies what a COFF file holds.
pub(crate) fn read_coff(o: &Object<'_>) -> (r: Option<CoffImage>)
    requires
        has_kind(*o, ObjectKind::Coff),
    ensures
        r matches Some(img) && img@ == coff_image_of(object_source(*o)),
{
    match coff_machine(o) {
        Some(machine) => Some(
            CoffImage { machine, sections: coff_sections(o), symbols: read_coff_symbols(o) },
        ),
        None => None,
    }
}

} // verus!
