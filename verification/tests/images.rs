//! Images written down as headers, without a file format around them.

use xr::loader::coff::{compute_section_vas, parse_coff, CoffImage, CoffSym};
use xr::loader::elf::{
    parse_elf, ElfImage, ElfProgram, ElfReloc, ElfSection, ElfSym, EM_AARCH64, EM_ARM, ET_DYN,
};
use xr::loader::elf_relocs::build_elf_got_slots;
use xr::loader::macho::{parse_macho, MachImage, MachSection, MachSegment, MachSym};
use xr::loader::pe::{parse_pe, PeExport, PeImage, PeSection, PeSectionMap};
use xr::loader::{Arch, DecodeMode, LoadedBinary, ModeSwitch, RelocPointer};
use xr::va::Va;

fn elf(machine: u16, etype: u16) -> ElfImage {
    ElfImage {
        machine,
        etype,
        entry: 0,
        sections: vec![],
        programs: vec![],
        syms: vec![],
        dynsyms: vec![],
        dynrelas: vec![],
        dynrels: vec![],
        pltrelocs: vec![],
    }
}

fn section(name: &str, addr: u64, offset: u64, size: u64, flags: u64) -> ElfSection {
    ElfSection { kind: 1, flags, addr, offset, size, name: Some(name.to_string()) }
}

fn program(flags: u32, offset: u64, vaddr: u64, size: u64) -> ElfProgram {
    ElfProgram { kind: 1, flags, offset, vaddr, filesz: size, memsz: size }
}

fn sym(name: &str, value: u64, kind: u8) -> ElfSym {
    ElfSym { value, kind, shndx: 1, name: Some(name.to_string()) }
}

fn switch(va: u64, mode: DecodeMode) -> ModeSwitch {
    ModeSwitch { va: Va::new(va), mode }
}

fn layout(b: &LoadedBinary<'_>) -> Vec<(u64, usize)> {
    b.segments.iter().map(|s| (s.va.raw(), s.data.len())).collect()
}

/// A 32-bit ARM image with one code section of 0x40 bytes.
fn arm_image() -> ElfImage {
    let mut img = elf(EM_ARM, 2);
    img.sections = vec![section(".text", 0x8000, 0, 0x40, 6)];
    img.programs = vec![program(5, 0, 0x8000, 0x40)];
    img
}

#[test]
fn mapping_symbols_set_the_encoding() {
    let file = vec![0u8; 0x40];
    let mut img = arm_image();
    img.syms = vec![
        sym("$t.1", 0x8010, 0),
        sym("$a", 0x8000, 0),
        sym("$tail", 0x8020, 0),
        sym("$d", 0x8028, 0),
    ];
    let b = parse_elf(&file, &img, None);
    assert_eq!(b.arch, Arch::Arm32);
    assert_eq!(b.segments[0].mode, DecodeMode::Arm32);
    assert_eq!(b.segments[0].switches, vec![switch(0x8010, DecodeMode::Thumb)]);
}

/// Where both mark an address, the function symbol counts.
#[test]
fn function_symbols_decide() {
    let file = vec![0u8; 0x40];
    let mut img = arm_image();
    img.syms = vec![
        sym("$a", 0x8000, 0),
        sym("$a", 0x8010, 0),
        sym("$t", 0x8030, 0),
        sym("f", 0x8011, 2),
        sym("g", 0x8020, 2),
        sym("outside", 0x9001, 2),
    ];
    let b = parse_elf(&file, &img, None);
    assert_eq!(
        b.segments[0].switches,
        vec![
            switch(0x8010, DecodeMode::Thumb),
            switch(0x8020, DecodeMode::Arm32),
            switch(0x8030, DecodeMode::Thumb),
        ]
    );
}

/// Without mapping symbols the first words vote.
#[test]
fn encodings_are_probed_without_symbols() {
    let mut arm = Vec::new();
    let mut thumb = Vec::new();
    for _ in 0..16 {
        arm.extend_from_slice(&0xe1a0_0000u32.to_le_bytes());
        thumb.extend_from_slice(&0x46c0_b510u32.to_le_bytes());
    }
    assert_eq!(parse_elf(&arm, &arm_image(), None).segments[0].mode, DecodeMode::Arm32);
    assert_eq!(parse_elf(&thumb, &arm_image(), None).segments[0].mode, DecodeMode::Thumb);
}

#[test]
fn arm_relocations_have_their_addend_in_the_slot() {
    let mut file = vec![0u8; 0x60];
    file[0x40..0x44].copy_from_slice(&0x8004u32.to_le_bytes());
    file[0x44..0x48].copy_from_slice(&2u32.to_le_bytes());
    let mut img = arm_image();
    img.programs.push(program(6, 0x40, 0xa000, 0x20));
    img.dynsyms = vec![sym("", 0, 0), sym("f", 0x8008, 0)];
    img.dynrels = vec![
        ElfReloc { offset: 0xa000, kind: 23, sym: 0, addend: None },
        ElfReloc { offset: 0xa004, kind: 2, sym: 1, addend: None },
        ElfReloc { offset: 0xa008, kind: 21, sym: 1, addend: None },
        // This slot holds zero, which nothing is mapped at.
        ElfReloc { offset: 0xa00c, kind: 23, sym: 0, addend: None },
    ];
    let b = parse_elf(&file, &img, None);
    let p = |from: u64, to: u64| RelocPointer { from: Va::new(from), to: Va::new(to) };
    assert_eq!(b.reloc_pointers, vec![p(0xa000, 0x8004), p(0xa004, 0x800a)]);
    assert!(b.reloc_pointers.iter().all(|p| b.is_mapped(p.to)));
    assert_eq!(b.got_slots.iter().copied().collect::<Vec<u64>>(), vec![0xa008]);
}

#[test]
fn slots_are_those_of_linkage_relocations() {
    let mut img = elf(EM_AARCH64, ET_DYN);
    let r = |offset: u64, kind: u32| ElfReloc { offset, kind, sym: 1, addend: Some(0) };
    img.dynrelas = vec![r(0x10, 1025), r(0x18, 1027)];
    img.dynrels = vec![r(0x20, 1026)];
    img.pltrelocs = vec![r(0x28, 1026), r(0x30, 257)];
    let mut slots: Vec<u64> = build_elf_got_slots(&img, 0x1000).iter().copied().collect();
    slots.sort_unstable();
    assert_eq!(slots, vec![0x1010, 0x1020, 0x1028]);
}

/// A base moves every segment by itself and nothing else.
#[test]
fn bases_shift_segments() {
    let file = vec![7u8; 0x40];
    let mut img = elf(EM_AARCH64, ET_DYN);
        img.programs = vec![program(4, 0, 0, 0x20), program(6, 0x20, 0x1000, 0x20)];
    let zero = parse_elf(&file, &img, Some(0));
    let moved = parse_elf(&file, &img, Some(0x7000));
    let default = parse_elf(&file, &img, None);
    assert_eq!(layout(&zero), vec![(0, 0x20), (0x1000, 0x20)]);
    assert_eq!(layout(&moved), vec![(0x7000, 0x20), (0x8000, 0x20)]);
    assert_eq!(default.pie_base, 0x40_0000);
    assert_eq!(moved.pie_base, 0x7000);
    for (a, b) in zero.segments.iter().zip(moved.segments.iter()) {
        assert_eq!(a.data(), b.data());
        assert_eq!(a.executable, b.executable);
    }
    // A fixed image keeps its addresses.
    img.etype = 2;
    assert_eq!(layout(&parse_elf(&file, &img, Some(0x7000))), layout(&zero));
}

fn pe_section(name: &str, rva: u32, virtual_size: u32, raw: (u32, u32), flags: u32) -> PeSection {
    PeSection {
        rva,
        virtual_size,
        raw_offset: raw.0,
        raw_size: raw.1,
        flags,
        name: Some(name.to_string()),
    }
}

#[test]
fn pe_sections_without_bytes_are_zeros() {
    let file = vec![1u8; 0x100];
    let img = PeImage {
        machine: 0x14c,
        image_base: 0x1_0000,
        entry: 0,
        sections: vec![
            pe_section(".bss", 0x1000, 0x30, (0, 0), 0xC000_0080),
            pe_section(".none", 0x2000, 0, (0, 0), 0xC000_0080),
            pe_section(".cut", 0x3000, 0x10, (0xF8, 0x10), 0x4000_0040),
            pe_section(".debug_info", 0x4000, 0x100, (0, 0x10), 0x4000_0040),
        ],
        exports: vec![
            PeExport { name: Some("x".to_string()), rva: 0x1004 },
            PeExport { name: None, rva: 0x1008 },
        ],
        imports: vec![0x1010, 0x1014],
        exceptions: None,
        relocations: None,
    };
    let b = parse_pe(&file, &img);
    assert_eq!(b.arch, Arch::X86);
    assert_eq!(layout(&b), vec![(0x1_1000, 0x30), (0x1_4000, 0x10)]);
    assert!(b.segments[0].data().iter().all(|&x| x == 0));
    assert!(!b.segments[1].byte_scannable);
    assert!(b.entry_points.is_empty());
    assert_eq!(b.symbols.len(), 1);
    assert_eq!(b.symbols[0].va, Va::new(0x1_1004));
    let mut slots: Vec<u64> = b.got_slots.iter().copied().collect();
    slots.sort_unstable();
    assert_eq!(slots, vec![0x1_1010, 0x1_1014]);
}

#[test]
fn pe_addresses_lead_to_file_positions() {
    let map = PeSectionMap::build(&vec![
        pe_section(".b", 0x2000, 0x100, (0x600, 0x80), 0),
        pe_section(".a", 0x1000, 0x40, (0x400, 0x200), 0),
        pe_section(".z", 0x3000, 0x40, (0, 0), 0),
    ]);
    assert_eq!(map.rva_to_file_offset(0xfff), None);
    assert_eq!(map.rva_to_file_offset(0x1000), Some(0x400));
    assert_eq!(map.rva_to_file_offset(0x103f), Some(0x43f));
    assert_eq!(map.rva_to_file_offset(0x1040), None);
    assert_eq!(map.rva_to_file_offset(0x207f), Some(0x67f));
    assert_eq!(map.rva_to_file_offset(0x2080), None);
    assert_eq!(map.rva_to_file_offset(0x3000), None);
}

/// The sections of an object follow one another.
#[test]
fn coff_sections_end_to_end() {
    let sections = vec![
        pe_section(".text", 0, 0, (0x10, 0x20), 0x6000_0020),
        pe_section(".drectve", 0, 0, (0x30, 8), 0xA00),
        pe_section(".bss", 0, 0, (0, 0x10), 0xC000_0080),
        pe_section(".cut", 0, 0, (0x50, 0x20), 0x4000_0040),
    ];
    assert_eq!(compute_section_vas(&sections), vec![0, 0x20, 0x28, 0x38]);
    let file = vec![9u8; 0x60];
    let symbol = |name: &str, section: i16, class: u8, value: u32| CoffSym {
        section,
        class,
        value,
        name: Some(name.to_string()),
    };
    let img = CoffImage {
        machine: 0xaa64,
        sections,
        symbols: vec![
            symbol("f", 1, 2, 4),
            symbol("label", 1, 6, 8),
            symbol("", 1, 2, 0),
            symbol("abs", -1, 2, 1),
            symbol("far", 5, 2, 1),
            symbol("z", 3, 3, 2),
        ],
    };
    let b = parse_coff(&file, &img);
    assert_eq!(b.arch, Arch::Arm64);
    assert_eq!(layout(&b), vec![(0, 0x20), (0x28, 0x10)]);
    let names: Vec<(&str, u64)> =
        b.symbols.iter().map(|s| (s.name.as_str(), s.va.raw())).collect();
    assert_eq!(names, vec![("f", 4), ("z", 0x2a)]);
}

#[test]
fn macho_without_readable_sections_is_nothing() {
    let seg = |sections: Option<Vec<MachSection>>| MachSegment {
        name: Some("__TEXT".to_string()),
        vmaddr: 0x1000,
        initprot: 5,
        sections,
    };
    let mut img = MachImage {
        cputype: 0x0100_0007,
        entry: 0,
        segments: vec![seg(None)],
        symbols: vec![],
        fixups: vec![],
    };
    assert!(parse_macho(&[], &img).is_none());
    img.segments = vec![seg(Some(vec![]))];
    img.symbols = vec![
        None,
        Some(MachSym { name: "_f".to_string(), value: 0x1010 }),
        Some(MachSym { name: "_undefined".to_string(), value: 0 }),
    ];
    let b = parse_macho(&[], &img).unwrap();
    assert_eq!(b.arch, Arch::X86_64);
    assert!(b.segments.is_empty());
    assert_eq!(b.entry_points, vec![Va::new(0)]);
    assert_eq!(b.symbols.len(), 1);
    assert_eq!(b.symbols[0].name, "_f");
}
