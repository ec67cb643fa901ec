//! Whole object files, built byte by byte.

use xr::loader::{Arch, LoadError, LoadedBinary, RelocPointer};
use xr::loader::mach_entry::check_mach_entry;
use xr::va::Va;

/// Writes the low `n` bytes of a number, little-endian.
fn put(buf: &mut [u8], off: usize, val: u64, n: usize) {
    buf[off..off + n].copy_from_slice(&val.to_le_bytes()[..n]);
}

fn put_bytes(buf: &mut [u8], off: usize, bytes: &[u8]) {
    buf[off..off + bytes.len()].copy_from_slice(bytes);
}

fn pointer(from: u64, to: u64) -> RelocPointer {
    RelocPointer { from: Va::new(from), to: Va::new(to) }
}

fn layout(b: &LoadedBinary<'_>) -> Vec<(u64, usize, String)> {
    b.segments.iter().map(|s| (s.va.raw(), s.data.len(), s.name.clone())).collect()
}

fn names(b: &LoadedBinary<'_>) -> Vec<(String, u64)> {
    b.symbols.iter().map(|s| (s.name.clone(), s.va.raw())).collect()
}

fn slots(b: &LoadedBinary<'_>) -> Vec<u64> {
    let mut v: Vec<u64> = b.got_slots.iter().copied().collect();
    v.sort_unstable();
    v
}

/// An x86-64 shared object with code, relocated data, symbols and a linkage table.
fn elf_file() -> Vec<u8> {
    let mut b = vec![0u8; 0x1000];
    put_bytes(&mut b, 0, &[0x7f, b'E', b'L', b'F', 2, 1, 1]);
    put(&mut b, 16, 3, 2);
    put(&mut b, 18, 62, 2);
    put(&mut b, 20, 1, 4);
    put(&mut b, 24, 0x400, 8);
    put(&mut b, 32, 0x40, 8);
    put(&mut b, 40, 0xA00, 8);
    put(&mut b, 52, 64, 2);
    put(&mut b, 54, 56, 2);
    put(&mut b, 56, 3, 2);
    put(&mut b, 58, 64, 2);
    put(&mut b, 60, 6, 2);
    put(&mut b, 62, 4, 2);
    // kind, flags, offset, address, size in the file, size in memory
    let programs: [[u64; 6]; 3] = [
        [1, 5, 0, 0, 0x800, 0x800],
        [1, 6, 0x800, 0x10800, 0x200, 0x300],
        [2, 6, 0x900, 0x10900, 0xB0, 0xB0],
    ];
    for (i, p) in programs.iter().enumerate() {
        let at = 0x40 + 56 * i;
        put(&mut b, at, p[0], 4);
        put(&mut b, at + 4, p[1], 4);
        put(&mut b, at + 8, p[2], 8);
        put(&mut b, at + 16, p[3], 8);
        put(&mut b, at + 24, p[3], 8);
        put(&mut b, at + 32, p[4], 8);
        put(&mut b, at + 40, p[5], 8);
        put(&mut b, at + 48, 0x1000, 8);
    }
    put_bytes(&mut b, 0x500, b"\0func\0imp\0");
    // A function that the image defines, and an import.
    put(&mut b, 0x520 + 24, 1, 4);
    put(&mut b, 0x520 + 28, 0x12, 1);
    put(&mut b, 0x520 + 30, 1, 2);
    put(&mut b, 0x520 + 32, 0x400, 8);
    put(&mut b, 0x520 + 48, 6, 4);
    put(&mut b, 0x520 + 52, 0x12, 1);
    // place, symbol and type, addend
    let relocs: [[u64; 3]; 3] = [
        [0x10810, 8, 0x410],
        [0x10818, (1 << 32) | 1, 4],
        [0x10820, (2 << 32) | 6, 0],
    ];
    for (i, r) in relocs.iter().enumerate() {
        for (k, v) in r.iter().enumerate() {
            put(&mut b, 0x600 + 24 * i + 8 * k, *v, 8);
        }
    }
    put(&mut b, 0x6C0, 0x10828, 8);
    put(&mut b, 0x6C8, (2 << 32) | 7, 8);
    put(&mut b, 0x700 + 24, 1, 4);
    put(&mut b, 0x700 + 28, 0x12, 1);
    put(&mut b, 0x700 + 30, 1, 2);
    put(&mut b, 0x700 + 32, 0x400, 8);
    put_bytes(&mut b, 0x740, b"\0main\0");
    put_bytes(&mut b, 0x760, b"\0.text\0.symtab\0.strtab\0.shstrtab\0.data.rel.ro\0");
    let dynamic: [[u64; 2]; 11] = [
        [5, 0x500],
        [10, 10],
        [6, 0x520],
        [11, 24],
        [7, 0x600],
        [8, 72],
        [9, 24],
        [23, 0x6C0],
        [2, 24],
        [20, 7],
        [0, 0],
    ];
    for (i, d) in dynamic.iter().enumerate() {
        put(&mut b, 0x900 + 16 * i, d[0], 8);
        put(&mut b, 0x908 + 16 * i, d[1], 8);
    }
    // name, kind, flags, address, offset, size, link, entry size
    let sections: [[u64; 8]; 6] = [
        [0, 0, 0, 0, 0, 0, 0, 0],
        [1, 1, 6, 0x400, 0x400, 0x40, 0, 0],
        [7, 2, 0, 0, 0x700, 48, 3, 24],
        [15, 3, 0, 0, 0x740, 6, 0, 0],
        [23, 3, 0, 0, 0x760, 47, 0, 0],
        [33, 1, 3, 0x10800, 0x800, 0x40, 0, 0],
    ];
    for (i, s) in sections.iter().enumerate() {
        let at = 0xA00 + 64 * i;
        put(&mut b, at, s[0], 4);
        put(&mut b, at + 4, s[1], 4);
        put(&mut b, at + 8, s[2], 8);
        put(&mut b, at + 16, s[3], 8);
        put(&mut b, at + 24, s[4], 8);
        put(&mut b, at + 32, s[5], 8);
        put(&mut b, at + 40, s[6], 4);
        put(&mut b, at + 56, s[7], 8);
    }
    b
}

#[test]
fn elf_file_is_loaded() {
    let file = elf_file();
    let b = LoadedBinary::load(&file).ok().unwrap();
    assert_eq!(b.arch, Arch::X86_64);
    assert_eq!(b.pie_base, 0x40_0000);
    assert_eq!(b.entry_points, vec![Va::new(0x40_0400)]);
    assert_eq!(
        layout(&b),
        vec![
            (0x40_0400, 0x40, ".text".to_string()),
            (0x40_0440, 0x3C0, "BSS[0x400440]".to_string()),
            (0x41_0800, 0x200, "LOAD[0x410800]".to_string()),
            (0x41_0A00, 0x100, "BSS[0x410a00]".to_string()),
        ]
    );
    assert!(b.segments[0].executable && !b.segments[0].writable);
    assert!(!b.segments[1].executable);
    assert!(b.segments[2].writable && !b.segments[2].executable);
    // A section of relocated data makes the whole not worth a scan.
    assert!(!b.segments[2].byte_scannable);
    assert!(b.segments[3].data().iter().all(|&x| x == 0));
    assert_eq!(names(&b), vec![("main".to_string(), 0x40_0400)]);
    assert_eq!(slots(&b), vec![0x41_0820, 0x41_0828]);
    assert_eq!(
        b.reloc_pointers,
        vec![pointer(0x41_0810, 0x40_0410), pointer(0x41_0818, 0x40_0404)]
    );
}

/// An AArch64 Mach-O executable with code, data, zeros, symbols and chained fixups.
fn macho_file() -> Vec<u8> {
    let mut b = vec![0u8; 0x1400];
    put(&mut b, 0, 0xfeed_facf, 4);
    put(&mut b, 4, 0x0100_000c, 4);
    put(&mut b, 12, 2, 4);
    put(&mut b, 16, 5, 4);
    put(&mut b, 20, 152 + 232 + 24 + 24 + 16, 4);
    let mut at = 32;
    put(&mut b, at, 0x19, 4);
    put(&mut b, at + 4, 152, 4);
    put_bytes(&mut b, at + 8, b"__TEXT");
    put(&mut b, at + 24, 0x1_0000_0000, 8);
    put(&mut b, at + 32, 0x1000, 8);
    put(&mut b, at + 48, 0x1000, 8);
    put(&mut b, at + 56, 5, 4);
    put(&mut b, at + 60, 5, 4);
    put(&mut b, at + 64, 1, 4);
    put_bytes(&mut b, at + 72, b"__text");
    put_bytes(&mut b, at + 88, b"__TEXT");
    put(&mut b, at + 104, 0x1_0000_0400, 8);
    put(&mut b, at + 112, 0x20, 8);
    put(&mut b, at + 120, 0x400, 4);
    at += 152;
    put(&mut b, at, 0x19, 4);
    put(&mut b, at + 4, 232, 4);
    put_bytes(&mut b, at + 8, b"__DATA");
    put(&mut b, at + 24, 0x1_0000_1000, 8);
    put(&mut b, at + 32, 0x1000, 8);
    put(&mut b, at + 40, 0x1000, 8);
    put(&mut b, at + 48, 0x100, 8);
    put(&mut b, at + 56, 3, 4);
    put(&mut b, at + 60, 3, 4);
    put(&mut b, at + 64, 2, 4);
    put_bytes(&mut b, at + 72, b"__got");
    put_bytes(&mut b, at + 88, b"__DATA");
    put(&mut b, at + 104, 0x1_0000_1000, 8);
    put(&mut b, at + 112, 0x40, 8);
    put(&mut b, at + 120, 0x1000, 4);
    put_bytes(&mut b, at + 152, b"__bss");
    put_bytes(&mut b, at + 168, b"__DATA");
    put(&mut b, at + 184, 0x1_0000_1040, 8);
    put(&mut b, at + 192, 0x20, 8);
    put(&mut b, at + 216, 1, 4);
    at += 232;
    put(&mut b, at, 2, 4);
    put(&mut b, at + 4, 24, 4);
    put(&mut b, at + 8, 0x1200, 4);
    put(&mut b, at + 12, 2, 4);
    put(&mut b, at + 16, 0x1240, 4);
    put(&mut b, at + 20, 0x20, 4);
    at += 24;
    put(&mut b, at, 0x8000_0028, 4);
    put(&mut b, at + 4, 24, 4);
    put(&mut b, at + 8, 0x400, 8);
    at += 24;
    put(&mut b, at, 0x8000_0034, 4);
    put(&mut b, at + 4, 16, 4);
    put(&mut b, at + 8, 0x1300, 4);
    put(&mut b, at + 12, 0x80, 4);
    // A pointer to 0x410 from the base, then an import eight bytes on.
    put(&mut b, 0x1008, 0x410 | (2 << 51), 8);
    put(&mut b, 0x1010, 1 << 63, 8);
    put(&mut b, 0x1200, 1, 4);
    put(&mut b, 0x1204, 0x0f, 1);
    put(&mut b, 0x1205, 1, 1);
    put(&mut b, 0x1208, 0x1_0000_0400, 8);
    put(&mut b, 0x1218, 5, 8);
    put_bytes(&mut b, 0x1240, b"\0_main\0");
    put(&mut b, 0x1304, 28, 4);
    put(&mut b, 0x131c, 2, 4);
    put(&mut b, 0x1324, 12, 4);
    put(&mut b, 0x1328, 24, 4);
    put(&mut b, 0x132c, 0x1000, 2);
    put(&mut b, 0x132e, 6, 2);
    put(&mut b, 0x1330, 0x1000, 8);
    put(&mut b, 0x133c, 1, 2);
    put(&mut b, 0x133e, 8, 2);
    b
}

#[test]
fn macho_file_is_loaded() {
    let file = macho_file();
    let b = LoadedBinary::load_with_base(&file, Some(0x1234)).ok().unwrap();
    assert_eq!(b.arch, Arch::Arm64);
    assert_eq!(b.pie_base, 0);
    assert_eq!(b.entry_points, vec![Va::new(0x1_0000_0400)]);
    assert_eq!(
        layout(&b),
        vec![
            (0x1_0000_0400, 0x20, "__TEXT,__text".to_string()),
            (0x1_0000_1000, 0x40, "__DATA,__got".to_string()),
            (0x1_0000_1040, 0x20, "__DATA,__bss".to_string()),
        ]
    );
    assert!(b.segments[0].executable && !b.segments[0].byte_scannable);
    assert!(b.segments[1].writable && !b.segments[1].byte_scannable);
    assert!(b.segments[2].byte_scannable);
    assert_eq!(b.segments[1].bytes_at(Va::new(0x1_0000_1008), 2), Some(&[0x10u8, 0x04][..]));
    assert_eq!(names(&b), vec![("_main".to_string(), 0x1_0000_0400)]);
    assert!(b.got_slots.is_empty());
    assert_eq!(b.reloc_pointers, vec![pointer(0x1_0000_1008, 0x1_0000_0410)]);
}

/// An x86-64 PE image with an export, an import, a relocation and unwind data.
fn pe_file() -> Vec<u8> {
    let mut b = vec![0u8; 0xC00];
    put_bytes(&mut b, 0, b"MZ");
    put(&mut b, 0x3c, 0x80, 4);
    put_bytes(&mut b, 0x80, b"PE\0\0");
    put(&mut b, 0x84, 0x8664, 2);
    put(&mut b, 0x86, 3, 2);
    put(&mut b, 0x94, 240, 2);
    put(&mut b, 0x96, 0x22, 2);
    let o = 0x98;
    put(&mut b, o, 0x20b, 2);
    put(&mut b, o + 16, 0x1000, 4);
    put(&mut b, o + 20, 0x1000, 4);
    put(&mut b, o + 24, 0x1_4000_0000, 8);
    put(&mut b, o + 32, 0x1000, 4);
    put(&mut b, o + 36, 0x200, 4);
    put(&mut b, o + 56, 0x5000, 4);
    put(&mut b, o + 60, 0x400, 4);
    put(&mut b, o + 68, 3, 2);
    put(&mut b, o + 108, 16, 4);
    // index, address, size
    let dirs: [[u64; 3]; 4] =
        [[0, 0x2100, 0x80], [1, 0x2080, 40], [3, 0x2000, 12], [5, 0x2040, 12]];
    for d in dirs {
        put(&mut b, o + 112 + 8 * d[0] as usize, d[1], 4);
        put(&mut b, o + 116 + 8 * d[0] as usize, d[2], 4);
    }
    let sections: [(&[u8], [u64; 5]); 3] = [
        (b".text", [0x100, 0x1000, 0x200, 0x400, 0x6000_0020]),
        (b".rdata", [0x300, 0x2000, 0x400, 0x600, 0x4000_0040]),
        (b".data", [0x400, 0x3000, 0x200, 0xA00, 0xC000_0040]),
    ];
    for (i, (name, f)) in sections.iter().enumerate() {
        let at = 0x188 + 40 * i;
        put_bytes(&mut b, at, name);
        put(&mut b, at + 8, f[0], 4);
        put(&mut b, at + 12, f[1], 4);
        put(&mut b, at + 16, f[2], 4);
        put(&mut b, at + 20, f[3], 4);
        put(&mut b, at + 36, f[4], 4);
    }
    // The file has address 0x2000 at 0x600.
    put(&mut b, 0x600, 0x1000, 4);
    put(&mut b, 0x604, 0x1010, 4);
    put(&mut b, 0x608, 0x2020, 4);
    put_bytes(&mut b, 0x620, &[0x09, 0, 1, 0]);
    put(&mut b, 0x628, 0x1020, 4);
    put(&mut b, 0x640, 0x3000, 4);
    put(&mut b, 0x644, 12, 4);
    put(&mut b, 0x648, (10 << 12) | 8, 2);
    put(&mut b, 0xA08, 0x1_4000_1010, 8);
    put(&mut b, 0x680, 0x20C0, 4);
    put(&mut b, 0x68c, 0x20E0, 4);
    put(&mut b, 0x690, 0x20F0, 4);
    put(&mut b, 0x6C0, 0x8000_0000_0000_0007, 8);
    put_bytes(&mut b, 0x6E0, b"k.dll\0");
    put(&mut b, 0x6F0, 0x8000_0000_0000_0007, 8);
    put(&mut b, 0x70c, 0x2150, 4);
    put(&mut b, 0x710, 1, 4);
    put(&mut b, 0x714, 1, 4);
    put(&mut b, 0x718, 1, 4);
    put(&mut b, 0x71c, 0x2130, 4);
    put(&mut b, 0x720, 0x2134, 4);
    put(&mut b, 0x724, 0x2138, 4);
    put(&mut b, 0x730, 0x1004, 4);
    put(&mut b, 0x734, 0x2158, 4);
    put_bytes(&mut b, 0x750, b"m.dll\0");
    put_bytes(&mut b, 0x758, b"go\0");
    b
}

#[test]
fn pe_file_is_loaded() {
    let file = pe_file();
    let b = LoadedBinary::load(&file).ok().unwrap();
    assert_eq!(b.arch, Arch::X86_64);
    assert_eq!(b.entry_points, vec![Va::new(0x1_4000_1000)]);
    assert_eq!(
        layout(&b),
        vec![
            (0x1_4000_1000, 0x200, ".text".to_string()),
            (0x1_4000_2000, 0x400, ".rdata".to_string()),
            (0x1_4000_3200, 0x200, ".data[bss]".to_string()),
            (0x1_4000_3000, 0x200, ".data".to_string()),
        ]
    );
    assert!(b.segments[0].executable && b.segments[0].readable && !b.segments[0].writable);
    assert!(b.segments[3].writable && b.segments[3].byte_scannable);
    assert!(!b.segments[2].byte_scannable);
    assert_eq!(names(&b), vec![("go".to_string(), 0x1_4000_1004)]);
    assert_eq!(slots(&b), vec![0x1_4000_20F0]);
    assert_eq!(
        b.reloc_pointers,
        vec![
            pointer(0x1_4000_3008, 0x1_4000_1010),
            pointer(0x1_4000_2000, 0x1_4000_0000),
            pointer(0x1_4000_2000, 0x1_4000_1000),
            pointer(0x1_4000_2000, 0x1_4000_1010),
            pointer(0x1_4000_2000, 0x1_4000_2020),
            pointer(0x1_4000_2028, 0x1_4000_1020),
        ]
    );
}

/// An x86-64 COFF object with code, zeros, and short and long symbol names.
fn coff_file() -> Vec<u8> {
    let mut b = vec![0u8; 0x100];
    put(&mut b, 0, 0x8664, 2);
    put(&mut b, 2, 2, 2);
    put(&mut b, 8, 0xA0, 4);
    put(&mut b, 12, 3, 4);
    put_bytes(&mut b, 20, b".text");
    put(&mut b, 36, 0x10, 4);
    put(&mut b, 40, 0x80, 4);
    put(&mut b, 56, 0x6000_0020, 4);
    put_bytes(&mut b, 60, b".bss");
    put(&mut b, 76, 0x20, 4);
    put(&mut b, 96, 0xC000_0080, 4);
    put_bytes(&mut b, 0xA0, b"main");
    put(&mut b, 0xA8, 4, 4);
    put(&mut b, 0xAC, 1, 2);
    put(&mut b, 0xB0, 2, 1);
    put(&mut b, 0xB6, 4, 4);
    put(&mut b, 0xBA, 8, 4);
    put(&mut b, 0xBE, 2, 2);
    put(&mut b, 0xC2, 3, 1);
    put_bytes(&mut b, 0xC4, b"ext");
    put(&mut b, 0xD4, 2, 1);
    put(&mut b, 0xD6, 21, 4);
    put_bytes(&mut b, 0xDA, b"long_symbol_name\0");
    b
}

#[test]
fn coff_file_is_loaded() {
    let file = coff_file();
    let b = LoadedBinary::load(&file).ok().unwrap();
    assert_eq!(b.arch, Arch::X86_64);
    assert!(b.entry_points.is_empty());
    assert_eq!(
        layout(&b),
        vec![(0, 0x10, ".text".to_string()), (0x10, 0x20, ".bss".to_string())]
    );
    assert!(b.segments[0].executable && !b.segments[0].byte_scannable);
    assert!(b.segments[1].writable && b.segments[1].byte_scannable);
    assert_eq!(
        names(&b),
        vec![("main".to_string(), 4), ("long_symbol_name".to_string(), 0x18)]
    );
    assert!(b.got_slots.is_empty() && b.reloc_pointers.is_empty());
}

/// An offset into the string table that points at its length is no name.
#[test]
fn coff_name_inside_the_length_is_skipped() {
    let mut file = coff_file();
    put(&mut file, 0xB6, 3, 4);
    let b = LoadedBinary::load(&file).ok().unwrap();
    assert_eq!(names(&b), vec![("main".to_string(), 4)]);
}

#[test]
fn unknown_bytes_are_one_segment() {
    let file = [0x90u8; 32];
    let b = LoadedBinary::load(&file).ok().unwrap();
    assert_eq!(b.arch, Arch::Unknown);
    assert_eq!(layout(&b), vec![(0, 32, "raw".to_string())]);
    assert!(b.segments[0].executable && b.segments[0].readable && !b.segments[0].writable);
    assert_eq!(b.entry_points, vec![Va::new(0)]);
}

#[test]
fn errors_say_why() {
    assert_eq!(LoadedBinary::load(&[0u8; 4]).err(), Some(LoadError::Malformed));
    let mut fat = vec![0u8; 0x40];
    put_bytes(&mut fat, 0, &[0xca, 0xfe, 0xba, 0xbe, 0, 0, 0, 1]);
    assert_eq!(LoadedBinary::load(&fat).err(), Some(LoadError::FatMachO));
    let mut archive = b"!<arch>\n".to_vec();
    archive.extend_from_slice(b"a/              0           0     0     644     0         `\n");
    assert_eq!(LoadedBinary::load(&archive).err(), Some(LoadError::UnsupportedFormat));
    let mut cut = elf_file();
    cut.truncate(0x50);
    assert_eq!(LoadedBinary::load(&cut).err(), Some(LoadError::Malformed));
    assert_eq!(LoadError::UnsupportedFormat.message(), "unsupported binary format");
    assert!(LoadError::FatMachO.message().contains("lipo"));
}

/// Section headers that run past the end of the file cannot be read.
#[test]
fn bad_macho_sections_are_an_error() {
    let mut file = macho_file();
    put(&mut file, 32 + 64, 200, 4);
    assert_eq!(LoadedBinary::load(&file).err(), Some(LoadError::BadSections));
}

/// Writes the low `n` bytes of a number, big-endian.
fn put_be(buf: &mut [u8], off: usize, val: u64, n: usize) {
    buf[off..off + n].copy_from_slice(&val.to_be_bytes()[8 - n..]);
}

/// A text segment that lies further back in the file than in memory puts the entry
/// point below zero.
#[test]
fn macho_entry_below_zero_is_malformed() {
    let mut file = macho_file();
    put(&mut file, 32 + 24, 0, 8);
    put(&mut file, 32 + 40, 0x10, 8);
    assert!(!check_mach_entry(&file));
    assert_eq!(LoadedBinary::load(&file).err(), Some(LoadError::Malformed));
}

#[test]
fn macho_entry_past_the_end_is_malformed() {
    let mut file = macho_file();
    // The entry offset of the fourth command.
    let at = 32 + 152 + 232 + 24 + 8;
    put(&mut file, at, u64::MAX - 0x1_0000_0000, 8);
    assert!(check_mach_entry(&file));
    let b = LoadedBinary::load(&file).ok().unwrap();
    assert_eq!(b.entry_points, vec![Va::new(u64::MAX)]);
    put(&mut file, at, u64::MAX - 0xffff_ffff, 8);
    assert!(!check_mach_entry(&file));
    assert_eq!(LoadedBinary::load(&file).err(), Some(LoadError::Malformed));
}

/// Without an entry point the place of the text segment does not matter, and only
/// the first text segment does.
#[test]
fn macho_entry_is_of_the_first_commands() {
    let mut file = macho_file();
    put(&mut file, 32 + 152 + 232 + 24, 0x2a, 4);
    put(&mut file, 32 + 40, 0x2_0000_0000, 8);
    assert!(check_mach_entry(&file));
    let mut file = macho_file();
    put_bytes(&mut file, 32 + 152 + 8, b"__TEXT\0");
    put(&mut file, 32 + 152 + 40, 0x2_0000_0000, 8);
    assert!(check_mach_entry(&file));
    put_bytes(&mut file, 32 + 8, b"__NONE\0");
    assert!(!check_mach_entry(&file));
}

/// A 32-bit big-endian image: text at an address below its place in the file.
#[test]
fn macho_entry_of_narrow_images() {
    let mut file = vec![0u8; 0x100];
    put_be(&mut file, 0, 0xfeed_face, 4);
    put_be(&mut file, 4, 18, 4);
    put_be(&mut file, 12, 2, 4);
    put_be(&mut file, 16, 2, 4);
    put_be(&mut file, 20, 80, 4);
    put_be(&mut file, 28, 1, 4);
    put_be(&mut file, 32, 56, 4);
    put_bytes(&mut file, 36, b"__TEXT");
    put_be(&mut file, 28 + 24, 0x1000, 4);
    put_be(&mut file, 28 + 32, 0x20, 4);
    put_be(&mut file, 84, 0x8000_0028, 4);
    put_be(&mut file, 88, 24, 4);
    put_be(&mut file, 92, 0x40, 8);
    assert!(check_mach_entry(&file));
    let b = LoadedBinary::load(&file).ok().unwrap();
    assert_eq!(b.entry_points, vec![Va::new(0x1020)]);
    put_be(&mut file, 28 + 32, 0x2000, 4);
    assert!(!check_mach_entry(&file));
    assert_eq!(LoadedBinary::load(&file).err(), Some(LoadError::Malformed));
    // The file ends inside the second command.
    file.truncate(100);
    assert!(check_mach_entry(&file));
    assert_eq!(LoadedBinary::load(&file).err(), Some(LoadError::Malformed));
}
