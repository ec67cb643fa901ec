use xr::loader::dyld::{is_dyld_cache, parse_dyld_cache, DyldMapping};
use xr::loader::{Arch, DecodeMode, LoadError, LoadedBinary, SegData, Segment};
use xr::report::{
    build_record, extract_rust_string, is_limit_reached, select_batch, RecordOptions,
};
use xr::va::Va;
use xr::xref::{Confidence, Xref, XrefKind};
use xr::StringBlobIndex;

fn segment(va: u64, data: &[u8], executable: bool) -> Segment<'_> {
    Segment {
        va: Va::new(va),
        data: SegData::new(data),
        executable,
        readable: true,
        writable: false,
        byte_scannable: true,
        mode: DecodeMode::Default,
        switches: vec![],
        name: "s".to_string(),
    }
}

fn xref(from: u64, to: u64, kind: XrefKind) -> Xref {
    Xref { from: Va::new(from), to: Va::new(to), kind, confidence: Confidence::ByteScan }
}

const TEXT: &str = "a string literal and another one";

/// A pointer to the text, its length, a length that is too great, and the text.
fn literals() -> Vec<u8> {
    let mut data = Vec::new();
    data.extend_from_slice(&0x1020u64.to_le_bytes());
    data.extend_from_slice(&16u64.to_le_bytes());
    data.extend_from_slice(&0x1020u64.to_le_bytes());
    data.extend_from_slice(&1_000_001u64.to_le_bytes());
    data.extend_from_slice(TEXT.as_bytes());
    data
}

#[test]
fn literals_are_pointer_and_length() {
    let data = literals();
    let b = LoadedBinary::from_segments(Arch::X86_64, vec![segment(0x1000, &data, false)]);
    let blobs = StringBlobIndex::build(&b, 16);
    assert_eq!(blobs.len(), 1);
    assert_eq!(blobs.total_bytes(), TEXT.len());
    let at = |from: u64, to: u64| extract_rust_string(&b, &blobs, Va::new(from), Va::new(to));
    assert_eq!(at(0x1000, 0x1020), Some("a string literal".to_string()));
    assert_eq!(at(0x1000, 0x1022), Some("string literal a".to_string()));
    assert_eq!(at(0x1010, 0x1020), None);
    assert_eq!(at(0x1000, 0x2000), None);
}

#[test]
fn records_hold_cut_literals_of_pointers_only() {
    let data = literals();
    let b = LoadedBinary::from_segments(Arch::X86_64, vec![segment(0x1000, &data, false)]);
    let blobs = StringBlobIndex::build(&b, 16);
    let options = RecordOptions { before: 0, after: 0, string_width: 9 };
    let pointer = xref(0x1000, 0x1020, XrefKind::DataPointer);
    let r = build_record(&b, Some(&blobs), &pointer, &options, &vec![]);
    assert_eq!(r.rust_string.as_deref(), Some("a s...ral"));
    assert!(r.context.is_none());
    let read = xref(0x1000, 0x1020, XrefKind::DataRead);
    assert!(build_record(&b, Some(&blobs), &read, &options, &vec![]).rust_string.is_none());
    assert!(build_record(&b, None, &pointer, &options, &vec![]).rust_string.is_none());
}

#[test]
fn records_show_data_where_there_is_no_code() {
    let data = literals();
    let b = LoadedBinary::from_segments(Arch::X86_64, vec![segment(0x1000, &data, false)]);
    let options = RecordOptions { before: 1, after: 1, string_width: 0 };
    let r = build_record(&b, None, &xref(0x1000, 0, XrefKind::DataRead), &options, &vec![]);
    let lines = r.context.unwrap();
    assert_eq!(lines.len(), 1);
    assert_eq!(lines[0].hex, "20 10 00 00 00 00 00 00");
    assert_eq!(lines[0].text, "(data)");
    // Four bytes are left at the end.
    let last = xref(0x1000 + data.len() as u64 - 4, 0, XrefKind::DataRead);
    let r = build_record(&b, None, &last, &options, &vec![]);
    assert_eq!(r.context.unwrap()[0].hex, "20 6f 6e 65");
    let nowhere = xref(0x9000, 0, XrefKind::DataRead);
    assert!(build_record(&b, None, &nowhere, &options, &vec![]).context.unwrap().is_empty());
}

#[test]
fn records_show_code_around() {
    // push rbp ; nop ; ret
    let code = [0x55u8, 0x90, 0xc3];
    let b = LoadedBinary::from_segments(Arch::X86_64, vec![segment(0x1000, &code, true)]);
    let options = RecordOptions { before: 1, after: 1, string_width: 0 };
    let r = build_record(&b, None, &xref(0x1001, 0, XrefKind::Call), &options, &vec![]);
    let lines = r.context.unwrap();
    let shown: Vec<(u64, &str, bool)> =
        lines.iter().map(|l| (l.va.raw(), l.hex.as_str(), l.focus)).collect();
    assert_eq!(shown, vec![(0x1000, "55", false), (0x1001, "90", true), (0x1002, "c3", false)]);
    assert_eq!(lines[1].text, "nop");
}

#[test]
fn batches_are_cut_at_the_limit() {
    let batch = vec![
        xref(1, 1, XrefKind::Call),
        xref(2, 2, XrefKind::IndirectCall),
        xref(3, 3, XrefKind::Jump),
        xref(4, 4, XrefKind::Call),
    ];
    let froms = |v: Vec<Xref>| -> Vec<u64> { v.iter().map(|x| x.from.raw()).collect() };
    assert_eq!(froms(select_batch(&batch, None, 0, 100)), vec![1, 2, 3, 4]);
    assert_eq!(froms(select_batch(&batch, None, 5, 2)), vec![1, 2, 3]);
    assert_eq!(froms(select_batch(&batch, Some(XrefKind::Call), 0, 0)), vec![1, 2, 4]);
    assert_eq!(froms(select_batch(&batch, Some(XrefKind::Call), 2, 0)), vec![1, 2]);
    assert!(select_batch(&batch, None, 3, 3).is_empty());
    assert!(!is_limit_reached(0, 7));
    assert!(is_limit_reached(7, 7));
    assert!(!is_limit_reached(7, 6));
}

#[test]
fn caches_are_told_by_their_magic() {
    assert!(is_dyld_cache(b"dyld_v1  arm64e\0"));
    assert!(is_dyld_cache(b"dyld_v1 "));
    assert!(!is_dyld_cache(b"dyld_v1"));
    assert!(!is_dyld_cache(b"dyld_v2 arm64e"));
}

#[test]
fn cache_mappings_are_segments() {
    let bytes = [1u8, 2, 3, 4];
    let mapping = |address: u64, executable: bool, data: Option<&'static [u8]>| DyldMapping {
        address,
        size: 4,
        executable,
        readable: true,
        writable: !executable,
        data,
    };
    let kept: &'static [u8] = &[1, 2, 3, 4];
    let mut empty = mapping(0x9000, false, Some(kept));
    empty.size = 0;
    let mappings = vec![
        mapping(0x1_8000_0000, true, Some(kept)),
        mapping(0x1_9000_0000, false, None),
        empty,
        mapping(0x1_a000_0000, false, Some(kept)),
    ];
    let b = parse_dyld_cache("arm64e", &mappings).ok().unwrap();
    assert_eq!(b.arch, Arch::Arm64);
    assert_eq!(b.segments.len(), 2);
    assert_eq!(b.segments[0].name, "DSC[0x180000000]");
    assert!(b.segments[0].executable && !b.segments[0].byte_scannable);
    assert_eq!(b.segments[1].va, Va::new(0x1_a000_0000));
    assert!(b.segments[1].writable && b.segments[1].byte_scannable);
    assert_eq!(b.segments[1].data(), &bytes);
    assert_eq!(parse_dyld_cache("x86_64h", &mappings).ok().unwrap().arch, Arch::X86_64);
    assert_eq!(parse_dyld_cache("i386", &mappings).ok().unwrap().arch, Arch::X86);
    assert_eq!(parse_dyld_cache("armv7", &mappings).ok().unwrap().arch, Arch::Unknown);
    assert_eq!(parse_dyld_cache("arm64", &vec![]).err(), Some(LoadError::NoMappings));
    assert_eq!(
        LoadError::NoMappings.message(),
        "dyld shared cache: no usable mappings found"
    );
}
