use rustc_hash::FxHashSet;
use xr::arch::x86_64::{scan_linear, scan_with_prop};
use xr::arch::{ScanRegion, SegmentDataIndex, SegmentIndex};
use xr::loader::{DecodeMode, SegData, Segment};
use xr::va::Va;
use xr::xref::{Confidence, Xref, XrefKind};

/// A code segment of the given bytes.
fn fake_seg(base_va: u64, data: &[u8]) -> Segment<'_> {
    Segment {
        va: Va::new(base_va),
        data: SegData::new(data),
        executable: true,
        readable: true,
        writable: false,
        byte_scannable: true,
        mode: DecodeMode::Default,
        switches: vec![],
        name: "test".to_string(),
    }
}

/// A data segment of the given bytes.
fn fake_data_seg(base_va: u64, data: &[u8]) -> Segment<'_> {
    Segment {
        va: Va::new(base_va),
        data: SegData::new(data),
        executable: false,
        readable: true,
        writable: false,
        byte_scannable: false,
        mode: DecodeMode::Default,
        switches: vec![],
        name: "rodata".to_string(),
    }
}

fn region_for<'a>(seg: &'a Segment<'_>) -> ScanRegion<'a> {
    ScanRegion::new(seg, seg.va, seg.va + seg.data.len() as u64)
}

#[test]
fn test_call_rel32() {
    let code_bytes: [u8; 5] = [0xe8, 0xfb, 0x0f, 0x00, 0x00];
    let target_bytes: [u8; 4] = [0x00; 4];
    let code = fake_seg(0x1000, &code_bytes);
    let tgt = fake_seg(0x2000, &target_bytes);
    let segs = vec![fake_seg(0x1000, &code_bytes), tgt];

    let idx = SegmentIndex::build(&segs);
    let data_idx = SegmentDataIndex::build(&segs);
    let xrefs = scan_linear(&region_for(&code), &idx, &FxHashSet::default(), &data_idx);
    assert_eq!(xrefs.len(), 1);
    assert_eq!(xrefs[0].from, Va::new(0x1000));
    assert_eq!(xrefs[0].to, Va::new(0x2000));
    assert_eq!(xrefs[0].kind, XrefKind::Call);
    assert_eq!(xrefs[0].confidence, Confidence::LinearImmediate);
}

#[test]
fn test_jmp_rel32() {
    let code_bytes: [u8; 10] = [
        0x90, 0x90, 0x90, 0x90, 0x90, // 5 NOPs at 0x1000..0x1005
        0xe9, 0xf6, 0x0f, 0x00, 0x00, // JMP 0x2000 at 0x1005
    ];
    let target_bytes: [u8; 4] = [0x00; 4];
    let code = fake_seg(0x1000, &code_bytes);
    let tgt = fake_seg(0x2000, &target_bytes);
    let segs = vec![fake_seg(0x1000, &code_bytes), tgt];

    let idx = SegmentIndex::build(&segs);
    let data_idx = SegmentDataIndex::build(&segs);
    let xrefs = scan_linear(&region_for(&code), &idx, &FxHashSet::default(), &data_idx);
    let jmp = xrefs.iter().find(|x| x.kind == XrefKind::Jump).unwrap();
    assert_eq!(jmp.from, Va::new(0x1005));
    assert_eq!(jmp.to, Va::new(0x2000));
}

#[test]
fn test_je_cond_jump() {
    let code_bytes: [u8; 16] = [
        0x90, 0x90, 0x90, 0x90, 0x90, // 5 NOPs 0x1000..0x1005
        0x90, 0x90, 0x90, 0x90, 0x90, // 5 NOPs 0x1005..0x100a
        0x0f, 0x84, 0xf0, 0x0f, 0x00, 0x00, // JE 0x2000 at 0x100a
    ];
    let target_bytes: [u8; 4] = [0x00; 4];
    let code = fake_seg(0x1000, &code_bytes);
    let tgt = fake_seg(0x2000, &target_bytes);
    let segs = vec![fake_seg(0x1000, &code_bytes), tgt];

    let idx = SegmentIndex::build(&segs);
    let data_idx = SegmentDataIndex::build(&segs);
    let xrefs = scan_linear(&region_for(&code), &idx, &FxHashSet::default(), &data_idx);
    let je = xrefs.iter().find(|x| x.kind == XrefKind::CondJump).unwrap();
    assert_eq!(je.from, Va::new(0x100a));
    assert_eq!(je.to, Va::new(0x2000));
}

#[test]
fn test_lea_rip_relative() {
    let code_bytes: [u8; 7] = [0x48, 0x8d, 0x05, 0xf9, 0x1f, 0x00, 0x00];
    let target_bytes: [u8; 8] = [0x00; 8];
    let code = fake_seg(0x1000, &code_bytes);
    let tgt = fake_seg(0x3000, &target_bytes);
    let segs = vec![fake_seg(0x1000, &code_bytes), tgt];

    let idx = SegmentIndex::build(&segs);
    let data_idx = SegmentDataIndex::build(&segs);
    let xrefs = scan_linear(&region_for(&code), &idx, &FxHashSet::default(), &data_idx);
    // LEA = takes address → DataPointer (IDA dr_O), not DataRead
    let lea = xrefs
        .iter()
        .find(|x| x.kind == XrefKind::DataPointer)
        .unwrap();
    assert_eq!(lea.from, Va::new(0x1000));
    assert_eq!(lea.to, Va::new(0x3000));
    assert_eq!(lea.confidence, Confidence::LinearImmediate);
}

#[test]
fn test_mov_call_reg_prop() {
    let code_bytes: [u8; 12] = [
        0x48, 0xb8, 0x00, 0x40, 0x00, 0x00, 0x00, 0x00, 0x00, 0x00, // MOV rax, 0x4000
        0xff, 0xd0, // CALL rax
    ];
    let target_bytes: [u8; 4] = [0x00; 4];
    let code = fake_seg(0x1000, &code_bytes);
    let tgt = fake_seg(0x4000, &target_bytes);
    let segs = vec![fake_seg(0x1000, &code_bytes), tgt];

    let idx = SegmentIndex::build(&segs);
    let data_idx = SegmentDataIndex::build(&segs);
    let xrefs = scan_with_prop(&region_for(&code), &idx, &FxHashSet::default(), &data_idx);
    let prop = xrefs
        .iter()
        .find(|x| x.confidence == Confidence::LocalProp)
        .expect("expected a LocalProp xref");
    assert_eq!(prop.from, Va::new(0x100a));
    assert_eq!(prop.to, Va::new(0x4000));
    assert_eq!(prop.kind, XrefKind::Call);
}

#[test]
fn test_call_out_of_range_filtered() {
    let code_bytes: [u8; 5] = [0xe8, 0xfb, 0x0f, 0x00, 0x00]; // CALL 0x2000
                                                           // No segment at 0x2000
    let code = fake_seg(0x1000, &code_bytes);
    let segs = vec![fake_seg(0x1000, &code_bytes)];
    let idx = SegmentIndex::build(&segs);
    let data_idx = SegmentDataIndex::build(&segs);
    let xrefs = scan_linear(&region_for(&code), &idx, &FxHashSet::default(), &data_idx);
    assert!(xrefs.is_empty());
}

#[test]
fn test_jump_table_basic() {
    // Code at 0x1000:
    //   0x1000: 83 FA 01                 cmp edx, 1          (bound = 2 entries)
    //   0x1003: 77 11                    ja  0x1016          (skip if > 1)
    //   0x1005: 48 8D 0D F4 1F 00 00    lea rcx, [rip+0x1FF4]  → 0x3000
    //   0x100C: 48 63 04 91              movsxd rax, [rcx+rdx*4]
    //   0x1010: 48 01 C8                 add rax, rcx
    //   0x1013: FF E0                    jmp rax
    //   0x1015: CC                       int3 (padding)
    //   0x1016: CC                       int3 (JA target)
    let code_bytes: [u8; 23] = [
        0x83, 0xFA, 0x01,                           // cmp edx, 1
        0x77, 0x11,                                 // ja +0x11 (→ 0x1016)
        0x48, 0x8D, 0x0D, 0xF4, 0x1F, 0x00, 0x00, // lea rcx, [rip+0x1FF4]
        0x48, 0x63, 0x04, 0x91,                     // movsxd rax, [rcx+rdx*4]
        0x48, 0x01, 0xC8,                           // add rax, rcx
        0xFF, 0xE0,                                 // jmp rax
        0xCC,                                       // int3
        0xCC,                                       // int3 (JA target)
    ];
    // Table at 0x3000: two i32 offsets → targets at 0x2000, 0x2004
    //   entry 0: 0x2000 - 0x3000 = -0x1000 = 0xFFFFF000
    //   entry 1: 0x2004 - 0x3000 = -0x0FFC = 0xFFFFF004
    let table_bytes: [u8; 8] = [
        0x00, 0xF0, 0xFF, 0xFF, // -0x1000
        0x04, 0xF0, 0xFF, 0xFF, // -0x0FFC
    ];
    // Target code segment at 0x2000 (executable)
    let targets_bytes: [u8; 8] = [0xCC; 8]; // INT3 placeholders

    let code_seg = fake_seg(0x1000, &code_bytes);
    let segs = vec![
        fake_seg(0x1000, &code_bytes),
        fake_seg(0x2000, &targets_bytes),
        fake_data_seg(0x3000, &table_bytes),
    ];

    let idx = SegmentIndex::build(&segs);
    let data_idx = SegmentDataIndex::build(&segs);
    let xrefs = scan_with_prop(&region_for(&code_seg), &idx, &FxHashSet::default(), &data_idx);

    // Should have Jump xrefs from 0x1013 to 0x2000 and 0x2004
    let jumps: Vec<&Xref> = xrefs
        .iter()
        .filter(|x| x.kind == XrefKind::Jump && x.confidence == Confidence::LocalProp)
        .collect();
    assert_eq!(jumps.len(), 2, "expected 2 jump table targets, got {}", jumps.len());
    assert!(jumps.iter().any(|x| x.from == Va::new(0x1013) && x.to == Va::new(0x2000)));
    assert!(jumps.iter().any(|x| x.from == Va::new(0x1013) && x.to == Va::new(0x2004)));
}

#[test]
fn test_jump_table_forward_offsets() {
    // Table at 0x3000, targets at 0x4000 and 0x4100 (forward from table)
    //   entry 0: 0x4000 - 0x3000 = +0x1000
    //   entry 1: 0x4100 - 0x3000 = +0x1100
    let code_bytes: [u8; 23] = [
        0x83, 0xFA, 0x01,                           // cmp edx, 1
        0x77, 0x11,                                 // ja +0x11
        0x48, 0x8D, 0x0D, 0xF4, 0x1F, 0x00, 0x00, // lea rcx, [rip+0x1FF4] → 0x3000
        0x48, 0x63, 0x04, 0x91,                     // movsxd rax, [rcx+rdx*4]
        0x48, 0x01, 0xC8,                           // add rax, rcx
        0xFF, 0xE0,                                 // jmp rax
        0xCC,                                       // int3
        0xCC,                                       // int3
    ];
    let table_bytes: [u8; 8] = [
        0x00, 0x10, 0x00, 0x00, // +0x1000
        0x00, 0x11, 0x00, 0x00, // +0x1100
    ];
    let targets_bytes: [u8; 0x200] = [0xCC; 0x200];

    let code_seg = fake_seg(0x1000, &code_bytes);
    let segs = vec![
        fake_seg(0x1000, &code_bytes),
        fake_data_seg(0x3000, &table_bytes),
        fake_seg(0x4000, &targets_bytes),
    ];

    let idx = SegmentIndex::build(&segs);
    let data_idx = SegmentDataIndex::build(&segs);
    let xrefs = scan_with_prop(&region_for(&code_seg), &idx, &FxHashSet::default(), &data_idx);

    let jumps: Vec<&Xref> = xrefs
        .iter()
        .filter(|x| x.kind == XrefKind::Jump && x.confidence == Confidence::LocalProp)
        .collect();
    assert_eq!(jumps.len(), 2);
    assert!(jumps.iter().any(|x| x.from == Va::new(0x1013) && x.to == Va::new(0x4000)));
    assert!(jumps.iter().any(|x| x.from == Va::new(0x1013) && x.to == Va::new(0x4100)));
}

#[test]
fn test_jump_table_no_valid_targets() {
    let code_bytes: [u8; 16] = [
        0x48, 0x8D, 0x0D, 0xF9, 0x1F, 0x00, 0x00,
        0x48, 0x63, 0x04, 0x91,
        0x48, 0x01, 0xC8,
        0xFF, 0xE0,
    ];
    // Table offsets point to unmapped addresses (no target segment)
    let table_bytes: [u8; 8] = [
        0x00, 0x00, 0x10, 0x00, // +0x100000 → 0x103000 (unmapped)
        0x00, 0x00, 0x20, 0x00, // +0x200000 → 0x203000 (unmapped)
    ];

    let code_seg = fake_seg(0x1000, &code_bytes);
    let segs = vec![
        fake_seg(0x1000, &code_bytes),
        fake_data_seg(0x3000, &table_bytes),
    ];

    let idx = SegmentIndex::build(&segs);
    let data_idx = SegmentDataIndex::build(&segs);
    let xrefs = scan_with_prop(&region_for(&code_seg), &idx, &FxHashSet::default(), &data_idx);

    let jumps: Vec<&Xref> = xrefs
        .iter()
        .filter(|x| x.kind == XrefKind::Jump && x.confidence == Confidence::LocalProp)
        .collect();
    assert!(jumps.is_empty(), "should emit no jump table xrefs for unmapped targets");
}
