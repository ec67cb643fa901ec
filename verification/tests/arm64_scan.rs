use xr::arch::arm64::{scan_adrp, scan_linear};
use xr::arch::{ScanRegion, SegmentDataIndex, SegmentIndex};
use xr::loader::{DecodeMode, SegData, Segment};
use xr::va::Va;
use xr::xref::{Confidence, Xref, XrefKind};

/// A code segment of the given bytes.
fn fake_seg(base_va: u64, data: &[u8]) -> Segment<'_> {
    Segment {
        va: Va::new(base_va),
        data: SegData::new(data),
        executable: true,
        readable: true,
        writable: false,
        byte_scannable: true,
        mode: DecodeMode::Default,
        switches: vec![],
        name: "test".to_string(),
    }
}

/// A data segment of the given bytes.
fn fake_data_seg(base_va: u64, data: &[u8]) -> Segment<'_> {
    Segment {
        va: Va::new(base_va),
        data: SegData::new(data),
        executable: false,
        readable: true,
        writable: false,
        byte_scannable: false,
        mode: DecodeMode::Default,
        switches: vec![],
        name: "rodata".to_string(),
    }
}

fn region_for<'a>(seg: &'a Segment<'_>) -> ScanRegion<'a> {
    ScanRegion::new(seg, seg.va, seg.va + seg.data.len() as u64)
}

#[test]
fn test_bl_call() {
    // Code lives at 0x1000 (4 bytes). Target 0x1010 must be in a segment too.
    // We fake two segments: code at 0x1000 and a target page at 0x1010.
    let code_bytes: [u8; 4] = [0x04, 0x00, 0x00, 0x94]; // BL +16
    let target_bytes: [u8; 4] = [0x00, 0x00, 0x00, 0x00];
    let code_seg = fake_seg(0x1000, &code_bytes);
    let tgt_seg = fake_seg(0x1010, &target_bytes);
    let segs = vec![fake_seg(0x1000, &code_bytes), tgt_seg];

    let region = region_for(&code_seg);
    let idx = SegmentIndex::build(&segs);
    let xrefs = scan_linear(&region, &idx);

    assert_eq!(xrefs.len(), 1);
    assert_eq!(xrefs[0].from, Va::new(0x1000));
    assert_eq!(xrefs[0].to, Va::new(0x1010));
    assert_eq!(xrefs[0].kind, XrefKind::Call);
    assert_eq!(xrefs[0].confidence, Confidence::LinearImmediate);
}

#[test]
fn test_b_jump() {
    let code_bytes: [u8; 4] = [0x02, 0x00, 0x00, 0x14];
    let target_bytes: [u8; 4] = [0x00, 0x00, 0x00, 0x00];
    let code_seg = fake_seg(0x1008, &code_bytes);
    let tgt_seg = fake_seg(0x1010, &target_bytes);
    let segs = vec![fake_seg(0x1008, &code_bytes), tgt_seg];

    let idx = SegmentIndex::build(&segs);
    let xrefs = scan_linear(&region_for(&code_seg), &idx);
    assert_eq!(xrefs.len(), 1);
    assert_eq!(xrefs[0].from, Va::new(0x1008));
    assert_eq!(xrefs[0].to, Va::new(0x1010));
    assert_eq!(xrefs[0].kind, XrefKind::Jump);
}

#[test]
fn test_cbz_cond_jump() {
    let code_bytes: [u8; 8] = [
        0x00, 0x00, 0x00, 0x00, // padding at 0x1004 (NOP-like, just zeroes)
        0xe1, 0xff, 0xff, 0xb4, // CBZ X1, -4  at 0x1008
    ];
    let seg = fake_seg(0x1004, &code_bytes);
    let segs = vec![fake_seg(0x1004, &code_bytes)];

    let idx = SegmentIndex::build(&segs);
    let xrefs = scan_linear(&region_for(&seg), &idx);
    // CBZ at 0x1008 → target 0x1004
    let cbz_xref = xrefs.iter().find(|x| x.from == Va::new(0x1008)).unwrap();
    assert_eq!(cbz_xref.to, Va::new(0x1004));
    assert_eq!(cbz_xref.kind, XrefKind::CondJump);
}

#[test]
fn test_adrp_add_pair() {
    let code_bytes: [u8; 8] = [
        0x00, 0x00, 0x00, 0xb0, // ADRP X0, #1   (page = base+0x1000 = 0x2000)
        0x00, 0x00, 0x04, 0x91, // ADD X0, X0, #0x100
    ];
    let page_bytes: [u8; 0x200] = [0u8; 0x200];
    let code_seg = fake_seg(0x1000, &code_bytes);
    let data_seg = fake_seg(0x2000, &page_bytes);
    let segs = vec![fake_seg(0x1000, &code_bytes), data_seg];

    let idx = SegmentIndex::build(&segs);
    let didx = SegmentDataIndex::build(&segs);
    let xrefs = scan_adrp(&region_for(&code_seg), &idx, &didx);
    let pair = xrefs
        .iter()
        .find(|x| x.confidence == Confidence::PairResolved)
        .expect("expected a PairResolved xref");
    assert_eq!(pair.from, Va::new(0x1000)); // ADRP va (IDA records at ADRP, not ADD)
    assert_eq!(pair.to, Va::new(0x2100)); // 0x2000 + 0x100
    assert_eq!(pair.kind, XrefKind::DataPointer);
}

#[test]
fn test_adrp_ldr_same_register() {
    // ADRP X0, #1  → page = 0x2000 (from pc 0x1000)
    // LDR  X0, [X0, #8]  → addr = 0x2000 + 8 = 0x2008
    //
    // ADRP X0, #1: encoded as 0xB000_0000 (immlo=1 → +1 page, Rd=0)
    // LDR  X0, [X0, #8]: unsigned offset, imm12 = 8/8 = 1
    //   word = 0xF940_0400 | Rn=0<<5 | Rt=0 = 0xF940_0400
    let code_bytes: [u8; 8] = [
        0x00, 0x00, 0x00, 0xb0, // ADRP X0, #1 page
        0x00, 0x04, 0x40, 0xf9, // LDR X0, [X0, #8]
    ];
    // Data segment at 0x2000 so target 0x2008 is valid.
    let data_bytes: [u8; 0x100] = [0u8; 0x100];
    let code_seg = fake_seg(0x1000, &code_bytes);
    let segs = vec![
        fake_seg(0x1000, &code_bytes),
        Segment {
            va: Va::new(0x2000),
            data: SegData::new(&data_bytes),
            executable: false,
            readable: true,
            writable: false,
            byte_scannable: false,
            mode: DecodeMode::Default,
                switches: vec![],
            name: "data".to_string(),
        },
    ];

    let idx = SegmentIndex::build(&segs);
    let didx = SegmentDataIndex::build(&segs);
    let xrefs = scan_adrp(&region_for(&code_seg), &idx, &didx);

    // Must emit data_read at LDR VA (0x1004) → 0x2008
    let dr = xrefs.iter().find(|x| x.kind == XrefKind::DataRead).expect(
        "ADRP+LDR with Rt==Rn must emit data_read (regression: state cleared before read)",
    );
    assert_eq!(dr.from, Va::new(0x1004));
    assert_eq!(dr.to, Va::new(0x2008));

    // Must also emit data_ptr at ADRP VA (0x1000) → 0x2008
    let dp = xrefs
        .iter()
        .find(|x| x.kind == XrefKind::DataPointer && x.from == Va::new(0x1000))
        .expect("ADRP+LDR must emit data_ptr at ADRP VA");
    assert_eq!(dp.to, Va::new(0x2008));
}

#[test]
fn test_bl_out_of_range_filtered() {
    let code_bytes: [u8; 4] = [0x04, 0x00, 0x00, 0x94]; // BL +16 → 0x1010
    let code_seg = fake_seg(0x1000, &code_bytes);
    // No segment covers 0x1010
    let segs = vec![fake_seg(0x1000, &code_bytes)];

    let idx = SegmentIndex::build(&segs);
    let xrefs = scan_linear(&region_for(&code_seg), &idx);
    assert!(
        xrefs.is_empty(),
        "xref to unmapped target should be suppressed"
    );
}

#[test]
fn test_jump_table_byte_entries() {
        let code_bytes: [u8; 48] = [
        0x5F, 0x0C, 0x00, 0x71, // 0x10000: CMP W2, #3
        0x08, 0x01, 0x00, 0x54, // 0x10004: B.HI +32
        0x81, 0x00, 0x00, 0x90, // 0x10008: ADRP X1, +16 pages (→ 0x20000)
        0x21, 0x00, 0x04, 0x91, // 0x1000C: ADD  X1, X1, #0x100
        0x83, 0x00, 0x00, 0x10, // 0x10010: ADR  X3, +0x10 (→ 0x10020)
        0x24, 0x48, 0x62, 0x38, // 0x10014: LDRB W4, [X1, W2, UXTW]
        0x63, 0x08, 0x24, 0x8B, // 0x10018: ADD  X3, X3, X4, UXTB #2
        0x60, 0x00, 0x1F, 0xD6, // 0x1001C: BR   X3
        0x1F, 0x20, 0x03, 0xD5, // 0x10020: NOP (target 0)
        0x1F, 0x20, 0x03, 0xD5, // 0x10024: NOP (target 1)
        0x1F, 0x20, 0x03, 0xD5, // 0x10028: NOP (target 2)
        0x1F, 0x20, 0x03, 0xD5, // 0x1002C: NOP (target 3)
    ];
    // Data segment: 4-byte table at offset 0x100.
    let table_data: [u8; 0x200] = {
        let mut d = [0u8; 0x200];
        d[0x100] = 0; // entry 0: offset = 0 → 0 << 2 = 0
        d[0x101] = 1; // entry 1: offset = 1 → 1 << 2 = 4
        d[0x102] = 2; // entry 2: offset = 2 → 2 << 2 = 8
        d[0x103] = 3; // entry 3: offset = 3 → 3 << 2 = 12
        d
    };

    let code_seg = fake_seg(0x10000, &code_bytes);
    let segs = vec![
        fake_seg(0x10000, &code_bytes),
        fake_data_seg(0x20000, &table_data),
    ];

    let idx = SegmentIndex::build(&segs);
    let didx = SegmentDataIndex::build(&segs);
    let xrefs = scan_adrp(&region_for(&code_seg), &idx, &didx);

    let jt_xrefs: Vec<&Xref> = xrefs
        .iter()
        .filter(|x| x.kind == XrefKind::Jump && x.from == Va::new(0x1001C))
        .collect();
    assert_eq!(
        jt_xrefs.len(),
        4,
        "expected 4 jump table targets, got {jt_xrefs:?}"
    );
    let targets: Vec<Va> = jt_xrefs.iter().map(|x| x.to).collect();
    assert!(targets.contains(&Va::new(0x10020)));
    assert!(targets.contains(&Va::new(0x10024)));
    assert!(targets.contains(&Va::new(0x10028)));
    assert!(targets.contains(&Va::new(0x1002C)));
    // All should have LocalProp confidence.
    assert!(jt_xrefs
        .iter()
        .all(|x| x.confidence == Confidence::LocalProp));
}

#[test]
fn test_jump_table_no_cmp_bound_bails() {
    // Same pattern as above but without the CMP instruction.
    // Replace CMP with NOP; recovery should produce zero jump xrefs.
        let code_bytes: [u8; 48] = [
        0x1F, 0x20, 0x03, 0xD5, // 0x10000: NOP (was CMP)
        0x08, 0x01, 0x00, 0x54, // 0x10004: B.HI +32
        0x81, 0x00, 0x00, 0x90, // 0x10008: ADRP X1, +16 pages
        0x21, 0x00, 0x04, 0x91, // 0x1000C: ADD  X1, X1, #0x100
        0x83, 0x00, 0x00, 0x10, // 0x10010: ADR  X3, +0x10
        0x24, 0x48, 0x62, 0x38, // 0x10014: LDRB W4, [X1, W2, UXTW]
        0x63, 0x08, 0x24, 0x8B, // 0x10018: ADD  X3, X3, X4, UXTB #2
        0x60, 0x00, 0x1F, 0xD6, // 0x1001C: BR   X3
        0x1F, 0x20, 0x03, 0xD5, // 0x10020: NOP
        0x1F, 0x20, 0x03, 0xD5, // 0x10024: NOP
        0x1F, 0x20, 0x03, 0xD5, // 0x10028: NOP
        0x1F, 0x20, 0x03, 0xD5, // 0x1002C: NOP
    ];
    let table_data: [u8; 0x200] = {
        let mut d = [0u8; 0x200];
        d[0x100] = 0;
        d[0x101] = 1;
        d[0x102] = 2;
        d[0x103] = 3;
        d
    };

    let code_seg = fake_seg(0x10000, &code_bytes);
    let segs = vec![
        fake_seg(0x10000, &code_bytes),
        fake_data_seg(0x20000, &table_data),
    ];

    let idx = SegmentIndex::build(&segs);
    let didx = SegmentDataIndex::build(&segs);
    let xrefs = scan_adrp(&region_for(&code_seg), &idx, &didx);

    let jt_xrefs: Vec<&Xref> = xrefs
        .iter()
        .filter(|x| x.kind == XrefKind::Jump && x.from == Va::new(0x1001C))
        .collect();
    assert!(
        jt_xrefs.is_empty(),
        "no jump table xrefs without CMP bound, got {jt_xrefs:?}"
    );
}
