use xr::arch::arm32::{scan_arm32, scan_thumb};
use xr::arch::{ScanRegion, SegmentIndex};
use xr::loader::{Arch, DecodeMode, LoadedBinary, SegData, Segment};
use xr::va::Va;
use xr::xref::XrefKind;

fn make_exec_seg(va: u64, data: &[u8]) -> Segment<'_> {
    Segment {
        va: Va::new(va),
        data: SegData::new(data),
        executable: true,
        readable: true,
        writable: false,
        byte_scannable: false,
        mode: DecodeMode::Default,
        switches: vec![],
        name: ".text".to_string(),
    }
}

fn halfwords(halfwords: &[u16]) -> Vec<u8> {
    halfwords.iter().flat_map(|hw| hw.to_le_bytes()).collect()
}

fn seg_thumb(va: u64, data: &[u8]) -> Segment<'_> {
    Segment { mode: DecodeMode::Thumb, ..make_exec_seg(va, data) }
}

#[test]
fn arm32_bl_forward() {
    // BL +8 at pc=0x1000: target = 0x1000 + 8 + 8 = 0x1010
    // imm24 = 1 (offset = 4), so BL #4 at 0x1000 -> target 0x100C
    // Let's do BL #8 at 0x1000 -> imm24 = 2 -> target = 0x1000+8+8 = 0x1010
    let imm24: u32 = 2; // offset = 8
    let word = 0xEB00_0000u32 | imm24; // cond=0xE (always), L=1
    let code = word.to_le_bytes().to_vec();
    let bytes = [code, vec![0u8; 0x20]].concat();
    let seg = make_exec_seg(0x1000, &bytes);
    let binary = LoadedBinary::from_segments(Arch::Arm32, vec![seg]);
    let seg_idx = SegmentIndex::build(&binary.segments);
    let region = ScanRegion::new(&binary.segments[0], Va::new(0x1000), Va::new(0x1020));
    let xrefs = scan_arm32(&region, &seg_idx);
    assert_eq!(xrefs.len(), 1);
    assert_eq!(xrefs[0].from, Va::new(0x1000));
    assert_eq!(xrefs[0].to, Va::new(0x1010));
    assert_eq!(xrefs[0].kind, XrefKind::Call);
}

#[test]
fn arm32_b_backward() {
    // B -8 at pc=0x1010: target = 0x1010 + 8 + (-8) = 0x1010
    // imm24 = -3 = 0xFFFFFF + (-3 + 1) = sign-extended
    // offset = -8 means imm24*4 = -8 => imm24 = -2 = 0xFFFFFE
    let imm24: u32 = 0xFFFFFEu32; // -2 sign-extended 24-bit
    let word = 0xEA00_0000u32 | imm24; // B always
    let mut code = vec![0u8; 0x10]; // padding
    code.extend_from_slice(&word.to_le_bytes()); // at offset 0x10 = VA 0x1010
    code.extend_from_slice(&[0u8; 4]);
    let seg = make_exec_seg(0x1000, &code);
    let binary = LoadedBinary::from_segments(Arch::Arm32, vec![seg]);
    let seg_idx = SegmentIndex::build(&binary.segments);
    let region = ScanRegion::new(&binary.segments[0], Va::new(0x1000), Va::new(0x1018));
    let xrefs = scan_arm32(&region, &seg_idx);
    assert_eq!(xrefs.len(), 1);
    assert_eq!(xrefs[0].from, Va::new(0x1010));
    assert_eq!(xrefs[0].to, Va::new(0x1010)); // 0x1010 + 8 + (-2*4) = 0x1010
    assert_eq!(xrefs[0].kind, XrefKind::Jump);
}

#[test]
fn arm32_ldr_literal() {
    // LDR r0, [PC, #4] at 0x1000 -> target = 0x1000 + 8 + 4 = 0x100C
    // Encoding: cond=0xE, 0101_U001_1111_Rt_imm12 with U=1, Rt=0, imm12=4
    let word = 0xE59F_0004u32; // LDR r0, [PC, #+4]
    let mut code = word.to_le_bytes().to_vec();
    code.extend_from_slice(&[0u8; 0x10]);
    let seg = make_exec_seg(0x1000, &code);
    let binary = LoadedBinary::from_segments(Arch::Arm32, vec![seg]);
    let seg_idx = SegmentIndex::build(&binary.segments);
    let region = ScanRegion::new(&binary.segments[0], Va::new(0x1000), Va::new(0x1014));
    let xrefs = scan_arm32(&region, &seg_idx);
    assert_eq!(xrefs.len(), 1);
    assert_eq!(xrefs[0].from, Va::new(0x1000));
    assert_eq!(xrefs[0].to, Va::new(0x100C));
    assert_eq!(xrefs[0].kind, XrefKind::DataRead);
}

#[test]
fn thumb_b_t2_unconditional() {
    // B.N (T2) 16-bit at 0x1000: imm11 = 2, offset = +4, target = 0x1000+4+4 = 0x1008
    let hw = 0xE000u16 | 2; // B #4
    let bytes = halfwords(&[hw, 0, 0, 0, 0, 0, 0, 0]);
    let seg = seg_thumb(0x1000, &bytes);
    let binary = LoadedBinary::from_segments(Arch::Arm32, vec![seg]);
    let seg_idx = SegmentIndex::build(&binary.segments);
    let region = ScanRegion::new(&binary.segments[0], Va::new(0x1000), Va::new(0x1010));
    let xrefs = scan_thumb(&region, &seg_idx);
    assert_eq!(xrefs.len(), 1);
    assert_eq!(xrefs[0].from, Va::new(0x1000));
    assert_eq!(xrefs[0].to, Va::new(0x1008));
    assert_eq!(xrefs[0].kind, XrefKind::Jump);
}

#[test]
fn thumb_b_t1_conditional() {
    // B.EQ (cond=0) at 0x1000: imm8=4, offset=+8, target=0x1000+4+8=0x100C
    let hw = 0xD000u16 | 4; // BEQ #8
    let bytes = halfwords(&[hw, 0, 0, 0, 0, 0, 0, 0]);
    let seg = seg_thumb(0x1000, &bytes);
    let binary = LoadedBinary::from_segments(Arch::Arm32, vec![seg]);
    let seg_idx = SegmentIndex::build(&binary.segments);
    let region = ScanRegion::new(&binary.segments[0], Va::new(0x1000), Va::new(0x1010));
    let xrefs = scan_thumb(&region, &seg_idx);
    assert_eq!(xrefs.len(), 1);
    assert_eq!(xrefs[0].from, Va::new(0x1000));
    assert_eq!(xrefs[0].to, Va::new(0x100C));
    assert_eq!(xrefs[0].kind, XrefKind::Jump);
}

#[test]
fn thumb_bl_t1() {
    // BL forward: encode BL to target 0x1010 from pc 0x1000.
    // offset = 0x1010 - (0x1000 + 4) = 12 = 0xC
    // raw25 = S:I1:I2:imm10:imm11:0 = 0:0:0:0:6:0 => value 12
    //   => S=0, I1=0, I2=0, imm10=0, imm11=6
    // J1 = NOT(I1 EOR S) = NOT(0 EOR 0) = 1
    // J2 = NOT(I2 EOR S) = NOT(0 EOR 0) = 1
    // hw1 = 0xF000 | (S<<10) | imm10 = 0xF000
    // hw2 bits: 11 J1 1 J2 imm11
    //         = 11  1  1  1  00000000110 = 1111_1000_0000_0110 = 0xF806
    let hw1 = 0xF000u16;
    let hw2 = 0xF806u16; // J1=1, bit12=1, J2=1, imm11=6
    let bytes = halfwords(&[hw1, hw2, 0, 0, 0, 0, 0, 0, 0, 0]);
    let seg = seg_thumb(0x1000, &bytes);
    let binary = LoadedBinary::from_segments(Arch::Arm32, vec![seg]);
    let seg_idx = SegmentIndex::build(&binary.segments);
    let region = ScanRegion::new(&binary.segments[0], Va::new(0x1000), Va::new(0x1014));
    let xrefs = scan_thumb(&region, &seg_idx);
    assert!(!xrefs.is_empty(), "expected at least one BL xref");
    let bl = xrefs.iter().find(|x| x.kind == XrefKind::Call).unwrap();
    assert_eq!(bl.from, Va::new(0x1000));
    assert_eq!(bl.to, Va::new(0x1010));
}

#[test]
fn thumb_ldr_t1_literal() {
    // LDR T1 at 0x1000: `01001 Rt imm8` where Rt=0, imm8=1
    // target = Align(0x1000+4, 4) + 1*4 = 0x1004 + 4 = 0x1008
    let hw = 0x4801u16; // LDR r0, [PC, #4]
    let bytes = halfwords(&[hw, 0, 0, 0, 0, 0, 0, 0]);
    let seg = seg_thumb(0x1000, &bytes);
    let binary = LoadedBinary::from_segments(Arch::Arm32, vec![seg]);
    let seg_idx = SegmentIndex::build(&binary.segments);
    let region = ScanRegion::new(&binary.segments[0], Va::new(0x1000), Va::new(0x1010));
    let xrefs = scan_thumb(&region, &seg_idx);
    assert_eq!(xrefs.len(), 1);
    assert_eq!(xrefs[0].from, Va::new(0x1000));
    assert_eq!(xrefs[0].to, Va::new(0x1008));
    assert_eq!(xrefs[0].kind, XrefKind::DataRead);
}
