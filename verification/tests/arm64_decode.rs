use xr::arch::arm64_decode::Arm64Insn;

// Spot-check a few known encodings against hand-computed values.
// The exhaustive fuzzer in src/bin/fuzz_arm64.rs checks all 2^32 words.

#[test]
fn bl_forward() {
    // BL +16 from 0x1000: imm26=4 → 0x94000004
    let w = 0x94000004u32;
    let insn = Arm64Insn::decode(w);
    assert!(matches!(insn, Arm64Insn::Bl(_)));
    assert_eq!(insn.imm26_target(0x1000), 0x1010);
}

#[test]
fn bl_backward() {
    // BL -4 from 0x1004: imm26 = 0x3FFFFFF (−1 in signed 26-bit) → 0x97FFFFFF
    let w = 0x97FFFFFFu32;
    let insn = Arm64Insn::decode(w);
    assert!(matches!(insn, Arm64Insn::Bl(_)));
    assert_eq!(insn.imm26_target(0x1004), 0x1000);
}

#[test]
fn b_jump() {
    // B +8 from 0x1008: imm26=2 → 0x14000002
    let w = 0x14000002u32;
    let insn = Arm64Insn::decode(w);
    assert!(matches!(insn, Arm64Insn::B(_)));
    assert_eq!(insn.imm26_target(0x1008), 0x1010);
}

#[test]
fn adrp_page() {
    // ADRP X0, 1 (next page from 0x1000 → page 0x2000)
    // Encoding: 0xB0000000 (immhi=0, immlo=0 → imm21=1? No — let's compute)
    // ADRP X0, #0x1000: imm = +1 page = immlo=0b00, immhi=0b000_0000_0000_0000_0001
    // bits: [31]=1, [30:29]=immlo=00, [28:24]=10000, [23:5]=immhi=1, [4:0]=Rd=0
    // = 1_00_10000_0000000000000000001_00000 = 0x9000_0020? Let me be precise:
    // bit31=1, bits30:29=00, bits28:24=10000, bits23:5=0b000_0000_0000_0000_0001=1<<0, bits4:0=0
    // = 0b1_00_10000_0000000000000000001_00000
    //   31 30 29 28..24   23..5(19bits)       4..0
    // immhi at bits[23:5]: value=1 → bit5 set
    // So word = (1<<31)|(0<<29)|(0b10000<<24)|(1<<5)|(0) = 0x8000_0000 | 0x1000_0000 | 0x20
    // = 0x9000_0020
    let w = 0x9000_0020u32; // ADRP X0, 1 (immhi=1, immlo=0 → imm21=4 → +4 pages? wait)
                            // Actually: imm21 = (immhi<<2)|immlo = (1<<2)|0 = 4? That's +4 pages, not 1.
                            // For +1 page: imm21=1 = immhi:immlo where immlo=bits[30:29], immhi=bits[23:5]
                            // imm21=1 → immhi=0, immlo=1 (bits[30:29]=01)
                            // word = (1<<31)|(0b01<<29)|(0b10000<<24)|(0<<5)|(0) = 0x80000000|0x20000000|0x10000000 = 0xB0000000
    let w2 = 0xB000_0000u32; // ADRP X0, #0x1000 (from pc=0x1000, page_pc=0x1000, +1 page = 0x2000)
    let insn2 = Arm64Insn::decode(w2);
    assert!(matches!(insn2, Arm64Insn::Adrp(_)));
    assert_eq!(insn2.adrp_page(0x1000), 0x2000);
    let _ = w; // suppress unused warning from the exploratory calculation above
}

#[test]
fn adrp_rd() {
    // ADRP X5, 0 — Rd=5, imm21=0
    // word = (1<<31)|(0b10000<<24)|(0<<5)|5 = 0x90000005
    let w = 0x9000_0005u32;
    let insn = Arm64Insn::decode(w);
    assert!(matches!(insn, Arm64Insn::Adrp(_)));
    assert_eq!(insn.rd(), 5);
}

#[test]
fn add_imm_no_shift() {
    // ADD X0, X0, #0x100  (no shift)
    // sf=1, op=0, S=0 → bits[31:29]=100, bits[28:24]=10001
    // shift=00, imm12=0x100=256, Rn=0, Rd=0
    // word = (1<<31)|(0b10001<<24)|(0b00<<22)|(0x100<<10)|(0<<5)|0
    // = 0x80000000 | 0x11000000 | 0x00000000 | 0x00040000 | 0 | 0 = 0x91040000
    let w = 0x9104_0000u32;
    let insn = Arm64Insn::decode(w);
    assert!(matches!(insn, Arm64Insn::AddImm(_)));
    assert_eq!(insn.add_imm(), 0x100);
    assert_eq!(insn.rd(), 0);
    assert_eq!(insn.rn(), 0);
}

#[test]
fn blr_rn() {
    // BLR X8 — Rn=8, Rd=0 (must be 0), bits[9:5]=8
    // word = 0xD63F0100
    let w = 0xD63F_0100u32;
    let insn = Arm64Insn::decode(w);
    assert!(matches!(insn, Arm64Insn::Blr(_)));
    assert_eq!(insn.rn(), 8);
}

#[test]
fn ldr_offset() {
    // LDR X0, [X1, #8]  — 64-bit unsigned offset: imm12=1, scaled by 8 → offset=8
    // size=11, V=0, opc=01: bits[31:24]=0xF9, then bits[23:22]=01 (opc)
    // imm12=1 at bits[21:10], Rn=1 at bits[9:5], Rt=0 at bits[4:0]
    // word = 0xF940_0020? Let's compute:
    // 0xF9=1111_1001 for bits[31:24], opc=01 bits[23:22] → 0xF940_0000 base
    // imm12=1 at bits[21:10]: 1<<10 = 0x400
    // Rn=1 at bits[9:5]: 1<<5 = 0x20
    // Rt=0
    // word = 0xF940_0000 | 0x400 | 0x20 = 0xF940_0420
    let w = 0xF940_0420u32;
    let insn = Arm64Insn::decode(w);
    assert!(matches!(insn, Arm64Insn::Ldr(_)));
    assert_eq!(insn.ldr_str_offset(), 8);
    assert_eq!(insn.rn(), 1);
    assert_eq!(insn.rd(), 0);
}

#[test]
fn bcond_target() {
    // B.EQ -4 from 0x1008: imm19 = 0x7FFFF (−1 in signed 19-bit)
    // bits[31:24]=0x54, bit[4]=0 (cond=EQ=0b0000)
    // imm19 at bits[23:5], cond at bits[3:0]
    // imm19=0x7FFFF → bits[23:5] = 0x7FFFF<<5 = 0x00FFFFE0
    // word = 0x54000000 | 0x00FFFFE0 | 0x0 = 0x54FFFFE0
    let w = 0x54FF_FFE0u32;
    let insn = Arm64Insn::decode(w);
    assert!(matches!(insn, Arm64Insn::BCond(_)));
    assert_eq!(insn.imm19_target(0x1008), 0x1004);
}
