use xr::arch::arm32_mode_classifier::{predict_mode, ArmMode, ModePredictor};

#[test]
fn arm32_mov() {
    // E3A00001 = MOV r0, #1  (AL condition, data-processing immediate)
    // E3A01002 = MOV r1, #2
    // LE bytes: [0x01,0x00,0xA0,0xE3, 0x02,0x10,0xA0,0xE3]
    //           b3=0xE3 (0xE0..=0xEB arm32 range), b7=0xE3 → run → Arm32
    let code: &[u8] = &[0x01, 0x00, 0xA0, 0xE3,
                         0x02, 0x10, 0xA0, 0xE3];
    assert_eq!(predict_mode(code, 0), ArmMode::Arm32);
}

#[test]
fn arm32_push_stmdb() {
    // E92D4810 = STMDB r13!, {r4,r11,lr}  (ARM32 PUSH)
    // E24DD010 = SUB   r13, r13, #16
    // LE bytes: [0x10,0x48,0x2D,0xE9, 0x10,0xD0,0x4D,0xE2]
    //           b3=0xE9 (0xE6..=0xEB), b7=0xE2 (in 0xE0..=0xEB) → run → Arm32
    let code: &[u8] = &[0x10, 0x48, 0x2D, 0xE9,
                         0x10, 0xD0, 0x4D, 0xE2];
    assert_eq!(predict_mode(code, 0), ArmMode::Arm32);
}

#[test]
fn thumb16_push_nop() {
    // B510     = PUSH {r4, lr}      (Thumb-16)
    // 46C0     = MOV  r0, r0 (NOP)  (Thumb-16)
    // F000 F8XX = BL  target         (Thumb-2 32-bit, first HW = 0xF000)
    // LE layout at 4-byte offset:
    //   bytes 0..3: [0x10,0xB5, 0xC0,0x46]  b3=0x46 (0x01..=0xDF)
    //   bytes 4..7: [0x00,0xF0, 0xXX,0xFA]  b7=0xFA
    // b3 in 0x01..=0xDF, b1=0xB5 > 0x16, b2=0xC0 <= 0xFE, b5=0xF0 > 0 → Thumb
    let code: &[u8] = &[0x10, 0xB5, 0xC0, 0x46,
                         0x00, 0xF0, 0x10, 0xFA];
    assert_eq!(predict_mode(code, 0), ArmMode::Thumb);
}

#[test]
fn thumb2_push_w() {
    // Thumb-2 PUSH.W {r4, r11, lr} = two halfwords: 0xE92D / 0x4810
    // LE storage: first HW [0x2D,0xE9], second HW [0x10,0x48]
    // → 4 bytes: [0x2D,0xE9,0x10,0x48]  b3=0x48
    // next word: Thumb-2 SUB.W sp,sp,#16 = 0xB082 → [0x82,0xB0,0xC0,0x46]
    // b3=0x48 in 0x01..=0xDF, b1=0xE9 > 0x16, b5=0xB0 > 0 → Thumb
    let code: &[u8] = &[0x2D, 0xE9, 0x10, 0x48,
                         0x82, 0xB0, 0xC0, 0x46];
    assert_eq!(predict_mode(code, 0), ArmMode::Thumb);
}

#[test]
fn neon_vadd_run() {
    // F2430110 = VADD.I32 q0, q1, q0   (ARM32 NEON, unconditional cond=0xF)
    // F3C86A32 = VEXT.8   q3, q4, q2, #2
    // LE: [0x10,0x01,0x43,0xF2, 0x32,0x6A,0xC8,0xF3]
    //      b3=0xF2 (0xEC..=0xFE), b7=0xF3 (>= 0xE0) → NEON run, b3<=0xF4 → Arm32
    let code: &[u8] = &[0x10, 0x01, 0x43, 0xF2,
                         0x32, 0x6A, 0xC8, 0xF3];
    assert_eq!(predict_mode(code, 0), ArmMode::Arm32);
}

#[test]
fn neon_isolated_looks_like_thumb() {
    // Single NEON word followed by a low-MSB Thumb word:
    // the model correctly treats the isolated 0xF? as a Thumb second halfword.
    // b3=0xF2, b7=0x46 (low, < 0xE0) → Thumb
    let code: &[u8] = &[0x10, 0x01, 0x43, 0xF2,
                         0x10, 0xB5, 0xC0, 0x46];
    assert_eq!(predict_mode(code, 0), ArmMode::Thumb);
}

#[test]
fn all_zeros_is_data() {
    let code: &[u8] = &[0x00; 8];
    assert_eq!(predict_mode(code, 0), ArmMode::Data);
}

#[test]
fn hysteresis_suppresses_single_blip() {
    let mut pred = ModePredictor::new(2);
    pred.push(ArmMode::Arm32);
    assert_eq!(pred.push(ArmMode::Arm32), Some(ArmMode::Arm32));
    // Single Thumb blip — should not switch
    pred.push(ArmMode::Thumb);
    assert_eq!(pred.push(ArmMode::Arm32), Some(ArmMode::Arm32));
    // Two consecutive Thumb — should switch
    pred.push(ArmMode::Thumb);
    assert_eq!(pred.push(ArmMode::Thumb), Some(ArmMode::Thumb));
}
