use xr::disasm::{disasm_x86, DisasmLine};
use xr::loader::{DecodeMode, SegData, Segment};
use xr::va::Va;

fn exec_seg(va: u64, data: &[u8]) -> Segment<'_> {
    Segment {
        va: Va::new(va),
        data: SegData::new(data),
        executable: true,
        readable: true,
        writable: false,
        byte_scannable: false,
        mode: DecodeMode::Default,
        switches: vec![],
        name: "test".to_string(),
    }
}

fn vas(lines: &[DisasmLine]) -> Vec<u64> {
    lines.iter().map(|l| l.va).collect()
}

fn focus(lines: &[DisasmLine]) -> Option<&DisasmLine> {
    lines.iter().find(|l| l.is_focus)
}

#[test]
fn test_focus_only_no_context() {
    let code_bytes: [u8; 5] = [0xe8, 0xfb, 0x0f, 0x00, 0x00];
    let seg = exec_seg(0x1000, &code_bytes);
    let lines = disasm_x86(&seg, 0x1000, 0, 0);
    assert_eq!(lines.len(), 1);
    assert_eq!(lines[0].va, 0x1000);
    assert!(lines[0].is_focus);
}

#[test]
fn test_clean_before_context() {
    let code_bytes: [u8; 8] = [0x90, 0x90, 0x90, 0xe8, 0xf8, 0x0f, 0x00, 0x00];
    let seg = exec_seg(0x1000, &code_bytes);
    let lines = disasm_x86(&seg, 0x1003, 3, 0);
    let foc = focus(&lines).expect("focus must be present");
    assert_eq!(foc.va, 0x1003);
    let before: Vec<_> = lines.iter().filter(|l| l.va < 0x1003).collect();
    assert_eq!(
        before.len(),
        3,
        "expected 3 before-context lines, got {before:?}"
    );
    assert_eq!(vas(&lines), vec![0x1000, 0x1001, 0x1002, 0x1003]);
}

#[test]
fn test_focus_at_segment_start() {
    let code_bytes: [u8; 5] = [0xe8, 0xf8, 0x0f, 0x00, 0x00];
    let seg = exec_seg(0x1000, &code_bytes);
    let lines = disasm_x86(&seg, 0x1000, 3, 0);
    assert!(!lines.is_empty(), "must return at least the focus line");
    let foc = focus(&lines).expect("focus must be present");
    assert_eq!(foc.va, 0x1000);
    assert!(lines.iter().all(|l| l.va >= 0x1000));
}

#[test]
fn test_fewer_before_than_requested() {
    let code_bytes: [u8; 6] = [0x90, 0xe8, 0xf4, 0x0e, 0x00, 0x00];
    let seg = exec_seg(0x1000, &code_bytes);
    let lines = disasm_x86(&seg, 0x1001, 5, 0);
    let foc = focus(&lines).expect("focus must be present");
    assert_eq!(foc.va, 0x1001);
    let before_count = lines.iter().filter(|l| l.va < 0x1001).count();
    assert_eq!(before_count, 1, "only 1 instruction precedes focus");
}

#[test]
fn test_after_context() {
    let code_bytes: [u8; 7] = [0xe8, 0x00, 0x00, 0x00, 0x00, 0x90, 0x90];
    let seg = exec_seg(0x1000, &code_bytes);
    let lines = disasm_x86(&seg, 0x1000, 0, 2);
    assert_eq!(vas(&lines), vec![0x1000, 0x1005, 0x1006]);
    assert!(lines[0].is_focus);
}

#[test]
fn test_misaligned_best_probe_wins() {
    // 50 zero bytes of padding, then 10-byte MOV, then CALL focus
    let mut code = [0x00u8; 65];
    // MOV rax, imm64 at offset 0x32 (50 decimal)
    code[0x32] = 0x48;
    code[0x33] = 0xb8;
    code[0x34] = 0x90;
    code[0x35] = 0x90;
    code[0x36] = 0x90;
    code[0x37] = 0x90;
    code[0x38] = 0x90;
    code[0x39] = 0x90;
    code[0x3a] = 0x90;
    code[0x3b] = 0x90;
    // CALL rel32 at offset 0x3c (focus)
    code[0x3c] = 0xe8;
    code[0x3d] = 0x00;
    code[0x3e] = 0x00;
    code[0x3f] = 0x00;
    code[0x40] = 0x00;

    let seg = exec_seg(0x5000, &code);
    let focus_va = 0x503c_u64; // seg.va + 0x3c

    let lines = disasm_x86(&seg, focus_va, 1, 0);
    let foc = focus(&lines).expect("focus must be present");
    assert_eq!(foc.va, focus_va);
    assert_eq!(foc.bytes[0], 0xe8, "focus must be the CALL");

    let before: Vec<_> = lines.iter().filter(|l| l.va < focus_va).collect();
    assert_eq!(
        before.len(),
        1,
        "expected exactly 1 before-context line, got {:?}",
        before.iter().map(|l| (l.va, &l.bytes)).collect::<Vec<_>>()
    );
    assert_eq!(
        before[0].va, 0x5032,
        "before line must be the MOV at 0x5032, not {:?}",
        before[0].va
    );
    assert_eq!(
        before[0].bytes.len(),
        10,
        "before line must be the full 10-byte MOV"
    );
}

#[test]
fn test_after_context_correct_despite_misalignment() {
    let code_bytes: [u8; 20] = [
        0x48, 0xb8, 0x90, 0x90, 0x90, 0x90, 0x90, 0x90, 0x90, 0x90, 0xe8, 0x00, 0x00, 0x00,
        0x00, // focus CALL
        0x90, // NOP after (0x500f)
        0x90, // NOP after (0x5010)
        0x90, 0x90, 0x90, // padding
    ];
    let seg = exec_seg(0x5000, &code_bytes);
    let lines = disasm_x86(&seg, 0x500a, 0, 2);
    let foc = focus(&lines).expect("focus must be present");
    assert_eq!(foc.va, 0x500a);
    let after: Vec<_> = lines.iter().filter(|l| l.va > 0x500a).collect();
    assert_eq!(after.len(), 2);
    assert_eq!(after[0].va, 0x500f);
    assert_eq!(after[1].va, 0x5010);
}

#[test]
fn test_focus_bytes_are_anchor_decoded() {
    let code_bytes: [u8; 15] = [
        0x48, 0xb8, 0x90, 0x90, 0x90, 0x90, 0x90, 0x90, 0x90, 0x90, 0xe8, 0x00, 0x00, 0x00,
        0x00,
    ];
    let seg = exec_seg(0x5000, &code_bytes);
    let lines = disasm_x86(&seg, 0x500a, 0, 0);
    let foc = focus(&lines).expect("focus must be present");
    assert_eq!(foc.va, 0x500a);
    assert_eq!(
        foc.bytes,
        vec![0xe8, 0x00, 0x00, 0x00, 0x00],
        "focus bytes must be the full 5-byte CALL encoding"
    );
}
