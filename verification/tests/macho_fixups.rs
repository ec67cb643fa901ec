use xr::loader::macho::ChainedPtrFormat;
use xr::va::Va;

const BASE: u64 = 0x1_0000_0000; // typical Mach-O __TEXT vmaddr

fn ptr64_rebase(target: u64, high8: u64, next: u64) -> u64 {
    (target & 0xF_FFFF_FFFF) | ((high8 & 0xFF) << 36) | ((next & 0xFFF) << 51)
}

fn ptr64_offset_rebase(target_off: u64, high8: u64, next: u64) -> u64 {
    ptr64_rebase(target_off, high8, next) // same encoding
}

fn ptr64_bind(next: u64) -> u64 {
    (1u64 << 63) | ((next & 0xFFF) << 51)
}

fn arm64e_rebase(target: u64, high8: u64, next: u64) -> u64 {
    (target & 0x7FF_FFFF_FFFF) | ((high8 & 0xFF) << 43) | ((next & 0x7FF) << 51)
}

fn arm64e_auth_rebase(target: u64, next: u64) -> u64 {
    (target & 0xFFFF_FFFF) | ((next & 0x7FF) << 51) | (1u64 << 63)
}

fn arm64e_bind(next: u64) -> u64 {
    (1u64 << 62) | ((next & 0x7FF) << 51)
}

fn arm64e_auth_bind(next: u64) -> u64 {
    (1u64 << 63) | (1u64 << 62) | ((next & 0x7FF) << 51)
}

#[test]
fn test_ptr64_rebase_absolute() {
    let fmt = ChainedPtrFormat::Ptr64;
    let val = ptr64_rebase(0x1_0000_1000, 0, 5);
    let result = fmt.decode_rebase(val, BASE);
    assert_eq!(result, Some(Va::new(0x1_0000_1000)));
    assert_eq!(fmt.next_delta(val), 5);
    assert_eq!(fmt.stride(), 4);
}

#[test]
fn test_ptr64_rebase_with_high8() {
    let fmt = ChainedPtrFormat::Ptr64;
    let val = ptr64_rebase(0x1_0000_1000, 0x80, 0);
    let result = fmt.decode_rebase(val, BASE).unwrap();
    assert_eq!(result.raw() >> 56, 0x80);
    assert_eq!(result.raw() & 0x00FF_FFFF_FFFF_FFFF, 0x1_0000_1000);
}

#[test]
fn test_ptr64_bind_skipped() {
    let fmt = ChainedPtrFormat::Ptr64;
    let val = ptr64_bind(3);
    assert_eq!(fmt.decode_rebase(val, BASE), None);
    assert_eq!(fmt.next_delta(val), 3);
}

#[test]
fn test_ptr64_offset_rebase() {
    let fmt = ChainedPtrFormat::Ptr64Offset;
    let offset = 0x1000u64;
    let val = ptr64_offset_rebase(offset, 0, 2);
    let result = fmt.decode_rebase(val, BASE).unwrap();
    assert_eq!(result, Va::new(BASE + offset));
    assert_eq!(fmt.next_delta(val), 2);
}

#[test]
fn test_arm64e_rebase_absolute() {
    let fmt = ChainedPtrFormat::Arm64e;
    let target = 0x1_0000_2000u64;
    let val = arm64e_rebase(target, 0, 7);
    let result = fmt.decode_rebase(val, BASE).unwrap();
    assert_eq!(result, Va::new(target));
    assert_eq!(fmt.next_delta(val), 7);
    assert_eq!(fmt.stride(), 8);
}

#[test]
fn test_arm64e_rebase_with_high8() {
    let fmt = ChainedPtrFormat::Arm64e;
    let val = arm64e_rebase(0x1_0000_2000, 0xAB, 0);
    let result = fmt.decode_rebase(val, BASE).unwrap();
    assert_eq!(result.raw() >> 56, 0xAB);
    assert_eq!(result.raw() & 0x00FF_FFFF_FFFF_FFFF, 0x1_0000_2000);
}

#[test]
fn test_arm64e_auth_rebase_absolute() {
    let fmt = ChainedPtrFormat::Arm64e;
    // Auth rebase: 32-bit absolute target
    let val = arm64e_auth_rebase(0x1234_5678, 4);
    let result = fmt.decode_rebase(val, BASE).unwrap();
    assert_eq!(result, Va::new(0x1234_5678));
    assert_eq!(fmt.next_delta(val), 4);
}

#[test]
fn test_arm64e_bind_skipped() {
    let fmt = ChainedPtrFormat::Arm64e;
    assert_eq!(fmt.decode_rebase(arm64e_bind(1), BASE), None);
}

#[test]
fn test_arm64e_auth_bind_skipped() {
    let fmt = ChainedPtrFormat::Arm64e;
    assert_eq!(fmt.decode_rebase(arm64e_auth_bind(2), BASE), None);
}

#[test]
fn test_arm64e_userland_rebase_offset() {
    let fmt = ChainedPtrFormat::Arm64eUserland;
    let offset = 0x5000u64;
    let val = arm64e_rebase(offset, 0, 3);
    let result = fmt.decode_rebase(val, BASE).unwrap();
    assert_eq!(result, Va::new(BASE + offset));
}

#[test]
fn test_arm64e_userland_auth_rebase_offset() {
    let fmt = ChainedPtrFormat::Arm64eUserland;
    let offset = 0xABCD_0000u64;
    let val = arm64e_auth_rebase(offset, 1);
    let result = fmt.decode_rebase(val, BASE).unwrap();
    assert_eq!(result, Va::new(BASE + offset));
}

#[test]
fn test_arm64e_userland_bind_skipped() {
    let fmt = ChainedPtrFormat::Arm64eUserland;
    assert_eq!(fmt.decode_rebase(arm64e_bind(0), BASE), None);
    assert_eq!(fmt.decode_rebase(arm64e_auth_bind(0), BASE), None);
}

#[test]
fn test_arm64e_userland24_rebase_same_as_userland() {
    // Rebase encoding is identical to format 9; only bind ordinal width differs.
    let fmt = ChainedPtrFormat::Arm64eUserland24;
    let offset = 0x8000u64;
    let val = arm64e_rebase(offset, 0, 5);
    let result = fmt.decode_rebase(val, BASE).unwrap();
    assert_eq!(result, Va::new(BASE + offset));
    assert_eq!(fmt.stride(), 8);
}

#[test]
fn test_from_raw_known_formats() {
    assert!(ChainedPtrFormat::from_raw(1).is_some());
    assert!(ChainedPtrFormat::from_raw(2).is_some());
    assert!(ChainedPtrFormat::from_raw(6).is_some());
    assert!(ChainedPtrFormat::from_raw(9).is_some());
    assert!(ChainedPtrFormat::from_raw(12).is_some());
}

#[test]
fn test_from_raw_unknown_formats() {
    for f in [0, 3, 4, 5, 7, 8, 10, 11, 13, 100] {
        assert!(
            ChainedPtrFormat::from_raw(f).is_none(),
            "format {f} should be None"
        );
    }
}

#[test]
fn test_next_delta_max_ptr64() {
    let fmt = ChainedPtrFormat::Ptr64;
    // All 12 bits set in the next field
    let val = 0xFFF_u64 << 51;
    assert_eq!(fmt.next_delta(val), 0xFFF);
}

#[test]
fn test_next_delta_max_arm64e() {
    let fmt = ChainedPtrFormat::Arm64e;
    // All 11 bits set in the next field, plus auth+bind bits above
    let val = (0x7FF_u64 << 51) | (1u64 << 63) | (1u64 << 62);
    assert_eq!(fmt.next_delta(val), 0x7FF);
}
