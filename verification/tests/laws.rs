//! One case of each property that holds of all inputs.

use rustc_hash::FxHashSet;
use xr::arch::arm32::{scan_arm32, scan_thumb};
use xr::arch::arm32_mode_classifier::{ArmMode, ModePredictor};
use xr::arch::arm64::{scan_adrp, scan_linear};
use xr::arch::arm64_decode::Arm64Insn;
use xr::arch::{x86_64, ScanRegion, SegmentDataIndex, SegmentIndex};
use xr::loader::{Arch, DecodeMode, LoadedBinary, SegData, Segment, VaRangeSet};
use xr::shard::{split_range, worker_for};
use xr::va::Va;
use xr::xref::XrefKind;
use xr::{disasm, parse_va, StringBlobIndex};

fn segment(va: u64, data: &[u8], executable: bool) -> Segment<'_> {
    Segment {
        va: Va::new(va),
        data: SegData::new(data),
        executable,
        readable: true,
        writable: false,
        byte_scannable: true,
        mode: DecodeMode::Default,
        switches: vec![],
        name: "s".to_string(),
    }
}

/// Bytes without a pattern.
fn noise(n: usize) -> Vec<u8> {
    let mut x = 0x2545_f491_4f6c_dd1du64;
    (0..n)
        .map(|_| {
            x ^= x << 13;
            x ^= x >> 7;
            x ^= x << 17;
            (x >> 24) as u8
        })
        .collect()
}

fn whole<'a>(s: &'a Segment<'_>) -> ScanRegion<'a> {
    ScanRegion::new(s, s.va, s.va + s.data.len() as u64)
}

#[test]
fn labels_read_back() {
    for k in XrefKind::scored_kinds() {
        assert_eq!(XrefKind::from_name(k.name()), Some(k));
    }
    for k in [XrefKind::CondJump, XrefKind::IndirectCall, XrefKind::IndirectJump] {
        assert_eq!(XrefKind::from_name(k.name()), Some(k.scored_kind()));
    }
    assert_eq!(XrefKind::from_name("nothing"), None);
}

#[test]
fn printed_addresses_parse() {
    for n in [0, 1, 0x1000, 0xdead_beef, u64::MAX] {
        let mut out = String::new();
        Va::new(n).push_padded(&mut out);
        assert_eq!(out, format!("{n:#018x}"));
        assert_eq!(parse_va(&out), Ok(n));
        assert_eq!(parse_va(&format!("{n:#x}")), Ok(n));
        assert_eq!(parse_va(&format!("0X{n:X}")), Ok(n));
        assert_eq!(parse_va(&format!("{n}")), Ok(n));
    }
    assert!(parse_va("18446744073709551616").is_err());
    assert_eq!(parse_va("0xg"), Err("invalid address: 0xg".to_string()));
    assert_eq!(parse_va(""), Err("invalid address: ".to_string()));
}

#[test]
fn shards_cover_their_range() {
    for n in 1..9usize {
        let shards = split_range(0x1004, 0x2001, n, 8, 4);
        assert!(shards.len() <= n);
        for a in 0x1004..0x2001u64 {
            assert!(shards.iter().any(|s| s.0 <= a && a < s.1), "{a:#x} of {n}");
        }
        assert!(shards.iter().all(|s| 0x1004 <= s.0 && s.1 <= 0x2001));
    }
    // Without an overlap an unaligned tail may be left out, an aligned address is not.
    for n in 1..9usize {
        let shards = split_range(0x1003, 0x2001, n, 0, 8);
        for a in (0x1008..0x2001u64).step_by(8) {
            assert!(shards.iter().any(|s| s.0 <= a && a < s.1), "{a:#x} of {n}");
        }
    }
    assert!(worker_for(0x1234, 3) < 3);
    assert_eq!(worker_for(0x1234, 3), worker_for(0x1234, 3));
}

#[test]
fn words_are_decoded_to_one_family() {
    for chunk in noise(40_000).chunks_exact(4) {
        let w = u32::from_le_bytes([chunk[0], chunk[1], chunk[2], chunk[3]]);
        let other = matches!(Arm64Insn::decode(w), Arm64Insn::Other(_));
        assert_eq!(Arm64Insn::is_tracked(w), !other, "{w:#x}");
    }
}

/// An immediate is subtracted by SUB: it is no ADD.
#[test]
fn subtraction_is_no_addition() {
    assert!(matches!(Arm64Insn::decode(0x9100_4000), Arm64Insn::AddImm(_)));
    assert!(!matches!(Arm64Insn::decode(0xd100_4000), Arm64Insn::AddImm(_)));
}

#[test]
fn arm64_references_are_mapped_and_paired_has_linear() {
    let bytes = noise(0x8000);
    let segs = vec![segment(0x10_0000, &bytes, true)];
    let idx = SegmentIndex::build(&segs);
    let data_idx = SegmentDataIndex::build(&segs);
    let linear = scan_linear(&whole(&segs[0]), &idx);
    let paired = scan_adrp(&whole(&segs[0]), &idx, &data_idx);
    assert!(!linear.is_empty());
    for x in &linear {
        assert!(paired.contains(x), "{x:?}");
    }
    for x in linear.iter().chain(&paired) {
        assert!(segs[0].contains(x.from) && idx.contains(x.to), "{x:?}");
    }
}

#[test]
fn arm_references_are_mapped() {
    let bytes = noise(0x8000);
    let segs = vec![segment(0x10_0000, &bytes, true)];
    let idx = SegmentIndex::build(&segs);
    let arm = scan_arm32(&whole(&segs[0]), &idx);
    let thumb = scan_thumb(&whole(&segs[0]), &idx);
    assert!(!thumb.is_empty());
    for x in arm.iter().chain(&thumb) {
        assert!(segs[0].contains(x.from) && idx.contains(x.to), "{x:?}");
    }
}

/// BLX with an immediate is a call into Thumb code.
#[test]
fn arm_exchange_branch_is_a_call() {
    let mut bytes = vec![0u8; 0x20];
    bytes[0..4].copy_from_slice(&0xfa00_0001u32.to_le_bytes());
    let segs = vec![segment(0x1000, &bytes, true)];
    let found = scan_arm32(&whole(&segs[0]), &SegmentIndex::build(&segs));
    assert_eq!(found[0].kind, XrefKind::Call);
    assert_eq!(found[0].from, Va::new(0x1000));
}

#[test]
fn x86_propagation_has_linear() {
    let bytes = noise(0x8000);
    let segs = vec![segment(0x10_0000, &bytes, true)];
    let idx = SegmentIndex::build(&segs);
    let data_idx = SegmentDataIndex::build(&segs);
    let none = FxHashSet::default();
    let linear = x86_64::scan_linear(&whole(&segs[0]), &idx, &none, &data_idx);
    let all = x86_64::scan_with_prop(&whole(&segs[0]), &idx, &none, &data_idx);
    assert!(!linear.is_empty());
    for x in &linear {
        assert!(all.contains(x), "{x:?}");
    }
    for x in &all {
        assert!(segs[0].contains(x.from), "{x:?}");
    }
}

#[test]
fn predictors_change_on_runs_only() {
    for h in 1..5u8 {
        let mut p = ModePredictor::new(h);
        for _ in 0..h {
            p.push(ArmMode::Arm32);
        }
        for _ in 1..h {
            assert_eq!(p.push(ArmMode::Thumb), Some(ArmMode::Arm32));
        }
        assert_eq!(p.push(ArmMode::Thumb), Some(ArmMode::Thumb));
    }
}

#[test]
fn latest_runs_decide() {
    let modes = [ArmMode::Arm32, ArmMode::Thumb, ArmMode::Data];
    for h in 0..4u8 {
        let need = (h as usize).max(1);
        for bytes in noise(600).chunks(24) {
            let raws: Vec<ArmMode> = bytes.iter().map(|b| modes[*b as usize * 3 / 256]).collect();
            let mut p = ModePredictor::new(h);
            for k in 1..=raws.len() {
                let latest = (need..=k)
                    .rev()
                    .find(|j| raws[j - need..*j].iter().all(|m| *m == raws[j - 1]))
                    .map(|j| raws[j - 1]);
                assert_eq!(p.push(raws[k - 1]), latest);
            }
        }
    }
    let mut p = ModePredictor::new(u8::MAX);
    for _ in 1..u8::MAX {
        assert_eq!(p.push(ArmMode::Data), None);
    }
    for _ in 0..600 {
        assert_eq!(p.push(ArmMode::Data), Some(ArmMode::Data));
    }
}

#[test]
fn lookups_find_segments() {
    let a = [1u8; 0x10];
    let b = [2u8; 0x20];
    let bin = LoadedBinary::from_segments(
        Arch::X86_64,
        vec![segment(0x2000, &b, false), segment(0x1000, &a, true)],
    );
    let idx = SegmentIndex::build(&bin.segments);
    let spans = VaRangeSet::build(&bin.segments);
    for va in [0xfffu64, 0x1000, 0x100f, 0x1010, 0x1fff, 0x2000, 0x201f, 0x2020] {
        let va = Va::new(va);
        let seg = bin.segment_at(va);
        assert_eq!(idx.contains(va), seg.is_some());
        assert_eq!(spans.contains(va), seg.is_some());
        assert_eq!(idx.is_exec(va), bin.is_executable(va));
        if let Some(s) = seg {
            assert!(s.bytes_at(va, 1).is_some());
        }
    }
    assert_eq!(bin.min_va(), Va::new(0x1000));
    assert_eq!(bin.code_segments().len(), 1);
    assert_eq!(bin.data_segments().len(), 1);
    assert_eq!(bin.scannable_data_segments().len(), 1);
    let data = SegmentDataIndex::build(&bin.segments);
    assert_eq!(data.read_u8_at(Va::new(0x1000)), Some(1));
    assert_eq!(data.read_u16_at(Va::new(0x2000)), Some(0x0202));
    assert_eq!(data.read_i32_at(Va::new(0x201d)), None);
    assert_eq!(data.read_u64_at_nonexec(Va::new(0x1000)), None);
    assert_eq!(data.read_u64_at_nonexec(Va::new(0x2000)), Some(0x0202_0202_0202_0202));
}

#[test]
fn windows_follow_one_another() {
    let bytes = [0x55u8, 0x48, 0x89, 0xe5, 0x90, 0x90, 0xc3, 0x90];
    let segs = vec![segment(0x1000, &bytes, true)];
    let lines = disasm::context(Arch::X86_64, &segs, Va::new(0x1004), 2, 3, &vec![]);
    assert_eq!(lines.iter().filter(|l| l.is_focus && l.va == 0x1004).count(), 1);
    for pair in lines.windows(2) {
        assert_eq!(pair[0].va + pair[0].bytes.len() as u64, pair[1].va);
    }
    let words = disasm::context_words(Arch::Arm64, &segs, Va::new(0x1004), 1, 1);
    assert_eq!(words.len(), 2);
    let texts = vec![Some("a".to_string()), None];
    let lines = disasm::context(Arch::Arm64, &segs, Va::new(0x1004), 1, 1, &texts);
    assert_eq!(lines.len(), 2);
    assert_eq!(lines[0].text, "a");
    assert!(lines[1].is_focus);
    assert!(disasm::context(Arch::Arm32, &segs, Va::new(0x1004), 1, 1, &vec![]).is_empty());
}

#[test]
fn blobs_lie_in_line() {
    let mut bytes = noise(0x100);
    bytes.extend_from_slice(b"\0this is a readable text\0 short \0and here is another one\0");
    let bin = LoadedBinary::from_segments(
        Arch::X86_64,
        vec![segment(0x9000, &bytes, false), segment(0x1000, &bytes, false)],
    );
    let blobs = StringBlobIndex::build(&bin, 16);
    assert!(blobs.len() >= 4);
    for pair in blobs.iter().windows(2) {
        assert!(pair[0].end_va().raw() <= pair[1].va.raw());
    }
    for b in blobs.iter() {
        assert!(b.data.len() >= 16);
        assert_eq!(blobs.lookup(b.va).map(|f| f.va), Some(b.va));
        assert_eq!(blobs.lookup(Va::new(b.end_va().raw() - 1)).map(|f| f.va), Some(b.va));
        assert!(b.extract(b.va, b.data.len()).is_some());
        assert!(b.extract(b.va, b.data.len() + 1).is_none());
    }
}

#[test]
fn empty_segments_hide_no_text() {
    let text = b"a stretch of plain text";
    let bin = LoadedBinary::from_segments(
        Arch::X86_64,
        vec![
            segment(0x1000, text, false),
            segment(0x1000, &[], false),
            segment(0x1008, &[], false),
            segment(u64::MAX - 22, text, false),
        ],
    );
    let blobs = StringBlobIndex::build(&bin, 16);
    assert_eq!(blobs.len(), 2);
    assert!(blobs.lookup(Va::new(0xfff)).is_none());
    for i in 0..23 {
        assert_eq!(blobs.lookup(Va::new(0x1000 + i)).map(|b| b.va), Some(Va::new(0x1000)));
    }
    assert!(blobs.lookup(Va::new(0x1017)).is_none());
    for va in [u64::MAX - 22, u64::MAX] {
        let covered = blobs.iter().iter().any(|b| b.contains(Va::new(va)));
        assert_eq!(blobs.lookup(Va::new(va)).is_some(), covered);
    }
}
