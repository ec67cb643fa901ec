use xr::arch::x86_insn;
use xr::loader::{Arch, DecodeMode, LoadedBinary, SegData, Segment};
use xr::pairs::{PairIndex, PairSet};
use xr::score::{
    collect_found, collect_truth, compute_stats, extern_bound, normalize_pair,
    resolve_x86_got_slot, truth_offset_of, Comparison, Stats, TruthRef,
};
use xr::va::Va;
use xr::xref::{Confidence, Xref, XrefKind};

fn code(va: u64, data: &[u8]) -> Segment<'_> {
    Segment {
        va: Va::new(va),
        data: SegData::new(data),
        executable: true,
        readable: true,
        writable: false,
        byte_scannable: false,
        mode: DecodeMode::Default,
        switches: vec![],
        name: ".text".to_string(),
    }
}

fn xref(from: u64, to: u64, kind: XrefKind) -> Xref {
    Xref { from: Va::new(from), to: Va::new(to), kind, confidence: Confidence::LinearImmediate }
}

fn truth(from: u64, to: u64, kind: &str) -> TruthRef {
    TruthRef { from, to, kind: kind.to_string() }
}

/// `call [rip+0x10]`, then `nop`.
const CALL_SLOT: [u8; 7] = [0xff, 0x15, 0x10, 0, 0, 0, 0x90];

#[test]
fn pairs_are_counted_once() {
    let mut s = PairSet::new();
    s.insert(1, 2);
    s.insert(2, 1);
    s.insert(1, 2);
    assert_eq!(s.len(), 2);
    assert_eq!(s.get(0), (1, 2));
    assert_eq!(s.get(1), (2, 1));
    assert!(s.contains(2, 1));
    assert!(!s.contains(2, 2));
}

#[test]
fn last_place_wins() {
    let mut m = PairIndex::new();
    assert_eq!(m.get(1, 2), None);
    m.set(1, 2, 7);
    m.set(1, 2, 9);
    m.set(2, 1, 3);
    assert_eq!(m.get(1, 2), Some(9));
    assert_eq!(m.get(2, 1), Some(3));
}

#[test]
fn stats_count_both_ways() {
    let mut found = PairSet::new();
    let mut wanted = PairSet::new();
    for p in [(1, 2), (3, 4), (5, 6)] {
        found.insert(p.0, p.1);
    }
    for p in [(3, 4), (5, 6), (7, 8), (9, 9), (2, 1)] {
        wanted.insert(p.0, p.1);
    }
    assert_eq!(compute_stats(&found, &wanted), Stats { tp: 2, fp: 1, fn_: 3 });
    assert_eq!(compute_stats(&wanted, &found), Stats { tp: 2, fp: 3, fn_: 1 });
}

#[test]
fn offsets_need_a_base_on_both_sides() {
    assert_eq!(truth_offset_of(None, 0x40_0000), 0);
    assert_eq!(truth_offset_of(Some(0x10_0000), 0), 0);
    assert_eq!(truth_offset_of(Some(0x10_0000), 0x40_0000), 0x30_0000);
    assert_eq!(truth_offset_of(Some(0x50_0000), 0x40_0000), 0u64.wrapping_sub(0x10_0000));
}

#[test]
fn imports_lie_behind_the_image() {
    let none = LoadedBinary::from_segments(Arch::X86_64, vec![]);
    assert_eq!(extern_bound(&none), u64::MAX);
    let b = LoadedBinary::from_segments(
        Arch::X86_64,
        vec![code(0x2000, &CALL_SLOT), code(0x1000, &CALL_SLOT)],
    );
    assert_eq!(extern_bound(&b), 0x2007);
}

#[test]
fn slots_come_from_the_instruction() {
    let b = LoadedBinary::from_segments(Arch::X86_64, vec![code(0x1000, &CALL_SLOT)]);
    assert_eq!(resolve_x86_got_slot(&b, Va::new(0x1000)), Some(Va::new(0x1016)));
    assert_eq!(resolve_x86_got_slot(&b, Va::new(0x1006)), None);
    assert_eq!(resolve_x86_got_slot(&b, Va::new(0x9000)), None);
    assert_eq!(x86_insn::KIND_MEMORY, iced_x86::OpKind::Memory as u8);
}

#[test]
fn references_to_imports_are_led_back() {
    let b = LoadedBinary::from_segments(Arch::X86_64, vec![code(0x1000, &CALL_SLOT)]);
    let bound = extern_bound(&b);
    assert_eq!(normalize_pair(&b, bound, 0x1000, 0, 0x8000), (0x1000, 0x1016, true));
    assert_eq!(normalize_pair(&b, bound, 0x1000, 0, 2), (0x1000, 0x1002, false));
    assert_eq!(normalize_pair(&b, bound, 0, 0x1006, 0x8000), (0x1006, 0x8000, false));
    let other = LoadedBinary::from_segments(Arch::Arm64, vec![code(0x1000, &CALL_SLOT)]);
    assert_eq!(normalize_pair(&other, bound, 0x1000, 0, 0x8000), (0x1000, 0x9000, false));
}

#[test]
fn comparisons_list_pairs_by_kind() {
    let b = LoadedBinary::from_segments(Arch::X86_64, vec![code(0x1000, &CALL_SLOT)]);
    let refs = vec![
        truth(0x1000, 0x8000, "call"),
        truth(0x1006, 0x1000, "jump"),
        truth(0x1001, 0x1002, "data_read"),
        truth(0x1001, 0x1003, "other"),
    ];
    let (truth_sets, led_back) = collect_truth(&b, 0, &refs);
    assert_eq!(led_back, 1);
    assert_eq!(truth_sets.all().len(), 4);
    assert!(truth_sets.of(XrefKind::Call).contains(0x1000, 0x1016));
    assert_eq!(truth_sets.of(XrefKind::DataPointer).len(), 0);

    let xrefs = vec![
        xref(0x1000, 0x1016, XrefKind::Call),
        xref(0x1001, 0x1002, XrefKind::DataRead),
        xref(0x1001, 0x1002, XrefKind::DataWrite),
        xref(0x1004, 0x1005, XrefKind::CondJump),
    ];
    let (found, places) = collect_found(&xrefs);
    let c = Comparison { xrefs: &xrefs, found: &found, places: &places, truth: &truth_sets };
    let list = |v: Vec<xr::score::DumpEntry>| -> Vec<(u64, u64, &'static str)> {
        v.iter().map(|e| (e.from, e.to, e.kind)).collect()
    };
    assert_eq!(
        list(c.true_positives(None)),
        vec![(0x1000, 0x1016, "call"), (0x1001, 0x1002, "data_write")]
    );
    assert_eq!(list(c.false_positives(None)), vec![(0x1004, 0x1005, "jump")]);
    assert_eq!(
        list(c.false_negatives(None)),
        vec![(0x1006, 0x1000, "jump"), (0x1001, 0x1003, "unknown")]
    );
    assert_eq!(list(c.false_negatives(Some(XrefKind::Jump))), vec![(0x1006, 0x1000, "jump")]);
    assert!(c.false_negatives(Some(XrefKind::Call)).is_empty());
    assert_eq!(
        list(c.true_positives(Some(XrefKind::DataWrite))),
        vec![(0x1001, 0x1002, "data_write")]
    );
}
