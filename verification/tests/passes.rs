use rustc_hash::FxHashSet;
use xr::arch::{ScanRegion, SegmentDataIndex, SegmentIndex};
use xr::loader::{Arch, DecodeMode, ModeSwitch, RelocPointer, SegData, Segment};
use xr::pass::{byte_scan_pointers, mode_runs, reloc_xrefs, scan_segment, ModeRun};
use xr::va::Va;
use xr::xref::{Confidence, Xref, XrefKind};
use xr::{Depth, PassFilter, VaRange};

fn segment(va: u64, data: &[u8], executable: bool) -> Segment<'_> {
    Segment {
        va: Va::new(va),
        data: SegData::new(data),
        executable,
        readable: true,
        writable: !executable,
        byte_scannable: !executable,
        mode: DecodeMode::Default,
        switches: vec![],
        name: "s".to_string(),
    }
}

fn xref(from: u64, to: u64) -> Xref {
    Xref {
        from: Va::new(from),
        to: Va::new(to),
        kind: XrefKind::DataPointer,
        confidence: Confidence::ByteScan,
    }
}

fn pairs(v: &[Xref]) -> Vec<(u64, u64)> {
    v.iter().map(|x| (x.from.raw(), x.to.raw())).collect()
}

#[test]
fn ranges_hold_their_start_and_not_their_end() {
    let r = VaRange::from_bounds(Some(Va::new(0x10)), Some(Va::new(0x20)));
    assert!(!r.contains(Va::new(0xf)));
    assert!(r.contains(Va::new(0x10)));
    assert!(r.contains(Va::new(0x1f)));
    assert!(!r.contains(Va::new(0x20)));
    let open = VaRange::from_bounds(None, None);
    assert!(open.contains(Va::new(0)) && open.contains(Va::new(u64::MAX)));
}

#[test]
fn filters_keep_what_they_are_asked_for() {
    let f = PassFilter {
        min_ref_va: Some(Va::new(0x100)),
        from_range: VaRange::from_bounds(Some(Va::new(0x10)), None),
        to_range: VaRange::from_bounds(None, Some(Va::new(0x1000))),
    };
    let all = vec![xref(0x10, 0x100), xref(0xf, 0x100), xref(0x10, 0xff), xref(0x10, 0x1000)];
    assert_eq!(pairs(&f.retain(&all, false)), vec![(0x10, 0x100)]);
    // Relocation metadata is exempt from the least target.
    assert_eq!(pairs(&f.retain(&all, true)), vec![(0x10, 0x100), (0x10, 0xff)]);
}

#[test]
fn relocated_pointers_are_references() {
    let v = reloc_xrefs(&vec![RelocPointer { from: Va::new(8), to: Va::new(9) }]);
    assert_eq!(
        v,
        vec![Xref {
            from: Va::new(8),
            to: Va::new(9),
            kind: XrefKind::DataPointer,
            confidence: Confidence::LinearImmediate,
        }]
    );
}

#[test]
fn pointers_in_data_are_aligned_and_mapped() {
    let mut data = vec![0u8; 32];
    // The data starts at 0x2004: the first eight-byte address is 0x2008.
    data[4..12].copy_from_slice(&0x1000u64.to_le_bytes());
    data[12..20].copy_from_slice(&0x9999u64.to_le_bytes());
    data[20..28].copy_from_slice(&0x2004u64.to_le_bytes());
    let code = [0x90u8; 4];
    let segs = vec![segment(0x1000, &code, true), segment(0x2004, &data, false)];
    let idx = SegmentIndex::build(&segs);
    let region = ScanRegion::new(&segs[1], Va::new(0x2004), Va::new(0x2024));
    let found = byte_scan_pointers(Arch::X86_64, &region, &idx);
    assert_eq!(pairs(&found), vec![(0x2008, 0x1000), (0x2018, 0x2004)]);
    assert!(found.iter().all(|x| x.confidence == Confidence::ByteScan));
    // AArch64 values that lead to code are left out.
    assert_eq!(
        pairs(&byte_scan_pointers(Arch::Arm64, &region, &idx)),
        vec![(0x2018, 0x2004)]
    );
}

#[test]
fn four_byte_pointers_of_narrow_machines() {
    let mut data = vec![0u8; 8];
    data[4..8].copy_from_slice(&0x2000u32.to_le_bytes());
    let segs = vec![segment(0x2000, &data, false)];
    let idx = SegmentIndex::build(&segs);
    let region = ScanRegion::new(&segs[0], Va::new(0x2000), Va::new(0x2008));
    assert_eq!(pairs(&byte_scan_pointers(Arch::Arm32, &region, &idx)), vec![(0x2004, 0x2000)]);
    assert!(byte_scan_pointers(Arch::X86_64, &region, &idx).is_empty());
}

#[test]
fn runs_cover_a_segment() {
    let data = [0u8; 16];
    let mut seg = segment(0x1000, &data, true);
    seg.mode = DecodeMode::Arm32;
    let switch = |va: u64, mode: DecodeMode| ModeSwitch { va: Va::new(va), mode };
    seg.switches = vec![
        switch(0x0ff0, DecodeMode::Thumb),
        switch(0x1004, DecodeMode::Thumb),
        switch(0x100c, DecodeMode::Arm32),
        switch(0x1010, DecodeMode::Thumb),
    ];
    assert_eq!(
        mode_runs(&seg),
        vec![
            ModeRun { from: 0, to: 4, mode: DecodeMode::Arm32 },
            ModeRun { from: 4, to: 12, mode: DecodeMode::Thumb },
            ModeRun { from: 12, to: 16, mode: DecodeMode::Arm32 },
        ]
    );
}

#[test]
fn arm_code_is_scanned_in_its_modes() {
    // BL +8 in ARM state, then BL +4 in Thumb state.
    let mut data = vec![0u8; 24];
    data[0..4].copy_from_slice(&0xeb00_0000u32.to_le_bytes());
    data[4..6].copy_from_slice(&0xf000u16.to_le_bytes());
    data[6..8].copy_from_slice(&0xf802u16.to_le_bytes());
    let mut seg = segment(0x1000, &data, true);
    seg.mode = DecodeMode::Arm32;
    seg.switches = vec![ModeSwitch { va: Va::new(0x1004), mode: DecodeMode::Thumb }];
    let segs = vec![seg];
    let idx = SegmentIndex::build(&segs);
    let data_idx = SegmentDataIndex::build(&segs);
    let found =
        scan_segment(Arch::Arm32, Depth::Linear, &segs[0], &idx, &data_idx, &FxHashSet::default());
    assert_eq!(pairs(&found), vec![(0x1000, 0x1008), (0x1004, 0x100c)]);
}

/// Each depth finds what the ones above it find.
#[test]
fn deeper_passes_find_more() {
    // ADRP X0, +0x1000 ; ADD X0, X0, #0x10 ; BL -8
    let mut code = Vec::new();
    for w in [0xb000_0000u32, 0x9100_4000, 0x97ff_fffe] {
        code.extend_from_slice(&w.to_le_bytes());
    }
    let data = [0u8; 0x20];
    let segs = vec![segment(0x1000, &code, true), segment(0x2000, &data, false)];
    let idx = SegmentIndex::build(&segs);
    let data_idx = SegmentDataIndex::build(&segs);
    let none = FxHashSet::default();
    let run = |d: Depth| scan_segment(Arch::Arm64, d, &segs[0], &idx, &data_idx, &none);
    assert!(run(Depth::ByteScan).is_empty());
    assert_eq!(pairs(&run(Depth::Linear)), vec![(0x1008, 0x1000)]);
    assert_eq!(pairs(&run(Depth::Paired)), vec![(0x1000, 0x2010), (0x1008, 0x1000)]);
}

#[test]
fn x86_calls_through_slots_are_calls() {
    // call [rip+0x100] at 0x1000: the slot is 0x1106.
    let code = [0xffu8, 0x15, 0, 1, 0, 0];
    let data = [0u8; 0x10];
    let segs = vec![segment(0x1000, &code, true), segment(0x1100, &data, false)];
    let idx = SegmentIndex::build(&segs);
    let data_idx = SegmentDataIndex::build(&segs);
    let found = |slots: &FxHashSet<u64>| -> Vec<(u64, XrefKind)> {
        scan_segment(Arch::X86_64, Depth::Linear, &segs[0], &idx, &data_idx, slots)
            .iter()
            .map(|x| (x.to.raw(), x.kind))
            .collect()
    };
    let mut slots = FxHashSet::default();
    slots.insert(0x1106);
    assert_eq!(found(&slots), vec![(0x1106, XrefKind::Call), (0x1106, XrefKind::DataRead)]);
    assert_eq!(found(&FxHashSet::default()), vec![(0x1106, XrefKind::DataRead)]);
}

#[test]
fn x86_operands_are_read_or_written() {
    // mov [rip+0xfa], eax ; mov eax, [rip+0xf4] ; lea rax, [rip+0xed]
    let code = [
        0x89u8, 0x05, 0xfa, 0, 0, 0, 0x8b, 0x05, 0xf4, 0, 0, 0, 0x48, 0x8d, 0x05, 0xed, 0, 0, 0,
    ];
    let data = [0u8; 0x10];
    let segs = vec![segment(0x1000, &code, true), segment(0x1100, &data, false)];
    let idx = SegmentIndex::build(&segs);
    let data_idx = SegmentDataIndex::build(&segs);
    let found =
        scan_segment(Arch::X86_64, Depth::Linear, &segs[0], &idx, &data_idx, &FxHashSet::default());
    let kinds: Vec<(u64, u64, XrefKind)> =
        found.iter().map(|x| (x.from.raw(), x.to.raw(), x.kind)).collect();
    assert_eq!(
        kinds,
        vec![
            (0x1000, 0x1100, XrefKind::DataWrite),
            (0x1006, 0x1100, XrefKind::DataRead),
            (0x100c, 0x1100, XrefKind::DataPointer),
        ]
    );
}
