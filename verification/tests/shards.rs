use xr::shard::{split_range, worker_for};

#[test]
fn test_worker_distribution() {
    // Check that ARM64-aligned addresses (multiples of 4) distribute evenly
    let n = 8;
    let mut counts = vec![0usize; n];
    for i in 0..1000u64 {
        let addr = i * 4; // ARM64 aligned
        counts[worker_for(addr, n)] += 1;
    }
    // Each bucket should get roughly 125 ± 50
    for c in &counts {
        assert!(*c > 50, "bucket got only {c} entries — poor distribution");
    }
}

#[test]
fn test_split_range_coverage() {
    let shards = split_range(0x1000, 0x9000, 4, 0x40, 1);
    assert_eq!(shards.len(), 4);
    assert_eq!(shards[0].0, 0x1000);
    assert_eq!(shards[3].1, 0x9000);
    for (s, e) in &shards {
        assert!(e > s, "empty shard: {s:#x}..{e:#x}");
    }
}

#[test]
fn test_split_range_arm64_alignment() {
    // Simulate ARM64: 3097000-byte segment at 0x400000, 14 workers
    let start = 0x400000u64;
    let size = 3097000u64;
    let shards = split_range(start, start + size, 14, 64, 4);
    for (i, (s, _e)) in shards.iter().enumerate() {
        assert_eq!(s % 4, 0, "shard {i} start {s:#x} is not 4-byte aligned");
    }
    // Coverage: first shard starts at segment start
    assert_eq!(shards[0].0, start);
}
