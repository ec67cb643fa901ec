use xr::output::truncate_middle;

#[test]
fn test_truncate_middle_no_truncation_needed() {
    assert_eq!(truncate_middle("short", 80), "short");
    assert_eq!(truncate_middle("exactly80chars", 80), "exactly80chars");
}

#[test]
fn test_truncate_middle_zero_means_unlimited() {
    let long = "a".repeat(200);
    assert_eq!(truncate_middle(&long, 0), long);
}

#[test]
fn test_truncate_middle_basic() {
    let s = "abcdefghijklmnopqrstuvwxyz"; // 26 chars
    let result = truncate_middle(s, 10);
    assert_eq!(result.len(), 10);
    assert!(result.contains("..."));
    assert_eq!(result, "abcd...xyz");
}

#[test]
fn test_truncate_middle_path() {
    let path = "/Users/babush/.cargo/registry/src/index.crates.io-1949cf8c6b5b557f/anstream-0.6.21/src/adapter/strip.rs";
    let result = truncate_middle(path, 80);
    assert_eq!(result.len(), 80);
    assert!(result.starts_with("/Users/babush"));
    assert!(result.ends_with("strip.rs"));
    assert!(result.contains("..."));
}

#[test]
fn test_truncate_middle_very_short_max() {
    // max_width=5 with 10-char string: 1 left + "..." + 1 right
    assert_eq!(truncate_middle("abcdefghij", 5), "a...j");
    // max_width=4: 1 left + "..." + 0 right (available=1, ceil(1/2)=1, floor=0)
    assert_eq!(truncate_middle("abcdefghij", 4), "a...");
    // max_width <= 3: just take first chars (no room for ellipsis + content)
    assert_eq!(truncate_middle("abcdefghij", 3), "abc");
    assert_eq!(truncate_middle("abcdefghij", 1), "a");
}

#[test]
fn test_truncate_middle_unicode() {
    let s = "café résumé naïve"; // contains multi-byte chars
    let result = truncate_middle(s, 12);
    assert!(result.chars().count() <= 12);
    assert!(result.contains("..."));
}
