use xr::rust::{is_string_byte, StringBlob};
use xr::va::Va;

#[test]
fn test_is_string_byte() {
    // Printable ASCII
    assert!(is_string_byte(b'a'));
    assert!(is_string_byte(b'Z'));
    assert!(is_string_byte(b' '));
    assert!(is_string_byte(b'~'));

    // Whitespace
    assert!(is_string_byte(b'\t'));
    assert!(is_string_byte(b'\n'));
    assert!(is_string_byte(b'\r'));

    // UTF-8 continuation bytes
    assert!(is_string_byte(0x80));
    assert!(is_string_byte(0xbf));

    // UTF-8 start bytes
    assert!(is_string_byte(0xc2)); // 2-byte start
    assert!(is_string_byte(0xe0)); // 3-byte start
    assert!(is_string_byte(0xf0)); // 4-byte start

    // Not string bytes
    assert!(!is_string_byte(0x00)); // null
    assert!(!is_string_byte(0x01)); // control
    assert!(!is_string_byte(0x7f)); // DEL
    assert!(!is_string_byte(0xc0)); // overlong 2-byte
    assert!(!is_string_byte(0xc1)); // overlong 2-byte
    assert!(!is_string_byte(0xf5)); // above U+10FFFF
    assert!(!is_string_byte(0xfe)); // invalid
    assert!(!is_string_byte(0xff)); // invalid
}

#[test]
fn test_string_blob_extract() {
    let blob = StringBlob {
        va: Va::new(0x1000),
        data: b"Hello, World!".to_vec(),
    };

    assert_eq!(blob.extract(Va::new(0x1000), 5), Some("Hello"));
    assert_eq!(blob.extract(Va::new(0x1007), 5), Some("World"));
    assert_eq!(blob.extract(Va::new(0x1000), 13), Some("Hello, World!"));

    // Out of bounds
    assert_eq!(blob.extract(Va::new(0x1000), 14), None);
    assert_eq!(blob.extract(Va::new(0x0fff), 5), None);
    assert_eq!(blob.extract(Va::new(0x100d), 1), None);
}

#[test]
fn test_string_blob_contains() {
    let blob = StringBlob {
        va: Va::new(0x1000),
        data: b"test".to_vec(),
    };

    assert!(blob.contains(Va::new(0x1000)));
    assert!(blob.contains(Va::new(0x1003)));
    assert!(!blob.contains(Va::new(0x0fff)));
    assert!(!blob.contains(Va::new(0x1004)));
}
