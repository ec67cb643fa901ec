use xr::disasm::DisasmLine;
use xr::output::{
    bytes_to_hex, truncate_middle, ContextLine, CsvPrinter, JsonlPrinter, Printer, TextPrinter,
    XrefRecord,
};
use xr::va::Va;
use xr::xref::{Confidence, XrefKind};

fn record(rust_string: Option<&str>, context: Option<Vec<ContextLine>>) -> XrefRecord {
    XrefRecord {
        from: Va::new(0x40_1000),
        to: Va::new(0xdead_beef),
        kind: XrefKind::DataRead,
        confidence: Confidence::PairResolved,
        context,
        rust_string: rust_string.map(str::to_string),
    }
}

fn printed(p: &dyn Printer, r: &XrefRecord) -> String {
    let mut buf = b"kept".to_vec();
    p.write_record(r, &mut buf);
    let text = String::from_utf8(buf).unwrap();
    text.strip_prefix("kept").unwrap().to_string()
}

#[test]
fn text_of_a_plain_record() {
    assert_eq!(
        printed(&TextPrinter, &record(None, None)),
        "0x0000000000401000 -> 0x00000000deadbeef  data_read  [pair-resolved]\n"
    );
    assert!(TextPrinter.header_bytes().is_empty());
    assert!(TextPrinter.footer_bytes().is_empty());
}

#[test]
fn text_of_a_record_with_everything() {
    let insn = DisasmLine {
        va: 0x40_1000,
        bytes: vec![0x48, 0x8b, 0x05],
        text: "mov rax,[rip]".to_string(),
        is_focus: true,
    };
    let after = DisasmLine { va: 0x40_1003, bytes: vec![0x90; 13], text: "nop".to_string(), is_focus: false };
    let context = vec![ContextLine::from_disasm(&insn), ContextLine::from_disasm(&after)];
    assert_eq!(
        printed(&TextPrinter, &record(Some("a\"b\n\u{1}\u{9f}\\"), Some(context))),
        "0x0000000000401000 -> 0x00000000deadbeef  data_read  [pair-resolved]  \
         \"a\\\"b\\n\\x01\\x9f\\\\\"\n\
         \x20 > 0x0000000000401000  48 8b 05                  mov rax,[rip]\n\
         \x20   0x0000000000401003  90 90 90 90 90 90 90 90 90 90 90 90 90  nop\n\
         \n"
    );
}

#[test]
fn data_context_says_so() {
    let line = ContextLine::data(Va::new(0x2000), &[1, 0xab]);
    assert_eq!(line.hex, "01 ab");
    assert_eq!(line.text, "(data)");
    assert!(line.focus);
}

#[test]
fn csv_of_records() {
    assert_eq!(CsvPrinter.header_bytes(), b"from,to,kind,confidence,string\n");
    assert!(CsvPrinter.footer_bytes().is_empty());
    assert_eq!(
        printed(&CsvPrinter, &record(None, None)),
        "0x401000,0xdeadbeef,data_read,pair-resolved,\n"
    );
    assert_eq!(
        printed(&CsvPrinter, &record(Some("say \"x\", y"), None)),
        "0x401000,0xdeadbeef,data_read,pair-resolved,\"say \"\"x\"\", y\"\n"
    );
}

#[test]
fn json_lines_end_in_one_newline() {
    let mut buf = b"1\n".to_vec();
    JsonlPrinter.write_json(Some(b"{}"), &mut buf);
    JsonlPrinter.write_json(None, &mut buf);
    assert_eq!(buf, b"1\n{}\n{\"error\":\"serialization failed\"}\n");
}

/// An escaped string holds no control character, so that a record is one line.
#[test]
fn escaped_strings_stay_on_one_line() {
    let all: String = (0u32..0x200).filter_map(char::from_u32).collect();
    let text = printed(&TextPrinter, &record(Some(&all), None));
    let body = text.strip_suffix('\n').unwrap();
    assert!(body.chars().all(|c| !c.is_control()));
}

/// A quoted field gives back the string when its quotes are halved.
#[test]
fn quoted_fields_read_back() {
    let s = "\"\"a,\n\"b";
    let text = printed(&CsvPrinter, &record(Some(s), None));
    let field = text.splitn(5, ',').nth(4).unwrap();
    let inner = field.strip_prefix('"').unwrap().strip_suffix("\"\n").unwrap();
    assert_eq!(inner.replace("\"\"", "\""), s);
}

#[test]
fn truncation_keeps_both_ends() {
    assert_eq!(truncate_middle("0123456789", 0), "0123456789");
    assert_eq!(truncate_middle("0123456789", 10), "0123456789");
    let cut = truncate_middle("0123456789", 7);
    assert_eq!(cut.chars().count(), 7);
    assert!(cut.starts_with("0"));
    assert!(cut.ends_with("9"));
}

#[test]
fn hex_has_two_digits_and_a_space() {
    assert_eq!(bytes_to_hex(&[]), "");
    assert_eq!(bytes_to_hex(&[0x00, 0x0f, 0xff]), "00 0f ff");
}
