//! Records of cross-references, and how they are printed.

use crate::disasm::DisasmLine;
use crate::text::{hex_padded, prefixed_hex, push_hex_padded, push_prefixed_hex, put_text};
use crate::va::Va;
use crate::xref::{Confidence, XrefKind};
use vstd::prelude::*;
use vstd::string::StrSliceExecFns;
use vstd::string::StringExecFns;
use vstd::string::StringSliceAdditionalSpecFns;
use vstd::utf8::encode_utf8;

verus! {

/// A text of at most `max_width` characters: as it is where it fits or `max_width`
/// is zero, else its start and end around an ellipsis, the start longer by one
/// where they cannot be even. Too narrow for an ellipsis, only its start.
pub open spec fn truncated(s: Seq<char>, max_width: nat) -> Seq<char> {
    if max_width == 0 || s.len() <= max_width {
        s
    } else if max_width <= 3 {
        s.take(max_width as int)
    } else {
        let room = max_width - 3;
        s.take((room + 1) / 2) + "..."@ + s.skip(s.len() - room / 2)
    }
}

/// Cuts the middle out of a text that is wider than `max_width` characters; zero
/// stands for no limit.
pub fn truncate_middle(s: &str, max_width: usize) -> (r: String)
    ensures
        r@ == truncated(s@, max_width as nat),
{
    if max_width == 0 {
        return String::from_str(s);
    }
    let len: usize = s.unicode_len();
    if len <= max_width {
        return String::from_str(s);
    }
    if max_width <= 3 {
        return String::from_str(s.substring_char(0, max_width));
    }
    let room: usize = max_width - 3;
    let left: usize = room / 2 + room % 2;
    let right: usize = room / 2;
    let mut out = String::from_str(s.substring_char(0, left));
    out.append("...");
    out.append(s.substring_char(len - right, len));
    assert(out@ =~= truncated(s@, max_width as nat));
    out
}

/// A truncated text is no wider than asked for, starts as the text does, and is the
/// text where that fits.
pub proof fn law_truncated(s: Seq<char>, max_width: nat)
    ensures
        max_width > 0 ==> truncated(s, max_width).len() <= max_width,
        max_width > 0 && s.len() >= max_width ==> truncated(s, max_width).len() == max_width,
        s.len() <= max_width || max_width == 0 ==> truncated(s, max_width) == s,
        max_width > 3 && s.len() > max_width ==> {
            let left = (max_width - 3 + 1) / 2;
            let right = (max_width - 3) / 2;
            let t = truncated(s, max_width);
            &&& t.take(left) == s.take(left)
            &&& t.skip(t.len() - right) == s.skip(s.len() - right)
        },
{
    reveal_strlit("...");
    if max_width > 3 && s.len() > max_width {
        let left = (max_width - 3 + 1) / 2;
        let right = (max_width - 3) / 2;
        let t = truncated(s, max_width);
        assert(t.take(left) =~= s.take(left));
        assert(t.skip(t.len() - right) =~= s.skip(s.len() - right));
    }
}

/// Bytes as pairs of hexadecimal digits with spaces between them.
pub open spec fn hex_bytes(bytes: Seq<u8>) -> Seq<char>
    decreases bytes.len(),
{
    if bytes.len() == 0 {
        Seq::empty()
    } else {
        (if bytes.len() == 1 {
            Seq::empty()
        } else {
            hex_bytes(bytes.drop_last()).push(' ')
        }) + hex_padded(bytes.last() as nat, 2)
    }
}

/// Writes bytes as pairs of hexadecimal digits with spaces between them.
pub fn bytes_to_hex(bytes: &[u8]) -> (r: String)
    ensures
        r@ == hex_bytes(bytes@),
{
    let mut s = String::new();
    let mut i: usize = 0;
    while i < bytes.len()
        invariant
            i <= bytes.len(),
            s@ == hex_bytes(bytes@.take(i as int)),
        decreases bytes.len() - i,
    {
        proof {
            assert(bytes@.take(i + 1).drop_last() =~= bytes@.take(i as int));
            assert(bytes@.take(i + 1).last() == bytes@[i as int]);
        }
        if i > 0 {
            s.push(' ');
        }
        push_hex_padded(&mut s, bytes[i] as u64, 2);
        assert(s@ =~= hex_bytes(bytes@.take(i + 1)));
        i = i + 1;
    }
    assert(bytes@.take(i as int) =~= bytes@);
    s
}

/// A line of disassembly or data near a reference.
#[derive(Debug)]
pub struct ContextLine {
    pub va: Va,
    /// The bytes in hexadecimal, such as `48 89 c7`.
    pub hex: String,
    /// The instruction, or `(data)` outside code.
    pub text: String,
    /// Whether it is the line that the reference starts from.
    pub focus: bool,
}

/// What a [`ContextLine`] says.
#[verifier::ext_equal]
pub struct ContextView {
    pub va: Va,
    pub hex: Seq<char>,
    pub text: Seq<char>,
    pub focus: bool,
}

impl View for ContextLine {
    type V = ContextView;

    open spec fn view(&self) -> ContextView {
        ContextView { va: self.va, hex: self.hex@, text: self.text@, focus: self.focus }
    }
}

/// What some lines say.
pub open spec fn context_views(s: Seq<ContextLine>) -> Seq<ContextView> {
    s.map_values(|x: ContextLine| x@)
}

impl ContextLine {
    /// A line of disassembly.
    pub fn from_disasm(line: &DisasmLine) -> (r: ContextLine)
        ensures
            r@ == (ContextView {
                va: Va(line@.va),
                hex: hex_bytes(line@.bytes),
                text: line@.text,
                focus: line@.is_focus,
            }),
    {
        ContextLine {
            va: Va(line.va),
            hex: bytes_to_hex(line.bytes.as_slice()),
            text: line.text.clone(),
            focus: line.is_focus,
        }
    }

    /// A line of data.
    pub fn data(va: Va, raw: &[u8]) -> (r: ContextLine)
        ensures
            r@ == (ContextView { va, hex: hex_bytes(raw@), text: "(data)"@, focus: true }),
    {
        ContextLine { va, hex: bytes_to_hex(raw), text: String::from_str("(data)"), focus: true }
    }
}

/// A cross-reference with what is printed beside it.
#[derive(Debug)]
pub struct XrefRecord {
    pub from: Va,
    pub to: Va,
    pub kind: XrefKind,
    pub confidence: Confidence,
    /// The surroundings of `from`, where they were asked for.
    pub context: Option<Vec<ContextLine>>,
    /// The string literal that `to` points at, where there is one.
    pub rust_string: Option<String>,
}

/// What an [`XrefRecord`] says.
#[verifier::ext_equal]
pub struct RecordView {
    pub from: Va,
    pub to: Va,
    pub kind: XrefKind,
    pub confidence: Confidence,
    pub context: Option<Seq<ContextView>>,
    pub rust_string: Option<Seq<char>>,
}

impl View for XrefRecord {
    type V = RecordView;

    open spec fn view(&self) -> RecordView {
        RecordView {
            from: self.from,
            to: self.to,
            kind: self.kind,
            confidence: self.confidence,
            context: match self.context {
                Some(v) => Some(context_views(v@)),
                None => None,
            },
            rust_string: match self.rust_string {
                Some(s) => Some(s@),
                None => None,
            },
        }
    }
}

/// A format that records are printed in.
pub trait Printer: Send + Sync {
    /// What stands before the first record.
    spec fn head(&self) -> Seq<u8>;

    /// What a record is printed as.
    spec fn printed(&self, record: RecordView) -> Seq<u8>;

    /// What stands behind the last record.
    spec fn foot(&self) -> Seq<u8>;

    /// Bytes to write before the first record.
    fn header_bytes(&self) -> (r: Vec<u8>)
        ensures
            r@ == self.head(),
    ;

    /// Appends a record to a buffer.
    fn write_record(&self, record: &XrefRecord, buf: &mut Vec<u8>)
        ensures
            final(buf)@ == old(buf)@ + self.printed(record@),
    ;

    /// Bytes to write behind the last record.
    fn footer_bytes(&self) -> (r: Vec<u8>)
        ensures
            r@ == self.foot(),
    ;
}

/// Whether a character is a control character.
pub open spec fn is_control(c: char) -> bool {
    c as u32 <= 0x1f || 0x7f <= c as u32 <= 0x9f
}

/// A character as it stands in a quoted text.
pub open spec fn escaped_char(c: char) -> Seq<char> {
    if c == '\n' {
        seq!['\\', 'n']
    } else if c == '\r' {
        seq!['\\', 'r']
    } else if c == '\t' {
        seq!['\\', 't']
    } else if c == '"' {
        seq!['\\', '"']
    } else if c == '\\' {
        seq!['\\', '\\']
    } else if is_control(c) {
        seq!['\\', 'x'] + hex_padded(c as u32 as nat, 2)
    } else {
        seq![c]
    }
}

/// A text as it stands in quotes.
pub open spec fn escaped(s: Seq<char>) -> Seq<char>
    decreases s.len(),
{
    if s.len() == 0 {
        Seq::empty()
    } else {
        escaped(s.drop_last()) + escaped_char(s.last())
    }
}

/// So many spaces.
pub open spec fn spaces(n: nat) -> Seq<char> {
    Seq::new(n, |i: int| ' ')
}

/// How far the hexadecimal column is filled up: to 24 bytes.
pub open spec fn hex_fill(hex: Seq<char>) -> nat {
    let len = encode_utf8(hex).len();
    if len < 24 {
        (24 - len) as nat
    } else {
        0
    }
}

/// A context line in text form.
pub open spec fn context_text(line: ContextView) -> Seq<char> {
    (if line.focus {
        "  > "@
    } else {
        "    "@
    }) + line.va.padded() + "  "@ + line.hex + spaces(hex_fill(line.hex)) + "  "@ + line.text
        + "\n"@
}

/// Several context lines in text form.
pub open spec fn contexts_text(lines: Seq<ContextView>) -> Seq<char>
    decreases lines.len(),
{
    if lines.len() == 0 {
        Seq::empty()
    } else {
        contexts_text(lines.drop_last()) + context_text(lines.last())
    }
}

/// A record in text form: one line, then its context and an empty line.
pub open spec fn record_text(r: RecordView) -> Seq<char> {
    r.from.padded() + " -> "@ + r.to.padded() + "  "@ + r.kind.label() + "  ["@
        + r.confidence.label() + "]"@ + (match r.rust_string {
        Some(s) => "  \""@ + escaped(s) + "\""@,
        None => Seq::empty(),
    }) + "\n"@ + (match r.context {
        Some(lines) => contexts_text(lines) + "\n"@,
        None => Seq::empty(),
    })
}

/// Appends a text as it stands in quotes.
fn push_escaped(out: &mut String, s: &str)
    ensures
        final(out)@ == old(out)@ + escaped(s@),
{
    let ghost start = out@;
    assert(start + escaped(s@.take(0)) =~= start);
    for c in it: s.chars()
        invariant
            it.seq() == s@,
            out@ == start + escaped(s@.take(it.index() as int)),
    {
        let ghost before = out@;
        let ghost k = it.index() as int;
        proof {
            assert(s@.take(k + 1).drop_last() =~= s@.take(k));
            assert(s@.take(k + 1).last() == c);
        }
        if c == '\n' {
            out.push('\\');
            out.push('n');
        } else if c == '\r' {
            out.push('\\');
            out.push('r');
        } else if c == '\t' {
            out.push('\\');
            out.push('t');
        } else if c == '"' {
            out.push('\\');
            out.push('"');
        } else if c == '\\' {
            out.push('\\');
            out.push('\\');
        } else if c as u32 <= 0x1f || (0x7f <= c as u32 && c as u32 <= 0x9f) {
            out.push('\\');
            out.push('x');
            push_hex_padded(out, c as u32 as u64, 2);
        } else {
            out.push(c);
        }
        assert(out@ =~= before + escaped_char(c));
        assert(out@ =~= start + escaped(s@.take(k + 1)));
    }
    assert(s@.take(s@.len() as int) =~= s@);
}

/// Appends a context line in text form.
fn push_context(out: &mut String, line: &ContextLine)
    ensures
        final(out)@ == old(out)@ + context_text(line@),
{
    let ghost start = out@;
    if line.focus {
        out.append("  > ");
    } else {
        out.append("    ");
    }
    line.va.push_padded(out);
    out.append("  ");
    out.append(line.hex.as_str());
    let len: usize = line.hex.as_str().as_bytes().len();
    let fill: usize = if len < 24 {
        24 - len
    } else {
        0
    };
    let ghost before = out@;
    let mut i: usize = 0;
    while i < fill
        invariant
            i <= fill,
            out@ == before + spaces(i as nat),
        decreases fill - i,
    {
        out.push(' ');
        i = i + 1;
        assert(out@ =~= before + spaces(i as nat));
    }
    out.append("  ");
    out.append(line.text.as_str());
    out.append("\n");
    assert(out@ =~= start + context_text(line@));
}

/// Prints records as text.
pub struct TextPrinter;

impl Printer for TextPrinter {
    open spec fn head(&self) -> Seq<u8> {
        Seq::empty()
    }

    open spec fn printed(&self, record: RecordView) -> Seq<u8> {
        encode_utf8(record_text(record))
    }

    open spec fn foot(&self) -> Seq<u8> {
        Seq::empty()
    }

    fn header_bytes(&self) -> (r: Vec<u8>) {
        Vec::new()
    }

    fn write_record(&self, record: &XrefRecord, buf: &mut Vec<u8>) {
        let mut out = String::new();
        record.from.push_padded(&mut out);
        out.append(" -> ");
        record.to.push_padded(&mut out);
        out.append("  ");
        out.append(record.kind.name());
        out.append("  [");
        out.append(record.confidence.name());
        out.append("]");
        match &record.rust_string {
            Some(s) => {
                out.append("  \"");
                push_escaped(&mut out, s.as_str());
                out.append("\"");
            },
            None => {},
        }
        out.append("\n");
        match &record.context {
            Some(lines) => {
                let ghost start = out@;
                let ghost all = context_views(lines@);
                let mut i: usize = 0;
                assert(start + contexts_text(all.take(0)) =~= start);
                while i < lines.len()
                    invariant
                        i <= lines@.len(),
                        all == context_views(lines@),
                        out@ == start + contexts_text(all.take(i as int)),
                    decreases lines@.len() - i,
                {
                    proof {
                        assert(all.take(i + 1).drop_last() =~= all.take(i as int));
                        assert(all.take(i + 1).last() == lines@[i as int]@);
                    }
                    push_context(&mut out, &lines[i]);
                    i = i + 1;
                    assert(out@ =~= start + contexts_text(all.take(i as int)));
                }
                assert(all.take(i as int) =~= all);
                out.append("\n");
            },
            None => {},
        }
        assert(out@ =~= record_text(record@));
        put_text(buf, out.as_str());
    }

    fn footer_bytes(&self) -> (r: Vec<u8>) {
        Vec::new()
    }
}

/// What stands for a record that cannot be serialised.
pub open spec fn jsonl_placeholder() -> Seq<char> {
    "{\"error\":\"serialization failed\"}"@
}

/// Prints records as JSON Lines: one object on each line, without commas or
/// brackets around them.
pub struct JsonlPrinter;

impl JsonlPrinter {
    /// What a record is printed as, given its JSON; a placeholder stands for a record
    /// that cannot be serialised, so that no line is missing.
    pub open spec fn line(json: Option<Seq<u8>>) -> Seq<u8> {
        (match json {
            Some(bytes) => bytes,
            None => encode_utf8(jsonl_placeholder()),
        }).push(0x0a)
    }

    /// Appends the JSON of a record as a line.
    pub fn write_json(&self, json: Option<&[u8]>, buf: &mut Vec<u8>)
        ensures
            final(buf)@ == old(buf)@ + Self::line(
                match json {
                    Some(b) => Some(b@),
                    None => None,
                },
            ),
    {
        match json {
            Some(b) => {
                buf.extend_from_slice(b);
                assert(buf@ =~= old(buf)@ + b@);
            },
            None => {
                put_text(buf, "{\"error\":\"serialization failed\"}");
            },
        }
        buf.push(0x0a);
        assert(buf@ =~= old(buf)@ + Self::line(
            match json {
                Some(b) => Some(b@),
                None => None,
            },
        ));
    }
}

/// A text with every quote doubled.
pub open spec fn doubled_quotes(s: Seq<char>) -> Seq<char>
    decreases s.len(),
{
    if s.len() == 0 {
        Seq::empty()
    } else if s.last() == '"' {
        doubled_quotes(s.drop_last()) + seq!['"', '"']
    } else {
        doubled_quotes(s.drop_last()).push(s.last())
    }
}

/// The string field of a record: quoted, and empty where there is none.
pub open spec fn csv_string(s: Option<Seq<char>>) -> Seq<char> {
    match s {
        Some(s) => "\""@ + doubled_quotes(s) + "\""@,
        None => Seq::empty(),
    }
}

/// A record as a line of comma-separated values.
pub open spec fn csv_text(r: RecordView) -> Seq<char> {
    prefixed_hex(r.from.0 as nat) + ","@ + prefixed_hex(r.to.0 as nat) + ","@ + r.kind.label()
        + ","@ + r.confidence.label() + ","@ + csv_string(r.rust_string) + "\n"@
}

/// Appends a text with every quote doubled.
fn push_doubled(out: &mut String, s: &str)
    ensures
        final(out)@ == old(out)@ + doubled_quotes(s@),
{
    let ghost start = out@;
    assert(start + doubled_quotes(s@.take(0)) =~= start);
    for c in it: s.chars()
        invariant
            it.seq() == s@,
            out@ == start + doubled_quotes(s@.take(it.index() as int)),
    {
        let ghost k = it.index() as int;
        proof {
            assert(s@.take(k + 1).drop_last() =~= s@.take(k));
            assert(s@.take(k + 1).last() == c);
        }
        if c == '"' {
            out.push('"');
        }
        out.push(c);
        assert(out@ =~= start + doubled_quotes(s@.take(k + 1)));
    }
    assert(s@.take(s@.len() as int) =~= s@);
}

/// Prints records as comma-separated values.
pub struct CsvPrinter;

impl Printer for CsvPrinter {
    open spec fn head(&self) -> Seq<u8> {
        encode_utf8("from,to,kind,confidence,string\n"@)
    }

    open spec fn printed(&self, record: RecordView) -> Seq<u8> {
        encode_utf8(csv_text(record))
    }

    open spec fn foot(&self) -> Seq<u8> {
        Seq::empty()
    }

    fn header_bytes(&self) -> (r: Vec<u8>) {
        let mut v: Vec<u8> = Vec::new();
        put_text(&mut v, "from,to,kind,confidence,string\n");
        assert(v@ =~= self.head());
        v
    }

    fn write_record(&self, record: &XrefRecord, buf: &mut Vec<u8>) {
        let mut out = String::new();
        push_prefixed_hex(&mut out, record.from.0);
        out.append(",");
        push_prefixed_hex(&mut out, record.to.0);
        out.append(",");
        out.append(record.kind.name());
        out.append(",");
        out.append(record.confidence.name());
        out.append(",");
        match &record.rust_string {
            Some(s) => {
                out.append("\"");
                push_doubled(&mut out, s.as_str());
                out.append("\"");
            },
            None => {},
        }
        out.append("\n");
        assert(out@ =~= csv_text(record@));
        put_text(buf, out.as_str());
    }

    fn footer_bytes(&self) -> (r: Vec<u8>) {
        Vec::new()
    }
}

proof fn lemma_hex_padded_plain(n: nat, width: nat)
    ensures
        hex_padded(n, width).len() == width,
        forall|i: int| 0 <= i < width ==> !is_control(#[trigger] hex_padded(n, width)[i]),
    decreases width,
{
    if width > 0 {
        lemma_hex_padded_plain(n / 16, (width - 1) as nat);
    }
}

/// A text in quotes holds no control character: a record without context is a
/// single line.
pub proof fn law_escaped_is_one_line(s: Seq<char>)
    ensures
        forall|i: int| 0 <= i < escaped(s).len() ==> !is_control(#[trigger] escaped(s)[i]),
    decreases s.len(),
{
    if s.len() > 0 {
        law_escaped_is_one_line(s.drop_last());
        let c = s.last();
        lemma_hex_padded_plain(c as u32 as nat, 2);
        let e = escaped_char(c);
        assert forall|i: int| 0 <= i < e.len() implies !is_control(#[trigger] e[i]) by {
            if i >= 2 {
                assert(e[i] == hex_padded(c as u32 as nat, 2)[i - 2]);
            }
        }
        let before = escaped(s.drop_last());
        assert forall|i: int| 0 <= i < escaped(s).len() implies !is_control(
            #[trigger] escaped(s)[i],
        ) by {
            if i < before.len() {
                assert(escaped(s)[i] == before[i]);
            } else {
                assert(escaped(s)[i] == e[i - before.len()]);
            }
        }
    }
}

/// A text with every doubled quote made single.
pub open spec fn single_quotes(t: Seq<char>) -> Seq<char>
    decreases t.len(),
{
    if t.len() == 0 {
        Seq::empty()
    } else if t.len() >= 2 && t[t.len() - 1] == '"' && t[t.len() - 2] == '"' {
        single_quotes(t.take(t.len() - 2)).push('"')
    } else {
        single_quotes(t.drop_last()).push(t.last())
    }
}

/// The string field of a line of comma-separated values reads back as the string.
pub proof fn law_csv_string_reads_back(s: Seq<char>)
    ensures
        single_quotes(doubled_quotes(s)) == s,
        csv_string(Some(s)).len() == doubled_quotes(s).len() + 2,
        csv_string(Some(s)).subrange(1, 1int + doubled_quotes(s).len()) == doubled_quotes(s),
    decreases s.len(),
{
    reveal_strlit("\"");
    let d = doubled_quotes(s);
    assert(csv_string(Some(s)).subrange(1, 1int + d.len()) =~= d);
    if s.len() > 0 {
        law_csv_string_reads_back(s.drop_last());
        let before = doubled_quotes(s.drop_last());
        if s.last() == '"' {
            assert(d.take(d.len() - 2) =~= before);
        } else {
            assert(d.drop_last() =~= before);
        }
        assert(s.drop_last().push(s.last()) =~= s);
    }
}

} // verus!
