//! Disassembly of the surroundings of an address.
//!
//! The result is a window of instructions around the one in focus, as `grep -A -B`
//! gives lines around a match.

use crate::arch::x86_insn::{decode_next, format_insn, open_decoder, x86_decoded, x86_text};
use crate::bytes::{le32, read_u32_le};
use crate::loader::{
    first_covering, lemma_first_covering, lemma_first_covering_at, segment_views, Arch, DecodeMode,
    Segment, SegmentView,
};
use crate::text::{hex_padded, push_hex_padded};
use crate::va::{wrap64, Va};
use vstd::prelude::*;
use vstd::slice::slice_to_vec;
use vstd::string::StringExecFns;

verus! {

/// Most bytes of an x86 instruction.
pub const MAX_X86_INSN: usize = 15;

/// One disassembled instruction.
#[derive(Debug)]
pub struct DisasmLine {
    pub va: u64,
    pub bytes: Vec<u8>,
    pub text: String,
    /// Whether it is the instruction that was asked for.
    pub is_focus: bool,
}

/// What a [`DisasmLine`] says.
#[verifier::ext_equal]
pub struct LineView {
    pub va: u64,
    pub bytes: Seq<u8>,
    pub text: Seq<char>,
    pub is_focus: bool,
}

impl View for DisasmLine {
    type V = LineView;

    open spec fn view(&self) -> LineView {
        LineView {
            va: self.va,
            bytes: self.bytes@,
            text: self.text@,
            is_focus: self.is_focus,
        }
    }
}

/// What some lines say.
pub open spec fn line_views(s: Seq<DisasmLine>) -> Seq<LineView> {
    s.map_values(|x: DisasmLine| x@)
}

/// The code of a segment, with the operating mode to decode it in.
#[verifier::ext_equal]
pub struct CodeModel {
    pub data: Seq<u8>,
    pub base: u64,
    pub bits: u32,
}

/// The code of an x86 segment.
pub open spec fn x86_code(s: SegmentView) -> CodeModel {
    CodeModel {
        data: s.data,
        base: s.va.0,
        bits: if s.mode == DecodeMode::Default {
            64
        } else {
            32
        },
    }
}

impl CodeModel {
    /// The bytes from a position on, no more than `most`.
    pub open spec fn slice(self, at: int, most: int) -> Seq<u8> {
        self.data.subrange(at, if at + most < self.data.len() {
            at + most
        } else {
            self.data.len() as int
        })
    }

    /// The line for the first instruction of a slice that starts at `at`.
    pub open spec fn line(self, code: Seq<u8>, at: int, len: int, is_focus: bool) -> LineView {
        let va = wrap64(self.base + at);
        LineView {
            va,
            bytes: code.subrange(0, len),
            text: x86_text(self.bits, code, va, false, true),
            is_focus,
        }
    }
}

/// The bytes of the first instruction of some code at an address; zero where there
/// is none.
pub open spec fn insn_len(bits: u32, code: Seq<u8>, ip: u64) -> int {
    let len = x86_decoded(bits, code, ip).len as int;
    if code.len() > 0 && 1 <= len <= code.len() {
        len
    } else {
        0
    }
}

/// The lines of up to `n` instructions of a slice that starts at `at`, from `pos`
/// in it on. The one at its start is in focus.
pub open spec fn lines_from(m: CodeModel, code: Seq<u8>, at: int, pos: int, n: int) -> Seq<LineView>
    decreases n,
{
    if n <= 0 || pos < 0 || pos > code.len() {
        Seq::empty()
    } else {
        let rest = code.skip(pos);
        let len = insn_len(m.bits, rest, wrap64(m.base + at + pos));
        if len == 0 {
            Seq::empty()
        } else {
            seq![m.line(rest, at + pos, len, pos == 0)] + lines_from(m, code, at, pos + len, n - 1)
        }
    }
}

/// The greatest number of bytes, up to `most`, of an instruction that ends exactly
/// at a position; zero where there is none.
pub open spec fn longest_before(m: CodeModel, end: int, most: int) -> int
    decreases most,
{
    if most <= 0 {
        0
    } else {
        let at = end - most;
        if insn_len(m.bits, m.slice(at, MAX_X86_INSN as int), wrap64(m.base + at)) == most {
            most
        } else {
            longest_before(m, end, most - 1)
        }
    }
}

/// The lines of up to `n` instructions that end exactly at a position. Each is
/// taken as long as it can be: a short one may be the tail of a longer.
pub open spec fn lines_before(m: CodeModel, end: int, n: int) -> Seq<LineView>
    decreases n,
{
    if n <= 0 || end <= 0 {
        Seq::empty()
    } else {
        let len = longest_before(m, end, if end < MAX_X86_INSN {
            end
        } else {
            MAX_X86_INSN as int
        });
        if len == 0 {
            Seq::empty()
        } else {
            let at = end - len;
            lines_before(m, at, n - 1).push(
                m.line(m.slice(at, MAX_X86_INSN as int), at, len, false),
            )
        }
    }
}

/// The window around the instruction at a position of an x86 segment.
pub open spec fn x86_window(m: CodeModel, at: int, before: int, after: int) -> Seq<LineView> {
    lines_before(m, at, before) + lines_from(
        m,
        m.slice(at, (after + 2) * MAX_X86_INSN),
        at,
        0,
        after + 1,
    )
}

/// Decodes one instruction, giving its length.
fn decode_len(bits: u32, code: &[u8], ip: u64) -> (r: usize)
    requires
        bits == 32 || bits == 64,
    ensures
        r == insn_len(bits, code@, ip),
        r <= code@.len(),
        code@.len() > 0 ==> r > 0,
{
    if code.len() == 0 {
        return 0;
    }
    let mut decoder = open_decoder(bits, code, ip);
    let insn = decode_next(&mut decoder);
    insn.len
}

/// The line for the first instruction of a slice.
fn make_line(bits: u32, code: &[u8], va: u64, len: usize, is_focus: bool) -> (r: DisasmLine)
    requires
        bits == 32 || bits == 64,
        0 < len <= code@.len(),
    ensures
        r@ == (LineView {
            va,
            bytes: code@.subrange(0, len as int),
            text: x86_text(bits, code@, va, false, true),
            is_focus,
        }),
{
    let line = DisasmLine {
        va,
        bytes: slice_to_vec(&code[0..len]),
        text: format_insn(bits, code, va, false, true),
        is_focus,
    };
    line
}

/// The bytes from a position on, no more than `most`.
fn slice_at(data: &[u8], at: usize, most: usize) -> (r: &[u8])
    requires
        at <= data.len(),
    ensures
        forall|m: CodeModel|
            #![trigger m.slice(at as int, most as int)]
            m.data == data@ ==> r@ == m.slice(at as int, most as int),
{
    let total: usize = data.len();
    if most < total - at {
        &data[at..at + most]
    } else {
        &data[at..total]
    }
}

/// Whether the line of an address is among some lines, in focus.
pub open spec fn has_focus(lines: Seq<LineView>, va: u64) -> bool {
    exists|i: int| 0 <= i < lines.len() && (#[trigger] lines[i]).is_focus && lines[i].va == va
}

/// Disassembles the surroundings of an address in an x86 segment.
///
/// What follows is decoded from the address on. What precedes is found going back,
/// each time by the longest instruction that ends where the next one starts. The
/// instruction at the address itself is always there.
pub fn disasm_x86(seg: &Segment<'_>, focus_va: u64, before: usize, after: usize) -> (r: Vec<
    DisasmLine,
>)
    requires
        seg@.va.0 <= focus_va < seg@.va.0 + seg@.data.len(),
        after < usize::MAX,
    ensures
        line_views(r@) == x86_window(
            x86_code(seg@),
            focus_va - seg@.va.0,
            before as int,
            after as int,
        ),
        has_focus(line_views(r@), focus_va),
{
    let ghost m = x86_code(seg@);
    let bits: u32 = if seg.mode == DecodeMode::Default {
        64
    } else {
        32
    };
    let data = seg.data();
    let total: usize = data.len();
    let at: usize = (focus_va - seg.va.0) as usize;
    // What precedes, nearest first.
    let mut nearest: Vec<DisasmLine> = Vec::new();
    let mut end: usize = at;
    let mut n: usize = before;
    while n > 0 && end > 0
        invariant_except_break
            n <= before,
            lines_before(m, at as int, before as int) =~= lines_before(m, end as int, n as int)
                + line_views(nearest@).reverse(),
        invariant
            m == x86_code(seg@),
            bits == m.bits,
            bits == 32 || bits == 64,
            data@ == seg@.data,
            total == data.len(),
            end <= at <= total,
        ensures
            lines_before(m, at as int, before as int) =~= line_views(nearest@).reverse(),
        decreases n,
    {
        let most: usize = if end < MAX_X86_INSN {
            end
        } else {
            MAX_X86_INSN
        };
        let mut len: usize = most;
        let mut found: usize = 0;
        while len > 0 && found == 0
            invariant
                len <= most <= end,
                most <= MAX_X86_INSN,
                m == x86_code(seg@),
                bits == m.bits,
                bits == 32 || bits == 64,
                data@ == seg@.data,
                end <= data.len(),
                found == 0 ==> longest_before(m, end as int, most as int) == longest_before(
                    m,
                    end as int,
                    len as int,
                ),
                found != 0 ==> found <= end && longest_before(m, end as int, most as int) == found,
            decreases len + (if found == 0 {
                1int
            } else {
                0
            }),
        {
            let probe: usize = end - len;
            let code = slice_at(data, probe, MAX_X86_INSN);
            let ghost slice = m.slice(probe as int, MAX_X86_INSN as int);
            assert(code@ == slice);
            if decode_len(bits, code, (seg.va + probe as u64).0) == len {
                found = len;
            } else {
                len = len - 1;
            }
        }
        if found == 0 {
            assert(lines_before(m, end as int, n as int) =~= Seq::empty());
            break ;
        }
        let probe: usize = end - found;
        let code = slice_at(data, probe, MAX_X86_INSN);
        let va: u64 = (seg.va + probe as u64).0;
        proof {
            let slice = m.slice(probe as int, MAX_X86_INSN as int);
            assert(code@ == slice);
            lemma_longest(m, end as int, most as int);
        }
        let line = make_line(bits, code, va, found, false);
        let ghost prior = nearest@;
        nearest.push(line);
        proof {
            let shorter = lines_before(m, probe as int, n - 1);
            assert(lines_before(m, end as int, n as int) == shorter.push(line@));
            assert(line_views(nearest@) =~= line_views(prior).push(line@));
            assert(line_views(nearest@).reverse() =~= seq![line@] + line_views(prior).reverse());
            assert(shorter.push(line@) + line_views(prior).reverse() =~= shorter + line_views(
                nearest@,
            ).reverse());
        }
        end = probe;
        n = n - 1;
        assert((n == 0 || end == 0) ==> lines_before(m, end as int, n as int) =~= Seq::empty());
    }
    let mut out: Vec<DisasmLine> = Vec::new();
    let ghost wanted = line_views(nearest@).reverse();
    while nearest.len() > 0
        invariant
            wanted =~= line_views(out@) + line_views(nearest@).reverse(),
        decreases nearest@.len(),
    {
        let ghost left = nearest@;
        let ghost done = out@;
        match nearest.pop() {
            Some(line) => {
                out.push(line);
                proof {
                    assert(left =~= nearest@.push(line));
                    assert(line_views(left) =~= line_views(nearest@).push(line@));
                    assert(line_views(left).reverse() =~= seq![line@] + line_views(
                        nearest@,
                    ).reverse());
                    assert(line_views(out@) =~= line_views(done).push(line@));
                }
            },
            None => {},
        }
    }
    assert(line_views(out@) =~= wanted);
    // The instruction in focus, and what follows.
    let most: usize = if after + 1 >= total {
        total
    } else if (after + 2) as u128 * MAX_X86_INSN as u128 >= total as u128 {
        total
    } else {
        (after + 2) * MAX_X86_INSN
    };
    let code = slice_at(data, at, most);
    let ghost slice = m.slice(at as int, (after + 2) * MAX_X86_INSN);
    proof {
        assert(m.slice(at as int, most as int) == slice);
    }
    let ghost start = line_views(out@);
    let ghost full = lines_from(m, slice, at as int, 0, after + 1);
    assert(code.len() > 0);
    let mut pos: usize = 0;
    let mut n: usize = after + 1;
    while n > 0 && pos < code.len()
        invariant
            m == x86_code(seg@),
            bits == m.bits,
            bits == 32 || bits == 64,
            m.base == seg.va.0,
            at + code.len() <= total,
            total <= usize::MAX,
            code@ == slice,
            pos <= code.len(),
            focus_va == seg.va.0 + at,
            code.len() > 0,
            pos == 0 ==> n > 0,
            pos > 0 ==> start.len() < out@.len() && line_views(out@)[start.len() as int].is_focus
                && line_views(out@)[start.len() as int].va == focus_va,
            start.len() <= out@.len(),
            pos == 0 ==> start.len() == out@.len(),
            full == lines_from(m, slice, at as int, 0, after + 1),
            line_views(out@) + lines_from(m, slice, at as int, pos as int, n as int) == start
                + full,
        decreases n,
    {
        let rest = &code[pos..code.len()];
        assert(rest@ =~= slice.skip(pos as int));
        let va: u64 = (seg.va + (at + pos) as u64).0;
        let len: usize = decode_len(bits, rest, va);
        let line = make_line(bits, rest, va, len, pos == 0);
        let ghost prior = out@;
        out.push(line);
        proof {
            let rest_lines = lines_from(m, slice, at as int, pos + len, n - 1);
            assert(line@ == m.line(slice.skip(pos as int), at + pos, len as int, pos == 0));
            assert(line_views(out@) =~= line_views(prior).push(line@));
            assert(line_views(prior) + (seq![line@] + rest_lines) =~= line_views(out@)
                + rest_lines);
        }
        pos = pos + len;
        n = n - 1;
    }
    proof {
        assert(lines_from(m, slice, at as int, pos as int, n as int) =~= Seq::empty()) by {
            if n > 0 {
                assert(slice.skip(pos as int).len() == 0);
            }
        }
        assert(line_views(out@) + Seq::<LineView>::empty() =~= line_views(out@));
        assert(line_views(out@)[start.len() as int].is_focus);
    }
    out
}

/// What the longest instruction is.
proof fn lemma_longest(m: CodeModel, end: int, most: int)
    requires
        most >= 0,
    ensures
        0 <= longest_before(m, end, most) <= most,
        longest_before(m, end, most) > 0 ==> insn_len(
            m.bits,
            m.slice(end - longest_before(m, end, most), MAX_X86_INSN as int),
            wrap64(m.base + end - longest_before(m, end, most)),
        ) == longest_before(m, end, most),
    decreases most,
{
    if most > 0 {
        lemma_longest(m, end, most - 1);
    }
}

/// An AArch64 instruction word to disassemble.
#[derive(Clone, Copy, Debug, PartialEq, Eq, Structural)]
pub struct Arm64Word {
    pub va: u64,
    pub word: u32,
}

/// Where in an AArch64 segment the words around a position start.
pub open spec fn words_start(at: int, before: int) -> int {
    let back = if at > before * 4 {
        at - before * 4
    } else {
        0
    };
    back - back % 4
}

/// How many words there are around a position.
pub open spec fn words_count(s: SegmentView, at: int, before: int, after: int) -> int {
    let start = words_start(at, before);
    let end = start + (before + 1 + after) * 4;
    ((if end < s.data.len() {
        end
    } else {
        s.data.len() as int
    }) - start) / 4
}

/// The words around an address of an AArch64 segment.
pub open spec fn words_around(s: SegmentView, focus: u64, before: int, after: int) -> Seq<
    Arm64Word,
> {
    let at = focus - s.va.0;
    let start = words_start(at, before);
    Seq::new(
        words_count(s, at, before, after) as nat,
        |i: int|
            Arm64Word {
                va: wrap64(s.va.0 + start + 4 * i),
                word: le32(s.data, start + 4 * i) as u32,
            },
    )
}

/// The words to disassemble for the surroundings of an address in an AArch64
/// segment.
pub fn arm64_words(seg: &Segment<'_>, focus_va: u64, before: usize, after: usize) -> (r: Vec<
    Arm64Word,
>)
    requires
        seg@.va.0 <= focus_va < seg@.va.0 + seg@.data.len(),
    ensures
        r@ == words_around(seg@, focus_va, before as int, after as int),
{
    let data = seg.data();
    let total: usize = data.len();
    let at: usize = (focus_va - seg.va.0) as usize;
    let back: usize = if before < at / 4 + 1 && at > before * 4 {
        at - before * 4
    } else {
        0
    };
    let start: usize = back - back % 4;
    let wanted: u128 = before as u128 + 1 + after as u128;
    let room: usize = (total - start) / 4;
    let count: usize = if wanted < room as u128 {
        wanted as usize
    } else {
        room
    };
    proof {
        assert(start == words_start(at as int, before as int));
        assert(count == words_count(seg@, at as int, before as int, after as int));
    }
    let mut out: Vec<Arm64Word> = Vec::new();
    let mut i: usize = 0;
    while i < count
        invariant
            i <= count,
            start + 4 * count <= total,
            total == data.len(),
            data@ == seg@.data,
            start == words_start(focus_va - seg@.va.0, before as int),
            count == words_count(seg@, focus_va - seg@.va.0, before as int, after as int),
            out@.len() == i,
            forall|j: int|
                0 <= j < i ==> #[trigger] out@[j] == words_around(
                    seg@,
                    focus_va,
                    before as int,
                    after as int,
                )[j],
        decreases count - i,
    {
        let offset: usize = start + 4 * i;
        let word: u32 = read_u32_le(data, offset);
        out.push(Arm64Word { va: (seg.va + offset as u64).0, word });
        i = i + 1;
    }
    assert(out@ =~= words_around(seg@, focus_va, before as int, after as int));
    out
}

/// The bytes of an instruction word in memory.
pub open spec fn word_bytes(word: u32) -> Seq<u8> {
    seq![
        (word % 0x100) as u8,
        ((word / 0x100) % 0x100) as u8,
        ((word / 0x1_0000) % 0x100) as u8,
        (word / 0x100_0000) as u8,
    ]
}

/// The text of the `i`-th word: the one given, or the word in hexadecimal where
/// none is.
pub open spec fn word_text(texts: Seq<Option<String>>, i: int, word: u32) -> Seq<char> {
    if 0 <= i < texts.len() && texts[i] is Some {
        texts[i].unwrap()@
    } else {
        ".word 0x"@ + hex_padded(word as nat, 8)
    }
}

/// The line of the `i`-th word.
pub open spec fn word_line(
    words: Seq<Arm64Word>,
    texts: Seq<Option<String>>,
    focus: u64,
    i: int,
) -> LineView {
    LineView {
        va: words[i].va,
        bytes: word_bytes(words[i].word),
        text: word_text(texts, i, words[i].word),
        is_focus: words[i].va == focus,
    }
}

/// The index of the first word from the `i`-th on that is at an address.
pub open spec fn word_at(words: Seq<Arm64Word>, va: u64, i: int) -> Option<int>
    decreases words.len() - i,
{
    if i < 0 || i >= words.len() {
        None
    } else if words[i].va == va {
        Some(i)
    } else {
        word_at(words, va, i + 1)
    }
}

/// The lines of up to `before` words before the one in focus, of it, and of up to
/// `after` words after it; none where no word is in focus.
pub open spec fn word_window(
    words: Seq<Arm64Word>,
    texts: Seq<Option<String>>,
    focus: u64,
    before: int,
    after: int,
) -> Seq<LineView> {
    match word_at(words, focus, 0) {
        Some(i) => {
            let start = if i > before {
                i - before
            } else {
                0
            };
            let end = if i + after + 1 < words.len() {
                i + after + 1
            } else {
                words.len() as int
            };
            Seq::new((end - start) as nat, |j: int| word_line(words, texts, focus, start + j))
        },
        None => Seq::empty(),
    }
}

/// The line of the `i`-th word.
fn make_word_line(words: &Vec<Arm64Word>, texts: &Vec<Option<String>>, focus_va: u64, i: usize)
    -> (r: DisasmLine)
    requires
        i < words@.len(),
    ensures
        r@ == word_line(words@, texts@, focus_va, i as int),
{
    let w = words[i];
    let mut bytes: Vec<u8> = Vec::new();
    bytes.push((w.word % 0x100) as u8);
    bytes.push(((w.word / 0x100) % 0x100) as u8);
    bytes.push(((w.word / 0x1_0000) % 0x100) as u8);
    bytes.push((w.word / 0x100_0000) as u8);
    assert(bytes@ =~= word_bytes(w.word));
    let given: Option<String> = if i < texts.len() {
        match &texts[i] {
            Some(t) => Some(t.clone()),
            None => None,
        }
    } else {
        None
    };
    let text: String = match given {
        Some(t) => t,
        None => {
            let mut t = String::from_str(".word 0x");
            push_hex_padded(&mut t, w.word as u64, 8);
            t
        },
    };
    let line = DisasmLine { va: w.va, bytes, text, is_focus: w.va == focus_va };
    assert(line@ =~= word_line(words@, texts@, focus_va, i as int));
    line
}

/// Makes the window of lines out of words and their texts.
pub fn build_window(
    words: &Vec<Arm64Word>,
    texts: &Vec<Option<String>>,
    focus_va: u64,
    before: usize,
    after: usize,
) -> (r: Vec<DisasmLine>)
    ensures
        line_views(r@) == word_window(
            words@,
            texts@,
            focus_va,
            before as int,
            after as int,
        ),
{
    let mut out: Vec<DisasmLine> = Vec::new();
    let total: usize = words.len();
    let mut focus: usize = 0;
    while focus < total && words[focus].va != focus_va
        invariant
            focus <= total,
            total == words@.len(),
            word_at(words@, focus_va, 0) == word_at(words@, focus_va, focus as int),
        decreases total - focus,
    {
        focus = focus + 1;
    }
    if focus >= total {
        assert(line_views(out@) =~= Seq::empty());
        return out;
    }
    let start: usize = if focus > before {
        focus - before
    } else {
        0
    };
    let end: usize = if after < total - focus - 1 {
        focus + after + 1
    } else {
        total
    };
    let ghost wanted = word_window(words@, texts@, focus_va, before as int, after as int);
    let mut i: usize = start;
    assert(line_views(out@) =~= wanted.take(0));
    while i < end
        invariant
            start <= i <= end <= total,
            total == words@.len(),
            wanted.len() == end - start,
            forall|j: int|
                0 <= j < wanted.len() ==> #[trigger] wanted[j] == word_line(
                    words@,
                    texts@,
                    focus_va,
                    start + j,
                ),
            line_views(out@) == wanted.take(i - start),
        decreases end - i,
    {
        let ghost prior = out@;
        let line = make_word_line(words, texts, focus_va, i);
        out.push(line);
        proof {
            assert(line_views(out@) =~= line_views(prior).push(line@));
            assert(wanted[i - start] == line@);
            assert(wanted.take(i - start + 1) =~= wanted.take(i - start).push(line@));
        }
        i = i + 1;
    }
    assert(wanted.take(end - start) =~= wanted);
    out
}

/// What of an image the surroundings of an address are looked for in.
pub open spec fn code_at(segments: Seq<SegmentView>, va: u64) -> Option<SegmentView> {
    match first_covering(segments, va) {
        Some(i) => if segments[i].executable {
            Some(segments[i])
        } else {
            None
        },
        None => None,
    }
}

/// The code segment that holds an address.
fn find_code<'s, 'a>(segments: &'s Vec<Segment<'a>>, va: Va) -> (r: Option<&'s Segment<'a>>)
    ensures
        match code_at(segment_views(segments@), va.0) {
            Some(s) => r matches Some(seg) && seg@ == s && s.covers(va.0),
            None => r is None,
        },
{
    let ghost views = segment_views(segments@);
    let mut i: usize = 0;
    while i < segments.len()
        invariant
            i <= segments@.len(),
            views == segment_views(segments@),
            forall|j: int| 0 <= j < i ==> !(#[trigger] views[j]).covers(va.0),
        decreases segments@.len() - i,
    {
        if segments[i].contains(va) {
            proof {
                assert(views[i as int] == segments@[i as int]@);
                lemma_first_covering_at(views, va.0, i as int);
            }
            if segments[i].executable {
                return Some(&segments[i]);
            }
            return None;
        }
        i = i + 1;
    }
    proof {
        lemma_first_covering(views, va.0);
    }
    None
}

/// The words whose texts [`context`] takes: those around an address of AArch64
/// code, none for any other code.
pub open spec fn wanted_words(
    arch: Arch,
    segments: Seq<SegmentView>,
    focus: u64,
    before: int,
    after: int,
) -> Seq<Arm64Word> {
    match code_at(segments, focus) {
        Some(s) => if arch == Arch::Arm64 {
            words_around(s, focus, before, after)
        } else {
            Seq::empty()
        },
        None => Seq::empty(),
    }
}

/// The words whose texts [`context`] takes.
pub fn context_words(
    arch: Arch,
    segments: &Vec<Segment<'_>>,
    focus_va: Va,
    before: usize,
    after: usize,
) -> (r: Vec<Arm64Word>)
    ensures
        r@ == wanted_words(
            arch,
            segment_views(segments@),
            focus_va.0,
            before as int,
            after as int,
        ),
{
    match find_code(segments, focus_va) {
        Some(seg) => {
            if arch == Arch::Arm64 {
                proof {
                    lemma_covers(seg@, focus_va.0);
                }
                arm64_words(seg, focus_va.0, before, after)
            } else {
                Vec::new()
            }
        },
        None => Vec::new(),
    }
}

/// A covered address has a byte.
proof fn lemma_covers(s: SegmentView, va: u64)
    requires
        s.covers(va),
    ensures
        s.va.0 <= va < s.va.0 + s.data.len(),
{
}

/// The window around an address: empty outside code and for other architectures
/// than x86 and AArch64.
pub open spec fn context_lines(
    arch: Arch,
    segments: Seq<SegmentView>,
    focus: u64,
    before: int,
    after: int,
    texts: Seq<Option<String>>,
) -> Seq<LineView> {
    match code_at(segments, focus) {
        Some(s) => if arch == Arch::X86_64 || arch == Arch::X86 {
            x86_window(x86_code(s), focus - s.va.0, before, after)
        } else if arch == Arch::Arm64 {
            word_window(words_around(s, focus, before, after), texts, focus, before, after)
        } else {
            Seq::empty()
        },
        None => Seq::empty(),
    }
}

/// Disassembles the surroundings of an address: up to `before` instructions before
/// it, the one at it, and up to `after` instructions after it, in order of address.
///
/// The texts of AArch64 instructions are handed in: `arm64_texts` holds those of
/// [`context_words`] in order, `None` for a word that is no instruction.
pub fn context(
    arch: Arch,
    segments: &Vec<Segment<'_>>,
    focus_va: Va,
    before: usize,
    after: usize,
    arm64_texts: &Vec<Option<String>>,
) -> (r: Vec<DisasmLine>)
    requires
        after < usize::MAX,
    ensures
        line_views(r@) == context_lines(
            arch,
            segment_views(segments@),
            focus_va.0,
            before as int,
            after as int,
            arm64_texts@,
        ),
        (arch == Arch::X86_64 || arch == Arch::X86) && code_at(
            segment_views(segments@),
            focus_va.0,
        ) is Some ==> has_focus(line_views(r@), focus_va.0),
        arch == Arch::Arm64 ==> (code_at(segment_views(segments@), focus_va.0) matches Some(s)
            ==> ((focus_va.0 - s.va.0) % 4 == 0 && focus_va.0 - s.va.0 + 4 <= s.data.len()
            ==> has_focus(line_views(r@), focus_va.0))),
{
    match find_code(segments, focus_va) {
        Some(seg) => {
            proof {
                lemma_covers(seg@, focus_va.0);
            }
            match arch {
                Arch::X86_64 | Arch::X86 => disasm_x86(seg, focus_va.0, before, after),
                Arch::Arm64 => {
                    let words = arm64_words(seg, focus_va.0, before, after);
                    proof {
                        let s = seg@;
                        if (focus_va.0 - s.va.0) % 4 == 0 && focus_va.0 - s.va.0 + 4
                            <= s.data.len() {
                            law_words_hold_focus(s, focus_va.0, before as int, after as int);
                        }
                        law_word_window(
                            words@,
                            arm64_texts@,
                            focus_va.0,
                            before as int,
                            after as int,
                        );
                    }
                    build_window(&words, arm64_texts, focus_va.0, before, after)
                },
                _ => {
                    let none: Vec<DisasmLine> = Vec::new();
                    assert(line_views(none@) =~= Seq::empty());
                    none
                },
            }
        },
        None => {
            let none: Vec<DisasmLine> = Vec::new();
            assert(line_views(none@) =~= Seq::empty());
            none
        },
    }
}

/// Whether lines follow one another without a gap from one address to another.
#[verifier::opaque]
pub open spec fn contiguous(s: Seq<LineView>, from: int, to: int) -> bool {
    &&& forall|i: int| 0 <= i < s.len() ==> (#[trigger] s[i]).bytes.len() > 0
    &&& forall|i: int, j: int|
        #![trigger s[i], s[j]]
        0 <= i && j == i + 1 && j < s.len() ==> s[i].va + s[i].bytes.len() == s[j].va
    &&& s.len() > 0 ==> s[0].va == from && s.last().va + s.last().bytes.len() == to
    &&& s.len() == 0 ==> from == to
}

proof fn lemma_contiguous_cons(line: LineView, tail: Seq<LineView>, from: int, to: int)
    requires
        line.va == from,
        line.bytes.len() > 0,
        contiguous(tail, from + line.bytes.len(), to),
    ensures
        contiguous(seq![line] + tail, from, to),
{
    reveal(contiguous);
    let all = seq![line] + tail;
    assert forall|i: int| 0 <= i < all.len() implies (#[trigger] all[i]).bytes.len() > 0 by {
        if i > 0 {
            assert(all[i] == tail[i - 1]);
        }
    }
    assert forall|i: int, j: int|
        #![trigger all[i], all[j]]
        0 <= i && j == i + 1 && j < all.len() implies all[i].va + all[i].bytes.len()
        == all[j].va by {
        assert(all[j] == tail[i]);
        if i > 0 {
            assert(all[i] == tail[i - 1]);
        }
    }
    assert(all.last() == if tail.len() > 0 {
        tail.last()
    } else {
        line
    });
}

proof fn lemma_contiguous_push(head: Seq<LineView>, line: LineView, from: int, to: int)
    requires
        contiguous(head, from, line.va as int),
        line.bytes.len() > 0,
        line.va + line.bytes.len() == to,
    ensures
        contiguous(head.push(line), from, to),
{
    reveal(contiguous);
    let all = head.push(line);
    assert forall|i: int, j: int|
        #![trigger all[i], all[j]]
        0 <= i && j == i + 1 && j < all.len() implies all[i].va + all[i].bytes.len()
        == all[j].va by {
        assert(all[i] == head[i]);
        if j < head.len() {
            assert(all[j] == head[j]);
        }
    }
    if head.len() > 0 {
        assert(all[0] == head[0]);
    }
}

proof fn lemma_lines_before(m: CodeModel, end: int, n: int) -> (start: int)
    requires
        0 <= end <= m.data.len(),
        m.base + m.data.len() <= u64::MAX,
    ensures
        0 <= start <= end,
        contiguous(lines_before(m, end, n), m.base + start, m.base + end),
        n >= 0 ==> lines_before(m, end, n).len() <= n,
        forall|i: int|
            0 <= i < lines_before(m, end, n).len() ==> !(#[trigger] lines_before(
                m,
                end,
                n,
            )[i]).is_focus,
    decreases n,
{
    if n <= 0 || end <= 0 {
        reveal(contiguous);
        end
    } else {
        let most = if end < MAX_X86_INSN {
            end
        } else {
            MAX_X86_INSN as int
        };
        let len = longest_before(m, end, most);
        lemma_longest(m, end, most);
        if len == 0 {
            reveal(contiguous);
            end
        } else {
            let at = end - len;
            let start = lemma_lines_before(m, at, n - 1);
            let before = lines_before(m, at, n - 1);
            let line = m.line(m.slice(at, MAX_X86_INSN as int), at, len, false);
            assert(lines_before(m, end, n) == before.push(line));
            lemma_contiguous_push(before, line, m.base + start, m.base + end);
            start
        }
    }
}

proof fn lemma_lines_from(m: CodeModel, code: Seq<u8>, at: int, pos: int, n: int) -> (end: int)
    requires
        0 <= at,
        0 <= pos <= code.len(),
        at + code.len() <= m.data.len(),
        m.base + m.data.len() <= u64::MAX,
    ensures
        pos <= end <= code.len(),
        contiguous(lines_from(m, code, at, pos, n), m.base + at + pos, m.base + at + end),
    decreases n,
{
    let rest = code.skip(pos);
    let va = wrap64(m.base + at + pos);
    let len = insn_len(m.bits, rest, va);
    if n <= 0 || len == 0 {
        reveal(contiguous);
        pos
    } else {
        let end = lemma_lines_from(m, code, at, pos + len, n - 1);
        let line = m.line(rest, at + pos, len, pos == 0);
        assert(va == m.base + at + pos);
        assert(line.bytes.len() == len);
        lemma_contiguous_cons(
            line,
            lines_from(m, code, at, pos + len, n - 1),
            m.base + at + pos,
            m.base + at + end,
        );
        end
    }
}

proof fn lemma_focus_first(m: CodeModel, code: Seq<u8>, at: int, pos: int, n: int)
    requires
        0 <= pos,
        0 <= n,
    ensures
        lines_from(m, code, at, pos, n).len() <= n,
        forall|i: int|
            0 <= i < lines_from(m, code, at, pos, n).len() ==> (#[trigger] lines_from(
                m,
                code,
                at,
                pos,
                n,
            )[i]).is_focus == (pos == 0 && i == 0),
    decreases n,
{
    if n > 0 && pos <= code.len() {
        let rest = code.skip(pos);
        let len = insn_len(m.bits, rest, wrap64(m.base + at + pos));
        if len != 0 {
            lemma_focus_first(m, code, at, pos + len, n - 1);
        }
    }
}

/// The lines before and from an address on, for x86 code.
pub open spec fn x86_parts(m: CodeModel, at: int, before: int, after: int) -> (
    Seq<LineView>,
    Seq<LineView>,
) {
    (
        lines_before(m, at, before),
        lines_from(m, m.slice(at, (after + 2) * MAX_X86_INSN), at, 0, after + 1),
    )
}

/// The window around an address of x86 code has up to `before` lines, then up to
/// `after + 1`. It lists adjoining instructions in order of address, and the first
/// of the second part, at the address itself, is the only one in focus.
pub proof fn law_x86_window(m: CodeModel, at: int, before: int, after: int)
    requires
        0 <= at <= m.data.len(),
        m.base + m.data.len() <= u64::MAX,
        0 <= before,
        0 <= after,
    ensures
        ({
            let (head, tail) = x86_parts(m, at, before, after);
            &&& x86_window(m, at, before, after) == head + tail
            &&& head.len() <= before
            &&& tail.len() <= after + 1
            &&& forall|i: int| 0 <= i < head.len() ==> !(#[trigger] head[i]).is_focus
            &&& forall|i: int| 0 <= i < tail.len() ==> (#[trigger] tail[i]).is_focus == (i == 0)
            &&& tail.len() > 0 ==> tail[0].va == m.base + at
            &&& exists|start: int, end: int|
                0 <= start <= at <= end <= m.data.len() && #[trigger] contiguous(
                    head,
                    m.base + start,
                    m.base + at,
                ) && #[trigger] contiguous(tail, m.base + at, m.base + end)
        }),
{
    let slice = m.slice(at, (after + 2) * MAX_X86_INSN);
    let (head, tail) = x86_parts(m, at, before, after);
    let start = lemma_lines_before(m, at, before);
    let end = lemma_lines_from(m, slice, at, 0, after + 1);
    lemma_focus_first(m, slice, at, 0, after + 1);
    assert(tail.len() > 0 ==> tail[0].va == m.base + at) by {
        reveal(contiguous);
    }
    assert(contiguous(head, m.base + start, m.base + at));
    assert(contiguous(tail, m.base + at, m.base + (at + end)));
}

proof fn lemma_word_at(words: Seq<Arm64Word>, va: u64, i: int)
    requires
        0 <= i,
    ensures
        match word_at(words, va, i) {
            Some(k) => i <= k < words.len() && words[k].va == va,
            None => forall|k: int| i <= k < words.len() ==> (#[trigger] words[k]).va != va,
        },
    decreases words.len() - i,
{
    if i < words.len() && words[i].va != va {
        lemma_word_at(words, va, i + 1);
    }
}

/// The window around an address of AArch64 code has at most `before + 1 + after`
/// lines, and the address is in focus where any line is. Without a word at the
/// address the window is empty.
pub proof fn law_word_window(
    words: Seq<Arm64Word>,
    texts: Seq<Option<String>>,
    focus: u64,
    before: int,
    after: int,
)
    requires
        0 <= before,
        0 <= after,
    ensures
        ({
            let w = word_window(words, texts, focus, before, after);
            &&& w.len() <= before + 1 + after
            &&& (w.len() > 0 <==> exists|k: int|
                0 <= k < words.len() && (#[trigger] words[k]).va == focus)
            &&& forall|i: int|
                0 <= i < w.len() ==> ((#[trigger] w[i]).is_focus <==> w[i].va == focus)
            &&& w.len() > 0 ==> exists|i: int| 0 <= i < w.len() && (#[trigger] w[i]).is_focus
        }),
{
    lemma_word_at(words, focus, 0);
    let w = word_window(words, texts, focus, before, after);
    match word_at(words, focus, 0) {
        Some(k) => {
            let start = if k > before {
                k - before
            } else {
                0
            };
            assert(w[k - start].is_focus);
            assert(words[k].va == focus);
        },
        None => {},
    }
}

/// The words around the address of an instruction of AArch64 code hold that
/// instruction.
pub proof fn law_words_hold_focus(s: SegmentView, focus: u64, before: int, after: int)
    requires
        s.va.0 <= focus,
        (focus - s.va.0) % 4 == 0,
        focus - s.va.0 + 4 <= s.data.len(),
        0 <= before,
        0 <= after,
    ensures
        exists|k: int|
            0 <= k < words_around(s, focus, before, after).len() && (#[trigger] words_around(
                s,
                focus,
                before,
                after,
            )[k]).va == focus,
{
    let at = focus - s.va.0;
    let start = words_start(at, before);
    let words = words_around(s, focus, before, after);
    let k = (at - start) / 4;
    assert(0 <= start <= at && start % 4 == 0 && at - start <= before * 4);
    assert(start + 4 * k == at);
    assert(k < words_count(s, at, before, after));
    assert(words[k].va == focus);
}

/// The bytes of a word read back as the word.
pub proof fn law_word_bytes_read_back(word: u32)
    ensures
        word_bytes(word).len() == 4,
        le32(word_bytes(word), 0) == word,
{
}

} // verus!
