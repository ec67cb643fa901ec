//! From cross-references to records: which are printed, and what beside them.

use crate::disasm::{context, context_lines, line_views, LineView};
use crate::loader::{
    first_covering, lemma_filter_take, lemma_first_covering, Arch, LoadedBinary, SegmentView,
};
use crate::output::{
    context_views, hex_bytes, truncate_middle, truncated, ContextLine, ContextView, RecordView,
    XrefRecord,
};
use crate::rust::{blob_at, read_usize_at, usize_at, BlobView, StringBlobIndex};
use crate::va::{wrap64, Va};
use crate::xref::{Xref, XrefKind};
use vstd::prelude::*;
use vstd::string::StringExecFns;
use vstd::string::StringSliceAdditionalSpecFns;
use vstd::utf8::{decode_utf8, valid_utf8};

verus! {

/// Greatest length that is taken for that of a string literal.
pub const MAX_STRING_LEN: usize = 1_000_000;

/// How many bytes of data are shown around a reference from data.
pub const DATA_CONTEXT_LEN: usize = 8;

/// Bytes of a pointer.
pub open spec fn pointer_size(arch: Arch) -> Option<nat> {
    match arch {
        Arch::X86_64 => Some(8),
        Arch::Arm64 => Some(8),
        Arch::X86 => Some(4),
        Arch::Arm32 => Some(4),
        Arch::Unknown => None,
    }
}

/// Bytes of a pointer.
pub fn pointer_size_of(arch: Arch) -> (r: Option<usize>)
    ensures
        match pointer_size(arch) {
            Some(n) => r == Some(n as usize) && (n == 4 || n == 8),
            None => r is None,
        },
{
    match arch {
        Arch::X86_64 | Arch::Arm64 => Some(8),
        Arch::X86 | Arch::Arm32 => Some(4),
        Arch::Unknown => None,
    }
}

/// The bytes of the string literal that a pointer at `from` to `to` stands for. Its
/// length is the number behind the pointer.
pub open spec fn literal_bytes(
    arch: Arch,
    segments: Seq<SegmentView>,
    blobs: Seq<BlobView>,
    from: u64,
    to: u64,
) -> Option<Seq<u8>> {
    match (blob_at(blobs, to), pointer_size(arch)) {
        (Some(blob), Some(size)) => match usize_at(segments, wrap64(from + size), size) {
            Some(len) => if 0 < len <= MAX_STRING_LEN {
                blob.literal(to, len as nat)
            } else {
                None
            },
            None => None,
        },
        _ => None,
    }
}

/// The string literal, where the bytes are text.
pub open spec fn literal_text(
    arch: Arch,
    segments: Seq<SegmentView>,
    blobs: Seq<BlobView>,
    from: u64,
    to: u64,
) -> Option<Seq<char>> {
    match literal_bytes(arch, segments, blobs, from, to) {
        Some(bytes) => if valid_utf8(bytes) {
            Some(decode_utf8(bytes))
        } else {
            None
        },
        None => None,
    }
}

/// The string literal that a pointer at `from` to `to` stands for.
pub fn extract_rust_string(
    binary: &LoadedBinary<'_>,
    blobs: &StringBlobIndex,
    from: Va,
    to: Va,
) -> (r: Option<String>)
    requires
        blobs.wf(),
    ensures
        match literal_text(binary.arch, binary.layout(), blobs@, from.0, to.0) {
            Some(t) => r matches Some(s) && s@ == t,
            None => r is None,
        },
{
    let blob = match blobs.lookup(to) {
        Some(b) => b,
        None => {
            return None;
        },
    };
    let size: usize = match pointer_size_of(binary.arch) {
        Some(n) => n,
        None => {
            return None;
        },
    };
    let len: usize = match read_usize_at(binary, from + size as u64, size) {
        Some(n) => n,
        None => {
            return None;
        },
    };
    if len == 0 || len > MAX_STRING_LEN {
        return None;
    }
    match blob.extract(to, len) {
        Some(s) => {
            proof {
                vstd::utf8::encode_utf8_decode_utf8(s@);
            }
            Some(String::from_str(s))
        },
        None => None,
    }
}

/// A disassembled line as a context line.
pub open spec fn line_context(line: LineView) -> ContextView {
    ContextView {
        va: Va(line.va),
        hex: hex_bytes(line.bytes),
        text: line.text,
        focus: line.is_focus,
    }
}

/// The bytes of data from an address on, as a context line; none where nothing is
/// mapped.
pub open spec fn data_context(segments: Seq<SegmentView>, va: u64) -> Seq<ContextView> {
    match first_covering(segments, va) {
        Some(i) => {
            let s = segments[i];
            let at = va - s.va.0;
            let end = if at + DATA_CONTEXT_LEN < s.data.len() {
                at + DATA_CONTEXT_LEN
            } else {
                s.data.len() as int
            };
            seq![
                ContextView {
                    va: Va(va),
                    hex: hex_bytes(s.data.subrange(at, end)),
                    text: "(data)"@,
                    focus: true,
                },
            ]
        },
        None => Seq::empty(),
    }
}

/// The surroundings of a reference: disassembled, or the bytes where that gives
/// nothing.
pub open spec fn surroundings(
    arch: Arch,
    segments: Seq<SegmentView>,
    va: u64,
    before: int,
    after: int,
    texts: Seq<Option<String>>,
) -> Seq<ContextView> {
    let lines = context_lines(arch, segments, va, before, after, texts);
    if lines.len() == 0 {
        data_context(segments, va)
    } else {
        lines.map_values(|l: LineView| line_context(l))
    }
}

/// The surroundings of a reference.
fn build_context(
    binary: &LoadedBinary<'_>,
    va: Va,
    before: usize,
    after: usize,
    arm64_texts: &Vec<Option<String>>,
) -> (r: Vec<ContextLine>)
    requires
        after < usize::MAX,
    ensures
        context_views(r@) == surroundings(
            binary.arch,
            binary.layout(),
            va.0,
            before as int,
            after as int,
            arm64_texts@,
        ),
{
    let lines = context(binary.arch, &binary.segments, va, before, after, arm64_texts);
    let ghost views = line_views(lines@);
    let mut out: Vec<ContextLine> = Vec::new();
    if lines.len() == 0 {
        proof {
            lemma_first_covering(binary.layout(), va.0);
        }
        match binary.segment_at(va) {
            Some(seg) => {
                let data = seg.data();
                let total: usize = data.len();
                let at: usize = (va.0 - seg.va.0) as usize;
                let end: usize = if DATA_CONTEXT_LEN < total - at {
                    at + DATA_CONTEXT_LEN
                } else {
                    total
                };
                let line = ContextLine::data(va, &data[at..end]);
                out.push(line);
                assert(context_views(out@) =~= seq![line@]);
            },
            None => {
                assert(context_views(out@) =~= Seq::empty());
            },
        }
        return out;
    }
    let ghost wanted = views.map_values(|l: LineView| line_context(l));
    let mut i: usize = 0;
    assert(context_views(out@) =~= wanted.take(0));
    while i < lines.len()
        invariant
            i <= lines@.len(),
            views == line_views(lines@),
            wanted == views.map_values(|l: LineView| line_context(l)),
            context_views(out@) == wanted.take(i as int),
        decreases lines@.len() - i,
    {
        let ghost prior = out@;
        let line = ContextLine::from_disasm(&lines[i]);
        out.push(line);
        proof {
            assert(wanted[i as int] == line@);
            assert(context_views(out@) =~= context_views(prior).push(line@));
            assert(wanted.take(i + 1) =~= wanted.take(i as int).push(line@));
        }
        i = i + 1;
    }
    assert(wanted.take(i as int) =~= wanted);
    out
}

/// What is printed beside cross-references.
pub struct RecordOptions {
    /// Instructions of context before and after; no context where both are zero.
    pub before: usize,
    pub after: usize,
    /// Greatest width of a string literal; zero for any.
    pub string_width: usize,
}

/// The record of a cross-reference.
pub open spec fn record_of(
    arch: Arch,
    segments: Seq<SegmentView>,
    blobs: Option<Seq<BlobView>>,
    x: Xref,
    options: RecordOptions,
    texts: Seq<Option<String>>,
) -> RecordView {
    RecordView {
        from: x.from,
        to: x.to,
        kind: x.kind,
        confidence: x.confidence,
        context: if options.before > 0 || options.after > 0 {
            Some(
                surroundings(
                    arch,
                    segments,
                    x.from.0,
                    options.before as int,
                    options.after as int,
                    texts,
                ),
            )
        } else {
            None
        },
        rust_string: match blobs {
            Some(b) => if x.kind.scored() == XrefKind::DataPointer {
                match literal_text(arch, segments, b, x.from.0, x.to.0) {
                    Some(t) => Some(truncated(t, options.string_width as nat)),
                    None => None,
                }
            } else {
                None
            },
            None => None,
        },
    }
}

/// Makes the record of a cross-reference: its surroundings where they are wanted,
/// and the string literal that a pointer leads to where there are literals.
///
/// `arm64_texts` are the texts of the words around `x.from`, as for [`context`].
pub fn build_record(
    binary: &LoadedBinary<'_>,
    blobs: Option<&StringBlobIndex>,
    x: &Xref,
    options: &RecordOptions,
    arm64_texts: &Vec<Option<String>>,
) -> (r: XrefRecord)
    requires
        options.after < usize::MAX,
        blobs matches Some(b) ==> b.wf(),
    ensures
        r@ == record_of(
            binary.arch,
            binary.layout(),
            match blobs {
                Some(b) => Some(b@),
                None => None,
            },
            *x,
            *options,
            arm64_texts@,
        ),
{
    let context: Option<Vec<ContextLine>> = if options.before > 0 || options.after > 0 {
        Some(build_context(binary, x.from, options.before, options.after, arm64_texts))
    } else {
        None
    };
    let rust_string: Option<String> = match blobs {
        Some(b) => if x.kind.scored_kind() == XrefKind::DataPointer {
            match extract_rust_string(binary, b, x.from, x.to) {
                Some(s) => Some(truncate_middle(s.as_str(), options.string_width)),
                None => None,
            }
        } else {
            None
        },
        None => None,
    };
    XrefRecord {
        from: x.from,
        to: x.to,
        kind: x.kind,
        confidence: x.confidence,
        context,
        rust_string,
    }
}

/// Whether a cross-reference is of a scored kind; any is where none is asked for.
pub open spec fn of_kind(x: Xref, kind: Option<XrefKind>) -> bool {
    match kind {
        Some(k) => x.kind.scored() == k,
        None => true,
    }
}

/// Whether the limit is reached; zero is no limit.
pub open spec fn limit_reached(limit: usize, emitted: usize) -> bool {
    limit > 0 && emitted >= limit
}

/// The cross-references of a batch to print: those of the kind asked for, no more
/// than the limit leaves.
pub open spec fn selected(
    batch: Seq<Xref>,
    kind: Option<XrefKind>,
    limit: usize,
    emitted: usize,
) -> Seq<Xref> {
    let of_it = batch.filter(|x: Xref| of_kind(x, kind));
    if limit_reached(limit, emitted) {
        Seq::empty()
    } else if limit > 0 && limit - emitted < of_it.len() {
        of_it.take(limit - emitted)
    } else {
        of_it
    }
}

/// Whether the limit is reached; zero is no limit.
pub fn is_limit_reached(limit: usize, emitted: usize) -> (r: bool)
    ensures
        r == limit_reached(limit, emitted),
{
    limit > 0 && emitted >= limit
}

/// The cross-references of a batch to print, after so many have been.
pub fn select_batch(
    batch: &Vec<Xref>,
    kind: Option<XrefKind>,
    limit: usize,
    emitted: usize,
) -> (r: Vec<Xref>)
    ensures
        r@ == selected(batch@, kind, limit, emitted),
{
    let mut out: Vec<Xref> = Vec::new();
    if is_limit_reached(limit, emitted) {
        return out;
    }
    let ghost p = |x: Xref| of_kind(x, kind);
    let ghost all = batch@.filter(p);
    let room: usize = if limit > 0 {
        limit - emitted
    } else {
        usize::MAX
    };
    let mut i: usize = 0;
    assert(batch@.take(0).filter(p) =~= Seq::empty()) by {
        reveal(Seq::filter);
    }
    while i < batch.len() && out.len() < room
        invariant
            i <= batch@.len(),
            p == (|x: Xref| of_kind(x, kind)),
            out@ == batch@.take(i as int).filter(p),
            out@.len() <= room,
        decreases batch@.len() - i,
    {
        proof {
            lemma_filter_take(batch@, i as int, p);
        }
        let x = batch[i];
        let wanted = match kind {
            Some(k) => x.kind.scored_kind() == k,
            None => true,
        };
        if wanted {
            out.push(x);
        }
        i = i + 1;
    }
    proof {
        lemma_filter_prefix(batch@, i as int, p);
        if i == batch@.len() {
            assert(batch@.take(i as int) =~= batch@);
            assert(limit > 0 && room == all.len() ==> all.take(room as int) =~= all);
        } else {
            assert(out@.len() == room);
            assert(all.take(room as int) =~= out@);
            lemma_filter_len(batch@, p);
            assert(limit > 0 && room == all.len() ==> all.take(room as int) =~= all);
        }
    }
    out
}

/// Filtering a prefix gives a prefix.
proof fn lemma_filter_prefix<A>(s: Seq<A>, i: int, p: spec_fn(A) -> bool)
    requires
        0 <= i <= s.len(),
    ensures
        s.take(i).filter(p).len() <= s.filter(p).len(),
        s.filter(p).take(s.take(i).filter(p).len() as int) == s.take(i).filter(p),
    decreases s.len() - i,
{
    if i == s.len() {
        assert(s.take(i) =~= s);
        assert(s.filter(p).take(s.filter(p).len() as int) =~= s.filter(p));
    } else {
        lemma_filter_prefix(s, i + 1, p);
        lemma_filter_take(s, i, p);
        let less = s.take(i).filter(p);
        let more = s.take(i + 1).filter(p);
        assert(s.filter(p).take(less.len() as int) =~= more.take(less.len() as int));
        assert(more.take(less.len() as int) =~= less);
    }
}

proof fn lemma_filter_len<A>(s: Seq<A>, p: spec_fn(A) -> bool)
    ensures
        s.filter(p).len() <= s.len(),
    decreases s.len(),
{
    reveal(Seq::filter);
    if s.len() > 0 {
        lemma_filter_len(s.drop_last(), p);
    }
}

/// No batch brings the number printed over the limit, and each record is of the
/// kind asked for and comes from the batch.
pub proof fn law_selection(batch: Seq<Xref>, kind: Option<XrefKind>, limit: usize, emitted: usize)
    requires
        emitted <= limit || limit == 0,
    ensures
        limit > 0 ==> emitted + selected(batch, kind, limit, emitted).len() <= limit,
        forall|i: int|
            0 <= i < selected(batch, kind, limit, emitted).len() ==> of_kind(
                #[trigger] selected(batch, kind, limit, emitted)[i],
                kind,
            ) && batch.contains(selected(batch, kind, limit, emitted)[i]),
{
    let p = |x: Xref| of_kind(x, kind);
    let all = batch.filter(p);
    lemma_filter_members(batch, p);
    let s = selected(batch, kind, limit, emitted);
    assert forall|i: int| 0 <= i < s.len() implies of_kind(#[trigger] s[i], kind)
        && batch.contains(s[i]) by {
        assert(s[i] == all[i]);
    }
}

proof fn lemma_filter_members<A>(s: Seq<A>, p: spec_fn(A) -> bool)
    ensures
        forall|i: int|
            0 <= i < s.filter(p).len() ==> p(#[trigger] s.filter(p)[i]) && s.contains(
                s.filter(p)[i],
            ),
    decreases s.len(),
{
    reveal(Seq::filter);
    if s.len() > 0 {
        let t = s.drop_last();
        lemma_filter_members(t, p);
        assert forall|i: int| 0 <= i < s.filter(p).len() implies p(#[trigger] s.filter(p)[i])
            && s.contains(s.filter(p)[i]) by {
            if i < t.filter(p).len() {
                let x = t.filter(p)[i];
                assert(s.filter(p)[i] == x);
                let j = choose|j: int| 0 <= j < t.len() && t[j] == x;
                assert(s[j] == x);
            } else {
                assert(s[s.len() - 1] == s.filter(p)[i]);
            }
        }
    }
}

/// A string literal is as long as the number right behind the pointer to it says, eight
/// bytes on the wide architectures and four on the narrow, and it is cut out of the
/// stretch of text at the address that the pointer holds.
pub proof fn law_literal_is_cut(
    arch: Arch,
    segments: Seq<SegmentView>,
    blobs: Seq<BlobView>,
    from: u64,
    to: u64,
    blob: BlobView,
    len: usize,
)
    requires
        blob_at(blobs, to) == Some(blob),
        0 < len <= 1_000_000,
        (arch == Arch::X86_64 || arch == Arch::Arm64) && usize_at(segments, wrap64(from + 8), 8)
            == Some(len) || (arch == Arch::X86 || arch == Arch::Arm32) && usize_at(
            segments,
            wrap64(from + 4),
            4,
        ) == Some(len),
        to - blob.va + len <= blob.data.len(),
    ensures
        literal_bytes(arch, segments, blobs, from, to) matches Some(bytes) && bytes.len() == len
            && forall|i: int|
            0 <= i < len ==> #[trigger] bytes[i] == blob.data[to - blob.va + i],
{
    let bytes = literal_bytes(arch, segments, blobs, from, to).unwrap();
    assert(blob.covers(to));
    assert forall|i: int| 0 <= i < len implies #[trigger] bytes[i] == blob.data[to - blob.va
        + i] by {}
}

} // verus!
