//! Instruction sets: decoders, cross-reference scanners, and the address lookups
//! that they share.

pub mod arm32;
pub mod arm32_laws;
pub mod arm32_mode_classifier;
pub mod arm64;
pub mod arm64_decode;
pub mod arm64_jump_table;
pub mod arm64_laws;
pub mod arm64_switch_laws;
pub mod x86_64;
pub mod x86_insn;
pub mod x86_laws;

use crate::bytes::{as_signed, le16, le32, le64};
use crate::bytes::{read_u16_le, read_u32_le, read_u64_le, signed32};
use crate::loader::{disjoint, segment_views, Segment, SegmentView};
use crate::order::{
    insert_by_key, last_at_most, lemma_rank, lemma_stable_sort, rank, rank_of, sorted, stable_sort,
    Keyed,
};
use crate::va::{wrap64, Va};
use crate::xref::Xref;
use vstd::prelude::*;

verus! {

/// What a segment may be used for.
#[derive(Clone, Copy, Debug, PartialEq, Eq, Structural)]
pub struct SegFlags {
    pub read: bool,
    pub write: bool,
    pub execute: bool,
}

/// The addresses of a segment with its flags.
#[derive(Clone, Copy, Debug, PartialEq, Eq, Structural)]
pub struct SegmentSpan {
    pub start: u64,
    pub end: u64,
    pub flags: SegFlags,
}

impl Keyed for SegmentSpan {
    open spec fn key(&self) -> u64 {
        self.start
    }

    fn get_key(&self) -> (r: u64) {
        self.start
    }
}

/// Segments by address, for lookup by binary search. Segments are taken to be
/// disjoint; of overlapping ones, that with the greatest start counts.
pub struct SegmentIndex {
    spans: Vec<SegmentSpan>,
}

/// The span of a segment.
pub open spec fn span_of(s: SegmentView) -> SegmentSpan {
    SegmentSpan {
        start: s.va.0,
        end: s.end(),
        flags: SegFlags { read: s.readable, write: s.writable, execute: s.executable },
    }
}

/// The flags of the span that holds an address, if any does.
pub open spec fn flags_in(spans: Seq<SegmentSpan>, va: u64) -> Option<SegFlags> {
    match last_at_most(spans, va) {
        Some(span) => if va < span.end {
            Some(span.flags)
        } else {
            None
        },
        None => None,
    }
}

/// Whether an address is mapped.
pub open spec fn mapped_in(spans: Seq<SegmentSpan>, va: u64) -> bool {
    flags_in(spans, va) is Some
}

/// Whether an address is mapped as code.
pub open spec fn exec_in(spans: Seq<SegmentSpan>, va: u64) -> bool {
    match flags_in(spans, va) {
        Some(f) => f.execute,
        None => false,
    }
}

/// The spans of some segments in order of address.
pub open spec fn index_spans(segments: Seq<SegmentView>) -> Seq<SegmentSpan> {
    stable_sort(segments.map_values(|s: SegmentView| span_of(s)))
}

impl View for SegmentIndex {
    type V = Seq<SegmentSpan>;

    closed spec fn view(&self) -> Seq<SegmentSpan> {
        self.spans@
    }
}

impl SegmentIndex {
    /// Whether the spans are in order.
    pub open spec fn wf(&self) -> bool {
        sorted(self@)
    }

    /// The index of the given segments.
    pub fn build(segments: &Vec<Segment<'_>>) -> (r: SegmentIndex)
        ensures
            r.wf(),
            r@ == index_spans(segment_views(segments@)),
    {
        let mut spans: Vec<SegmentSpan> = Vec::new();
        let ghost all = segment_views(segments@).map_values(|s: SegmentView| span_of(s));
        let mut i: usize = 0;
        assert(stable_sort(all.take(0)) =~= Seq::empty());
        while i < segments.len()
            invariant
                i <= segments@.len(),
                all == segment_views(segments@).map_values(|s: SegmentView| span_of(s)),
                sorted(spans@),
                spans@ == stable_sort(all.take(i as int)),
            decreases segments@.len() - i,
        {
            let s = &segments[i];
            let range = s.va_range();
            let flags = SegFlags { read: s.readable, write: s.writable, execute: s.executable };
            proof {
                assert(all.take(i + 1).drop_last() =~= all.take(i as int));
                assert(all.take(i + 1).last() == all[i as int]);
            }
            insert_by_key(
                &mut spans,
                SegmentSpan { start: range.start.0, end: range.end.0, flags },
            );
            i = i + 1;
        }
        assert(all.take(i as int) =~= all);
        SegmentIndex { spans }
    }

    /// The flags of the segment that holds an address.
    pub fn flags_at(&self, va: Va) -> (r: Option<SegFlags>)
        requires
            self.wf(),
        ensures
            r == flags_in(self@, va.0),
    {
        let at: usize = rank_of(&self.spans, va.0);
        if at == 0 {
            return None;
        }
        let span = self.spans[at - 1];
        if va.0 < span.end {
            Some(span.flags)
        } else {
            None
        }
    }

    /// Whether an address is mapped.
    pub fn contains(&self, va: Va) -> (r: bool)
        requires
            self.wf(),
        ensures
            r == mapped_in(self@, va.0),
    {
        self.flags_at(va).is_some()
    }

    /// Whether an address is mapped as code.
    pub fn is_exec(&self, va: Va) -> (r: bool)
        requires
            self.wf(),
        ensures
            r == exec_in(self@, va.0),
    {
        match self.flags_at(va) {
            Some(f) => f.execute,
            None => false,
        }
    }
}

/// Over disjoint segments the index answers as a search of the segments would:
/// an address has the flags of the one segment that covers it.
pub proof fn law_index_finds_segment(segments: Seq<SegmentView>, va: u64)
    requires
        disjoint(segments),
    ensures
        mapped_in(index_spans(segments), va) <==> exists|i: int|
            0 <= i < segments.len() && (#[trigger] segments[i]).covers(va),
        forall|i: int|
            0 <= i < segments.len() && (#[trigger] segments[i]).covers(va) ==> flags_in(
                index_spans(segments),
                va,
            ) == Some(span_of(segments[i]).flags),
{
    let raw = segments.map_values(|s: SegmentView| span_of(s));
    let spans = index_spans(segments);
    lemma_stable_sort(raw);
    lemma_rank(spans, va);
    let r = rank(spans, va) as int;
    if r > 0 {
        assert(spans.contains(spans[r - 1]));
        assert(raw.contains(spans[r - 1]));
        let k = choose|k: int| 0 <= k < raw.len() && raw[k] == spans[r - 1];
        assert(raw[k] == span_of(segments[k]));
        assert forall|i: int| 0 <= i < segments.len() && (#[trigger] segments[i]).covers(
            va,
        ) implies i == k by {
            if i != k {
                assert(raw[i] == span_of(segments[i]));
                assert(raw.contains(raw[i]));
                assert(spans.contains(raw[i]));
                let q = choose|q: int| 0 <= q < spans.len() && spans[q] == raw[i];
                assert(spans[q].key() <= va);
                assert(q < r);
                assert(spans[q].key() <= spans[r - 1].key());
                assert(segments[i].va.0 <= segments[k].va.0);
            }
        }
        if mapped_in(spans, va) {
            assert(segments[k].covers(va));
        }
    } else {
        assert forall|i: int| 0 <= i < segments.len() implies !(#[trigger] segments[i]).covers(
            va,
        ) by {
            if segments[i].covers(va) {
                assert(raw[i] == span_of(segments[i]));
                assert(raw.contains(raw[i]));
                assert(spans.contains(raw[i]));
                let q = choose|q: int| 0 <= q < spans.len() && spans[q] == raw[i];
                assert(spans[q].key() > va);
            }
        }
    }
}

/// The bytes of a segment by address.
#[derive(Clone, Copy)]
pub struct DataSpan<'a> {
    pub start: u64,
    pub data: &'a [u8],
    pub execute: bool,
}

impl<'a> Keyed for DataSpan<'a> {
    open spec fn key(&self) -> u64 {
        self.start
    }

    fn get_key(&self) -> (r: u64) {
        self.start
    }
}

/// Segment bytes by address, for lookup by binary search.
pub struct SegmentDataIndex<'a> {
    spans: Vec<DataSpan<'a>>,
}

/// What a [`DataSpan`] says.
#[verifier::ext_equal]
pub struct DataSpanView {
    pub start: u64,
    pub data: Seq<u8>,
    pub execute: bool,
}

/// What the spans say.
pub open spec fn data_views(spans: Seq<DataSpan<'_>>) -> Seq<DataSpanView> {
    spans.map_values(
        |d: DataSpan<'_>| DataSpanView { start: d.start, data: d.data@, execute: d.execute },
    )
}

/// How many of the ordered spans start at or before an address.
pub open spec fn data_rank(spans: Seq<DataSpanView>, va: u64) -> nat
    decreases spans.len(),
{
    if spans.len() == 0 {
        0
    } else if spans.last().start <= va {
        spans.len()
    } else {
        data_rank(spans.drop_last(), va)
    }
}

/// The span to read at an address, with the offset in it, where it has `len`
/// bytes from there.
pub open spec fn readable_at(spans: Seq<DataSpanView>, va: u64, len: int) -> Option<
    (DataSpanView, int),
> {
    let r = data_rank(spans, va);
    if r == 0 {
        None
    } else {
        let span = spans[r - 1];
        if va - span.start + len <= span.data.len() {
            Some((span, va - span.start))
        } else {
            None
        }
    }
}

/// The byte at an address.
pub open spec fn u8_at(spans: Seq<DataSpanView>, va: u64) -> Option<int> {
    match readable_at(spans, va, 1) {
        Some((span, at)) => Some(span.data[at] as int),
        None => None,
    }
}

/// The two-byte number at an address.
pub open spec fn u16_at(spans: Seq<DataSpanView>, va: u64) -> Option<int> {
    match readable_at(spans, va, 2) {
        Some((span, at)) => Some(le16(span.data, at)),
        None => None,
    }
}

/// The signed four-byte number at an address.
pub open spec fn i32_at(spans: Seq<DataSpanView>, va: u64) -> Option<int> {
    match readable_at(spans, va, 4) {
        Some((span, at)) => Some(as_signed(le32(span.data, at), 0x1_0000_0000)),
        None => None,
    }
}

/// The eight-byte number at an address outside code.
pub open spec fn u64_at_nonexec(spans: Seq<DataSpanView>, va: u64) -> Option<u64> {
    match readable_at(spans, va, 8) {
        Some((span, at)) => if span.execute {
            None
        } else {
            Some(le64(span.data, at) as u64)
        },
        None => None,
    }
}

/// The bytes of some segments in order of address, those of the same address in
/// order of the segments.
pub open spec fn index_data(segments: Seq<SegmentView>) -> Seq<DataSpanView>
    decreases segments.len(),
{
    if segments.len() == 0 {
        Seq::empty()
    } else {
        let before = index_data(segments.drop_last());
        let s = segments.last();
        before.insert(
            data_rank(before, s.va.0) as int,
            DataSpanView { start: s.va.0, data: s.data, execute: s.executable },
        )
    }
}

/// The rank among spans and among what they say is the same.
proof fn lemma_data_rank(spans: Seq<DataSpan<'_>>, va: u64)
    ensures
        data_rank(data_views(spans), va) == rank(spans, va),
    decreases spans.len(),
{
    if spans.len() > 0 {
        assert(data_views(spans).drop_last() =~= data_views(spans.drop_last()));
        lemma_data_rank(spans.drop_last(), va);
    }
}

impl<'a> View for SegmentDataIndex<'a> {
    type V = Seq<DataSpanView>;

    closed spec fn view(&self) -> Seq<DataSpanView> {
        data_views(self.spans@)
    }
}

impl<'a> SegmentDataIndex<'a> {
    /// Whether the spans are in order.
    pub closed spec fn wf(&self) -> bool {
        sorted(self.spans@)
    }

    /// The index of the given segments.
    pub fn build(segments: &'a Vec<Segment<'_>>) -> (r: SegmentDataIndex<'a>)
        ensures
            r.wf(),
            r@ == index_data(segment_views(segments@)),
    {
        let mut spans: Vec<DataSpan<'a>> = Vec::new();
        let ghost all = segment_views(segments@);
        let mut i: usize = 0;
        assert(data_views(spans@) =~= index_data(all.take(0)));
        while i < segments.len()
            invariant
                i <= segments@.len(),
                all == segment_views(segments@),
                sorted(spans@),
                data_views(spans@) == index_data(all.take(i as int)),
            decreases segments@.len() - i,
        {
            let s = &segments[i];
            let span = DataSpan { start: s.va.0, data: s.data(), execute: s.executable };
            let ghost before = spans@;
            proof {
                assert(all.take(i + 1).drop_last() =~= all.take(i as int));
                assert(all.take(i + 1).last() == s@);
                lemma_data_rank(spans@, s.va.0);
                lemma_rank(spans@, s.va.0);
            }
            insert_by_key(&mut spans, span);
            assert(data_views(spans@) =~= data_views(before).insert(
                rank(before, s.va.0) as int,
                DataSpanView { start: s.va.0, data: s@.data, execute: s.executable },
            ));
            i = i + 1;
        }
        assert(all.take(i as int) =~= all);
        SegmentDataIndex { spans }
    }

    /// The span to read at an address and the offset in it, where it has `len` bytes
    /// from there.
    fn locate(&self, va: Va, len: usize) -> (r: Option<(&DataSpan<'a>, usize)>)
        requires
            self.wf(),
            len <= 8,
        ensures
            r is Some <==> readable_at(self@, va.0, len as int) is Some,
            r matches Some((span, at)) ==> readable_at(self@, va.0, len as int) == Some(
                (
                    DataSpanView { start: span.start, data: span.data@, execute: span.execute },
                    at as int,
                ),
            ) && at + len <= span.data.len(),
    {
        proof {
            lemma_data_rank(self.spans@, va.0);
        }
        let at: usize = rank_of(&self.spans, va.0);
        if at == 0 {
            return None;
        }
        proof {
            lemma_rank(self.spans@, va.0);
        }
        let span = &self.spans[at - 1];
        let offset: u64 = va.0 - span.start;
        let total: usize = span.data.len();
        if offset > total as u64 || len > total - offset as usize {
            return None;
        }
        Some((span, offset as usize))
    }

    /// The byte at an address.
    pub fn read_u8_at(&self, va: Va) -> (r: Option<u8>)
        requires
            self.wf(),
        ensures
            r is Some <==> u8_at(self@, va.0) is Some,
            r matches Some(v) ==> u8_at(self@, va.0) == Some(v as int),
    {
        match self.locate(va, 1) {
            Some((span, at)) => Some(span.data[at]),
            None => None,
        }
    }

    /// The two-byte number at an address.
    pub fn read_u16_at(&self, va: Va) -> (r: Option<u16>)
        requires
            self.wf(),
        ensures
            r is Some <==> u16_at(self@, va.0) is Some,
            r matches Some(v) ==> u16_at(self@, va.0) == Some(v as int),
    {
        match self.locate(va, 2) {
            Some((span, at)) => Some(read_u16_le(span.data, at)),
            None => None,
        }
    }

    /// The signed four-byte number at an address.
    pub fn read_i32_at(&self, va: Va) -> (r: Option<i64>)
        requires
            self.wf(),
        ensures
            r is Some <==> i32_at(self@, va.0) is Some,
            r matches Some(v) ==> i32_at(self@, va.0) == Some(v as int) && -0x8000_0000 <= v
                < 0x8000_0000,
    {
        match self.locate(va, 4) {
            Some((span, at)) => Some(signed32(read_u32_le(span.data, at))),
            None => None,
        }
    }

    /// The eight-byte number at an address outside code.
    pub fn read_u64_at_nonexec(&self, va: Va) -> (r: Option<u64>)
        requires
            self.wf(),
        ensures
            r == u64_at_nonexec(self@, va.0),
    {
        match self.locate(va, 8) {
            Some((span, at)) => if span.execute {
                None
            } else {
                Some(read_u64_le(span.data, at))
            },
            None => None,
        }
    }
}

/// The bytes that one scan goes over.
#[derive(Clone, Copy)]
pub struct ScanRegion<'a> {
    pub data: &'a [u8],
    /// Address of the first byte.
    pub base_va: Va,
}

impl<'a> ScanRegion<'a> {
    /// The part of a segment between two addresses; bounds outside the segment are
    /// drawn in to it.
    pub fn new(seg: &'a Segment<'_>, start: Va, end: Va) -> (r: ScanRegion<'a>)
        requires
            seg@.within_space(),
        ensures
            r.base_va.0 == if start.0 < seg@.va.0 {
                seg@.va.0
            } else if start.0 > seg@.end() {
                seg@.end()
            } else {
                start.0
            },
            r.data@ == if end.0 <= r.base_va.0 {
                Seq::empty()
            } else {
                seg@.data.subrange(
                    r.base_va.0 - seg@.va.0,
                    (if end.0 > seg@.end() {
                        seg@.end()
                    } else {
                        end.0
                    }) - seg@.va.0,
                )
            },
    {
        let data = seg.data();
        let range = seg.va_range();
        let first: u64 = if start.0 < range.start.0 {
            range.start.0
        } else if start.0 > range.end.0 {
            range.end.0
        } else {
            start.0
        };
        let past: u64 = if end.0 <= first {
            first
        } else if end.0 > range.end.0 {
            range.end.0
        } else {
            end.0
        };
        let total: usize = data.len();
        assert(seg@.end() == seg@.va.0 + total);
        let from: usize = (first - range.start.0) as usize;
        let to: usize = (past - range.start.0) as usize;
        let part = &data[from..to];
        assert(from == to ==> part@ =~= Seq::empty());
        ScanRegion { data: part, base_va: Va(first) }
    }
}

/// What a scan works on: the bytes of the region, the address of the first, and
/// which addresses are mapped.
#[verifier::ext_equal]
pub struct ScanModel {
    pub data: Seq<u8>,
    pub base: u64,
    pub spans: Seq<SegmentSpan>,
}

/// The model of a scan.
pub open spec fn scan_model(region: ScanRegion<'_>, idx: SegmentIndex) -> ScanModel {
    ScanModel { data: region.data@, base: region.base_va.0, spans: idx@ }
}

impl ScanModel {
    /// The `i`-th four-byte word.
    pub open spec fn word(self, i: int) -> u32 {
        le32(self.data, 4 * i) as u32
    }

    /// The address of the `i`-th four-byte word.
    pub open spec fn va(self, i: int) -> Va {
        Va(wrap64(self.base + 4 * i))
    }
}

/// One reference or none, as a sequence.
pub open spec fn one_or_none(x: Option<Xref>) -> Seq<Xref> {
    match x {
        Some(x) => seq![x],
        None => Seq::empty(),
    }
}

/// What the rank separates among spans in order.
proof fn lemma_data_rank_splits(spans: Seq<DataSpanView>, va: u64)
    requires
        forall|i: int, j: int|
            0 <= i <= j < spans.len() ==> (#[trigger] spans[i]).start <= (
            #[trigger] spans[j]).start,
    ensures
        data_rank(spans, va) <= spans.len(),
        forall|i: int| 0 <= i < data_rank(spans, va) ==> (#[trigger] spans[i]).start <= va,
        forall|i: int| data_rank(spans, va) <= i < spans.len() ==> (#[trigger] spans[i]).start > va,
    decreases spans.len(),
{
    if spans.len() > 0 && spans.last().start > va {
        let t = spans.drop_last();
        assert forall|i: int, j: int| 0 <= i <= j < t.len() implies (#[trigger] t[i]).start <= (
        #[trigger] t[j]).start by {
            assert(spans[i].start <= spans[j].start);
        }
        lemma_data_rank_splits(t, va);
        assert forall|i: int| 0 <= i < data_rank(spans, va) implies (#[trigger] spans[i]).start
            <= va by {
            assert(t[i] == spans[i]);
        }
        assert forall|i: int| data_rank(spans, va) <= i < spans.len() implies (
        #[trigger] spans[i]).start > va by {
            if i < t.len() {
                assert(t[i] == spans[i]);
            }
        }
    }
}

/// What the index says of a segment.
pub open spec fn data_of(s: SegmentView) -> DataSpanView {
    DataSpanView { start: s.va.0, data: s.data, execute: s.executable }
}

/// The index is in order and holds every segment and nothing else.
proof fn lemma_index_data(segments: Seq<SegmentView>)
    ensures
        forall|i: int, j: int|
            0 <= i <= j < index_data(segments).len() ==> (#[trigger] index_data(segments)[i]).start
                <= (#[trigger] index_data(segments)[j]).start,
        forall|i: int|
            0 <= i < segments.len() ==> index_data(segments).contains(
                data_of(#[trigger] segments[i]),
            ),
        forall|j: int|
            0 <= j < index_data(segments).len() ==> is_data_of(
                segments,
                #[trigger] index_data(segments)[j],
            ),
    decreases segments.len(),
{
    if segments.len() > 0 {
        let t = segments.drop_last();
        let s = segments.last();
        lemma_index_data(t);
        let before = index_data(t);
        lemma_data_rank_splits(before, s.va.0);
        let r = data_rank(before, s.va.0) as int;
        let all = index_data(segments);
        assert(all == before.insert(r, data_of(s)));
        assert forall|i: int, j: int| 0 <= i <= j < all.len() implies (#[trigger] all[i]).start <= (
        #[trigger] all[j]).start by {
            let bi = if i < r {
                i
            } else {
                i - 1
            };
            let bj = if j < r {
                j
            } else {
                j - 1
            };
            if i != r {
                assert(all[i] == before[bi]);
            }
            if j != r {
                assert(all[j] == before[bj]);
            }
        }
        assert forall|i: int| 0 <= i < segments.len() implies all.contains(
            data_of(#[trigger] segments[i]),
        ) by {
            if i < t.len() {
                assert(t[i] == segments[i]);
                let q = choose|q: int| 0 <= q < before.len() && before[q] == data_of(t[i]);
                if q < r {
                    assert(all[q] == before[q]);
                } else {
                    assert(all[q + 1] == before[q]);
                }
            } else {
                assert(all[r] == data_of(s));
            }
        }
        assert forall|j: int| 0 <= j < all.len() implies is_data_of(
            segments,
            #[trigger] all[j],
        ) by {
            if j == r {
                assert(data_of(segments[segments.len() - 1]) == all[j]);
            } else {
                let b = if j < r {
                    j
                } else {
                    j - 1
                };
                assert(all[j] == before[b]);
                assert(is_data_of(t, before[b]));
                let i = choose|i: int| 0 <= i < t.len() && data_of(#[trigger] t[i]) == before[b];
                assert(data_of(segments[i]) == all[j]);
            }
        }
    }
}

/// Whether a span is that of one of some segments.
pub open spec fn is_data_of(segments: Seq<SegmentView>, d: DataSpanView) -> bool {
    exists|i: int| 0 <= i < segments.len() && data_of(#[trigger] segments[i]) == d
}

/// Over disjoint segments the numbers at an address are those of the bytes that the one
/// segment there has for it, at one, two, four and eight bytes.
pub proof fn law_data_is_of_segment(segments: Seq<SegmentView>, i: int, va: u64)
    requires
        disjoint(segments),
        0 <= i < segments.len(),
        segments[i].va.0 <= va < segments[i].va.0 + segments[i].data.len(),
    ensures
        ({
            let s = segments[i];
            let at = va - s.va.0;
            let image = index_data(segments);
            &&& u8_at(image, va) == Some(s.data[at] as int)
            &&& at + 2 <= s.data.len() ==> u16_at(image, va) == Some(
                s.data[at] + 0x100 * s.data[at + 1],
            )
            &&& at + 4 <= s.data.len() ==> i32_at(image, va) == Some(
                if le32(s.data, at) < 0x8000_0000 {
                    le32(s.data, at)
                } else {
                    le32(s.data, at) - 0x1_0000_0000
                },
            )
            &&& at + 8 <= s.data.len() && !s.executable ==> u64_at_nonexec(image, va) == Some(
                le64(s.data, at) as u64,
            )
            &&& s.executable || at + 8 > s.data.len() ==> u64_at_nonexec(image, va) is None
        }),
{
    let image = index_data(segments);
    lemma_index_data(segments);
    lemma_data_rank_splits(image, va);
    let d = data_of(segments[i]);
    assert(image.contains(d));
    let q = choose|q: int| 0 <= q < image.len() && image[q] == d;
    let r = data_rank(image, va) as int;
    assert(image[q].start <= va);
    assert(q < r);
    let top = image[r - 1];
    assert(is_data_of(segments, top));
    let k = choose|k: int| 0 <= k < segments.len() && data_of(#[trigger] segments[k]) == top;
    assert(image[q].start <= top.start <= va);
    assert(segments[i].va.0 <= segments[k].va.0 <= va);
    assert(k == i);
}

} // verus!
