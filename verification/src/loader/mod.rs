//! Program images as mapped segments.

pub mod coff;
pub mod dyld;
pub mod elf;
pub mod elf_relocs;
pub mod mach_entry;
pub mod macho;
pub mod macho_laws;
pub mod object;
pub mod pe;

use crate::loader::coff::{loads_coff, parse_coff};
use crate::loader::elf::{loads_elf, parse_elf};
use crate::loader::mach_entry::{check_mach_entry, mach_entry_fits};
use crate::loader::macho::{loads_macho, parse_macho};
use crate::loader::object::{
    coff_image_of, elf_image_of, mach_image_of, object_kind, object_kind_of, open_object,
    pe_image_of, read_coff, read_elf, read_mach, read_pe, ObjectKind,
};
use crate::loader::pe::{loads_pe, parse_pe};
use crate::order::{
    insert_by_key, last_at_most, lemma_rank, lemma_stable_sort, rank, rank_of, sorted, stable_sort,
    Keyed,
};
use crate::va::{wrap64, Va};
use core::ops::Range;
use rustc_hash::FxHashSet;
use vstd::prelude::*;
use vstd::string::StringExecFns;

verus! {

/// A pointer slot that relocation metadata vouches for: the slot at `from` holds
/// the address `to` once the image is relocated.
#[derive(Clone, Copy, Debug, PartialEq, Eq, Structural)]
pub struct RelocPointer {
    /// Address of the slot.
    pub from: Va,
    /// Address that the slot holds.
    pub to: Va,
}

/// A named address.
#[derive(Clone, Debug)]
pub struct Symbol {
    pub name: String,
    pub va: Va,
}

/// What a [`Symbol`] says.
#[verifier::ext_equal]
pub struct SymbolView {
    pub name: Seq<char>,
    pub va: Va,
}

impl View for Symbol {
    type V = SymbolView;

    open spec fn view(&self) -> SymbolView {
        SymbolView { name: self.name@, va: self.va }
    }
}

/// What a list of symbols says.
pub open spec fn symbol_views(s: Seq<Symbol>) -> Seq<SymbolView> {
    s.map_values(|x: Symbol| x@)
}

/// Instruction set of an image.
#[derive(Clone, Copy, Debug, PartialEq, Eq, Structural)]
pub enum Arch {
    X86_64,
    Arm64,
    X86,
    Arm32,
    Unknown,
}

/// How the instructions of a segment are encoded.
#[derive(Clone, Copy, Debug, PartialEq, Eq, Structural)]
pub enum DecodeMode {
    /// The only encoding of the architecture.
    Default,
    /// ARM Thumb: a mix of two-byte and four-byte instructions.
    Thumb,
    /// ARM: four-byte instructions.
    Arm32,
}

/// A change of encoding at an address inside a segment.
#[derive(Clone, Copy, Debug, PartialEq, Eq, Structural)]
pub struct ModeSwitch {
    pub va: Va,
    pub mode: DecodeMode,
}

/// The bytes of a segment: a slice of the image, or zeros that the image does
/// not hold.
#[derive(Debug)]
pub struct SegData<'a> {
    inner: SegBytes<'a>,
}

#[derive(Debug)]
enum SegBytes<'a> {
    Mapped(&'a [u8]),
    Zeroed(Vec<u8>),
}

/// So many zero bytes.
pub open spec fn zeros(len: nat) -> Seq<u8> {
    Seq::new(len, |i: int| 0u8)
}

impl<'a> View for SegData<'a> {
    type V = Seq<u8>;

    closed spec fn view(&self) -> Seq<u8> {
        match self.inner {
            SegBytes::Mapped(s) => s@,
            SegBytes::Zeroed(v) => v@,
        }
    }
}

impl<'a> SegData<'a> {
    /// A slice of the image.
    pub fn new(data: &'a [u8]) -> (r: SegData<'a>)
        ensures
            r@ == data@,
    {
        SegData { inner: SegBytes::Mapped(data) }
    }

    /// The bytes.
    pub fn bytes(&self) -> (r: &[u8])
        ensures
            r@ == self@,
    {
        match &self.inner {
            SegBytes::Mapped(s) => s,
            SegBytes::Zeroed(v) => v.as_slice(),
        }
    }

    /// The number of bytes.
    pub fn len(&self) -> (r: usize)
        ensures
            r == self@.len(),
    {
        self.bytes().len()
    }
}

/// Zero-filled bytes for memory that the image does not hold.
pub fn alloc_bss<'a>(size: usize) -> (r: SegData<'a>)
    ensures
        r@ == zeros(size as nat),
{
    let v: Vec<u8> = vec![0u8; size];
    assert(v@ =~= zeros(size as nat));
    SegData { inner: SegBytes::Zeroed(v) }
}

/// A mapped part of an image.
#[derive(Debug)]
pub struct Segment<'a> {
    /// Address of the first byte.
    pub va: Va,
    /// The bytes.
    pub data: SegData<'a>,
    /// Whether it holds code.
    pub executable: bool,
    pub readable: bool,
    pub writable: bool,
    /// Whether a scan for pointer-sized values is worth it.
    pub byte_scannable: bool,
    /// Encoding of the instructions.
    pub mode: DecodeMode,
    /// Changes of encoding inside the segment, by address.
    pub switches: Vec<ModeSwitch>,
    /// Name for people, such as `.text`.
    pub name: String,
}

/// What a [`Segment`] says.
#[verifier::ext_equal]
pub struct SegmentView {
    pub va: Va,
    pub data: Seq<u8>,
    pub executable: bool,
    pub readable: bool,
    pub writable: bool,
    pub byte_scannable: bool,
    pub mode: DecodeMode,
    pub switches: Seq<ModeSwitch>,
    pub name: Seq<char>,
}

impl<'a> View for Segment<'a> {
    type V = SegmentView;

    open spec fn view(&self) -> SegmentView {
        SegmentView {
            va: self.va,
            data: self.data@,
            executable: self.executable,
            readable: self.readable,
            writable: self.writable,
            byte_scannable: self.byte_scannable,
            mode: self.mode,
            switches: self.switches@,
            name: self.name@,
        }
    }
}

/// What a list of segments says.
pub open spec fn segment_views(s: Seq<Segment<'_>>) -> Seq<SegmentView> {
    s.map_values(|x: Segment<'_>| x@)
}

impl SegmentView {
    /// The address behind the last byte.
    pub open spec fn end(self) -> u64 {
        wrap64(self.va.0 + self.data.len())
    }

    /// Whether an address lies in the segment.
    pub open spec fn covers(self, va: u64) -> bool {
        self.va.0 <= va < self.end()
    }

    /// Whether the segment ends inside the address space.
    pub open spec fn within_space(self) -> bool {
        self.va.0 + self.data.len() <= u64::MAX
    }

    /// The bytes from an address on, where the segment holds so many.
    pub open spec fn slice_at(self, va: u64, len: nat) -> Option<Seq<u8>> {
        if self.va.0 <= va && va - self.va.0 + len <= self.data.len() {
            Some(self.data.subrange(va - self.va.0, va - self.va.0 + len))
        } else {
            None
        }
    }
}

impl<'a> Segment<'a> {
    /// The bytes.
    pub fn data(&self) -> (r: &[u8])
        ensures
            r@ == self@.data,
    {
        self.data.bytes()
    }

    /// `len` bytes from `va` on, if all of them are in this segment.
    pub fn bytes_at(&self, va: Va, len: usize) -> (r: Option<&[u8]>)
        ensures
            r is Some <==> self@.slice_at(va.0, len as nat) is Some,
            r matches Some(s) ==> Some(s@) == self@.slice_at(va.0, len as nat),
    {
        if va.0 < self.va.0 {
            return None;
        }
        let data = self.data.bytes();
        let offset: u64 = va.0 - self.va.0;
        let total: usize = data.len();
        if offset > total as u64 {
            return None;
        }
        let from: usize = offset as usize;
        if len > total - from {
            return None;
        }
        Some(&data[from..from + len])
    }

    /// Addresses that the segment covers.
    pub fn va_range(&self) -> (r: Range<Va>)
        ensures
            r.start == self@.va,
            r.end == Va(self@.end()),
    {
        Range { start: self.va, end: self.va + self.data.len() as u64 }
    }

    /// Whether an address lies in the segment.
    pub fn contains(&self, va: Va) -> (r: bool)
        ensures
            r == self@.covers(va.0),
    {
        let range = self.va_range();
        range.start.0 <= va.0 && va.0 < range.end.0
    }
}

/// A segment has a byte at exactly the addresses that it covers, unless it runs
/// past the end of the address space.
pub proof fn law_covers_has_byte(s: SegmentView, va: u64)
    requires
        s.within_space(),
    ensures
        s.covers(va) <==> s.slice_at(va, 1) is Some,
{
}

/// A loaded image.
pub struct LoadedBinary<'a> {
    /// Instruction set.
    pub arch: Arch,
    /// Mapped segments, code and data.
    pub segments: Vec<Segment<'a>>,
    /// Entry points.
    pub entry_points: Vec<Va>,
    /// Named addresses.
    pub symbols: Vec<Symbol>,
    /// Base that was added to every address of a position-independent ELF image;
    /// zero for every other image.
    pub pie_base: u64,
    /// Slots that the dynamic linker fills with the addresses of imports.
    pub got_slots: FxHashSet<u64>,
    /// Pointers that relocation metadata vouches for.
    pub reloc_pointers: Vec<RelocPointer>,
}

/// Index of the first segment that covers an address.
pub open spec fn first_covering(segments: Seq<SegmentView>, va: u64) -> Option<int>
    decreases segments.len(),
{
    if segments.len() == 0 {
        None
    } else {
        match first_covering(segments.drop_last(), va) {
            Some(i) => Some(i),
            None => if segments.last().covers(va) {
                Some(segments.len() - 1)
            } else {
                None
            },
        }
    }
}

pub proof fn lemma_first_covering(segments: Seq<SegmentView>, va: u64)
    ensures
        match first_covering(segments, va) {
            Some(i) => 0 <= i < segments.len() && segments[i].covers(va) && forall|j: int|
                0 <= j < i ==> !(#[trigger] segments[j]).covers(va),
            None => forall|j: int|
                0 <= j < segments.len() ==> !(#[trigger] segments[j]).covers(va),
        },
    decreases segments.len(),
{
    if segments.len() > 0 {
        let t = segments.drop_last();
        lemma_first_covering(t, va);
        match first_covering(t, va) {
            Some(i) => {
                assert(t[i] == segments[i]);
                assert forall|j: int| 0 <= j < i implies !(#[trigger] segments[j]).covers(va) by {
                    assert(t[j] == segments[j]);
                }
            },
            None => {
                assert forall|j: int| 0 <= j < segments.len() - 1 implies !(
                #[trigger] segments[j]).covers(va) by {
                    assert(t[j] == segments[j]);
                }
            },
        }
    }
}

/// The only index that is covered with none before it.
pub proof fn lemma_first_covering_at(segments: Seq<SegmentView>, va: u64, i: int)
    requires
        0 <= i < segments.len(),
        segments[i].covers(va),
        forall|j: int| 0 <= j < i ==> !(#[trigger] segments[j]).covers(va),
    ensures
        first_covering(segments, va) == Some(i),
{
    lemma_first_covering(segments, va);
}

/// The segments that hold code.
pub open spec fn is_code(s: SegmentView) -> bool {
    s.executable
}

/// The segments that hold readable data.
pub open spec fn is_data(s: SegmentView) -> bool {
    !s.executable && s.readable
}

/// The segments to scan for pointers.
pub open spec fn is_scannable(s: SegmentView) -> bool {
    s.readable && !s.executable && s.byte_scannable
}

/// What a list of borrowed segments says.
pub open spec fn borrowed_views(s: Seq<&Segment<'_>>) -> Seq<SegmentView> {
    s.map_values(|x: &Segment<'_>| x@)
}

/// Lowest address of any segment, or zero where there is none.
pub open spec fn lowest_va(segments: Seq<SegmentView>) -> u64
    decreases segments.len(),
{
    if segments.len() == 0 {
        0
    } else if segments.len() == 1 || segments.last().va.0 < lowest_va(segments.drop_last()) {
        segments.last().va.0
    } else {
        lowest_va(segments.drop_last())
    }
}

/// The lowest address is that of a segment, and none lies below it.
pub proof fn law_lowest_va(segments: Seq<SegmentView>)
    ensures
        forall|i: int|
            0 <= i < segments.len() ==> lowest_va(segments) <= (#[trigger] segments[i]).va.0,
        segments.len() > 0 ==> exists|i: int|
            0 <= i < segments.len() && (#[trigger] segments[i]).va.0 == lowest_va(segments),
    decreases segments.len(),
{
    if segments.len() > 0 {
        let t = segments.drop_last();
        law_lowest_va(t);
        assert forall|i: int| 0 <= i < segments.len() implies lowest_va(segments) <= (
        #[trigger] segments[i]).va.0 by {
            if i < t.len() {
                assert(t[i] == segments[i]);
            }
        }
        if segments.len() == 1 || segments.last().va.0 < lowest_va(t) {
            assert(segments[segments.len() - 1].va.0 == lowest_va(segments));
        } else {
            let i = choose|i: int| 0 <= i < t.len() && (#[trigger] t[i]).va.0 == lowest_va(t);
            assert(segments[i].va.0 == lowest_va(segments));
        }
    }
}

impl<'a> LoadedBinary<'a> {
    /// What the segments say.
    pub open spec fn layout(&self) -> Seq<SegmentView> {
        segment_views(self.segments@)
    }

    /// An image of the given segments and nothing else.
    pub fn from_segments(arch: Arch, segments: Vec<Segment<'a>>) -> (r: LoadedBinary<'a>)
        ensures
            r.arch == arch,
            r.segments == segments,
            r.entry_points@ == Seq::<Va>::empty(),
            r.symbols@ == Seq::<Symbol>::empty(),
            r.pie_base == 0,
            r.got_slots@ == Set::<u64>::empty(),
            r.reloc_pointers@ == Seq::<RelocPointer>::empty(),
    {
        LoadedBinary {
            arch,
            segments,
            entry_points: Vec::new(),
            symbols: Vec::new(),
            pie_base: 0,
            got_slots: FxHashSet::default(),
            reloc_pointers: Vec::new(),
        }
    }

    /// The first segment that covers an address.
    pub fn segment_at(&self, va: Va) -> (r: Option<&Segment<'a>>)
        ensures
            match first_covering(self.layout(), va.0) {
                Some(i) => r == Some(&self.segments@[i]),
                None => r is None,
            },
    {
        let mut i: usize = 0;
        while i < self.segments.len()
            invariant
                i <= self.segments@.len(),
                forall|j: int| 0 <= j < i ==> !(#[trigger] self.layout()[j]).covers(va.0),
            decreases self.segments@.len() - i,
        {
            if self.segments[i].contains(va) {
                proof {
                    assert(self.layout()[i as int].covers(va.0));
                    lemma_first_covering_at(self.layout(), va.0, i as int);
                }
                return Some(&self.segments[i]);
            }
            i = i + 1;
        }
        proof {
            lemma_first_covering(self.layout(), va.0);
        }
        None
    }

    /// Whether any segment covers an address.
    pub fn is_mapped(&self, va: Va) -> (r: bool)
        ensures
            r == exists|i: int|
                0 <= i < self.segments@.len() && (#[trigger] self.segments@[i])@.covers(va.0),
    {
        proof {
            lemma_first_covering(self.layout(), va.0);
            assert forall|j: int| 0 <= j < self.segments@.len() implies (
            #[trigger] self.segments@[j])@ == self.layout()[j] by {}
        }
        self.segment_at(va).is_some()
    }

    /// Whether the first segment that covers an address holds code.
    pub fn is_executable(&self, va: Va) -> (r: bool)
        ensures
            r == match first_covering(self.layout(), va.0) {
                Some(i) => self.segments@[i].executable,
                None => false,
            },
    {
        match self.segment_at(va) {
            Some(s) => s.executable,
            None => false,
        }
    }

    /// The segments that hold code.
    pub fn code_segments(&self) -> (r: Vec<&Segment<'a>>)
        ensures
            borrowed_views(r@) == self.layout().filter(|s: SegmentView| is_code(s)),
    {
        let mut out: Vec<&Segment<'a>> = Vec::new();
        let ghost p = |s: SegmentView| is_code(s);
        let mut i: usize = 0;
        assert(self.layout().take(0).filter(p) =~= Seq::empty()) by {
            reveal(Seq::filter);
        }
        while i < self.segments.len()
            invariant
                i <= self.segments@.len(),
                p == (|s: SegmentView| is_code(s)),
                borrowed_views(out@) == self.layout().take(i as int).filter(p),
            decreases self.segments@.len() - i,
        {
            proof {
                lemma_filter_take(self.layout(), i as int, p);
            }
            if self.segments[i].executable {
                let ghost before = out@;
                out.push(&self.segments[i]);
                assert(borrowed_views(out@) =~= borrowed_views(before).push(
                    self.layout()[i as int],
                ));
            }
            i = i + 1;
        }
        assert(self.layout().take(i as int) =~= self.layout());
        out
    }

    /// The segments that hold readable data.
    pub fn data_segments(&self) -> (r: Vec<&Segment<'a>>)
        ensures
            borrowed_views(r@) == self.layout().filter(|s: SegmentView| is_data(s)),
    {
        let mut out: Vec<&Segment<'a>> = Vec::new();
        let ghost p = |s: SegmentView| is_data(s);
        let mut i: usize = 0;
        assert(self.layout().take(0).filter(p) =~= Seq::empty()) by {
            reveal(Seq::filter);
        }
        while i < self.segments.len()
            invariant
                i <= self.segments@.len(),
                p == (|s: SegmentView| is_data(s)),
                borrowed_views(out@) == self.layout().take(i as int).filter(p),
            decreases self.segments@.len() - i,
        {
            proof {
                lemma_filter_take(self.layout(), i as int, p);
            }
            if !self.segments[i].executable && self.segments[i].readable {
                let ghost before = out@;
                out.push(&self.segments[i]);
                assert(borrowed_views(out@) =~= borrowed_views(before).push(
                    self.layout()[i as int],
                ));
            }
            i = i + 1;
        }
        assert(self.layout().take(i as int) =~= self.layout());
        out
    }

    /// The segments worth scanning for pointer-sized values.
    pub fn scannable_data_segments(&self) -> (r: Vec<&Segment<'a>>)
        ensures
            borrowed_views(r@) == self.layout().filter(|s: SegmentView| is_scannable(s)),
    {
        let mut out: Vec<&Segment<'a>> = Vec::new();
        let ghost p = |s: SegmentView| is_scannable(s);
        let mut i: usize = 0;
        assert(self.layout().take(0).filter(p) =~= Seq::empty()) by {
            reveal(Seq::filter);
        }
        while i < self.segments.len()
            invariant
                i <= self.segments@.len(),
                p == (|s: SegmentView| is_scannable(s)),
                borrowed_views(out@) == self.layout().take(i as int).filter(p),
            decreases self.segments@.len() - i,
        {
            proof {
                lemma_filter_take(self.layout(), i as int, p);
            }
            let s = &self.segments[i];
            if s.readable && !s.executable && s.byte_scannable {
                let ghost before = out@;
                out.push(s);
                assert(borrowed_views(out@) =~= borrowed_views(before).push(
                    self.layout()[i as int],
                ));
            }
            i = i + 1;
        }
        assert(self.layout().take(i as int) =~= self.layout());
        out
    }

    /// The lowest address of any segment, or zero where there is none.
    pub fn min_va(&self) -> (r: Va)
        ensures
            r == Va(lowest_va(self.layout())),
    {
        let mut low: u64 = 0;
        let mut i: usize = 0;
        while i < self.segments.len()
            invariant
                i <= self.segments@.len(),
                low == lowest_va(self.layout().take(i as int)),
            decreases self.segments@.len() - i,
        {
            proof {
                assert(self.layout().take(i + 1).drop_last() =~= self.layout().take(i as int));
                assert(self.layout().take(i + 1).last() == self.segments@[i as int]@);
            }
            let va: u64 = self.segments[i].va.0;
            if i == 0 || va < low {
                low = va;
            }
            i = i + 1;
        }
        assert(self.layout().take(i as int) =~= self.layout());
        Va(low)
    }
}

/// Filtering one item more.
pub proof fn lemma_filter_take<A>(s: Seq<A>, i: int, p: spec_fn(A) -> bool)
    requires
        0 <= i < s.len(),
    ensures
        s.take(i + 1).filter(p) == if p(s[i]) {
            s.take(i).filter(p).push(s[i])
        } else {
            s.take(i).filter(p)
        },
{
    reveal(Seq::filter);
    assert(s.take(i + 1).drop_last() =~= s.take(i));
    assert(s.take(i + 1).last() == s[i]);
}

/// Addresses from `start` up to and without `end`.
#[derive(Clone, Copy, Debug, PartialEq, Eq, Structural)]
pub struct VaSpan {
    pub start: Va,
    pub end: Va,
}

impl Keyed for VaSpan {
    open spec fn key(&self) -> u64 {
        self.start.0
    }

    fn get_key(&self) -> (r: u64) {
        self.start.0
    }
}

/// Spans by start address, for lookup by binary search.
pub struct VaRangeSet {
    ranges: Vec<VaSpan>,
}

/// The span of each segment.
pub open spec fn segment_spans(segments: Seq<SegmentView>) -> Seq<VaSpan> {
    segments.map_values(|s: SegmentView| VaSpan { start: s.va, end: Va(s.end()) })
}

/// Whether the nearest span that starts at or before an address covers it. Where
/// the segments are disjoint, this is whether any covers it.
pub open spec fn in_spans(segments: Seq<SegmentView>, va: u64) -> bool {
    match last_at_most(stable_sort(segment_spans(segments)), va) {
        Some(span) => va < span.end.0,
        None => false,
    }
}

/// Whether no segment runs past the end of the address space, and none starts where
/// another does or inside it. That bars a segment without bytes from such a place too: the
/// nearest start decides a lookup by address, and it would hide the bytes there.
pub open spec fn disjoint(segments: Seq<SegmentView>) -> bool {
    &&& forall|i: int|
        0 <= i < segments.len() ==> (#[trigger] segments[i]).va.0 + segments[i].data.len()
            <= u64::MAX + 1
    &&& forall|i: int, j: int|
        0 <= i < segments.len() && 0 <= j < segments.len() && i != j && (
        #[trigger] segments[i]).va.0 <= (#[trigger] segments[j]).va.0 ==> segments[i].va.0
            + segments[i].data.len() <= segments[j].va.0 && segments[i].va != segments[j].va
}

/// Whether no two segments that hold bytes share an address, and none of them runs
/// past the end of the address space. Segments without bytes may lie anywhere.
pub open spec fn bytes_apart(segments: Seq<SegmentView>) -> bool {
    &&& forall|i: int|
        0 <= i < segments.len() && (#[trigger] segments[i]).data.len() > 0 ==> segments[i].va.0
            + segments[i].data.len() <= u64::MAX + 1
    &&& forall|i: int, j: int|
        0 <= i < j < segments.len() && (#[trigger] segments[i]).data.len() > 0 && (
        #[trigger] segments[j]).data.len() > 0 ==> segments[i].va.0 + segments[i].data.len()
            <= segments[j].va.0 || segments[j].va.0 + segments[j].data.len() <= segments[i].va.0
}

/// Over disjoint segments the nearest span decides: an address is in the spans
/// where some segment covers it.
pub proof fn law_spans_find_segment(segments: Seq<SegmentView>, va: u64)
    requires
        disjoint(segments),
    ensures
        in_spans(segments, va) <==> exists|i: int|
            0 <= i < segments.len() && (#[trigger] segments[i]).covers(va),
{
    let raw = segment_spans(segments);
    let spans = stable_sort(raw);
    lemma_stable_sort(raw);
    lemma_rank(spans, va);
    let r = rank(spans, va) as int;
    if in_spans(segments, va) {
        assert(spans.contains(spans[r - 1]));
        let k = choose|k: int| 0 <= k < raw.len() && raw[k] == spans[r - 1];
        assert(segments[k].covers(va));
    }
    assert forall|i: int| 0 <= i < segments.len() && (#[trigger] segments[i]).covers(
        va,
    ) implies in_spans(segments, va) by {
        assert(raw.contains(raw[i]));
        assert(spans.contains(raw[i]));
        let q = choose|q: int| 0 <= q < spans.len() && spans[q] == raw[i];
        assert(spans[q].key() <= va);
        assert(q < r);
        assert(spans.contains(spans[r - 1]));
        let k = choose|k: int| 0 <= k < raw.len() && raw[k] == spans[r - 1];
        assert(spans[q].key() <= spans[r - 1].key());
        assert(segments[i].va.0 <= segments[k].va.0 <= va);
    }
}

impl VaRangeSet {
    pub closed spec fn spans(&self) -> Seq<VaSpan> {
        self.ranges@
    }

    pub closed spec fn wf(&self) -> bool {
        sorted(self.ranges@)
    }

    /// Whether the set was built of these segments.
    pub open spec fn is_of(&self, segments: Seq<SegmentView>) -> bool {
        self.wf() && self.spans() == stable_sort(segment_spans(segments))
    }

    /// The spans of the given segments.
    pub fn build(segments: &Vec<Segment<'_>>) -> (r: VaRangeSet)
        ensures
            r.is_of(segment_views(segments@)),
    {
        let mut ranges: Vec<VaSpan> = Vec::new();
        let ghost all = segment_spans(segment_views(segments@));
        let mut i: usize = 0;
        assert(stable_sort(all.take(0)) =~= Seq::empty());
        while i < segments.len()
            invariant
                i <= segments@.len(),
                all == segment_spans(segment_views(segments@)),
                sorted(ranges@),
                ranges@ == stable_sort(all.take(i as int)),
            decreases segments@.len() - i,
        {
            let range = segments[i].va_range();
            proof {
                assert(all.take(i + 1).drop_last() =~= all.take(i as int));
                assert(all.take(i + 1).last() == all[i as int]);
            }
            insert_by_key(&mut ranges, VaSpan { start: range.start, end: range.end });
            i = i + 1;
        }
        assert(all.take(i as int) =~= all);
        VaRangeSet { ranges }
    }

    /// Whether the nearest span that starts at or before an address covers it.
    pub fn contains(&self, va: Va) -> (r: bool)
        requires
            self.wf(),
        ensures
            forall|segments: Seq<SegmentView>|
                #![trigger self.is_of(segments)]
                self.is_of(segments) ==> r == in_spans(segments, va.0),
    {
        let at: usize = rank_of(&self.ranges, va.0);
        if at == 0 {
            return false;
        }
        let span = self.ranges[at - 1];
        va.0 < span.end.0
    }
}

/// Why an image could not be loaded.
#[derive(Clone, Copy, Debug, PartialEq, Eq, Structural)]
pub enum LoadError {
    /// The file is of a known format but broken, or too short for any.
    Malformed,
    /// The file holds several Mach-O images.
    FatMachO,
    /// The sections of a Mach-O segment cannot be read.
    BadSections,
    /// The format is known but not supported.
    UnsupportedFormat,
    /// A shared cache has no usable mapping.
    NoMappings,
}

impl LoadError {
    /// The message as text.
    pub open spec fn text(self) -> Seq<char> {
        match self {
            LoadError::Malformed => "malformed object file"@,
            LoadError::FatMachO =>
                "fat (universal) Mach-O binaries are not supported; extract the desired arch slice first (e.g. with `lipo -extract`)"@,
            LoadError::BadSections => "unreadable Mach-O sections"@,
            LoadError::UnsupportedFormat => "unsupported binary format"@,
            LoadError::NoMappings => "dyld shared cache: no usable mappings found"@,
        }
    }

    /// A message for people.
    pub fn message(self) -> (r: &'static str)
        ensures
            r@ == self.text(),
    {
        match self {
            LoadError::Malformed => "malformed object file",
            LoadError::FatMachO => {
                "fat (universal) Mach-O binaries are not supported; extract the desired arch slice first (e.g. with `lipo -extract`)"
            },
            LoadError::BadSections => "unreadable Mach-O sections",
            LoadError::UnsupportedFormat => "unsupported binary format",
            LoadError::NoMappings => "dyld shared cache: no usable mappings found",
        }
    }
}

/// A file of no known format as one segment at address zero.
pub open spec fn raw_segment(file: Seq<u8>) -> SegmentView {
    SegmentView {
        va: Va(0),
        data: file,
        executable: true,
        readable: true,
        writable: false,
        byte_scannable: true,
        mode: DecodeMode::Default,
        switches: Seq::empty(),
        name: "raw"@,
    }
}

/// Whether a file of no known format is loaded as one segment.
pub open spec fn loads_raw(file: Seq<u8>, b: LoadedBinary<'_>) -> bool {
    &&& b.arch == Arch::Unknown
    &&& b.pie_base == 0
    &&& b.layout() == seq![raw_segment(file)]
    &&& b.entry_points@ == seq![Va(0)]
    &&& b.symbols@ == Seq::<Symbol>::empty()
    &&& b.got_slots@ == Set::<u64>::empty()
    &&& b.reloc_pointers@ == Seq::<RelocPointer>::empty()
}

/// What loading a file has to come to, where its entry point is an address.
pub open spec fn loads_object(
    file: Seq<u8>,
    base: Option<u64>,
    r: Result<LoadedBinary<'_>, LoadError>,
) -> bool {
    match (object_kind_of(file), r) {
        (None, Err(e)) => e == LoadError::Malformed,
        (Some(ObjectKind::Elf), Ok(b)) => loads_elf(elf_image_of(file), file, base, b),
        (Some(ObjectKind::MachO), Ok(b)) => loads_macho(mach_image_of(file), file, b),
        (Some(ObjectKind::MachO), Err(e)) => e == LoadError::BadSections && macho::mach_segments(
            mach_image_of(file),
            file,
        ) is None,
        (Some(ObjectKind::FatMachO), Err(e)) => e == LoadError::FatMachO,
        (Some(ObjectKind::Pe), Ok(b)) => loads_pe(pe_image_of(file), file, b),
        (Some(ObjectKind::Coff), Ok(b)) => loads_coff(coff_image_of(file), file, b),
        (Some(ObjectKind::Unknown), Ok(b)) => loads_raw(file, b),
        (Some(ObjectKind::Other), Err(e)) => e == LoadError::UnsupportedFormat,
        _ => false,
    }
}

/// What loading a file has to come to. A Mach-O image whose entry point is no
/// address is malformed.
pub open spec fn loads_as(
    file: Seq<u8>,
    base: Option<u64>,
    r: Result<LoadedBinary<'_>, LoadError>,
) -> bool {
    if mach_entry_fits(file) {
        loads_object(file, base, r)
    } else {
        r matches Err(e) && e == LoadError::Malformed
    }
}

/// Loads a file of no known format as one segment.
fn load_raw<'a>(bytes: &'a [u8]) -> (r: LoadedBinary<'a>)
    ensures
        loads_raw(bytes@, r),
{
    let mut segments: Vec<Segment<'a>> = Vec::new();
    let seg = Segment {
        va: Va(0),
        data: SegData::new(bytes),
        executable: true,
        readable: true,
        writable: false,
        byte_scannable: true,
        mode: DecodeMode::Default,
        switches: Vec::new(),
        name: String::from_str("raw"),
    };
    segments.push(seg);
    let mut entry_points: Vec<Va> = Vec::new();
    entry_points.push(Va(0));
    let b = LoadedBinary {
        arch: Arch::Unknown,
        segments,
        entry_points,
        symbols: Vec::new(),
        pie_base: 0,
        got_slots: FxHashSet::default(),
        reloc_pointers: Vec::new(),
    };
    assert(b.layout() =~= seq![raw_segment(bytes@)]);
    assert(b.entry_points@ =~= seq![Va(0)]);
    b
}

/// Loads an object file: ELF, a single Mach-O image, PE, COFF, or raw bytes.
///
/// `base` replaces the default base of a position-independent ELF image; it counts
/// for nothing else.
pub fn parse_binary<'a>(bytes: &'a [u8], base: Option<u64>) -> (r: Result<
    LoadedBinary<'a>,
    LoadError,
>)
    ensures
        loads_as(bytes@, base, r),
{
    if !check_mach_entry(bytes) {
        return Err(LoadError::Malformed);
    }
    let o = match open_object(bytes) {
        Ok(o) => o,
        Err(_) => {
            return Err(LoadError::Malformed);
        },
    };
    match object_kind(&o) {
        ObjectKind::Elf => match read_elf(&o) {
            Some(img) => Ok(parse_elf(bytes, &img, base)),
            None => Err(LoadError::Malformed),
        },
        ObjectKind::MachO => match read_mach(&o) {
            Some(img) => match parse_macho(bytes, &img) {
                Some(b) => Ok(b),
                None => Err(LoadError::BadSections),
            },
            None => Err(LoadError::Malformed),
        },
        ObjectKind::FatMachO => Err(LoadError::FatMachO),
        ObjectKind::Pe => match read_pe(&o) {
            Some(img) => Ok(parse_pe(bytes, &img)),
            None => Err(LoadError::Malformed),
        },
        ObjectKind::Coff => match read_coff(&o) {
            Some(img) => Ok(parse_coff(bytes, &img)),
            None => Err(LoadError::Malformed),
        },
        ObjectKind::Unknown => Ok(load_raw(bytes)),
        ObjectKind::Other => Err(LoadError::UnsupportedFormat),
    }
}

impl<'a> LoadedBinary<'a> {
    /// Loads the bytes of an object file. Shared caches span several files and are
    /// loaded with [`dyld::parse_dyld_cache`].
    pub fn load(bytes: &'a [u8]) -> (r: Result<LoadedBinary<'a>, LoadError>)
        ensures
            loads_as(bytes@, None, r),
    {
        Self::load_with_base(bytes, None)
    }

    /// Loads the bytes of an object file, a position-independent ELF image at the
    /// given base.
    pub fn load_with_base(bytes: &'a [u8], base: Option<u64>) -> (r: Result<
        LoadedBinary<'a>,
        LoadError,
    >)
        ensures
            loads_as(bytes@, base, r),
    {
        parse_binary(bytes, base)
    }
}

} // verus!
