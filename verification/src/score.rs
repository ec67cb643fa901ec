//! Scoring of found cross-references against a ground truth.
//!
//! References are compared as pairs of addresses, together and for each scored
//! kind. References of the truth to imports lead to made-up addresses behind the
//! image; they are led back to the import slots first.

use crate::arch::x86_64::memory_operand;
use crate::arch::x86_insn::{
    decode_next, open_decoder, x86_decoded, X86Insn, CODE_INVALID, KIND_MEMORY, REG_RIP,
};
use crate::loader::{
    first_covering, lemma_filter_take, lemma_first_covering, Arch, LoadedBinary, SegmentView,
};
use crate::pairs::{with_pair, PairIndex, PairSet};
use crate::va::{wrap64, Va};
use crate::xref::{Xref, XrefKind};
use vstd::prelude::*;

verus! {

/// Bytes that decoding an x86 instruction needs at most.
pub const MAX_INSN_LEN: usize = 15;

/// True positives, false positives and false negatives.
#[derive(Clone, Copy, Debug, PartialEq, Eq, Structural)]
pub struct Stats {
    pub tp: usize,
    pub fp: usize,
    pub fn_: usize,
}

/// The pairs of one sequence that another holds.
pub open spec fn common(a: Seq<(u64, u64)>, b: Seq<(u64, u64)>) -> Seq<(u64, u64)> {
    a.filter(|p: (u64, u64)| b.contains(p))
}

/// The pairs of one sequence that another does not hold.
pub open spec fn missing(a: Seq<(u64, u64)>, b: Seq<(u64, u64)>) -> Seq<(u64, u64)> {
    a.filter(|p: (u64, u64)| !b.contains(p))
}

/// Counts what was found rightly, wrongly, and not at all.
pub fn compute_stats(found: &PairSet, truth: &PairSet) -> (r: Stats)
    requires
        found.wf(),
        truth.wf(),
    ensures
        r.tp == common(found@, truth@).len(),
        r.fp == found@.len() - common(found@, truth@).len(),
        r.fn_ == truth@.len() - common(found@, truth@).len(),
{
    let ghost p = |p: (u64, u64)| truth@.contains(p);
    let mut tp: usize = 0;
    let mut i: usize = 0;
    assert(found@.take(0).filter(p) =~= Seq::empty()) by {
        reveal(Seq::filter);
    }
    while i < found.len()
        invariant
            i <= found@.len(),
            truth.wf(),
            p == (|p: (u64, u64)| truth@.contains(p)),
            tp <= i,
            tp == found@.take(i as int).filter(p).len(),
        decreases found@.len() - i,
    {
        proof {
            lemma_filter_take(found@, i as int, p);
        }
        let (from, to) = found.get(i);
        if truth.contains(from, to) {
            tp = tp + 1;
        }
        i = i + 1;
    }
    proof {
        assert(found@.take(i as int) =~= found@);
        found.lemma_distinct();
        truth.lemma_distinct();
        lemma_common_fits(found@, truth@);
    }
    Stats { tp, fp: found.len() - tp, fn_: truth.len() - tp }
}

/// A sequence without repetitions has no more pairs in common with another than
/// that holds.
proof fn lemma_common_fits(a: Seq<(u64, u64)>, b: Seq<(u64, u64)>)
    requires
        a.no_duplicates(),
        b.no_duplicates(),
    ensures
        common(a, b).len() <= a.len(),
        common(a, b).len() <= b.len(),
        common(a, b).no_duplicates(),
        common(a, b).to_set() == a.to_set().intersect(b.to_set()),
{
    let p = |p: (u64, u64)| b.contains(p);
    let c = common(a, b);
    lemma_filter_distinct(a, p);
    assert(c.to_set() =~= a.to_set().intersect(b.to_set())) by {
        assert forall|x: (u64, u64)| c.to_set().contains(x) <==> a.to_set().intersect(
            b.to_set(),
        ).contains(x) by {
            assert(c.to_set().contains(x) <==> c.contains(x));
        }
    }
    c.unique_seq_to_set();
    b.unique_seq_to_set();
    vstd::set_lib::lemma_len_subset(c.to_set(), b.to_set());
}

proof fn lemma_filter_distinct(a: Seq<(u64, u64)>, p: spec_fn((u64, u64)) -> bool)
    requires
        a.no_duplicates(),
    ensures
        a.filter(p).len() <= a.len(),
        a.filter(p).no_duplicates(),
        forall|x: (u64, u64)| #[trigger] a.filter(p).contains(x) <==> a.contains(x) && p(x),
    decreases a.len(),
{
    reveal(Seq::filter);
    if a.len() > 0 {
        let t = a.drop_last();
        let last = a.last();
        assert(t.no_duplicates()) by {
            assert forall|i: int, j: int|
                0 <= i < t.len() && 0 <= j < t.len() && i != j implies t[i] != t[j] by {
                assert(a[i] != a[j]);
            }
        }
        lemma_filter_distinct(t, p);
        let f = t.filter(p);
        let g = a.filter(p);
        assert forall|x: (u64, u64)| #[trigger] g.contains(x) <==> a.contains(x) && p(x) by {
            if g.contains(x) {
                let i = choose|i: int| 0 <= i < g.len() && g[i] == x;
                if i < f.len() {
                    assert(f[i] == x);
                    assert(f.contains(x));
                    let j = choose|j: int| 0 <= j < t.len() && t[j] == x;
                    assert(a[j] == x);
                } else {
                    assert(a[a.len() - 1] == x);
                }
            }
            if a.contains(x) && p(x) {
                let j = choose|j: int| 0 <= j < a.len() && a[j] == x;
                if j < t.len() {
                    assert(t[j] == x);
                    assert(t.contains(x));
                    assert(f.contains(x));
                    let i = choose|i: int| 0 <= i < f.len() && f[i] == x;
                    assert(g[i] == x);
                } else {
                    assert(g[g.len() - 1] == x);
                }
            }
        }
        assert(g.no_duplicates()) by {
            assert forall|i: int, j: int|
                0 <= i < g.len() && 0 <= j < g.len() && i != j implies g[i] != g[j] by {
                if i < f.len() && j < f.len() {
                    assert(f[i] != f[j]);
                } else {
                    let k = if i < f.len() {
                        i
                    } else {
                        j
                    };
                    if k < f.len() {
                        assert(f.contains(f[k]));
                        assert(t.contains(f[k]));
                        let q = choose|q: int| 0 <= q < t.len() && t[q] == f[k];
                        assert(a[q] != a[a.len() - 1]);
                    }
                }
            }
        }
    }
}

/// The counts are those of sets: what both have, what only the one has, and what
/// only the other has.
pub proof fn law_stats_count_sets(a: Seq<(u64, u64)>, b: Seq<(u64, u64)>)
    requires
        a.no_duplicates(),
        b.no_duplicates(),
    ensures
        common(a, b).len() == a.to_set().intersect(b.to_set()).len(),
        common(a, b).len() == common(b, a).len(),
        a.len() == a.to_set().len(),
        common(a, b).len() + missing(a, b).len() == a.len(),
{
    lemma_common_fits(a, b);
    lemma_common_fits(b, a);
    common(a, b).unique_seq_to_set();
    common(b, a).unique_seq_to_set();
    a.unique_seq_to_set();
    assert(a.to_set().intersect(b.to_set()) =~= b.to_set().intersect(a.to_set()));
    lemma_split(a, b);
}

proof fn lemma_split(a: Seq<(u64, u64)>, b: Seq<(u64, u64)>)
    ensures
        common(a, b).len() + missing(a, b).len() == a.len(),
    decreases a.len(),
{
    reveal(Seq::filter);
    if a.len() > 0 {
        lemma_split(a.drop_last(), b);
    }
}

/// What is added to the addresses of a truth: nothing, unless it says where its
/// image was based and the image was moved here.
pub open spec fn truth_offset(image_base: Option<u64>, pie_base: u64) -> u64 {
    match image_base {
        Some(b) if pie_base != 0 => wrap64(pie_base - b),
        _ => 0,
    }
}

/// What is added to the addresses of a truth.
pub fn truth_offset_of(image_base: Option<u64>, pie_base: u64) -> (r: u64)
    ensures
        r == truth_offset(image_base, pie_base),
{
    match image_base {
        Some(b) => if pie_base != 0 {
            pie_base.wrapping_sub(b)
        } else {
            0
        },
        None => 0,
    }
}

/// The greatest end of the first `k` segments.
pub open spec fn highest_end(segments: Seq<SegmentView>, k: int) -> u64
    decreases k,
{
    if k <= 0 {
        0
    } else {
        let before = highest_end(segments, k - 1);
        let end = segments[k - 1].end();
        if end > before {
            end
        } else {
            before
        }
    }
}

/// The address from which on nothing is mapped.
pub open spec fn image_bound(segments: Seq<SegmentView>) -> u64 {
    if segments.len() == 0 {
        u64::MAX
    } else {
        highest_end(segments, segments.len() as int)
    }
}

/// The address from which on nothing is mapped; addresses of imports in a truth lie
/// there.
pub fn extern_bound(binary: &LoadedBinary<'_>) -> (r: u64)
    ensures
        r == image_bound(binary.layout()),
{
    if binary.segments.len() == 0 {
        return u64::MAX;
    }
    let ghost segs = binary.layout();
    let mut top: u64 = 0;
    let mut i: usize = 0;
    while i < binary.segments.len()
        invariant
            i <= binary.segments@.len(),
            segs == binary.layout(),
            top == highest_end(segs, i as int),
        decreases binary.segments@.len() - i,
    {
        assert(segs[i as int] == binary.segments@[i as int]@);
        let end: u64 = binary.segments[i].va_range().end.0;
        if end > top {
            top = end;
        }
        i = i + 1;
    }
    top
}

/// The instruction at an address, and the bytes it is decoded from.
pub open spec fn insn_at(segments: Seq<SegmentView>, va: u64) -> Option<X86Insn> {
    match first_covering(segments, va) {
        Some(i) => {
            let s = segments[i];
            let at = va - s.va.0;
            let end = if at + MAX_INSN_LEN < s.data.len() {
                at + MAX_INSN_LEN
            } else {
                s.data.len() as int
            };
            Some(x86_decoded(64, s.data.subrange(at, end), va))
        },
        None => None,
    }
}

/// The address of the memory operand of an instruction, where that is relative to
/// RIP and among the first four.
pub open spec fn rip_target(insn: X86Insn) -> Option<u64> {
    match memory_operand(insn, 0) {
        Some(op) => if insn.code != CODE_INVALID && op < 4 && insn.base == REG_RIP {
            Some(insn.disp)
        } else {
            None
        },
        None => None,
    }
}

/// The address of the memory operand of an instruction.
fn rip_target_of(insn: &X86Insn) -> (r: Option<u64>)
    requires
        insn.op_count <= 5,
    ensures
        r == rip_target(*insn),
{
    let mut op: u32 = 0;
    while op < insn.op_count && insn.kinds[op as usize] != KIND_MEMORY
        invariant
            op <= insn.op_count <= 5,
            memory_operand(*insn, 0) == memory_operand(*insn, op as int),
        decreases insn.op_count - op,
    {
        op = op + 1;
    }
    if op < insn.op_count && op < 4 && insn.code != CODE_INVALID && insn.base == REG_RIP {
        Some(insn.disp)
    } else {
        None
    }
}

/// The slot that an instruction at an address refers to.
pub open spec fn slot_at(segments: Seq<SegmentView>, va: u64) -> Option<u64> {
    match insn_at(segments, va) {
        Some(insn) => rip_target(insn),
        None => None,
    }
}

/// The import slot that the x86-64 instruction at an address calls, jumps or reads
/// through: its memory operand, where that is relative to RIP.
pub fn resolve_x86_got_slot(binary: &LoadedBinary<'_>, from_va: Va) -> (r: Option<Va>)
    ensures
        r == match slot_at(binary.layout(), from_va.0) {
            Some(s) => Some(Va(s)),
            None => None,
        },
{
    proof {
        lemma_first_covering(binary.layout(), from_va.0);
    }
    let seg = match binary.segment_at(from_va) {
        Some(s) => s,
        None => {
            return None;
        },
    };
    let data = seg.data();
    let total: usize = data.len();
    let at: usize = (from_va.0 - seg.va.0) as usize;
    let end: usize = if MAX_INSN_LEN < total - at {
        at + MAX_INSN_LEN
    } else {
        total
    };
    let mut decoder = open_decoder(64, &data[at..end], from_va.0);
    let insn = decode_next(&mut decoder);
    match rip_target_of(&insn) {
        Some(t) => Some(Va(t)),
        None => None,
    }
}

/// A reference of a truth, moved by an offset, with references to imports led back
/// to their slots.
pub open spec fn normalized(
    arch: Arch,
    segments: Seq<SegmentView>,
    offset: u64,
    from: u64,
    to: u64,
) -> (u64, u64) {
    let f = wrap64(from + offset);
    let t = wrap64(to + offset);
    match slot_at(segments, f) {
        Some(slot) if t >= image_bound(segments) && arch == Arch::X86_64 => (f, slot),
        _ => (f, t),
    }
}

/// Whether a reference of a truth is led back to a slot.
pub open spec fn is_led_back(
    arch: Arch,
    segments: Seq<SegmentView>,
    offset: u64,
    from: u64,
    to: u64,
) -> bool {
    wrap64(to + offset) >= image_bound(segments) && arch == Arch::X86_64 && slot_at(
        segments,
        wrap64(from + offset),
    ) is Some
}

/// Moves a reference of a truth and leads it back to an import slot where it leads
/// behind the image. Also says whether it was led back.
pub fn normalize_pair(
    binary: &LoadedBinary<'_>,
    bound: u64,
    offset: u64,
    from: u64,
    to: u64,
) -> (r: (u64, u64, bool))
    requires
        bound == image_bound(binary.layout()),
    ensures
        (r.0, r.1) == normalized(binary.arch, binary.layout(), offset, from, to),
        r.2 == is_led_back(binary.arch, binary.layout(), offset, from, to),
{
    let f = Va(from) + offset;
    let t = Va(to) + offset;
    if t.0 >= bound && binary.arch == Arch::X86_64 {
        match resolve_x86_got_slot(binary, f) {
            Some(slot) => {
                return (f.0, slot.0, true);
            },
            None => {},
        }
    }
    (f.0, t.0, false)
}

/// The number of a scored kind.
pub open spec fn kind_number(k: XrefKind) -> int {
    match k.scored() {
        XrefKind::Call => 0,
        XrefKind::Jump => 1,
        XrefKind::DataRead => 2,
        XrefKind::DataWrite => 3,
        _ => 4,
    }
}

/// The number of a scored kind.
fn kind_number_of(k: XrefKind) -> (r: usize)
    ensures
        r == kind_number(k),
        r < 5,
{
    match k.scored_kind() {
        XrefKind::Call => 0,
        XrefKind::Jump => 1,
        XrefKind::DataRead => 2,
        XrefKind::DataWrite => 3,
        _ => 4,
    }
}

/// Pairs together and by scored kind.
pub struct KindSets {
    all: PairSet,
    kinds: Vec<PairSet>,
}

/// What [`KindSets`] hold.
#[verifier::ext_equal]
pub struct KindSetsView {
    pub all: Seq<(u64, u64)>,
    pub kinds: Seq<Seq<(u64, u64)>>,
}

impl View for KindSets {
    type V = KindSetsView;

    closed spec fn view(&self) -> KindSetsView {
        KindSetsView {
            all: self.all@,
            kinds: self.kinds@.map_values(|s: PairSet| s@),
        }
    }
}

impl KindSetsView {
    /// With one more pair, of a kind where that is known.
    pub open spec fn plus(self, pair: (u64, u64), kind: Option<XrefKind>) -> KindSetsView {
        KindSetsView {
            all: with_pair(self.all, pair),
            kinds: match kind {
                Some(k) => self.kinds.update(
                    kind_number(k),
                    with_pair(self.kinds[kind_number(k)], pair),
                ),
                None => self.kinds,
            },
        }
    }

    /// The pairs of a kind.
    pub open spec fn of(self, k: XrefKind) -> Seq<(u64, u64)> {
        self.kinds[kind_number(k)]
    }
}

impl KindSets {
    pub closed spec fn wf(&self) -> bool {
        &&& self.all.wf()
        &&& self.kinds@.len() == 5
        &&& forall|i: int| 0 <= i < 5 ==> (#[trigger] self.kinds@[i]).wf()
    }

    /// No pairs.
    pub fn new() -> (r: KindSets)
        ensures
            r.wf(),
            r@ == (KindSetsView {
                all: Seq::empty(),
                kinds: Seq::new(5, |i: int| Seq::empty()),
            }),
    {
        let mut kinds: Vec<PairSet> = Vec::new();
        let mut i: usize = 0;
        while i < 5
            invariant
                i <= 5,
                kinds@.len() == i,
                forall|j: int|
                    0 <= j < i ==> (#[trigger] kinds@[j]).wf() && kinds@[j]@ == Seq::<
                        (u64, u64),
                    >::empty(),
            decreases 5 - i,
        {
            kinds.push(PairSet::new());
            i = i + 1;
        }
        let r = KindSets { all: PairSet::new(), kinds };
        assert(r@.kinds =~= Seq::new(5, |i: int| Seq::empty()));
        r
    }

    /// Adds a pair, of a kind where that is known.
    pub fn insert(&mut self, from: u64, to: u64, kind: Option<XrefKind>)
        requires
            old(self).wf(),
        ensures
            final(self).wf(),
            final(self)@ == old(self)@.plus((from, to), kind),
    {
        let ghost before = self@;
        self.all.insert(from, to);
        match kind {
            Some(k) => {
                let i: usize = kind_number_of(k);
                let ghost kinds = self.kinds@;
                self.kinds[i].insert(from, to);
                assert(self@.kinds =~= before.kinds.update(
                    i as int,
                    with_pair(before.kinds[i as int], (from, to)),
                ));
            },
            None => {},
        }
        assert(self@ =~= before.plus((from, to), kind));
    }

    /// All pairs.
    pub fn all(&self) -> (r: &PairSet)
        requires
            self.wf(),
        ensures
            r.wf(),
            r@ == self@.all,
    {
        &self.all
    }

    /// The pairs of a kind.
    pub fn of(&self, k: XrefKind) -> (r: &PairSet)
        requires
            self.wf(),
        ensures
            r.wf(),
            r@ == self@.of(k),
    {
        &self.kinds[kind_number_of(k)]
    }
}

/// A reference of a truth.
#[derive(Clone, Debug)]
pub struct TruthRef {
    pub from: u64,
    pub to: u64,
    /// Label of the kind.
    pub kind: String,
}

/// The sets of no pairs.
pub open spec fn no_sets() -> KindSetsView {
    KindSetsView { all: Seq::empty(), kinds: Seq::new(5, |i: int| Seq::empty()) }
}

/// The pairs of the first `k` references of a truth.
pub open spec fn truth_sets(
    arch: Arch,
    segments: Seq<SegmentView>,
    offset: u64,
    refs: Seq<TruthRef>,
    k: int,
) -> KindSetsView
    decreases k,
{
    if k <= 0 {
        no_sets()
    } else {
        let x = refs[k - 1];
        truth_sets(arch, segments, offset, refs, k - 1).plus(
            normalized(arch, segments, offset, x.from, x.to),
            XrefKind::with_label(x.kind@),
        )
    }
}

/// How many of the first `k` references of a truth are led back to slots.
pub open spec fn led_back(
    arch: Arch,
    segments: Seq<SegmentView>,
    offset: u64,
    refs: Seq<TruthRef>,
    k: int,
) -> int
    decreases k,
{
    if k <= 0 {
        0
    } else {
        led_back(arch, segments, offset, refs, k - 1) + if is_led_back(
            arch,
            segments,
            offset,
            refs[k - 1].from,
            refs[k - 1].to,
        ) {
            1int
        } else {
            0
        }
    }
}

/// Collects the pairs of a truth. Also counts the references led back to slots.
pub fn collect_truth(binary: &LoadedBinary<'_>, offset: u64, refs: &Vec<TruthRef>) -> (r: (
    KindSets,
    usize,
))
    ensures
        r.0.wf(),
        r.0@ == truth_sets(
            binary.arch,
            binary.layout(),
            offset,
            refs@,
            refs@.len() as int,
        ),
        r.1 == led_back(binary.arch, binary.layout(), offset, refs@, refs@.len() as int),
{
    let bound: u64 = extern_bound(binary);
    let ghost segs = binary.layout();
    let mut sets = KindSets::new();
    let mut count: usize = 0;
    let mut i: usize = 0;
    while i < refs.len()
        invariant
            i <= refs@.len(),
            segs == binary.layout(),
            bound == image_bound(segs),
            sets.wf(),
            sets@ == truth_sets(binary.arch, segs, offset, refs@, i as int),
            count <= i,
            count == led_back(binary.arch, segs, offset, refs@, i as int),
        decreases refs@.len() - i,
    {
        let x = &refs[i];
        let (from, to, back) = normalize_pair(binary, bound, offset, x.from, x.to);
        sets.insert(from, to, XrefKind::from_name(x.kind.as_str()));
        if back {
            count = count + 1;
        }
        i = i + 1;
    }
    (sets, count)
}

/// The pairs of the first `k` cross-references.
pub open spec fn found_sets(xrefs: Seq<Xref>, k: int) -> KindSetsView
    decreases k,
{
    if k <= 0 {
        no_sets()
    } else {
        let x = xrefs[k - 1];
        found_sets(xrefs, k - 1).plus((x.from.0, x.to.0), Some(x.kind))
    }
}

/// Where each pair came last among the first `k` cross-references.
pub open spec fn last_places(xrefs: Seq<Xref>, k: int) -> Map<(u64, u64), usize>
    decreases k,
{
    if k <= 0 {
        Map::empty()
    } else {
        let x = xrefs[k - 1];
        last_places(xrefs, k - 1).insert((x.from.0, x.to.0), (k - 1) as usize)
    }
}

/// Collects the pairs of cross-references, and where each came last.
pub fn collect_found(xrefs: &Vec<Xref>) -> (r: (KindSets, PairIndex))
    ensures
        r.0.wf(),
        r.0@ == found_sets(xrefs@, xrefs@.len() as int),
        r.1@ == last_places(xrefs@, xrefs@.len() as int),
{
    let mut sets = KindSets::new();
    let mut places = PairIndex::new();
    let mut i: usize = 0;
    while i < xrefs.len()
        invariant
            i <= xrefs@.len(),
            sets.wf(),
            sets@ == found_sets(xrefs@, i as int),
            places@ == last_places(xrefs@, i as int),
        decreases xrefs@.len() - i,
    {
        let x = xrefs[i];
        sets.insert(x.from.0, x.to.0, Some(x.kind));
        places.set(x.from.0, x.to.0, i);
        i = i + 1;
    }
    (sets, places)
}

/// The scored kind that a pair was found with, the last time it was.
pub open spec fn found_kind(xrefs: Seq<Xref>, pair: (u64, u64)) -> Option<XrefKind> {
    let places = last_places(xrefs, xrefs.len() as int);
    if places.dom().contains(pair) {
        Some(xrefs[places[pair] as int].kind.scored())
    } else {
        None
    }
}

proof fn lemma_places(xrefs: Seq<Xref>, k: int)
    requires
        0 <= k <= xrefs.len() <= usize::MAX,
    ensures
        forall|p: (u64, u64)|
            #[trigger] last_places(xrefs, k).dom().contains(p) ==> last_places(xrefs, k)[p] < k,
    decreases k,
{
    if k > 0 {
        lemma_places(xrefs, k - 1);
        let before = last_places(xrefs, k - 1);
        let after = last_places(xrefs, k);
        assert forall|p: (u64, u64)| #[trigger] after.dom().contains(p) implies after[p] < k by {
            if p != (xrefs[k - 1].from.0, xrefs[k - 1].to.0) {
                assert(before.dom().contains(p));
            }
        }
    }
}

/// Whether a pair is of a kind: as it was found, or as the truth has it where it was
/// not.
pub open spec fn pair_has_kind(
    xrefs: Seq<Xref>,
    truth: KindSetsView,
    pair: (u64, u64),
    kind: Option<XrefKind>,
) -> bool {
    match kind {
        Some(k) => match found_kind(xrefs, pair) {
            Some(f) => f == k,
            None => truth.all.contains(pair) && truth.of(k).contains(pair),
        },
        None => true,
    }
}

/// The label of a pair: of the kind it was found with, else of the first kind that
/// the truth has it under.
pub open spec fn pair_label(xrefs: Seq<Xref>, truth: KindSetsView, pair: (u64, u64)) -> Seq<char> {
    match found_kind(xrefs, pair) {
        Some(k) => k.label(),
        None => if truth.of(XrefKind::Call).contains(pair) {
            XrefKind::Call.label()
        } else if truth.of(XrefKind::Jump).contains(pair) {
            XrefKind::Jump.label()
        } else if truth.of(XrefKind::DataRead).contains(pair) {
            XrefKind::DataRead.label()
        } else if truth.of(XrefKind::DataWrite).contains(pair) {
            XrefKind::DataWrite.label()
        } else if truth.of(XrefKind::DataPointer).contains(pair) {
            XrefKind::DataPointer.label()
        } else {
            "unknown"@
        },
    }
}

/// A pair to write out, with the label of its kind.
#[derive(Clone, Copy, Debug)]
pub struct DumpEntry {
    pub from: u64,
    pub to: u64,
    pub kind: &'static str,
}

/// What a [`DumpEntry`] says.
#[verifier::ext_equal]
pub struct DumpView {
    pub from: u64,
    pub to: u64,
    pub kind: Seq<char>,
}

impl View for DumpEntry {
    type V = DumpView;

    open spec fn view(&self) -> DumpView {
        DumpView { from: self.from, to: self.to, kind: self.kind@ }
    }
}

/// What some entries say.
pub open spec fn dump_views(s: Seq<DumpEntry>) -> Seq<DumpView> {
    s.map_values(|x: DumpEntry| x@)
}

/// The entries of some pairs of a kind.
pub open spec fn dump_of(
    xrefs: Seq<Xref>,
    truth: KindSetsView,
    pairs: Seq<(u64, u64)>,
    kind: Option<XrefKind>,
) -> Seq<DumpView> {
    pairs.filter(|p: (u64, u64)| pair_has_kind(xrefs, truth, p, kind)).map_values(
        |p: (u64, u64)|
            DumpView { from: p.0, to: p.1, kind: pair_label(xrefs, truth, p) },
    )
}

/// What was found, what is true, and how they are compared pair by pair.
pub struct Comparison<'a> {
    pub xrefs: &'a Vec<Xref>,
    pub found: &'a KindSets,
    pub places: &'a PairIndex,
    pub truth: &'a KindSets,
}

impl<'a> Comparison<'a> {
    /// Whether the sets are those of the cross-references.
    pub open spec fn wf(&self) -> bool {
        &&& self.found.wf()
        &&& self.truth.wf()
        &&& self.found@ == found_sets(self.xrefs@, self.xrefs@.len() as int)
        &&& self.places@ == last_places(self.xrefs@, self.xrefs@.len() as int)
    }

    /// The scored kind that a pair was found with.
    fn kind_found(&self, from: u64, to: u64) -> (r: Option<XrefKind>)
        requires
            self.wf(),
        ensures
            r == found_kind(self.xrefs@, (from, to)),
    {
        proof {
            assert(self.xrefs.len() <= usize::MAX);
            lemma_places(self.xrefs@, self.xrefs@.len() as int);
        }
        match self.places.get(from, to) {
            Some(i) => {
                assert(self.places@.dom().contains((from, to)));
                Some(self.xrefs[i].kind.scored_kind())
            },
            None => None,
        }
    }

    /// Whether a pair is of a kind.
    fn matches_kind(&self, from: u64, to: u64, kind: Option<XrefKind>) -> (r: bool)
        requires
            self.wf(),
        ensures
            r == pair_has_kind(self.xrefs@, self.truth@, (from, to), kind),
    {
        match kind {
            Some(k) => match self.kind_found(from, to) {
                Some(f) => f == k,
                None => self.truth.all().contains(from, to) && self.truth.of(k).contains(from, to),
            },
            None => true,
        }
    }

    /// The label of a pair.
    fn label_of(&self, from: u64, to: u64) -> (r: &'static str)
        requires
            self.wf(),
        ensures
            r@ == pair_label(self.xrefs@, self.truth@, (from, to)),
    {
        match self.kind_found(from, to) {
            Some(k) => k.name(),
            None => if self.truth.of(XrefKind::Call).contains(from, to) {
                XrefKind::Call.name()
            } else if self.truth.of(XrefKind::Jump).contains(from, to) {
                XrefKind::Jump.name()
            } else if self.truth.of(XrefKind::DataRead).contains(from, to) {
                XrefKind::DataRead.name()
            } else if self.truth.of(XrefKind::DataWrite).contains(from, to) {
                XrefKind::DataWrite.name()
            } else if self.truth.of(XrefKind::DataPointer).contains(from, to) {
                XrefKind::DataPointer.name()
            } else {
                "unknown"
            },
        }
    }

    /// The pairs of one set that another has, or has not.
    fn select(&self, of: &PairSet, other: &PairSet, shared: bool) -> (r: Vec<(u64, u64)>)
        requires
            of.wf(),
            other.wf(),
        ensures
            r@ == if shared {
                common(of@, other@)
            } else {
                missing(of@, other@)
            },
    {
        let ghost yes = |p: (u64, u64)| other@.contains(p);
        let ghost no = |p: (u64, u64)| !other@.contains(p);
        let mut out: Vec<(u64, u64)> = Vec::new();
        let mut i: usize = 0;
        assert(of@.take(0).filter(yes) =~= Seq::empty() && of@.take(0).filter(no)
            =~= Seq::empty()) by {
            reveal(Seq::filter);
        }
        while i < of.len()
            invariant
                i <= of@.len(),
                other.wf(),
                yes == (|p: (u64, u64)| other@.contains(p)),
                no == (|p: (u64, u64)| !other@.contains(p)),
                shared ==> out@ == of@.take(i as int).filter(yes),
                !shared ==> out@ == of@.take(i as int).filter(no),
            decreases of@.len() - i,
        {
            proof {
                lemma_filter_take(of@, i as int, yes);
                lemma_filter_take(of@, i as int, no);
            }
            let (from, to) = of.get(i);
            if other.contains(from, to) == shared {
                out.push((from, to));
            }
            i = i + 1;
        }
        assert(of@.take(i as int) =~= of@);
        out
    }

    /// The entries of some pairs of a kind.
    fn make_dump(&self, pairs: Vec<(u64, u64)>, kind: Option<XrefKind>) -> (r: Vec<DumpEntry>)
        requires
            self.wf(),
        ensures
            dump_views(r@) == dump_of(self.xrefs@, self.truth@, pairs@, kind),
    {
        let ghost p = |p: (u64, u64)| pair_has_kind(self.xrefs@, self.truth@, p, kind);
        let ghost label = |p: (u64, u64)|
            DumpView { from: p.0, to: p.1, kind: pair_label(self.xrefs@, self.truth@, p) };
        let mut out: Vec<DumpEntry> = Vec::new();
        let mut i: usize = 0;
        assert(pairs@.take(0).filter(p) =~= Seq::empty()) by {
            reveal(Seq::filter);
        }
        assert(dump_views(out@) =~= pairs@.take(0).filter(p).map_values(label));
        while i < pairs.len()
            invariant
                i <= pairs@.len(),
                self.wf(),
                p == (|p: (u64, u64)| pair_has_kind(self.xrefs@, self.truth@, p, kind)),
                label == (|p: (u64, u64)|
                    DumpView {
                        from: p.0,
                        to: p.1,
                        kind: pair_label(self.xrefs@, self.truth@, p),
                    }),
                dump_views(out@) == pairs@.take(i as int).filter(p).map_values(label),
            decreases pairs@.len() - i,
        {
            proof {
                lemma_filter_take(pairs@, i as int, p);
            }
            let (from, to) = pairs[i];
            let ghost before = pairs@.take(i as int).filter(p);
            if self.matches_kind(from, to, kind) {
                let ghost prior = out@;
                let entry = DumpEntry { from, to, kind: self.label_of(from, to) };
                out.push(entry);
                proof {
                    assert(dump_views(out@) =~= dump_views(prior).push(entry@));
                    assert(before.push(pairs@[i as int]).map_values(label) =~= before.map_values(
                        label,
                    ).push(entry@));
                }
            }
            i = i + 1;
        }
        assert(pairs@.take(i as int) =~= pairs@);
        out
    }

    /// What was found and is not true, of a kind where one is asked for.
    pub fn false_positives(&self, kind: Option<XrefKind>) -> (r: Vec<DumpEntry>)
        requires
            self.wf(),
        ensures
            dump_views(r@) == dump_of(
                self.xrefs@,
                self.truth@,
                missing(self.found@.all, self.truth@.all),
                kind,
            ),
    {
        self.make_dump(self.select(self.found.all(), self.truth.all(), false), kind)
    }

    /// What is true and was not found, of a kind where one is asked for.
    pub fn false_negatives(&self, kind: Option<XrefKind>) -> (r: Vec<DumpEntry>)
        requires
            self.wf(),
        ensures
            dump_views(r@) == dump_of(
                self.xrefs@,
                self.truth@,
                missing(self.truth@.all, self.found@.all),
                kind,
            ),
    {
        self.make_dump(self.select(self.truth.all(), self.found.all(), false), kind)
    }

    /// What was found and is true, of a kind where one is asked for.
    pub fn true_positives(&self, kind: Option<XrefKind>) -> (r: Vec<DumpEntry>)
        requires
            self.wf(),
        ensures
            dump_views(r@) == dump_of(
                self.xrefs@,
                self.truth@,
                common(self.found@.all, self.truth@.all),
                kind,
            ),
    {
        self.make_dump(self.select(self.found.all(), self.truth.all(), true), kind)
    }
}

/// The offset of a ground truth moves its image base to the base of the image; without
/// a base of either it moves nothing.
pub proof fn law_truth_moves(image_base: u64, pie_base: u64)
    ensures
        pie_base != 0 ==> wrap64(image_base + truth_offset(Some(image_base), pie_base)) == pie_base,
        truth_offset(None, pie_base) == 0,
        truth_offset(Some(image_base), 0) == 0,
{
}

/// No segment ends past the bound of the image, and where there is one, one ends there.
pub proof fn law_bound_is_highest_end(segments: Seq<SegmentView>, k: int)
    requires
        0 <= k <= segments.len(),
    ensures
        forall|i: int|
            0 <= i < k ==> (#[trigger] segments[i]).end() <= highest_end(segments, k),
        highest_end(segments, k) > 0 ==> exists|i: int|
            0 <= i < k && (#[trigger] segments[i]).end() == highest_end(segments, k),
    decreases k,
{
    if k > 0 {
        law_bound_is_highest_end(segments, k - 1);
        let before = highest_end(segments, k - 1);
        if segments[k - 1].end() > before {
            assert(segments[k - 1].end() == highest_end(segments, k));
        } else if before > 0 {
            let i = choose|i: int|
                0 <= i < k - 1 && (#[trigger] segments[i]).end() == before;
            assert(segments[i].end() == highest_end(segments, k));
        }
    }
}

} // verus!
