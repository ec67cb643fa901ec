//! String literals of Rust programs.
//!
//! The compiler lays string literals end to end in read-only data, and refers to
//! each by a pointer and a length. Here the stretches of text are found, and the
//! literal that a pointer and a length stand for is cut out of them.

use crate::bytes::{le32, le64, read_u32_le, read_u64_le};
use crate::loader::{
    bytes_apart, first_covering, lemma_first_covering, LoadedBinary, Segment, SegmentView,
};
use crate::va::{wrap64, Va};
use vstd::prelude::*;
use vstd::slice::slice_to_vec;
use vstd::string::StringSliceAdditionalSpecFns;
use vstd::utf8::valid_utf8;

verus! {

/// Least size of a stretch of text, in bytes.
pub const DEFAULT_MIN_BLOB_LEN: usize = 16;

/// Reads bytes as text with `core::str::from_utf8`.
///
/// Trusted: it succeeds exactly on valid UTF-8, and the text has these bytes.
#[verifier::external_body]
fn as_text(bytes: &[u8]) -> (r: Option<&str>)
    ensures
        r is Some <==> valid_utf8(bytes@),
        r matches Some(s) ==> s.spec_bytes() == bytes@,
{
    core::str::from_utf8(bytes).ok()
}

/// A stretch of text in read-only data.
#[derive(Clone, Debug)]
pub struct StringBlob {
    /// Address of the first byte.
    pub va: Va,
    /// The bytes, valid UTF-8.
    pub data: Vec<u8>,
}

/// What a [`StringBlob`] says.
#[verifier::ext_equal]
pub struct BlobView {
    pub va: u64,
    pub data: Seq<u8>,
}

impl View for StringBlob {
    type V = BlobView;

    open spec fn view(&self) -> BlobView {
        BlobView { va: self.va.0, data: self.data@ }
    }
}

/// What a list of stretches says.
pub open spec fn blob_views(s: Seq<StringBlob>) -> Seq<BlobView> {
    s.map_values(|x: StringBlob| x@)
}

impl BlobView {
    /// The address behind the last byte.
    pub open spec fn end(self) -> u64 {
        wrap64(self.va + self.data.len())
    }

    /// Whether an address lies in the stretch.
    pub open spec fn covers(self, va: u64) -> bool {
        self.va <= va < self.end()
    }

    /// The bytes of a literal, where the stretch holds all of it.
    pub open spec fn literal(self, va: u64, len: nat) -> Option<Seq<u8>> {
        if self.va <= va && va - self.va + len <= self.data.len() {
            Some(self.data.subrange(va - self.va, va - self.va + len))
        } else {
            None
        }
    }
}

impl StringBlob {
    /// The address behind the last byte.
    #[inline]
    pub fn end_va(&self) -> (r: Va)
        ensures
            r == Va(self@.end()),
    {
        self.va + self.data.len() as u64
    }

    /// Whether an address lies in the stretch.
    #[inline]
    pub fn contains(&self, va: Va) -> (r: bool)
        ensures
            r == self@.covers(va.0),
    {
        self.va.0 <= va.0 && va.0 < self.end_va().0
    }

    /// The literal of `len` bytes at `va`; `None` where it runs out of the stretch or
    /// cuts a character.
    pub fn extract(&self, va: Va, len: usize) -> (r: Option<&str>)
        ensures
            match self@.literal(va.0, len as nat) {
                Some(bytes) => if valid_utf8(bytes) {
                    r matches Some(s) && s.spec_bytes() == bytes
                } else {
                    r is None
                },
                None => r is None,
            },
    {
        if va.0 < self.va.0 {
            return None;
        }
        let total: usize = self.data.len();
        let offset: u64 = va.0 - self.va.0;
        if offset > total as u64 || len > total - offset as usize {
            return None;
        }
        let from: usize = offset as usize;
        as_text(&self.data.as_slice()[from..from + len])
    }
}

/// Whether a byte can be part of text: printable ASCII, tab, line feed, carriage
/// return, and the bytes above ASCII that UTF-8 uses.
pub open spec fn string_byte(b: u8) -> bool {
    0x20 <= b <= 0x7e || b == 0x09 || b == 0x0a || b == 0x0d || 0x80 <= b <= 0xbf || 0xc2 <= b
        <= 0xf4
}

/// Whether a byte can be part of text.
///
/// A quick test before a stretch is validated: bytes that UTF-8 never uses are
/// refused, as are control characters other than white space.
#[inline]
pub fn is_string_byte(b: u8) -> (r: bool)
    ensures
        r == string_byte(b),
{
    match b {
        0x20..=0x7e => true,
        0x09 | 0x0a | 0x0d => true,
        0x80..=0xbf => true,
        0xc2..=0xf4 => true,
        _ => false,
    }
}

/// Where the run of text bytes that holds a position ends.
pub open spec fn run_end(data: Seq<u8>, i: int) -> int
    decreases data.len() - i,
{
    if i < 0 || i >= data.len() || !string_byte(data[i]) {
        i
    } else {
        run_end(data, i + 1)
    }
}

proof fn lemma_run_end(data: Seq<u8>, i: int)
    requires
        0 <= i <= data.len(),
    ensures
        i <= run_end(data, i) <= data.len(),
        forall|j: int| i <= j < run_end(data, i) ==> string_byte(#[trigger] data[j]),
        run_end(data, i) < data.len() ==> !string_byte(data[run_end(data, i)]),
        i < data.len() && string_byte(data[i]) ==> i < run_end(data, i),
    decreases data.len() - i,
{
    if i < data.len() && string_byte(data[i]) {
        lemma_run_end(data, i + 1);
    }
}

/// The stretches of a segment from a position on: the runs of text bytes that are
/// long enough and valid UTF-8.
pub open spec fn blobs_from(va: u64, data: Seq<u8>, min_len: int, i: int) -> Seq<BlobView>
    decreases data.len() - i,
    via blobs_from_decreases
{
    if i < 0 || i >= data.len() {
        Seq::empty()
    } else if !string_byte(data[i]) {
        blobs_from(va, data, min_len, i + 1)
    } else {
        let end = run_end(data, i);
        let run = data.subrange(i, end);
        (if end - i >= min_len && valid_utf8(run) {
            seq![BlobView { va: wrap64(va + i), data: run }]
        } else {
            Seq::empty()
        }) + blobs_from(va, data, min_len, end)
    }
}

#[via_fn]
proof fn blobs_from_decreases(va: u64, data: Seq<u8>, min_len: int, i: int) {
    if 0 <= i < data.len() {
        lemma_run_end(data, i);
    }
}

/// Finds the stretches of a segment.
pub fn scan_segment_for_blobs(seg: &Segment<'_>, min_len: usize) -> (r: Vec<StringBlob>)
    ensures
        blob_views(r@) == blobs_from(seg@.va.0, seg@.data, min_len as int, 0),
{
    let data = seg.data();
    let total: usize = data.len();
    let ghost full = blobs_from(seg@.va.0, data@, min_len as int, 0);
    let mut blobs: Vec<StringBlob> = Vec::new();
    let mut i: usize = 0;
    assert(blob_views(blobs@) + full =~= full);
    while i < total
        invariant
            i <= total,
            total == data.len(),
            data@ == seg@.data,
            blob_views(blobs@) + blobs_from(seg@.va.0, data@, min_len as int, i as int) == full,
        decreases total - i,
    {
        let ghost before = blobs@;
        if !is_string_byte(data[i]) {
            i = i + 1;
            continue ;
        }
        let start: usize = i;
        while i < total && is_string_byte(data[i])
            invariant
                start <= i <= total,
                total == data.len(),
                run_end(data@, start as int) == run_end(data@, i as int),
            decreases total - i,
        {
            i = i + 1;
        }
        assert(i == run_end(data@, start as int));
        assert(start < i) by {
            lemma_run_end(data@, start as int);
        }
        let run = &data[start..i];
        let ghost rest = blobs_from(seg@.va.0, data@, min_len as int, i as int);
        if i - start >= min_len && as_text(run).is_some() {
            let blob = StringBlob { va: seg.va + start as u64, data: slice_to_vec(run) };
            blobs.push(blob);
            proof {
                assert(blob_views(blobs@) =~= blob_views(before).push(blob@));
                assert(blob_views(before) + (seq![blob@] + rest) =~= blob_views(blobs@) + rest);
            }
        } else {
            assert(Seq::<BlobView>::empty() + rest =~= rest);
        }
    }
    assert(blob_views(blobs@) + Seq::<BlobView>::empty() =~= blob_views(blobs@));
    blobs
}

/// The stretches of the first `k` segments that can be read and not written.
pub open spec fn raw_blobs(segments: Seq<SegmentView>, min_len: int, k: int) -> Seq<BlobView>
    decreases k,
{
    if k <= 0 {
        Seq::empty()
    } else {
        let s = segments[k - 1];
        raw_blobs(segments, min_len, k - 1) + (if s.readable && !s.writable {
            blobs_from(s.va.0, s.data, min_len, 0)
        } else {
            Seq::empty()
        })
    }
}

/// How many of some ordered stretches start at or before an address.
pub open spec fn blob_rank(s: Seq<BlobView>, va: u64) -> nat
    decreases s.len(),
{
    if s.len() == 0 {
        0
    } else if s.last().va <= va {
        s.len()
    } else {
        blob_rank(s.drop_last(), va)
    }
}

/// The stretches in order of address; those of the same address stay in order.
pub open spec fn sorted_blobs(s: Seq<BlobView>) -> Seq<BlobView>
    decreases s.len(),
{
    if s.len() == 0 {
        s
    } else {
        let before = sorted_blobs(s.drop_last());
        before.insert(blob_rank(before, s.last().va) as int, s.last())
    }
}

/// Whether stretches are in order of address.
pub open spec fn ordered(s: Seq<BlobView>) -> bool {
    forall|i: int, j: int| 0 <= i <= j < s.len() ==> (#[trigger] s[i]).va <= (#[trigger] s[j]).va
}

proof fn lemma_blob_rank(s: Seq<BlobView>, va: u64)
    requires
        ordered(s),
    ensures
        blob_rank(s, va) <= s.len(),
        forall|i: int| 0 <= i < blob_rank(s, va) ==> (#[trigger] s[i]).va <= va,
        forall|i: int| blob_rank(s, va) <= i < s.len() ==> (#[trigger] s[i]).va > va,
    decreases s.len(),
{
    if s.len() > 0 && s.last().va > va {
        let t = s.drop_last();
        assert(ordered(t)) by {
            assert forall|i: int, j: int| 0 <= i <= j < t.len() implies (#[trigger] t[i]).va <= (
            #[trigger] t[j]).va by {
                assert(s[i].va <= s[j].va);
            }
        }
        lemma_blob_rank(t, va);
        assert forall|i: int| 0 <= i < blob_rank(s, va) implies (#[trigger] s[i]).va <= va by {
            assert(t[i] == s[i]);
        }
        assert forall|i: int| blob_rank(s, va) <= i < s.len() implies (#[trigger] s[i]).va > va by {
            if i < t.len() {
                assert(t[i] == s[i]);
            }
        }
    }
}

proof fn lemma_blob_rank_unique(s: Seq<BlobView>, va: u64, r: int)
    requires
        0 <= r <= s.len(),
        forall|i: int| 0 <= i < r ==> (#[trigger] s[i]).va <= va,
        forall|i: int| r <= i < s.len() ==> (#[trigger] s[i]).va > va,
    ensures
        blob_rank(s, va) == r,
    decreases s.len(),
{
    if s.len() > 0 && s.last().va > va {
        let t = s.drop_last();
        assert forall|i: int| 0 <= i < r implies (#[trigger] t[i]).va <= va by {
            assert(t[i] == s[i]);
        }
        assert forall|i: int| r <= i < t.len() implies (#[trigger] t[i]).va > va by {
            assert(t[i] == s[i]);
        }
        lemma_blob_rank_unique(t, va, r);
    } else if s.len() > 0 {
        assert(s[s.len() - 1].va <= va);
    }
}

proof fn lemma_insert_ordered(s: Seq<BlobView>, b: BlobView)
    requires
        ordered(s),
    ensures
        ordered(s.insert(blob_rank(s, b.va) as int, b)),
{
    lemma_blob_rank(s, b.va);
    let p = blob_rank(s, b.va) as int;
    let t = s.insert(p, b);
    assert forall|i: int, j: int| 0 <= i <= j < t.len() implies (#[trigger] t[i]).va <= (
    #[trigger] t[j]).va by {
        if i != p {
            assert(t[i] == s[if i < p {
                i
            } else {
                i - 1
            }]);
        }
        if j != p {
            assert(t[j] == s[if j < p {
                j
            } else {
                j - 1
            }]);
        }
    }
}

/// The stretches of text of an image, by address.
#[derive(Debug)]
pub struct StringBlobIndex {
    blobs: Vec<StringBlob>,
}

impl View for StringBlobIndex {
    type V = Seq<BlobView>;

    closed spec fn view(&self) -> Seq<BlobView> {
        blob_views(self.blobs@)
    }
}

/// The stretch that an address lies in.
pub open spec fn blob_at(s: Seq<BlobView>, va: u64) -> Option<BlobView> {
    let r = blob_rank(s, va);
    if r > 0 && s[r - 1].covers(va) {
        Some(s[r - 1])
    } else {
        None
    }
}

/// The bytes of all stretches together.
pub open spec fn bytes_in(s: Seq<BlobView>) -> int
    decreases s.len(),
{
    if s.len() == 0 {
        0
    } else {
        bytes_in(s.drop_last()) + s.last().data.len()
    }
}

/// The number of stretches that start at or before an address.
fn rank_blobs(blobs: &Vec<StringBlob>, va: u64) -> (r: usize)
    requires
        ordered(blob_views(blobs@)),
    ensures
        r == blob_rank(blob_views(blobs@), va),
        r <= blobs@.len(),
{
    let ghost views = blob_views(blobs@);
    let mut lo: usize = 0;
    let mut hi: usize = blobs.len();
    while lo < hi
        invariant
            views == blob_views(blobs@),
            ordered(views),
            lo <= hi <= blobs@.len(),
            forall|i: int| 0 <= i < lo ==> (#[trigger] views[i]).va <= va,
            forall|i: int| hi <= i < views.len() ==> (#[trigger] views[i]).va > va,
        decreases hi - lo,
    {
        let mid: usize = lo + (hi - lo) / 2;
        assert(views[mid as int] == blobs@[mid as int]@);
        if blobs[mid].va.0 <= va {
            lo = mid + 1;
        } else {
            hi = mid;
        }
    }
    proof {
        lemma_blob_rank_unique(views, va, lo as int);
    }
    lo
}

impl StringBlobIndex {
    /// Whether the stretches are in order of address.
    pub open spec fn wf(&self) -> bool {
        ordered(self@)
    }

    /// Finds the stretches of at least `min_len` bytes in the segments that can be
    /// read and not written.
    ///
    /// Code segments count too: some formats keep constants there.
    pub fn build(binary: &LoadedBinary<'_>, min_len: usize) -> (r: StringBlobIndex)
        ensures
            r.wf(),
            r@ == sorted_blobs(
                raw_blobs(binary.layout(), min_len as int, binary.segments@.len() as int),
            ),
    {
        let ghost segs = binary.layout();
        let mut blobs: Vec<StringBlob> = Vec::new();
        let mut i: usize = 0;
        assert(blob_views(blobs@) =~= Seq::empty());
        while i < binary.segments.len()
            invariant
                i <= binary.segments@.len(),
                segs == binary.layout(),
                ordered(blob_views(blobs@)),
                blob_views(blobs@) == sorted_blobs(raw_blobs(segs, min_len as int, i as int)),
            decreases binary.segments@.len() - i,
        {
            let seg = &binary.segments[i];
            assert(segs[i as int] == seg@);
            let ghost raw = raw_blobs(segs, min_len as int, i as int);
            if seg.readable && !seg.writable {
                let found: Vec<StringBlob> = scan_segment_for_blobs(seg, min_len);
                add_blobs(&mut blobs, found, Ghost(raw));
            } else {
                assert(raw + Seq::<BlobView>::empty() =~= raw);
            }
            i = i + 1;
        }
        StringBlobIndex { blobs }
    }

    /// The stretch that an address lies in.
    pub fn lookup(&self, va: Va) -> (r: Option<&StringBlob>)
        requires
            self.wf(),
        ensures
            match blob_at(self@, va.0) {
                Some(b) => r matches Some(blob) && blob@ == b,
                None => r is None,
            },
    {
        let at: usize = rank_blobs(&self.blobs, va.0);
        if at == 0 {
            return None;
        }
        assert(self@[at - 1] == self.blobs@[at - 1]@);
        let blob = &self.blobs[at - 1];
        if blob.contains(va) {
            Some(blob)
        } else {
            None
        }
    }

    /// The number of stretches.
    pub fn len(&self) -> (r: usize)
        ensures
            r == self@.len(),
    {
        self.blobs.len()
    }

    /// The bytes of all stretches together.
    pub fn total_bytes(&self) -> (r: usize)
        requires
            bytes_in(self@) <= usize::MAX,
        ensures
            r == bytes_in(self@),
    {
        let mut sum: usize = 0;
        let mut i: usize = 0;
        assert(bytes_in(self@.take(0)) == 0);
        while i < self.blobs.len()
            invariant
                i <= self.blobs@.len(),
                bytes_in(self@) <= usize::MAX,
                sum == bytes_in(self@.take(i as int)),
            decreases self.blobs@.len() - i,
        {
            proof {
                lemma_bytes_grow(self@, i + 1);
                assert(self@.take(i + 1).drop_last() =~= self@.take(i as int));
                assert(self@.take(i + 1).last() == self.blobs@[i as int]@);
            }
            sum = sum + self.blobs[i].data.len();
            i = i + 1;
        }
        assert(self@.take(i as int) =~= self@);
        sum
    }

    /// Whether there is no stretch.
    pub fn is_empty(&self) -> (r: bool)
        ensures
            r == (self@.len() == 0),
    {
        self.blobs.len() == 0
    }

    /// All stretches in order of address.
    pub fn iter(&self) -> (r: &[StringBlob])
        ensures
            blob_views(r@) == self@,
    {
        self.blobs.as_slice()
    }
}

proof fn lemma_bytes_grow(s: Seq<BlobView>, k: int)
    requires
        0 <= k <= s.len(),
    ensures
        0 <= bytes_in(s.take(k)) <= bytes_in(s),
    decreases s.len(),
{
    if k < s.len() {
        lemma_bytes_grow(s.drop_last(), k);
        assert(s.drop_last().take(k) =~= s.take(k));
    } else {
        assert(s.take(k) =~= s);
        if s.len() > 0 {
            lemma_bytes_grow(s.drop_last(), s.len() - 1);
            assert(s.drop_last().take(s.len() - 1) =~= s.drop_last());
        }
    }
}

/// Adds stretches at their places.
fn add_blobs(blobs: &mut Vec<StringBlob>, found: Vec<StringBlob>, Ghost(raw): Ghost<Seq<BlobView>>)
    requires
        ordered(blob_views(old(blobs)@)),
        blob_views(old(blobs)@) == sorted_blobs(raw),
    ensures
        ordered(blob_views(final(blobs)@)),
        blob_views(final(blobs)@) == sorted_blobs(raw + blob_views(found@)),
{
    let ghost all = blob_views(found@);
    assert(raw + all.take(0) =~= raw);
    let mut i: usize = 0;
    while i < found.len()
        invariant
            i <= found@.len(),
            all == blob_views(found@),
            ordered(blob_views(blobs@)),
            blob_views(blobs@) == sorted_blobs(raw + all.take(i as int)),
        decreases found@.len() - i,
    {
        let blob = StringBlob { va: found[i].va, data: slice_to_vec(found[i].data.as_slice()) };
        let at: usize = rank_blobs(blobs, blob.va.0);
        let ghost before = blobs@;
        proof {
            assert(blob@ =~= all[i as int]);
            lemma_insert_ordered(blob_views(before), blob@);
            assert((raw + all.take(i + 1)).drop_last() =~= raw + all.take(i as int));
            assert((raw + all.take(i + 1)).last() == blob@);
        }
        blobs.insert(at, blob);
        assert(blob_views(blobs@) =~= blob_views(before).insert(at as int, blob@));
        i = i + 1;
    }
    assert(all.take(i as int) =~= all);
}

/// The number of `ptr_size` bytes at an address, where a segment holds them; only
/// four and eight are sizes of pointers.
pub open spec fn usize_at(segments: Seq<SegmentView>, va: u64, ptr_size: nat) -> Option<usize> {
    match first_covering(segments, va) {
        Some(i) => match segments[i].slice_at(va, ptr_size) {
            Some(bytes) => if ptr_size == 8 {
                Some((le64(bytes, 0) as u64) as usize)
            } else if ptr_size == 4 {
                Some((le32(bytes, 0) as u32) as usize)
            } else {
                None
            },
            None => None,
        },
        None => None,
    }
}

/// Reads a pointer-sized number at an address.
pub fn read_usize_at(binary: &LoadedBinary<'_>, va: Va, ptr_size: usize) -> (r: Option<usize>)
    ensures
        r == usize_at(binary.layout(), va.0, ptr_size as nat),
{
    proof {
        lemma_first_covering(binary.layout(), va.0);
    }
    match binary.segment_at(va) {
        Some(seg) => match seg.bytes_at(va, ptr_size) {
            Some(bytes) => if ptr_size == 8 {
                Some(read_u64_le(bytes, 0) as usize)
            } else if ptr_size == 4 {
                Some(read_u32_le(bytes, 0) as usize)
            } else {
                None
            },
            None => None,
        },
        None => None,
    }
}

/// Whether a stretch is as long as asked for, of text bytes only, and valid UTF-8.
pub open spec fn is_text_of(b: BlobView, min_len: int) -> bool {
    b.data.len() >= min_len && b.data.len() > 0 && valid_utf8(b.data) && forall|j: int|
        0 <= j < b.data.len() ==> string_byte(#[trigger] b.data[j])
}

/// Whether two stretches share no address.
pub open spec fn apart(a: BlobView, b: BlobView) -> bool {
    a.va + a.data.len() <= b.va || b.va + b.data.len() <= a.va
}

/// Whether a stretch lies between two addresses.
pub open spec fn lies_in(b: BlobView, from: int, to: int) -> bool {
    from <= b.va && b.va + b.data.len() <= to
}

/// What holds of stretches holds from an earlier address on.
proof fn lemma_same_blobs(
    all: Seq<BlobView>,
    rest: Seq<BlobView>,
    min_len: int,
    from: int,
    later: int,
    to: int,
)
    requires
        all == rest,
        from <= later,
        forall|k: int|
            0 <= k < rest.len() ==> is_text_of(#[trigger] rest[k], min_len) && lies_in(
                rest[k],
                later,
                to,
            ),
        pairwise_apart(rest),
    ensures
        forall|k: int|
            0 <= k < all.len() ==> is_text_of(#[trigger] all[k], min_len) && lies_in(
                all[k],
                from,
                to,
            ),
        pairwise_apart(all),
{
}

proof fn lemma_blobs_from(va: u64, data: Seq<u8>, min_len: int, i: int)
    requires
        0 <= i <= data.len(),
        va + data.len() <= u64::MAX + 1,
    ensures
        forall|k: int|
            0 <= k < blobs_from(va, data, min_len, i).len() ==> is_text_of(
                #[trigger] blobs_from(va, data, min_len, i)[k],
                min_len,
            ) && lies_in(blobs_from(va, data, min_len, i)[k], va + i, va + data.len()),
        pairwise_apart(blobs_from(va, data, min_len, i)),
    decreases data.len() - i,
{
    if i < data.len() {
        let all = blobs_from(va, data, min_len, i);
        if !string_byte(data[i]) {
            lemma_blobs_from(va, data, min_len, i + 1);
            lemma_same_blobs(all, blobs_from(va, data, min_len, i + 1), min_len, va + i, va + i + 1, va + data.len());
        } else {
            lemma_run_end(data, i);
            let end = run_end(data, i);
            let run = data.subrange(i, end);
            lemma_blobs_from(va, data, min_len, end);
            let rest = blobs_from(va, data, min_len, end);
            if end - i >= min_len && valid_utf8(run) {
                let b = BlobView { va: wrap64(va + i), data: run };
                assert(b.va == va + i);
                assert(all == seq![b] + rest);
                assert(is_text_of(b, min_len));
                assert forall|k: int| 0 <= k < all.len() implies is_text_of(
                    #[trigger] all[k],
                    min_len,
                ) && lies_in(all[k], va + i, va + data.len()) by {
                    if k > 0 {
                        assert(all[k] == rest[k - 1]);
                    }
                }
                assert forall|k: int, l: int| 0 <= k < l < all.len() implies apart(
                    #[trigger] all[k],
                    #[trigger] all[l],
                ) by {
                    assert(all[l] == rest[l - 1]);
                    if k > 0 {
                        assert(all[k] == rest[k - 1]);
                    }
                }
            } else {
                assert(all =~= rest);
                lemma_same_blobs(all, rest, min_len, va + i, va + end, va + data.len());
            }
        }
    }
}

/// Whether no two stretches share an address.
pub open spec fn pairwise_apart(s: Seq<BlobView>) -> bool {
    forall|k: int, l: int|
        0 <= k < l < s.len() ==> apart(#[trigger] s[k], #[trigger] s[l])
}

proof fn lemma_raw_blobs(segments: Seq<SegmentView>, min_len: int, k: int)
    requires
        0 <= k <= segments.len(),
        bytes_apart(segments),
    ensures
        forall|i: int|
            0 <= i < raw_blobs(segments, min_len, k).len() ==> is_text_of(
                #[trigger] raw_blobs(segments, min_len, k)[i],
                min_len,
            ),
        forall|i: int|
            0 <= i < raw_blobs(segments, min_len, k).len() ==> in_a_segment(
                #[trigger] raw_blobs(segments, min_len, k)[i],
                segments,
                k,
            ),
        pairwise_apart(raw_blobs(segments, min_len, k)),
    decreases k,
{
    if k > 0 {
        lemma_raw_blobs(segments, min_len, k - 1);
        let s = segments[k - 1];
        let before = raw_blobs(segments, min_len, k - 1);
        let here = if s.readable && !s.writable {
            blobs_from(s.va.0, s.data, min_len, 0)
        } else {
            Seq::empty()
        };
        let all = raw_blobs(segments, min_len, k);
        if s.data.len() > 0 {
            lemma_blobs_from(s.va.0, s.data, min_len, 0);
        }
        assert(all == before + here);
        assert forall|i: int| 0 <= i < all.len() implies is_text_of(#[trigger] all[i], min_len) by {
            if i < before.len() {
                assert(all[i] == before[i]);
            } else {
                assert(all[i] == here[i - before.len()]);
            }
        }
        assert forall|i: int| 0 <= i < all.len() implies in_a_segment(
            #[trigger] all[i],
            segments,
            k,
        ) by {
            if i < before.len() {
                assert(all[i] == before[i]);
                let q = choose|q: int|
                    0 <= q < k - 1 && lies_in(
                        before[i],
                        (#[trigger] segments[q]).va.0 as int,
                        segments[q].va.0 + segments[q].data.len(),
                    );
                assert(lies_in(
                    all[i],
                    segments[q].va.0 as int,
                    segments[q].va.0 + segments[q].data.len(),
                ));
            } else {
                assert(all[i] == here[i - before.len()]);
                assert(lies_in(
                    all[i],
                    segments[k - 1].va.0 as int,
                    segments[k - 1].va.0 + segments[k - 1].data.len(),
                ));
            }
        }
        assert forall|i: int, j: int| 0 <= i < j < all.len() implies apart(
            #[trigger] all[i],
            #[trigger] all[j],
        ) by {
            if j < before.len() {
                assert(all[i] == before[i] && all[j] == before[j]);
            } else if i >= before.len() {
                assert(all[i] == here[i - before.len()] && all[j] == here[j - before.len()]);
            } else {
                assert(all[i] == before[i] && all[j] == here[j - before.len()]);
                let q = choose|q: int|
                    0 <= q < k - 1 && lies_in(
                        before[i],
                        (#[trigger] segments[q]).va.0 as int,
                        segments[q].va.0 + segments[q].data.len(),
                    );
                assert(segments[q].data.len() > 0 && segments[k - 1].data.len() > 0);
            }
        }
    }
}

/// Whether a stretch lies in one of the first `k` segments.
pub open spec fn in_a_segment(b: BlobView, segments: Seq<SegmentView>, k: int) -> bool {
    exists|q: int|
        0 <= q < k && lies_in(
            b,
            (#[trigger] segments[q]).va.0 as int,
            segments[q].va.0 + segments[q].data.len(),
        )
}

/// Whether stretches are in order and each ends before the next starts.
pub open spec fn in_line(s: Seq<BlobView>) -> bool {
    forall|i: int, j: int|
        0 <= i < j < s.len() ==> (#[trigger] s[i]).va + s[i].data.len() <= (#[trigger] s[j]).va
}

proof fn lemma_insert_in_line(s: Seq<BlobView>, b: BlobView)
    requires
        ordered(s),
        in_line(s),
        b.data.len() > 0,
        forall|i: int| 0 <= i < s.len() ==> apart(#[trigger] s[i], b) && s[i].data.len() > 0,
    ensures
        in_line(s.insert(blob_rank(s, b.va) as int, b)),
{
    lemma_blob_rank(s, b.va);
    let p = blob_rank(s, b.va) as int;
    let t = s.insert(p, b);
    assert forall|i: int, j: int| 0 <= i < j < t.len() implies (#[trigger] t[i]).va
        + t[i].data.len() <= (#[trigger] t[j]).va by {
        let si = if i < p {
            i
        } else {
            i - 1
        };
        let sj = if j < p {
            j
        } else {
            j - 1
        };
        if i != p {
            assert(t[i] == s[si]);
        }
        if j != p {
            assert(t[j] == s[sj]);
        }
        if i == p {
            assert(s[sj].va > b.va);
        } else if j == p {
            assert(s[si].va <= b.va);
        }
    }
}

proof fn lemma_sorted_in_line(s: Seq<BlobView>, min_len: int)
    requires
        pairwise_apart(s),
        forall|i: int| 0 <= i < s.len() ==> is_text_of(#[trigger] s[i], min_len),
    ensures
        ordered(sorted_blobs(s)),
        in_line(sorted_blobs(s)),
        forall|b: BlobView| #[trigger] sorted_blobs(s).contains(b) <==> s.contains(b),
    decreases s.len(),
{
    if s.len() > 0 {
        let t = s.drop_last();
        let x = s.last();
        assert forall|i: int| 0 <= i < t.len() implies is_text_of(#[trigger] t[i], min_len) by {
            assert(t[i] == s[i]);
        }
        assert forall|k: int, l: int| 0 <= k < l < t.len() implies apart(
            #[trigger] t[k],
            #[trigger] t[l],
        ) by {
            assert(apart(s[k], s[l]));
        }
        lemma_sorted_in_line(t, min_len);
        let u = sorted_blobs(t);
        assert forall|i: int| 0 <= i < u.len() implies apart(#[trigger] u[i], x)
            && u[i].data.len() > 0 by {
            assert(u.contains(u[i]));
            assert(t.contains(u[i]));
            let j = choose|j: int| 0 <= j < t.len() && t[j] == u[i];
            assert(apart(s[j], s[s.len() - 1]));
            assert(is_text_of(t[j], min_len));
        }
        assert(is_text_of(s[s.len() - 1], min_len));
        lemma_insert_in_line(u, x);
        lemma_insert_ordered(u, x);
        lemma_blob_rank(u, x.va);
        let p = blob_rank(u, x.va) as int;
        let v = sorted_blobs(s);
        assert forall|b: BlobView| #[trigger] v.contains(b) <==> s.contains(b) by {
            if v.contains(b) {
                let i = choose|i: int| 0 <= i < v.len() && v[i] == b;
                if i == p {
                    assert(s[s.len() - 1] == b);
                } else {
                    let ui = if i < p {
                        i
                    } else {
                        i - 1
                    };
                    assert(u[ui] == b);
                    assert(u.contains(b));
                    let j = choose|j: int| 0 <= j < t.len() && t[j] == b;
                    assert(s[j] == b);
                }
            }
            if s.contains(b) {
                let j = choose|j: int| 0 <= j < s.len() && s[j] == b;
                if j == s.len() - 1 {
                    assert(v[p] == b);
                } else {
                    assert(t[j] == b);
                    assert(t.contains(b));
                    assert(u.contains(b));
                    let i = choose|i: int| 0 <= i < u.len() && u[i] == b;
                    if i < p {
                        assert(v[i] == b);
                    } else {
                        assert(v[i + 1] == b);
                    }
                }
            }
        }
    }
}

/// The stretches of an image whose segments share no byte's address are in order of
/// address and do not overlap; each is long enough, of text bytes, and valid UTF-8.
pub proof fn law_blobs_in_line(segments: Seq<SegmentView>, min_len: int)
    requires
        bytes_apart(segments),
    ensures
        ordered(sorted_blobs(raw_blobs(segments, min_len, segments.len() as int))),
        in_line(sorted_blobs(raw_blobs(segments, min_len, segments.len() as int))),
        forall|i: int|
            0 <= i < sorted_blobs(raw_blobs(segments, min_len, segments.len() as int)).len()
                ==> is_text_of(
                #[trigger] sorted_blobs(raw_blobs(segments, min_len, segments.len() as int))[i],
                min_len,
            ),
{
    let raw = raw_blobs(segments, min_len, segments.len() as int);
    lemma_raw_blobs(segments, min_len, segments.len() as int);
    lemma_sorted_in_line(raw, min_len);
    let s = sorted_blobs(raw);
    assert forall|i: int| 0 <= i < s.len() implies is_text_of(#[trigger] s[i], min_len) by {
        assert(s.contains(s[i]));
        assert(raw.contains(s[i]));
        let j = choose|j: int| 0 <= j < raw.len() && raw[j] == s[i];
        assert(is_text_of(raw[j], min_len));
    }
}

/// Over stretches that do not overlap, looking an address up finds the one that
/// covers it.
pub proof fn law_lookup_finds(s: Seq<BlobView>, va: u64, i: int)
    requires
        ordered(s),
        in_line(s),
        0 <= i < s.len(),
        s[i].covers(va),
    ensures
        blob_at(s, va) == Some(s[i]),
{
    lemma_blob_rank(s, va);
    let r = blob_rank(s, va) as int;
    assert(i < r);
    if i < r - 1 {
        assert(s[i].va + s[i].data.len() <= s[r - 1].va);
    }
}

/// In an image whose segments share no byte's address, looking an address up gives a
/// stretch of the image that covers it, and nothing exactly where none does.
pub proof fn law_lookup_decides(segments: Seq<SegmentView>, min_len: int, va: u64)
    requires
        bytes_apart(segments),
    ensures
        ({
            let s = sorted_blobs(raw_blobs(segments, min_len, segments.len() as int));
            match blob_at(s, va) {
                Some(b) => s.contains(b) && b.covers(va),
                None => forall|i: int| 0 <= i < s.len() ==> !(#[trigger] s[i]).covers(va),
            }
        }),
{
    let s = sorted_blobs(raw_blobs(segments, min_len, segments.len() as int));
    law_blobs_in_line(segments, min_len);
    lemma_blob_rank(s, va);
    assert forall|i: int| 0 <= i < s.len() && (#[trigger] s[i]).covers(va) implies blob_at(s, va)
        is Some by {
        law_lookup_finds(s, va, i);
    }
}

proof fn lemma_run_ends(data: Seq<u8>, i: int, b: int)
    requires
        0 <= i <= b <= data.len(),
        forall|j: int| i <= j < b ==> string_byte(#[trigger] data[j]),
        b < data.len() ==> !string_byte(data[b]),
    ensures
        run_end(data, i) == b,
    decreases b - i,
{
    if i < b {
        assert(string_byte(data[i]));
        lemma_run_ends(data, i + 1, b);
    }
}

/// A run of text bytes between bytes that are none is a stretch at its own address,
/// where it is long enough and valid UTF-8.
pub proof fn law_text_found(va: u64, data: Seq<u8>, min_len: int, i: int, a: int, b: int)
    requires
        0 <= i <= a < b <= data.len(),
        forall|j: int| a <= j < b ==> string_byte(#[trigger] data[j]),
        i < a ==> !string_byte(data[a - 1]),
        b < data.len() ==> !string_byte(data[b]),
        b - a >= min_len,
        valid_utf8(data.subrange(a, b)),
    ensures
        blobs_from(va, data, min_len, i).contains(
            BlobView { va: wrap64(va + a), data: data.subrange(a, b) },
        ),
    decreases a - i,
{
    let x = BlobView { va: wrap64(va + a), data: data.subrange(a, b) };
    let all = blobs_from(va, data, min_len, i);
    if i == a {
        assert(string_byte(data[a]));
        lemma_run_ends(data, a, b);
        assert(all[0] == x);
    } else if !string_byte(data[i]) {
        law_text_found(va, data, min_len, i + 1, a, b);
    } else {
        lemma_run_end(data, i);
        let end = run_end(data, i);
        if end > a - 1 {
            assert(string_byte(data[a - 1]));
        }
        law_text_found(va, data, min_len, end, a, b);
        let rest = blobs_from(va, data, min_len, end);
        let j = choose|j: int| 0 <= j < rest.len() && rest[j] == x;
        assert(all[all.len() - rest.len() + j] == x);
    }
}

/// Text bytes are those that printable ASCII and white space take, and those from which
/// UTF-8 builds its other characters; the bytes that UTF-8 never uses are none, nor are
/// the other control characters.
pub proof fn law_text_bytes(b: u8)
    ensures
        b < 0x80 ==> (string_byte(b) <==> b == 9 || b == 10 || b == 13 || (0x20 <= b && b != 0x7f)),
        b >= 0x80 ==> (string_byte(b) <==> b != 0xc0 && b != 0xc1 && b < 0xf5),
{
}

} // verus!
