//! What Mach-O commands and chained fixups say, told from the encoding side.

use crate::bytes::{le16, le32, le64};
use crate::loader::macho::{
    chain_pointers, fixup_pointers, fixup_table, mach_segment, mach_symbols, page_pointers,
    preferred_base, segment_pointers, ChainedPtrFormat, FixupModel, MachBlob, MachSectionView,
    MachSegmentView,
};
use crate::loader::{in_spans, zeros, RelocPointer, SymbolView};
use crate::va::{wrap64, Va};
use vstd::prelude::*;

verus! {

/// An entry of a chain, apart from the distance to the next.
pub enum ChainEntry {
    /// A plain pointer of the generic formats: a target of 36 bits, a top byte, and
    /// seven bits without a meaning.
    Generic { target: int, top: int, spare: int },
    /// An import of the generic formats.
    GenericBind { rest: int },
    /// A plain pointer of the ARM64E formats: a target of 43 bits and a top byte.
    Plain { target: int, top: int },
    /// An authenticated pointer of those: a target of 32 bits, and nineteen bits that
    /// say how it is signed.
    Signed { target: int, signing: int },
    /// An import of those, authenticated or not.
    Bind { rest: int, signed: int },
}

impl ChainEntry {
    /// Whether the fields are in range.
    pub open spec fn valid(self) -> bool {
        match self {
            ChainEntry::Generic { target, top, spare } => 0 <= target < 0x10_0000_0000 && 0 <= top
                < 0x100 && 0 <= spare < 0x80,
            ChainEntry::GenericBind { rest } => 0 <= rest < 0x8_0000_0000_0000,
            ChainEntry::Plain { target, top } => 0 <= target < 0x800_0000_0000 && 0 <= top < 0x100,
            ChainEntry::Signed { target, signing } => 0 <= target < 0x1_0000_0000 && 0 <= signing
                < 0x8_0000,
            ChainEntry::Bind { rest, signed } => 0 <= rest < 0x8_0000_0000_0000 && 0 <= signed < 2,
        }
    }

    /// Whether it is of the generic formats.
    pub open spec fn generic(self) -> bool {
        self is Generic || self is GenericBind
    }

    /// The eight bytes as a number, with the distance to the next entry.
    pub open spec fn encoded(self, next: int) -> int {
        next * 0x8_0000_0000_0000 + match self {
            ChainEntry::Generic { target, top, spare } => target + top * 0x10_0000_0000 + spare
                * 0x1000_0000_0000,
            ChainEntry::GenericBind { rest } => rest + 0x8000_0000_0000_0000,
            ChainEntry::Plain { target, top } => target + top * 0x800_0000_0000,
            ChainEntry::Signed { target, signing } => target + signing * 0x1_0000_0000
                + 0x8000_0000_0000_0000,
            ChainEntry::Bind { rest, signed } => rest + 0x4000_0000_0000_0000 + signed
                * 0x8000_0000_0000_0000,
        }
    }

    /// The target, before the top byte goes in.
    pub open spec fn target(self) -> int {
        match self {
            ChainEntry::Generic { target, .. } => target,
            ChainEntry::Plain { target, .. } => target,
            ChainEntry::Signed { target, .. } => target,
            _ => 0,
        }
    }

    /// The top byte.
    pub open spec fn top(self) -> int {
        match self {
            ChainEntry::Generic { top, .. } => top,
            ChainEntry::Plain { top, .. } => top,
            _ => 0,
        }
    }

    /// Whether it is an import, which gives no pointer.
    pub open spec fn is_import(self) -> bool {
        self is GenericBind || self is Bind
    }
}

/// The numbers of the formats: those of the generic layout, and those of ARM64E.
pub open spec fn format_fits(number: u16, generic: bool) -> bool {
    if generic {
        number == 2 || number == 6
    } else {
        number == 1 || number == 9 || number == 12
    }
}

/// Whether the targets of a format count from the preferred base.
pub open spec fn counts_from_base(number: u16) -> bool {
    number == 6 || number == 9 || number == 12
}

/// Where an entry leads, as long as its target leaves the top byte free.
pub open spec fn leads_to(entry: ChainEntry, number: u16, base: u64) -> int {
    entry.top() * 0x100_0000_0000_0000 + entry.target() + (if counts_from_base(number) {
        base as int
    } else {
        0
    })
}

/// Bytes of a step from one entry to the next.
pub open spec fn step_bytes(generic: bool) -> int {
    if generic {
        4
    } else {
        8
    }
}

proof fn lemma_parts(v: int, low: int, next: int, flags: int)
    requires
        0 <= low < 0x8_0000_0000_0000,
        0 <= next < 0x800,
        0 <= flags < 4,
        v == low + next * 0x8_0000_0000_0000 + flags * 0x4000_0000_0000_0000,
    ensures
        0 <= v <= u64::MAX,
        v / 0x8_0000_0000_0000 == next + flags * 0x800,
        (v / 0x8_0000_0000_0000) % 0x800 == next,
        v / 0x4000_0000_0000_0000 == flags,
        v / 0x8000_0000_0000_0000 == flags / 2,
        v % 0x8_0000_0000_0000 == low,
{
}

proof fn lemma_low(v: int, low: int)
    requires
        0 <= v,
        v % 0x8_0000_0000_0000 == low,
    ensures
        v % 0x10_0000_0000 == low % 0x10_0000_0000,
        v % 0x1_0000_0000 == low % 0x1_0000_0000,
        v % 0x800_0000_0000 == low % 0x800_0000_0000,
        (v / 0x10_0000_0000) % 0x100 == (low / 0x10_0000_0000) % 0x100,
        (v / 0x800_0000_0000) % 0x100 == (low / 0x800_0000_0000) % 0x100,
{
    let q = v / 0x8_0000_0000_0000;
    assert(v == q * 0x8_0000_0000_0000 + low);
}

proof fn lemma_top_byte(top: int, target: u64)
    requires
        0 <= top < 0x100,
        target < 0x100_0000_0000_0000,
    ensures
        ((top * 0x100_0000_0000_0000) as u64) | target == top * 0x100_0000_0000_0000 + target,
{
    let t = top as u64;
    assert((t * 0x100_0000_0000_0000) as u64 | target == t * 0x100_0000_0000_0000 + target)
        by (bit_vector)
        requires
            t < 0x100,
            target < 0x100_0000_0000_0000,
    ;
}

/// An entry leads to its target, from the preferred base or as it is by the format,
/// with the top byte put in; an import leads nowhere. The distance to the next entry is
/// not part of either.
pub proof fn law_entry_leads(entry: ChainEntry, next: int, number: u16, base: u64)
    requires
        entry.valid(),
        format_fits(number, entry.generic()),
        0 <= next < (if entry.generic() {
            0x1000int
        } else {
            0x800
        }),
        entry.target() + (if counts_from_base(number) {
            base as int
        } else {
            0
        }) < 0x100_0000_0000_0000,
    ensures
        ChainedPtrFormat::of_number(number) matches Some(fmt) && 0 <= entry.encoded(next)
            <= u64::MAX && fmt.rebase_target(entry.encoded(next) as u64, base) == (
        if entry.is_import() {
            None
        } else {
            Some(Va(leads_to(entry, number, base) as u64))
        }) && fmt.distance(entry.encoded(next) as u64) == step_bytes(entry.generic()) * next,
{
    match entry {
        ChainEntry::Generic { target, top, spare } => {
            lemma_generic(target, top, spare, next, number, base);
        },
        ChainEntry::GenericBind { rest } => {
            lemma_generic_bind(rest, next, number, base);
        },
        ChainEntry::Plain { target, top } => {
            lemma_plain(target, top, next, number, base);
        },
        ChainEntry::Signed { target, signing } => {
            lemma_signed(target, signing, next, number, base);
        },
        ChainEntry::Bind { rest, signed } => {
            lemma_bind(rest, signed, next, number, base);
        },
    }
}

/// Whether an entry is read as it should be.
spec fn well_read(entry: ChainEntry, next: int, number: u16, base: u64) -> bool {
    ChainedPtrFormat::of_number(number) matches Some(fmt) && 0 <= entry.encoded(next) <= u64::MAX
        && fmt.rebase_target(entry.encoded(next) as u64, base) == (if entry.is_import() {
        None
    } else {
        Some(Va(leads_to(entry, number, base) as u64))
    }) && fmt.distance(entry.encoded(next) as u64) == step_bytes(entry.generic()) * next
}

spec fn room_for_top(target: int, number: u16, base: u64) -> bool {
    target + (if counts_from_base(number) {
        base as int
    } else {
        0
    }) < 0x100_0000_0000_0000
}

proof fn lemma_generic(target: int, top: int, spare: int, next: int, number: u16, base: u64)
    requires
        (ChainEntry::Generic { target, top, spare }).valid(),
        format_fits(number, true),
        0 <= next < 0x1000,
        room_for_top(target, number, base),
    ensures
        well_read(ChainEntry::Generic { target, top, spare }, next, number, base),
{
    let entry = ChainEntry::Generic { target, top, spare };
    let v = entry.encoded(next);
    let low = target + top * 0x10_0000_0000 + spare * 0x1000_0000_0000;
    lemma_parts(v, low, next % 0x800, next / 0x800);
    lemma_low(v, low);
    assert(low % 0x10_0000_0000 == target);
    assert((low / 0x10_0000_0000) % 0x100 == top);
    assert((v / 0x8_0000_0000_0000) % 0x1000 == next);
    lemma_leads(entry, number, base);
}

proof fn lemma_generic_bind(rest: int, next: int, number: u16, base: u64)
    requires
        (ChainEntry::GenericBind { rest }).valid(),
        format_fits(number, true),
        0 <= next < 0x1000,
    ensures
        well_read(ChainEntry::GenericBind { rest }, next, number, base),
{
    let v = (ChainEntry::GenericBind { rest }).encoded(next);
    lemma_parts(v, rest, next % 0x800, next / 0x800 + 2);
    assert((v / 0x8_0000_0000_0000) % 0x1000 == next);
}

proof fn lemma_plain(target: int, top: int, next: int, number: u16, base: u64)
    requires
        (ChainEntry::Plain { target, top }).valid(),
        format_fits(number, false),
        0 <= next < 0x800,
        room_for_top(target, number, base),
    ensures
        well_read(ChainEntry::Plain { target, top }, next, number, base),
{
    let entry = ChainEntry::Plain { target, top };
    let v = entry.encoded(next);
    let low = target + top * 0x800_0000_0000;
    lemma_parts(v, low, next, 0);
    lemma_low(v, low);
    assert(low % 0x800_0000_0000 == target);
    assert((low / 0x800_0000_0000) % 0x100 == top);
    lemma_leads(entry, number, base);
}

proof fn lemma_signed(target: int, signing: int, next: int, number: u16, base: u64)
    requires
        (ChainEntry::Signed { target, signing }).valid(),
        format_fits(number, false),
        0 <= next < 0x800,
        room_for_top(target, number, base),
    ensures
        well_read(ChainEntry::Signed { target, signing }, next, number, base),
{
    let entry = ChainEntry::Signed { target, signing };
    let v = entry.encoded(next);
    let low = target + signing * 0x1_0000_0000;
    lemma_parts(v, low, next, 2);
    lemma_low(v, low);
    assert(low % 0x1_0000_0000 == target);
    lemma_leads(entry, number, base);
}

proof fn lemma_bind(rest: int, signed: int, next: int, number: u16, base: u64)
    requires
        (ChainEntry::Bind { rest, signed }).valid(),
        format_fits(number, false),
        0 <= next < 0x800,
    ensures
        well_read(ChainEntry::Bind { rest, signed }, next, number, base),
{
    lemma_parts((ChainEntry::Bind { rest, signed }).encoded(next), rest, next, 1 + 2 * signed);
}

proof fn lemma_leads(entry: ChainEntry, number: u16, base: u64)
    requires
        entry.valid(),
        !entry.is_import(),
        entry.target() + (if counts_from_base(number) {
            base as int
        } else {
            0
        }) < 0x100_0000_0000_0000,
    ensures
        ((entry.top() * 0x100_0000_0000_0000) as u64) | (if counts_from_base(number) {
            wrap64(base + entry.target())
        } else {
            entry.target() as u64
        }) == leads_to(entry, number, base),
        0 <= leads_to(entry, number, base) <= u64::MAX,
{
    lemma_top_byte(
        entry.top(),
        if counts_from_base(number) {
            wrap64(base + entry.target())
        } else {
            entry.target() as u64
        },
    );
}

/// The pointer of an entry so many bytes into a segment, where it leads to a mapped
/// address.
pub open spec fn entry_gives(
    m: FixupModel,
    entry: ChainEntry,
    number: u16,
    vmaddr: u64,
    into: int,
) -> Seq<RelocPointer> {
    let to = leads_to(entry, number, m.base) as u64;
    if !entry.is_import() && in_spans(m.segments, to) {
        seq![RelocPointer { from: Va(wrap64(vmaddr + into)), to: Va(to) }]
    } else {
        Seq::empty()
    }
}

/// A chain gives the pointer of its first entry, if that gives one, and goes on so many
/// units further, four bytes each in the generic formats and eight in the others; a
/// distance of zero ends it.
pub proof fn law_chain_goes_on(
    m: FixupModel,
    entry: ChainEntry,
    next: int,
    number: u16,
    vmaddr: u64,
    start: u64,
    into: int,
)
    requires
        entry.valid(),
        format_fits(number, entry.generic()),
        0 <= next < (if entry.generic() {
            0x1000int
        } else {
            0x800
        }),
        entry.target() + (if counts_from_base(number) {
            m.base as int
        } else {
            0
        }) < 0x100_0000_0000_0000,
        0 <= into,
        start + into + 8 <= m.file.len(),
        le64(m.file, start + into) == entry.encoded(next),
    ensures
        ChainedPtrFormat::of_number(number) matches Some(fmt) && chain_pointers(
            m,
            fmt,
            vmaddr,
            start,
            start + into,
        ) == entry_gives(m, entry, number, vmaddr, into) + (if next == 0 {
            Seq::empty()
        } else {
            chain_pointers(
                m,
                fmt,
                vmaddr,
                start,
                start + into + step_bytes(entry.generic()) * next,
            )
        }),
{
    law_entry_leads(entry, next, number, m.base);
    let here = entry_gives(m, entry, number, vmaddr, into);
    assert(here + Seq::<RelocPointer>::empty() =~= here);
}

/// Whether the record at `rec` says where the chains of a segment begin: its page size,
/// its format, the position of the segment in the file, and the starts of so many
/// pages.
pub open spec fn is_record(
    m: FixupModel,
    rec: int,
    page_size: int,
    number: u16,
    start: u64,
    count: int,
) -> bool {
    &&& 0 <= rec
    &&& rec + 22 + 2 * count <= m.file.len()
    &&& le16(m.file, rec + 4) == page_size
    &&& le16(m.file, rec + 6) == number
    &&& le64(m.file, rec + 8) == start
    &&& le16(m.file, rec + 20) == count
}

/// Whether some pointers are among others.
pub open spec fn among(some: Seq<RelocPointer>, all: Seq<RelocPointer>) -> bool {
    forall|x: RelocPointer| #[trigger] some.contains(x) ==> all.contains(x)
}

proof fn lemma_among_sum(some: Seq<RelocPointer>, a: Seq<RelocPointer>, b: Seq<RelocPointer>)
    ensures
        among(some, a) ==> among(some, a + b),
        among(some, b) ==> among(some, a + b),
{
    assert forall|x: RelocPointer| #[trigger] some.contains(x) && among(some, a) implies (a
        + b).contains(x) by {
        let j = choose|j: int| 0 <= j < a.len() && a[j] == x;
        assert((a + b)[j] == x);
    }
    assert forall|x: RelocPointer| #[trigger] some.contains(x) && among(some, b) implies (a
        + b).contains(x) by {
        let j = choose|j: int| 0 <= j < b.len() && b[j] == x;
        assert((a + b)[a.len() + j] == x);
    }
}

proof fn lemma_page_among(
    m: FixupModel,
    fmt: ChainedPtrFormat,
    vmaddr: u64,
    rec: int,
    page_size: int,
    number: u16,
    start: u64,
    count: int,
    p: int,
    k: int,
    first: int,
)
    requires
        is_record(m, rec, page_size, number, start, count),
        0 <= k <= p < count,
        le16(m.file, rec + 22 + 2 * p) == first,
        first != 0xFFFF,
    ensures
        among(
            chain_pointers(m, fmt, vmaddr, start, start + (p * page_size + first)),
            page_pointers(m, fmt, vmaddr, rec, k, count),
        ),
    decreases p - k,
{
    let chain = chain_pointers(m, fmt, vmaddr, start, start + (p * page_size + first));
    let rest = page_pointers(m, fmt, vmaddr, rec, k + 1, count);
    let all = page_pointers(m, fmt, vmaddr, rec, k, count);
    if k < p {
        lemma_page_among(
            m,
            fmt,
            vmaddr,
            rec,
            page_size,
            number,
            start,
            count,
            p,
            k + 1,
            first,
        );
        let here = all.take(all.len() - rest.len());
        assert(all =~= here + rest);
        lemma_among_sum(chain, here, rest);
    } else {
        assert(rec + 22 + p * 2 == rec + 22 + 2 * p);
        assert(all == chain + rest);
        lemma_among_sum(chain, chain, rest);
    }
}

/// The chain of the `p`-th page begins so many pages and the start of the page into
/// the segment, wherever the page has one, and all its pointers are pointers of the
/// segment.
pub proof fn law_page_chain(
    m: FixupModel,
    vmaddr: u64,
    rec: int,
    page_size: int,
    number: u16,
    start: u64,
    count: int,
    p: int,
    first: int,
)
    requires
        is_record(m, rec, page_size, number, start, count),
        0 <= p < count,
        le16(m.file, rec + 22 + 2 * p) == first,
        first != 0xFFFF,
        ChainedPtrFormat::of_number(number) is Some,
    ensures
        among(
            chain_pointers(
                m,
                ChainedPtrFormat::of_number(number).unwrap(),
                vmaddr,
                start,
                start + (p * page_size + first),
            ),
            segment_pointers(m, vmaddr, rec),
        ),
{
    lemma_page_among(
        m,
        ChainedPtrFormat::of_number(number).unwrap(),
        vmaddr,
        rec,
        page_size,
        number,
        start,
        count,
        p,
        0,
        first,
    );
}

/// The first entry of a page gives the pointer from so many pages and the start of the
/// page into the segment, wherever it leads to a mapped address.
pub proof fn law_page_start_gives(
    m: FixupModel,
    vmaddr: u64,
    rec: int,
    page_size: int,
    number: u16,
    start: u64,
    count: int,
    p: int,
    first: int,
    entry: ChainEntry,
    next: int,
)
    requires
        is_record(m, rec, page_size, number, start, count),
        0 <= p < count,
        0 <= page_size,
        0 <= first,
        le16(m.file, rec + 22 + 2 * p) == first,
        first != 0xFFFF,
        entry.valid(),
        !entry.is_import(),
        format_fits(number, entry.generic()),
        0 <= next < (if entry.generic() {
            0x1000int
        } else {
            0x800
        }),
        entry.target() + (if counts_from_base(number) {
            m.base as int
        } else {
            0
        }) < 0x100_0000_0000_0000,
        start + p * page_size + first + 8 <= m.file.len(),
        le64(m.file, start + (p * page_size + first)) == entry.encoded(next),
        in_spans(m.segments, leads_to(entry, number, m.base) as u64),
    ensures
        segment_pointers(m, vmaddr, rec).contains(
            RelocPointer {
                from: Va(wrap64(vmaddr + p * page_size + first)),
                to: Va(leads_to(entry, number, m.base) as u64),
            },
        ),
{
    let into = p * page_size + first;
    assert(0 <= p * page_size) by (nonlinear_arith)
        requires
            0 <= p,
            0 <= page_size,
    ;
    law_chain_goes_on(m, entry, next, number, vmaddr, start, into);
    law_page_chain(m, vmaddr, rec, page_size, number, start, count, p, first);
    let fmt = ChainedPtrFormat::of_number(number).unwrap();
    let chain = chain_pointers(m, fmt, vmaddr, start, start + into);
    let x = RelocPointer {
        from: Va(wrap64(vmaddr + p * page_size + first)),
        to: Va(leads_to(entry, number, m.base) as u64),
    };
    assert(vmaddr + into == vmaddr + p * page_size + first);
    assert(chain[0] == x);
    assert(chain.contains(x));
}

proof fn lemma_table_among(m: FixupModel, table: int, k: int, i: int, count: int, rec: int)
    requires
        0 <= table,
        0 <= k <= i < count,
        table + 4 + 4 * count <= m.file.len(),
        i < m.vmaddrs.len(),
        le32(m.file, table + 4 + 4 * i) == rec,
        rec != 0,
    ensures
        among(
            segment_pointers(m, m.vmaddrs[i], table + rec),
            fixup_table(m, table, k, count),
        ),
    decreases i - k,
{
    let mine = segment_pointers(m, m.vmaddrs[i], table + rec);
    let rest = fixup_table(m, table, k + 1, count);
    let all = fixup_table(m, table, k, count);
    if k < i {
        lemma_table_among(m, table, k + 1, i, count, rec);
        let here = all.take(all.len() - rest.len());
        assert(all =~= here + rest);
        lemma_among_sum(mine, here, rest);
    } else {
        assert(table + 4 + i * 4 == table + 4 + 4 * i);
        assert(all == mine + rest);
        lemma_among_sum(mine, mine, rest);
    }
}

/// The record of the `i`-th segment is where the `i`-th number of the table says, from
/// the start of the table, and zero stands for none. The table starts as far into the
/// fixups as their second number says. All pointers of the record are pointers of the
/// image, counted from the address of the `i`-th segment.
pub proof fn law_record_of_segment(
    m: FixupModel,
    offset: u32,
    size: u32,
    table: int,
    i: int,
    count: int,
    rec: int,
)
    requires
        28 <= size,
        offset + size <= m.file.len(),
        table == offset + le32(m.file, offset + 4),
        0 <= i < count,
        i < m.vmaddrs.len(),
        table + 4 + 4 * count <= m.file.len(),
        le32(m.file, table) == count,
        le32(m.file, table + 4 + 4 * i) == rec,
        rec != 0,
    ensures
        among(
            segment_pointers(m, m.vmaddrs[i], table + rec),
            fixup_pointers(m, Some(MachBlob { offset, size })),
        ),
{
    lemma_table_among(m, table, 0, i, count, rec);
}

/// A section becomes a segment of its bytes in the file at its own address, or of zeros
/// where the file holds none, with the rights of the three bits of the protection of
/// its segment: read, write and execute.
pub proof fn law_mach_section_becomes(seg: MachSegmentView, sect: MachSectionView, file: Seq<u8>)
    requires
        sect.size > 0,
        sect.held > 0 ==> sect.offset + sect.size <= file.len(),
    ensures
        ({
            let made = mach_segment(seg, sect, file);
            let own = made[0];
            &&& made.len() == 1
            &&& own.va == Va(sect.addr)
            &&& sect.held > 0 ==> own.data.len() == sect.size && forall|i: int|
                0 <= i < sect.size ==> own.data[i] == #[trigger] file[sect.offset + i]
            &&& sect.held == 0 ==> own.data == zeros(sect.size as usize as nat)
            &&& own.readable == (seg.initprot % 2 == 1)
            &&& own.writable == (seg.initprot % 4 >= 2)
            &&& own.executable == (seg.initprot % 8 >= 4)
            &&& own.executable ==> !own.byte_scannable
        }),
{
    reveal(mach_segment);
    let own = mach_segment(seg, sect, file)[0];
    if sect.held > 0 {
        assert forall|i: int| 0 <= i < sect.size implies own.data[i] == #[trigger] file[sect.offset
            + i] by {}
    }
}

/// The preferred base is the address of the first segment that is named as text.
pub proof fn law_preferred_base(segs: Seq<MachSegmentView>, k: int, q: int)
    requires
        0 <= k <= q < segs.len(),
        segs[q].name == Some("__TEXT"@),
        forall|p: int| 0 <= p < q ==> (#[trigger] segs[p]).name != Some("__TEXT"@),
    ensures
        preferred_base(segs, k) == segs[q].vmaddr,
    decreases q - k,
{
    if k < q {
        law_preferred_base(segs, k + 1, q);
    }
}

/// A symbol with a name and an address is kept as it is; another is left out.
pub proof fn law_mach_symbols(syms: Seq<Option<SymbolView>>, k: int)
    requires
        0 <= k < syms.len(),
    ensures
        syms[k] matches Some(s) && s.name.len() > 0 && s.va.0 != 0 ==> mach_symbols(syms, k + 1)
            == mach_symbols(syms, k).push(syms[k].unwrap()),
        syms[k] is None || syms[k].unwrap().name.len() == 0 || syms[k].unwrap().va.0 == 0
            ==> mach_symbols(syms, k + 1) == mach_symbols(syms, k),
{
}

} // verus!
