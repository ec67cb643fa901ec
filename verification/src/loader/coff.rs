//! COFF object files: sections laid end to end.
//!
//! An object file is not linked, and its sections have no addresses yet. They are
//! given consecutive ones in file order from zero on, each taking the larger of its
//! sizes in the file and in memory.

use crate::loader::elf::opt_text;
use crate::loader::pe::{
    pe_arch, pe_arch_of, pe_section_views, section_name, PeSection, PeSectionView,
};
use crate::loader::{
    alloc_bss, segment_views, symbol_views, zeros, DecodeMode, LoadedBinary, RelocPointer, SegData,
    Segment, SegmentView, Symbol, SymbolView,
};
use crate::text::starts_with;
use crate::va::{wrap64, Va};
use rustc_hash::FxHashSet;
use vstd::prelude::*;
use vstd::string::StringExecFns;

verus! {

/// Storage classes of the symbols that count: visible outside, and to the file.
pub const CLASS_EXTERNAL: u8 = 2;

pub const CLASS_STATIC: u8 = 3;

/// An entry of the symbol table.
#[derive(Clone, Debug)]
pub struct CoffSym {
    /// Number of its section, from one on; zero and below have other meanings.
    pub section: i16,
    pub class: u8,
    /// Offset in the section.
    pub value: u32,
    /// Name, where it can be read.
    pub name: Option<String>,
}

/// What a [`CoffSym`] says.
#[verifier::ext_equal]
pub struct CoffSymView {
    pub section: i16,
    pub class: u8,
    pub value: u32,
    pub name: Option<Seq<char>>,
}

impl View for CoffSym {
    type V = CoffSymView;

    open spec fn view(&self) -> CoffSymView {
        CoffSymView {
            section: self.section,
            class: self.class,
            value: self.value,
            name: opt_text(self.name),
        }
    }
}

/// What a symbol table says.
pub open spec fn coff_sym_views(s: Seq<CoffSym>) -> Seq<CoffSymView> {
    s.map_values(|x: CoffSym| x@)
}

/// The parts of a COFF file that loading looks at.
#[derive(Clone, Debug)]
pub struct CoffImage {
    pub machine: u16,
    pub sections: Vec<PeSection>,
    pub symbols: Vec<CoffSym>,
}

/// What a [`CoffImage`] says.
#[verifier::ext_equal]
pub struct CoffImageView {
    pub machine: u16,
    pub sections: Seq<PeSectionView>,
    pub symbols: Seq<CoffSymView>,
}

impl View for CoffImage {
    type V = CoffImageView;

    open spec fn view(&self) -> CoffImageView {
        CoffImageView {
            machine: self.machine,
            sections: pe_section_views(self.sections@),
            symbols: coff_sym_views(self.symbols@),
        }
    }
}

/// What a section takes of the address space.
pub open spec fn effective_size(s: PeSectionView) -> int {
    if s.raw_size > s.virtual_size {
        s.raw_size as int
    } else {
        s.virtual_size as int
    }
}

/// What the first `k` sections take together.
pub open spec fn sizes_before(sections: Seq<PeSectionView>, k: int) -> int
    decreases k,
{
    if k <= 0 {
        0
    } else {
        sizes_before(sections, k - 1) + effective_size(sections[k - 1])
    }
}

/// The address of the `i`-th section: behind all before it.
pub open spec fn section_va(sections: Seq<PeSectionView>, i: int) -> u64 {
    wrap64(sizes_before(sections, i))
}

/// Whether a section is mapped: one that only the linker reads is not, nor is debug
/// information.
pub open spec fn is_loaded(s: PeSectionView) -> bool {
    (s.flags / 0x200) % 2 == 0 && (s.flags / 0x800) % 2 == 0 && !".debug_"@.is_prefix_of(
        section_name(s),
    ) && !".zdebug_"@.is_prefix_of(section_name(s))
}

/// The segment of a section at an address: zeros where the file has no bytes of it,
/// none where the file ends before it does.
#[verifier::opaque]
pub open spec fn coff_segment(s: PeSectionView, va: u64, file: Seq<u8>) -> Seq<SegmentView> {
    let executable = s.executable() || (s.flags / 0x20) % 2 == 1;
    let readable = executable || s.readable();
    let data = if s.raw_offset == 0 {
        zeros(effective_size(s) as nat)
    } else {
        file.subrange(s.raw_offset as int, s.raw_offset + s.raw_size)
    };
    let present = if s.raw_offset == 0 {
        effective_size(s) > 0
    } else {
        s.raw_offset + s.raw_size <= file.len()
    };
    if is_loaded(s) && present {
        seq![
            SegmentView {
                va: Va(va),
                data,
                executable,
                readable,
                writable: s.writable(),
                byte_scannable: !executable && readable,
                mode: DecodeMode::Default,
                switches: Seq::empty(),
                name: section_name(s),
            },
        ]
    } else {
        Seq::empty()
    }
}

/// The segments of the first `k` sections.
pub open spec fn coff_segments(sections: Seq<PeSectionView>, file: Seq<u8>, k: int) -> Seq<
    SegmentView,
>
    decreases k,
{
    if k <= 0 {
        Seq::empty()
    } else {
        coff_segments(sections, file, k - 1) + coff_segment(
            sections[k - 1],
            section_va(sections, k - 1),
            file,
        )
    }
}

/// The named address of a symbol: one that is visible and defined in a section.
pub open spec fn coff_symbol(sections: Seq<PeSectionView>, s: CoffSymView) -> Option<SymbolView> {
    match s.name {
        Some(name) => if 0 < s.section <= sections.len() && (s.class == CLASS_EXTERNAL || s.class
            == CLASS_STATIC) && name.len() > 0 {
            Some(
                SymbolView { name, va: Va(wrap64(section_va(sections, s.section - 1) + s.value)) },
            )
        } else {
            None
        },
        None => None,
    }
}

/// The named addresses among the first `k` symbols.
pub open spec fn coff_symbols(
    sections: Seq<PeSectionView>,
    symbols: Seq<CoffSymView>,
    k: int,
) -> Seq<SymbolView>
    decreases k,
{
    if k <= 0 {
        Seq::empty()
    } else {
        let before = coff_symbols(sections, symbols, k - 1);
        match coff_symbol(sections, symbols[k - 1]) {
            Some(s) => before.push(s),
            None => before,
        }
    }
}

/// Gives every section its address.
pub fn compute_section_vas(sections: &Vec<PeSection>) -> (r: Vec<u64>)
    ensures
        r@.len() == sections@.len(),
        forall|i: int|
            0 <= i < r@.len() ==> #[trigger] r@[i] == section_va(pe_section_views(sections@), i),
{
    let ghost all = pe_section_views(sections@);
    let mut vas: Vec<u64> = Vec::new();
    let mut cursor = Va(0);
    let mut i: usize = 0;
    while i < sections.len()
        invariant
            i <= sections@.len(),
            all == pe_section_views(sections@),
            cursor.0 == wrap64(sizes_before(all, i as int)),
            vas@.len() == i,
            forall|j: int| 0 <= j < i ==> #[trigger] vas@[j] == section_va(all, j),
        decreases sections@.len() - i,
    {
        vas.push(cursor.0);
        let s = &sections[i];
        assert(all[i as int] == s@);
        let size: u32 = if s.raw_size > s.virtual_size {
            s.raw_size
        } else {
            s.virtual_size
        };
        proof {
            crate::va::lemma_wrap64_sum(sizes_before(all, i as int), size as int);
        }
        cursor = cursor + size as u64;
        i = i + 1;
    }
    vas
}

/// Adds the segment of a section.
fn add_section<'a>(s: &PeSection, va: u64, bytes: &'a [u8], out: &mut Vec<Segment<'a>>)
    ensures
        segment_views(final(out)@) == segment_views(old(out)@) + coff_segment(s@, va, bytes@),
{
    proof {
        reveal(coff_segment);
    }
    let ghost start = segment_views(out@);
    assert(start + Seq::<SegmentView>::empty() =~= start);
    if (s.flags / 0x200) % 2 == 1 || (s.flags / 0x800) % 2 == 1 {
        return ;
    }
    let name: String = match &s.name {
        Some(n) => n.clone(),
        None => String::from_str("?"),
    };
    if starts_with(name.as_str(), ".debug_") || starts_with(name.as_str(), ".zdebug_") {
        return ;
    }
    let executable = (s.flags / 0x2000_0000) % 2 == 1 || (s.flags / 0x20) % 2 == 1;
    let readable = executable || (s.flags / 0x4000_0000) % 2 == 1;
    let total: u64 = bytes.len() as u64;
    let data: SegData<'a> = if s.raw_offset == 0 {
        let size: u32 = if s.raw_size > s.virtual_size {
            s.raw_size
        } else {
            s.virtual_size
        };
        if size == 0 {
            return ;
        }
        alloc_bss(size as usize)
    } else {
        let offset: u64 = s.raw_offset as u64;
        let size: u64 = s.raw_size as u64;
        if offset > total || size > total - offset {
            return ;
        }
        SegData::new(&bytes[offset as usize..(offset + size) as usize])
    };
    let segment = Segment {
        va: Va(va),
        data,
        executable,
        readable,
        writable: (s.flags / 0x8000_0000) % 2 == 1,
        byte_scannable: !executable && readable,
        mode: DecodeMode::Default,
        switches: Vec::new(),
        name,
    };
    out.push(segment);
    assert(segment_views(out@) =~= start.push(segment@));
    assert(segment_views(out@) =~= start + coff_segment(s@, va, bytes@));
}

/// Collects the named addresses of visible symbols that a section defines.
fn extract_symbols(symbols: &Vec<CoffSym>, section_vas: &Vec<u64>, sections: &Vec<PeSection>) -> (r:
    Vec<Symbol>)
    requires
        section_vas@.len() == sections@.len(),
        forall|i: int|
            0 <= i < section_vas@.len() ==> #[trigger] section_vas@[i] == section_va(
                pe_section_views(sections@),
                i,
            ),
    ensures
        symbol_views(r@) == coff_symbols(
            pe_section_views(sections@),
            coff_sym_views(symbols@),
            symbols@.len() as int,
        ),
{
    let ghost secs = pe_section_views(sections@);
    let ghost all = coff_sym_views(symbols@);
    let mut out: Vec<Symbol> = Vec::new();
    let mut i: usize = 0;
    assert(symbol_views(out@) =~= Seq::empty());
    while i < symbols.len()
        invariant
            i <= symbols@.len(),
            secs == pe_section_views(sections@),
            all == coff_sym_views(symbols@),
            section_vas@.len() == sections@.len(),
            forall|i: int|
                0 <= i < section_vas@.len() ==> #[trigger] section_vas@[i] == section_va(secs, i),
            symbol_views(out@) == coff_symbols(secs, all, i as int),
        decreases symbols@.len() - i,
    {
        let sym = &symbols[i];
        assert(all[i as int] == sym@);
        if sym.section > 0 && sym.section as usize <= section_vas.len() && (sym.class
            == CLASS_EXTERNAL || sym.class == CLASS_STATIC) {
            match &sym.name {
                Some(name) => {
                    if !name.as_str().is_empty() {
                        let ghost before = out@;
                        let section: usize = (sym.section - 1) as usize;
                        let symbol = Symbol {
                            name: name.clone(),
                            va: Va(section_vas[section]) + sym.value as u64,
                        };
                        out.push(symbol);
                        assert(symbol_views(out@) =~= symbol_views(before).push(symbol@));
                        assert(symbol@ =~= coff_symbol(secs, sym@).unwrap());
                    }
                },
                None => {},
            }
        }
        i = i + 1;
    }
    out
}

/// Whether an object file is loaded as its headers say.
pub open spec fn loads_coff(img: CoffImageView, file: Seq<u8>, b: LoadedBinary<'_>) -> bool {
    &&& b.arch == pe_arch(img.machine)
    &&& b.pie_base == 0
    &&& b.layout() == coff_segments(img.sections, file, img.sections.len() as int)
    &&& b.entry_points@ == Seq::<Va>::empty()
    &&& symbol_views(b.symbols@) == coff_symbols(
        img.sections,
        img.symbols,
        img.symbols.len() as int,
    )
    &&& b.got_slots@ == Set::<u64>::empty()
    &&& b.reloc_pointers@ == Seq::<RelocPointer>::empty()
}

/// Loads a COFF object file from its headers.
pub fn parse_coff<'a>(bytes: &'a [u8], img: &CoffImage) -> (r: LoadedBinary<'a>)
    ensures
        loads_coff(img@, bytes@, r),
{
    let section_vas: Vec<u64> = compute_section_vas(&img.sections);
    let mut segments: Vec<Segment<'a>> = Vec::new();
    let ghost all = img@.sections;
    let mut i: usize = 0;
    assert(segment_views(segments@) =~= Seq::empty());
    while i < img.sections.len()
        invariant
            i <= img.sections@.len(),
            all == img@.sections,
            section_vas@.len() == img.sections@.len(),
            forall|i: int|
                0 <= i < section_vas@.len() ==> #[trigger] section_vas@[i] == section_va(all, i),
            segment_views(segments@) == coff_segments(all, bytes@, i as int),
        decreases img.sections@.len() - i,
    {
        assert(all[i as int] == img.sections@[i as int]@);
        add_section(&img.sections[i], section_vas[i], bytes, &mut segments);
        i = i + 1;
    }
    let symbols = extract_symbols(&img.symbols, &section_vas, &img.sections);
    LoadedBinary {
        arch: pe_arch_of(img.machine),
        segments,
        entry_points: Vec::new(),
        symbols,
        pie_base: 0,
        got_slots: FxHashSet::default(),
        reloc_pointers: Vec::new(),
    }
}

/// The first section is at zero, each starts where the one before it ends, and no
/// two overlap, as long as all of them fit into the address space.
pub proof fn law_sections_end_to_end(sections: Seq<PeSectionView>, i: int, j: int)
    requires
        0 <= i < j < sections.len(),
        sizes_before(sections, sections.len() as int) <= u64::MAX,
    ensures
        section_va(sections, 0) == 0,
        section_va(sections, i + 1) == section_va(sections, i) + effective_size(sections[i]),
        section_va(sections, i) + effective_size(sections[i]) <= section_va(sections, j),
{
    lemma_sizes_grow(sections, 0, i);
    lemma_sizes_grow(sections, i + 1, j);
    lemma_sizes_grow(sections, j, sections.len() as int);
}

proof fn lemma_sizes_grow(sections: Seq<PeSectionView>, i: int, j: int)
    requires
        0 <= i <= j <= sections.len(),
    ensures
        0 <= sizes_before(sections, i) <= sizes_before(sections, j),
    decreases j,
{
    if i < j {
        lemma_sizes_grow(sections, i, j - 1);
    } else if j > 0 {
        lemma_sizes_grow(sections, j - 1, j - 1);
    }
}

/// A symbol of a section lies as far into the image as all sections before its own
/// take, and its value further.
pub proof fn law_symbol_address(sections: Seq<PeSectionView>, sym: CoffSymView)
    requires
        0 < sym.section <= sections.len(),
        sym.class == 2 || sym.class == 3,
        sym.name matches Some(name) && name.len() > 0,
    ensures
        coff_symbol(sections, sym) == Some(
            SymbolView {
                name: sym.name.unwrap(),
                va: Va(wrap64(sizes_before(sections, sym.section - 1) + sym.value)),
            },
        ),
{
    crate::va::lemma_wrap64_sum(sizes_before(sections, sym.section - 1), sym.value as int);
}

/// A section with a place in the file becomes a segment of its bytes there; one without
/// becomes zeros of the greater of its sizes. Code can be read.
pub proof fn law_coff_section_becomes(s: PeSectionView, va: u64, file: Seq<u8>)
    requires
        (s.flags / 0x200) % 2 == 0,
        (s.flags / 0x800) % 2 == 0,
        !".debug_"@.is_prefix_of(section_name(s)),
        !".zdebug_"@.is_prefix_of(section_name(s)),
        s.raw_offset != 0 ==> s.raw_offset + s.raw_size <= file.len(),
        s.raw_offset == 0 ==> s.raw_size > 0 || s.virtual_size > 0,
    ensures
        ({
            let made = coff_segment(s, va, file);
            let own = made[0];
            &&& made.len() == 1
            &&& own.va == Va(va)
            &&& s.raw_offset != 0 ==> own.data.len() == s.raw_size && forall|i: int|
                0 <= i < s.raw_size ==> own.data[i] == #[trigger] file[s.raw_offset + i]
            &&& s.raw_offset == 0 ==> own.data == zeros(
                (if s.raw_size > s.virtual_size {
                    s.raw_size
                } else {
                    s.virtual_size
                }) as nat,
            )
            &&& own.writable == (s.flags >= 0x8000_0000)
            &&& own.executable == (s.flags % 0x4000_0000 >= 0x2000_0000 || s.flags % 0x40 >= 0x20)
            &&& own.readable == (own.executable || s.flags % 0x8000_0000 >= 0x4000_0000)
            &&& own.byte_scannable == (own.readable && !own.executable)
        }),
{
    reveal(coff_segment);
    let own = coff_segment(s, va, file)[0];
    if s.raw_offset != 0 {
        assert forall|i: int| 0 <= i < s.raw_size implies own.data[i]
            == #[trigger] file[s.raw_offset + i] by {}
    }
}

} // verus!
