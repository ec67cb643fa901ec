//! What ELF relocations say: which slots hold imports, and which hold pointers.

use crate::bytes::{le32, read_u32_le};
use crate::loader::elf::{
    shifted, shifted_segment, ElfImage, ElfImageView, ElfProgram, ElfReloc, ElfSym, ElfSymView,
    PT_LOAD,
};
use crate::loader::{segment_views, RelocPointer, Segment, SegmentView};
use crate::slots::add_slot;
use crate::va::{lemma_wrap64_sum, wrap64, Va};
use rustc_hash::FxHashSet;
use vstd::prelude::*;

verus! {

pub const R_X86_64_64: u32 = 1;

pub const R_X86_64_GLOB_DAT: u32 = 6;

pub const R_X86_64_JUMP_SLOT: u32 = 7;

pub const R_X86_64_RELATIVE: u32 = 8;

pub const R_AARCH64_ABS64: u32 = 257;

pub const R_AARCH64_GLOB_DAT: u32 = 1025;

pub const R_AARCH64_JUMP_SLOT: u32 = 1026;

pub const R_AARCH64_RELATIVE: u32 = 1027;

pub const R_ARM_ABS32: u32 = 2;

pub const R_ARM_GLOB_DAT: u32 = 21;

pub const R_ARM_JUMP_SLOT: u32 = 22;

pub const R_ARM_RELATIVE: u32 = 23;

/// Whether a relocation fills a slot with the address of an import.
pub open spec fn fills_slot(r: ElfReloc) -> bool {
    r.sym != 0 && (r.kind == R_X86_64_GLOB_DAT || r.kind == R_X86_64_JUMP_SLOT || r.kind
        == R_AARCH64_GLOB_DAT || r.kind == R_AARCH64_JUMP_SLOT || r.kind == R_ARM_GLOB_DAT
        || r.kind == R_ARM_JUMP_SLOT)
}

/// The slots that the first `k` relocations fill.
pub open spec fn slots_upto(relocs: Seq<ElfReloc>, base: u64, k: int) -> Set<u64>
    decreases k,
{
    if k <= 0 {
        Set::empty()
    } else if fills_slot(relocs[k - 1]) {
        slots_upto(relocs, base, k - 1).insert(wrap64(relocs[k - 1].offset + base))
    } else {
        slots_upto(relocs, base, k - 1)
    }
}

/// The slots of an image: of the dynamic relocations and those of the linkage table.
pub open spec fn elf_slots(img: ElfImageView, base: u64) -> Set<u64> {
    let all = img.dynrelas + img.dynrels + img.pltrelocs;
    slots_upto(all, base, all.len() as int)
}

/// An address is a slot exactly where a relocation fills it.
pub proof fn law_slots(relocs: Seq<ElfReloc>, base: u64, k: int, va: u64)
    requires
        0 <= k <= relocs.len(),
    ensures
        slots_upto(relocs, base, k).contains(va) <==> exists|i: int|
            0 <= i < k && fills_slot(#[trigger] relocs[i]) && wrap64(relocs[i].offset + base) == va,
    decreases k,
{
    if k > 0 {
        law_slots(relocs, base, k - 1, va);
        if slots_upto(relocs, base, k).contains(va) {
            if slots_upto(relocs, base, k - 1).contains(va) {
                let i = choose|i: int|
                    0 <= i < k - 1 && fills_slot(#[trigger] relocs[i]) && wrap64(
                        relocs[i].offset + base,
                    ) == va;
                assert(fills_slot(relocs[i]));
            } else {
                assert(fills_slot(relocs[k - 1]));
            }
        }
    }
}

/// Adds the slots that some relocations fill.
fn add_slots(
    out: &mut FxHashSet<u64>,
    relocs: &Vec<ElfReloc>,
    base: u64,
    Ghost(before): Ghost<Seq<ElfReloc>>,
)
    requires
        old(out)@ == slots_upto(before, base, before.len() as int),
    ensures
        final(out)@ == slots_upto(before + relocs@, base, (before + relocs@).len() as int),
{
    let ghost all = before + relocs@;
    proof {
        lemma_slots_prefix(before, all, base, before.len() as int);
    }
    let mut i: usize = 0;
    while i < relocs.len()
        invariant
            i <= relocs@.len(),
            all == before + relocs@,
            out@ == slots_upto(all, base, before.len() + i),
        decreases relocs@.len() - i,
    {
        let r = relocs[i];
        assert(all[before.len() + i] == r);
        if r.sym != 0 && (r.kind == R_X86_64_GLOB_DAT || r.kind == R_X86_64_JUMP_SLOT || r.kind
            == R_AARCH64_GLOB_DAT || r.kind == R_AARCH64_JUMP_SLOT || r.kind == R_ARM_GLOB_DAT
            || r.kind == R_ARM_JUMP_SLOT) {
            add_slot(out, (Va(r.offset) + base).0);
        }
        i = i + 1;
    }
}

proof fn lemma_slots_prefix(a: Seq<ElfReloc>, b: Seq<ElfReloc>, base: u64, k: int)
    requires
        0 <= k <= a.len() <= b.len(),
        forall|i: int| 0 <= i < a.len() ==> a[i] == b[i],
    ensures
        slots_upto(a, base, k) == slots_upto(b, base, k),
    decreases k,
{
    if k > 0 {
        lemma_slots_prefix(a, b, base, k - 1);
    }
}

/// The slots that the dynamic linker fills with the addresses of imports.
pub fn build_elf_got_slots(img: &ElfImage, pie_base: u64) -> (r: FxHashSet<u64>)
    ensures
        r@ == elf_slots(img@, pie_base),
{
    let mut out: FxHashSet<u64> = FxHashSet::default();
    let ghost none = Seq::<ElfReloc>::empty();
    add_slots(&mut out, &img.dynrelas, pie_base, Ghost(none));
    assert(none + img.dynrelas@ =~= img.dynrelas@);
    add_slots(&mut out, &img.dynrels, pie_base, Ghost(img.dynrelas@));
    add_slots(&mut out, &img.pltrelocs, pie_base, Ghost(img.dynrelas@ + img.dynrels@));
    out
}

/// Where in the file the first of the program headers from the `k`-th on that holds
/// an address puts it.
pub open spec fn file_offset(programs: Seq<ElfProgram>, va: u64, k: int) -> Option<u64>
    decreases programs.len() - k,
{
    if k < 0 || k >= programs.len() {
        None
    } else {
        let p = programs[k];
        if p.kind == PT_LOAD && p.vaddr <= va < wrap64(p.vaddr + p.filesz) {
            Some(wrap64(va - p.vaddr + p.offset))
        } else {
            file_offset(programs, va, k + 1)
        }
    }
}

/// The word that the file has for an address.
#[verifier::opaque]
pub open spec fn file_word(programs: Seq<ElfProgram>, file: Seq<u8>, va: u64) -> Option<u64> {
    match file_offset(programs, va, 0) {
        Some(at) => if at + 4 <= file.len() {
            Some(le32(file, at as int) as u64)
        } else {
            None
        },
        None => None,
    }
}

/// The symbol of a relocation: of the dynamic table, else of the other.
pub open spec fn reloc_symbol(img: ElfImageView, sym: int) -> Option<ElfSymView> {
    if sym < img.dynsyms.len() {
        Some(img.dynsyms[sym])
    } else if sym < img.syms.len() {
        Some(img.syms[sym])
    } else {
        None
    }
}

/// The addend that an entry gives.
pub open spec fn explicit_addend(r: ElfReloc) -> int {
    match r.addend {
        Some(a) => a as int,
        None => 0,
    }
}

/// The address that a relocation puts into its slot, where it puts in one that
/// the image defines.
///
/// Entries of ARM images have their addend in the slot.
pub open spec fn reloc_target(img: ElfImageView, file: Seq<u8>, base: u64, r: ElfReloc) -> Option<
    u64,
> {
    if r.kind == R_X86_64_RELATIVE || r.kind == R_AARCH64_RELATIVE {
        Some(wrap64(explicit_addend(r) + base))
    } else if r.kind == R_ARM_RELATIVE {
        match file_word(img.programs, file, r.offset) {
            Some(w) => Some(wrap64(w + base)),
            None => None,
        }
    } else if (r.kind == R_X86_64_64 || r.kind == R_AARCH64_ABS64 || r.kind == R_ARM_ABS32)
        && r.sym != 0 {
        match reloc_symbol(img, r.sym as int) {
            Some(s) => if s.shndx != 0 && s.value != 0 {
                let addend = if r.kind == R_ARM_ABS32 {
                    match file_word(img.programs, file, r.offset) {
                        Some(w) => w as int,
                        None => 0,
                    }
                } else {
                    explicit_addend(r)
                };
                Some(wrap64(s.value + base + addend))
            } else {
                None
            },
            None => None,
        }
    } else {
        None
    }
}

/// Whether any segment covers an address.
pub open spec fn any_covers(segments: Seq<SegmentView>, va: u64) -> bool {
    exists|i: int| 0 <= i < segments.len() && (#[trigger] segments[i]).covers(va)
}

/// The pointer of a relocation, where it points into a segment.
#[verifier::opaque]
pub open spec fn reloc_pointer(
    img: ElfImageView,
    file: Seq<u8>,
    base: u64,
    segments: Seq<SegmentView>,
    r: ElfReloc,
) -> Option<RelocPointer> {
    match reloc_target(img, file, base, r) {
        Some(to) => if any_covers(segments, to) {
            Some(RelocPointer { from: Va(wrap64(r.offset + base)), to: Va(to) })
        } else {
            None
        },
        None => None,
    }
}

/// The pointers of the first `k` relocations.
pub open spec fn pointers_upto(
    img: ElfImageView,
    file: Seq<u8>,
    base: u64,
    segments: Seq<SegmentView>,
    relocs: Seq<ElfReloc>,
    k: int,
) -> Seq<RelocPointer>
    decreases k,
{
    if k <= 0 {
        Seq::empty()
    } else {
        let before = pointers_upto(img, file, base, segments, relocs, k - 1);
        match reloc_pointer(img, file, base, segments, relocs[k - 1]) {
            Some(p) => before.push(p),
            None => before,
        }
    }
}

/// The pointers of an image.
pub open spec fn elf_pointers(
    img: ElfImageView,
    file: Seq<u8>,
    base: u64,
    segments: Seq<SegmentView>,
) -> Seq<RelocPointer> {
    let relocs = img.dynrelas + img.dynrels;
    pointers_upto(img, file, base, segments, relocs, relocs.len() as int)
}

/// Every pointer of a relocation points into a segment.
pub proof fn law_pointers_mapped(
    img: ElfImageView,
    file: Seq<u8>,
    base: u64,
    segments: Seq<SegmentView>,
    relocs: Seq<ElfReloc>,
    k: int,
)
    ensures
        forall|i: int|
            0 <= i < pointers_upto(img, file, base, segments, relocs, k).len() ==> any_covers(
                segments,
                (#[trigger] pointers_upto(img, file, base, segments, relocs, k)[i]).to.0,
            ),
    decreases k,
{
    if k > 0 {
        reveal(reloc_pointer);
        law_pointers_mapped(img, file, base, segments, relocs, k - 1);
        let before = pointers_upto(img, file, base, segments, relocs, k - 1);
        let all = pointers_upto(img, file, base, segments, relocs, k);
        assert forall|i: int| 0 <= i < all.len() implies any_covers(
            segments,
            (#[trigger] all[i]).to.0,
        ) by {
            if i < before.len() {
                assert(all[i] == before[i]);
            }
        }
    }
}

/// The word that the file has for an address.
fn read_file_word(programs: &Vec<ElfProgram>, file: &[u8], va: u64) -> (r: Option<u64>)
    ensures
        r == file_word(programs@, file@, va),
{
    proof {
        reveal(file_word);
    }
    let mut k: usize = 0;
    while k < programs.len()
        invariant
            k <= programs@.len(),
            file_offset(programs@, va, 0) == file_offset(programs@, va, k as int),
        decreases programs@.len() - k,
    {
        let p = programs[k];
        if p.kind == PT_LOAD && p.vaddr <= va && va < p.vaddr.wrapping_add(p.filesz) {
            proof {
                reveal(file_word);
            }
            let at: u64 = (va - p.vaddr).wrapping_add(p.offset);
            let total: usize = file.len();
            if total < 4 || at > (total - 4) as u64 {
                return None;
            }
            return Some(read_u32_le(file, at as usize) as u64);
        }
        k = k + 1;
    }
    None
}

/// Whether any segment covers an address.
fn covered(segments: &Vec<Segment<'_>>, va: Va) -> (r: bool)
    ensures
        r == any_covers(segment_views(segments@), va.0),
{
    let ghost views = segment_views(segments@);
    let mut i: usize = 0;
    while i < segments.len()
        invariant
            i <= segments@.len(),
            views == segment_views(segments@),
            forall|j: int| 0 <= j < i ==> !(#[trigger] views[j]).covers(va.0),
        decreases segments@.len() - i,
    {
        if segments[i].contains(va) {
            assert(views[i as int].covers(va.0));
            return true;
        }
        i = i + 1;
    }
    false
}

/// The value of a symbol that the image defines.
fn defined_value(sym: &ElfSym) -> (r: Option<u64>)
    ensures
        r == if sym@.shndx != 0 && sym@.value != 0 {
            Some(sym@.value)
        } else {
            None
        },
{
    if sym.shndx != 0 && sym.value != 0 {
        Some(sym.value)
    } else {
        None
    }
}

/// The value of the symbol of a relocation, where the image defines it.
fn symbol_value(img: &ElfImage, sym: usize) -> (r: Option<u64>)
    ensures
        r == match reloc_symbol(img@, sym as int) {
            Some(s) => if s.shndx != 0 && s.value != 0 {
                Some(s.value)
            } else {
                None
            },
            None => None,
        },
{
    if sym < img.dynsyms.len() {
        assert(img@.dynsyms[sym as int] == img.dynsyms@[sym as int]@);
        defined_value(&img.dynsyms[sym])
    } else if sym < img.syms.len() {
        assert(img@.syms[sym as int] == img.syms@[sym as int]@);
        defined_value(&img.syms[sym])
    } else {
        None
    }
}

/// The address that a relocation puts into its slot.
fn target_of(img: &ElfImage, file: &[u8], base: u64, r: &ElfReloc) -> (t: Option<u64>)
    ensures
        t == reloc_target(img@, file@, base, *r),
{
    let explicit: i64 = match r.addend {
        Some(a) => a,
        None => 0,
    };
    if r.kind == R_X86_64_RELATIVE || r.kind == R_AARCH64_RELATIVE {
        return Some(Va(base).offset(explicit).0);
    }
    if r.kind == R_ARM_RELATIVE {
        return match read_file_word(&img.programs, file, r.offset) {
            Some(w) => Some((Va(w) + base).0),
            None => None,
        };
    }
    if (r.kind == R_X86_64_64 || r.kind == R_AARCH64_ABS64 || r.kind == R_ARM_ABS32) && r.sym
        != 0 {
        let value: Option<u64> = symbol_value(img, r.sym);
        return match value {
            Some(v) => {
                let at = Va(v) + base;
                proof {
                    lemma_wrap64_sum(v + base, explicit as int);
                    match file_word(img@.programs, file@, r.offset) {
                        Some(w) => lemma_wrap64_sum(v + base, w as int),
                        None => lemma_wrap64_sum(v + base, 0),
                    }
                }
                if r.kind == R_ARM_ABS32 {
                    let implicit: u64 = match read_file_word(&img.programs, file, r.offset) {
                        Some(w) => w,
                        None => 0,
                    };
                    Some((at + implicit).0)
                } else {
                    Some(at.offset(explicit).0)
                }
            },
            None => None,
        };
    }
    None
}

/// Adds the pointers of some relocations.
fn add_pointers(
    out: &mut Vec<RelocPointer>,
    img: &ElfImage,
    file: &[u8],
    base: u64,
    segments: &Vec<Segment<'_>>,
    relocs: &Vec<ElfReloc>,
    Ghost(before): Ghost<Seq<ElfReloc>>,
)
    requires
        old(out)@ == pointers_upto(
            img@,
            file@,
            base,
            segment_views(segments@),
            before,
            before.len() as int,
        ),
    ensures
        final(out)@ == pointers_upto(
            img@,
            file@,
            base,
            segment_views(segments@),
            before + relocs@,
            (before + relocs@).len() as int,
        ),
{
    let ghost all = before + relocs@;
    let ghost views = segment_views(segments@);
    proof {
        lemma_pointers_prefix(img@, file@, base, views, before, all, before.len() as int);
    }
    let mut i: usize = 0;
    while i < relocs.len()
        invariant
            i <= relocs@.len(),
            all == before + relocs@,
            views == segment_views(segments@),
            out@ == pointers_upto(img@, file@, base, views, all, before.len() + i),
        decreases relocs@.len() - i,
    {
        let r = relocs[i];
        assert(all[before.len() + i] == r);
        proof {
            reveal(reloc_pointer);
        }
        match target_of(img, file, base, &r) {
            Some(to) => {
                if covered(segments, Va(to)) {
                    out.push(RelocPointer { from: Va(r.offset) + base, to: Va(to) });
                }
            },
            None => {},
        }
        i = i + 1;
    }
}

proof fn lemma_pointers_prefix(
    img: ElfImageView,
    file: Seq<u8>,
    base: u64,
    segments: Seq<SegmentView>,
    a: Seq<ElfReloc>,
    b: Seq<ElfReloc>,
    k: int,
)
    requires
        0 <= k <= a.len() <= b.len(),
        forall|i: int| 0 <= i < a.len() ==> a[i] == b[i],
    ensures
        pointers_upto(img, file, base, segments, a, k) == pointers_upto(
            img,
            file,
            base,
            segments,
            b,
            k,
        ),
    decreases k,
{
    if k > 0 {
        lemma_pointers_prefix(img, file, base, segments, a, b, k - 1);
    }
}

/// The pointers that relocations put into the image, as far as they point into its
/// segments.
pub fn build_elf_reloc_pointers(
    img: &ElfImage,
    bytes: &[u8],
    pie_base: u64,
    segments: &Vec<Segment<'_>>,
) -> (r: Vec<RelocPointer>)
    ensures
        r@ == elf_pointers(img@, bytes@, pie_base, segment_views(segments@)),
{
    let mut out: Vec<RelocPointer> = Vec::new();
    let ghost none = Seq::<ElfReloc>::empty();
    add_pointers(&mut out, img, bytes, pie_base, segments, &img.dynrelas, Ghost(none));
    assert(none + img.dynrelas@ =~= img.dynrelas@);
    add_pointers(&mut out, img, bytes, pie_base, segments, &img.dynrels, Ghost(img.dynrelas@));
    out
}

/// The pointer from one address to another, where a segment covers the latter.
pub open spec fn landed(segments: Seq<SegmentView>, from: int, to: int) -> Seq<RelocPointer> {
    if any_covers(segments, wrap64(to)) {
        seq![RelocPointer { from: Va(wrap64(from)), to: Va(wrap64(to)) }]
    } else {
        Seq::empty()
    }
}

/// The value of a symbol that the image defines, by its number in the dynamic table
/// or, past the end of that, in the other.
pub open spec fn names_value(img: ElfImageView, sym: int, value: u64) -> bool {
    value != 0 && sym != 0 && ((0 <= sym < img.dynsyms.len() && img.dynsyms[sym].value == value
        && img.dynsyms[sym].shndx != 0) || (img.dynsyms.len() <= sym < img.syms.len()
        && img.syms[sym].value == value && img.syms[sym].shndx != 0))
}

/// Whether no symbol of that number is defined.
pub open spec fn names_nothing(img: ElfImageView, sym: int) -> bool {
    forall|value: u64| !(#[trigger] names_value(img, sym, value))
}

/// Whether the file has the four bytes at `at` for an address: the `q`-th program
/// header loads it, and none before does.
pub open spec fn loaded_from(img: ElfImageView, va: u64, q: int, at: int) -> bool {
    &&& 0 <= q < img.programs.len()
    &&& img.programs[q].kind == 1
    &&& img.programs[q].vaddr <= va < img.programs[q].vaddr + img.programs[q].filesz
    &&& img.programs[q].vaddr + img.programs[q].filesz <= u64::MAX
    &&& at - img.programs[q].offset == va - img.programs[q].vaddr
    &&& forall|p: int|
        0 <= p < q ==> (#[trigger] img.programs[p]).kind != 1 || va < img.programs[p].vaddr || va
            >= img.programs[p].vaddr + img.programs[p].filesz
}

/// What each kind of relocation adds to the pointers of an image at a base, its own
/// address moved by the base too:
///
/// - RELATIVE of x86-64 and AArch64: to the addend plus the base;
/// - the 64-bit absolutes of x86-64 and AArch64: to the value of the symbol plus the
///   addend plus the base, where the image defines the symbol;
/// - any other kind, apart from the two of ARM: nothing.
pub proof fn law_relocation_adds(
    img: ElfImageView,
    file: Seq<u8>,
    base: u64,
    segments: Seq<SegmentView>,
    relocs: Seq<ElfReloc>,
    k: int,
    addend: int,
    value: u64,
)
    requires
        0 <= k < relocs.len(),
        match relocs[k].addend {
            Some(a) => addend == a,
            None => addend == 0,
        },
    ensures
        relocs[k].kind == 8 || relocs[k].kind == 1027 ==> pointers_upto(
            img,
            file,
            base,
            segments,
            relocs,
            k + 1,
        ) == pointers_upto(img, file, base, segments, relocs, k) + landed(
            segments,
            relocs[k].offset + base,
            addend + base,
        ),
        (relocs[k].kind == 1 || relocs[k].kind == 257) && names_value(
            img,
            relocs[k].sym as int,
            value,
        ) ==> pointers_upto(img, file, base, segments, relocs, k + 1) == pointers_upto(
            img,
            file,
            base,
            segments,
            relocs,
            k,
        ) + landed(segments, relocs[k].offset + base, value + addend + base),
        (relocs[k].kind == 1 || relocs[k].kind == 257 || relocs[k].kind == 2) && names_nothing(
            img,
            relocs[k].sym as int,
        ) ==> pointers_upto(img, file, base, segments, relocs, k + 1) == pointers_upto(
            img,
            file,
            base,
            segments,
            relocs,
            k,
        ),
        relocs[k].kind != 1 && relocs[k].kind != 2 && relocs[k].kind != 8 && relocs[k].kind != 23
            && relocs[k].kind != 257 && relocs[k].kind != 1027 ==> pointers_upto(
            img,
            file,
            base,
            segments,
            relocs,
            k + 1,
        ) == pointers_upto(img, file, base, segments, relocs, k),
{
    reveal(reloc_pointer);
    let r = relocs[k];
    let before = pointers_upto(img, file, base, segments, relocs, k);
    assert(before + Seq::<RelocPointer>::empty() =~= before);
    assert(explicit_addend(r) == addend);
    match reloc_symbol(img, r.sym as int) {
        Some(s) => {
            if r.sym != 0 && s.shndx != 0 && s.value != 0 {
                assert(names_value(img, r.sym as int, s.value));
            }
        },
        None => {},
    }
}

proof fn lemma_file_offset(programs: Seq<ElfProgram>, va: u64, k: int, q: int)
    requires
        0 <= k <= q < programs.len(),
        programs[q].kind == 1,
        programs[q].vaddr <= va < programs[q].vaddr + programs[q].filesz,
        programs[q].vaddr + programs[q].filesz <= u64::MAX,
        forall|p: int|
            0 <= p < q ==> (#[trigger] programs[p]).kind != 1 || va < programs[p].vaddr || va
                >= programs[p].vaddr + programs[p].filesz,
    ensures
        file_offset(programs, va, k) == Some(wrap64(va - programs[q].vaddr + programs[q].offset)),
    decreases q - k,
{
    if k < q {
        lemma_file_offset(programs, va, k + 1, q);
        let p = programs[k];
        if p.kind == 1 && p.vaddr <= va {
            assert(va >= p.vaddr + p.filesz);
            assert(wrap64(p.vaddr + p.filesz) == p.vaddr + p.filesz);
        }
    }
}

/// The relocations of ARM take their addend from the four bytes that the file has for
/// the slot: RELATIVE leads to them plus the base, the absolute to the value of the
/// symbol plus them plus the base.
pub proof fn law_arm_relocation_adds(
    img: ElfImageView,
    file: Seq<u8>,
    base: u64,
    segments: Seq<SegmentView>,
    relocs: Seq<ElfReloc>,
    k: int,
    value: u64,
    q: int,
    at: int,
)
    requires
        0 <= k < relocs.len(),
        loaded_from(img, relocs[k].offset, q, at),
        at + 4 <= file.len() <= u64::MAX,
    ensures
        relocs[k].kind == 23 ==> pointers_upto(img, file, base, segments, relocs, k + 1)
            == pointers_upto(img, file, base, segments, relocs, k) + landed(
            segments,
            relocs[k].offset + base,
            le32(file, at) + base,
        ),
        relocs[k].kind == 2 && names_value(img, relocs[k].sym as int, value) ==> pointers_upto(
            img,
            file,
            base,
            segments,
            relocs,
            k + 1,
        ) == pointers_upto(img, file, base, segments, relocs, k) + landed(
            segments,
            relocs[k].offset + base,
            value + le32(file, at) + base,
        ),
{
    reveal(reloc_pointer);
    reveal(file_word);
    let r = relocs[k];
    lemma_file_offset(img.programs, r.offset, 0, q);
    assert(file_word(img.programs, file, r.offset) == Some(le32(file, at) as u64));
    let before = pointers_upto(img, file, base, segments, relocs, k);
    assert(before + Seq::<RelocPointer>::empty() =~= before);
}

/// A base moves both ends of every pointer: what a relocation gives over segments at
/// base zero, it gives moved over the same segments moved.
pub proof fn law_base_moves_pointer(
    img: ElfImageView,
    file: Seq<u8>,
    base: u64,
    a: Seq<SegmentView>,
    b: Seq<SegmentView>,
    r: ElfReloc,
)
    requires
        shifted(a, b, base),
        forall|i: int| 0 <= i < b.len() ==> (#[trigger] b[i]).within_space(),
    ensures
        reloc_pointer(img, file, 0, a, r) matches Some(p) ==> reloc_pointer(img, file, base, b, r)
            == Some(
            RelocPointer { from: Va(wrap64(p.from.0 + base)), to: Va(wrap64(p.to.0 + base)) },
        ),
{
    reveal(reloc_pointer);
    match reloc_pointer(img, file, 0, a, r) {
        Some(p) => {
            lemma_target_moves(img, file, base, r);
            lemma_wrap64_sum(r.offset as int, base as int);
            let i = choose|i: int| 0 <= i < a.len() && (#[trigger] a[i]).covers(p.to.0);
            assert(shifted_segment(a[i], b[i], base));
            assert(b[i].within_space());
            assert(b[i].covers(wrap64(p.to.0 + base)));
        },
        None => {},
    }
}

proof fn lemma_target_moves(img: ElfImageView, file: Seq<u8>, base: u64, r: ElfReloc)
    ensures
        reloc_target(img, file, 0, r) matches Some(t) ==> reloc_target(img, file, base, r) == Some(
            wrap64(t + base),
        ),
{
    let e = explicit_addend(r);
    lemma_wrap64_sum(e, base as int);
    let w = match file_word(img.programs, file, r.offset) {
        Some(w) => w as int,
        None => 0,
    };
    lemma_wrap64_sum(w, base as int);
    match reloc_symbol(img, r.sym as int) {
        Some(s) => {
            lemma_wrap64_sum(s.value + e, base as int);
            lemma_wrap64_sum(s.value + w, base as int);
        },
        None => {},
    }
}

/// A slot is filled by GLOB_DAT and JUMP_SLOT of the three machines, where they name a
/// symbol, and by no other kind.
pub proof fn law_slot_kinds(r: ElfReloc)
    ensures
        fills_slot(r) <==> r.sym != 0 && (r.kind == 6 || r.kind == 7 || r.kind == 21 || r.kind
            == 22 || r.kind == 1025 || r.kind == 1026),
{
}

} // verus!
