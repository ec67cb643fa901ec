//! What the AArch64 scan reports of a switch, told from the encoding side.

use crate::arch::arm64::{paired_refs, state_before, step_refs, CmpBound, Reg};
use crate::arch::arm64_decode::{decoded, law_families_exclusive};
use crate::arch::arm64_jump_table::{
    adr_into, case_refs, case_target, combining_add, compared, nearest, nearest_add, nearest_base,
    nearest_compared, nearest_load, nearest_offset, nearest_page, offset_added, page_set,
    table_load, table_pattern, table_refs, JumpTableAddInfo, JumpTableEntrySize, JumpTablePattern,
    TableLoad,
};
use crate::arch::arm64_laws::{
    computed_adr, encoded_adr, lemma_adr, lemma_fields, lemma_masks, pc_of, AddressUse,
};
use crate::arch::{exec_in, u16_at, u8_at, DataSpanView, ScanModel};
use crate::bytes::le32;
use crate::va::{wrap64, Va};
use crate::xref::{Confidence, Xref, XrefKind};
use vstd::arithmetic::power2::{lemma2_to64, pow2};
use vstd::prelude::*;

verus! {

/// A switch over the entries of a table:
///
/// ```text
///   CMP   index, last
///   ADRP  table, page
///   ADD   table, table, offset
///   ADR   base, distance
///   LDRB  entry, [table, index]     or LDRH
///   ADD   entry, base, entry, extended and shifted
///   BR    entry
/// ```
pub struct Switch {
    pub index: int,
    pub table: int,
    pub base: int,
    pub entry: int,
    /// Greatest index.
    pub last: int,
    pub page: int,
    pub offset: int,
    pub distance: int,
    /// Whether an entry takes two bytes.
    pub halves: bool,
    /// Whether an entry is signed.
    pub signed: bool,
    pub shift: nat,
}

impl Switch {
    /// Whether the fields are in range.
    pub open spec fn valid(self) -> bool {
        &&& 0 <= self.index < 31 && 0 <= self.table < 31 && 0 <= self.base < 31 && 0 <= self.entry
            < 31
        &&& 0 <= self.last < 0x1000 && 0 <= self.offset < 0x1000
        &&& -0x10_0000 <= self.page < 0x10_0000 && -0x10_0000 <= self.distance < 0x10_0000
        &&& self.shift <= 4
    }

    /// The instruction word so many before the branch.
    pub open spec fn word(self, back: int) -> int {
        if back == 6 {
            0x7100_0000 + self.last * 0x400 + self.index * 0x20 + 31
        } else if back == 5 {
            encoded_adr(true, self.page, self.table)
        } else if back == 4 {
            (AddressUse::Add {
                wide: 1,
                pages: false,
                imm: self.offset,
                rd: self.table,
            }).encoded(self.table)
        } else if back == 3 {
            encoded_adr(false, self.distance, self.base)
        } else if back == 2 {
            (if self.halves {
                0x7860_0800int
            } else {
                0x3860_0800
            }) + self.index * 0x1_0000 + 0x4000 + self.table * 0x20 + self.entry
        } else if back == 1 {
            0x8B20_0000 + self.entry * 0x1_0000 + (if self.signed {
                0x8000int
            } else {
                0
            }) + self.shift * 0x400 + self.base * 0x20 + self.entry
        } else {
            0xD61F_0000 + self.entry * 0x20
        }
    }

    /// Whether the switch ends at the `br`-th instruction.
    pub open spec fn ends_at(self, m: ScanModel, br: int) -> bool {
        6 <= br && forall|back: int|
            0 <= back <= 6 ==> le32(m.data, 4 * (br - back)) == #[trigger] self.word(back)
    }

    /// The address of the first entry, for a branch at an address.
    pub open spec fn table_at(self, m: ScanModel, br: int) -> u64 {
        wrap64(computed_adr(true, self.page, pc_of(m, br - 5)) + self.offset)
    }

    /// The address that entries count from.
    pub open spec fn base_at(self, m: ScanModel, br: int) -> u64 {
        computed_adr(false, self.distance, pc_of(m, br - 3))
    }

    /// Whether the `k`-th entry leads to an address of code.
    pub open spec fn leads(
        self,
        m: ScanModel,
        image: Seq<DataSpanView>,
        br: int,
        k: int,
        to: u64,
    ) -> bool {
        let raw = if self.halves {
            u16_at(image, wrap64(self.table_at(m, br) + 2 * k))
        } else {
            u8_at(image, wrap64(self.table_at(m, br) + k))
        };
        let range: int = if self.halves {
            0x1_0000
        } else {
            0x100
        };
        raw matches Some(v) && exec_in(m.spans, to) && to == wrap64(
            self.base_at(m, br) + (if self.signed && 2 * v >= range {
                v - range
            } else {
                v
            }) * pow2(self.shift),
        )
    }
}

proof fn lemma_switch_masks(w: u32)
    ensures
        w & 0xFF20_0000 == 0x8B00_0000 <==> w / 0x100_0000 == 0x8B && (w / 0x20_0000) % 2 == 0,
        w & 0xFFE0_0000 == 0x8B20_0000 <==> w / 0x20_0000 == 0x459,
        w & 0xFFE0_0C00 == 0x3860_0800 <==> w / 0x20_0000 == 0x1C3 && (w / 0x400) % 4 == 2,
        w & 0xFFE0_0C00 == 0x7860_0800 <==> w / 0x20_0000 == 0x3C3 && (w / 0x400) % 4 == 2,
        w & 0x7F80_0000 == 0x7100_0000 <==> (w / 0x80_0000) % 0x100 == 0xE2,
        w & 0x7F00_0000 == 0x1100_0000 <==> (w / 0x100_0000) % 0x80 == 0x11,
        w & 0x9F00_0000 == 0x9000_0000 <==> w / 0x8000_0000 == 1 && (w / 0x100_0000) % 0x20 == 0x10,
        w & 0x9F00_0000 == 0x1000_0000 <==> w / 0x8000_0000 == 0 && (w / 0x100_0000) % 0x20 == 0x10,
{
    assert((w & 0xFF20_0000 == 0x8B00_0000 <==> w / 0x100_0000 == 0x8B && (w / 0x20_0000) % 2 == 0)
        && (w & 0xFFE0_0000 == 0x8B20_0000 <==> w / 0x20_0000 == 0x459) && (w & 0xFFE0_0C00
        == 0x3860_0800 <==> w / 0x20_0000 == 0x1C3 && (w / 0x400) % 4 == 2) && (w & 0xFFE0_0C00
        == 0x7860_0800 <==> w / 0x20_0000 == 0x3C3 && (w / 0x400) % 4 == 2) && (w & 0x7F80_0000
        == 0x7100_0000 <==> (w / 0x80_0000) % 0x100 == 0xE2) && (w & 0x7F00_0000 == 0x1100_0000
        <==> (w / 0x100_0000) % 0x80 == 0x11) && (w & 0x9F00_0000 == 0x9000_0000 <==> w
        / 0x8000_0000 == 1 && (w / 0x100_0000) % 0x20 == 0x10) && (w & 0x9F00_0000 == 0x1000_0000
        <==> w / 0x8000_0000 == 0 && (w / 0x100_0000) % 0x20 == 0x10)) by (bit_vector);
}

/// What a word with a given top byte is not.
proof fn lemma_top_excludes(w: u32, top: int)
    requires
        w / 0x100_0000 == top,
    ensures
        top != 0x8B ==> combining_add(w) is None,
        top != 0x38 && top != 0x78 ==> table_load(w) is None,
        top % 0x80 != 0x71 ==> compared(w) is None,
        top % 0x80 != 0x11 ==> offset_added(w) is None,
        !(top >= 0x80 && top % 0x20 == 0x10) ==> forall|va: Va| #[trigger] page_set(w, va) is None,
        !(top < 0x80 && top % 0x20 == 0x10) ==> forall|va: Va, add: Option<JumpTableAddInfo>|
            #[trigger] adr_into(w, va, add) is None,
{
    reveal(combining_add);
    reveal(table_load);
    reveal(compared);
    reveal(offset_added);
    reveal(page_set);
    reveal(adr_into);
    lemma_switch_masks(w);
    assert(w as int / 0x20_0000 / 8 == top);
    assert(w as int / 0x80_0000 / 2 == top);
    assert(w as int / 0x8000_0000 == top / 0x80);
}

proof fn lemma_compare_word(w: u32, last: int, index: int)
    requires
        0 <= last < 0x1000,
        0 <= index < 31,
        w == 0x7100_0000 + last * 0x400 + index * 0x20 + 31,
    ensures
        compared(w) == Some((Reg(index as u8), CmpBound((last + 1) as u32))),
        w / 0x100_0000 == 0x71,
{
    reveal(compared);
    lemma_switch_masks(w);
    lemma_fields(w, 0x1C4, last, index, 31);
    assert(w as int / 0x80_0000 == 0xE2);
    assert(w as int % 0x20 == 31);
}

proof fn lemma_load_word(w: u32, halves: bool, index: int, table: int, entry: int)
    requires
        0 <= index < 31,
        0 <= table < 31,
        0 <= entry < 31,
        w == (if halves {
            0x7860_0800int
        } else {
            0x3860_0800
        }) + index * 0x1_0000 + 0x4000 + table * 0x20 + entry,
    ensures
        table_load(w) == Some(
            TableLoad {
                table: Reg(table as u8),
                index: Reg(index as u8),
                size: if halves {
                    JumpTableEntrySize::Halfword
                } else {
                    JumpTableEntrySize::Byte
                },
            },
        ),
        w / 0x100_0000 == if halves {
            0x78int
        } else {
            0x38
        },
{
    reveal(table_load);
    lemma_switch_masks(w);
    let high: int = if halves {
        0x3C3
    } else {
        0x1C3
    };
    assert(w as int == high * 0x20_0000 + index * 0x1_0000 + 0x4800 + table * 0x20 + entry);
    assert(w as int / 0x20_0000 == high);
    assert(w as int / 0x400 == high * 0x800 + index * 0x40 + 0x12);
    assert(w as int / 0x20 == high * 0x1_0000 + index * 0x800 + 0x240 + table);
    assert(w as int / 0x1_0000 == high * 0x20 + index);
}

proof fn lemma_combine_word(w: u32, signed: bool, shift: nat, base: int, entry: int)
    requires
        0 <= base < 31,
        0 <= entry < 31,
        shift <= 4,
        w == 0x8B20_0000 + entry * 0x1_0000 + (if signed {
            0x8000int
        } else {
            0
        }) + shift * 0x400 + base * 0x20 + entry,
    ensures
        combining_add(w) == Some(
            JumpTableAddInfo { shift: shift as u32, sign_extend: signed, base_reg: Reg(base as u8) },
        ),
        w / 0x100_0000 == 0x8B,
{
    reveal(combining_add);
    lemma_switch_masks(w);
    let s: int = if signed {
        1
    } else {
        0
    };
    assert(w as int == 0x459 * 0x20_0000 + entry * 0x1_0000 + s * 0x8000 + shift * 0x400 + base
        * 0x20 + entry);
    assert(w as int / 0x20_0000 == 0x459);
    assert(w as int / 0x8000 == 0x459 * 0x40 + entry * 2 + s);
    assert(w as int / 0x400 == 0x459 * 0x800 + entry * 0x40 + s * 0x20 + shift);
    assert(w as int / 0x20 == 0x459 * 0x1_0000 + entry * 0x800 + s * 0x400 + shift * 0x20 + base);
}

proof fn lemma_nearest<A>(f: spec_fn(int) -> Option<A>, limit: int, at: int, a: A)
    requires
        1 <= at <= limit,
        forall|b: int| 1 <= b < at ==> (#[trigger] f(b)) is None,
        f(at) == Some(a),
    ensures
        nearest(f, limit) == Some(a),
    decreases limit,
{
    if limit > at {
        lemma_nearest(f, limit - 1, at, a);
    } else {
        lemma_nearest_none(f, at - 1);
    }
}

proof fn lemma_nearest_none<A>(f: spec_fn(int) -> Option<A>, limit: int)
    requires
        forall|b: int| 1 <= b <= limit ==> (#[trigger] f(b)) is None,
    ensures
        nearest(f, limit) is None,
    decreases limit,
{
    if limit >= 1 {
        lemma_nearest_none(f, limit - 1);
        assert(f(limit) is None);
    }
}

/// The top bytes of the words of a switch.
spec fn top_of(s: Switch, back: int, top: int) -> bool {
    if back == 1 {
        top == 0x8B
    } else if back == 2 {
        top == 0x38 || top == 0x78
    } else if back == 3 {
        top < 0x80 && top % 0x20 == 0x10
    } else if back == 4 {
        top == 0x91
    } else if back == 5 {
        top >= 0x80 && top % 0x20 == 0x10
    } else {
        top == 0x71
    }
}

proof fn lemma_adr_top(w: u32, pages: bool, distance: int, rd: int)
    requires
        -0x10_0000 <= distance < 0x10_0000,
        0 <= rd < 31,
        w == encoded_adr(pages, distance, rd),
    ensures
        (w as int / 0x100_0000) % 0x20 == 0x10,
        (w as int / 0x100_0000 >= 0x80) == pages,
{
    let hi = (distance % 0x20_0000) / 4;
    assert(0 <= hi * 0x20 + rd < 0x100_0000);
}

proof fn lemma_tops(m: ScanModel, br: int, s: Switch, back: int)
    requires
        s.valid(),
        s.ends_at(m, br),
        1 <= back <= 6,
    ensures
        m.word(br - back) == s.word(back),
        top_of(s, back, m.word(br - back) as int / 0x100_0000),
{
    assert(le32(m.data, 4 * (br - back)) == s.word(back));
    let w = m.word(br - back);
    if back == 1 {
        lemma_combine_word(w, s.signed, s.shift, s.base, s.entry);
    } else if back == 2 {
        lemma_load_word(w, s.halves, s.index, s.table, s.entry);
    } else if back == 3 {
        lemma_adr_top(w, false, s.distance, s.base);
    } else if back == 4 {
        assert(w as int / 0x100_0000 == 0x91);
    } else if back == 5 {
        lemma_adr_top(w, true, s.page, s.table);
    } else {
        lemma_compare_word(w, s.last, s.index);
    }
}

/// Each part of a switch is found where it stands.
proof fn lemma_parts_found(m: ScanModel, br: int, s: Switch, limit: int)
    requires
        s.valid(),
        s.ends_at(m, br),
        6 <= limit,
    ensures
        nearest_add(m, br, limit) == Some(
            JumpTableAddInfo {
                shift: s.shift as u32,
                sign_extend: s.signed,
                base_reg: Reg(s.base as u8),
            },
        ),
        nearest_base(m, br, limit) == Some(Va(s.base_at(m, br))),
        nearest_load(m, br, limit) == Some(
            TableLoad {
                table: Reg(s.table as u8),
                index: Reg(s.index as u8),
                size: if s.halves {
                    JumpTableEntrySize::Halfword
                } else {
                    JumpTableEntrySize::Byte
                },
            },
        ),
        nearest_page(m, br, limit) == Some(
            (Reg(s.table as u8), computed_adr(true, s.page, pc_of(m, br - 5))),
        ),
        nearest_offset(m, br, limit) == Some((Reg(s.table as u8), s.offset as u64)),
        nearest_compared(m, br, limit) == Some(
            (Reg(s.index as u8), CmpBound((s.last + 1) as u32)),
        ),
{
    assert forall|back: int| 1 <= back <= 6 implies m.word(br - back) == #[trigger] s.word(back)
        && top_of(s, back, m.word(br - back) as int / 0x100_0000) by {
        lemma_tops(m, br, s, back);
    }
    let add = JumpTableAddInfo {
        shift: s.shift as u32,
        sign_extend: s.signed,
        base_reg: Reg(s.base as u8),
    };
    assert(m.word(br - 1) == s.word(1));
    lemma_combine_word(m.word(br - 1), s.signed, s.shift, s.base, s.entry);
    let f = |back: int| combining_add(m.word(br - back));
    lemma_nearest(f, limit, 1, add);
    assert forall|back: int| 1 <= back <= 6 implies #[trigger] nearest_add(m, br, back) == Some(
        add,
    ) by {
        lemma_nearest(f, back, 1, add);
    }
    assert forall|back: int| 1 <= back <= 5 implies compared(#[trigger] m.word(br - back)) is None
        && (back < 5 ==> forall|va: Va| #[trigger] page_set(m.word(br - back), va) is None) && (back
        < 4 ==> offset_added(m.word(br - back)) is None) && (back < 2 ==> table_load(
        m.word(br - back),
    ) is None) && (back < 3 ==> forall|va: Va, a: Option<JumpTableAddInfo>|
        #[trigger] adr_into(m.word(br - back), va, a) is None) by {
        lemma_tops(m, br, s, back);
        lemma_top_excludes(m.word(br - back), m.word(br - back) as int / 0x100_0000);
    }
    assert(m.word(br - 2) == s.word(2));
    lemma_load_word(m.word(br - 2), s.halves, s.index, s.table, s.entry);
    let load = table_load(m.word(br - 2)).unwrap();
    lemma_nearest(|back: int| table_load(m.word(br - back)), limit, 2, load);
    assert(m.word(br - 6) == s.word(6));
    lemma_compare_word(m.word(br - 6), s.last, s.index);
    lemma_nearest(
        |back: int| compared(m.word(br - back)),
        limit,
        6,
        (Reg(s.index as u8), CmpBound((s.last + 1) as u32)),
    );
    assert(m.word(br - 5) == s.word(5));
    lemma_page_word(m.word(br - 5), m.va(br - 5), s.page, s.table);
    assert(m.va(br - 5) == Va(pc_of(m, br - 5)));
    lemma_nearest(
        |back: int| page_set(m.word(br - back), m.va(br - back)),
        limit,
        5,
        (Reg(s.table as u8), computed_adr(true, s.page, pc_of(m, br - 5))),
    );
    assert(m.word(br - 4) == s.word(4));
    lemma_offset_word(m.word(br - 4), s.offset, s.table);
    lemma_nearest(
        |back: int| offset_added(m.word(br - back)),
        limit,
        4,
        (Reg(s.table as u8), s.offset as u64),
    );
    assert(m.word(br - 3) == s.word(3));
    lemma_base_word(m.word(br - 3), m.va(br - 3), s.distance, s.base, add);
    assert(m.va(br - 3) == Va(pc_of(m, br - 3)));
    lemma_nearest(
        |back: int| adr_into(m.word(br - back), m.va(br - back), nearest_add(m, br, back)),
        limit,
        3,
        Va(s.base_at(m, br)),
    );
}

proof fn lemma_page_word(w: u32, va: Va, page: int, table: int)
    requires
        -0x10_0000 <= page < 0x10_0000,
        0 <= table < 31,
        w == encoded_adr(true, page, table),
    ensures
        page_set(w, va) == Some((Reg(table as u8), computed_adr(true, page, va.0))),
{
    reveal(page_set);
    lemma_adr(w, true, page, table);
    law_families_exclusive(w);
    assert(va.0 - va.0 % 4096 + 4096 * page == 4096 * (va.0 as int / 4096 + page));
}

proof fn lemma_base_word(w: u32, va: Va, distance: int, base: int, add: JumpTableAddInfo)
    requires
        -0x10_0000 <= distance < 0x10_0000,
        0 <= base < 31,
        w == encoded_adr(false, distance, base),
        add.base_reg == Reg(base as u8),
    ensures
        adr_into(w, va, Some(add)) == Some(Va(computed_adr(false, distance, va.0))),
{
    reveal(adr_into);
    lemma_adr(w, false, distance, base);
    law_families_exclusive(w);
}

proof fn lemma_offset_word(w: u32, offset: int, table: int)
    requires
        0 <= offset < 0x1000,
        0 <= table < 31,
        w == (AddressUse::Add { wide: 1, pages: false, imm: offset, rd: table }).encoded(table),
    ensures
        offset_added(w) == Some((Reg(table as u8), offset as u64)),
{
    reveal(offset_added);
    lemma_switch_masks(w);
    lemma_fields(w, 0x244, offset, table, table);
    assert(w as int / 0x100_0000 == 0x91);
    assert(w as int % 0x20 == table);
}

proof fn lemma_case_found(
    m: ScanModel,
    image: Seq<DataSpanView>,
    p: JumpTablePattern,
    from: Va,
    i: int,
    k: int,
    limit: int,
    to: u64,
)
    requires
        0 <= i <= k < limit,
        case_target(m, image, p, k) == Some(Va(to)),
        forall|j: int| i <= j < k ==> (#[trigger] case_target(m, image, p, j)) is Some,
    ensures
        case_refs(m, image, p, from, i, limit).contains(
            Xref { from, to: Va(to), kind: XrefKind::Jump, confidence: Confidence::LocalProp },
        ),
    decreases k - i,
{
    let all = case_refs(m, image, p, from, i, limit);
    let x = Xref { from, to: Va(to), kind: XrefKind::Jump, confidence: Confidence::LocalProp };
    if i < k {
        assert(case_target(m, image, p, i) is Some);
        lemma_case_found(m, image, p, from, i + 1, k, limit, to);
        let rest = case_refs(m, image, p, from, i + 1, limit);
        let j = choose|j: int| 0 <= j < rest.len() && rest[j] == x;
        assert(all[j + 1] == x);
    } else {
        assert(all[0] == x);
    }
}

proof fn lemma_case_target(
    m: ScanModel,
    image: Seq<DataSpanView>,
    s: Switch,
    br: int,
    p: JumpTablePattern,
    k: int,
    to: u64,
)
    requires
        s.valid(),
        p.target_base == Va(s.base_at(m, br)),
        p.table_base == Va(s.table_at(m, br)),
        p.entry_size == if s.halves {
            JumpTableEntrySize::Halfword
        } else {
            JumpTableEntrySize::Byte
        },
        p.add_info.shift == s.shift,
        p.add_info.sign_extend == s.signed,
        s.leads(m, image, br, k, to),
    ensures
        case_target(m, image, p, k) == Some(Va(to)),
{
    lemma2_to64();
    if s.halves {
        assert(p.table_base.0 + k * p.entry_size.width() == s.table_at(m, br) + 2 * k);
    } else {
        assert(p.table_base.0 + k * p.entry_size.width() == s.table_at(m, br) + k);
    }
}

/// A switch jumps wherever an entry up to the greatest index leads, as long as every
/// entry before it leads to code too: to the base plus the entry, taken as signed or
/// not and times the power of two of its shift.
pub proof fn law_switch_cases(
    m: ScanModel,
    image: Seq<DataSpanView>,
    br: int,
    s: Switch,
    k: int,
    targets: Seq<u64>,
)
    requires
        s.valid(),
        s.ends_at(m, br),
        0 <= k <= s.last,
        targets.len() == k + 1,
        forall|j: int| 0 <= j <= k ==> s.leads(m, image, br, j, #[trigger] targets[j]),
    ensures
        paired_refs(m, image, br + 1).contains(
            Xref {
                from: Va(pc_of(m, br)),
                to: Va(targets[k]),
                kind: XrefKind::Jump,
                confidence: Confidence::LocalProp,
            },
        ),
{
    let st = state_before(m, image, br);
    let limit: int = if br < 12 {
        br
    } else {
        12
    };
    lemma_parts_found(m, br, s, limit);
    let p = table_pattern(m, st, br).unwrap();
    assert(table_pattern(m, st, br) is Some);
    assert forall|j: int| 0 <= j <= k implies (#[trigger] case_target(m, image, p, j)) == Some(
        Va(targets[j]),
    ) by {
        assert(s.leads(m, image, br, j, targets[j]));
        lemma_case_target(m, image, s, br, p, j, targets[j]);
    }
    let x = Xref {
        from: Va(pc_of(m, br)),
        to: Va(targets[k]),
        kind: XrefKind::Jump,
        confidence: Confidence::LocalProp,
    };
    assert(case_target(m, image, p, k) == Some(Va(targets[k])));
    lemma_case_found(m, image, p, m.va(br), 0, k, s.last + 1, targets[k]);
    let found = table_refs(m, image, st, br);
    assert(found.contains(x));
    assert(le32(m.data, 4 * (br - 0)) == s.word(0));
    let w = m.word(br);
    assert(w == 0xD61F_0000 + s.entry * 0x20);
    assert(w / 0x400 == 0x35_87C0);
    lemma_masks(w);
    law_families_exclusive(w);
    assert(decoded(w) is Br);
    let step = step_refs(m, image, st, br);
    let j = choose|j: int| 0 <= j < found.len() && found[j] == x;
    assert(step[step.len() - found.len() + j] == x);
    let before = paired_refs(m, image, br);
    assert(paired_refs(m, image, br + 1) == before + step);
    assert((before + step)[before.len() + (step.len() - found.len() + j)] == x);
}

} // verus!
