//! Classification of AArch64 instruction words.
//!
//! A word falls into one of the encoding families that matter for
//! cross-references, or into none of them. Fields are read from the word on demand.
//!
//! | Mnemonic         | Mask      | Match     |
//! |------------------|-----------|-----------|
//! | BLR              | FFFF_FC1F | D63F_0000 |
//! | BR               | FFFF_FC1F | D61F_0000 |
//! | ADRP             | 9F00_0000 | 9000_0000 |
//! | ADR              | 9F00_0000 | 1000_0000 |
//! | BL               | FC00_0000 | 9400_0000 |
//! | B                | FC00_0000 | 1400_0000 |
//! | B.cond, BC.cond  | FF00_0000 | 5400_0000 |
//! | CBZ              | 7F00_0000 | 3400_0000 |
//! | CBNZ             | 7F00_0000 | 3500_0000 |
//! | TBZ              | 7F00_0000 | 3600_0000 |
//! | TBNZ             | 7F00_0000 | 3700_0000 |
//! | ADD (immediate)  | 7F80_0000 | 1100_0000 |
//! | LDR (unsigned)   | 3FC0_0000 | 3940_0000 |
//! | STR (unsigned)   | 3FC0_0000 | 3900_0000 |
//! | LDR (literal)    | 3F00_0000 | 1800_0000 |

use crate::va::wrap64;
use vstd::prelude::*;

verus! {

/// An instruction word with its encoding family.
#[derive(Clone, Copy, Debug, PartialEq, Eq, Structural)]
pub enum Arm64Insn {
    /// BL: direct call.
    Bl(u32),
    /// B: unconditional jump.
    B(u32),
    /// B.cond: conditional jump on any condition code.
    BCond(u32),
    /// CBZ: jump where a register is zero.
    Cbz(u32),
    /// CBNZ: jump where a register is not zero.
    Cbnz(u32),
    /// TBZ: jump where a bit is clear.
    Tbz(u32),
    /// TBNZ: jump where a bit is set.
    Tbnz(u32),
    /// ADRP: page address relative to the program counter.
    Adrp(u32),
    /// ADR: address relative to the program counter.
    Adr(u32),
    /// ADD (immediate), 32-bit or 64-bit.
    AddImm(u32),
    /// LDR with an unsigned offset, of any access size.
    Ldr(u32),
    /// STR with an unsigned offset, of any access size.
    Str(u32),
    /// LDR (literal), relative to the program counter.
    LdrLiteral(u32),
    /// BLR: call through a register.
    Blr(u32),
    /// BR: jump through a register.
    Br(u32),
    /// Anything else; bits 4 to 0 still name a destination register.
    Other(u32),
}

/// The family of an instruction word.
pub open spec fn decoded(word: u32) -> Arm64Insn {
    if word & 0xFFFF_FC1F == 0xD63F_0000 {
        Arm64Insn::Blr(word)
    } else if word & 0xFFFF_FC1F == 0xD61F_0000 {
        Arm64Insn::Br(word)
    } else if word & 0x9F00_0000 == 0x9000_0000 {
        Arm64Insn::Adrp(word)
    } else if word & 0x9F00_0000 == 0x1000_0000 {
        Arm64Insn::Adr(word)
    } else if word & 0xFC00_0000 == 0x9400_0000 {
        Arm64Insn::Bl(word)
    } else if word & 0xFC00_0000 == 0x1400_0000 {
        Arm64Insn::B(word)
    } else if word & 0xFF00_0000 == 0x5400_0000 {
        Arm64Insn::BCond(word)
    } else if word & 0x7F00_0000 == 0x3400_0000 {
        Arm64Insn::Cbz(word)
    } else if word & 0x7F00_0000 == 0x3500_0000 {
        Arm64Insn::Cbnz(word)
    } else if word & 0x7F00_0000 == 0x3600_0000 {
        Arm64Insn::Tbz(word)
    } else if word & 0x7F00_0000 == 0x3700_0000 {
        Arm64Insn::Tbnz(word)
    } else if word & 0x7F80_0000 == 0x1100_0000 {
        Arm64Insn::AddImm(word)
    } else if word & 0x3FC0_0000 == 0x3940_0000 {
        Arm64Insn::Ldr(word)
    } else if word & 0x3FC0_0000 == 0x3900_0000 {
        Arm64Insn::Str(word)
    } else if word & 0x3F00_0000 == 0x1800_0000 {
        Arm64Insn::LdrLiteral(word)
    } else {
        Arm64Insn::Other(word)
    }
}

/// The number in the `width` bits of `word` from bit `low` on, given as their
/// powers of two.
pub open spec fn bit_field(word: u32, low: nat, width: nat) -> int {
    (word as int / low as int) % (width as int)
}

/// A field of values below `range` read as two's complement.
pub open spec fn signed_field(v: int, range: int) -> int {
    if v >= range / 2 {
        v - range
    } else {
        v
    }
}

/// Bits 4 to 0 of a word.
pub open spec fn field_rd(word: u32) -> u8 {
    bit_field(word, 1, 0x20) as u8
}

/// Bits 9 to 5 of a word.
pub open spec fn field_rn(word: u32) -> u8 {
    bit_field(word, 0x20, 0x20) as u8
}

/// Bits 21 to 10 of a word.
pub open spec fn field_imm12(word: u32) -> int {
    bit_field(word, 0x400, 0x1000)
}

/// Signed word offset in bits 25 to 0.
pub open spec fn field_imm26(word: u32) -> int {
    signed_field(bit_field(word, 1, 0x400_0000), 0x400_0000)
}

/// Signed word offset in bits 23 to 5.
pub open spec fn field_imm19(word: u32) -> int {
    signed_field(bit_field(word, 0x20, 0x8_0000), 0x8_0000)
}

/// Signed word offset in bits 18 to 5.
pub open spec fn field_imm14(word: u32) -> int {
    signed_field(bit_field(word, 0x20, 0x4000), 0x4000)
}

/// Signed offset of ADR and ADRP: bits 23 to 5 above bits 30 and 29.
pub open spec fn field_imm21(word: u32) -> int {
    signed_field(
        bit_field(word, 0x20, 0x8_0000) * 4 + bit_field(word, 0x2000_0000, 4),
        0x20_0000,
    )
}

/// Bytes moved by a load or store of the given size field.
pub open spec fn access_bytes(size: int) -> int {
    if size == 0 {
        1
    } else if size == 1 {
        2
    } else if size == 2 {
        4
    } else {
        8
    }
}

/// A field of values below `range`, read as two's complement.
fn sign_extend(v: u32, range: u32) -> (r: i64)
    requires
        v < range,
        range % 2 == 0,
    ensures
        r == signed_field(v as int, range as int),
{
    if v >= range / 2 {
        v as i64 - range as i64
    } else {
        v as i64
    }
}

/// Offset of ADR and ADRP.
fn imm21(word: u32) -> (r: i64)
    ensures
        r == field_imm21(word),
        -0x10_0000 <= r < 0x10_0000,
{
    let immlo: u32 = (word / 0x2000_0000) % 4;
    let immhi: u32 = (word / 0x20) % 0x8_0000;
    sign_extend(immhi * 4 + immlo, 0x20_0000)
}

impl Arm64Insn {
    /// The instruction word.
    pub open spec fn bits(self) -> u32 {
        match self {
            Arm64Insn::Bl(w) => w,
            Arm64Insn::B(w) => w,
            Arm64Insn::BCond(w) => w,
            Arm64Insn::Cbz(w) => w,
            Arm64Insn::Cbnz(w) => w,
            Arm64Insn::Tbz(w) => w,
            Arm64Insn::Tbnz(w) => w,
            Arm64Insn::Adrp(w) => w,
            Arm64Insn::Adr(w) => w,
            Arm64Insn::AddImm(w) => w,
            Arm64Insn::Ldr(w) => w,
            Arm64Insn::Str(w) => w,
            Arm64Insn::LdrLiteral(w) => w,
            Arm64Insn::Blr(w) => w,
            Arm64Insn::Br(w) => w,
            Arm64Insn::Other(w) => w,
        }
    }

    /// Whether a word belongs to any family: `false` exactly where
    /// [`Arm64Insn::decode`] gives `Other`.
    ///
    /// Cheaper than decoding, with the most common families first.
    #[inline]
    pub fn is_tracked(word: u32) -> (r: bool)
        ensures
            r == !(decoded(word) is Other),
    {
        let top6: u32 = word & 0xFC00_0000;
        if top6 == 0x9400_0000 || top6 == 0x1400_0000 {
            return true;
        }
        let adr_bits: u32 = word & 0x9F00_0000;
        if adr_bits == 0x9000_0000 || adr_bits == 0x1000_0000 {
            return true;
        }
        if word & 0xFF00_0000 == 0x5400_0000 {
            return true;
        }
        let test_bits: u32 = word & 0x7F00_0000;
        if test_bits == 0x3400_0000 || test_bits == 0x3500_0000 || test_bits == 0x3600_0000
            || test_bits == 0x3700_0000 {
            return true;
        }
        let register_bits: u32 = word & 0xFFFF_FC1F;
        if register_bits == 0xD63F_0000 || register_bits == 0xD61F_0000 {
            return true;
        }
        if word & 0x7F80_0000 == 0x1100_0000 {
            return true;
        }
        let access_bits: u32 = word & 0x3FC0_0000;
        if access_bits == 0x3940_0000 || access_bits == 0x3900_0000 {
            return true;
        }
        word & 0x3F00_0000 == 0x1800_0000
    }

    /// Classifies a word. Every word has a class; one that belongs to no family
    /// becomes `Other`.
    #[inline]
    pub fn decode(word: u32) -> (r: Arm64Insn)
        ensures
            r == decoded(word),
    {
        if word & 0xFFFF_FC1F == 0xD63F_0000 {
            return Arm64Insn::Blr(word);
        }
        if word & 0xFFFF_FC1F == 0xD61F_0000 {
            return Arm64Insn::Br(word);
        }
        let adr_bits: u32 = word & 0x9F00_0000;
        if adr_bits == 0x9000_0000 {
            return Arm64Insn::Adrp(word);
        }
        if adr_bits == 0x1000_0000 {
            return Arm64Insn::Adr(word);
        }
        let top6: u32 = word & 0xFC00_0000;
        if top6 == 0x9400_0000 {
            return Arm64Insn::Bl(word);
        }
        if top6 == 0x1400_0000 {
            return Arm64Insn::B(word);
        }
        // Bit 4 tells BC.cond from B.cond; both are conditional branches.
        if word & 0xFF00_0000 == 0x5400_0000 {
            return Arm64Insn::BCond(word);
        }
        let test_bits: u32 = word & 0x7F00_0000;
        if test_bits == 0x3400_0000 {
            return Arm64Insn::Cbz(word);
        }
        if test_bits == 0x3500_0000 {
            return Arm64Insn::Cbnz(word);
        }
        if test_bits == 0x3600_0000 {
            return Arm64Insn::Tbz(word);
        }
        if test_bits == 0x3700_0000 {
            return Arm64Insn::Tbnz(word);
        }
        // Bit 30 is set in SUB, bit 29 in ADDS, and bit 23 in no valid shift.
        if word & 0x7F80_0000 == 0x1100_0000 {
            return Arm64Insn::AddImm(word);
        }
        // Bit 26 is set in the vector forms.
        let access_bits: u32 = word & 0x3FC0_0000;
        if access_bits == 0x3940_0000 {
            return Arm64Insn::Ldr(word);
        }
        if access_bits == 0x3900_0000 {
            return Arm64Insn::Str(word);
        }
        if word & 0x3F00_0000 == 0x1800_0000 {
            return Arm64Insn::LdrLiteral(word);
        }
        Arm64Insn::Other(word)
    }

    /// Destination register, in bits 4 to 0; 31 stands for SP or ZR.
    #[inline]
    pub fn rd(&self) -> (r: u8)
        ensures
            r == field_rd(self.bits()),
            r < 32,
    {
        (self.word() % 0x20) as u8
    }

    /// Base or source register, in bits 9 to 5.
    #[inline]
    pub fn rn(&self) -> (r: u8)
        ensures
            r == field_rn(self.bits()),
            r < 32,
    {
        ((self.word() / 0x20) % 0x20) as u8
    }

    /// Target of BL and B.
    #[inline]
    pub fn imm26_target(&self, pc: u64) -> (r: u64)
        ensures
            r == wrap64(pc + 4 * field_imm26(self.bits())),
    {
        let words: i64 = sign_extend(self.word() % 0x400_0000, 0x400_0000);
        pc.wrapping_add_signed(words * 4)
    }

    /// Target of B.cond.
    #[inline]
    pub fn imm19_target(&self, pc: u64) -> (r: u64)
        ensures
            r == wrap64(pc + 4 * field_imm19(self.bits())),
    {
        let words: i64 = sign_extend((self.word() / 0x20) % 0x8_0000, 0x8_0000);
        pc.wrapping_add_signed(words * 4)
    }

    /// Target of CBZ and CBNZ, in the same field as that of B.cond.
    #[inline]
    pub fn cbz_target(&self, pc: u64) -> (r: u64)
        ensures
            r == wrap64(pc + 4 * field_imm19(self.bits())),
    {
        self.imm19_target(pc)
    }

    /// Target of TBZ and TBNZ.
    #[inline]
    pub fn imm14_target(&self, pc: u64) -> (r: u64)
        ensures
            r == wrap64(pc + 4 * field_imm14(self.bits())),
    {
        let words: i64 = sign_extend((self.word() / 0x20) % 0x4000, 0x4000);
        pc.wrapping_add_signed(words * 4)
    }

    /// Page that ADRP computes: so many pages of 4096 bytes from the one that
    /// holds the program counter.
    #[inline]
    pub fn adrp_page(&self, pc: u64) -> (r: u64)
        ensures
            r == wrap64(pc - pc % 4096 + 4096 * field_imm21(self.bits())),
    {
        let page: u64 = pc - pc % 4096;
        page.wrapping_add_signed(imm21(self.word()) * 4096)
    }

    /// Address that ADR computes.
    #[inline]
    pub fn adr_target(&self, pc: u64) -> (r: u64)
        ensures
            r == wrap64(pc + field_imm21(self.bits())),
    {
        pc.wrapping_add_signed(imm21(self.word()))
    }

    /// Immediate of ADD: bits 21 to 10, times 4096 where the shift field (bits 23
    /// and 22) is 1.
    #[inline]
    pub fn add_imm(&self) -> (r: u64)
        ensures
            r == if bit_field(self.bits(), 0x40_0000, 4) == 1 {
                field_imm12(self.bits()) * 4096
            } else {
                field_imm12(self.bits())
            },
    {
        let word: u32 = self.word();
        let imm12: u64 = ((word / 0x400) % 0x1000) as u64;
        if (word / 0x40_0000) % 4 == 1 {
            imm12 * 4096
        } else {
            imm12
        }
    }

    /// Access size of LDR and STR, in bits 31 and 30: 0 for a byte, 1 for two
    /// bytes, 2 for four, 3 for eight.
    #[inline]
    pub fn ldr_str_size(&self) -> (r: u8)
        ensures
            r == bit_field(self.bits(), 0x4000_0000, 4),
            r < 4,
    {
        (self.word() / 0x4000_0000) as u8
    }

    /// Offset of LDR and STR in bytes: bits 21 to 10 times the access size.
    #[inline]
    pub fn ldr_str_offset(&self) -> (r: u64)
        ensures
            r == field_imm12(self.bits()) * access_bytes(
                bit_field(self.bits(), 0x4000_0000, 4),
            ),
    {
        let imm12: u64 = ((self.word() / 0x400) % 0x1000) as u64;
        let size: u8 = self.ldr_str_size();
        if size == 0 {
            imm12
        } else if size == 1 {
            imm12 * 2
        } else if size == 2 {
            imm12 * 4
        } else {
            imm12 * 8
        }
    }

    /// Address that LDR (literal) reads.
    #[inline]
    pub fn ldr_literal_target(&self, pc: u64) -> (r: u64)
        ensures
            r == wrap64(pc + 4 * field_imm19(self.bits())),
    {
        let words: i64 = sign_extend((self.word() / 0x20) % 0x8_0000, 0x8_0000);
        pc.wrapping_add_signed(words * 4)
    }

    #[inline]
    fn word(&self) -> (r: u32)
        ensures
            r == self.bits(),
    {
        match self {
            Arm64Insn::Bl(w)
            | Arm64Insn::B(w)
            | Arm64Insn::BCond(w)
            | Arm64Insn::Cbz(w)
            | Arm64Insn::Cbnz(w)
            | Arm64Insn::Tbz(w)
            | Arm64Insn::Tbnz(w)
            | Arm64Insn::Adrp(w)
            | Arm64Insn::Adr(w)
            | Arm64Insn::AddImm(w)
            | Arm64Insn::Ldr(w)
            | Arm64Insn::Str(w)
            | Arm64Insn::LdrLiteral(w)
            | Arm64Insn::Blr(w)
            | Arm64Insn::Br(w)
            | Arm64Insn::Other(w) => *w,
        }
    }
}

/// Classifying keeps the word: nothing of an instruction is lost.
pub proof fn law_decode_keeps_word(word: u32)
    ensures
        decoded(word).bits() == word,
{
}

/// The families exclude one another, so no word depends on the order in which
/// they are tried.
pub proof fn law_families_exclusive(word: u32)
    ensures
        decoded(word) is Adrp <==> word & 0x9F00_0000 == 0x9000_0000,
        decoded(word) is Adr <==> word & 0x9F00_0000 == 0x1000_0000,
        decoded(word) is Bl <==> word & 0xFC00_0000 == 0x9400_0000,
        decoded(word) is B <==> word & 0xFC00_0000 == 0x1400_0000,
        decoded(word) is BCond <==> word & 0xFF00_0000 == 0x5400_0000,
        decoded(word) is Cbz <==> word & 0x7F00_0000 == 0x3400_0000,
        decoded(word) is Cbnz <==> word & 0x7F00_0000 == 0x3500_0000,
        decoded(word) is Tbz <==> word & 0x7F00_0000 == 0x3600_0000,
        decoded(word) is Tbnz <==> word & 0x7F00_0000 == 0x3700_0000,
        decoded(word) is AddImm <==> word & 0x7F80_0000 == 0x1100_0000,
        decoded(word) is Ldr <==> word & 0x3FC0_0000 == 0x3940_0000,
        decoded(word) is Str <==> word & 0x3FC0_0000 == 0x3900_0000,
        decoded(word) is LdrLiteral <==> word & 0x3F00_0000 == 0x1800_0000,
{
    let blr = word & 0xFFFF_FC1F == 0xD63F_0000 || word & 0xFFFF_FC1F == 0xD61F_0000;
    let adr = word & 0x9F00_0000 == 0x9000_0000 || word & 0x9F00_0000 == 0x1000_0000;
    let imm26 = word & 0xFC00_0000 == 0x9400_0000 || word & 0xFC00_0000 == 0x1400_0000;
    let bcond = word & 0xFF00_0000 == 0x5400_0000;
    let test = word & 0x7F00_0000 == 0x3400_0000 || word & 0x7F00_0000 == 0x3500_0000 || word
        & 0x7F00_0000 == 0x3600_0000 || word & 0x7F00_0000 == 0x3700_0000;
    let imm12 = word & 0x7F80_0000 == 0x1100_0000;
    let access = word & 0x3FC0_0000 == 0x3940_0000 || word & 0x3FC0_0000 == 0x3900_0000;
    let literal = word & 0x3F00_0000 == 0x1800_0000;
    assert((blr ==> !adr && !imm26 && !bcond && !test && !imm12 && !access && !literal) && (adr
        ==> !imm26 && !bcond && !test && !imm12 && !access && !literal) && (imm26 ==> !bcond
        && !test && !imm12 && !access && !literal) && (bcond ==> !test && !imm12 && !access
        && !literal) && (test ==> !imm12 && !access && !literal) && (imm12 ==> !access && !literal)
        && (access ==> !literal)) by (bit_vector)
        requires
            blr == (word & 0xFFFF_FC1F == 0xD63F_0000 || word & 0xFFFF_FC1F == 0xD61F_0000),
            adr == (word & 0x9F00_0000 == 0x9000_0000 || word & 0x9F00_0000 == 0x1000_0000),
            imm26 == (word & 0xFC00_0000 == 0x9400_0000 || word & 0xFC00_0000 == 0x1400_0000),
            bcond == (word & 0xFF00_0000 == 0x5400_0000),
            test == (word & 0x7F00_0000 == 0x3400_0000 || word & 0x7F00_0000 == 0x3500_0000 || word
                & 0x7F00_0000 == 0x3600_0000 || word & 0x7F00_0000 == 0x3700_0000),
            imm12 == (word & 0x7F80_0000 == 0x1100_0000),
            access == (word & 0x3FC0_0000 == 0x3940_0000 || word & 0x3FC0_0000 == 0x3900_0000),
            literal == (word & 0x3F00_0000 == 0x1800_0000),
    ;
}

} // verus!
