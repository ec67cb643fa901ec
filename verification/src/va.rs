//! Virtual addresses and the arithmetic on them.

use crate::text::{
    decimal, hex, hex_char, hex_padded, prefixed_hex, push_hex_padded, upper_hex, upper_hex_char,
};
use vstd::prelude::*;
use vstd::string::StrSliceExecFns;
use vstd::string::StringExecFns;

verus! {

/// A number reduced to the 64-bit address space.
pub open spec fn wrap64(x: int) -> u64 {
    (x % 0x1_0000_0000_0000_0000) as u64
}

/// Reducing on the way changes nothing in a sum.
pub proof fn lemma_wrap64_sum(x: int, y: int)
    ensures
        wrap64(wrap64(x) + y) == wrap64(x + y),
{
    vstd::arithmetic::div_mod::lemma_add_mod_noop(x, y, 0x1_0000_0000_0000_0000);
    vstd::arithmetic::div_mod::lemma_add_mod_noop(
        wrap64(x) as int,
        y,
        0x1_0000_0000_0000_0000,
    );
}

/// A virtual address.
///
/// Sums and differences are taken modulo 2^64, as the processor takes them.
#[derive(Clone, Copy, Debug, PartialEq, Eq, Structural, PartialOrd, Ord, Hash)]
pub struct Va(pub u64);

/// The value of one digit in the given radix, or `None` for any other character.
pub open spec fn digit_value(c: char, radix: nat) -> Option<nat> {
    let v: int = if '0' <= c && c <= '9' {
        c as int - '0' as int
    } else if 'a' <= c && c <= 'f' {
        c as int - 'a' as int + 10
    } else if 'A' <= c && c <= 'F' {
        c as int - 'A' as int + 10
    } else {
        99
    };
    if v < radix {
        Some(v as nat)
    } else {
        None
    }
}

/// Whether every character is a digit of the radix.
pub open spec fn all_digits(s: Seq<char>, radix: nat) -> bool {
    forall|i: int| 0 <= i < s.len() ==> (#[trigger] digit_value(s[i], radix)) is Some
}

/// The number that a digit string denotes.
pub open spec fn digits_value(s: Seq<char>, radix: nat) -> nat
    decreases s.len(),
{
    if s.len() == 0 {
        0
    } else {
        digits_value(s.drop_last(), radix) * radix + digit_value(s.last(), radix).unwrap_or(0)
    }
}

/// Whether a text starts with a hexadecimal prefix.
pub open spec fn has_hex_prefix(s: Seq<char>) -> bool {
    s.len() >= 2 && s[0] == '0' && (s[1] == 'x' || s[1] == 'X')
}

/// The number that a digit string denotes, where it has a digit, nothing but
/// digits, and a value within 64 bits.
pub open spec fn parsed_digits(s: Seq<char>, radix: nat) -> Option<u64> {
    if s.len() > 0 && all_digits(s, radix) && digits_value(s, radix) <= u64::MAX {
        Some(digits_value(s, radix) as u64)
    } else {
        None
    }
}

/// The address that a text denotes: hexadecimal behind `0x` or `0X`, else decimal.
pub open spec fn parsed_address(s: Seq<char>) -> Option<u64> {
    if has_hex_prefix(s) {
        parsed_digits(s.subrange(2, s.len() as int), 16)
    } else {
        parsed_digits(s, 10)
    }
}

/// A longer digit string denotes no smaller number.
proof fn lemma_digits_value_grows(s: Seq<char>, k: int, radix: nat)
    requires
        0 <= k <= s.len(),
        radix >= 1,
    ensures
        digits_value(s.take(k), radix) <= digits_value(s, radix),
    decreases s.len() - k,
{
    if k == s.len() {
        assert(s.take(k) =~= s);
    } else {
        lemma_digits_value_grows(s.drop_last(), k, radix);
        assert(s.drop_last().take(k) =~= s.take(k));
        let a = digits_value(s.drop_last(), radix);
        assert(a <= a * radix) by (nonlinear_arith)
            requires
                radix >= 1,
        ;
    }
}

/// The value of one digit, as [`digit_value`] has it.
fn digit(c: char, radix: u64) -> (r: Option<u64>)
    requires
        radix <= 16,
    ensures
        r is Some <==> digit_value(c, radix as nat) is Some,
        r matches Some(v) ==> v == digit_value(c, radix as nat).unwrap_or(0) && v < radix,
{
    let v: u64 = if '0' <= c && c <= '9' {
        c as u64 - '0' as u64
    } else if 'a' <= c && c <= 'f' {
        c as u64 - 'a' as u64 + 10
    } else if 'A' <= c && c <= 'F' {
        c as u64 - 'A' as u64 + 10
    } else {
        99
    };
    if v < radix {
        Some(v)
    } else {
        None
    }
}

/// Reads the digits of `s` from position `from` on.
fn parse_digits(s: &str, from: usize, len: usize, radix: u64) -> (r: Option<u64>)
    requires
        from <= len == s@.len(),
        2 <= radix <= 16,
    ensures
        r == parsed_digits(s@.subrange(from as int, len as int), radix as nat),
{
    let ghost d = s@.subrange(from as int, len as int);
    let ghost rad = radix as nat;
    if from == len {
        return None;
    }
    let mut acc: u64 = 0;
    let mut i: usize = from;
    while i < len
        invariant
            from <= i <= len,
            from < len,
            len == s@.len(),
            2 <= radix <= 16,
            rad == radix as nat,
            d == s@.subrange(from as int, len as int),
            all_digits(d.take(i - from), rad),
            acc == digits_value(d.take(i - from), rad),
        decreases len - i,
    {
        let c = s.get_char(i);
        let ghost k = i - from;
        proof {
            assert(d[k] == c);
            assert(d.take(k + 1).drop_last() =~= d.take(k));
            assert(d.take(k + 1).last() == c);
            lemma_digits_value_grows(d, k + 1, rad);
        }
        match digit(c, radix) {
            None => {
                assert(!all_digits(d, rad)) by {
                    assert(digit_value(d[k], rad) is None);
                }
                return None;
            },
            Some(v) => {
                match acc.checked_mul(radix) {
                    None => {
                        return None;
                    },
                    Some(m) => {
                        match m.checked_add(v) {
                            None => {
                                return None;
                            },
                            Some(n) => {
                                assert(all_digits(d.take(k + 1), rad)) by {
                                    assert forall|j: int| 0 <= j < k + 1 implies (
                                    #[trigger] digit_value(d.take(k + 1)[j], rad)) is Some by {
                                        if j < k {
                                            assert(d.take(k)[j] == d.take(k + 1)[j]);
                                        }
                                    }
                                }
                                acc = n;
                            },
                        }
                    },
                }
            },
        }
        i = i + 1;
    }
    assert(d.take(len - from) =~= d);
    Some(acc)
}

impl Va {
    pub fn new(raw: u64) -> (r: Va)
        ensures
            r == Va(raw),
    {
        Va(raw)
    }

    pub fn raw(self) -> (r: u64)
        ensures
            r == self.0,
    {
        self.0
    }

    /// The address `delta` bytes further on, or back where `delta` is negative.
    pub fn offset(self, delta: i64) -> (r: Va)
        ensures
            r == Va(wrap64(self.0 + delta)),
    {
        Va(self.0.wrapping_add_signed(delta))
    }

    /// The address as sixteen hexadecimal digits behind `0x`.
    pub open spec fn padded(self) -> Seq<char> {
        seq!['0', 'x'] + hex_padded(self.0 as nat, 16)
    }

    /// Appends the address as sixteen hexadecimal digits behind `0x`.
    pub fn push_padded(self, out: &mut String)
        ensures
            final(out)@ == old(out)@ + self.padded(),
    {
        proof {
            reveal_strlit("0x");
        }
        out.append("0x");
        push_hex_padded(out, self.0, 16);
        assert(out@ =~= old(out)@ + self.padded());
    }

    /// Parses `0x`-prefixed hexadecimal or plain decimal.
    pub fn parse(s: &str) -> (r: Result<Va, String>)
        ensures
            match parsed_address(s@) {
                Some(n) => r == Ok::<Va, String>(Va(n)),
                None => r matches Err(e) && e@ == "invalid address: "@ + s@,
            },
    {
        let len: usize = s.unicode_len();
        let hex = len >= 2 && s.get_char(0) == '0' && (s.get_char(1) == 'x' || s.get_char(1)
            == 'X');
        proof {
            assert(s@.subrange(0, s@.len() as int) =~= s@);
        }
        let n: Option<u64> = if hex {
            parse_digits(s, 2, len, 16)
        } else {
            parse_digits(s, 0, len, 10)
        };
        match n {
            Some(v) => Ok(Va(v)),
            None => Err(String::from_str("invalid address: ").concat(s)),
        }
    }
}

impl core::ops::Add<u64> for Va {
    type Output = Va;

    fn add(self, rhs: u64) -> (r: Va) {
        Va(self.0.wrapping_add(rhs))
    }
}

impl vstd::std_specs::ops::AddSpecImpl<u64> for Va {
    open spec fn obeys_add_spec() -> bool {
        true
    }

    open spec fn add_req(self, rhs: u64) -> bool {
        true
    }

    open spec fn add_spec(self, rhs: u64) -> Va {
        Va(wrap64(self.0 + rhs))
    }
}

impl core::ops::Sub<Va> for Va {
    type Output = u64;

    fn sub(self, rhs: Va) -> (r: u64) {
        self.0.wrapping_sub(rhs.0)
    }
}

impl vstd::std_specs::ops::SubSpecImpl<Va> for Va {
    open spec fn obeys_sub_spec() -> bool {
        true
    }

    open spec fn sub_req(self, rhs: Va) -> bool {
        true
    }

    open spec fn sub_spec(self, rhs: Va) -> u64 {
        wrap64(self.0 - rhs.0)
    }
}

proof fn lemma_hex_digit(d: int)
    requires
        0 <= d < 16,
    ensures
        digit_value(hex_char(d), 16) == Some(d as nat),
{
}

proof fn lemma_digits_push(s: Seq<char>, c: char, radix: nat)
    requires
        all_digits(s, radix),
        digit_value(c, radix) is Some,
    ensures
        all_digits(s.push(c), radix),
        digits_value(s.push(c), radix) == digits_value(s, radix) * radix + digit_value(
            c,
            radix,
        ).unwrap_or(0),
{
    let t = s.push(c);
    assert(t.drop_last() =~= s);
    assert forall|i: int| 0 <= i < t.len() implies (#[trigger] digit_value(t[i], radix)) is Some by {
        if i < s.len() {
            assert(t[i] == s[i]);
        }
    }
}

proof fn lemma_hex_value(n: nat)
    ensures
        hex(n).len() > 0,
        all_digits(hex(n), 16),
        digits_value(hex(n), 16) == n,
    decreases n,
{
    if n < 16 {
        lemma_hex_digit(n as int);
        let e = Seq::<char>::empty();
        lemma_digits_push(e, hex_char(n as int), 16);
        assert(hex(n) =~= e.push(hex_char(n as int)));
    } else {
        lemma_hex_value(n / 16);
        lemma_hex_digit((n % 16) as int);
        lemma_digits_push(hex(n / 16), hex_char((n % 16) as int), 16);
    }
}

proof fn lemma_padded_value(n: nat, width: nat)
    requires
        n < vstd::arithmetic::power::pow(16, width),
    ensures
        hex_padded(n, width).len() == width,
        all_digits(hex_padded(n, width), 16),
        digits_value(hex_padded(n, width), 16) == n,
    decreases width,
{
    reveal(vstd::arithmetic::power::pow);
    if width > 0 {
        assert(n / 16 < vstd::arithmetic::power::pow(16, (width - 1) as nat));
        lemma_padded_value(n / 16, (width - 1) as nat);
        lemma_hex_digit((n % 16) as int);
        lemma_digits_push(hex_padded(n / 16, (width - 1) as nat), hex_char((n % 16) as int), 16);
    }
}

proof fn lemma_decimal_value(n: nat)
    ensures
        decimal(n).len() > 0,
        all_digits(decimal(n), 10),
        digits_value(decimal(n), 10) == n,
    decreases n,
{
    if n < 10 {
        let e = Seq::<char>::empty();
        lemma_digits_push(e, hex_char(n as int), 10);
        assert(decimal(n) =~= e.push(hex_char(n as int)));
    } else {
        lemma_decimal_value(n / 10);
        lemma_digits_push(decimal(n / 10), hex_char((n % 10) as int), 10);
    }
}

proof fn lemma_upper_hex_value(n: nat)
    ensures
        upper_hex(n).len() > 0,
        all_digits(upper_hex(n), 16),
        digits_value(upper_hex(n), 16) == n,
    decreases n,
{
    if n < 16 {
        let e = Seq::<char>::empty();
        lemma_digits_push(e, upper_hex_char(n as int), 16);
        assert(upper_hex(n) =~= e.push(upper_hex_char(n as int)));
    } else {
        lemma_upper_hex_value(n / 16);
        lemma_digits_push(upper_hex(n / 16), upper_hex_char((n % 16) as int), 16);
    }
}

/// An address printed in hexadecimal parses back to itself: in lower case behind
/// `0x`, with leading zeros or without, and in upper case behind `0X`. So does one
/// printed in decimal.
pub proof fn law_printed_address_parses(n: u64)
    ensures
        parsed_address(prefixed_hex(n as nat)) == Some(n),
        parsed_address(Va(n).padded()) == Some(n),
        parsed_address(seq!['0', 'X'] + upper_hex(n as nat)) == Some(n),
        parsed_address(decimal(n as nat)) == Some(n),
{
    let plain = prefixed_hex(n as nat);
    lemma_hex_value(n as nat);
    assert(plain.subrange(2, plain.len() as int) =~= hex(n as nat));
    let padded = Va(n).padded();
    assert(vstd::arithmetic::power::pow(16, 16) == 0x1_0000_0000_0000_0000) by {
        reveal_with_fuel(vstd::arithmetic::power::pow, 5);
        assert(vstd::arithmetic::power::pow(16, 4) == 0x1_0000);
        vstd::arithmetic::power::lemma_pow_adds(16, 4, 4);
        assert(vstd::arithmetic::power::pow(16, 8) == 0x1_0000_0000);
        vstd::arithmetic::power::lemma_pow_adds(16, 8, 8);
    }
    lemma_padded_value(n as nat, 16);
    assert(padded.subrange(2, padded.len() as int) =~= hex_padded(n as nat, 16));
    let upper = seq!['0', 'X'] + upper_hex(n as nat);
    lemma_upper_hex_value(n as nat);
    assert(upper.subrange(2, upper.len() as int) =~= upper_hex(n as nat));
    let plain_decimal = decimal(n as nat);
    lemma_decimal_value(n as nat);
    if plain_decimal.len() > 1 {
        assert(digit_value(plain_decimal[1], 10) is Some);
    }
}

} // verus!
