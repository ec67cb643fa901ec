//! Division of address ranges among workers.

use vstd::arithmetic::power2::pow2;
use vstd::prelude::*;

verus! {

/// Upper half of the multiplicative hash of an address.
pub open spec fn address_hash(addr: u64) -> int {
    ((addr * 0x9e37_79b9_7f4a_7c15) % 0x1_0000_0000_0000_0000) / 0x1_0000_0000
}

/// The worker that owns an address.
///
/// A multiplicative hash spreads naturally aligned addresses, which `addr % n`
/// would cluster. The same address always has the same worker.
pub fn worker_for(addr: u64, n_workers: usize) -> (r: usize)
    requires
        n_workers > 0,
    ensures
        r == address_hash(addr) % (n_workers as int),
        r < n_workers,
{
    let h: u64 = addr.wrapping_mul(0x9e37_79b9_7f4a_7c15u64);
    let top: u64 = h >> 32u64;
    proof {
        vstd::bits::lemma_u64_shr_is_div(h, 32);
        vstd::arithmetic::power2::lemma2_to64();
    }
    (top % n_workers as u64) as usize
}

/// Bytes in each raw chunk when `total` bytes are divided into `n` chunks.
pub open spec fn chunk_size(total: int, n: int) -> int {
    (total + n - 1) / n
}

/// Start of the `i`-th raw chunk.
pub open spec fn chunk_start(start: u64, end: u64, n: usize, i: int) -> int {
    start + i * chunk_size(end - start, n as int)
}

/// An address rounded up under the alignment mask.
pub open spec fn round_up(raw: int, align: u64) -> u64 {
    if align <= 1 {
        raw as u64
    } else {
        ((raw + align - 1) as u64) & !((align - 1) as u64)
    }
}

/// Whether rounding the last chunk up stays inside 64 bits.
pub open spec fn split_fits(start: u64, end: u64, n: usize, align: u64) -> bool {
    n > 0 && start < end ==> chunk_start(start, end, n, n - 1) + (if align <= 1 {
        0
    } else {
        align as int
    }) <= u64::MAX
}

/// The `i`-th shard: from the aligned start of its chunk to `overlap` bytes past
/// the chunk, cut off at `end`. `None` where alignment pushes the start past `end`.
pub open spec fn shard_at(
    start: u64,
    end: u64,
    n: usize,
    overlap: u64,
    align: u64,
    i: int,
) -> Option<(u64, u64)> {
    let first = round_up(chunk_start(start, end, n, i), align);
    let past = chunk_start(start, end, n, i + 1) + overlap;
    if first >= end {
        None
    } else {
        Some((first, if past < end {
            past as u64
        } else {
            end
        }))
    }
}

/// The shards of the first `k` chunks, in order.
pub open spec fn shards_upto(
    start: u64,
    end: u64,
    n: usize,
    overlap: u64,
    align: u64,
    k: int,
) -> Seq<(u64, u64)>
    decreases k,
{
    if k <= 0 {
        Seq::empty()
    } else {
        let before = shards_upto(start, end, n, overlap, align, k - 1);
        match shard_at(start, end, n, overlap, align, k - 1) {
            Some(s) => before.push(s),
            None => before,
        }
    }
}

/// The shards of a range: none for an empty range or no workers.
pub open spec fn shards(start: u64, end: u64, n: usize, overlap: u64, align: u64) -> Seq<
    (u64, u64),
> {
    if n == 0 || start >= end {
        Seq::empty()
    } else {
        shards_upto(start, end, n, overlap, align, n as int)
    }
}

/// Splits an address range into up to `n` shards, given as start and exclusive end.
///
/// `boundary_align` is the alignment of the shard starts: the instruction
/// alignment for code, the pointer size for data. Each shard runs `overlap`
/// bytes into the next, so that an instruction pair across a boundary is seen
/// whole by one worker.
pub fn split_range(start: u64, end: u64, n: usize, overlap: u64, boundary_align: u64) -> (r: Vec<
    (u64, u64),
>)
    requires
        split_fits(start, end, n, boundary_align),
    ensures
        r@ == shards(start, end, n, overlap, boundary_align),
{
    let mut out: Vec<(u64, u64)> = Vec::new();
    if n == 0 || start >= end {
        return out;
    }
    let total: u64 = end - start;
    let n64: u64 = n as u64;
    proof {
        lemma_div_ceil(total as int, n as int);
        assert(total / n64 <= total) by (nonlinear_arith)
            requires
                n64 > 0,
        ;
        if n64 == 1 {
            assert(total % 1 == 0);
        } else {
            assert(total / n64 < total) by (nonlinear_arith)
                requires
                    n64 >= 2,
                    total > 0,
            ;
        }
    }
    let chunk: u64 = if total % n64 == 0 {
        total / n64
    } else {
        total / n64 + 1
    };
    let ghost c = chunk_size(total as int, n as int);
    let mut i: usize = 0;
    while i < n
        invariant
            i <= n,
            n > 0,
            start < end,
            chunk == c,
            c == chunk_size(end - start, n as int),
            split_fits(start, end, n, boundary_align),
            out@ == shards_upto(start, end, n, overlap, boundary_align, i as int),
        decreases n - i,
    {
        proof {
            assert(i * c <= (n - 1) * c) by (nonlinear_arith)
                requires
                    i <= n - 1,
                    c >= 0,
            ;
            assert((i + 1) * c == i * c + c) by (nonlinear_arith);
            assert(i * c >= 0) by (nonlinear_arith)
                requires
                    i >= 0,
                    c >= 0,
            ;
        }
        let raw_start: u64 = start + i as u64 * chunk;
        let shard_start: u64 = if boundary_align <= 1 {
            raw_start
        } else {
            (raw_start + boundary_align - 1) & !(boundary_align - 1)
        };
        if shard_start < end {
            let shard_end: u64 = match raw_start.checked_add(chunk) {
                Some(raw_end) => match raw_end.checked_add(overlap) {
                    Some(past) => if past < end {
                        past
                    } else {
                        end
                    },
                    None => end,
                },
                None => end,
            };
            out.push((shard_start, shard_end));
        }
        i = i + 1;
    }
    out
}

proof fn lemma_div_ceil(total: int, n: int)
    requires
        total > 0,
        n > 0,
    ensures
        chunk_size(total, n) == if total % n == 0 {
            total / n
        } else {
            total / n + 1
        },
        chunk_size(total, n) > 0,
        n * chunk_size(total, n) >= total,
{
    let q = total / n;
    let r = total % n;
    assert(total == n * q + r && 0 <= r < n) by (nonlinear_arith)
        requires
            q == total / n,
            r == total % n,
            n > 0,
    ;
    assert(q >= 0) by (nonlinear_arith)
        requires
            total > 0,
            n > 0,
            q == total / n,
    ;
    if r == 0 {
        assert(total + n - 1 == q * n + (n - 1)) by (nonlinear_arith)
            requires
                total == n * q,
        ;
        assert((total + n - 1) / n == q) by {
            vstd::arithmetic::div_mod::lemma_fundamental_div_mod_converse(
                total + n - 1,
                n,
                q,
                n - 1,
            );
        }
        assert(q > 0) by (nonlinear_arith)
            requires
                total == n * q,
                total > 0,
                q >= 0,
        ;
    } else {
        assert(n * (q + 1) == n * q + n && (q + 1) * n == n * q + n) by (nonlinear_arith);
        assert((total + n - 1) / n == q + 1) by {
            vstd::arithmetic::div_mod::lemma_fundamental_div_mod_converse(
                total + n - 1,
                n,
                q + 1,
                r - 1,
            );
        }
    }
}

/// Each shard comes from a chunk, and each chunk that has a shard gives it.
proof fn lemma_shards_members(start: u64, end: u64, n: usize, overlap: u64, align: u64, k: int)
    requires
        k >= 0,
    ensures
        forall|j: int|
            0 <= j < shards_upto(start, end, n, overlap, align, k).len() ==> exists|i: int|
                0 <= i < k && Some(
                    #[trigger] shards_upto(start, end, n, overlap, align, k)[j],
                ) == #[trigger] shard_at(start, end, n, overlap, align, i),
        forall|i: int|
            0 <= i < k && (#[trigger] shard_at(start, end, n, overlap, align, i)) is Some
                ==> shards_upto(start, end, n, overlap, align, k).contains(
                shard_at(start, end, n, overlap, align, i).unwrap(),
            ),
    decreases k,
{
    if k > 0 {
        lemma_shards_members(start, end, n, overlap, align, k - 1);
        let before = shards_upto(start, end, n, overlap, align, k - 1);
        let all = shards_upto(start, end, n, overlap, align, k);
        assert forall|j: int| 0 <= j < all.len() implies exists|i: int|
            0 <= i < k && Some(#[trigger] all[j]) == #[trigger] shard_at(
                start,
                end,
                n,
                overlap,
                align,
                i,
            ) by {
            if j < before.len() {
                assert(all[j] == before[j]);
                let i = choose|i: int|
                    0 <= i < k - 1 && Some(before[j]) == #[trigger] shard_at(
                        start,
                        end,
                        n,
                        overlap,
                        align,
                        i,
                    );
                assert(Some(all[j]) == shard_at(start, end, n, overlap, align, i));
            } else {
                assert(Some(all[j]) == shard_at(start, end, n, overlap, align, k - 1));
            }
        }
        assert forall|i: int|
            0 <= i < k && (#[trigger] shard_at(start, end, n, overlap, align, i))
                is Some implies all.contains(
            shard_at(start, end, n, overlap, align, i).unwrap(),
        ) by {
            let s = shard_at(start, end, n, overlap, align, i).unwrap();
            if i < k - 1 {
                let j = before.index_of(s);
                assert(before.contains(s));
                assert(all[j] == s);
            } else {
                assert(all[all.len() - 1] == s);
            }
        }
    }
}

/// Rounding under a mask moves an address up by less than the alignment.
proof fn lemma_round_up(raw: int, align: u64)
    requires
        0 <= raw,
        raw + (if align <= 1 {
            0
        } else {
            align as int
        }) <= u64::MAX,
    ensures
        raw <= round_up(raw, align),
        align <= 1 ==> round_up(raw, align) == raw,
        align > 1 ==> round_up(raw, align) <= raw + align - 1,
        align > 1 ==> round_up(raw, align) & ((align - 1) as u64) == 0,
{
    if align > 1 {
        let m = (align - 1) as u64;
        let x = (raw + align - 1) as u64;
        assert(x >= m ==> (x & !m) <= x && (x & !m) + m >= x && (x & !m) & m == 0)
            by (bit_vector);
    }
}

/// Rounding up gives a multiple of the alignment, the first from an address on.
proof fn lemma_round_up_multiple(raw: int, align_log2: nat, align: u64)
    requires
        align == pow2(align_log2),
        0 <= raw,
        raw + (if align <= 1 {
            0
        } else {
            align as int
        }) <= u64::MAX,
    ensures
        raw <= round_up(raw, align),
        round_up(raw, align) % align == 0,
        forall|a: u64| raw <= a && #[trigger] (a % align) == 0 ==> round_up(raw, align) <= a,
{
    vstd::arithmetic::power2::lemma_pow2_pos(align_log2);
    lemma_round_up(raw, align);
    let r = round_up(raw, align);
    if align > 1 {
        assert(align_log2 < 64) by {
            if align_log2 >= 64 {
                if align_log2 > 64 {
                    vstd::arithmetic::power2::lemma_pow2_strictly_increases(64, align_log2);
                }
                vstd::arithmetic::power2::lemma2_to64();
            }
        }
        vstd::bits::lemma_u64_low_bits_mask_is_mod(r, align_log2);
        assert(vstd::bits::low_bits_mask(align_log2) == align - 1);
    }
    assert forall|a: u64| raw <= a && #[trigger] (a % align) == 0 implies r <= a by {
        let (d, p, q) = (align as int, r as int / align as int, a as int / align as int);
        assert(r == d * p && a == d * q) by (nonlinear_arith)
            requires
                d > 0,
                p == r as int / d,
                q == a as int / d,
                r as int % d == 0,
                a as int % d == 0,
        ;
        assert(p <= q) by (nonlinear_arith)
            requires
                d > 0,
                d * p < d * q + d,
        ;
        assert(d * p <= d * q) by (nonlinear_arith)
            requires
                d > 0,
                p <= q,
        ;
    }
}

/// Where the raw chunks lie, in order and up to the end of the range.
proof fn lemma_chunks(start: u64, end: u64, n: usize, i: int)
    requires
        n > 0,
        start < end,
        0 <= i < n,
    ensures
        start <= chunk_start(start, end, n, i) <= chunk_start(start, end, n, n - 1),
        chunk_start(start, end, n, i) < chunk_start(start, end, n, i + 1),
        chunk_start(start, end, n, 0) == start,
        chunk_start(start, end, n, n as int) >= end,
{
    let c = chunk_size(end - start, n as int);
    lemma_div_ceil(end - start, n as int);
    assert(0 <= i * c <= (n - 1) * c && (i + 1) * c == i * c + c && 0 * c == 0) by (nonlinear_arith)
        requires
            0 <= i <= n - 1,
            c > 0,
    ;
}

/// Every shard lies inside the range, its start is aligned, and it reaches no
/// further than `overlap` bytes past its chunk.
pub proof fn law_shards_inside(
    start: u64,
    end: u64,
    n: usize,
    overlap: u64,
    align_log2: nat,
    align: u64,
    j: int,
)
    requires
        align == pow2(align_log2),
        split_fits(start, end, n, align),
        0 <= j < shards(start, end, n, overlap, align).len(),
    ensures
        start <= shards(start, end, n, overlap, align)[j].0 < end,
        shards(start, end, n, overlap, align)[j].1 <= end,
        shards(start, end, n, overlap, align)[j].0 % align == 0,
{
    lemma_shards_members(start, end, n, overlap, align, n as int);
    let s = shards(start, end, n, overlap, align)[j];
    let i = choose|i: int|
        0 <= i < n && Some(s) == #[trigger] shard_at(start, end, n, overlap, align, i);
    lemma_chunks(start, end, n, i);
    lemma_round_up_multiple(chunk_start(start, end, n, i), align_log2, align);
}

/// Whether an address lies in some shard.
pub open spec fn covered(shards: Seq<(u64, u64)>, a: u64) -> bool {
    exists|j: int| 0 <= j < shards.len() && (#[trigger] shards[j]).0 <= a < shards[j].1
}

/// The shards leave no gap: with an overlap of at least the alignment less one,
/// every address of a range whose start is aligned lies in a shard.
pub proof fn law_shards_cover(
    start: u64,
    end: u64,
    n: usize,
    overlap: u64,
    align: u64,
    a: u64,
)
    requires
        n > 0,
        split_fits(start, end, n, align),
        start <= a < end,
        round_up(start as int, align) == start,
        overlap + 1 >= align,
    ensures
        covered(shards(start, end, n, overlap, align), a),
{
    lemma_shards_members(start, end, n, overlap, align, n as int);
    lemma_chunks(start, end, n, 0);
    lemma_cover_from(start, end, n, overlap, align, a, 0);
}

/// Finds the shard of `a` among the chunks from `i` on, the `i`-th starting at or
/// before `a`.
proof fn lemma_cover_from(
    start: u64,
    end: u64,
    n: usize,
    overlap: u64,
    align: u64,
    a: u64,
    i: int,
)
    requires
        0 <= i < n,
        split_fits(start, end, n, align),
        start <= a < end,
        overlap + 1 >= align,
        round_up(chunk_start(start, end, n, i), align) <= a,
    ensures
        covered(shards(start, end, n, overlap, align), a),
    decreases n - i,
{
    lemma_shards_members(start, end, n, overlap, align, n as int);
    lemma_chunks(start, end, n, i);
    if i + 1 < n && round_up(chunk_start(start, end, n, i + 1), align) <= a {
        lemma_cover_from(start, end, n, overlap, align, a, i + 1);
    } else {
        if i + 1 < n {
            lemma_chunks(start, end, n, i + 1);
            lemma_round_up(chunk_start(start, end, n, i + 1), align);
        }
        let s = shard_at(start, end, n, overlap, align, i).unwrap();
        let all = shards(start, end, n, overlap, align);
        assert(all.contains(s));
        let j = all.index_of(s);
        assert(all[j].0 <= a < all[j].1);
    }
}

/// Whatever the overlap, every aligned address of a range lies in a shard, so that
/// no aligned instruction or pointer is passed over.
pub proof fn law_aligned_covered(
    start: u64,
    end: u64,
    n: usize,
    overlap: u64,
    align_log2: nat,
    align: u64,
    a: u64,
)
    requires
        n > 0,
        align == pow2(align_log2),
        split_fits(start, end, n, align),
        start <= a < end,
        a % align == 0,
    ensures
        covered(shards(start, end, n, overlap, align), a),
{
    vstd::arithmetic::power2::lemma_pow2_pos(align_log2);
    lemma_chunks(start, end, n, 0);
    lemma_aligned_from(start, end, n, overlap, align_log2, align, a, 0);
}

/// Finds the shard of an aligned address among the chunks from `i` on, the `i`-th
/// starting at or before it.
proof fn lemma_aligned_from(
    start: u64,
    end: u64,
    n: usize,
    overlap: u64,
    align_log2: nat,
    align: u64,
    a: u64,
    i: int,
)
    requires
        0 <= i < n,
        align > 0,
        align == pow2(align_log2),
        split_fits(start, end, n, align),
        start <= a < end,
        a % align == 0,
        chunk_start(start, end, n, i) <= a,
    ensures
        covered(shards(start, end, n, overlap, align), a),
    decreases n - i,
{
    lemma_shards_members(start, end, n, overlap, align, n as int);
    lemma_chunks(start, end, n, i);
    if i + 1 < n && chunk_start(start, end, n, i + 1) <= a {
        lemma_aligned_from(start, end, n, overlap, align_log2, align, a, i + 1);
    } else {
        lemma_round_up_multiple(chunk_start(start, end, n, i), align_log2, align);
        let s = shard_at(start, end, n, overlap, align, i).unwrap();
        let all = shards(start, end, n, overlap, align);
        assert(all.contains(s));
        let j = all.index_of(s);
        assert(all[j].0 <= a < all[j].1);
    }
}

} // verus!
