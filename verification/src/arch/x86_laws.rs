//! What the x86-64 scans report of decoded instructions, told from the fields.
//!
//! Codes, flow kinds, operand kinds and registers are written as the numbers that the
//! decoder gives them.

use crate::arch::x86_64::{
    branch_ref, case_refs, case_target, imm_ref, insn_refs, memory_operand, next_bounds, next_regs,
    next_tables, next_vals, register_refs, rip_ref, x86_refs, JumpTableInfo, RegsView, X86Model,
};
use crate::arch::x86_insn::{x86_access, X86Insn};
use crate::arch::{exec_in, i32_at, mapped_in, one_or_none};
use crate::va::{wrap64, Va};
use crate::xref::{Confidence, Xref, XrefKind};
use vstd::prelude::*;

verus! {

/// Whether an instruction stands at `pos` in code.
pub open spec fn stands_at(m: X86Model, pos: int, insn: X86Insn) -> bool {
    &&& 0 <= pos < m.data.len()
    &&& insn == m.insn(pos)
    &&& insn.code != 0
    &&& 1 <= insn.len && pos + insn.len <= m.data.len()
}

/// The address of the byte at `pos`.
pub open spec fn address_of(m: X86Model, pos: int) -> u64 {
    wrap64(m.base + pos)
}

/// A reference that one instruction gives by itself.
pub open spec fn seen(from: u64, to: u64, kind: XrefKind) -> Xref {
    Xref { from: Va(from), to: Va(to), kind, confidence: Confidence::LinearImmediate }
}

/// A reference that what is known of the registers gives.
pub open spec fn inferred(from: u64, to: u64, kind: XrefKind) -> Xref {
    Xref { from: Va(from), to: Va(to), kind, confidence: Confidence::LocalProp }
}

/// The codes of MOV, CMP and SUB with an immediate that is sign-extended from 32 bits.
pub open spec fn takes_imm32(code: u16) -> bool {
    code == 91 || code == 92 || code == 117 || code == 118 || code == 232 || code == 238 || code
        == 264 || code == 270 || code == 357 || code == 405
}

/// The address that an instruction carries as its immediate: the number itself, above
/// zero, and below 2^32 unless it is the 64-bit immediate of MOV.
pub open spec fn carries(insn: X86Insn, a: u64) -> bool {
    a > 0 && ((insn.code == 358 && insn.imm64 == a) || (takes_imm32(insn.code) && insn.imm32to64
        == a && a < 0x1_0000_0000))
}

/// An instruction of code refers to the mapped address that it carries as its
/// immediate, and as a pointer to no other address but the one that LEA computes.
pub proof fn law_immediate_is_target(
    m: X86Model,
    prop: bool,
    st: RegsView,
    pos: int,
    insn: X86Insn,
    a: u64,
)
    requires
        stands_at(m, pos, insn),
        exec_in(m.spans, m.base),
    ensures
        carries(insn, a) && mapped_in(m.spans, a) ==> x86_refs(m, prop, st, pos).contains(
            seen(address_of(m, pos), a, XrefKind::DataPointer),
        ),
        forall|x: Xref|
            insn_refs(m, prop, st, pos).contains(x) && x.kind == XrefKind::DataPointer ==> x.from
                == Va(address_of(m, pos)) && mapped_in(m.spans, x.to.0) && (carries(insn, x.to.0)
                || (290 <= insn.code <= 292 && insn.base == 70 && x.to.0 == insn.disp)),
{
    reveal(imm_ref);
    reveal(branch_ref);
    reveal(rip_ref);
    let all = insn_refs(m, prop, st, pos);
    let d = one_or_none(imm_ref(m, insn, m.va(pos)));
    assert forall|x: Xref| all.contains(x) && x.kind == XrefKind::DataPointer implies x.from == Va(
        address_of(m, pos),
    ) && mapped_in(m.spans, x.to.0) && (carries(insn, x.to.0) || (290 <= insn.code <= 292
        && insn.base == 70 && x.to.0 == insn.disp)) by {
        let j = choose|j: int| 0 <= j < all.len() && all[j] == x;
        let ab = one_or_none(branch_ref(m, insn, m.va(pos))) + one_or_none(rip_ref(m, insn, pos));
        let c = if prop {
            register_refs(m, st, insn, m.va(pos))
        } else {
            Seq::empty()
        };
        if prop {
            lemma_register_kinds(m, st, insn, m.va(pos));
        }
        assert(all =~= ab + c + d);
        if ab.len() <= j < ab.len() + c.len() {
            assert(x == c[j - ab.len()]);
        }
    }
    if carries(insn, a) && mapped_in(m.spans, a) {
        let x = seen(address_of(m, pos), a, XrefKind::DataPointer);
        assert(d == seq![x]);
        assert(all[all.len() - 1] == x);
        assert(all.contains(x));
    }
    lemma_insn_refs_found(m, prop, st, pos);
}

/// What the instruction at a position refers to is among what the scan from there
/// reports.
proof fn lemma_insn_refs_found(m: X86Model, prop: bool, st: RegsView, pos: int)
    requires
        stands_at(m, pos, m.insn(pos)),
    ensures
        forall|x: Xref| #[trigger]
            insn_refs(m, prop, st, pos).contains(x) ==> x86_refs(m, prop, st, pos).contains(x),
{
    let here = insn_refs(m, prop, st, pos);
    let all = x86_refs(m, prop, st, pos);
    assert forall|x: Xref| #[trigger] here.contains(x) implies all.contains(x) by {
        let j = choose|j: int| 0 <= j < here.len() && here[j] == x;
        assert(all[j] == x);
    }
}

proof fn lemma_case_kinds(m: X86Model, jt: JumpTableInfo, from: u64, k: int, limit: int)
    ensures
        forall|j: int|
            0 <= j < case_refs(m, jt, from, k, limit).len() ==> (#[trigger] case_refs(
                m,
                jt,
                from,
                k,
                limit,
            )[j]).kind == XrefKind::Jump,
    decreases limit - k,
{
    if k < limit {
        lemma_case_kinds(m, jt, from, k + 1, limit);
    }
}

proof fn lemma_register_kinds(m: X86Model, st: RegsView, insn: X86Insn, va: u64)
    ensures
        forall|j: int|
            0 <= j < register_refs(m, st, insn, va).len() ==> (#[trigger] register_refs(
                m,
                st,
                insn,
                va,
            )[j]).kind != XrefKind::DataPointer,
{
    reveal(register_refs);
    assert forall|jt: JumpTableInfo, limit: int, j: int|
        0 <= j < case_refs(m, jt, va, 0, limit).len() implies (#[trigger] case_refs(
        m,
        jt,
        va,
        0,
        limit,
    )[j]).kind == XrefKind::Jump by {
        lemma_case_kinds(m, jt, va, 0, limit);
    }
}

/// What a branch of code with a near target is reported as.
pub open spec fn flow_kind(flow: u8) -> Option<XrefKind> {
    if flow == 5 {
        Some(XrefKind::Call)
    } else if flow == 1 {
        Some(XrefKind::Jump)
    } else if flow == 3 || flow == 8 {
        Some(XrefKind::CondJump)
    } else {
        None
    }
}

/// A direct branch of code refers to its near target, where that is mapped, by the kind
/// of its flow.
pub proof fn law_branch_target(m: X86Model, prop: bool, st: RegsView, pos: int, insn: X86Insn)
    requires
        stands_at(m, pos, insn),
        exec_in(m.spans, m.base),
        1 <= insn.kinds[0] <= 3,
        flow_kind(insn.flow) is Some,
        mapped_in(m.spans, insn.near),
    ensures
        x86_refs(m, prop, st, pos).contains(
            seen(address_of(m, pos), insn.near, flow_kind(insn.flow).unwrap()),
        ),
{
    reveal(branch_ref);
    let x = seen(address_of(m, pos), insn.near, flow_kind(insn.flow).unwrap());
    let all = insn_refs(m, prop, st, pos);
    assert(all[0] == x);
    assert(all.contains(x));
    lemma_insn_refs_found(m, prop, st, pos);
}

/// A call or jump of code through an import slot refers to the slot.
pub proof fn law_slot_target(m: X86Model, prop: bool, st: RegsView, pos: int, insn: X86Insn)
    requires
        stands_at(m, pos, insn),
        exec_in(m.spans, m.base),
        insn.flow == 6 || insn.flow == 2,
        insn.op_count == 1,
        insn.kinds[0] == 24,
        insn.base == 70,
        m.slots.contains(insn.disp),
    ensures
        x86_refs(m, prop, st, pos).contains(
            seen(
                address_of(m, pos),
                insn.disp,
                if insn.flow == 6 {
                    XrefKind::Call
                } else {
                    XrefKind::Jump
                },
            ),
        ),
{
    reveal(branch_ref);
    let x = seen(
        address_of(m, pos),
        insn.disp,
        if insn.flow == 6 {
            XrefKind::Call
        } else {
            XrefKind::Jump
        },
    );
    let all = insn_refs(m, prop, st, pos);
    assert(all[0] == x);
    assert(all.contains(x));
    lemma_insn_refs_found(m, prop, st, pos);
}

/// Whether the `op`-th operand is the first in memory, and relative to RIP.
pub open spec fn reaches_by_rip(insn: X86Insn, op: int) -> bool {
    &&& 0 <= op < insn.op_count <= 5
    &&& insn.kinds[op] == 24
    &&& forall|k: int| 0 <= k < op ==> insn.kinds[k] != 24
    &&& insn.base == 70
}

proof fn lemma_memory_operand(insn: X86Insn, from: int, op: int)
    requires
        0 <= from <= op < insn.op_count,
        insn.kinds[op] == 24,
        forall|k: int| 0 <= k < op ==> insn.kinds[k] != 24,
    ensures
        memory_operand(insn, from) == Some(op),
    decreases op - from,
{
    if from < op {
        lemma_memory_operand(insn, from + 1, op);
    }
}

/// An operand relative to RIP refers to its address: as a pointer in LEA, wherever that
/// is mapped, else as a write or a read of data by how the instruction accesses it.
pub proof fn law_rip_target(
    m: X86Model,
    prop: bool,
    st: RegsView,
    pos: int,
    insn: X86Insn,
    op: int,
)
    requires
        stands_at(m, pos, insn),
        reaches_by_rip(insn, op),
        mapped_in(m.spans, insn.disp),
        290 <= insn.code <= 292 || !exec_in(m.spans, insn.disp),
    ensures
        x86_refs(m, prop, st, pos).contains(
            seen(
                address_of(m, pos),
                insn.disp,
                if 290 <= insn.code <= 292 {
                    XrefKind::DataPointer
                } else if 3 <= x86_access(
                    64,
                    m.data.skip(pos),
                    address_of(m, pos),
                    op as u32,
                ) <= 6 {
                    XrefKind::DataWrite
                } else {
                    XrefKind::DataRead
                },
            ),
        ),
{
    reveal(rip_ref);
    lemma_memory_operand(insn, 0, op);
    let x = rip_ref(m, insn, pos).unwrap();
    let all = insn_refs(m, prop, st, pos);
    let a = if exec_in(m.spans, m.base) {
        one_or_none(branch_ref(m, insn, m.va(pos)))
    } else {
        Seq::empty()
    };
    assert(all[a.len() as int] == x);
    assert(all.contains(x));
    lemma_insn_refs_found(m, prop, st, pos);
}

/// Whether an instruction puts a constant into the `n`-th general-purpose register: by
/// MOV, at the width of the immediate, or by LEA relative to RIP.
pub open spec fn puts(insn: X86Insn, n: int, c: u64) -> bool {
    &&& 0 <= n < 16
    &&& insn.op_count > 0
    &&& insn.kinds[0] == 0
    &&& insn.reg0 == (if insn.code == 357 {
        37 + n
    } else {
        53 + n
    })
    &&& ((insn.code == 358 && c == insn.imm64) || (insn.code == 357 && c == insn.imm32) || (
    insn.code == 405 && c == wrap64(insn.imm32to64 as int)) || (insn.code == 292 && insn.base
        == 70 && c == insn.disp))
}

/// Whether an instruction calls or jumps through the `n`-th general-purpose register.
pub open spec fn goes_through(insn: X86Insn, n: int) -> bool {
    (insn.code == 759 || insn.code == 765) && insn.kinds[0] == 0 && insn.reg0 == 53 + n
}

/// What the rest of a scan reports is among what the scan reports.
proof fn lemma_rest_found(m: X86Model, st: RegsView, pos: int, x: Xref)
    requires
        stands_at(m, pos, m.insn(pos)),
        x86_refs(m, true, next_regs(st, m.insn(pos)), pos + m.insn(pos).len).contains(x),
    ensures
        x86_refs(m, true, st, pos).contains(x),
{
    let here = insn_refs(m, true, st, pos);
    let rest = x86_refs(m, true, next_regs(st, m.insn(pos)), pos + m.insn(pos).len);
    let j = choose|j: int| 0 <= j < rest.len() && rest[j] == x;
    assert(x86_refs(m, true, st, pos) == here + rest);
    assert((here + rest)[here.len() + j] == x);
}

/// What is reported of a register is reported of the instruction.
proof fn lemma_register_found(m: X86Model, st: RegsView, pos: int, x: Xref)
    requires
        stands_at(m, pos, m.insn(pos)),
        register_refs(m, st, m.insn(pos), m.va(pos)).contains(x),
    ensures
        x86_refs(m, true, st, pos).contains(x),
{
    let insn = m.insn(pos);
    let c = register_refs(m, st, insn, m.va(pos));
    let a = (if exec_in(m.spans, m.base) {
        one_or_none(branch_ref(m, insn, m.va(pos)))
    } else {
        Seq::empty()
    }) + one_or_none(rip_ref(m, insn, pos));
    let j = choose|j: int| 0 <= j < c.len() && c[j] == x;
    let all = insn_refs(m, true, st, pos);
    assert(all[a.len() + j] == x);
    assert(all.contains(x));
    lemma_insn_refs_found(m, true, st, pos);
}

/// A constant that one instruction puts into a register is where the next one goes
/// through it, whatever was known before.
pub proof fn law_constant_is_target(
    m: X86Model,
    st: RegsView,
    pos: int,
    first: X86Insn,
    second: X86Insn,
    n: int,
    c: u64,
)
    requires
        st.wf(),
        stands_at(m, pos, first),
        stands_at(m, pos + first.len, second),
        puts(first, n, c),
        goes_through(second, n),
        mapped_in(m.spans, c),
    ensures
        x86_refs(m, true, st, pos).contains(
            inferred(
                address_of(m, pos + first.len),
                c,
                if second.code == 759 {
                    XrefKind::Call
                } else {
                    XrefKind::Jump
                },
            ),
        ),
{
    reveal(next_vals);
    reveal(register_refs);
    let next = pos + first.len;
    let after = next_regs(st, first);
    let x = inferred(
        address_of(m, next),
        c,
        if second.code == 759 {
            XrefKind::Call
        } else {
            XrefKind::Jump
        },
    );
    let found = register_refs(m, after, second, m.va(next));
    assert(found == seq![x]);
    assert(found[0] == x);
    assert(found.contains(x));
    lemma_register_found(m, after, next, x);
    lemma_rest_found(m, st, pos, x);
}

/// A comparison of a register with an immediate below the greatest size of a table
/// bounds it to one more cases than the immediate.
pub proof fn law_comparison_bounds(st: RegsView, insn: X86Insn, n: int, last: int)
    requires
        st.wf(),
        0 <= n < 16,
        insn.kinds[0] == 0,
        insn.reg0 == 53 + n || insn.reg0 == 37 + n,
        0 <= last < 4096,
        ((insn.code == 117 || insn.code == 118 || insn.code == 237 || insn.code == 238)
            && insn.imm32 == last) || ((insn.code == 269 || insn.code == 270) && insn.imm8 == last),
    ensures
        next_regs(st, insn).bounds[n] == Some((last + 1) as u32),
{
    reveal(next_bounds);
}

/// Whether three instructions load an entry of a table, add the address that entries
/// count from, and jump there: registers `d` for the entry, `b` for the address and `x`
/// for the index.
pub open spec fn is_switch(
    load: X86Insn,
    sum: X86Insn,
    jump: X86Insn,
    d: int,
    b: int,
    x: int,
) -> bool {
    &&& 0 <= d < 16 && 0 <= b < 16 && 0 <= x < 16 && b != d
    &&& load.code == 140 && load.op_count > 0 && load.kinds[0] == 0 && load.kinds[1] == 24
    &&& load.reg0 == 53 + d && load.base == 53 + b && load.index == 53 + x && load.scale == 4
    &&& (sum.code == 8 || sum.code == 12) && sum.op_count > 0 && sum.kinds[0] == 0 && sum.kinds[1]
        == 0
    &&& sum.reg0 == 53 + d && sum.reg1 == 53 + b
    &&& jump.code == 765 && goes_through(jump, d)
}

/// Whether the `k`-th entry of a table of four-byte distances leads to code.
pub open spec fn case_leads(m: X86Model, table: u64, base: u64, k: int, to: u64) -> bool {
    i32_at(m.image, wrap64(table + 4 * k)) matches Some(entry) && to == wrap64(base + entry)
        && exec_in(m.spans, to)
}

proof fn lemma_case_found(
    m: X86Model,
    jt: JumpTableInfo,
    from: u64,
    i: int,
    k: int,
    limit: int,
    to: u64,
)
    requires
        0 <= i <= k < limit,
        case_leads(m, jt.table_start.0, jt.target_base.0, k, to),
        forall|j: int|
            i <= j < k ==> (#[trigger] case_target(m, jt, j)) is Some,
    ensures
        case_refs(m, jt, from, i, limit).contains(inferred(from, to, XrefKind::Jump)),
    decreases k - i,
{
    let all = case_refs(m, jt, from, i, limit);
    if i < k {
        assert(case_target(m, jt, i) is Some);
        lemma_case_found(m, jt, from, i + 1, k, limit, to);
        let rest = case_refs(m, jt, from, i + 1, limit);
        let x = inferred(from, to, XrefKind::Jump);
        let j = choose|j: int| 0 <= j < rest.len() && rest[j] == x;
        assert(all[j + 1] == x);
    } else {
        assert(jt.table_start.0 + k * 4 == jt.table_start.0 + 4 * k);
        assert(case_target(m, jt, k) == Some(to));
        assert(all[0] == inferred(from, to, XrefKind::Jump));
    }
}

/// A jump through a switch table goes wherever an entry below the bound leads, as long
/// as every entry before it leads to code too. The table starts the displacement past
/// the address that its entries count from.
pub proof fn law_switch_cases(
    m: X86Model,
    st: RegsView,
    pos: int,
    load: X86Insn,
    sum: X86Insn,
    jump: X86Insn,
    d: int,
    b: int,
    x: int,
    base: u64,
    bound: u32,
    k: int,
    targets: Seq<u64>,
)
    requires
        st.wf(),
        stands_at(m, pos, load),
        stands_at(m, pos + load.len, sum),
        stands_at(m, pos + load.len + sum.len, jump),
        is_switch(load, sum, jump, d, b, x),
        st.vals[b] == Some(base),
        st.bounds[x] == Some(bound),
        0 <= k < bound,
        k < 4096,
        targets.len() == k + 1,
        forall|j: int|
            0 <= j <= k ==> case_leads(
                m,
                wrap64(base + load.disp),
                base,
                j,
                #[trigger] targets[j],
            ),
    ensures
        x86_refs(m, true, st, pos).contains(
            inferred(address_of(m, pos + load.len + sum.len), targets[k], XrefKind::Jump),
        ),
{
    let jt = JumpTableInfo {
        table_start: Va(wrap64(base + load.disp)),
        target_base: Va(base),
        max_entries: Some(bound),
    };
    let p2 = pos + load.len;
    let p3 = p2 + sum.len;
    let s2 = next_regs(st, load);
    let s3 = next_regs(s2, sum);
    assert(s2.vals[b] == Some(base) && s2.vals[d] is None && s2.vals.len() == 16) by {
        reveal(next_vals);
    }
    assert(s2.tables[d] == Some(jt) && s2.tables.len() == 16) by {
        reveal(next_tables);
    }
    assert(s3.vals[d] is None) by {
        reveal(next_vals);
    }
    assert(s3.tables[d] == Some(jt)) by {
        reveal(next_tables);
    }
    let from = address_of(m, p3);
    let limit: int = if bound < 4096 {
        bound as int
    } else {
        4096
    };
    assert forall|j: int| 0 <= j < k implies (#[trigger] case_target(m, jt, j)) is Some by {
        assert(case_leads(m, wrap64(base + load.disp), base, j, targets[j]));
        assert(jt.table_start.0 + j * 4 == jt.table_start.0 + 4 * j);
    }
    assert(case_leads(m, wrap64(base + load.disp), base, k, targets[k]));
    lemma_case_found(m, jt, from, 0, k, limit, targets[k]);
    let y = inferred(from, targets[k], XrefKind::Jump);
    assert(register_refs(m, s3, jump, m.va(p3)).contains(y)) by {
        reveal(register_refs);
    }
    lemma_register_found(m, s3, p3, y);
    lemma_rest_found(m, s2, p2, y);
    lemma_rest_found(m, st, pos, y);
}

/// A move between registers copies the bound, forgets the constant and the table of the
/// register that it writes, and leaves what is known of the others.
pub proof fn law_registers_follow(st: RegsView, insn: X86Insn, d: int, s: int, other: int)
    requires
        st.wf(),
        0 <= d < 16,
        0 <= s < 16,
        0 <= other < 16,
        other != d,
        insn.op_count == 2,
        insn.kinds[0] == 0,
        insn.kinds[1] == 0,
        (insn.code == 281 || insn.code == 285) && insn.reg0 == 37 + d && insn.reg1 == 37 + s || (
        insn.code == 282 || insn.code == 286) && insn.reg0 == 53 + d && insn.reg1 == 53 + s,
    ensures
        next_regs(st, insn).bounds[d] == st.bounds[s],
        next_regs(st, insn).vals[d] is None,
        next_regs(st, insn).tables[d] is None,
        next_regs(st, insn).bounds[other] == st.bounds[other],
        next_regs(st, insn).vals[other] == st.vals[other],
        next_regs(st, insn).tables[other] == st.tables[other],
{
    reveal(next_bounds);
    reveal(next_vals);
    reveal(next_tables);
}

} // verus!
