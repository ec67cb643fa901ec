//! Cross-references, their kinds, and how they were found.

use crate::text::str_eq;
use crate::va::Va;
use vstd::prelude::*;

verus! {

/// A resolved cross-reference between two addresses.
#[derive(Clone, Copy, Debug, PartialEq, Eq, Structural)]
pub struct Xref {
    /// Address of the instruction or datum that refers.
    pub from: Va,
    /// Address referred to.
    pub to: Va,
    /// What kind of reference this is.
    pub kind: XrefKind,
    /// Which analysis produced it.
    pub confidence: Confidence,
}

/// The kind of a cross-reference.
#[derive(Clone, Copy, Debug, PartialEq, Eq, Structural, Hash)]
pub enum XrefKind {
    /// Direct call instruction (BL, CALL and the like).
    Call,
    /// Direct unconditional branch.
    Jump,
    /// Direct conditional branch.
    CondJump,
    /// Read of data.
    DataRead,
    /// Write of data.
    DataWrite,
    /// Pointer-sized value that points into code or data.
    DataPointer,
    /// Indirect call whose target is not resolved statically.
    IndirectCall,
    /// Indirect jump whose target is not resolved statically.
    IndirectJump,
}

/// Which analysis produced a cross-reference; later variants are the more
/// expensive and the more accurate ones.
#[derive(Clone, Copy, Debug, PartialEq, Eq, Structural, PartialOrd, Ord)]
pub enum Confidence {
    /// A pointer-sized value in a data section that lands in a mapped segment.
    ByteScan,
    /// A direct branch or call with an immediate target.
    LinearImmediate,
    /// A page address completed by a later instruction, or a RIP-relative operand.
    PairResolved,
    /// Constant propagation along a linear run of instructions.
    LocalProp,
    /// Control and data flow of the whole containing function. Nothing produces
    /// it yet.
    FunctionFlow,
}

impl Confidence {
    /// Number of variants.
    pub const COUNT: usize = 5;

    /// The label as text.
    pub open spec fn label(self) -> Seq<char> {
        match self {
            Confidence::ByteScan => "byte-scan"@,
            Confidence::LinearImmediate => "linear-immediate"@,
            Confidence::PairResolved => "pair-resolved"@,
            Confidence::LocalProp => "local-prop"@,
            Confidence::FunctionFlow => "function-flow"@,
        }
    }

    /// Position of the variant in order of cost.
    pub open spec fn rank(self) -> nat {
        match self {
            Confidence::ByteScan => 0,
            Confidence::LinearImmediate => 1,
            Confidence::PairResolved => 2,
            Confidence::LocalProp => 3,
            Confidence::FunctionFlow => 4,
        }
    }

    /// Label used in output.
    pub fn name(self) -> (r: &'static str)
        ensures
            r@ == self.label(),
    {
        match self {
            Confidence::ByteScan => "byte-scan",
            Confidence::LinearImmediate => "linear-immediate",
            Confidence::PairResolved => "pair-resolved",
            Confidence::LocalProp => "local-prop",
            Confidence::FunctionFlow => "function-flow",
        }
    }

    /// Every variant, in order of cost.
    pub fn all() -> (r: [Confidence; 5])
        ensures
            r@.len() == Self::COUNT,
            forall|c: Confidence| r@[#[trigger] c.rank() as int] == c,
    {
        [
            Confidence::ByteScan,
            Confidence::LinearImmediate,
            Confidence::PairResolved,
            Confidence::LocalProp,
            Confidence::FunctionFlow,
        ]
    }
}

impl XrefKind {
    /// The kind under which a reference is scored: conditional and indirect
    /// branches count with the direct ones.
    pub open spec fn scored(self) -> XrefKind {
        match self {
            XrefKind::IndirectCall => XrefKind::Call,
            XrefKind::CondJump => XrefKind::Jump,
            XrefKind::IndirectJump => XrefKind::Jump,
            other => other,
        }
    }

    /// The label as text; only the scored kind shows in it.
    pub open spec fn label(self) -> Seq<char> {
        match self.scored() {
            XrefKind::Call => "call"@,
            XrefKind::Jump => "jump"@,
            XrefKind::DataRead => "data_read"@,
            XrefKind::DataWrite => "data_write"@,
            _ => "data_ptr"@,
        }
    }

    /// Whether the reference transfers control.
    pub open spec fn refers_to_code(self) -> bool {
        self.scored() == XrefKind::Call || self.scored() == XrefKind::Jump
    }

    /// The kind that carries a label, if any does.
    pub open spec fn with_label(s: Seq<char>) -> Option<XrefKind> {
        if s == XrefKind::Call.label() {
            Some(XrefKind::Call)
        } else if s == XrefKind::Jump.label() {
            Some(XrefKind::Jump)
        } else if s == XrefKind::DataRead.label() {
            Some(XrefKind::DataRead)
        } else if s == XrefKind::DataWrite.label() {
            Some(XrefKind::DataWrite)
        } else if s == XrefKind::DataPointer.label() {
            Some(XrefKind::DataPointer)
        } else {
            None
        }
    }

    /// The kinds that scoring tells apart.
    pub fn scored_kinds() -> (r: [XrefKind; 5])
        ensures
            forall|k: XrefKind| r@.contains(k) <==> #[trigger] k.scored() == k,
    {
        let r = [
            XrefKind::Call,
            XrefKind::Jump,
            XrefKind::DataRead,
            XrefKind::DataWrite,
            XrefKind::DataPointer,
        ];
        proof {
            assert(r@[0] == XrefKind::Call);
            assert(r@[1] == XrefKind::Jump);
            assert(r@[2] == XrefKind::DataRead);
            assert(r@[3] == XrefKind::DataWrite);
            assert(r@[4] == XrefKind::DataPointer);
        }
        r
    }

    /// Label used in output and scoring. Conditional and indirect branches carry
    /// the label of the direct ones.
    pub fn name(self) -> (r: &'static str)
        ensures
            r@ == self.label(),
    {
        match self {
            XrefKind::Call | XrefKind::IndirectCall => "call",
            XrefKind::Jump | XrefKind::CondJump | XrefKind::IndirectJump => "jump",
            XrefKind::DataRead => "data_read",
            XrefKind::DataWrite => "data_write",
            XrefKind::DataPointer => "data_ptr",
        }
    }

    /// The kind under which the reference is scored.
    pub fn scored_kind(self) -> (r: XrefKind)
        ensures
            r == self.scored(),
    {
        match self {
            XrefKind::IndirectCall => XrefKind::Call,
            XrefKind::CondJump | XrefKind::IndirectJump => XrefKind::Jump,
            other => other,
        }
    }

    /// Reads a label back into the scored kind that carries it; `None` for any
    /// other text.
    pub fn from_name(s: &str) -> (r: Option<XrefKind>)
        ensures
            r == XrefKind::with_label(s@),
    {
        if str_eq(s, "call") {
            Some(XrefKind::Call)
        } else if str_eq(s, "jump") {
            Some(XrefKind::Jump)
        } else if str_eq(s, "data_read") {
            Some(XrefKind::DataRead)
        } else if str_eq(s, "data_write") {
            Some(XrefKind::DataWrite)
        } else if str_eq(s, "data_ptr") {
            Some(XrefKind::DataPointer)
        } else {
            None
        }
    }

    /// Whether the reference transfers control.
    pub fn is_code_ref(self) -> (r: bool)
        ensures
            r == self.refers_to_code(),
    {
        match self {
            XrefKind::Call
            | XrefKind::Jump
            | XrefKind::CondJump
            | XrefKind::IndirectCall
            | XrefKind::IndirectJump => true,
            XrefKind::DataRead | XrefKind::DataWrite | XrefKind::DataPointer => false,
        }
    }

    /// Whether the reference reads, writes or points at data.
    pub fn is_data_ref(self) -> (r: bool)
        ensures
            r == !self.refers_to_code(),
    {
        !self.is_code_ref()
    }
}

/// Reading a label back gives the scored kind: nothing but conditionality and
/// indirection is lost in a label.
pub proof fn law_label_reads_back(k: XrefKind)
    ensures
        XrefKind::with_label(k.label()) == Some(k.scored()),
        k.scored().scored() == k.scored(),
        k.scored().label() == k.label(),
        k.scored().refers_to_code() == k.refers_to_code(),
{
    reveal_strlit("call");
    reveal_strlit("jump");
    reveal_strlit("data_read");
    reveal_strlit("data_write");
    reveal_strlit("data_ptr");
    assert("call"@[0] != "jump"@[0]);
    assert("data_read"@[5] != "data_write"@[5]);
    assert("data_read"@[5] != "data_ptr"@[5]);
    assert("data_write"@[5] != "data_ptr"@[5]);
}

} // verus!
