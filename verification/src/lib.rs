//! Extraction of cross-references from program images.
//!
//! The library loads ELF, Mach-O, PE and COFF images into address-mapped
//! segments, decodes their code and relocation metadata, and reports which
//! address refers to which. File access, threads and command-line handling live
//! in the application around it.

pub mod arch;
pub mod bytes;
pub mod disasm;
pub mod loader;
pub mod order;
pub mod output;
pub mod pairs;
pub mod pass;
pub mod report;
pub mod rust;
pub mod score;
pub mod shard;
pub mod slots;
pub mod text;
pub mod va;
pub mod xref;

pub use crate::loader::{Arch, DecodeMode, LoadedBinary, RelocPointer, Segment, Symbol};
pub use crate::pass::{Depth, PassFilter, VaRange};
pub use crate::rust::{StringBlobIndex, DEFAULT_MIN_BLOB_LEN};
pub use crate::va::Va;
pub use crate::xref::{Confidence, Xref, XrefKind};

use crate::va::parsed_address;
use vstd::prelude::*;

verus! {

/// Parses an address, giving the bare number.
///
/// Accepts hexadecimal with a `0x` or `0X` prefix, or plain decimal. Use
/// [`Va::parse`] where a [`Va`] is wanted.
pub fn parse_va(s: &str) -> (r: Result<u64, String>)
    ensures
        match parsed_address(s@) {
            Some(n) => r == Ok::<u64, String>(n),
            None => r matches Err(e) && e@ == "invalid address: "@ + s@,
        },
{
    match Va::parse(s) {
        Ok(va) => Ok(va.raw()),
        Err(e) => Err(e),
    }
}

} // verus!
