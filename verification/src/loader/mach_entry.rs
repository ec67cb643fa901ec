//! The entry point of a Mach-O image.
//!
//! An image that names its entry point by a position in the file has it at the
//! address where its text segment puts that position. The parser of object files
//! computes that address without a check, so it is checked here first.

use crate::bytes::{
    be32, be64, le32, le64, read_u32_be, read_u32_le, read_u64_be, read_u64_le,
};
use vstd::prelude::*;

verus! {

/// Load command for a segment of a 32-bit image.
pub const LC_SEGMENT: u32 = 1;

/// Load command for a segment of a 64-bit image.
pub const LC_SEGMENT_64: u32 = 0x19;

/// Load command for the entry point.
pub const LC_MAIN: u32 = 0x8000_0028;

/// First word of an image, read in its own byte order.
pub const MACH_MAGIC: u32 = 0xfeed_face;

/// First word of a 64-bit image, read in its own byte order.
pub const MACH_MAGIC_64: u32 = 0xfeed_facf;

/// Bytes that a Mach-O file has at least.
pub const MACH_HEADER_LEN: usize = 32;

/// The four-byte number at a position, in the byte order of the image.
pub open spec fn num32(file: Seq<u8>, at: int, big: bool) -> int {
    if big {
        be32(file, at)
    } else {
        le32(file, at)
    }
}

/// The eight-byte number at a position, in the byte order of the image.
pub open spec fn num64(file: Seq<u8>, at: int, big: bool) -> int {
    if big {
        be64(file, at)
    } else {
        le64(file, at)
    }
}

/// Where a text segment is in memory and in the file.
#[derive(Clone, Copy, Debug, PartialEq, Eq, Structural)]
pub struct TextPlace {
    pub vmaddr: u64,
    pub fileoff: u64,
}

/// What the entry point is made of.
#[derive(Clone, Copy, Debug, PartialEq, Eq, Structural)]
pub struct EntryParts {
    /// Position of the entry point in the file.
    pub main: Option<u64>,
    /// The text segment.
    pub text: Option<TextPlace>,
}

impl EntryParts {
    /// Whether the entry point is an address. Without a text segment or without an
    /// entry point there is nothing to compute.
    pub open spec fn fits(self) -> bool {
        match (self.main, self.text) {
            (Some(main), Some(text)) => 0 <= text.vmaddr - text.fileoff && text.vmaddr
                - text.fileoff + main <= u64::MAX,
            _ => true,
        }
    }

    /// Whether the entry point is an address.
    fn check(self) -> (r: bool)
        ensures
            r == self.fits(),
    {
        match (self.main, self.text) {
            (Some(main), Some(text)) => text.fileoff <= text.vmaddr && main <= u64::MAX - (
            text.vmaddr - text.fileoff),
            _ => true,
        }
    }
}

/// Name of the text segment, with the byte that ends it.
pub open spec fn text_name() -> Seq<u8> {
    seq![0x5f, 0x5f, 0x54, 0x45, 0x58, 0x54, 0]
}

/// Bytes that a load command of a kind takes at least.
pub open spec fn command_room(kind: int) -> int {
    if kind == LC_SEGMENT {
        56
    } else if kind == LC_SEGMENT_64 {
        72
    } else if kind == LC_MAIN {
        24
    } else {
        8
    }
}

/// Whether the file ends inside the load command at a position.
pub open spec fn is_cut(file: Seq<u8>, big: bool, at: int) -> bool {
    at + 8 > file.len() || at + num32(file, at + 4, big) > file.len() || at + command_room(
        num32(file, at, big),
    ) > file.len()
}

/// What is known of the entry point behind a load command: the first command of
/// each sort counts.
pub open spec fn with_command(file: Seq<u8>, big: bool, at: int, found: EntryParts) -> EntryParts {
    let kind = num32(file, at, big);
    let is_text = file.subrange(at + 8, at + 15) == text_name();
    if kind == LC_MAIN && found.main is None {
        EntryParts { main: Some(num64(file, at + 8, big) as u64), text: found.text }
    } else if kind == LC_SEGMENT && is_text && found.text is None {
        EntryParts {
            main: found.main,
            text: Some(
                TextPlace {
                    vmaddr: num32(file, at + 24, big) as u64,
                    fileoff: num32(file, at + 32, big) as u64,
                },
            ),
        }
    } else if kind == LC_SEGMENT_64 && is_text && found.text is None {
        EntryParts {
            main: found.main,
            text: Some(
                TextPlace {
                    vmaddr: num64(file, at + 24, big) as u64,
                    fileoff: num64(file, at + 40, big) as u64,
                },
            ),
        }
    } else {
        found
    }
}

/// What `n` load commands from a position on say of the entry point, after what was
/// found before; `None` where the file ends inside one.
pub open spec fn entry_parts(
    file: Seq<u8>,
    big: bool,
    at: int,
    n: int,
    found: EntryParts,
) -> Option<EntryParts>
    decreases n,
{
    if n <= 0 {
        Some(found)
    } else if is_cut(file, big, at) {
        None
    } else {
        entry_parts(
            file,
            big,
            at + num32(file, at + 4, big),
            n - 1,
            with_command(file, big, at, found),
        )
    }
}

/// Whether a file starts as a Mach-O image of a byte order does.
pub open spec fn is_mach(file: Seq<u8>, big: bool) -> bool {
    file.len() >= MACH_HEADER_LEN && (num32(file, 0, big) == MACH_MAGIC || num32(file, 0, big)
        == MACH_MAGIC_64)
}

/// Where the load commands start: the header of a 64-bit image has one field more.
pub open spec fn commands_start(file: Seq<u8>, big: bool) -> int {
    if num32(file, 0, big) == MACH_MAGIC_64 {
        32
    } else {
        28
    }
}

/// Whether the entry point of an image of a byte order is an address. Images whose
/// load commands do not fit are not looked into.
pub open spec fn image_entry_fits(file: Seq<u8>, big: bool) -> bool {
    let count = num32(file, 16, big);
    let size = num32(file, 20, big);
    let none = EntryParts { main: None, text: None };
    if count > size / 8 || size > file.len() {
        true
    } else {
        match entry_parts(file, big, commands_start(file, big), count, none) {
            Some(parts) => parts.fits(),
            None => true,
        }
    }
}

/// Whether the entry point of a file is an address, where the file is a Mach-O
/// image that names one.
pub open spec fn mach_entry_fits(file: Seq<u8>) -> bool {
    if is_mach(file, true) {
        image_entry_fits(file, true)
    } else if is_mach(file, false) {
        image_entry_fits(file, false)
    } else {
        true
    }
}

/// The four-byte number at a position.
fn read_num32(file: &[u8], at: usize, big: bool) -> (r: u32)
    requires
        at + 4 <= file.len(),
    ensures
        r == num32(file@, at as int, big),
{
    if big {
        read_u32_be(file, at)
    } else {
        read_u32_le(file, at)
    }
}

/// The eight-byte number at a position.
fn read_num64(file: &[u8], at: usize, big: bool) -> (r: u64)
    requires
        at + 8 <= file.len(),
    ensures
        r == num64(file@, at as int, big),
{
    if big {
        read_u64_be(file, at)
    } else {
        read_u64_le(file, at)
    }
}

/// Whether the name of the text segment is at a position.
fn names_text(file: &[u8], at: usize) -> (r: bool)
    requires
        at + 7 <= file.len(),
    ensures
        r == (file@.subrange(at as int, at + 7) == text_name()),
{
    let r = file[at] == 0x5f && file[at + 1] == 0x5f && file[at + 2] == 0x54 && file[at + 3] == 0x45
        && file[at + 4] == 0x58 && file[at + 5] == 0x54 && file[at + 6] == 0;
    proof {
        let name = file@.subrange(at as int, at + 7);
        let t = text_name();
        if r {
            assert(name =~= t);
        } else {
            assert(name[0] != t[0] || name[1] != t[1] || name[2] != t[2] || name[3] != t[3]
                || name[4] != t[4] || name[5] != t[5] || name[6] != t[6]);
        }
    }
    r
}

/// What is known of the entry point behind a load command.
fn read_command(file: &[u8], big: bool, at: usize, found: EntryParts) -> (r: EntryParts)
    requires
        !is_cut(file@, big, at as int),
    ensures
        r == with_command(file@, big, at as int, found),
{
    let total: usize = file.len();
    assert(at + 8 <= total);
    let kind: u32 = read_num32(file, at, big);
    if kind == LC_MAIN && found.main.is_none() {
        EntryParts { main: Some(read_num64(file, at + 8, big)), text: found.text }
    } else if kind == LC_SEGMENT && found.text.is_none() && names_text(file, at + 8) {
        EntryParts {
            main: found.main,
            text: Some(
                TextPlace {
                    vmaddr: read_num32(file, at + 24, big) as u64,
                    fileoff: read_num32(file, at + 32, big) as u64,
                },
            ),
        }
    } else if kind == LC_SEGMENT_64 && found.text.is_none() && names_text(file, at + 8) {
        EntryParts {
            main: found.main,
            text: Some(
                TextPlace {
                    vmaddr: read_num64(file, at + 24, big),
                    fileoff: read_num64(file, at + 40, big),
                },
            ),
        }
    } else {
        found
    }
}

/// Whether the file ends inside the load command at a position.
fn command_is_cut(file: &[u8], big: bool, at: usize) -> (r: bool)
    requires
        at <= file.len(),
    ensures
        r == is_cut(file@, big, at as int),
{
    let left: usize = file.len() - at;
    if left < 8 {
        return true;
    }
    let kind: u32 = read_num32(file, at, big);
    let room: usize = if kind == LC_SEGMENT {
        56
    } else if kind == LC_SEGMENT_64 {
        72
    } else if kind == LC_MAIN {
        24
    } else {
        8
    };
    read_num32(file, at + 4, big) as u64 > left as u64 || room > left
}

/// Whether the entry point of an image of a byte order is an address.
fn check_image(file: &[u8], big: bool) -> (r: bool)
    requires
        is_mach(file@, big),
    ensures
        r == image_entry_fits(file@, big),
{
    let count: u32 = read_num32(file, 16, big);
    let size: u32 = read_num32(file, 20, big);
    if count > size / 8 || size as u64 > file.len() as u64 {
        return true;
    }
    let start: usize = if read_num32(file, 0, big) == MACH_MAGIC_64 {
        32
    } else {
        28
    };
    let mut found = EntryParts { main: None, text: None };
    let ghost none = found;
    let mut at: usize = start;
    let mut n: u32 = count;
    while n > 0
        invariant
            at <= file.len(),
            entry_parts(file@, big, start as int, count as int, none) == entry_parts(
                file@,
                big,
                at as int,
                n as int,
                found,
            ),
            start == commands_start(file@, big),
            count == num32(file@, 16, big),
            size == num32(file@, 20, big),
            none == (EntryParts { main: None, text: None }),
            count <= size / 8,
            size <= file.len(),
        decreases n,
    {
        if command_is_cut(file, big, at) {
            return true;
        }
        found = read_command(file, big, at, found);
        at = at + read_num32(file, at + 4, big) as usize;
        n = n - 1;
    }
    found.check()
}

/// Whether the entry point of a file is an address, where the file is a Mach-O
/// image that names one.
pub fn check_mach_entry(file: &[u8]) -> (r: bool)
    ensures
        r == mach_entry_fits(file@),
{
    if file.len() < MACH_HEADER_LEN {
        return true;
    }
    let first_big: u32 = read_num32(file, 0, true);
    let first_little: u32 = read_num32(file, 0, false);
    if first_big == MACH_MAGIC || first_big == MACH_MAGIC_64 {
        check_image(file, true)
    } else if first_little == MACH_MAGIC || first_little == MACH_MAGIC_64 {
        check_image(file, false)
    } else {
        true
    }
}

} // verus!
