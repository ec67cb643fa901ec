//! The dyld shared cache: its mappings as segments.

use crate::loader::{
    segment_views, Arch, DecodeMode, LoadError, LoadedBinary, RelocPointer, SegData, Segment,
    SegmentView, Symbol,
};
use crate::text::{starts_with, tagged, tagged_name};
use crate::va::Va;
use vstd::prelude::*;

verus! {

/// A mapping of the cache.
#[derive(Clone, Copy, Debug)]
pub struct DyldMapping<'a> {
    pub address: u64,
    pub size: u64,
    pub executable: bool,
    pub readable: bool,
    pub writable: bool,
    /// The bytes, where the cache files hold them.
    pub data: Option<&'a [u8]>,
}

/// What a [`DyldMapping`] says.
#[verifier::ext_equal]
pub struct DyldMappingView {
    pub address: u64,
    pub size: u64,
    pub executable: bool,
    pub readable: bool,
    pub writable: bool,
    pub data: Option<Seq<u8>>,
}

impl<'a> View for DyldMapping<'a> {
    type V = DyldMappingView;

    open spec fn view(&self) -> DyldMappingView {
        DyldMappingView {
            address: self.address,
            size: self.size,
            executable: self.executable,
            readable: self.readable,
            writable: self.writable,
            data: match self.data {
                Some(d) => Some(d@),
                None => None,
            },
        }
    }
}

/// What a list of mappings says.
pub open spec fn mapping_views(s: Seq<DyldMapping<'_>>) -> Seq<DyldMappingView> {
    s.map_values(|x: DyldMapping<'_>| x@)
}

/// First bytes of a cache file.
pub open spec fn cache_magic() -> Seq<u8> {
    seq![0x64, 0x79, 0x6c, 0x64, 0x5f, 0x76, 0x31, 0x20]
}

/// Whether a file starts as a shared cache does, with `dyld_v1 `.
pub fn is_dyld_cache(bytes: &[u8]) -> (r: bool)
    ensures
        r == cache_magic().is_prefix_of(bytes@),
{
    if bytes.len() < 8 {
        return false;
    }
    let r = bytes[0] == 0x64 && bytes[1] == 0x79 && bytes[2] == 0x6c && bytes[3] == 0x64 && bytes[4]
        == 0x5f && bytes[5] == 0x76 && bytes[6] == 0x31 && bytes[7] == 0x20;
    proof {
        let head = bytes@.subrange(0, 8);
        if r {
            assert(head =~= cache_magic());
        } else {
            let m = cache_magic();
            assert(head[0] != m[0] || head[1] != m[1] || head[2] != m[2] || head[3] != m[3]
                || head[4] != m[4] || head[5] != m[5] || head[6] != m[6] || head[7] != m[7]);
        }
    }
    r
}

/// The architecture for its name in the cache.
pub open spec fn dyld_arch(name: Seq<char>) -> Arch {
    if "arm64"@.is_prefix_of(name) {
        Arch::Arm64
    } else if "x86_64"@.is_prefix_of(name) {
        Arch::X86_64
    } else if "i386"@.is_prefix_of(name) {
        Arch::X86
    } else {
        Arch::Unknown
    }
}

/// The segments of the first `k` mappings: one for each that is not empty and whose
/// bytes there are.
pub open spec fn dyld_segments(mappings: Seq<DyldMappingView>, k: int) -> Seq<SegmentView>
    decreases k,
{
    if k <= 0 {
        Seq::empty()
    } else {
        let before = dyld_segments(mappings, k - 1);
        let m = mappings[k - 1];
        match m.data {
            Some(data) if m.size != 0 => before.push(
                SegmentView {
                    va: Va(m.address),
                    data,
                    executable: m.executable,
                    readable: m.readable,
                    writable: m.writable,
                    byte_scannable: m.readable && !m.executable,
                    mode: DecodeMode::Default,
                    switches: Seq::empty(),
                    name: tagged("DSC"@, m.address as nat),
                },
            ),
            _ => before,
        }
    }
}

/// Loads the mappings of a shared cache. Without a usable one there is nothing to
/// load.
pub fn parse_dyld_cache<'a>(architecture: &str, mappings: &Vec<DyldMapping<'a>>) -> (r: Result<
    LoadedBinary<'a>,
    LoadError,
>)
    ensures
        match r {
            Ok(b) => {
                &&& b.arch == dyld_arch(architecture@)
                &&& b.layout() == dyld_segments(
                    mapping_views(mappings@),
                    mappings@.len() as int,
                )
                &&& b.layout().len() > 0
                &&& b.entry_points@ == Seq::<Va>::empty()
                &&& b.symbols@ == Seq::<Symbol>::empty()
                &&& b.pie_base == 0
                &&& b.got_slots@ == Set::<u64>::empty()
                &&& b.reloc_pointers@ == Seq::<RelocPointer>::empty()
            },
            Err(e) => e == LoadError::NoMappings && dyld_segments(
                mapping_views(mappings@),
                mappings@.len() as int,
            ).len() == 0,
        },
{
    let arch = if starts_with(architecture, "arm64") {
        Arch::Arm64
    } else if starts_with(architecture, "x86_64") {
        Arch::X86_64
    } else if starts_with(architecture, "i386") {
        Arch::X86
    } else {
        Arch::Unknown
    };
    let ghost all = mapping_views(mappings@);
    let mut segments: Vec<Segment<'a>> = Vec::new();
    let mut i: usize = 0;
    assert(segment_views(segments@) =~= Seq::empty());
    while i < mappings.len()
        invariant
            i <= mappings@.len(),
            all == mapping_views(mappings@),
            segment_views(segments@) == dyld_segments(all, i as int),
        decreases mappings@.len() - i,
    {
        let m = mappings[i];
        assert(all[i as int] == m@);
        if m.size != 0 {
            match m.data {
                Some(data) => {
                    let ghost before = segments@;
                    let seg = Segment {
                        va: Va(m.address),
                        data: SegData::new(data),
                        executable: m.executable,
                        readable: m.readable,
                        writable: m.writable,
                        byte_scannable: m.readable && !m.executable,
                        mode: DecodeMode::Default,
                        switches: Vec::new(),
                        name: tagged_name("DSC", m.address),
                    };
                    segments.push(seg);
                    assert(segment_views(segments@) =~= segment_views(before).push(seg@));
                },
                None => {},
            }
        }
        i = i + 1;
        assert(segment_views(segments@) =~= dyld_segments(all, i as int));
    }
    if segments.len() == 0 {
        return Err(LoadError::NoMappings);
    }
    Ok(LoadedBinary::from_segments(arch, segments))
}

/// A mapping that has its bytes becomes a segment of them at its address with its
/// rights; pointers are looked for where it can be read and is no code.
pub proof fn law_mapping_becomes(mappings: Seq<DyldMappingView>, k: int)
    requires
        0 <= k < mappings.len(),
    ensures
        mappings[k].size == 0 || mappings[k].data is None ==> dyld_segments(mappings, k + 1)
            == dyld_segments(mappings, k),
        mappings[k].size != 0 && mappings[k].data is Some ==> ({
            let made = dyld_segments(mappings, k + 1);
            let own = made.last();
            &&& made.drop_last() == dyld_segments(mappings, k)
            &&& own.va == Va(mappings[k].address)
            &&& Some(own.data) == mappings[k].data
            &&& own.executable == mappings[k].executable
            &&& own.readable == mappings[k].readable
            &&& own.writable == mappings[k].writable
            &&& own.byte_scannable == (own.readable && !own.executable)
        }),
{
    if mappings[k].size != 0 && mappings[k].data is Some {
        assert(dyld_segments(mappings, k + 1).drop_last() =~= dyld_segments(mappings, k));
    }
}

} // verus!
