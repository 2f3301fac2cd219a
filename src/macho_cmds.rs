//! The load commands of a single-architecture Mach-O file, each decoded
//! from the bytes that follow its command and size words.

use vstd::prelude::*;
use crate::bytes::{
    fits, read_u32, read_u64, read_uint, trim_end_nuls, trim_nuls, u32_at, u64_at,
    uint_at, uint_size, find_nul, take_till_nul, nul_from,
};

verus! {

pub const LC_REQ_DYLD: u32 = 0x80000000;
pub const LC_SEGMENT: u32 = 0x00000001;
pub const LC_SYMTAB: u32 = 0x00000002;
pub const LC_UNIXTHREAD: u32 = 0x00000005;
pub const LC_DYSYMTAB: u32 = 0x0000000b;
pub const LC_LOAD_DYLIB: u32 = 0x0000000c;
pub const LC_ID_DYLIB: u32 = 0x0000000d;
pub const LC_LOAD_DYLINKER: u32 = 0x0000000e;
pub const LC_ID_DYLINKER: u32 = 0x0000000f;
pub const LC_LOAD_WEAK_DYLIB: u32 = 0x80000018;
pub const LC_SEGMENT_64: u32 = 0x00000019;
pub const LC_UUID: u32 = 0x0000001b;
pub const LC_RPATH: u32 = 0x8000001c;
pub const LC_CODE_SIGNATURE: u32 = 0x0000001d;
pub const LC_REEXPORT_DYLIB: u32 = 0x8000001f;
pub const LC_DYLD_INFO: u32 = 0x00000022;
pub const LC_DYLD_INFO_ONLY: u32 = 0x80000022;
pub const LC_VERSION_MIN_MACOSX: u32 = 0x00000024;
pub const LC_VERSION_MIN_IPHONEOS: u32 = 0x00000025;
pub const LC_DYLD_ENVIRONMENT: u32 = 0x00000027;
pub const LC_MAIN: u32 = 0x80000028;
pub const LC_SOURCE_VERSION: u32 = 0x0000002a;
pub const LC_LINKER_OPTION: u32 = 0x0000002d;
pub const LC_VERSION_MIN_TVOS: u32 = 0x0000002f;
pub const LC_VERSION_MIN_WATCHOS: u32 = 0x00000030;
pub const LC_BUILD_VERSION: u32 = 0x00000032;
pub const LC_DYLD_EXPORTS_TRIE: u32 = 0x80000033;
pub const LC_DYLD_CHAINED_FIXUPS: u32 = 0x80000034;

pub const CPU_TYPE_MC680X0: u32 = 0x00000006;
pub const CPU_TYPE_X86: u32 = 0x00000007;
pub const CPU_TYPE_X86_64: u32 = 0x01000007;
pub const CPU_TYPE_ARM: u32 = 0x0000000c;
pub const CPU_TYPE_ARM64: u32 = 0x0100000c;
pub const CPU_TYPE_MC88000: u32 = 0x0000000d;
pub const CPU_TYPE_SPARC: u32 = 0x0000000e;
pub const CPU_TYPE_POWERPC: u32 = 0x00000012;
pub const CPU_TYPE_POWERPC64: u32 = 0x01000012;

/// A section of a segment.
#[derive(Debug, Clone, PartialEq, Eq)]
pub struct Section {
    pub sectname: Vec<u8>,
    pub segname: Vec<u8>,
    pub addr: u64,
    pub size: u64,
    pub offset: u32,
    pub align: u32,
    pub reloff: u32,
    pub nreloc: u32,
    pub flags: u32,
    pub reserved1: u32,
    pub reserved2: u32,
    /// Present in 64-bit files only.
    pub reserved3: Option<u32>,
}

/// A segment, from an `LC_SEGMENT` or `LC_SEGMENT_64` command.
#[derive(Debug, Clone, PartialEq, Eq)]
pub struct Segment {
    pub segname: Vec<u8>,
    pub vmaddr: u64,
    pub vmsize: u64,
    pub fileoff: u64,
    pub filesize: u64,
    pub maxprot: u32,
    pub initprot: u32,
    pub nsects: u32,
    pub flags: u32,
    pub sections: Vec<Section>,
}

/// A dynamic library reference.
#[derive(Debug, Clone, PartialEq, Eq)]
pub struct Dylib {
    pub name: Vec<u8>,
    pub timestamp: u32,
    pub current_version: u32,
    pub compatibility_version: u32,
}

/// One named entry of the symbol table.
#[derive(Debug, Clone, PartialEq, Eq)]
pub struct SymbolTableEntry {
    pub tags: u8,
    pub value: Vec<u8>,
}

/// The `LC_SYMTAB` command, with the entries read from the table it points to.
#[derive(Debug, Clone, PartialEq, Eq)]
pub struct Symtab {
    pub symoff: u32,
    pub nsyms: u32,
    pub stroff: u32,
    pub strsize: u32,
    pub entries: Vec<SymbolTableEntry>,
}

/// The `LC_DYSYMTAB` command.
#[derive(Debug, Clone, Copy, PartialEq, Eq)]
pub struct Dysymtab {
    pub ilocalsym: u32,
    pub nlocalsym: u32,
    pub iextdefsym: u32,
    pub nextdefsym: u32,
    pub tocoff: u32,
    pub ntoc: u32,
    pub modtaboff: u32,
    pub nmodtab: u32,
    pub extrefsymoff: u32,
    pub nextrefsyms: u32,
    pub indirectsymoff: u32,
    pub nindirectsyms: u32,
    pub extreloff: u32,
    pub nextrel: u32,
    pub locreloff: u32,
    pub nlocrel: u32,
}

/// A region of the link-edit data: offset and size.
#[derive(Debug, Clone, Copy, PartialEq, Eq)]
pub struct LinkedItData {
    pub dataoff: u32,
    pub datasize: u32,
}

/// The `LC_DYLD_INFO` and `LC_DYLD_INFO_ONLY` commands.
#[derive(Debug, Clone, Copy, PartialEq, Eq)]
pub struct DyldInfo {
    pub rebase_off: u32,
    pub rebase_size: u32,
    pub bind_off: u32,
    pub bind_size: u32,
    pub weak_bind_off: u32,
    pub weak_bind_size: u32,
    pub lazy_bind_off: u32,
    pub lazy_bind_size: u32,
    pub export_off: u32,
    pub export_size: u32,
}

/// A tool of a build version command.
#[derive(Debug, Clone, Copy, PartialEq, Eq)]
pub struct BuildToolObject {
    pub tool: u32,
    pub version: u32,
}

/// The `LC_BUILD_VERSION` command.
#[derive(Debug, Clone, PartialEq, Eq)]
pub struct BuildVersionCommand {
    pub platform: u32,
    pub minos: u32,
    pub sdk: u32,
    pub tools: Vec<BuildToolObject>,
}

/// One of the `LC_VERSION_MIN_*` commands; `device` is the command itself.
#[derive(Debug, Clone, Copy, PartialEq, Eq)]
pub struct MinVersion {
    pub device: u32,
    pub version: u32,
    pub sdk: u32,
}

/// A decoded load command.
#[derive(Debug, Clone, PartialEq, Eq)]
pub enum LoadCommand {
    Main { entry_offset: u64, stack_size: u64 },
    Thread { entry_rva: u64 },
    Segment(Segment),
    Rpath(Vec<u8>),
    Dylib(Dylib),
    SourceVersion(u64),
    Dylinker(Vec<u8>),
    Symtab(Symtab),
    Dysymtab(Dysymtab),
    CodeSignature(LinkedItData),
    ExportsTrie(LinkedItData),
    ChainedFixups(LinkedItData),
    DyldInfo(DyldInfo),
    Uuid(Vec<u8>),
    BuildVersion(BuildVersionCommand),
    MinVersion(MinVersion),
    LinkerOptions(Vec<Vec<u8>>),
    /// A command this parser does not decode.
    Other,
}

/// The size of a section record.
pub open spec fn section_size(is_32: bool) -> int {
    if is_32 {
        68
    } else {
        80
    }
}

/// The size of a segment command's fixed part, before its sections.
pub open spec fn segment_head_size(is_32: bool) -> int {
    16 + 4 * uint_size(is_32) + 16
}

/// `sec` is the section record stored at `off`.
pub open spec fn section_read(sec: Section, s: Seq<u8>, off: int, big: bool, is_32: bool) -> bool {
    let w = uint_size(is_32);
    &&& sec.sectname@ == trim_nuls(s.subrange(off, off + 16))
    &&& sec.segname@ == trim_nuls(s.subrange(off + 16, off + 32))
    &&& sec.addr == uint_at(s, off + 32, big, is_32)
    &&& sec.size == uint_at(s, off + 32 + w, big, is_32)
    &&& sec.offset == u32_at(s, off + 32 + 2 * w, big)
    &&& sec.align == u32_at(s, off + 36 + 2 * w, big)
    &&& sec.reloff == u32_at(s, off + 40 + 2 * w, big)
    &&& sec.nreloc == u32_at(s, off + 44 + 2 * w, big)
    &&& sec.flags == u32_at(s, off + 48 + 2 * w, big)
    &&& sec.reserved1 == u32_at(s, off + 52 + 2 * w, big)
    &&& sec.reserved2 == u32_at(s, off + 56 + 2 * w, big)
    &&& sec.reserved3 == (if is_32 { None } else { Some(u32_at(s, off + 76, big)) })
}

/// Decodes the section record at `off`.
fn section(d: &[u8], off: usize, big: bool, is_32: bool) -> (r: Option<Section>)
    ensures
        match r {
            Some(sec) => fits(d@, off as int, section_size(is_32)) && section_read(sec, d@, off as int, big, is_32),
            None => !fits(d@, off as int, section_size(is_32)),
        },
{
    let size: usize = if is_32 { 68 } else { 80 };
    if off > d.len() || d.len() - off < size {
        return None;
    }
    let w: usize = if is_32 { 4 } else { 8 };
    let sectname = trim_end_nuls(&d[off..off + 16]);
    let segname = trim_end_nuls(&d[off + 16..off + 32]);
    let addr = read_uint(d, off + 32, big, is_32).unwrap();
    let sz = read_uint(d, off + 32 + w, big, is_32).unwrap();
    let base = off + 32 + 2 * w;
    let reserved3 = if is_32 { None } else { Some(read_u32(d, off + 76, big).unwrap()) };
    Some(Section {
        sectname,
        segname,
        addr,
        size: sz,
        offset: read_u32(d, base, big).unwrap(),
        align: read_u32(d, base + 4, big).unwrap(),
        reloff: read_u32(d, base + 8, big).unwrap(),
        nreloc: read_u32(d, base + 12, big).unwrap(),
        flags: read_u32(d, base + 16, big).unwrap(),
        reserved1: read_u32(d, base + 20, big).unwrap(),
        reserved2: read_u32(d, base + 24, big).unwrap(),
        reserved3,
    })
}

/// The fixed part of `seg` is the segment command head at the start of `s`,
/// and each of its sections the record that follows in turn.
pub open spec fn segment_read(seg: Segment, s: Seq<u8>, big: bool, is_32: bool) -> bool {
    let w = uint_size(is_32);
    &&& seg.segname@ == trim_nuls(s.subrange(0, 16))
    &&& seg.vmaddr == uint_at(s, 16, big, is_32)
    &&& seg.vmsize == uint_at(s, 16 + w, big, is_32)
    &&& seg.fileoff == uint_at(s, 16 + 2 * w, big, is_32)
    &&& seg.filesize == uint_at(s, 16 + 3 * w, big, is_32)
    &&& seg.maxprot == u32_at(s, 16 + 4 * w, big)
    &&& seg.initprot == u32_at(s, 20 + 4 * w, big)
    &&& seg.nsects == u32_at(s, 24 + 4 * w, big)
    &&& seg.flags == u32_at(s, 28 + 4 * w, big)
    &&& seg.sections@.len() == seg.nsects
    &&& forall|i: int|
        0 <= i < seg.sections@.len() ==> section_read(
            #[trigger] seg.sections@[i],
            s,
            segment_head_size(is_32) + i * section_size(is_32),
            big,
            is_32,
        )
}

/// The bytes hold a whole segment command: its head and `nsects` sections.
pub open spec fn segment_fits(s: Seq<u8>, big: bool, is_32: bool) -> bool {
    &&& fits(s, 0, segment_head_size(is_32))
    &&& segment_head_size(is_32) + u32_at(s, 24 + 4 * uint_size(is_32), big) * section_size(is_32) <= s.len()
}

/// Decodes an `LC_SEGMENT` or `LC_SEGMENT_64` command.
pub fn segment_command(d: &[u8], big: bool, is_32: bool) -> (r: Option<Segment>)
    ensures
        match r {
            Some(seg) => segment_fits(d@, big, is_32) && segment_read(seg, d@, big, is_32),
            None => !segment_fits(d@, big, is_32),
        },
{
    let w: usize = if is_32 { 4 } else { 8 };
    let head: usize = 16 + 4 * w + 16;
    if d.len() < head {
        return None;
    }
    let segname = trim_end_nuls(&d[0..16]);
    let vmaddr = read_uint(d, 16, big, is_32).unwrap();
    let vmsize = read_uint(d, 16 + w, big, is_32).unwrap();
    let fileoff = read_uint(d, 16 + 2 * w, big, is_32).unwrap();
    let filesize = read_uint(d, 16 + 3 * w, big, is_32).unwrap();
    let maxprot = read_u32(d, 16 + 4 * w, big).unwrap();
    let initprot = read_u32(d, 20 + 4 * w, big).unwrap();
    let nsects = read_u32(d, 24 + 4 * w, big).unwrap();
    let flags = read_u32(d, 28 + 4 * w, big).unwrap();
    let size: usize = if is_32 { 68 } else { 80 };
    let mut sections: Vec<Section> = Vec::new();
    let mut i: u32 = 0;
    let mut off: usize = head;
    while i < nsects
        invariant
            i <= nsects,
            head == segment_head_size(is_32),
            size == section_size(is_32),
            off == head + i * size,
            off <= d.len(),
            nsects == u32_at(d@, 24 + 4 * uint_size(is_32), big),
            sections@.len() == i,
            forall|k: int|
                0 <= k < i ==> section_read(#[trigger] sections@[k], d@, head + k * size, big, is_32),
        decreases nsects - i,
    {
        match section(d, off, big, is_32) {
            Some(sec) => {
                sections.push(sec);
            },
            None => {
                proof {
                    assert(head + nsects * size >= head + (i + 1) * size) by (nonlinear_arith)
                        requires
                            i < nsects,
                            size > 0,
                    ;
                }
                return None;
            },
        }
        off = off + size;
        i = i + 1;
        proof {
            assert(off == head + i * size) by (nonlinear_arith)
                requires
                    off == head + (i - 1) * size + size,
            ;
        }
    }
    Some(Segment {
        segname,
        vmaddr,
        vmsize,
        fileoff,
        filesize,
        maxprot,
        initprot,
        nsects,
        flags,
        sections,
    })
}

/// Decodes an `LC_DYSYMTAB` command.
pub fn dysymtab_command(d: &[u8], big: bool) -> (r: Option<Dysymtab>)
    ensures
        match r {
            Some(t) => fits(d@, 0, 64) && t.ilocalsym == u32_at(d@, 0, big) && t.nlocalsym == u32_at(d@, 4, big)
                && t.iextdefsym == u32_at(d@, 8, big) && t.nextdefsym == u32_at(d@, 12, big)
                && t.tocoff == u32_at(d@, 16, big) && t.ntoc == u32_at(d@, 20, big)
                && t.modtaboff == u32_at(d@, 24, big) && t.nmodtab == u32_at(d@, 28, big)
                && t.extrefsymoff == u32_at(d@, 32, big) && t.nextrefsyms == u32_at(d@, 36, big)
                && t.indirectsymoff == u32_at(d@, 40, big) && t.nindirectsyms == u32_at(d@, 44, big)
                && t.extreloff == u32_at(d@, 48, big) && t.nextrel == u32_at(d@, 52, big)
                && t.locreloff == u32_at(d@, 56, big) && t.nlocrel == u32_at(d@, 60, big),
            None => !fits(d@, 0, 64),
        },
{
    if d.len() < 64 {
        return None;
    }
    Some(Dysymtab {
        ilocalsym: read_u32(d, 0, big).unwrap(),
        nlocalsym: read_u32(d, 4, big).unwrap(),
        iextdefsym: read_u32(d, 8, big).unwrap(),
        nextdefsym: read_u32(d, 12, big).unwrap(),
        tocoff: read_u32(d, 16, big).unwrap(),
        ntoc: read_u32(d, 20, big).unwrap(),
        modtaboff: read_u32(d, 24, big).unwrap(),
        nmodtab: read_u32(d, 28, big).unwrap(),
        extrefsymoff: read_u32(d, 32, big).unwrap(),
        nextrefsyms: read_u32(d, 36, big).unwrap(),
        indirectsymoff: read_u32(d, 40, big).unwrap(),
        nindirectsyms: read_u32(d, 44, big).unwrap(),
        extreloff: read_u32(d, 48, big).unwrap(),
        nextrel: read_u32(d, 52, big).unwrap(),
        locreloff: read_u32(d, 56, big).unwrap(),
        nlocrel: read_u32(d, 60, big).unwrap(),
    })
}

/// Decodes an `LC_DYLD_INFO` or `LC_DYLD_INFO_ONLY` command.
pub fn dyld_info_command(d: &[u8], big: bool) -> (r: Option<DyldInfo>)
    ensures
        match r {
            Some(t) => fits(d@, 0, 40) && t.rebase_off == u32_at(d@, 0, big) && t.rebase_size == u32_at(d@, 4, big)
                && t.bind_off == u32_at(d@, 8, big) && t.bind_size == u32_at(d@, 12, big)
                && t.weak_bind_off == u32_at(d@, 16, big) && t.weak_bind_size == u32_at(d@, 20, big)
                && t.lazy_bind_off == u32_at(d@, 24, big) && t.lazy_bind_size == u32_at(d@, 28, big)
                && t.export_off == u32_at(d@, 32, big) && t.export_size == u32_at(d@, 36, big),
            None => !fits(d@, 0, 40),
        },
{
    if d.len() < 40 {
        return None;
    }
    Some(DyldInfo {
        rebase_off: read_u32(d, 0, big).unwrap(),
        rebase_size: read_u32(d, 4, big).unwrap(),
        bind_off: read_u32(d, 8, big).unwrap(),
        bind_size: read_u32(d, 12, big).unwrap(),
        weak_bind_off: read_u32(d, 16, big).unwrap(),
        weak_bind_size: read_u32(d, 20, big).unwrap(),
        lazy_bind_off: read_u32(d, 24, big).unwrap(),
        lazy_bind_size: read_u32(d, 28, big).unwrap(),
        export_off: read_u32(d, 32, big).unwrap(),
        export_size: read_u32(d, 36, big).unwrap(),
    })
}

/// Decodes a link-edit data command: a data offset and a size.
pub fn linkeditdata_command(d: &[u8], big: bool) -> (r: Option<LinkedItData>)
    ensures
        match r {
            Some(t) => fits(d@, 0, 8) && t.dataoff == u32_at(d@, 0, big) && t.datasize == u32_at(d@, 4, big),
            None => !fits(d@, 0, 8),
        },
{
    if d.len() < 8 {
        return None;
    }
    Some(LinkedItData { dataoff: read_u32(d, 0, big).unwrap(), datasize: read_u32(d, 4, big).unwrap() })
}

/// Decodes an `LC_SYMTAB` command; its entries are read later.
pub fn symtab_command(d: &[u8], big: bool) -> (r: Option<Symtab>)
    ensures
        match r {
            Some(t) => fits(d@, 0, 16) && t.symoff == u32_at(d@, 0, big) && t.nsyms == u32_at(d@, 4, big)
                && t.stroff == u32_at(d@, 8, big) && t.strsize == u32_at(d@, 12, big)
                && t.entries@.len() == 0,
            None => !fits(d@, 0, 16),
        },
{
    if d.len() < 16 {
        return None;
    }
    Some(Symtab {
        symoff: read_u32(d, 0, big).unwrap(),
        nsyms: read_u32(d, 4, big).unwrap(),
        stroff: read_u32(d, 8, big).unwrap(),
        strsize: read_u32(d, 12, big).unwrap(),
        entries: Vec::new(),
    })
}

/// Decodes a dylib command: four words, then the name up to a NUL byte.
pub fn dylib_command(d: &[u8], big: bool) -> (r: Option<Dylib>)
    ensures
        match r {
            Some(t) => fits(d@, 0, 16) && t.timestamp == u32_at(d@, 4, big)
                && t.current_version == u32_at(d@, 8, big)
                && t.compatibility_version == u32_at(d@, 12, big)
                && t.name@ == take_till_nul(d@, 16),
            None => !fits(d@, 0, 16),
        },
{
    if d.len() < 16 {
        return None;
    }
    let end = find_nul(d, 16);
    Some(Dylib {
        name: vstd::slice::slice_to_vec(&d[16..end]),
        timestamp: read_u32(d, 4, big).unwrap(),
        current_version: read_u32(d, 8, big).unwrap(),
        compatibility_version: read_u32(d, 12, big).unwrap(),
    })
}

/// Decodes a command made of one word and a string up to a NUL byte, as
/// `LC_RPATH` and the dynamic linker commands are.
pub fn string_command(d: &[u8]) -> (r: Option<Vec<u8>>)
    ensures
        match r {
            Some(t) => fits(d@, 0, 4) && t@ == take_till_nul(d@, 4),
            None => !fits(d@, 0, 4),
        },
{
    if d.len() < 4 {
        return None;
    }
    let end = find_nul(d, 4);
    Some(vstd::slice::slice_to_vec(&d[4..end]))
}

/// Decodes an `LC_UUID` command.
pub fn uuid_command(d: &[u8]) -> (r: Option<Vec<u8>>)
    ensures
        match r {
            Some(t) => fits(d@, 0, 16) && t@ == trim_nuls(d@.subrange(0, 16)),
            None => !fits(d@, 0, 16),
        },
{
    if d.len() < 16 {
        return None;
    }
    Some(trim_end_nuls(&d[0..16]))
}

/// `tools` are the `n` tool records that start at `off`.
pub open spec fn tools_read(tools: Seq<BuildToolObject>, s: Seq<u8>, off: int, big: bool) -> bool {
    forall|i: int|
        0 <= i < tools.len() ==> (#[trigger] tools[i]).tool == u32_at(s, off + 8 * i, big)
            && tools[i].version == u32_at(s, off + 8 * i + 4, big)
}

/// Decodes an `LC_BUILD_VERSION` command and its tool records.
pub fn build_version_command(d: &[u8], big: bool) -> (r: Option<BuildVersionCommand>)
    ensures
        match r {
            Some(t) => fits(d@, 0, 16) && 16 + 8 * u32_at(d@, 12, big) <= d@.len()
                && t.platform == u32_at(d@, 0, big) && t.minos == u32_at(d@, 4, big)
                && t.sdk == u32_at(d@, 8, big) && t.tools@.len() == u32_at(d@, 12, big)
                && tools_read(t.tools@, d@, 16, big),
            None => !fits(d@, 0, 16) || 16 + 8 * u32_at(d@, 12, big) > d@.len(),
        },
{
    if d.len() < 16 {
        return None;
    }
    let ntools = read_u32(d, 12, big).unwrap();
    let mut tools: Vec<BuildToolObject> = Vec::new();
    let mut i: u32 = 0;
    let mut off: usize = 16;
    while i < ntools
        invariant
            i <= ntools,
            off == 16 + 8 * i,
            d@.len() >= 16,
            ntools == u32_at(d@, 12, big),
            tools@.len() == i,
            16 + 8 * i <= d@.len(),
            tools_read(tools@, d@, 16, big),
        decreases ntools - i,
    {
        if d.len() - off < 8 {
            return None;
        }
        let tool = read_u32(d, off, big).unwrap();
        let version = read_u32(d, off + 4, big).unwrap();
        tools.push(BuildToolObject { tool, version });
        i = i + 1;
        off = off + 8;
    }
    Some(BuildVersionCommand {
        platform: read_u32(d, 0, big).unwrap(),
        minos: read_u32(d, 4, big).unwrap(),
        sdk: read_u32(d, 8, big).unwrap(),
        tools,
    })
}

/// The NUL-terminated strings of a linker option command: `n` strings from
/// `off`, or `None` when one of them has no terminating NUL byte.
pub open spec fn nul_strings(s: Seq<u8>, off: int, n: nat) -> Option<Seq<Seq<u8>>>
    decreases n,
{
    if n == 0 {
        Some(Seq::empty())
    } else if nul_from(s, off) >= s.len() {
        None
    } else {
        match nul_strings(s, nul_from(s, off) + 1, (n - 1) as nat) {
            Some(rest) => Some(seq![take_till_nul(s, off)] + rest),
            None => None,
        }
    }
}

/// Decodes an `LC_LINKER_OPTION` command: a count, then that many
/// NUL-terminated strings.
pub fn linker_options_command(d: &[u8], big: bool) -> (r: Option<Vec<Vec<u8>>>)
    ensures
        match r {
            Some(t) => fits(d@, 0, 4) && nul_strings(d@, 4, u32_at(d@, 0, big) as nat) == Some(t@.map_values(|v: Vec<u8>| v@)),
            None => !fits(d@, 0, 4) || nul_strings(d@, 4, u32_at(d@, 0, big) as nat).is_none(),
        },
{
    if d.len() < 4 {
        return None;
    }
    let n = read_u32(d, 0, big).unwrap();
    let mut out: Vec<Vec<u8>> = Vec::new();
    let mut i: u32 = 0;
    let mut off: usize = 4;
    while i < n
        invariant
            i <= n,
            4 <= off <= d.len(),
            n == u32_at(d@, 0, big),
            nul_strings(d@, 4, n as nat) == (match nul_strings(d@, off as int, (n - i) as nat) {
                Some(rest) => Some(out@.map_values(|v: Vec<u8>| v@) + rest),
                None => None::<Seq<Seq<u8>>>,
            }),
        decreases n - i,
    {
        let end = find_nul(d, off);
        if end >= d.len() {
            return None;
        }
        let ghost before = out@.map_values(|v: Vec<u8>| v@);
        out.push(vstd::slice::slice_to_vec(&d[off..end]));
        proof {
            assert(out@.map_values(|v: Vec<u8>| v@) =~= before.push(d@.subrange(off as int, end as int)));
            let tail = nul_strings(d@, end + 1, (n - i - 1) as nat);
            if let Some(rest) = tail {
                assert(before + (seq![take_till_nul(d@, off as int)] + rest) =~= before.push(d@.subrange(off as int, end as int)) + rest);
            }
        }
        off = end + 1;
        i = i + 1;
    }
    proof {
        assert(out@.map_values(|v: Vec<u8>| v@) + Seq::<Seq<u8>>::empty() =~= out@.map_values(|v: Vec<u8>| v@));
    }
    Some(out)
}

/// The size of the register state of a thread command for `cputype`, the
/// offset of its program counter and whether that counter is 64 bits wide.
pub open spec fn thread_layout(cputype: u32) -> (int, int, bool) {
    if cputype == CPU_TYPE_X86 {
        (64, 40, false)
    } else if cputype == CPU_TYPE_X86_64 {
        (168, 128, true)
    } else if cputype == CPU_TYPE_ARM {
        (68, 60, false)
    } else if cputype == CPU_TYPE_ARM64 {
        (268, 256, true)
    } else if cputype == CPU_TYPE_POWERPC {
        (160, 0, false)
    } else if cputype == CPU_TYPE_POWERPC64 {
        (308, 0, true)
    } else if cputype == CPU_TYPE_MC680X0 {
        (72, 68, false)
    } else if cputype == CPU_TYPE_MC88000 {
        (136, 124, false)
    } else if cputype == CPU_TYPE_SPARC {
        (72, 4, false)
    } else {
        (0, 0, false)
    }
}

/// The entry point a thread command gives: the program counter of its
/// register state, or zero for a CPU whose state is not decoded.
pub open spec fn thread_entry(s: Seq<u8>, big: bool, cputype: u32) -> Option<u64> {
    let (size, pc, wide) = thread_layout(cputype);
    if !fits(s, 0, 8 + size) {
        None
    } else if size == 0 {
        Some(0)
    } else if wide {
        Some(u64_at(s, 8 + pc, big))
    } else {
        Some(u32_at(s, 8 + pc, big) as u64)
    }
}

/// Decodes an `LC_UNIXTHREAD` command into the entry point it sets.
pub fn thread_command(d: &[u8], big: bool, cputype: u32) -> (r: Option<u64>)
    ensures
        r == thread_entry(d@, big, cputype),
{
    let (size, pc, wide): (usize, usize, bool) = if cputype == CPU_TYPE_X86 {
        (64, 40, false)
    } else if cputype == CPU_TYPE_X86_64 {
        (168, 128, true)
    } else if cputype == CPU_TYPE_ARM {
        (68, 60, false)
    } else if cputype == CPU_TYPE_ARM64 {
        (268, 256, true)
    } else if cputype == CPU_TYPE_POWERPC {
        (160, 0, false)
    } else if cputype == CPU_TYPE_POWERPC64 {
        (308, 0, true)
    } else if cputype == CPU_TYPE_MC680X0 {
        (72, 68, false)
    } else if cputype == CPU_TYPE_MC88000 {
        (136, 124, false)
    } else if cputype == CPU_TYPE_SPARC {
        (72, 4, false)
    } else {
        (0, 0, false)
    };
    if d.len() < 8 + size {
        None
    } else if size == 0 {
        Some(0)
    } else if wide {
        read_u64(d, 8 + pc, big)
    } else {
        match read_u32(d, 8 + pc, big) {
            Some(v) => Some(v as u64),
            None => None,
        }
    }
}

} // verus!
