//! Mach-O files: FAT containers and single-architecture images, parsed
//! best-effort into plain fields.

use vstd::prelude::*;
use crate::bytes::{fits, read_u32, read_uint, take_till_nul, trim_nuls, u32_at, u64_at, uint_at, uint_size};
use crate::bytes::read_u64;
use crate::macho_codesign::{ents, sig_blobs};
use crate::macho_linkedit::{entries_view, linkedit_blobs, linkedit_ents, linkedit_exports, linkedit_imports, linkedit_symbols};
use crate::macho_cmds::{
    LoadCommand, LC_SEGMENT, LC_SEGMENT_64, LC_UNIXTHREAD, LC_SYMTAB, LC_DYSYMTAB, LC_DYLD_INFO, LC_DYLD_INFO_ONLY,
    LC_MAIN, LC_RPATH, LC_LOAD_DYLIB, LC_ID_DYLIB, LC_LOAD_WEAK_DYLIB, LC_REEXPORT_DYLIB, LC_SOURCE_VERSION,
    LC_ID_DYLINKER, LC_LOAD_DYLINKER, LC_DYLD_ENVIRONMENT, LC_CODE_SIGNATURE, LC_DYLD_EXPORTS_TRIE,
    LC_DYLD_CHAINED_FIXUPS, LC_UUID, LC_BUILD_VERSION, LC_VERSION_MIN_MACOSX, LC_VERSION_MIN_IPHONEOS,
    LC_VERSION_MIN_TVOS, LC_VERSION_MIN_WATCHOS, LC_LINKER_OPTION, Segment, Dylib, Symtab, Dysymtab, DyldInfo,
    LinkedItData, BuildVersionCommand, MinVersion, segment_fits, segment_read, thread_entry, thread_command,
    segment_command, string_command, dylib_command, symtab_command, dysymtab_command, linkeditdata_command,
    dyld_info_command, uuid_command, build_version_command, linker_options_command, nul_strings, tools_read,
};

verus! {

pub const MH_MAGIC: u32 = 0xfeedface;
pub const MH_CIGAM: u32 = 0xcefaedfe;
pub const MH_MAGIC_64: u32 = 0xfeedfacf;
pub const MH_CIGAM_64: u32 = 0xcffaedfe;
pub const FAT_MAGIC: u32 = 0xcafebabe;
pub const FAT_CIGAM: u32 = 0xbebafeca;
pub const FAT_MAGIC_64: u32 = 0xcafebabf;
pub const FAT_CIGAM_64: u32 = 0xbfbafeca;

/// Why a Mach-O file could not be parsed at all.
#[derive(Debug, Clone, Copy, PartialEq, Eq, Structural)]
pub enum MachOError {
    /// The first word is not a Mach-O or FAT magic number.
    BadMagic,
    /// The file ends inside its header or its architecture table.
    Truncated,
}

/// The header of a single-architecture image.
#[derive(Debug, Clone, Copy, PartialEq, Eq, Structural)]
pub struct MachOHeader {
    pub magic: u32,
    pub cputype: u32,
    pub cpusubtype: u32,
    pub filetype: u32,
    pub ncmds: u32,
    pub sizeofcmds: u32,
    pub flags: u32,
    /// Present in 64-bit images only.
    pub reserved: Option<u32>,
}

/// One entry of a FAT file's architecture table.
#[derive(Debug, Clone, Copy, PartialEq, Eq, Structural)]
pub struct FatArch {
    pub cputype: u32,
    pub cpusubtype: u32,
    pub offset: u64,
    pub size: u64,
    pub align: u32,
    pub reserved: u32,
}

/// A single-architecture Mach-O image.
#[derive(Debug, Clone, PartialEq, Eq)]
pub struct MachOFile {
    pub big_endian: bool,
    pub is_32_bits: bool,
    pub header: MachOHeader,
    pub entry_point_offset: Option<u64>,
    pub entry_point_rva: Option<u64>,
    pub stack_size: Option<u64>,
    pub segments: Vec<Segment>,
    pub dylibs: Vec<Dylib>,
    pub symtab: Option<Symtab>,
    pub dysymtab: Option<Dysymtab>,
    pub dyld_info: Option<DyldInfo>,
    pub dyld_export_trie: Option<LinkedItData>,
    pub dyld_chain_fixups: Option<LinkedItData>,
    pub dynamic_linker: Option<Vec<u8>>,
    pub linker_options: Vec<Vec<u8>>,
    pub source_version: Option<u64>,
    pub rpaths: Vec<Vec<u8>>,
    pub uuid: Option<Vec<u8>>,
    pub code_signature_data: Option<LinkedItData>,
    pub entitlements: Vec<String>,
    /// The CMS blobs of the code signature, which hold its certificates.
    pub signature_blobs: Vec<Vec<u8>>,
    pub build_version: Option<BuildVersionCommand>,
    pub min_version: Option<MinVersion>,
    pub exports: Vec<String>,
    pub imports: Vec<String>,
}

/// A Mach-O file: a FAT container of several images, or a single image.
#[derive(Debug, Clone, PartialEq, Eq)]
pub struct MachO {
    /// The FAT magic number, `None` for a single-architecture file.
    pub fat_magic: Option<u32>,
    /// The FAT architecture table; empty for a single-architecture file.
    pub archs: Vec<FatArch>,
    /// The images that could be parsed.
    pub files: Vec<MachOFile>,
}

pub open spec fn is_mh_magic(m: u32) -> bool {
    m == MH_MAGIC || m == MH_CIGAM || m == MH_MAGIC_64 || m == MH_CIGAM_64
}

pub open spec fn is_fat_magic(m: u32) -> bool {
    m == FAT_MAGIC || m == FAT_CIGAM || m == FAT_MAGIC_64 || m == FAT_CIGAM_64
}

/// The byte order that a magic number (read big-endian) announces.
pub open spec fn magic_big(m: u32) -> bool {
    m == MH_MAGIC || m == MH_MAGIC_64 || m == FAT_MAGIC || m == FAT_MAGIC_64
}

/// The word width that a magic number announces.
pub open spec fn magic_32(m: u32) -> bool {
    m == MH_MAGIC || m == MH_CIGAM || m == FAT_MAGIC || m == FAT_CIGAM
}

/// The size of an image header, magic included.
pub open spec fn header_size(is_32: bool) -> int {
    if is_32 {
        28
    } else {
        32
    }
}

/// The header stored at the start of `s`.
pub open spec fn header_at(s: Seq<u8>, magic: u32) -> MachOHeader {
    let big = magic_big(magic);
    MachOHeader {
        magic,
        cputype: u32_at(s, 4, big),
        cpusubtype: u32_at(s, 8, big),
        filetype: u32_at(s, 12, big),
        ncmds: u32_at(s, 16, big),
        sizeofcmds: u32_at(s, 20, big),
        flags: u32_at(s, 24, big),
        reserved: if magic_32(magic) { None } else { Some(u32_at(s, 28, big)) },
    }
}

/// `s` starts with a complete image header.
pub open spec fn image_header_ok(s: Seq<u8>) -> bool {
    fits(s, 0, 4) && is_mh_magic(u32_at(s, 0, true)) && fits(s, 0, header_size(magic_32(u32_at(s, 0, true))))
}

/// The size of an architecture table entry.
pub open spec fn fat_arch_size(is_32: bool) -> int {
    if is_32 {
        20
    } else {
        32
    }
}

/// The architecture table entry stored at `off`.
pub open spec fn fat_arch_at(s: Seq<u8>, off: int, big: bool, is_32: bool) -> FatArch {
    let w = uint_size(is_32);
    FatArch {
        cputype: u32_at(s, off, big),
        cpusubtype: u32_at(s, off + 4, big),
        offset: uint_at(s, off + 8, big, is_32),
        size: uint_at(s, off + 8 + w, big, is_32),
        align: u32_at(s, off + 8 + 2 * w, big),
        reserved: if is_32 { 0 } else { u32_at(s, off + 28, big) },
    }
}

/// `s` starts with a FAT magic and a complete architecture table.
pub open spec fn fat_table_ok(s: Seq<u8>) -> bool {
    let m = u32_at(s, 0, true);
    &&& fits(s, 0, 8)
    &&& is_fat_magic(m)
    &&& 8 + u32_at(s, 4, magic_big(m)) * fat_arch_size(magic_32(m)) <= s.len()
}

/// Where the image that `a` describes ends in the data: its offset plus its
/// size, saturating.
pub open spec fn arch_end(a: FatArch) -> int {
    let start = a.offset as usize as int;
    let size = a.size as usize as int;
    if start + size > usize::MAX { usize::MAX as int } else { start + size }
}

/// The image that `a` describes lies inside the data.
pub open spec fn arch_in_data(data: Seq<u8>, a: FatArch) -> bool {
    a.offset as usize as int <= arch_end(a) && arch_end(a) <= data.len()
}

/// The images of a FAT file that lie inside the data and start with a
/// complete image header, in the order of `archs`.
pub open spec fn fat_images(data: Seq<u8>, archs: Seq<FatArch>) -> Seq<Seq<u8>>
    decreases archs.len(),
{
    if archs.len() == 0 {
        Seq::empty()
    } else {
        let a = archs.last();
        let image = data.subrange(a.offset as usize as int, arch_end(a));
        fat_images(data, archs.drop_last()) + if arch_in_data(data, a) && image_header_ok(image) {
            seq![image]
        } else {
            Seq::empty()
        }
    }
}

/// Each of `files` is what parsing the matching image yields.
pub open spec fn images_ok(images: Seq<Seq<u8>>, files: Seq<MachOFile>) -> bool {
    &&& files.len() == images.len()
    &&& forall|i: int| 0 <= i < files.len() ==> image_ok(images[i], #[trigger] files[i])
}

/// `b` agrees with `a` on the header and on every field that load commands
/// set, except the entry point offset.
pub open spec fn same_commands(a: MachOFile, b: MachOFile) -> bool {
    &&& b.header == a.header
    &&& b.big_endian == a.big_endian
    &&& b.is_32_bits == a.is_32_bits
    &&& b.entry_point_rva == a.entry_point_rva
    &&& b.stack_size == a.stack_size
    &&& b.segments == a.segments
    &&& b.dylibs == a.dylibs
    &&& b.dysymtab == a.dysymtab
    &&& b.dyld_info == a.dyld_info
    &&& b.dyld_export_trie == a.dyld_export_trie
    &&& b.dyld_chain_fixups == a.dyld_chain_fixups
    &&& b.dynamic_linker == a.dynamic_linker
    &&& b.linker_options == a.linker_options
    &&& b.source_version == a.source_version
    &&& b.rpaths == a.rpaths
    &&& b.uuid == a.uuid
    &&& b.code_signature_data == a.code_signature_data
    &&& b.build_version == a.build_version
    &&& b.min_version == a.min_version
}

/// `t` holds the sixteen words of an `LC_DYSYMTAB` command's data.
pub open spec fn dysymtab_read(t: Dysymtab, d: Seq<u8>, big: bool) -> bool {
    t.ilocalsym == u32_at(d, 0, big) && t.nlocalsym == u32_at(d, 4, big) && t.iextdefsym == u32_at(d, 8, big)
        && t.nextdefsym == u32_at(d, 12, big) && t.tocoff == u32_at(d, 16, big) && t.ntoc == u32_at(d, 20, big)
        && t.modtaboff == u32_at(d, 24, big) && t.nmodtab == u32_at(d, 28, big) && t.extrefsymoff == u32_at(d, 32, big)
        && t.nextrefsyms == u32_at(d, 36, big) && t.indirectsymoff == u32_at(d, 40, big)
        && t.nindirectsyms == u32_at(d, 44, big) && t.extreloff == u32_at(d, 48, big) && t.nextrel == u32_at(d, 52, big)
        && t.locreloff == u32_at(d, 56, big) && t.nlocrel == u32_at(d, 60, big)
}

/// `t` holds the ten words of an `LC_DYLD_INFO` command's data.
pub open spec fn dyld_info_read(t: DyldInfo, d: Seq<u8>, big: bool) -> bool {
    t.rebase_off == u32_at(d, 0, big) && t.rebase_size == u32_at(d, 4, big) && t.bind_off == u32_at(d, 8, big)
        && t.bind_size == u32_at(d, 12, big) && t.weak_bind_off == u32_at(d, 16, big)
        && t.weak_bind_size == u32_at(d, 20, big) && t.lazy_bind_off == u32_at(d, 24, big)
        && t.lazy_bind_size == u32_at(d, 28, big) && t.export_off == u32_at(d, 32, big)
        && t.export_size == u32_at(d, 36, big)
}

/// Load command `cmd` decodes from the data `d` that follows its header.
pub open spec fn command_ok(cmd: u32, d: Seq<u8>, big: bool, is_32: bool, cputype: u32) -> bool {
    if cmd == LC_MAIN {
        fits(d, 0, 16)
    } else if cmd == LC_UNIXTHREAD {
        thread_entry(d, big, cputype).is_some()
    } else if cmd == LC_SEGMENT || cmd == LC_SEGMENT_64 {
        segment_fits(d, big, is_32)
    } else if cmd == LC_RPATH || cmd == LC_ID_DYLINKER || cmd == LC_LOAD_DYLINKER || cmd == LC_DYLD_ENVIRONMENT {
        fits(d, 0, 4)
    } else if cmd == LC_LOAD_DYLIB || cmd == LC_ID_DYLIB || cmd == LC_LOAD_WEAK_DYLIB || cmd == LC_REEXPORT_DYLIB
        || cmd == LC_SYMTAB || cmd == LC_UUID {
        fits(d, 0, 16)
    } else if cmd == LC_SOURCE_VERSION || cmd == LC_CODE_SIGNATURE || cmd == LC_DYLD_EXPORTS_TRIE
        || cmd == LC_DYLD_CHAINED_FIXUPS || cmd == LC_VERSION_MIN_MACOSX || cmd == LC_VERSION_MIN_IPHONEOS
        || cmd == LC_VERSION_MIN_TVOS || cmd == LC_VERSION_MIN_WATCHOS {
        fits(d, 0, 8)
    } else if cmd == LC_DYSYMTAB {
        fits(d, 0, 64)
    } else if cmd == LC_DYLD_INFO || cmd == LC_DYLD_INFO_ONLY {
        fits(d, 0, 40)
    } else if cmd == LC_BUILD_VERSION {
        fits(d, 0, 16) && 16 + 8 * u32_at(d, 12, big) <= d.len()
    } else if cmd == LC_LINKER_OPTION {
        fits(d, 0, 4) && nul_strings(d, 4, u32_at(d, 0, big) as nat).is_some()
    } else {
        true
    }
}

/// The load commands read from `pos` on, at most `n` of them, as
/// `(command, data start, data length)`: the walk stops at a command that
/// is cut short or does not decode.
pub open spec fn command_spans(data: Seq<u8>, pos: int, n: nat, big: bool, is_32: bool, cputype: u32) -> Seq<(u32, int, int)>
    decreases n,
{
    if n == 0 || pos < 0 || !fits(data, pos, 8) {
        Seq::empty()
    } else {
        let cmd = u32_at(data, pos, big);
        let size = u32_at(data, pos + 4, big) as int;
        let len = if size >= 8 { size - 8 } else { 0 };
        let start = pos + 8;
        if start + len > data.len() || !command_ok(cmd, data.subrange(start, start + len), big, is_32, cputype) {
            Seq::empty()
        } else {
            seq![(cmd, start, len)] + command_spans(data, start + len, (n - 1) as nat, big, is_32, cputype)
        }
    }
}

/// The segment commands among `spans`, in order.
pub open spec fn segment_spans(spans: Seq<(u32, int, int)>) -> Seq<(u32, int, int)>
    decreases spans.len(),
{
    if spans.len() == 0 {
        spans
    } else {
        let x = spans.last();
        segment_spans(spans.drop_last()) + if x.0 == LC_SEGMENT || x.0 == LC_SEGMENT_64 {
            seq![x]
        } else {
            Seq::empty()
        }
    }
}

/// The dynamic library commands among `spans`, in order.
pub open spec fn dylib_spans(spans: Seq<(u32, int, int)>) -> Seq<(u32, int, int)>
    decreases spans.len(),
{
    if spans.len() == 0 {
        spans
    } else {
        let x = spans.last();
        dylib_spans(spans.drop_last()) + if is_dylib_command(x.0) {
            seq![x]
        } else {
            Seq::empty()
        }
    }
}

/// `cmd` names or loads a dynamic library.
pub open spec fn is_dylib_command(cmd: u32) -> bool {
    cmd == LC_LOAD_DYLIB || cmd == LC_ID_DYLIB || cmd == LC_LOAD_WEAK_DYLIB || cmd == LC_REEXPORT_DYLIB
}

/// `t` is the dynamic library command whose data is `d`.
pub open spec fn dylib_read(t: Dylib, d: Seq<u8>, big: bool) -> bool {
    &&& t.name@ == take_till_nul(d, 16)
    &&& t.timestamp == u32_at(d, 4, big)
    &&& t.current_version == u32_at(d, 8, big)
    &&& t.compatibility_version == u32_at(d, 12, big)
}

/// From index `from` on, `ds` holds one library decoded from each span, in
/// order.
pub open spec fn dylibs_from(ds: Seq<Dylib>, from: int, spans: Seq<(u32, int, int)>, data: Seq<u8>, big: bool) -> bool {
    &&& ds.len() == from + spans.len()
    &&& forall|i: int| 0 <= i < spans.len() ==> dylib_read(
        #[trigger] ds[from + i],
        data.subrange(spans[i].1, spans[i].1 + spans[i].2),
        big,
    )
}

/// The `LC_RPATH` commands among `spans`, in order.
pub open spec fn rpath_spans(spans: Seq<(u32, int, int)>) -> Seq<(u32, int, int)>
    decreases spans.len(),
{
    if spans.len() == 0 {
        spans
    } else {
        let x = spans.last();
        rpath_spans(spans.drop_last()) + if x.0 == LC_RPATH {
            seq![x]
        } else {
            Seq::empty()
        }
    }
}

/// From index `from` on, `ps` holds the path of each span, in order.
pub open spec fn rpaths_from(ps: Seq<Vec<u8>>, from: int, spans: Seq<(u32, int, int)>, data: Seq<u8>) -> bool {
    &&& ps.len() == from + spans.len()
    &&& forall|i: int| 0 <= i < spans.len() ==> (#[trigger] ps[from + i])@ == take_till_nul(
        data.subrange(spans[i].1, spans[i].1 + spans[i].2),
        4,
    )
}

/// From index `from` on, `segs` holds one segment decoded from each span,
/// in order.
pub open spec fn segments_from(segs: Seq<Segment>, from: int, spans: Seq<(u32, int, int)>, data: Seq<u8>, big: bool, is_32: bool) -> bool {
    &&& segs.len() == from + spans.len()
    &&& forall|i: int| 0 <= i < spans.len() ==> segment_read(
        #[trigger] segs[from + i],
        data.subrange(spans[i].1, spans[i].1 + spans[i].2),
        big,
        is_32,
    )
}

/// What parsing the image `data` yields: its header, byte order and word
/// width, the segments, libraries and run paths of its load commands, and
/// the file offset of an entry point given as an address.
pub open spec fn image_ok(data: Seq<u8>, m: MachOFile) -> bool {
    let magic = u32_at(data, 0, true);
    let spans = command_spans(data, header_size(magic_32(magic)), m.header.ncmds as nat, magic_big(magic),
        magic_32(magic), m.header.cputype);
    &&& image_header_ok(data)
    &&& m.header == header_at(data, magic)
    &&& m.big_endian == magic_big(magic)
    &&& m.is_32_bits == magic_32(magic)
    &&& segments_from(m.segments@, 0, segment_spans(spans), data, magic_big(magic), magic_32(magic))
    &&& dylibs_from(m.dylibs@, 0, dylib_spans(spans), data, magic_big(magic))
    &&& rpaths_from(m.rpaths@, 0, rpath_spans(spans), data)
    &&& (m.entry_point_rva matches Some(rva) ==> m.entry_point_offset == rva_lookup(m.segments@, rva))
    &&& stable_fields_ok(m, spans, data, magic_big(magic), m.header.cputype)
    &&& (m.entry_point_rva is None ==> main_entry_ok(m, spans, data, magic_big(magic)))
    &&& (m.symtab matches Some(t) ==> entries_view(t.entries@) == linkedit_symbols(m, data))
    &&& m.imports@.map_values(|v: String| v@) == linkedit_imports(m, data)
    &&& m.exports@.map_values(|v: String| v@) == linkedit_exports(m, data)
    &&& ents(m) == linkedit_ents(m, data)
    &&& sig_blobs(m) == linkedit_blobs(m, data)
}

proof fn lemma_spans_len(data: Seq<u8>, pos: int, n: nat, big: bool, is_32: bool, cputype: u32)
    ensures
        command_spans(data, pos, n, big, is_32, cputype).len() <= n,
    decreases n,
{
    if n > 0 && pos >= 0 && fits(data, pos, 8) {
        let size = u32_at(data, pos + 4, big) as int;
        let len = if size >= 8 { size - 8 } else { 0 };
        lemma_spans_len(data, pos + 8 + len, (n - 1) as nat, big, is_32, cputype);
    }
}

proof fn lemma_kinds_len(sp: Seq<(u32, int, int)>)
    ensures
        segment_spans(sp).len() + dylib_spans(sp).len() + rpath_spans(sp).len() <= sp.len(),
    decreases sp.len(),
{
    if sp.len() > 0 {
        lemma_kinds_len(sp.drop_last());
    }
}

/// A parsed image has at most one segment, library or run path per load
/// command that its header declares.
pub proof fn image_lists_bounded(data: Seq<u8>, m: MachOFile)
    requires
        image_ok(data, m),
    ensures
        m.segments@.len() + m.dylibs@.len() + m.rpaths@.len() <= m.header.ncmds,
{
    let magic = u32_at(data, 0, true);
    let sp = command_spans(data, header_size(magic_32(magic)), m.header.ncmds as nat, magic_big(magic), magic_32(magic),
        m.header.cputype);
    lemma_spans_len(data, header_size(magic_32(magic)), m.header.ncmds as nat, magic_big(magic), magic_32(magic),
        m.header.cputype);
    lemma_kinds_len(sp);
}

/// The lists that the link-edit tables fill are empty, and so are the
/// entries of the symbol table.
pub open spec fn lists_empty(m: MachOFile) -> bool {
    &&& m.imports@.len() == 0
    &&& m.exports@.len() == 0
    &&& m.entitlements@.len() == 0
    &&& m.signature_blobs@.len() == 0
    &&& (m.symtab matches Some(t) ==> t.entries@.len() == 0)
}

/// Command `cmd` sets the field of kind `k`: 0 symbol table, 1 dynamic
/// symbol table, 2 dyld information, 3 code signature, 4 export trie, 5
/// chained fixups, 6 UUID, 7 source version, 8 dynamic linker, 9 build
/// version, 10 minimum version, 11 main entry, 12 thread entry.
pub open spec fn is_kind(cmd: u32, k: int) -> bool {
    if k == 0 {
        cmd == LC_SYMTAB
    } else     if k == 1 {
        cmd == LC_DYSYMTAB
    } else     if k == 2 {
        cmd == LC_DYLD_INFO || cmd == LC_DYLD_INFO_ONLY
    } else     if k == 3 {
        cmd == LC_CODE_SIGNATURE
    } else     if k == 4 {
        cmd == LC_DYLD_EXPORTS_TRIE
    } else     if k == 5 {
        cmd == LC_DYLD_CHAINED_FIXUPS
    } else     if k == 6 {
        cmd == LC_UUID
    } else     if k == 7 {
        cmd == LC_SOURCE_VERSION
    } else     if k == 8 {
        cmd == LC_ID_DYLINKER || cmd == LC_LOAD_DYLINKER || cmd == LC_DYLD_ENVIRONMENT
    } else     if k == 9 {
        cmd == LC_BUILD_VERSION
    } else     if k == 10 {
        cmd == LC_VERSION_MIN_MACOSX || cmd == LC_VERSION_MIN_IPHONEOS || cmd == LC_VERSION_MIN_TVOS || cmd == LC_VERSION_MIN_WATCHOS
    } else     if k == 11 {
        cmd == LC_MAIN
    } else     if k == 12 {
        cmd == LC_UNIXTHREAD
    } else {
        false
    }
}

/// The last span whose command sets the field of kind `k`.
pub open spec fn last_span(spans: Seq<(u32, int, int)>, k: int) -> Option<(u32, int, int)>
    decreases spans.len(),
{
    if spans.len() == 0 {
        None
    } else if is_kind(spans.last().0, k) {
        Some(spans.last())
    } else {
        last_span(spans.drop_last(), k)
    }
}

/// The data of a span.
pub open spec fn span_data(data: Seq<u8>, x: (u32, int, int)) -> Seq<u8> {
    data.subrange(x.1, x.1 + x.2)
}

/// The linker options of the `LC_LINKER_OPTION` spans, in order.
pub open spec fn linker_opts(spans: Seq<(u32, int, int)>, data: Seq<u8>, big: bool) -> Seq<Seq<u8>>
    decreases spans.len(),
{
    if spans.len() == 0 {
        Seq::empty()
    } else {
        let x = spans.last();
        let d = span_data(data, x);
        linker_opts(spans.drop_last(), data, big) + if x.0 == LC_LINKER_OPTION {
            nul_strings(d, 4, u32_at(d, 0, big) as nat).unwrap_or(Seq::empty())
        } else {
            Seq::empty()
        }
    }
}

/// The fields that the last command of their kind in `spans` sets hold
/// what that command's data gives, or nothing when no such command came;
/// the linker options are those of every such command. The entry point
/// offset is left to `main_entry_ok`.
pub open spec fn stable_fields_ok(m: MachOFile, spans: Seq<(u32, int, int)>, data: Seq<u8>, big: bool, cputype: u32) -> bool {
    &&& kind_ok_0(m, spans, data, big, cputype)
    &&& kind_ok_1(m, spans, data, big, cputype)
    &&& kind_ok_2(m, spans, data, big, cputype)
    &&& kind_ok_3(m, spans, data, big, cputype)
    &&& kind_ok_4(m, spans, data, big, cputype)
    &&& kind_ok_5(m, spans, data, big, cputype)
    &&& kind_ok_6(m, spans, data, big, cputype)
    &&& kind_ok_7(m, spans, data, big, cputype)
    &&& kind_ok_8(m, spans, data, big, cputype)
    &&& kind_ok_9(m, spans, data, big, cputype)
    &&& kind_ok_10(m, spans, data, big, cputype)
    &&& kind_ok_11(m, spans, data, big, cputype)
    &&& kind_ok_12(m, spans, data, big, cputype)
    &&& m.linker_options@.map_values(|v: Vec<u8>| v@) == linker_opts(spans, data, big)
}

/// The field of kind 0 agrees with the last command of that kind.
pub open spec fn kind_ok_0(m: MachOFile, spans: Seq<(u32, int, int)>, data: Seq<u8>, big: bool, cputype: u32) -> bool {
    match last_span(spans, 0) {
        Some(x) => m.symtab matches Some(t) && (t.symoff == u32_at(span_data(data, x), 0, big) && t.nsyms == u32_at(span_data(data, x), 4, big) && t.stroff == u32_at(span_data(data, x), 8, big) && t.strsize == u32_at(span_data(data, x), 12, big)),
        None => m.symtab is None,
    }
}

/// The field of kind 1 agrees with the last command of that kind.
pub open spec fn kind_ok_1(m: MachOFile, spans: Seq<(u32, int, int)>, data: Seq<u8>, big: bool, cputype: u32) -> bool {
    match last_span(spans, 1) {
        Some(x) => m.dysymtab matches Some(t) && (dysymtab_read(t, span_data(data, x), big)),
        None => m.dysymtab is None,
    }
}

/// The field of kind 2 agrees with the last command of that kind.
pub open spec fn kind_ok_2(m: MachOFile, spans: Seq<(u32, int, int)>, data: Seq<u8>, big: bool, cputype: u32) -> bool {
    match last_span(spans, 2) {
        Some(x) => m.dyld_info matches Some(t) && (dyld_info_read(t, span_data(data, x), big)),
        None => m.dyld_info is None,
    }
}

/// The field of kind 3 agrees with the last command of that kind.
pub open spec fn kind_ok_3(m: MachOFile, spans: Seq<(u32, int, int)>, data: Seq<u8>, big: bool, cputype: u32) -> bool {
    match last_span(spans, 3) {
        Some(x) => m.code_signature_data matches Some(t) && (t.dataoff == u32_at(span_data(data, x), 0, big) && t.datasize == u32_at(span_data(data, x), 4, big)),
        None => m.code_signature_data is None,
    }
}

/// The field of kind 4 agrees with the last command of that kind.
pub open spec fn kind_ok_4(m: MachOFile, spans: Seq<(u32, int, int)>, data: Seq<u8>, big: bool, cputype: u32) -> bool {
    match last_span(spans, 4) {
        Some(x) => m.dyld_export_trie matches Some(t) && (t.dataoff == u32_at(span_data(data, x), 0, big) && t.datasize == u32_at(span_data(data, x), 4, big)),
        None => m.dyld_export_trie is None,
    }
}

/// The field of kind 5 agrees with the last command of that kind.
pub open spec fn kind_ok_5(m: MachOFile, spans: Seq<(u32, int, int)>, data: Seq<u8>, big: bool, cputype: u32) -> bool {
    match last_span(spans, 5) {
        Some(x) => m.dyld_chain_fixups matches Some(t) && (t.dataoff == u32_at(span_data(data, x), 0, big) && t.datasize == u32_at(span_data(data, x), 4, big)),
        None => m.dyld_chain_fixups is None,
    }
}

/// The field of kind 6 agrees with the last command of that kind.
pub open spec fn kind_ok_6(m: MachOFile, spans: Seq<(u32, int, int)>, data: Seq<u8>, big: bool, cputype: u32) -> bool {
    match last_span(spans, 6) {
        Some(x) => m.uuid matches Some(t) && (t@ == trim_nuls(span_data(data, x).subrange(0, 16))),
        None => m.uuid is None,
    }
}

/// The field of kind 7 agrees with the last command of that kind.
pub open spec fn kind_ok_7(m: MachOFile, spans: Seq<(u32, int, int)>, data: Seq<u8>, big: bool, cputype: u32) -> bool {
    match last_span(spans, 7) {
        Some(x) => m.source_version matches Some(t) && (t == u64_at(span_data(data, x), 0, big)),
        None => m.source_version is None,
    }
}

/// The field of kind 8 agrees with the last command of that kind.
pub open spec fn kind_ok_8(m: MachOFile, spans: Seq<(u32, int, int)>, data: Seq<u8>, big: bool, cputype: u32) -> bool {
    match last_span(spans, 8) {
        Some(x) => m.dynamic_linker matches Some(t) && (t@ == take_till_nul(span_data(data, x), 4)),
        None => m.dynamic_linker is None,
    }
}

/// The field of kind 9 agrees with the last command of that kind.
pub open spec fn kind_ok_9(m: MachOFile, spans: Seq<(u32, int, int)>, data: Seq<u8>, big: bool, cputype: u32) -> bool {
    match last_span(spans, 9) {
        Some(x) => m.build_version matches Some(t) && (t.platform == u32_at(span_data(data, x), 0, big) && t.minos == u32_at(span_data(data, x), 4, big) && t.sdk == u32_at(span_data(data, x), 8, big) && t.tools@.len() == u32_at(span_data(data, x), 12, big) && tools_read(t.tools@, span_data(data, x), 16, big)),
        None => m.build_version is None,
    }
}

/// The field of kind 10 agrees with the last command of that kind.
pub open spec fn kind_ok_10(m: MachOFile, spans: Seq<(u32, int, int)>, data: Seq<u8>, big: bool, cputype: u32) -> bool {
    match last_span(spans, 10) {
        Some(x) => m.min_version matches Some(t) && (t.version == u32_at(span_data(data, x), 0, big) && t.sdk == u32_at(span_data(data, x), 4, big)) && t.device == x.0,
        None => m.min_version is None,
    }
}

/// The field of kind 11 agrees with the last command of that kind.
pub open spec fn kind_ok_11(m: MachOFile, spans: Seq<(u32, int, int)>, data: Seq<u8>, big: bool, cputype: u32) -> bool {
    match last_span(spans, 11) {
        Some(x) => m.stack_size == Some(u64_at(span_data(data, x), 8, big)),
        None => m.stack_size is None,
    }
}

/// The field of kind 12 agrees with the last command of that kind.
pub open spec fn kind_ok_12(m: MachOFile, spans: Seq<(u32, int, int)>, data: Seq<u8>, big: bool, cputype: u32) -> bool {
    match last_span(spans, 12) {
        Some(x) => m.entry_point_rva.is_some() && thread_entry(span_data(data, x), big, cputype) == m.entry_point_rva,
        None => m.entry_point_rva is None,
    }
}

proof fn lemma_kind_step_0(a: MachOFile, b: MachOFile, c: LoadCommand, x: (u32, int, int), done: Seq<(u32, int, int)>,
    data: Seq<u8>, big: bool, is_32: bool, cputype: u32)
    requires
        kind_ok_0(a, done, data, big, cputype),
        decoded(x.0, span_data(data, x), big, is_32, cputype, c),
        applied(a, b, c),
    ensures
        kind_ok_0(b, done.push(x), data, big, cputype),
{
    assert(done.push(x).drop_last() =~= done);
}

proof fn lemma_kind_step_1(a: MachOFile, b: MachOFile, c: LoadCommand, x: (u32, int, int), done: Seq<(u32, int, int)>,
    data: Seq<u8>, big: bool, is_32: bool, cputype: u32)
    requires
        kind_ok_1(a, done, data, big, cputype),
        decoded(x.0, span_data(data, x), big, is_32, cputype, c),
        applied(a, b, c),
    ensures
        kind_ok_1(b, done.push(x), data, big, cputype),
{
    assert(done.push(x).drop_last() =~= done);
}

proof fn lemma_kind_step_2(a: MachOFile, b: MachOFile, c: LoadCommand, x: (u32, int, int), done: Seq<(u32, int, int)>,
    data: Seq<u8>, big: bool, is_32: bool, cputype: u32)
    requires
        kind_ok_2(a, done, data, big, cputype),
        decoded(x.0, span_data(data, x), big, is_32, cputype, c),
        applied(a, b, c),
    ensures
        kind_ok_2(b, done.push(x), data, big, cputype),
{
    assert(done.push(x).drop_last() =~= done);
}

proof fn lemma_kind_step_3(a: MachOFile, b: MachOFile, c: LoadCommand, x: (u32, int, int), done: Seq<(u32, int, int)>,
    data: Seq<u8>, big: bool, is_32: bool, cputype: u32)
    requires
        kind_ok_3(a, done, data, big, cputype),
        decoded(x.0, span_data(data, x), big, is_32, cputype, c),
        applied(a, b, c),
    ensures
        kind_ok_3(b, done.push(x), data, big, cputype),
{
    assert(done.push(x).drop_last() =~= done);
}

proof fn lemma_kind_step_4(a: MachOFile, b: MachOFile, c: LoadCommand, x: (u32, int, int), done: Seq<(u32, int, int)>,
    data: Seq<u8>, big: bool, is_32: bool, cputype: u32)
    requires
        kind_ok_4(a, done, data, big, cputype),
        decoded(x.0, span_data(data, x), big, is_32, cputype, c),
        applied(a, b, c),
    ensures
        kind_ok_4(b, done.push(x), data, big, cputype),
{
    assert(done.push(x).drop_last() =~= done);
}

proof fn lemma_kind_step_5(a: MachOFile, b: MachOFile, c: LoadCommand, x: (u32, int, int), done: Seq<(u32, int, int)>,
    data: Seq<u8>, big: bool, is_32: bool, cputype: u32)
    requires
        kind_ok_5(a, done, data, big, cputype),
        decoded(x.0, span_data(data, x), big, is_32, cputype, c),
        applied(a, b, c),
    ensures
        kind_ok_5(b, done.push(x), data, big, cputype),
{
    assert(done.push(x).drop_last() =~= done);
}

proof fn lemma_kind_step_6(a: MachOFile, b: MachOFile, c: LoadCommand, x: (u32, int, int), done: Seq<(u32, int, int)>,
    data: Seq<u8>, big: bool, is_32: bool, cputype: u32)
    requires
        kind_ok_6(a, done, data, big, cputype),
        decoded(x.0, span_data(data, x), big, is_32, cputype, c),
        applied(a, b, c),
    ensures
        kind_ok_6(b, done.push(x), data, big, cputype),
{
    assert(done.push(x).drop_last() =~= done);
}

proof fn lemma_kind_step_7(a: MachOFile, b: MachOFile, c: LoadCommand, x: (u32, int, int), done: Seq<(u32, int, int)>,
    data: Seq<u8>, big: bool, is_32: bool, cputype: u32)
    requires
        kind_ok_7(a, done, data, big, cputype),
        decoded(x.0, span_data(data, x), big, is_32, cputype, c),
        applied(a, b, c),
    ensures
        kind_ok_7(b, done.push(x), data, big, cputype),
{
    assert(done.push(x).drop_last() =~= done);
}

proof fn lemma_kind_step_8(a: MachOFile, b: MachOFile, c: LoadCommand, x: (u32, int, int), done: Seq<(u32, int, int)>,
    data: Seq<u8>, big: bool, is_32: bool, cputype: u32)
    requires
        kind_ok_8(a, done, data, big, cputype),
        decoded(x.0, span_data(data, x), big, is_32, cputype, c),
        applied(a, b, c),
    ensures
        kind_ok_8(b, done.push(x), data, big, cputype),
{
    assert(done.push(x).drop_last() =~= done);
}

proof fn lemma_kind_step_9(a: MachOFile, b: MachOFile, c: LoadCommand, x: (u32, int, int), done: Seq<(u32, int, int)>,
    data: Seq<u8>, big: bool, is_32: bool, cputype: u32)
    requires
        kind_ok_9(a, done, data, big, cputype),
        decoded(x.0, span_data(data, x), big, is_32, cputype, c),
        applied(a, b, c),
    ensures
        kind_ok_9(b, done.push(x), data, big, cputype),
{
    assert(done.push(x).drop_last() =~= done);
}

proof fn lemma_kind_step_10(a: MachOFile, b: MachOFile, c: LoadCommand, x: (u32, int, int), done: Seq<(u32, int, int)>,
    data: Seq<u8>, big: bool, is_32: bool, cputype: u32)
    requires
        kind_ok_10(a, done, data, big, cputype),
        decoded(x.0, span_data(data, x), big, is_32, cputype, c),
        applied(a, b, c),
    ensures
        kind_ok_10(b, done.push(x), data, big, cputype),
{
    assert(done.push(x).drop_last() =~= done);
}

proof fn lemma_kind_step_11(a: MachOFile, b: MachOFile, c: LoadCommand, x: (u32, int, int), done: Seq<(u32, int, int)>,
    data: Seq<u8>, big: bool, is_32: bool, cputype: u32)
    requires
        kind_ok_11(a, done, data, big, cputype),
        decoded(x.0, span_data(data, x), big, is_32, cputype, c),
        applied(a, b, c),
    ensures
        kind_ok_11(b, done.push(x), data, big, cputype),
{
    assert(done.push(x).drop_last() =~= done);
}

proof fn lemma_kind_step_12(a: MachOFile, b: MachOFile, c: LoadCommand, x: (u32, int, int), done: Seq<(u32, int, int)>,
    data: Seq<u8>, big: bool, is_32: bool, cputype: u32)
    requires
        kind_ok_12(a, done, data, big, cputype),
        decoded(x.0, span_data(data, x), big, is_32, cputype, c),
        applied(a, b, c),
    ensures
        kind_ok_12(b, done.push(x), data, big, cputype),
{
    assert(done.push(x).drop_last() =~= done);
}

/// The entry point offset is that of the last `LC_MAIN` command, if any.
pub open spec fn main_entry_ok(m: MachOFile, spans: Seq<(u32, int, int)>, data: Seq<u8>, big: bool) -> bool {
    match last_span(spans, 11) {
        Some(x) => m.entry_point_offset == Some(u64_at(span_data(data, x), 0, big)),
        None => m.entry_point_offset is None,
    }
}

/// `c` is what `decode_command` gives for command `cmd` with data `d`.
pub open spec fn decoded(cmd: u32, d: Seq<u8>, big: bool, is_32: bool, cputype: u32, c: LoadCommand) -> bool {
    match c {
        LoadCommand::Main { entry_offset, stack_size } => cmd == LC_MAIN && entry_offset == u64_at(d, 0, big)
            && stack_size == u64_at(d, 8, big),
        LoadCommand::Thread { entry_rva } => cmd == LC_UNIXTHREAD && thread_entry(d, big, cputype) == Some(entry_rva),
        LoadCommand::Symtab(t) => is_kind(cmd, 0) && t.symoff == u32_at(d, 0, big) && t.nsyms == u32_at(d, 4, big) && t.stroff == u32_at(d, 8, big) && t.strsize == u32_at(d, 12, big),
        LoadCommand::Dysymtab(t) => is_kind(cmd, 1) && dysymtab_read(t, d, big),
        LoadCommand::DyldInfo(t) => is_kind(cmd, 2) && dyld_info_read(t, d, big),
        LoadCommand::CodeSignature(t) => is_kind(cmd, 3) && t.dataoff == u32_at(d, 0, big) && t.datasize == u32_at(d, 4, big),
        LoadCommand::ExportsTrie(t) => is_kind(cmd, 4) && t.dataoff == u32_at(d, 0, big) && t.datasize == u32_at(d, 4, big),
        LoadCommand::ChainedFixups(t) => is_kind(cmd, 5) && t.dataoff == u32_at(d, 0, big) && t.datasize == u32_at(d, 4, big),
        LoadCommand::Uuid(t) => is_kind(cmd, 6) && t@ == trim_nuls(d.subrange(0, 16)),
        LoadCommand::SourceVersion(t) => is_kind(cmd, 7) && t == u64_at(d, 0, big),
        LoadCommand::Dylinker(t) => is_kind(cmd, 8) && t@ == take_till_nul(d, 4),
        LoadCommand::BuildVersion(t) => is_kind(cmd, 9) && t.platform == u32_at(d, 0, big) && t.minos == u32_at(d, 4, big) && t.sdk == u32_at(d, 8, big) && t.tools@.len() == u32_at(d, 12, big) && tools_read(t.tools@, d, 16, big),
        LoadCommand::MinVersion(t) => is_kind(cmd, 10) && t.version == u32_at(d, 0, big) && t.sdk == u32_at(d, 4, big) && t.device == cmd,
        LoadCommand::LinkerOptions(o) => cmd == LC_LINKER_OPTION && nul_strings(d, 4, u32_at(d, 0, big) as nat)
            == Some(o@.map_values(|v: Vec<u8>| v@)),
        LoadCommand::Segment(_) => cmd == LC_SEGMENT || cmd == LC_SEGMENT_64,
        LoadCommand::Dylib(_) => is_dylib_command(cmd),
        LoadCommand::Rpath(_) => cmd == LC_RPATH,
        LoadCommand::Other => !(is_kind(cmd, 0) || is_kind(cmd, 1) || is_kind(cmd, 2) || is_kind(cmd, 3) || is_kind(cmd, 4)
            || is_kind(cmd, 5) || is_kind(cmd, 6) || is_kind(cmd, 7) || is_kind(cmd, 8) || is_kind(cmd, 9)
            || is_kind(cmd, 10) || is_kind(cmd, 11) || is_kind(cmd, 12) || cmd == LC_LINKER_OPTION),
    }
}

/// `b` is `a` with command `c` recorded, as far as the single-valued
/// fields and the linker options go.
pub open spec fn applied(a: MachOFile, b: MachOFile, c: LoadCommand) -> bool {
    &&& match c {
        LoadCommand::Main { entry_offset, stack_size } => b.entry_point_offset == Some(entry_offset)
            && b.stack_size == Some(stack_size),
        _ => b.entry_point_offset == a.entry_point_offset && b.stack_size == a.stack_size,
    }
    &&& match c {
        LoadCommand::Thread { entry_rva } => b.entry_point_rva == Some(entry_rva),
        _ => b.entry_point_rva == a.entry_point_rva,
    }
    &&& match c {
        LoadCommand::Symtab(t) => b.symtab == Some(t),
        _ => b.symtab == a.symtab,
    }
    &&& match c {
        LoadCommand::Dysymtab(t) => b.dysymtab == Some(t),
        _ => b.dysymtab == a.dysymtab,
    }
    &&& match c {
        LoadCommand::DyldInfo(t) => b.dyld_info == Some(t),
        _ => b.dyld_info == a.dyld_info,
    }
    &&& match c {
        LoadCommand::CodeSignature(t) => b.code_signature_data == Some(t),
        _ => b.code_signature_data == a.code_signature_data,
    }
    &&& match c {
        LoadCommand::ExportsTrie(t) => b.dyld_export_trie == Some(t),
        _ => b.dyld_export_trie == a.dyld_export_trie,
    }
    &&& match c {
        LoadCommand::ChainedFixups(t) => b.dyld_chain_fixups == Some(t),
        _ => b.dyld_chain_fixups == a.dyld_chain_fixups,
    }
    &&& match c {
        LoadCommand::Uuid(t) => b.uuid == Some(t),
        _ => b.uuid == a.uuid,
    }
    &&& match c {
        LoadCommand::SourceVersion(t) => b.source_version == Some(t),
        _ => b.source_version == a.source_version,
    }
    &&& match c {
        LoadCommand::Dylinker(t) => b.dynamic_linker == Some(t),
        _ => b.dynamic_linker == a.dynamic_linker,
    }
    &&& match c {
        LoadCommand::BuildVersion(t) => b.build_version == Some(t),
        _ => b.build_version == a.build_version,
    }
    &&& match c {
        LoadCommand::MinVersion(t) => b.min_version == Some(t),
        _ => b.min_version == a.min_version,
    }
    &&& match c {
        LoadCommand::LinkerOptions(o) => b.linker_options@ == a.linker_options@ + o@,
        _ => b.linker_options == a.linker_options,
    }
}

/// No load command has been recorded in the single-valued fields and the
/// linker options.
pub open spec fn commands_blank(m: MachOFile) -> bool {
    &&& m.entry_point_offset is None
    &&& m.stack_size is None
    &&& m.entry_point_rva is None
    &&& m.symtab is None
    &&& m.dysymtab is None
    &&& m.dyld_info is None
    &&& m.code_signature_data is None
    &&& m.dyld_export_trie is None
    &&& m.dyld_chain_fixups is None
    &&& m.uuid is None
    &&& m.source_version is None
    &&& m.dynamic_linker is None
    &&& m.build_version is None
    &&& m.min_version is None
    &&& m.linker_options@.len() == 0
}

proof fn lemma_fields_blank(m: MachOFile, data: Seq<u8>, big: bool, cputype: u32)
    requires
        commands_blank(m),
    ensures
        stable_fields_ok(m, Seq::empty(), data, big, cputype),
        main_entry_ok(m, Seq::empty(), data, big),
{
    assert(m.linker_options@.map_values(|v: Vec<u8>| v@) =~= linker_opts(Seq::empty(), data, big));
}

proof fn lemma_fields_step(
    a: MachOFile,
    b: MachOFile,
    c: LoadCommand,
    x: (u32, int, int),
    done: Seq<(u32, int, int)>,
    data: Seq<u8>,
    big: bool,
    is_32: bool,
    cputype: u32,
)
    requires
        stable_fields_ok(a, done, data, big, cputype),
        main_entry_ok(a, done, data, big),
        decoded(x.0, span_data(data, x), big, is_32, cputype, c),
        applied(a, b, c),
    ensures
        stable_fields_ok(b, done.push(x), data, big, cputype),
        main_entry_ok(b, done.push(x), data, big),
{
    let nd = done.push(x);
    assert(nd.drop_last() =~= done);
    lemma_kind_step_0(a, b, c, x, done, data, big, is_32, cputype);
    lemma_kind_step_1(a, b, c, x, done, data, big, is_32, cputype);
    lemma_kind_step_2(a, b, c, x, done, data, big, is_32, cputype);
    lemma_kind_step_3(a, b, c, x, done, data, big, is_32, cputype);
    lemma_kind_step_4(a, b, c, x, done, data, big, is_32, cputype);
    lemma_kind_step_5(a, b, c, x, done, data, big, is_32, cputype);
    lemma_kind_step_6(a, b, c, x, done, data, big, is_32, cputype);
    lemma_kind_step_7(a, b, c, x, done, data, big, is_32, cputype);
    lemma_kind_step_8(a, b, c, x, done, data, big, is_32, cputype);
    lemma_kind_step_9(a, b, c, x, done, data, big, is_32, cputype);
    lemma_kind_step_10(a, b, c, x, done, data, big, is_32, cputype);
    lemma_kind_step_11(a, b, c, x, done, data, big, is_32, cputype);
    lemma_kind_step_12(a, b, c, x, done, data, big, is_32, cputype);
    if let LoadCommand::LinkerOptions(o) = c {
        assert(linker_opts(nd, data, big) == linker_opts(done, data, big) + o@.map_values(|v: Vec<u8>| v@));
        assert(b.linker_options@.map_values(|v: Vec<u8>| v@) =~= a.linker_options@.map_values(|v: Vec<u8>| v@)
            + o@.map_values(|v: Vec<u8>| v@));
    } else {
        assert(x.0 != LC_LINKER_OPTION);
        assert(linker_opts(nd, data, big) =~= linker_opts(done, data, big) + Seq::<Seq<u8>>::empty());
    }
}

/// The first segment, in order, whose address range holds `rva`, mapped to
/// a file offset. A segment whose range or mapped offset overflows ends the
/// search with `None`.
pub open spec fn rva_lookup(segs: Seq<Segment>, rva: u64) -> Option<u64>
    decreases segs.len(),
{
    if segs.len() == 0 {
        None
    } else {
        let s = segs[0];
        if s.vmaddr + s.vmsize > u64::MAX {
            None
        } else if s.vmaddr <= rva < s.vmaddr + s.vmsize {
            if s.fileoff + (rva - s.vmaddr) > u64::MAX {
                None
            } else {
                Some((s.fileoff + (rva - s.vmaddr)) as u64)
            }
        } else {
            rva_lookup(segs.drop_first(), rva)
        }
    }
}

impl MachO {
    /// Parses a Mach-O file, FAT or single-architecture. Images of a FAT file
    /// that cannot be parsed are left out without failing the whole file.
    pub fn parse(data: &[u8]) -> (r: Result<MachO, MachOError>)
        ensures
            !fits(data@, 0, 4) ==> r == Err::<MachO, MachOError>(MachOError::Truncated),
            fits(data@, 0, 4) && is_fat_magic(u32_at(data@, 0, true)) ==> match r {
                Ok(m) => fat_table_ok(data@) && m.fat_magic == Some(u32_at(data@, 0, true))
                    && m.archs@.len() == u32_at(data@, 4, magic_big(u32_at(data@, 0, true)))
                    && (forall|i: int| 0 <= i < m.archs@.len() ==> #[trigger] m.archs@[i] == fat_arch_at(data@, 8 + i
                        * fat_arch_size(magic_32(u32_at(data@, 0, true))), magic_big(u32_at(data@, 0, true)), magic_32(
                        u32_at(data@, 0, true))))
                    && images_ok(fat_images(data@, m.archs@), m.files@),
                Err(e) => !fat_table_ok(data@) && e == MachOError::Truncated,
            },
            fits(data@, 0, 4) && !is_fat_magic(u32_at(data@, 0, true)) ==> match r {
                Ok(m) => image_header_ok(data@) && m.fat_magic.is_none() && m.archs@.len() == 0
                    && m.files@.len() == 1 && image_ok(data@, m.files@[0]),
                Err(_) => !image_header_ok(data@),
            },
    {
        if data.len() < 4 {
            return Err(MachOError::Truncated);
        }
        let magic = read_u32(data, 0, true).unwrap();
        if magic == FAT_MAGIC || magic == FAT_CIGAM || magic == FAT_MAGIC_64 || magic == FAT_CIGAM_64 {
            Self::parse_fat_macho_file(data)
        } else {
            match Self::parse_macho_file(data) {
                Ok(file) => {
                    let mut files: Vec<MachOFile> = Vec::new();
                    files.push(file);
                    Ok(MachO { fat_magic: None, archs: Vec::new(), files })
                },
                Err(e) => Err(e),
            }
        }
    }

    /// Parses a FAT file: its architecture table, then each image it
    /// points to that lies inside the data and parses.
    pub fn parse_fat_macho_file(data: &[u8]) -> (r: Result<MachO, MachOError>)
        ensures
            match r {
                Ok(m) => {
                    let magic = u32_at(data@, 0, true);
                    &&& fat_table_ok(data@)
                    &&& m.fat_magic == Some(magic)
                    &&& m.archs@.len() == u32_at(data@, 4, magic_big(magic))
                    &&& forall|i: int| 0 <= i < m.archs@.len() ==> #[trigger] m.archs@[i]
                        == fat_arch_at(data@, 8 + i * fat_arch_size(magic_32(magic)), magic_big(magic), magic_32(magic))
                    &&& images_ok(fat_images(data@, m.archs@), m.files@)
                },
                Err(e) => !fat_table_ok(data@) && (fits(data@, 0, 4) && !is_fat_magic(u32_at(data@, 0, true))
                    <==> e == MachOError::BadMagic),
            },
    {
        if data.len() < 4 {
            return Err(MachOError::Truncated);
        }
        let magic = read_u32(data, 0, true).unwrap();
        if !(magic == FAT_MAGIC || magic == FAT_CIGAM || magic == FAT_MAGIC_64 || magic == FAT_CIGAM_64) {
            return Err(MachOError::BadMagic);
        }
        let big = magic == FAT_MAGIC || magic == FAT_MAGIC_64;
        let is_32 = magic == FAT_MAGIC || magic == FAT_CIGAM;
        let nfat = match read_u32(data, 4, big) {
            Some(n) => n,
            None => return Err(MachOError::Truncated),
        };
        let size: usize = if is_32 { 20 } else { 32 };
        let w: usize = if is_32 { 4 } else { 8 };
        let mut archs: Vec<FatArch> = Vec::new();
        let mut i: u32 = 0;
        let mut off: usize = 8;
        while i < nfat
            invariant
                i <= nfat,
                size == fat_arch_size(is_32),
                w == uint_size(is_32),
                off == 8 + i * size,
                off <= data.len(),
                magic == u32_at(data@, 0, true),
                is_fat_magic(magic),
                fits(data@, 0, 8),
                big == magic_big(magic),
                is_32 == magic_32(magic),
                nfat == u32_at(data@, 4, big),
                archs@.len() == i,
                forall|k: int| 0 <= k < i ==> #[trigger] archs@[k] == fat_arch_at(data@, 8 + k * size, big, is_32),
            decreases nfat - i,
        {
            if data.len() - off < size {
                proof {
                    assert(8 + nfat * size >= 8 + (i + 1) * size) by (nonlinear_arith)
                        requires
                            i < nfat,
                            size > 0,
                    ;
                }
                return Err(MachOError::Truncated);
            }
            let reserved: u32 = if is_32 { 0 } else { read_u32(data, off + 28, big).unwrap() };
            archs.push(FatArch {
                cputype: read_u32(data, off, big).unwrap(),
                cpusubtype: read_u32(data, off + 4, big).unwrap(),
                offset: read_uint(data, off + 8, big, is_32).unwrap(),
                size: read_uint(data, off + 8 + w, big, is_32).unwrap(),
                align: read_u32(data, off + 8 + 2 * w, big).unwrap(),
                reserved,
            });
            off = off + size;
            i = i + 1;
            proof {
                assert(off == 8 + i * size) by (nonlinear_arith)
                    requires
                        off == 8 + (i - 1) * size + size,
                ;
            }
        }
        let mut files: Vec<MachOFile> = Vec::new();
        let mut j: usize = 0;
        while j < archs.len()
            invariant
                j <= archs@.len(),
                images_ok(fat_images(data@, archs@.subrange(0, j as int)), files@),
            decreases archs@.len() - j,
        {
            let ghost fs = files@;
            let start = #[verifier::truncate] (archs[j].offset as usize);
            let end = start.saturating_add(#[verifier::truncate] (archs[j].size as usize));
            proof {
                assert(archs@.subrange(0, j + 1).drop_last() =~= archs@.subrange(0, j as int));
            }
            if start <= end && end <= data.len() {
                match Self::parse_macho_file(&data[start..end]) {
                    Ok(file) => {
                        files.push(file);
                        proof {
                            let ims = fat_images(data@, archs@.subrange(0, j + 1));
                            assert forall|i: int| 0 <= i < files@.len() implies image_ok(ims[i], #[trigger] files@[i]) by {
                                if i < fs.len() {
                                    assert(files@[i] == fs[i]);
                                }
                            }
                        }
                    },
                    Err(_) => {},
                }
            }
            j = j + 1;
        }
        proof {
            assert(archs@.subrange(0, archs@.len() as int) =~= archs@);
        }
        Ok(MachO { fat_magic: Some(magic), archs, files })
    }

    /// Parses a single-architecture image: its header, its load commands, and
    /// the tables those commands point to.
    pub fn parse_macho_file(data: &[u8]) -> (r: Result<MachOFile, MachOError>)
        ensures
            match r {
                Ok(m) => image_ok(data@, m),
                Err(e) => !image_header_ok(data@) && (e == MachOError::BadMagic <==> (fits(data@, 0, 4)
                    && !is_mh_magic(u32_at(data@, 0, true)))),
            },
    {
        if data.len() < 4 {
            return Err(MachOError::Truncated);
        }
        let magic = read_u32(data, 0, true).unwrap();
        if !(magic == MH_MAGIC || magic == MH_CIGAM || magic == MH_MAGIC_64 || magic == MH_CIGAM_64) {
            return Err(MachOError::BadMagic);
        }
        let big = magic == MH_MAGIC || magic == MH_MAGIC_64;
        let is_32 = magic == MH_MAGIC || magic == MH_CIGAM;
        let hsize: usize = if is_32 { 28 } else { 32 };
        if data.len() < hsize {
            return Err(MachOError::Truncated);
        }
        let header = MachOHeader {
            magic,
            cputype: read_u32(data, 4, big).unwrap(),
            cpusubtype: read_u32(data, 8, big).unwrap(),
            filetype: read_u32(data, 12, big).unwrap(),
            ncmds: read_u32(data, 16, big).unwrap(),
            sizeofcmds: read_u32(data, 20, big).unwrap(),
            flags: read_u32(data, 24, big).unwrap(),
            reserved: if is_32 { None } else { Some(read_u32(data, 28, big).unwrap()) },
        };
        let mut macho = MachOFile {
            big_endian: big,
            is_32_bits: is_32,
            header,
            entry_point_offset: None,
            entry_point_rva: None,
            stack_size: None,
            segments: Vec::new(),
            dylibs: Vec::new(),
            symtab: None,
            dysymtab: None,
            dyld_info: None,
            dyld_export_trie: None,
            dyld_chain_fixups: None,
            dynamic_linker: None,
            linker_options: Vec::new(),
            source_version: None,
            rpaths: Vec::new(),
            uuid: None,
            code_signature_data: None,
            entitlements: Vec::new(),
            signature_blobs: Vec::new(),
            build_version: None,
            min_version: None,
            exports: Vec::new(),
            imports: Vec::new(),
        };
        macho.parse_commands(data, hsize);
        let ghost m1 = macho;
        macho.parse_linkedit(data);
        proof {
            assert(linkedit_symbols(macho, data@) == linkedit_symbols(m1, data@));
            let spans = command_spans(data@, hsize as int, macho.header.ncmds as nat, big, is_32, macho.header.cputype);
            assert(kind_ok_0(macho, spans, data@, big, macho.header.cputype));
            assert(linkedit_imports(macho, data@) == linkedit_imports(m1, data@));
            assert(linkedit_exports(macho, data@) == linkedit_exports(m1, data@));
            assert(linkedit_ents(macho, data@) == linkedit_ents(m1, data@));
            assert(linkedit_blobs(macho, data@) == linkedit_blobs(m1, data@));
            assert(macho.imports@.map_values(|v: String| v@) =~= linkedit_imports(m1, data@));
            assert(macho.exports@.map_values(|v: String| v@) =~= linkedit_exports(m1, data@));
            assert(ents(macho) =~= linkedit_ents(m1, data@));
            assert(sig_blobs(macho) =~= linkedit_blobs(m1, data@));
            if macho.symtab is Some {
                assert(entries_view(macho.symtab.unwrap().entries@) =~= linkedit_symbols(m1, data@));
            }
        }
        Ok(macho)
    }
}

impl MachOFile {
    /// Parses up to `ncmds` load commands from `pos` on, stopping at the first
    /// one that is truncated or malformed.
    #[verifier::rlimit(100)]
    fn parse_commands(&mut self, data: &[u8], pos: usize)
        requires
            pos <= data@.len(),
            commands_blank(*old(self)),
        ensures
            stable_fields_ok(*final(self), command_spans(data@, pos as int, old(self).header.ncmds as nat,
                old(self).big_endian, old(self).is_32_bits, old(self).header.cputype), data@, old(self).big_endian,
                old(self).header.cputype),
            main_entry_ok(*final(self), command_spans(data@, pos as int, old(self).header.ncmds as nat,
                old(self).big_endian, old(self).is_32_bits, old(self).header.cputype), data@, old(self).big_endian),
            final(self).header == old(self).header,
            final(self).big_endian == old(self).big_endian,
            final(self).is_32_bits == old(self).is_32_bits,
            segments_from(final(self).segments@, old(self).segments@.len() as int, segment_spans(command_spans(
                data@, pos as int, old(self).header.ncmds as nat, old(self).big_endian, old(self).is_32_bits,
                old(self).header.cputype)), data@, old(self).big_endian, old(self).is_32_bits),
            final(self).segments@.subrange(0, old(self).segments@.len() as int) == old(self).segments@,
            dylibs_from(final(self).dylibs@, old(self).dylibs@.len() as int, dylib_spans(command_spans(
                data@, pos as int, old(self).header.ncmds as nat, old(self).big_endian, old(self).is_32_bits,
                old(self).header.cputype)), data@, old(self).big_endian),
            rpaths_from(final(self).rpaths@, old(self).rpaths@.len() as int, rpath_spans(command_spans(
                data@, pos as int, old(self).header.ncmds as nat, old(self).big_endian, old(self).is_32_bits,
                old(self).header.cputype)), data@),
            lists_empty(*old(self)) ==> lists_empty(*final(self)),
    {
        let big = self.big_endian;
        let is_32 = self.is_32_bits;
        let cputype = self.header.cputype;
        let ncmds = self.header.ncmds;
        let ghost all = command_spans(data@, pos as int, ncmds as nat, big, is_32, cputype);
        let ghost n0 = self.segments@.len();
        let ghost d0 = self.dylibs@.len();
        let ghost p0 = self.rpaths@.len();
        let ghost mut done: Seq<(u32, int, int)> = Seq::empty();
        let mut at = pos;
        let mut k: u32 = 0;
        proof {
            lemma_fields_blank(*self, data@, big, cputype);
            assert(done + all =~= all);
            assert(self.segments@.subrange(0, n0 as int) =~= self.segments@);
        }
        while k < ncmds
            invariant
                at <= data@.len(),
                k <= ncmds,
                all == command_spans(data@, pos as int, ncmds as nat, big, is_32, cputype),
                done + command_spans(data@, at as int, (ncmds - k) as nat, big, is_32, cputype) == all,
                segments_from(self.segments@, n0 as int, segment_spans(done), data@, big, is_32),
                self.segments@.subrange(0, n0 as int) == old(self).segments@,
                n0 == old(self).segments@.len(),
                dylibs_from(self.dylibs@, d0 as int, dylib_spans(done), data@, big),
                d0 == old(self).dylibs@.len(),
                rpaths_from(self.rpaths@, p0 as int, rpath_spans(done), data@),
                p0 == old(self).rpaths@.len(),
                lists_empty(*old(self)) ==> lists_empty(*self),
                stable_fields_ok(*self, done, data@, big, cputype),
                main_entry_ok(*self, done, data@, big),
                self.header == old(self).header,
                self.big_endian == big,
                self.is_32_bits == is_32,
                big == old(self).big_endian,
                is_32 == old(self).is_32_bits,
                ncmds == self.header.ncmds,
                cputype == self.header.cputype,
            ensures
                self.header == old(self).header,
                self.big_endian == old(self).big_endian,
                self.is_32_bits == old(self).is_32_bits,
                segments_from(self.segments@, n0 as int, segment_spans(all), data@, big, is_32),
                self.segments@.subrange(0, n0 as int) == old(self).segments@,
                dylibs_from(self.dylibs@, d0 as int, dylib_spans(all), data@, big),
                rpaths_from(self.rpaths@, p0 as int, rpath_spans(all), data@),
                lists_empty(*old(self)) ==> lists_empty(*self),
                stable_fields_ok(*self, all, data@, big, cputype),
                main_entry_ok(*self, all, data@, big),
            decreases ncmds - k,
        {
            let ghost rest = command_spans(data@, at as int, (ncmds - k) as nat, big, is_32, cputype);
            if data.len() - at < 8 {
                proof {
                    assert(rest =~= Seq::<(u32, int, int)>::empty());
                    assert(done + rest =~= done);
                    assert(all == done);
                    assert(segments_from(self.segments@, n0 as int, segment_spans(all), data@, big, is_32));
                }
                return;
            }
            let cmd = read_u32(data, at, big).unwrap();
            let cmdsize = read_u32(data, at + 4, big).unwrap();
            let len: usize = if cmdsize >= 8 { (cmdsize - 8) as usize } else { 0 };
            let start = at + 8;
            if data.len() - start < len {
                proof {
                    assert(rest =~= Seq::<(u32, int, int)>::empty());
                    assert(done + rest =~= done);
                    assert(all == done);
                    assert(segments_from(self.segments@, n0 as int, segment_spans(all), data@, big, is_32));
                }
                return;
            }
            let ghost before_segs = self.segments@;
            let ghost before_dylibs = self.dylibs@;
            let ghost before_rpaths = self.rpaths@;
            let ghost before_m = *self;
            match decode_command(cmd, &data[start..start + len], big, is_32, cputype) {
                Some(c) => {
                    self.apply_command(c);
                    proof {
                        let x = (cmd, start as int, len as int);
                        lemma_fields_step(before_m, *self, c, x, done, data@, big, is_32, cputype);
                        assert(((ncmds - k) as nat - 1) as nat == (ncmds - k - 1) as nat);
                        assert(rest == seq![x] + command_spans(data@, (start + len) as int, (ncmds - k - 1) as nat, big, is_32, cputype));
                        assert((done + seq![x]).drop_last() =~= done);
                        assert(done.push(x) + command_spans(data@, (start + len) as int, (ncmds - k - 1) as nat, big, is_32, cputype)
                            =~= done + rest);
                        let ss = segment_spans(done);
                        if cmd == LC_SEGMENT || cmd == LC_SEGMENT_64 {
                            assert(done.push(x).drop_last() =~= done);
                            assert(segment_spans(done.push(x)) == ss.push(x));
                            assert forall|i: int| 0 <= i < ss.len() + 1 implies segment_read(
                                #[trigger] self.segments@[n0 + i],
                                data@.subrange(ss.push(x)[i].1, ss.push(x)[i].1 + ss.push(x)[i].2),
                                big,
                                is_32,
                            ) by {
                                if i < ss.len() {
                                    assert(self.segments@[n0 + i] == before_segs[n0 + i]);
                                } else {
                                    assert(data@.subrange(start as int, start + len) =~= data@.subrange(start as int, (start + len) as int));
                                }
                            }
                        } else {
                            assert(done.push(x).drop_last() =~= done);
                            assert(segment_spans(done.push(x)) =~= ss);
                        }
                        assert(self.segments@.subrange(0, n0 as int) =~= before_segs.subrange(0, n0 as int));
                        let ds = dylib_spans(done);
                        assert(done.push(x).drop_last() =~= done);
                        if is_dylib_command(cmd) {
                            assert(dylib_spans(done.push(x)) == ds.push(x));
                            assert forall|i: int| 0 <= i < ds.len() + 1 implies dylib_read(
                                #[trigger] self.dylibs@[d0 + i],
                                data@.subrange(ds.push(x)[i].1, ds.push(x)[i].1 + ds.push(x)[i].2),
                                big,
                            ) by {
                                if i < ds.len() {
                                    assert(self.dylibs@[d0 + i] == before_dylibs[d0 + i]);
                                }
                            }
                        } else {
                            assert(dylib_spans(done.push(x)) =~= ds);
                        }
                        let rs = rpath_spans(done);
                        if cmd == LC_RPATH {
                            assert(rpath_spans(done.push(x)) == rs.push(x));
                            assert forall|i: int| 0 <= i < rs.len() + 1 implies (#[trigger] self.rpaths@[p0 + i])@
                                == take_till_nul(data@.subrange(rs.push(x)[i].1, rs.push(x)[i].1 + rs.push(x)[i].2), 4) by {
                                if i < rs.len() {
                                    assert(self.rpaths@[p0 + i] == before_rpaths[p0 + i]);
                                }
                            }
                        } else {
                            assert(rpath_spans(done.push(x)) =~= rs);
                        }
                        done = done.push(x);
                    }
                },
                None => {
                    proof {
                        assert(rest =~= Seq::<(u32, int, int)>::empty());
                        assert(done + rest =~= done);
                    }
                    return;
                },
            }
            at = start + len;
            k = k + 1;
        }
    }

    /// Records a decoded load command.
    fn apply_command(&mut self, c: LoadCommand)
        ensures
            final(self).header == old(self).header,
            final(self).big_endian == old(self).big_endian,
            final(self).is_32_bits == old(self).is_32_bits,
            match c {
                LoadCommand::Segment(seg) => final(self).segments@ == old(self).segments@.push(seg),
                _ => final(self).segments == old(self).segments,
            },
            match c {
                LoadCommand::Dylib(d) => final(self).dylibs@ == old(self).dylibs@.push(d),
                _ => final(self).dylibs == old(self).dylibs,
            },
            match c {
                LoadCommand::Rpath(p) => final(self).rpaths@ == old(self).rpaths@.push(p),
                _ => final(self).rpaths == old(self).rpaths,
            },
            c is Other ==> *final(self) == *old(self),
            !(c is Main) ==> final(self).entry_point_offset == old(self).entry_point_offset,
            !(c is Thread) ==> final(self).entry_point_rva == old(self).entry_point_rva,
            lists_empty(*old(self)) && (c matches LoadCommand::Symtab(t) ==> t.entries@.len() == 0)
                ==> lists_empty(*final(self)),
            applied(*old(self), *final(self), c),
    {
        match c {
            LoadCommand::Main { entry_offset, stack_size } => {
                self.entry_point_offset = Some(entry_offset);
                self.stack_size = Some(stack_size);
            },
            LoadCommand::Thread { entry_rva } => {
                self.entry_point_rva = Some(entry_rva);
            },
            LoadCommand::Segment(s) => self.segments.push(s),
            LoadCommand::Rpath(p) => self.rpaths.push(p),
            LoadCommand::Dylib(d) => self.dylibs.push(d),
            LoadCommand::SourceVersion(v) => {
                self.source_version = Some(v);
            },
            LoadCommand::Dylinker(d) => {
                self.dynamic_linker = Some(d);
            },
            LoadCommand::Symtab(t) => {
                self.symtab = Some(t);
            },
            LoadCommand::Dysymtab(t) => {
                self.dysymtab = Some(t);
            },
            LoadCommand::CodeSignature(t) => {
                self.code_signature_data = Some(t);
            },
            LoadCommand::ExportsTrie(t) => {
                self.dyld_export_trie = Some(t);
            },
            LoadCommand::ChainedFixups(t) => {
                self.dyld_chain_fixups = Some(t);
            },
            LoadCommand::DyldInfo(t) => {
                self.dyld_info = Some(t);
            },
            LoadCommand::Uuid(u) => {
                self.uuid = Some(u);
            },
            LoadCommand::BuildVersion(b) => {
                self.build_version = Some(b);
            },
            LoadCommand::MinVersion(m) => {
                self.min_version = Some(m);
            },
            LoadCommand::LinkerOptions(opts) => {
                let mut opts = opts;
                self.linker_options.append(&mut opts);
            },
            LoadCommand::Other => {},
        }
    }

    /// Converts a relative virtual address to a file offset through the
    /// segment that maps it.
    pub fn rva_to_offset(&self, rva: u64) -> (r: Option<u64>)
        ensures
            r == rva_lookup(self.segments@, rva),
    {
        let mut i: usize = 0;
        proof {
            assert(self.segments@.subrange(0, self.segments@.len() as int) =~= self.segments@);
        }
        while i < self.segments.len()
            invariant
                i <= self.segments@.len(),
                rva_lookup(self.segments@, rva) == rva_lookup(self.segments@.subrange(i as int, self.segments@.len() as int), rva),
            decreases self.segments@.len() - i,
        {
            let ghost rest = self.segments@.subrange(i as int, self.segments@.len() as int);
            proof {
                assert(rest.drop_first() =~= self.segments@.subrange(i + 1, self.segments@.len() as int));
            }
            let seg = &self.segments[i];
            let end = match seg.vmaddr.checked_add(seg.vmsize) {
                Some(e) => e,
                None => return None,
            };
            if rva >= seg.vmaddr && rva < end {
                return seg.fileoff.checked_add(rva - seg.vmaddr);
            }
            i = i + 1;
        }
        None
    }
}

/// Decodes the data of load command `cmd`. `None` means the data is too
/// short or malformed for the command.
pub fn decode_command(cmd: u32, d: &[u8], big: bool, is_32: bool, cputype: u32) -> (r: Option<LoadCommand>)
    ensures
        r.is_some() == command_ok(cmd, d@, big, is_32, cputype),
        r matches Some(LoadCommand::Segment(_)) ==> cmd == LC_SEGMENT || cmd == LC_SEGMENT_64,
        r matches Some(LoadCommand::Dylib(_)) ==> is_dylib_command(cmd),
        r matches Some(LoadCommand::Rpath(_)) ==> cmd == LC_RPATH,
        r matches Some(LoadCommand::Symtab(t)) ==> t.entries@.len() == 0,
        r matches Some(c) ==> decoded(cmd, d@, big, is_32, cputype, c),
        (cmd == LC_SEGMENT || cmd == LC_SEGMENT_64) ==> match r {
            Some(LoadCommand::Segment(seg)) => segment_fits(d@, big, is_32) && segment_read(seg, d@, big, is_32),
            None => !segment_fits(d@, big, is_32),
            _ => false,
        },
        cmd == LC_UNIXTHREAD ==> match thread_entry(d@, big, cputype) {
            Some(e) => r == Some(LoadCommand::Thread { entry_rva: e }),
            None => r.is_none(),
        },
        cmd == LC_SYMTAB ==> match r {
            Some(LoadCommand::Symtab(t)) => fits(d@, 0, 16) && t.symoff == u32_at(d@, 0, big)
                && t.nsyms == u32_at(d@, 4, big) && t.stroff == u32_at(d@, 8, big) && t.strsize == u32_at(d@, 12, big)
                && t.entries@.len() == 0,
            None => !fits(d@, 0, 16),
            _ => false,
        },
        cmd == LC_DYSYMTAB ==> match r {
            Some(LoadCommand::Dysymtab(t)) => fits(d@, 0, 64) && dysymtab_read(t, d@, big),
            None => !fits(d@, 0, 64),
            _ => false,
        },
        (cmd == LC_DYLD_INFO || cmd == LC_DYLD_INFO_ONLY) ==> match r {
            Some(LoadCommand::DyldInfo(t)) => fits(d@, 0, 40) && dyld_info_read(t, d@, big),
            None => !fits(d@, 0, 40),
            _ => false,
        },
        cmd == LC_BUILD_VERSION ==> match r {
            Some(LoadCommand::BuildVersion(t)) => fits(d@, 0, 16) && 16 + 8 * u32_at(d@, 12, big) <= d@.len()
                && t.platform == u32_at(d@, 0, big) && t.minos == u32_at(d@, 4, big) && t.sdk == u32_at(d@, 8, big)
                && t.tools@.len() == u32_at(d@, 12, big) && tools_read(t.tools@, d@, 16, big),
            None => !fits(d@, 0, 16) || 16 + 8 * u32_at(d@, 12, big) > d@.len(),
            _ => false,
        },
        cmd == LC_UNIXTHREAD ==> !(r matches Some(LoadCommand::Other)),
        cmd == LC_MAIN ==> match r {
            Some(LoadCommand::Main { entry_offset, stack_size }) => fits(d@, 0, 16) && entry_offset == u64_at(d@, 0, big)
                && stack_size == u64_at(d@, 8, big),
            None => !fits(d@, 0, 16),
            _ => false,
        },
        (cmd == LC_RPATH || cmd == LC_ID_DYLINKER || cmd == LC_LOAD_DYLINKER || cmd == LC_DYLD_ENVIRONMENT) ==> match r {
            Some(LoadCommand::Rpath(p)) => cmd == LC_RPATH && fits(d@, 0, 4) && p@ == take_till_nul(d@, 4),
            Some(LoadCommand::Dylinker(p)) => cmd != LC_RPATH && fits(d@, 0, 4) && p@ == take_till_nul(d@, 4),
            None => !fits(d@, 0, 4),
            _ => false,
        },
        (cmd == LC_LOAD_DYLIB || cmd == LC_ID_DYLIB || cmd == LC_LOAD_WEAK_DYLIB || cmd == LC_REEXPORT_DYLIB) ==> match r {
            Some(LoadCommand::Dylib(t)) => fits(d@, 0, 16) && t.name@ == take_till_nul(d@, 16)
                && t.timestamp == u32_at(d@, 4, big) && t.current_version == u32_at(d@, 8, big)
                && t.compatibility_version == u32_at(d@, 12, big),
            None => !fits(d@, 0, 16),
            _ => false,
        },
        cmd == LC_SOURCE_VERSION ==> match r {
            Some(LoadCommand::SourceVersion(v)) => fits(d@, 0, 8) && v == u64_at(d@, 0, big),
            None => !fits(d@, 0, 8),
            _ => false,
        },
        cmd == LC_CODE_SIGNATURE ==> match r {
            Some(LoadCommand::CodeSignature(t)) => fits(d@, 0, 8) && t.dataoff == u32_at(d@, 0, big) && t.datasize == u32_at(d@, 4, big),
            None => !fits(d@, 0, 8),
            _ => false,
        },
        cmd == LC_DYLD_EXPORTS_TRIE ==> match r {
            Some(LoadCommand::ExportsTrie(t)) => fits(d@, 0, 8) && t.dataoff == u32_at(d@, 0, big) && t.datasize == u32_at(d@, 4, big),
            None => !fits(d@, 0, 8),
            _ => false,
        },
        cmd == LC_DYLD_CHAINED_FIXUPS ==> match r {
            Some(LoadCommand::ChainedFixups(t)) => fits(d@, 0, 8) && t.dataoff == u32_at(d@, 0, big) && t.datasize == u32_at(d@, 4, big),
            None => !fits(d@, 0, 8),
            _ => false,
        },
        cmd == LC_UUID ==> match r {
            Some(LoadCommand::Uuid(u)) => fits(d@, 0, 16) && u@ == trim_nuls(d@.subrange(0, 16)),
            None => !fits(d@, 0, 16),
            _ => false,
        },
        (cmd == LC_VERSION_MIN_MACOSX || cmd == LC_VERSION_MIN_IPHONEOS || cmd == LC_VERSION_MIN_TVOS
            || cmd == LC_VERSION_MIN_WATCHOS) ==> match r {
            Some(LoadCommand::MinVersion(m)) => fits(d@, 0, 8) && m.device == cmd && m.version == u32_at(d@, 0, big)
                && m.sdk == u32_at(d@, 4, big),
            None => !fits(d@, 0, 8),
            _ => false,
        },
        cmd == LC_LINKER_OPTION ==> match r {
            Some(LoadCommand::LinkerOptions(o)) => fits(d@, 0, 4)
                && nul_strings(d@, 4, u32_at(d@, 0, big) as nat) == Some(o@.map_values(|v: Vec<u8>| v@)),
            None => !fits(d@, 0, 4) || nul_strings(d@, 4, u32_at(d@, 0, big) as nat).is_none(),
            _ => false,
        },
        !(cmd == LC_MAIN || cmd == LC_UNIXTHREAD || cmd == LC_SEGMENT || cmd == LC_SEGMENT_64 || cmd == LC_RPATH
            || cmd == LC_LOAD_DYLIB || cmd == LC_ID_DYLIB || cmd == LC_LOAD_WEAK_DYLIB || cmd == LC_REEXPORT_DYLIB
            || cmd == LC_SOURCE_VERSION || cmd == LC_ID_DYLINKER || cmd == LC_LOAD_DYLINKER
            || cmd == LC_DYLD_ENVIRONMENT || cmd == LC_SYMTAB || cmd == LC_DYSYMTAB || cmd == LC_CODE_SIGNATURE
            || cmd == LC_DYLD_EXPORTS_TRIE || cmd == LC_DYLD_CHAINED_FIXUPS || cmd == LC_DYLD_INFO
            || cmd == LC_DYLD_INFO_ONLY || cmd == LC_UUID || cmd == LC_BUILD_VERSION
            || cmd == LC_VERSION_MIN_MACOSX || cmd == LC_VERSION_MIN_IPHONEOS || cmd == LC_VERSION_MIN_TVOS
            || cmd == LC_VERSION_MIN_WATCHOS || cmd == LC_LINKER_OPTION) ==> r == Some(LoadCommand::Other),
{
    if cmd == LC_MAIN {
        match (read_u64(d, 0, big), read_u64(d, 8, big)) {
            (Some(entry_offset), Some(stack_size)) => Some(LoadCommand::Main { entry_offset, stack_size }),
            _ => None,
        }
    } else if cmd == LC_UNIXTHREAD {
        match thread_command(d, big, cputype) {
            Some(e) => Some(LoadCommand::Thread { entry_rva: e }),
            None => None,
        }
    } else if cmd == LC_SEGMENT || cmd == LC_SEGMENT_64 {
        match segment_command(d, big, is_32) {
            Some(s) => Some(LoadCommand::Segment(s)),
            None => None,
        }
    } else if cmd == LC_RPATH {
        match string_command(d) {
            Some(s) => Some(LoadCommand::Rpath(s)),
            None => None,
        }
    } else if cmd == LC_LOAD_DYLIB || cmd == LC_ID_DYLIB || cmd == LC_LOAD_WEAK_DYLIB || cmd == LC_REEXPORT_DYLIB {
        match dylib_command(d, big) {
            Some(s) => Some(LoadCommand::Dylib(s)),
            None => None,
        }
    } else if cmd == LC_SOURCE_VERSION {
        match read_u64(d, 0, big) {
            Some(v) => Some(LoadCommand::SourceVersion(v)),
            None => None,
        }
    } else if cmd == LC_ID_DYLINKER || cmd == LC_LOAD_DYLINKER || cmd == LC_DYLD_ENVIRONMENT {
        match string_command(d) {
            Some(s) => Some(LoadCommand::Dylinker(s)),
            None => None,
        }
    } else if cmd == LC_SYMTAB {
        match symtab_command(d, big) {
            Some(s) => Some(LoadCommand::Symtab(s)),
            None => None,
        }
    } else if cmd == LC_DYSYMTAB {
        match dysymtab_command(d, big) {
            Some(s) => Some(LoadCommand::Dysymtab(s)),
            None => None,
        }
    } else if cmd == LC_CODE_SIGNATURE {
        match linkeditdata_command(d, big) {
            Some(s) => Some(LoadCommand::CodeSignature(s)),
            None => None,
        }
    } else if cmd == LC_DYLD_EXPORTS_TRIE {
        match linkeditdata_command(d, big) {
            Some(s) => Some(LoadCommand::ExportsTrie(s)),
            None => None,
        }
    } else if cmd == LC_DYLD_CHAINED_FIXUPS {
        match linkeditdata_command(d, big) {
            Some(s) => Some(LoadCommand::ChainedFixups(s)),
            None => None,
        }
    } else if cmd == LC_DYLD_INFO || cmd == LC_DYLD_INFO_ONLY {
        match dyld_info_command(d, big) {
            Some(s) => Some(LoadCommand::DyldInfo(s)),
            None => None,
        }
    } else if cmd == LC_UUID {
        match uuid_command(d) {
            Some(s) => Some(LoadCommand::Uuid(s)),
            None => None,
        }
    } else if cmd == LC_BUILD_VERSION {
        match build_version_command(d, big) {
            Some(s) => Some(LoadCommand::BuildVersion(s)),
            None => None,
        }
    } else if cmd == LC_VERSION_MIN_MACOSX || cmd == LC_VERSION_MIN_IPHONEOS || cmd == LC_VERSION_MIN_TVOS
        || cmd == LC_VERSION_MIN_WATCHOS {
        match (read_u32(d, 0, big), read_u32(d, 4, big)) {
            (Some(version), Some(sdk)) => Some(LoadCommand::MinVersion(MinVersion { device: cmd, version, sdk })),
            _ => None,
        }
    } else if cmd == LC_LINKER_OPTION {
        match linker_options_command(d, big) {
            Some(s) => Some(LoadCommand::LinkerOptions(s)),
            None => None,
        }
    } else {
        Some(LoadCommand::Other)
    }
}

} // verus!
