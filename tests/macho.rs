use yara_x::macho::{decode_command, MachO, MachOError, FAT_MAGIC, MH_MAGIC, MH_MAGIC_64};
use yara_x::macho_cmds::{LoadCommand, LC_SEGMENT_64};
use yara_x::macho_fields::{
    convert_to_build_tool_version, convert_to_source_version_string, convert_to_version_string, uuid_string,
};

fn be32(v: u32) -> [u8; 4] {
    v.to_be_bytes()
}

fn le32(v: u32) -> [u8; 4] {
    v.to_le_bytes()
}

fn le64(v: u64) -> [u8; 8] {
    v.to_le_bytes()
}

/// A big-endian 32-bit image header with no load commands.
fn header32_be(cputype: u32) -> Vec<u8> {
    let mut v = Vec::new();
    for w in [MH_MAGIC, cputype, 3, 2, 0, 0, 0x85] {
        v.extend_from_slice(&be32(w));
    }
    v
}

/// A little-endian 64-bit image with the given load commands.
fn image64(commands: &[Vec<u8>]) -> Vec<u8> {
    let sizeofcmds: usize = commands.iter().map(|c| c.len()).sum();
    let mut v = Vec::new();
    v.extend_from_slice(&MH_MAGIC_64.to_be_bytes().iter().rev().copied().collect::<Vec<u8>>());
    for w in [0x0100000c, 0, 2, commands.len() as u32, sizeofcmds as u32, 0, 0] {
        v.extend_from_slice(&le32(w));
    }
    for c in commands {
        v.extend_from_slice(c);
    }
    v
}

fn command(cmd: u32, data: &[u8]) -> Vec<u8> {
    let mut v = Vec::new();
    v.extend_from_slice(&le32(cmd));
    v.extend_from_slice(&le32(8 + data.len() as u32));
    v.extend_from_slice(data);
    v
}

fn name16(s: &str) -> [u8; 16] {
    let mut n = [0u8; 16];
    n[..s.len()].copy_from_slice(s.as_bytes());
    n
}

fn segment64(name: &str, vmaddr: u64, vmsize: u64, fileoff: u64) -> Vec<u8> {
    let mut d = Vec::new();
    d.extend_from_slice(&name16(name));
    for w in [vmaddr, vmsize, fileoff, vmsize] {
        d.extend_from_slice(&le64(w));
    }
    for w in [7u32, 5, 0, 0] {
        d.extend_from_slice(&le32(w));
    }
    command(LC_SEGMENT_64, &d)
}

#[test]
fn fat_file_with_truncated_second_arch() {
    let first = header32_be(7);
    let mut data = Vec::new();
    data.extend_from_slice(&be32(FAT_MAGIC));
    data.extend_from_slice(&be32(2));
    // First architecture: right after the table.
    for w in [7u32, 3, 48, first.len() as u32, 12] {
        data.extend_from_slice(&be32(w));
    }
    // Second architecture: past the end of the file.
    for w in [0x01000007u32, 3, 4096, 4096, 12] {
        data.extend_from_slice(&be32(w));
    }
    assert_eq!(data.len(), 48);
    data.extend_from_slice(&first);

    let m = MachO::parse(&data).unwrap();
    assert_eq!(m.fat_magic, Some(FAT_MAGIC));
    assert_eq!(m.archs.len(), 2);
    assert_eq!(m.archs[1].offset, 4096);
    assert_eq!(m.files.len(), 1);
    assert_eq!(m.files[0].header.cputype, 7);
    assert_eq!(m.files[0].header.flags, 0x85);
    assert!(m.files[0].big_endian);
    assert!(m.files[0].is_32_bits);
}

#[test]
fn fat_table_cut_short_is_an_error() {
    let mut data = Vec::new();
    data.extend_from_slice(&be32(FAT_MAGIC));
    data.extend_from_slice(&be32(3));
    data.extend_from_slice(&[0u8; 20]);
    assert_eq!(MachO::parse(&data), Err(MachOError::Truncated));
}

#[test]
fn bad_magic_and_short_input() {
    assert_eq!(MachO::parse(&[1, 2]), Err(MachOError::Truncated));
    assert_eq!(MachO::parse(&[0u8; 40]), Err(MachOError::BadMagic));
    // A valid magic but a header cut short.
    assert_eq!(MachO::parse(&be32(MH_MAGIC)), Err(MachOError::Truncated));
}

#[test]
fn single_image_with_segments_and_entry_point() {
    let mut main = Vec::new();
    main.extend_from_slice(&le64(0x1234));
    main.extend_from_slice(&le64(0x8000));
    let mut uuid = Vec::new();
    uuid.extend_from_slice(&[0xAB; 16]);
    let data = image64(&[
        segment64("__TEXT", 0x1000, 0x2000, 0x0),
        segment64("__DATA", 0x4000, 0x1000, 0x3000),
        command(0x80000028, &main),
        command(0x1b, &uuid),
    ]);
    let m = MachO::parse(&data).unwrap();
    assert_eq!(m.fat_magic, None);
    assert_eq!(m.files.len(), 1);
    let f = &m.files[0];
    assert!(!f.big_endian);
    assert!(!f.is_32_bits);
    assert_eq!(f.header.ncmds, 4);
    assert_eq!(f.segments.len(), 2);
    assert_eq!(f.segments[0].segname, b"__TEXT".to_vec());
    assert_eq!(f.segments[1].vmaddr, 0x4000);
    assert_eq!(f.entry_point_offset, Some(0x1234));
    assert_eq!(f.stack_size, Some(0x8000));
    assert_eq!(f.uuid, Some(vec![0xAB; 16]));
    assert_eq!(f.rva_to_offset(0x4010), Some(0x3010));
    assert_eq!(f.rva_to_offset(0x1500), Some(0x500));
    assert_eq!(f.rva_to_offset(0x9000), None);
}

#[test]
fn truncated_command_stops_the_command_list() {
    let mut data = image64(&[segment64("__TEXT", 0x1000, 0x2000, 0)]);
    // Claims two commands but holds one.
    data[16] = 2;
    let m = MachO::parse(&data).unwrap();
    assert_eq!(m.files[0].segments.len(), 1);
}

#[test]
fn segment_command_with_missing_sections_is_refused() {
    let mut d = Vec::new();
    d.extend_from_slice(&name16("__TEXT"));
    for w in [0u64, 0, 0, 0] {
        d.extend_from_slice(&le64(w));
    }
    for w in [7u32, 5, 1, 0] {
        d.extend_from_slice(&le32(w));
    }
    assert_eq!(decode_command(LC_SEGMENT_64, &d, false, false, 0), None);
    assert!(matches!(decode_command(0x99, &d, false, false, 0), Some(LoadCommand::Other)));
}

#[test]
fn dylib_and_linker_options() {
    let mut dylib = Vec::new();
    for w in [24u32, 2, 0x000A0F02, 0x00010000] {
        dylib.extend_from_slice(&le32(w));
    }
    dylib.extend_from_slice(b"/usr/lib/libSystem.B.dylib\0\0");
    let mut opts = Vec::new();
    opts.extend_from_slice(&le32(2));
    opts.extend_from_slice(b"-lz\0-framework\0");
    let data = image64(&[command(0x0c, &dylib), command(0x2d, &opts)]);
    let m = MachO::parse(&data).unwrap();
    let f = &m.files[0];
    assert_eq!(f.dylibs.len(), 1);
    assert_eq!(f.dylibs[0].name, b"/usr/lib/libSystem.B.dylib".to_vec());
    assert_eq!(f.dylibs[0].timestamp, 2);
    assert_eq!(convert_to_version_string(f.dylibs[0].current_version), "10.15.2");
    assert_eq!(f.linker_options, vec![b"-lz".to_vec(), b"-framework".to_vec()]);
}

#[test]
fn version_strings() {
    assert_eq!(convert_to_version_string(0x000A0F02), "10.15.2");
    assert_eq!(convert_to_build_tool_version(0x02610300), "609.3");
    let v: u64 = (1205 << 40) | (3 << 30) | (7 << 20) | (1 << 10) | 2;
    assert_eq!(convert_to_source_version_string(v), "1205.3.7.1.2");
}

#[test]
fn uuid_notation() {
    let b: Vec<u8> = (0u8..16).collect();
    assert_eq!(uuid_string(&b), "00010203-0405-0607-0809-0A0B0C0D0E0F");
}

#[test]
fn export_trie_names() {
    // Root: no export info, edges "_main" to node 16 and "_exit" to node 20.
    // Both children carry export info and have no edges.
    let mut trie = vec![0x00, 0x02];
    trie.extend_from_slice(b"_main\0");
    trie.push(0x10);
    trie.extend_from_slice(b"_exit\0");
    trie.push(0x14);
    trie.extend_from_slice(&[0x02, 0x00, 0x10, 0x00]);
    trie.extend_from_slice(&[0x02, 0x00, 0x20, 0x00]);
    let mut info = Vec::new();
    let base = 32 + 8 + 40;
    for w in [0u32, 0, 0, 0, 0, 0, 0, 0, base as u32, trie.len() as u32] {
        info.extend_from_slice(&le32(w));
    }
    let mut data = image64(&[command(0x80000022, &info)]);
    assert_eq!(data.len(), base);
    data.extend_from_slice(&trie);
    let m = MachO::parse(&data).unwrap();
    let f = &m.files[0];
    // The walk is depth-first from the last edge pushed.
    assert_eq!(f.exports, vec!["_exit".to_string(), "_main".to_string()]);
}

#[test]
fn bind_opcodes_give_imports() {
    let mut binds = vec![0x11, 0x40];
    binds.extend_from_slice(b"_printf\0");
    binds.extend_from_slice(&[0x90, 0x40]);
    binds.extend_from_slice(b"_exit\0");
    binds.extend_from_slice(&[0x60, 0x7F, 0x00]);
    let base = 32 + 8 + 40;
    let mut info = Vec::new();
    for w in [0u32, 0, base as u32, binds.len() as u32, 0, 0, 0, 0, 0, 0] {
        info.extend_from_slice(&le32(w));
    }
    let mut data = image64(&[command(0x22, &info)]);
    data.extend_from_slice(&binds);
    let m = MachO::parse(&data).unwrap();
    assert_eq!(m.files[0].imports, vec!["_printf".to_string(), "_exit".to_string()]);
}

#[test]
fn symbol_table_fallback() {
    // Two symbols: "_main" (external, defined in a section) and "_puts"
    // (undefined).
    let strtab = b"\0_main\0_puts\0".to_vec();
    let mut nlist = Vec::new();
    nlist.extend_from_slice(&le32(1));
    nlist.extend_from_slice(&[0x0f, 1]);
    nlist.extend_from_slice(&[0, 0]);
    nlist.extend_from_slice(&le64(0x1000));
    nlist.extend_from_slice(&le32(7));
    nlist.extend_from_slice(&[0x01, 0]);
    nlist.extend_from_slice(&[0, 0]);
    nlist.extend_from_slice(&le64(0));
    let base = 32 + 8 + 16;
    let mut symtab = Vec::new();
    for w in [base as u32, 2, (base + nlist.len()) as u32, strtab.len() as u32] {
        symtab.extend_from_slice(&le32(w));
    }
    let mut data = image64(&[command(0x02, &symtab)]);
    assert_eq!(data.len(), base);
    data.extend_from_slice(&nlist);
    data.extend_from_slice(&strtab);
    let m = MachO::parse(&data).unwrap();
    let f = &m.files[0];
    let entries = &f.symtab.as_ref().unwrap().entries;
    assert_eq!(entries.len(), 2);
    assert_eq!(f.all_exports(), vec!["_main".to_string()]);
    assert_eq!(f.all_imports(), vec!["_puts".to_string()]);
}

#[test]
fn entitlements_from_code_signature() {
    let xml = b"<plist><dict><key>com.apple.security.app-sandbox</key><true/>\
<key>groups</key><array>\n<string>a</string><string>a</string><string>b</string></array></dict></plist>";
    let mut blob = Vec::new();
    blob.extend_from_slice(&be32(0xfade7171));
    blob.extend_from_slice(&be32(8 + xml.len() as u32));
    blob.extend_from_slice(xml);
    let mut sb = Vec::new();
    sb.extend_from_slice(&be32(0xfade0cc0));
    sb.extend_from_slice(&be32(20 + blob.len() as u32));
    sb.extend_from_slice(&be32(1));
    sb.extend_from_slice(&be32(5));
    sb.extend_from_slice(&be32(20));
    sb.extend_from_slice(&blob);
    let base = 32 + 16;
    let mut cs = Vec::new();
    cs.extend_from_slice(&le32(base as u32));
    cs.extend_from_slice(&le32(sb.len() as u32));
    let mut data = image64(&[command(0x1d, &cs)]);
    assert_eq!(data.len(), base);
    data.extend_from_slice(&sb);
    let m = MachO::parse(&data).unwrap();
    let f = &m.files[0];
    assert_eq!(
        f.entitlements,
        vec!["com.apple.security.app-sandbox".to_string(), "groups".to_string(), "a".to_string(), "b".to_string()]
    );
}
