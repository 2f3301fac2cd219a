//! The link-edit tables of a Mach-O image: the symbol table, the export
//! trie, the binding opcode streams, the chained fixups and the code
//! signature super-blob.

use vstd::prelude::*;
use vstd::utf8::{decode_utf8, valid_utf8};
use crate::bytes::{find_nul, nul_from, read_u32, read_u8, u32_at, uint_size};
use crate::leb128::{leb_outcome, sleb128, uleb128, uleb_bits};
use crate::macho::{same_commands, MachOFile};
use crate::macho_codesign::{blob_entitlements, cs_blobs, cs_index_ok, ents, same_but_signature, sig_blobs, wrapper_bodies};
use crate::macho_cmds::{LinkedItData, SymbolTableEntry};
use crate::marks::{count_unvisited, lemma_count_le_len, lemma_mark_visited, unvisited};

verus! {

pub const EXPORT_SYMBOL_FLAGS_WEAK_DEFINITION: u64 = 0x04;
pub const EXPORT_SYMBOL_FLAGS_REEXPORT: u64 = 0x08;
pub const EXPORT_SYMBOL_FLAGS_STUB_AND_RESOLVER: u64 = 0x10;

pub const BIND_OPCODE_MASK: u8 = 0xF0;
pub const BIND_OPCODE_SET_DYLIB_ORDINAL_ULEB: u8 = 0x20;
pub const BIND_OPCODE_SET_SYMBOL_TRAILING_FLAGS_IMM: u8 = 0x40;
pub const BIND_OPCODE_SET_ADDEND_SLEB: u8 = 0x60;
pub const BIND_OPCODE_SET_SEGMENT_AND_OFFSET_ULEB: u8 = 0x70;
pub const BIND_OPCODE_ADD_ADDR_ULEB: u8 = 0x80;
pub const BIND_OPCODE_DO_BIND_ADD_ADDR_ULEB: u8 = 0xA0;
pub const BIND_OPCODE_DO_BIND_ULEB_TIMES_SKIPPING_ULEB: u8 = 0xC0;

pub const CS_MAGIC_BLOBWRAPPER: u32 = 0xfade0b01;
pub const CS_MAGIC_EMBEDDED_ENTITLEMENTS: u32 = 0xfade7171;

/// Relies on bstr's `ByteSlice::to_str`: the bytes as a string when they are
/// valid UTF-8, none otherwise.
#[verifier::external_body]
pub(crate) fn utf8_string(b: &[u8]) -> (r: Option<String>)
    ensures
        match r {
            Some(s) => valid_utf8(b@) && s@ == decode_utf8(b@),
            None => !valid_utf8(b@),
        },
{
    match bstr::ByteSlice::to_str(b) {
        Ok(s) => Some(s.to_string()),
        Err(_) => None,
    }
}

/// The bytes `[start, start + len)` of `data`, with the sum saturating, when
/// they lie inside it.
pub open spec fn region_ok(data: Seq<u8>, start: int, len: int) -> bool {
    let end = if start + len > usize::MAX { usize::MAX as int } else { start + len };
    start <= end && end <= data.len()
}

/// Returns the end of the region `[start, start + len)` of `data`, with the
/// sum saturating, when the region lies inside `data`.
fn region_end(data: &[u8], start: usize, len: usize) -> (r: Option<usize>)
    ensures
        match r {
            Some(end) => region_ok(data@, start as int, len as int) && start <= end <= data@.len()
                && end == (if start + len > usize::MAX { usize::MAX as int } else { start + len }),
            None => !region_ok(data@, start as int, len as int),
        },
{
    let end = start.saturating_add(len);
    if end <= data.len() {
        Some(end)
    } else {
        None
    }
}

/// A NUL-terminated string of `s` from `from`: the position of its NUL byte,
/// or `None` when the data ends first.
fn nul_terminated(s: &[u8], from: usize) -> (r: Option<usize>)
    requires
        from <= s@.len(),
    ensures
        match r {
            Some(end) => end == nul_from(s@, from as int) && from <= end < s@.len() && s@[end as int] == 0,
            None => nul_from(s@, from as int) == s@.len(),
        },
{
    let end = find_nul(s, from);
    if end < s.len() {
        Some(end)
    } else {
        None
    }
}

/// The entries as plain values: tags and name.
pub open spec fn entries_view(es: Seq<SymbolTableEntry>) -> Seq<(u8, Seq<u8>)> {
    es.map_values(|e: SymbolTableEntry| (e.tags, e.value@))
}

/// The named symbols of `n` records of `w + 8` bytes from `pos`: each
/// record's type and its name in the string table, when that name is not
/// empty. Reading stops at a record cut short, or at a name that has no
/// terminating NUL byte.
pub open spec fn symbols_from(strtab: Seq<u8>, symtab: Seq<u8>, pos: int, n: nat, big: bool, w: int) -> Seq<(u8, Seq<u8>)>
    decreases n,
{
    if n == 0 || w < 0 || pos < 0 || pos + 8 + w > symtab.len() {
        Seq::empty()
    } else {
        let strx = u32_at(symtab, pos, big) as int;
        let tail = symbols_from(strtab, symtab, pos + 8 + w, (n - 1) as nat, big, w);
        if strx <= strtab.len() {
            let end = nul_from(strtab, strx);
            if end >= strtab.len() {
                Seq::empty()
            } else if end > strx {
                seq![(symtab[pos + 4], strtab.subrange(strx, end))] + tail
            } else {
                tail
            }
        } else {
            tail
        }
    }
}

/// The end of the region `[start, start + len)`, saturating.
pub open spec fn region_end_of(start: int, len: int) -> int {
    if start + len > usize::MAX { usize::MAX as int } else { start + len }
}

/// The region `[start, start + len)` of `data`, when it lies inside it.
pub open spec fn region_of(data: Seq<u8>, start: int, len: int) -> Option<Seq<u8>> {
    if region_ok(data, start, len) {
        Some(data.subrange(start, region_end_of(start, len)))
    } else {
        None
    }
}

/// The imports of the binding stream in a region.
pub open spec fn region_binds(data: Seq<u8>, start: int, len: int) -> Seq<Seq<char>> {
    match region_of(data, start, len) {
        Some(r) => bind_names(r, 0),
        None => Seq::empty(),
    }
}

/// The imports that the link-edit tables of `m` name: those of its three
/// binding streams, then those of its chained fixups.
pub open spec fn linkedit_imports(m: MachOFile, data: Seq<u8>) -> Seq<Seq<char>> {
    let binds = match m.dyld_info {
        Some(i) => region_binds(data, i.bind_off as int, i.bind_size as int) + region_binds(data, i.lazy_bind_off as int,
            i.lazy_bind_size as int) + region_binds(data, i.weak_bind_off as int, i.weak_bind_size as int),
        None => Seq::empty(),
    };
    let fixups = match m.dyld_chain_fixups {
        Some(f) => match region_of(data, f.dataoff as int, f.datasize as int) {
            Some(r) => chained_imports(r, m.big_endian),
            None => Seq::empty(),
        },
        None => Seq::empty(),
    };
    binds + fixups
}

/// The names of the export trie in a region.
pub open spec fn region_exports(data: Seq<u8>, start: int, len: int) -> Seq<Seq<char>> {
    match region_of(data, start, len) {
        Some(r) => trie_exports(r),
        None => Seq::empty(),
    }
}

/// The exported names that the link-edit tables of `m` give: those of the
/// export trie command, then those of the dyld information's trie.
pub open spec fn linkedit_exports(m: MachOFile, data: Seq<u8>) -> Seq<Seq<char>> {
    (match m.dyld_export_trie {
        Some(t) => region_exports(data, t.dataoff as int, t.datasize as int),
        None => Seq::empty(),
    }) + (match m.dyld_info {
        Some(i) => region_exports(data, i.export_off as int, i.export_size as int),
        None => Seq::empty(),
    })
}

/// The named symbols that the symbol table command of `m` points to.
pub open spec fn linkedit_symbols(m: MachOFile, data: Seq<u8>) -> Seq<(u8, Seq<u8>)> {
    match m.symtab {
        Some(t) => match region_of(data, t.stroff as int, t.strsize as int) {
            Some(strtab) => if t.symoff <= data.len() {
                symbols_from(strtab, data.subrange(t.symoff as int, data.len() as int), 0, t.nsyms as nat, m.big_endian,
                    uint_size(m.is_32_bits))
            } else {
                Seq::empty()
            },
            None => Seq::empty(),
        },
        None => Seq::empty(),
    }
}

/// The code signature region of `m`, when it has one inside the data with a
/// complete index.
pub open spec fn signature_region(m: MachOFile, data: Seq<u8>) -> Option<Seq<u8>> {
    match m.code_signature_data {
        Some(cs) => match region_of(data, cs.dataoff as int, cs.datasize as int) {
            Some(r) => if cs_index_ok(r) { Some(r) } else { None },
            None => None,
        },
        None => None,
    }
}

/// The CMS blobs of the code signature of `m`.
pub open spec fn linkedit_blobs(m: MachOFile, data: Seq<u8>) -> Seq<Seq<u8>> {
    match signature_region(m, data) {
        Some(r) => wrapper_bodies(r, cs_blobs(r, u32_at(r, 8, true) as nat)),
        None => Seq::empty(),
    }
}

/// The entitlements of the code signature of `m`.
pub open spec fn linkedit_ents(m: MachOFile, data: Seq<u8>) -> Seq<Seq<char>> {
    match signature_region(m, data) {
        Some(r) => blob_entitlements(r, cs_blobs(r, u32_at(r, 8, true) as nat)),
        None => Seq::empty(),
    }
}

impl MachOFile {
    /// Reads the tables that the load commands point to. Each is read
    /// best-effort: a malformed one stops only its own reading.
    #[verifier::rlimit(60)]
    pub fn parse_linkedit(&mut self, data: &[u8])
        ensures
            same_commands(*old(self), *final(self)),
            final(self).entry_point_offset == (match old(self).entry_point_rva {
                Some(rva) => crate::macho::rva_lookup(old(self).segments@, rva),
                None => old(self).entry_point_offset,
            }),
            match (old(self).symtab, final(self).symtab) {
                (Some(a), Some(b)) => b.symoff == a.symoff && b.nsyms == a.nsyms && b.stroff == a.stroff
                    && b.strsize == a.strsize && entries_view(b.entries@) == entries_view(a.entries@)
                    + linkedit_symbols(*old(self), data@),
                (None, None) => true,
                _ => false,
            },
            sig_blobs(*final(self)) == sig_blobs(*old(self)) + linkedit_blobs(*old(self), data@),
            ents(*final(self)) == ents(*old(self)) + linkedit_ents(*old(self), data@),
            final(self).imports@.map_values(|v: String| v@) == old(self).imports@.map_values(|v: String| v@)
                + linkedit_imports(*old(self), data@),
            final(self).exports@.len() >= old(self).exports@.len(),
            final(self).exports@.subrange(0, old(self).exports@.len() as int) == old(self).exports@,
            final(self).exports@.map_values(|v: String| v@) == old(self).exports@.map_values(|v: String| v@)
                + linkedit_exports(*old(self), data@),
    {
        let ghost m0 = *self;
        self.read_symtab(data);
        match self.entry_point_rva {
            Some(rva) => {
                self.entry_point_offset = self.rva_to_offset(rva);
            },
            None => {},
        }
        let ghost m1 = *self;
        self.read_signature(data);
        let ghost m2 = *self;
        self.read_exports(data);
        let ghost m3 = *self;
        self.read_imports(data);
        proof {
            assert(linkedit_blobs(m1, data@) == linkedit_blobs(m0, data@));
            assert(linkedit_ents(m1, data@) == linkedit_ents(m0, data@));
            assert(linkedit_imports(m3, data@) == linkedit_imports(m0, data@));
            assert(linkedit_exports(m2, data@) == linkedit_exports(m0, data@));
            assert(self.exports@.subrange(0, m0.exports@.len() as int) =~= m3.exports@.subrange(0, m2.exports@.len() as int)
                .subrange(0, m0.exports@.len() as int));
        }
    }

    /// Reads the symbol table that the `LC_SYMTAB` command points to.
    #[verifier::rlimit(60)]
    fn read_symtab(&mut self, data: &[u8])
        ensures
            same_commands(*old(self), *final(self)),
            final(self).entry_point_offset == old(self).entry_point_offset,
            final(self).exports == old(self).exports,
            final(self).imports == old(self).imports,
            final(self).entitlements == old(self).entitlements,
            final(self).signature_blobs == old(self).signature_blobs,
            match (old(self).symtab, final(self).symtab) {
                (Some(a), Some(b)) => b.symoff == a.symoff && b.nsyms == a.nsyms && b.stroff == a.stroff
                    && b.strsize == a.strsize && entries_view(b.entries@) == entries_view(a.entries@)
                    + linkedit_symbols(*old(self), data@),
                (None, None) => true,
                _ => false,
            },
    {
        match &self.symtab {
            Some(symtab) => {
                let str_offset = symtab.stroff as usize;
                let str_size = symtab.strsize as usize;
                let sym_offset = symtab.symoff as usize;
                let nsyms = symtab.nsyms;
                match region_end(data, str_offset, str_size) {
                    Some(str_end) => {
                        if sym_offset <= data.len() {
                            self.parse_symtab(&data[str_offset..str_end], &data[sym_offset..data.len()], nsyms);
                        } else {
                            proof {
                                assert(entries_view(symtab.entries@) =~= entries_view(symtab.entries@) + Seq::<(u8, Seq<u8>)>::empty());
                            }
                        }
                    },
                    None => {
                        proof {
                            assert(entries_view(symtab.entries@) =~= entries_view(symtab.entries@) + Seq::<(u8, Seq<u8>)>::empty());
                        }
                    },
                }
            },
            None => {},
        }
    }

    /// Reads the code signature that the `LC_CODE_SIGNATURE` command points to.
    #[verifier::rlimit(60)]
    fn read_signature(&mut self, data: &[u8])
        ensures
            same_but_signature(*old(self), *final(self)),
            sig_blobs(*final(self)) == sig_blobs(*old(self)) + linkedit_blobs(*old(self), data@),
            ents(*final(self)) == ents(*old(self)) + linkedit_ents(*old(self), data@),
    {
        match self.code_signature_data {
            Some(cs) => {
                let offset = cs.dataoff as usize;
                match region_end(data, offset, cs.datasize as usize) {
                    Some(end) => {
                        self.cs_superblob(&data[offset..end]);
                    },
                    None => {},
                }
            },
            None => {},
        }
        proof {
            assert(sig_blobs(*self) =~= sig_blobs(*old(self)) + linkedit_blobs(*old(self), data@));
            assert(ents(*self) =~= ents(*old(self)) + linkedit_ents(*old(self), data@));
        }
    }

    /// Reads the export tries of the `LC_DYLD_EXPORTS_TRIE` and dyld
    /// information commands, in that order.
    #[verifier::rlimit(60)]
    fn read_exports(&mut self, data: &[u8])
        ensures
            exports_grow(*old(self), *final(self)),
            final(self).exports@.map_values(|v: String| v@) == old(self).exports@.map_values(|v: String| v@)
                + linkedit_exports(*old(self), data@),
    {
        let ghost x0 = self.exports@.map_values(|v: String| v@);
        proof {
            lemma_exports_refl(*self);
        }
        let trie: Option<LinkedItData> = self.dyld_export_trie;
        match trie {
            Some(t) => {
                let offset = t.dataoff as usize;
                match region_end(data, offset, t.datasize as usize) {
                    Some(end) => self.parse_exports(&data[offset..end]),
                    None => {},
                }
            },
            None => {},
        }
        let ghost m = *self;
        let ghost x1 = self.exports@.map_values(|v: String| v@);
        match self.dyld_info {
            Some(info) => {
                let offset = info.export_off as usize;
                match region_end(data, offset, info.export_size as usize) {
                    Some(end) => {
                        self.parse_exports(&data[offset..end]);
                        proof {
                            assert(self.exports@.subrange(0, old(self).exports@.len() as int)
                                =~= self.exports@.subrange(0, m.exports@.len() as int).subrange(0, old(self).exports@.len() as int));
                        }
                    },
                    None => {},
                }
            },
            None => {},
        }
        proof {
            assert(self.exports@.map_values(|v: String| v@) =~= x0 + linkedit_exports(*old(self), data@));
        }
    }

    /// Reads the imports of the three binding streams of the dyld
    /// information command, then those of the chained fixups.
    #[verifier::rlimit(60)]
    fn read_imports(&mut self, data: &[u8])
        ensures
            imports_grow(*old(self), *final(self), linkedit_imports(*old(self), data@)),
    {
        let ghost i0 = self.imports@.map_values(|v: String| v@);
        match self.dyld_info {
            Some(info) => {
                self.bind_region(data, info.bind_off, info.bind_size);
                self.bind_region(data, info.lazy_bind_off, info.lazy_bind_size);
                self.bind_region(data, info.weak_bind_off, info.weak_bind_size);
            },
            None => {},
        }
        let ghost i1 = self.imports@.map_values(|v: String| v@);
        match self.dyld_chain_fixups {
            Some(f) => {
                let offset = f.dataoff as usize;
                match region_end(data, offset, f.datasize as usize) {
                    Some(end) => {
                        self.parse_chained_fixups(&data[offset..end]);
                    },
                    None => {},
                }
            },
            None => {},
        }
        proof {
            assert(self.imports@.map_values(|v: String| v@) =~= i0 + linkedit_imports(*old(self), data@));
        }
    }

    /// Collects the imports of the binding opcode stream in the region
    /// `[off, off + size)` of `data`, when that region lies inside it.
    fn bind_region(&mut self, data: &[u8], off: u32, size: u32)
        ensures
            imports_grow(*old(self), *final(self), region_binds(data@, off as int, size as int)),
    {
        match region_end(data, off as usize, size as usize) {
            Some(end) => self.parse_imports(&data[off as usize..end]),
            None => {
                proof {
                    let v = self.imports@.map_values(|v: String| v@);
                    assert(v =~= v + Seq::<Seq<char>>::empty());
                }
            },
        }
    }

    /// Reads `count` symbol table records and keeps, for each, its non-empty
    /// name from the string table. Reading stops at a record that is cut
    /// short or whose name has no terminating NUL byte.
    pub fn parse_symtab(&mut self, string_table: &[u8], symbol_table: &[u8], count: u32)
        ensures
            same_commands(*old(self), *final(self)),
            final(self).entry_point_offset == old(self).entry_point_offset,
            final(self).exports == old(self).exports,
            final(self).imports == old(self).imports,
            final(self).entitlements == old(self).entitlements,
            final(self).signature_blobs == old(self).signature_blobs,
            final(self).symtab.is_some() == old(self).symtab.is_some(),
            match (old(self).symtab, final(self).symtab) {
                (Some(a), Some(b)) => b.symoff == a.symoff && b.nsyms == a.nsyms && b.stroff == a.stroff
                    && b.strsize == a.strsize && entries_view(b.entries@) == entries_view(a.entries@) + symbols_from(
                    string_table@,
                    symbol_table@,
                    0,
                    count as nat,
                    old(self).big_endian,
                    uint_size(old(self).is_32_bits),
                ),
                _ => true,
            },
    {
        let big = self.big_endian;
        let is_32 = self.is_32_bits;
        let w: usize = if is_32 { 4 } else { 8 };
        let mut symtab = match self.symtab.take() {
            Some(t) => t,
            None => return,
        };
        let ghost first = symtab;
        let ghost all = symbols_from(string_table@, symbol_table@, 0, count as nat, big, w as int);
        let mut pos: usize = 0;
        let mut i: u32 = 0;
        while i < count
            invariant
                i <= count,
                pos <= symbol_table@.len(),
                w == uint_size(is_32),
                big == old(self).big_endian,
                is_32 == old(self).is_32_bits,
                symtab.symoff == first.symoff && symtab.nsyms == first.nsyms && symtab.stroff == first.stroff
                    && symtab.strsize == first.strsize,
                old(self).symtab == Some(first),
                entries_view(symtab.entries@) + symbols_from(string_table@, symbol_table@, pos as int, (count - i) as nat, big, w as int)
                    == entries_view(first.entries@) + all,
            ensures
                symtab.symoff == first.symoff && symtab.nsyms == first.nsyms && symtab.stroff == first.stroff
                    && symtab.strsize == first.strsize,
                entries_view(symtab.entries@) == entries_view(first.entries@) + all,
            decreases count - i,
        {
            let ghost rest = symbols_from(string_table@, symbol_table@, pos as int, (count - i) as nat, big, w as int);
            if symbol_table.len() - pos < 8 + w {
                proof {
                    assert(rest =~= Seq::<(u8, Seq<u8>)>::empty());
                    assert(entries_view(symtab.entries@) + rest =~= entries_view(symtab.entries@));
                }
                break;
            }
            let n_strx = read_u32(symbol_table, pos, big).unwrap() as usize;
            let n_type = read_u8(symbol_table, pos + 4).unwrap();
            let ghost old_pos = pos;
            let next_pos = pos + 8 + w;
            let ghost tail = symbols_from(string_table@, symbol_table@, next_pos as int, (count - i - 1) as nat, big, w as int);
            let ghost cur = entries_view(symtab.entries@);
            proof {
                assert(((count - i) as nat - 1) as nat == (count - i - 1) as nat);
            }
            if n_strx <= string_table.len() {
                match nul_terminated(string_table, n_strx) {
                    Some(end) => {
                        if end > n_strx {
                            symtab.entries.push(SymbolTableEntry {
                                tags: n_type,
                                value: vstd::slice::slice_to_vec(&string_table[n_strx..end]),
                            });
                            proof {
                                assert(entries_view(symtab.entries@) =~= cur.push((n_type, string_table@.subrange(n_strx as int, end as int))));
                                assert(rest == seq![(n_type, string_table@.subrange(n_strx as int, end as int))] + tail);
                                assert(cur + rest =~= entries_view(symtab.entries@) + tail);
                            }
                        } else {
                            proof {
                                assert(rest =~= Seq::<(u8, Seq<u8>)>::empty() + tail);
                            }
                        }
                    },
                    None => {
                        proof {
                            assert(old_pos + 8 + w <= symbol_table@.len());
                            assert(u32_at(symbol_table@, old_pos as int, big) as int == n_strx as int);
                            assert(nul_from(string_table@, n_strx as int) == string_table@.len());
                            assert(rest == symbols_from(string_table@, symbol_table@, old_pos as int, (count - i) as nat, big, w as int));
                            assert(rest =~= Seq::<(u8, Seq<u8>)>::empty());
                            assert(cur + rest =~= cur);
                        }
                        break;
                    },
                }
            }
            pos = next_pos;
            i = i + 1;
        }
        self.symtab = Some(symtab);
    }
}

/// The outcome of a LEB128 read at `pos`: the position after the number.
pub open spec fn leb_skip(s: Seq<u8>, pos: int) -> Option<int> {
    match leb_outcome(s.subrange(pos, s.len() as int)) {
        Ok(n) => Some(pos + n),
        Err(_) => None,
    }
}

/// The imported names that a binding opcode stream names from `pos` on:
/// the names of the symbol-setting opcodes that are valid UTF-8, up to the
/// end of the stream or to the first operand that cannot be read.
pub open spec fn bind_names(s: Seq<u8>, pos: int) -> Seq<Seq<char>>
    decreases s.len() - pos,
{
    if pos < 0 || pos >= s.len() {
        Seq::empty()
    } else {
        let op = s[pos] & 0xF0;
        let rest = pos + 1;
        if op == BIND_OPCODE_SET_DYLIB_ORDINAL_ULEB || op == BIND_OPCODE_SET_SEGMENT_AND_OFFSET_ULEB
            || op == BIND_OPCODE_ADD_ADDR_ULEB || op == BIND_OPCODE_DO_BIND_ADD_ADDR_ULEB
            || op == BIND_OPCODE_SET_ADDEND_SLEB {
            match leb_skip(s, rest) {
                Some(next) => if next > pos { bind_names(s, next) } else { Seq::empty() },
                None => Seq::empty(),
            }
        } else if op == BIND_OPCODE_DO_BIND_ULEB_TIMES_SKIPPING_ULEB {
            match leb_skip(s, rest) {
                Some(mid) => match leb_skip(s, mid) {
                    Some(next) => if next > pos { bind_names(s, next) } else { Seq::empty() },
                    None => Seq::empty(),
                },
                None => Seq::empty(),
            }
        } else if op == BIND_OPCODE_SET_SYMBOL_TRAILING_FLAGS_IMM {
            let end = nul_from(s, rest);
            if end >= s.len() || end < rest {
                Seq::empty()
            } else {
                let name = s.subrange(rest, end);
                let here = if valid_utf8(name) { seq![decode_utf8(name)] } else { Seq::empty() };
                here + bind_names(s, end + 1)
            }
        } else {
            bind_names(s, rest)
        }
    }
}

/// Skips one LEB128 number at `pos`, returning the position after it.
fn skip_leb(s: &[u8], pos: usize, signed: bool) -> (r: Option<usize>)
    requires
        pos <= s@.len(),
    ensures
        r == (match leb_skip(s@, pos as int) {
            Some(n) => Some(n as usize),
            None => None::<usize>,
        }),
        r matches Some(n) ==> pos < n <= s@.len(),
{
    let rest = &s[pos..s.len()];
    let n = if signed {
        match sleb128(rest) {
            Ok((_, n)) => n,
            Err(_) => return None,
        }
    } else {
        match uleb128(rest) {
            Ok((_, n)) => n,
            Err(_) => return None,
        }
    };
    Some(pos + n)
}

/// The binding streams and chained fixups of `b` only add imports, and the
/// rest of it is as in `a`.
pub open spec fn imports_grow(a: MachOFile, b: MachOFile, added: Seq<Seq<char>>) -> bool {
    &&& same_commands(a, b)
    &&& b.entry_point_offset == a.entry_point_offset
    &&& b.symtab == a.symtab
    &&& b.exports == a.exports
    &&& b.entitlements == a.entitlements
    &&& b.signature_blobs == a.signature_blobs
    &&& b.imports@.map_values(|v: String| v@) == a.imports@.map_values(|v: String| v@) + added
}

impl MachOFile {
    /// Collects the imported symbol names of a binding opcode stream.
    pub fn parse_imports(&mut self, data: &[u8])
        ensures
            imports_grow(*old(self), *final(self), bind_names(data@, 0)),
    {
        let mut pos: usize = 0;
        let ghost start = self.imports@.map_values(|v: String| v@);
        while pos < data.len()
            invariant
                pos <= data@.len(),
                imports_grow(*old(self), *self, self.imports@.map_values(|v: String| v@).subrange(start.len() as int, self.imports@.len() as int)),
                self.imports@.len() >= start.len(),
                self.imports@.map_values(|v: String| v@).subrange(0, start.len() as int) == start,
                start == old(self).imports@.map_values(|v: String| v@),
                self.imports@.map_values(|v: String| v@) + bind_names(data@, pos as int)
                    == start + bind_names(data@, 0),
            decreases data@.len() - pos,
        {
            let op = data[pos] & BIND_OPCODE_MASK;
            let rest = pos + 1;
            let ghost cur = self.imports@.map_values(|v: String| v@);
            if op == BIND_OPCODE_SET_DYLIB_ORDINAL_ULEB || op == BIND_OPCODE_SET_SEGMENT_AND_OFFSET_ULEB
                || op == BIND_OPCODE_ADD_ADDR_ULEB || op == BIND_OPCODE_DO_BIND_ADD_ADDR_ULEB
                || op == BIND_OPCODE_SET_ADDEND_SLEB {
                match skip_leb(data, rest, op == BIND_OPCODE_SET_ADDEND_SLEB) {
                    Some(next) => {
                        pos = next;
                    },
                    None => {
                        proof {
                            assert(cur + Seq::<Seq<char>>::empty() =~= cur);
                        }
                        return;
                    },
                }
            } else if op == BIND_OPCODE_DO_BIND_ULEB_TIMES_SKIPPING_ULEB {
                let mid = match skip_leb(data, rest, false) {
                    Some(m) => m,
                    None => {
                        proof {
                            assert(cur + Seq::<Seq<char>>::empty() =~= cur);
                        }
                        return;
                    },
                };
                match skip_leb(data, mid, false) {
                    Some(next) => {
                        pos = next;
                    },
                    None => {
                        proof {
                            assert(cur + Seq::<Seq<char>>::empty() =~= cur);
                        }
                        return;
                    },
                }
            } else if op == BIND_OPCODE_SET_SYMBOL_TRAILING_FLAGS_IMM {
                let end = match nul_terminated(data, rest) {
                    Some(e) => e,
                    None => {
                        proof {
                            assert(cur + Seq::<Seq<char>>::empty() =~= cur);
                        }
                        return;
                    },
                };
                match utf8_string(&data[rest..end]) {
                    Some(name) => {
                        self.imports.push(name);
                        proof {
                            let now = self.imports@.map_values(|v: String| v@);
                            assert(now =~= cur.push(decode_utf8(data@.subrange(rest as int, end as int))));
                            assert(now.subrange(0, start.len() as int) =~= cur.subrange(0, start.len() as int));
                            assert(cur + (seq![decode_utf8(data@.subrange(rest as int, end as int))]
                                + bind_names(data@, end + 1)) =~= now + bind_names(data@, end + 1));
                        }
                    },
                    None => {
                        proof {
                            assert(Seq::<Seq<char>>::empty() + bind_names(data@, end + 1) =~= bind_names(data@, end + 1));
                        }
                    },
                }
                pos = end + 1;
            } else {
                pos = rest;
            }
            proof {
                let now = self.imports@.map_values(|v: String| v@);
                assert(now.subrange(start.len() as int, now.len() as int) =~= now.subrange(start.len() as int, now.len() as int));
                assert(now =~= start + now.subrange(start.len() as int, now.len() as int));
            }
        }
        proof {
            let now = self.imports@.map_values(|v: String| v@);
            assert(now + Seq::<Seq<char>>::empty() =~= now);
        }
    }
}

/// A node of the export trie still to visit, with the name spelled by the
/// edges that lead to it.
struct ExportNode {
    offset: usize,
    prefix: Vec<u8>,
}

/// The value and end of the ULEB128 number at `pos`, if it reads.
pub open spec fn uleb_at(d: Seq<u8>, pos: int) -> Option<(u64, int)> {
    match leb_outcome(d.subrange(pos, d.len() as int)) {
        Ok(n) => Some((uleb_bits(d.subrange(pos, d.len() as int), n), pos + n)),
        Err(_) => None,
    }
}

/// The edges of an export trie node: `n` labels with their child offsets,
/// from `pos`; an edge whose label is not UTF-8 is left out. `None` when an
/// edge cannot be read.
pub open spec fn trie_edges(d: Seq<u8>, pos: int, n: nat) -> Option<Seq<(Seq<u8>, int)>>
    decreases n,
{
    if n == 0 {
        Some(Seq::empty())
    } else if pos < 0 || pos > d.len() || nul_from(d, pos) >= d.len() {
        None
    } else {
        let end = nul_from(d, pos);
        let label = d.subrange(pos, end);
        match uleb_at(d, end + 1) {
            None => None,
            Some((target, next)) => match trie_edges(d, next, (n - 1) as nat) {
                None => None,
                Some(rest) => Some((if valid_utf8(label) { seq![(label, target as usize as int)] } else { Seq::empty() })
                    + rest),
            },
        }
    }
}

/// Where the edges of the node at `off` start, after its export
/// information, and whether it has any; `None` when that information cannot
/// be read.
pub open spec fn trie_node_head(d: Seq<u8>, off: int) -> Option<(bool, int)> {
    match uleb_at(d, off) {
        None => None,
        Some((length, cur)) => if length == 0 {
            Some((false, cur))
        } else {
            match uleb_at(d, cur) {
                None => None,
                Some((flags, af)) => if flags == EXPORT_SYMBOL_FLAGS_STUB_AND_RESOLVER {
                    match leb_skip(d, af) {
                        Some(m) => match leb_skip(d, m) {
                            Some(r) => Some((true, r)),
                            None => None,
                        },
                        None => None,
                    }
                } else if flags == EXPORT_SYMBOL_FLAGS_REEXPORT {
                    match leb_skip(d, af) {
                        Some(m) => if nul_from(d, m) < d.len() { Some((true, nul_from(d, m) + 1)) } else { None },
                        None => None,
                    }
                } else if flags == EXPORT_SYMBOL_FLAGS_WEAK_DEFINITION {
                    match leb_skip(d, af) {
                        Some(r) => Some((true, r)),
                        None => None,
                    }
                } else {
                    Some((true, cur))
                },
            }
        },
    }
}

/// The node of the export trie at `off`: whether it carries export
/// information, and its edges; `None` when it cannot be read.
pub open spec fn trie_node(d: Seq<u8>, off: int) -> Option<(bool, Seq<(Seq<u8>, int)>)> {
    match trie_node_head(d, off) {
        None => None,
        Some((exported, r)) => if r < 0 || r >= d.len() {
            None
        } else {
            match trie_edges(d, r + 1, d[r] as nat) {
                None => None,
                Some(es) => Some((exported, es)),
            }
        },
    }
}

/// The stack entries for the edges of a node reached with `prefix`.
pub open spec fn edge_entries(es: Seq<(Seq<u8>, int)>, prefix: Seq<u8>) -> Seq<(int, Seq<u8>)> {
    es.map_values(|e: (Seq<u8>, int)| (e.1, prefix + e.0))
}

/// The names that the depth-first walk of the export trie records from the
/// state `stack` (the top is last) and `visited`: each node once, its name
/// when it carries export information and the name is UTF-8; the walk ends
/// at a node that cannot be read or that starts at the end of the data.
pub open spec fn trie_walk(d: Seq<u8>, stack: Seq<(int, Seq<u8>)>, visited: Seq<bool>) -> Seq<Seq<char>>
    decreases count_unvisited(visited), stack.len()
    via trie_walk_decreases
{
    if stack.len() == 0 || d.len() == 0 {
        Seq::empty()
    } else {
        let (off, prefix) = stack.last();
        let rest = stack.drop_last();
        if off > d.len() {
            trie_walk(d, rest, visited)
        } else if off == d.len() || off < 0 || off >= visited.len() {
            Seq::empty()
        } else if visited[off] {
            trie_walk(d, rest, visited)
        } else {
            match trie_node(d, off) {
                None => Seq::empty(),
                Some((exported, es)) => (if exported && valid_utf8(prefix) {
                    seq![decode_utf8(prefix)]
                } else {
                    Seq::empty()
                }) + trie_walk(d, rest + edge_entries(es, prefix), visited.update(off, true)),
            }
        }
    }
}

#[via_fn]
proof fn trie_walk_decreases(d: Seq<u8>, stack: Seq<(int, Seq<u8>)>, visited: Seq<bool>) {
    if stack.len() > 0 {
        let off = stack.last().0;
        if 0 <= off < visited.len() && !visited[off] {
            lemma_mark_visited(visited, off);
        }
    }
}

/// The names of the export trie in `d`, walked from its root.
pub open spec fn trie_exports(d: Seq<u8>) -> Seq<Seq<char>> {
    trie_walk(d, seq![(0int, Seq::<u8>::empty())], Seq::new(d.len(), |i: int| false))
}

/// The stack entries as plain values.
spec fn nodes_view(ns: Seq<ExportNode>) -> Seq<(int, Seq<u8>)> {
    ns.map_values(|n: ExportNode| (n.offset as int, n.prefix@))
}

/// The bytes of `a` followed by those of `b`.
fn concat_bytes(a: &[u8], b: &[u8]) -> (r: Vec<u8>)
    ensures
        r@ == a@ + b@,
{
    let mut out = vstd::slice::slice_to_vec(a);
    let mut i: usize = 0;
    while i < b.len()
        invariant
            i <= b@.len(),
            out@ == a@ + b@.subrange(0, i as int),
        decreases b@.len() - i,
    {
        out.push(b[i]);
        proof {
            assert(b@.subrange(0, i + 1) =~= b@.subrange(0, i as int).push(b@[i as int]));
            assert(out@ =~= a@ + b@.subrange(0, i + 1));
        }
        i = i + 1;
    }
    proof {
        assert(b@.subrange(0, b@.len() as int) =~= b@);
    }
    out
}

/// Reads where the edges of the trie node at `off` start, and whether the
/// node carries export information.
fn read_trie_node_head(data: &[u8], off: usize) -> (r: Option<(bool, usize)>)
    requires
        off < data@.len(),
    ensures
        match trie_node_head(data@, off as int) {
            Some((b, p)) => r == Some((b, p as usize)) && 0 <= p <= data@.len(),
            None => r is None,
        },
{
    let length = match uleb128(&data[off..data.len()]) {
        Ok((v, n)) => (v, off + n),
        Err(_) => return None,
    };
    let (length, cur) = length;
    if length == 0 {
        return Some((false, cur));
    }
    let (flags, after_flags) = match uleb128(&data[cur..data.len()]) {
        Ok((v, n)) => (v, cur + n),
        Err(_) => return None,
    };
    if flags == EXPORT_SYMBOL_FLAGS_STUB_AND_RESOLVER {
        let mid = match skip_leb(data, after_flags, false) {
            Some(m) => m,
            None => return None,
        };
        match skip_leb(data, mid, false) {
            Some(m) => Some((true, m)),
            None => None,
        }
    } else if flags == EXPORT_SYMBOL_FLAGS_REEXPORT {
        let mid = match skip_leb(data, after_flags, false) {
            Some(m) => m,
            None => return None,
        };
        match nul_terminated(data, mid) {
            Some(end) => Some((true, end + 1)),
            None => None,
        }
    } else if flags == EXPORT_SYMBOL_FLAGS_WEAK_DEFINITION {
        match skip_leb(data, after_flags, false) {
            Some(m) => Some((true, m)),
            None => None,
        }
    } else {
        Some((true, cur))
    }
}

/// Reads the trie node at `off`: whether it carries export information, and
/// the stack entries of its edges, reached with `prefix`.
fn read_trie_node(data: &[u8], off: usize, prefix: &Vec<u8>) -> (r: Option<(bool, Vec<ExportNode>)>)
    requires
        off < data@.len(),
    ensures
        match trie_node(data@, off as int) {
            Some((b, es)) => r matches Some((rb, v)) && rb == b && nodes_view(v@) == edge_entries(es, prefix@),
            None => r is None,
        },
{
    let dlen = data.len();
    let (exported, remaining) = match read_trie_node_head(data, off) {
        Some(x) => x,
        None => return None,
    };
    let edges = match read_u8(data, remaining) {
        Some(e) => e,
        None => return None,
    };
    let mut out: Vec<ExportNode> = Vec::new();
    let ghost mut acc: Seq<(Seq<u8>, int)> = Seq::empty();
    let mut ep = remaining + 1;
    let mut e: u8 = 0;
    proof {
        assert(acc + trie_edges(data@, ep as int, edges as nat).unwrap_or(Seq::empty()) =~= trie_edges(data@, ep as int,
            edges as nat).unwrap_or(Seq::empty()));
    }
    while e < edges
        invariant
            dlen == data@.len(),
            ep <= data@.len(),
            e <= edges,
            nodes_view(out@) == edge_entries(acc, prefix@),
            trie_node_head(data@, off as int) == Some((exported, remaining as int)),
            remaining < data@.len(),
            data@[remaining as int] == edges,
            trie_edges(data@, remaining + 1, edges as nat) == (match trie_edges(data@, ep as int, (edges - e) as nat) {
                Some(rest) => Some(acc + rest),
                None => None::<Seq<(Seq<u8>, int)>>,
            }),
        decreases edges - e,
    {
        proof {
            assert(((edges - e) as nat - 1) as nat == (edges - e - 1) as nat);
        }
        let end = match nul_terminated(data, ep) {
            Some(end) => end,
            None => {
                proof {
                    assert(trie_edges(data@, ep as int, (edges - e) as nat).is_none());
                }
                return None;
            },
        };
        let label = &data[ep..end];
        let (edge_offset, next) = match uleb128(&data[end + 1..data.len()]) {
            Ok((v, n)) => (v, end + 1 + n),
            Err(_) => {
                proof {
                    assert(uleb_at(data@, end + 1).is_none());
                    assert(trie_edges(data@, ep as int, (edges - e) as nat).is_none());
                }
                return None;
            },
        };
        proof {
            assert(uleb_at(data@, end + 1) == Some((edge_offset, next as int)));
        }
        let ghost item = (label@, edge_offset as usize as int);
        let ghost a0 = acc;
        match utf8_string(label) {
            Some(_) => {
                let p = concat_bytes(prefix.as_slice(), label);
                let ghost ov = nodes_view(out@);
                out.push(ExportNode { offset: #[verifier::truncate] (edge_offset as usize), prefix: p });
                proof {
                    acc = a0.push(item);
                    assert(nodes_view(out@) =~= ov.push((edge_offset as usize as int, prefix@ + label@)));
                    assert(edge_entries(acc, prefix@) =~= edge_entries(a0, prefix@).push((item.1, prefix@ + item.0)));
                    match trie_edges(data@, next as int, (edges - e - 1) as nat) {
                        Some(r2) => {
                            assert(a0 + (seq![item] + r2) =~= acc + r2);
                        },
                        None => {},
                    }
                }
            },
            None => {
                proof {
                    match trie_edges(data@, next as int, (edges - e - 1) as nat) {
                        Some(r2) => {
                            assert(a0 + (Seq::<(Seq<u8>, int)>::empty() + r2) =~= a0 + r2);
                        },
                        None => {},
                    }
                }
            },
        }
        ep = next;
        e = e + 1;
    }
    proof {
        assert(acc + Seq::<(Seq<u8>, int)>::empty() =~= acc);
        assert(trie_edges(data@, remaining + 1, edges as nat) == Some(acc));
    }
    Some((exported, out))
}

/// The names and other fields of `b` are those of `a`, but for its exports,
/// which only grow.
pub open spec fn exports_grow(a: MachOFile, b: MachOFile) -> bool {
    &&& same_commands(a, b)
    &&& b.entry_point_offset == a.entry_point_offset
    &&& b.symtab == a.symtab
    &&& b.imports == a.imports
    &&& b.entitlements == a.entitlements
    &&& b.signature_blobs == a.signature_blobs
    &&& b.exports@.len() >= a.exports@.len()
    &&& b.exports@.subrange(0, a.exports@.len() as int) == a.exports@
}

proof fn lemma_exports_refl(a: MachOFile)
    ensures
        exports_grow(a, a),
{
    assert(a.exports@.subrange(0, a.exports@.len() as int) =~= a.exports@);
}

impl MachOFile {
    /// Walks the export trie depth-first from its root and records the name
    /// of every node that carries export information. Each node is visited
    /// once, so a trie with cycles ends; a node that cannot be read ends the
    /// walk.
    pub fn parse_exports(&mut self, data: &[u8])
        ensures
            exports_grow(*old(self), *final(self)),
            final(self).exports@.map_values(|v: String| v@) == old(self).exports@.map_values(|v: String| v@)
                + trie_exports(data@),
            final(self).exports@.len() <= old(self).exports@.len() + data@.len(),
    {
        proof {
            lemma_exports_refl(*self);
        }
        let ghost e0 = self.exports@.map_values(|v: String| v@);
        let dlen = data.len();
        let mut visited = unvisited(data.len());
        proof {
            lemma_count_le_len(visited@);
            assert(visited@ =~= Seq::new(data@.len(), |i: int| false));
        }
        let mut stack: Vec<ExportNode> = Vec::new();
        stack.push(ExportNode { offset: 0, prefix: Vec::new() });
        proof {
            assert(nodes_view(stack@) =~= seq![(0int, Seq::<u8>::empty())]);
            assert(self.exports@.map_values(|v: String| v@) =~= e0);
        }
        while stack.len() > 0 && data.len() > 0
            invariant
                dlen == data@.len(),
                visited@.len() == data@.len(),
                exports_grow(*old(self), *self),
                e0 == old(self).exports@.map_values(|v: String| v@),
                self.exports@.len() + count_unvisited(visited@) <= old(self).exports@.len() + data@.len(),
                self.exports@.map_values(|v: String| v@) + trie_walk(data@, nodes_view(stack@), visited@)
                    == e0 + trie_exports(data@),
            decreases count_unvisited(visited@), stack@.len(),
        {
            let ghost sv = nodes_view(stack@);
            let ghost ev = self.exports@.map_values(|v: String| v@);
            let node = stack.pop().unwrap();
            proof {
                assert(nodes_view(stack@) =~= sv.drop_last());
                assert(sv.last() == (node.offset as int, node.prefix@));
            }
            if node.offset > data.len() {
                continue;
            }
            if node.offset == data.len() {
                proof {
                    assert(ev + Seq::<Seq<char>>::empty() =~= ev);
                }
                return;
            }
            if visited[node.offset] {
                continue;
            }
            proof {
                lemma_mark_visited(visited@, node.offset as int);
            }
            let ghost v0 = visited@;
            visited.set(node.offset, true);
            let (exported, mut children) = match read_trie_node(data, node.offset, &node.prefix) {
                Some(x) => x,
                None => {
                    proof {
                        assert(ev + Seq::<Seq<char>>::empty() =~= ev);
                    }
                    return;
                },
            };
            let ghost es = trie_node(data@, node.offset as int).unwrap().1;
            let ghost cv = nodes_view(children@);
            let ghost rest = nodes_view(stack@);
            stack.append(&mut children);
            proof {
                assert(nodes_view(stack@) =~= rest + cv);
                assert(cv == edge_entries(es, node.prefix@));
            }
            if exported {
                match utf8_string(node.prefix.as_slice()) {
                    Some(name) => {
                        let ghost before = self.exports@;
                        self.exports.push(name);
                        proof {
                            assert(self.exports@.subrange(0, old(self).exports@.len() as int)
                                =~= before.subrange(0, old(self).exports@.len() as int));
                            assert(self.exports@.map_values(|v: String| v@) =~= ev.push(decode_utf8(node.prefix@)));
                            assert(ev + (seq![decode_utf8(node.prefix@)] + trie_walk(data@, nodes_view(stack@), visited@))
                                =~= self.exports@.map_values(|v: String| v@) + trie_walk(data@, nodes_view(stack@), visited@));
                        }
                    },
                    None => {
                        proof {
                            assert(Seq::<Seq<char>>::empty() + trie_walk(data@, nodes_view(stack@), visited@)
                                =~= trie_walk(data@, nodes_view(stack@), visited@));
                        }
                    },
                }
            } else {
                proof {
                    assert(Seq::<Seq<char>>::empty() + trie_walk(data@, nodes_view(stack@), visited@)
                        =~= trie_walk(data@, nodes_view(stack@), visited@));
                }
            }
        }
        proof {
            assert(self.exports@.map_values(|v: String| v@) + Seq::<Seq<char>>::empty()
                =~= self.exports@.map_values(|v: String| v@));
        }
    }

    /// Collects the imported symbol names of a chained fixups table: for
    /// each import record, the name it points to in the symbol strings.
    pub fn parse_chained_fixups(&mut self, data: &[u8])
        ensures
            imports_grow(*old(self), *final(self), chained_imports(data@, old(self).big_endian)),
    {
        let big = self.big_endian;
        let ghost start = self.imports@.map_values(|v: String| v@);
        if data.len() < 28 {
            proof {
                assert(start =~= start + Seq::<Seq<char>>::empty());
            }
            return;
        }
        let dlen = data.len();
        let imports_offset = read_u32(data, 8, big).unwrap() as usize;
        let symbols_offset = read_u32(data, 12, big).unwrap();
        let imports_count = read_u32(data, 16, big).unwrap();
        if imports_offset > data.len() {
            proof {
                assert(start =~= start + Seq::<Seq<char>>::empty());
            }
            return;
        }
        let ghost all = fixup_names(data@, imports_offset as int, imports_count as nat, big, symbols_offset);
        let mut pos = imports_offset;
        let mut i: u32 = 0;
        proof {
            assert(self.imports@.map_values(|v: String| v@) =~= start + Seq::<Seq<char>>::empty());
        }
        while i < imports_count
            invariant
                dlen == data@.len(),
                pos <= data@.len(),
                i <= imports_count,
                big == old(self).big_endian,
                start == old(self).imports@.map_values(|v: String| v@),
                imports_grow(*old(self), *self, self.imports@.map_values(|v: String| v@).subrange(
                    start.len() as int, self.imports@.len() as int)),
                self.imports@.len() >= start.len(),
                self.imports@.map_values(|v: String| v@) + fixup_names(data@, pos as int, (imports_count - i) as nat, big, symbols_offset)
                    == start + all,
            ensures
                imports_grow(*old(self), *self, self.imports@.map_values(|v: String| v@).subrange(
                    start.len() as int, self.imports@.len() as int)),
                self.imports@.map_values(|v: String| v@) == start + all,
            decreases imports_count - i,
        {
            let ghost cur = self.imports@.map_values(|v: String| v@);
            let ghost rest = fixup_names(data@, pos as int, (imports_count - i) as nat, big, symbols_offset);
            let value = match read_u32(data, pos, big) {
                Some(v) => v,
                None => {
                    proof {
                        assert(rest =~= Seq::<Seq<char>>::empty());
                        assert(cur + rest =~= cur);
                    }
                    break;
                },
            };
            let next_pos = pos + 4;
            let ghost tail = fixup_names(data@, next_pos as int, (imports_count - i - 1) as nat, big, symbols_offset);
            proof {
                assert(((imports_count - i) as nat - 1) as nat == (imports_count - i - 1) as nat);
            }
            let name_offset = value / 512;
            let sum: u64 = symbols_offset as u64 + name_offset as u64;
            let at = (if sum > 0xffff_ffff { 0xffff_ffffu32 } else { sum as u32 }) as usize;
            if at <= data.len() {
                let end = match nul_terminated(data, at) {
                    Some(end) => end,
                    None => {
                        proof {
                            assert(rest =~= Seq::<Seq<char>>::empty());
                            assert(cur + rest =~= cur);
                        }
                        break;
                    },
                };
                match utf8_string(&data[at..end]) {
                    Some(name) => {
                        self.imports.push(name);
                        proof {
                            let now = self.imports@.map_values(|v: String| v@);
                            assert(now =~= cur.push(name@));
                            assert(cur + rest =~= now + tail);
                        }
                    },
                    None => {
                        proof {
                            assert(rest =~= Seq::<Seq<char>>::empty() + tail);
                        }
                    },
                }
            }
            proof {
                let now = self.imports@.map_values(|v: String| v@);
                assert(now =~= start + now.subrange(start.len() as int, now.len() as int));
            }
            pos = next_pos;
            i = i + 1;
        }
    }
}

/// The import names of a chained fixups table: the header gives where the
/// import records start, how many there are, and where the symbol names
/// start.
pub open spec fn chained_imports(data: Seq<u8>, big: bool) -> Seq<Seq<char>> {
    if data.len() < 28 || u32_at(data, 8, big) > data.len() {
        Seq::empty()
    } else {
        fixup_names(data, u32_at(data, 8, big) as int, u32_at(data, 16, big) as nat, big, u32_at(data, 12, big))
    }
}

/// The names of `n` import records from `pos`: each record's name offset
/// (its bits from 9 up) is added, saturating, to `symoff`; a name that is
/// not valid UTF-8 is skipped. Reading stops at a record cut short or at a
/// name that has no terminating NUL byte.
pub open spec fn fixup_names(data: Seq<u8>, pos: int, n: nat, big: bool, symoff: u32) -> Seq<Seq<char>>
    decreases n,
{
    if n == 0 || pos < 0 || pos + 4 > data.len() {
        Seq::empty()
    } else {
        let sum = symoff + u32_at(data, pos, big) / 512;
        let at = if sum > u32::MAX { u32::MAX as int } else { sum };
        let tail = fixup_names(data, pos + 4, (n - 1) as nat, big, symoff);
        if at <= data.len() {
            let end = nul_from(data, at);
            if end >= data.len() {
                Seq::empty()
            } else {
                let name = data.subrange(at, end);
                (if valid_utf8(name) { seq![decode_utf8(name)] } else { Seq::empty() }) + tail
            }
        } else {
            tail
        }
    }
}

} // verus!
