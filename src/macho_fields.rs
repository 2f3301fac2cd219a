//! The fields that a parsed Mach-O image exposes to rule conditions:
//! version numbers as dotted strings, the UUID in its usual notation, and
//! the exported and imported names, falling back on the symbol table when
//! the image has no dedicated tables for them.

use vstd::prelude::*;
use vstd::string::StringExecFns;
use vstd::utf8::{decode_utf8, valid_utf8};
use crate::macho::MachOFile;
use crate::macho_cmds::SymbolTableEntry;

verus! {

pub const N_STAB: u8 = 0xe0;
pub const N_TYPE: u8 = 0x0e;
pub const N_EXT: u8 = 0x01;
pub const N_UNDF: u8 = 0x0;
pub const N_ABS: u8 = 0x2;
pub const N_SECT: u8 = 0xe;
pub const N_INDR: u8 = 0xa;

/// The decimal digits of `n`.
pub open spec fn decimal(n: nat) -> Seq<char>
    decreases n,
{
    let d = seq![(('0' as u8) + (n % 10) as u8) as char];
    if n < 10 {
        d
    } else {
        decimal(n / 10) + d
    }
}

/// The upper-case hexadecimal digit of `d`.
pub open spec fn hex_digit(d: nat) -> char {
    if d < 10 {
        (('0' as u8) + d as u8) as char
    } else {
        (('A' as u8) + (d - 10) as u8) as char
    }
}

/// The bytes as text, with each invalid UTF-8 sequence replaced.
pub uninterp spec fn lossy_of(b: Seq<u8>) -> Seq<char>;

/// Relies on `u64::to_string` (its `Display`): the number in decimal.
#[verifier::external_body]
fn decimal_string(n: u64) -> (r: String)
    ensures
        r@ == decimal(n as nat),
{
    n.to_string()
}

/// Appends a dot and `n` in decimal.
fn push_dotted(s: &mut String, n: u64)
    ensures
        final(s)@ == old(s)@ + seq!['.'] + decimal(n as nat),
{
    proof {
        reveal_strlit(".");
    }
    s.append(".");
    let d = decimal_string(n);
    s.append(d.as_str());
}

/// The upper-case hexadecimal digit of `d`, as text.
fn hex_digit_str(d: u8) -> (r: &'static str)
    requires
        d < 16,
    ensures
        r@ == seq![hex_digit(d as nat)],
{
    if d == 0 {
        proof {
            reveal_strlit("0");
        }
        "0"
    } else     if d == 1 {
        proof {
            reveal_strlit("1");
        }
        "1"
    } else     if d == 2 {
        proof {
            reveal_strlit("2");
        }
        "2"
    } else     if d == 3 {
        proof {
            reveal_strlit("3");
        }
        "3"
    } else     if d == 4 {
        proof {
            reveal_strlit("4");
        }
        "4"
    } else     if d == 5 {
        proof {
            reveal_strlit("5");
        }
        "5"
    } else     if d == 6 {
        proof {
            reveal_strlit("6");
        }
        "6"
    } else     if d == 7 {
        proof {
            reveal_strlit("7");
        }
        "7"
    } else     if d == 8 {
        proof {
            reveal_strlit("8");
        }
        "8"
    } else     if d == 9 {
        proof {
            reveal_strlit("9");
        }
        "9"
    } else     if d == 10 {
        proof {
            reveal_strlit("A");
        }
        "A"
    } else     if d == 11 {
        proof {
            reveal_strlit("B");
        }
        "B"
    } else     if d == 12 {
        proof {
            reveal_strlit("C");
        }
        "C"
    } else     if d == 13 {
        proof {
            reveal_strlit("D");
        }
        "D"
    } else     if d == 14 {
        proof {
            reveal_strlit("E");
        }
        "E"
    } else     if d == 15 {
        proof {
            reveal_strlit("F");
        }
        "F"
    } else {
        proof {
            reveal_strlit("F");
        }
        "F"
    }
}

/// A byte as two upper-case hexadecimal digits.
fn hex2(c: u8) -> (r: String)
    ensures
        r@ == seq![hex_digit(c as nat / 16), hex_digit(c as nat % 16)],
{
    let mut s = String::new();
    s.append(hex_digit_str(c / 16));
    s.append(hex_digit_str(c % 16));
    proof {
        assert(s@ =~= seq![hex_digit(c as nat / 16), hex_digit(c as nat % 16)]);
    }
    s
}

/// Relies on bstr's `Display` for `BStr`: the bytes as text, each invalid
/// UTF-8 sequence replaced by U+FFFD.
#[verifier::external_body]
fn lossy_string(b: &[u8]) -> (r: String)
    ensures
        r@ == lossy_of(b@),
        valid_utf8(b@) ==> r@ == decode_utf8(b@),
{
    bstr::BStr::new(b).to_string()
}

/// A packed `x.y.z` version: sixteen bits, then two bytes.
pub fn convert_to_version_string(n: u32) -> (r: String)
    ensures
        r@ == decimal((n / 0x1_0000) as nat) + seq!['.'] + decimal(((n / 0x100) % 0x100) as nat) + seq!['.']
            + decimal((n % 0x100) as nat),
{
    let mut s = decimal_string((n / 0x1_0000) as u64);
    push_dotted(&mut s, ((n / 0x100) % 0x100) as u64);
    push_dotted(&mut s, (n % 0x100) as u64);
    s
}

/// A packed build tool version: sixteen bits, then a byte; the lowest byte
/// is not shown.
pub fn convert_to_build_tool_version(n: u32) -> (r: String)
    ensures
        r@ == decimal((n / 0x1_0000) as nat) + seq!['.'] + decimal(((n / 0x100) % 0x100) as nat),
{
    let mut s = decimal_string((n / 0x1_0000) as u64);
    push_dotted(&mut s, ((n / 0x100) % 0x100) as u64);
    s
}

/// A packed source version `a.b.c.d.e`: 24 bits, then four groups of ten
/// bits of which the low six are shown.
pub fn convert_to_source_version_string(n: u64) -> (r: String)
    ensures
        r@ == decimal((n / 0x100_0000_0000) as nat) + seq!['.'] + decimal(((n / 0x4000_0000) % 64) as nat)
            + seq!['.'] + decimal(((n / 0x10_0000) % 64) as nat) + seq!['.'] + decimal(((n / 0x400) % 64) as nat)
            + seq!['.'] + decimal((n % 64) as nat),
{
    let mut s = decimal_string(n / 0x100_0000_0000);
    push_dotted(&mut s, (n / 0x4000_0000) % 64);
    push_dotted(&mut s, (n / 0x10_0000) % 64);
    push_dotted(&mut s, (n / 0x400) % 64);
    push_dotted(&mut s, n % 64);
    s
}

/// The UUID notation of `b`: two hex digits per byte, with a dash after
/// bytes 3, 5, 7 and 9.
pub open spec fn uuid_text(b: Seq<u8>) -> Seq<char>
    decreases b.len(),
{
    if b.len() == 0 {
        Seq::empty()
    } else {
        let i = b.len() - 1;
        let c = b[i];
        let digits = seq![hex_digit(c as nat / 16), hex_digit(c as nat % 16)];
        let dash = if i == 3 || i == 5 || i == 7 || i == 9 { seq!['-'] } else { Seq::empty() };
        uuid_text(b.drop_last()) + digits + dash
    }
}

/// Spells a UUID in its usual notation.
pub fn uuid_string(b: &[u8]) -> (r: String)
    ensures
        r@ == uuid_text(b@),
{
    let mut out = String::new();
    let mut i: usize = 0;
    while i < b.len()
        invariant
            i <= b@.len(),
            out@ == uuid_text(b@.subrange(0, i as int)),
        decreases b@.len() - i,
    {
        let h = hex2(b[i]);
        out.append(h.as_str());
        if i == 3 || i == 5 || i == 7 || i == 9 {
            out.append("-");
        }
        proof {
            let next = b@.subrange(0, i + 1);
            assert(next.drop_last() =~= b@.subrange(0, i as int));
            reveal_strlit("-");
            if !(i == 3 || i == 5 || i == 7 || i == 9) {
                assert(out@ =~= uuid_text(next));
            }
        }
        i = i + 1;
    }
    proof {
        assert(b@.subrange(0, b@.len() as int) =~= b@);
    }
    out
}

/// A symbol table entry names an exported symbol: it is external, defined
/// in a section, absolute or indirect, and not a debugging entry.
pub open spec fn is_export_symbol(tags: u8) -> bool {
    let t = tags & N_TYPE;
    (tags & N_EXT) != 0 && (t == N_SECT || t == N_ABS || t == N_INDR) && (tags & N_STAB) == 0
}

/// A symbol table entry names an undefined, hence imported, symbol.
pub open spec fn is_import_symbol(tags: u8) -> bool {
    (tags & N_TYPE) == N_UNDF && (tags & N_STAB) == 0
}

/// The names of the entries whose tags satisfy `export` (else
/// `is_import_symbol`), in order.
pub open spec fn symbol_names(entries: Seq<SymbolTableEntry>, export: bool) -> Seq<Seq<char>>
    decreases entries.len(),
{
    if entries.len() == 0 {
        Seq::empty()
    } else {
        let e = entries.last();
        let keep = if export { is_export_symbol(e.tags) } else { is_import_symbol(e.tags) };
        symbol_names(entries.drop_last(), export) + if keep { seq![lossy_of(e.value@)] } else { Seq::empty() }
    }
}

/// Collects the names of the symbol table entries that are exports (when
/// `export` holds) or imports.
fn symbol_table_names(entries: &Vec<SymbolTableEntry>, export: bool) -> (r: Vec<String>)
    ensures
        r@.map_values(|s: String| s@) == symbol_names(entries@, export),
{
    let mut out: Vec<String> = Vec::new();
    let mut i: usize = 0;
    while i < entries.len()
        invariant
            i <= entries@.len(),
            out@.map_values(|s: String| s@) == symbol_names(entries@.subrange(0, i as int), export),
        decreases entries@.len() - i,
    {
        let e = &entries[i];
        let t = e.tags & N_TYPE;
        let keep = if export {
            (e.tags & N_EXT) != 0 && (t == N_SECT || t == N_ABS || t == N_INDR) && (e.tags & N_STAB) == 0
        } else {
            t == N_UNDF && (e.tags & N_STAB) == 0
        };
        let ghost before = out@.map_values(|s: String| s@);
        if keep {
            out.push(lossy_string(e.value.as_slice()));
        }
        proof {
            let next = entries@.subrange(0, i + 1);
            assert(next.drop_last() =~= entries@.subrange(0, i as int));
            if keep {
                assert(out@.map_values(|s: String| s@) =~= before.push(lossy_of(e.value@)));
            } else {
                assert(out@.map_values(|s: String| s@) =~= before);
            }
            assert(out@.map_values(|s: String| s@) =~= symbol_names(next, export));
        }
        i = i + 1;
    }
    proof {
        assert(entries@.subrange(0, entries@.len() as int) =~= entries@);
    }
    out
}

/// The exported names of an image: those of its export trie, then, when it
/// has neither an export trie nor dyld information, those of its symbol
/// table.
pub open spec fn exports_of(m: MachOFile) -> Seq<Seq<char>> {
    let own = m.exports@.map_values(|s: String| s@);
    if m.dyld_export_trie.is_none() && m.dyld_info.is_none() && m.symtab.is_some() {
        own + symbol_names(m.symtab.unwrap().entries@, true)
    } else {
        own
    }
}

/// The imported names of an image: those of its binding streams and chained
/// fixups, then, when it has neither chained fixups nor dyld information,
/// the undefined symbols of its symbol table.
pub open spec fn imports_of(m: MachOFile) -> Seq<Seq<char>> {
    let own = m.imports@.map_values(|s: String| s@);
    if m.dyld_chain_fixups.is_none() && m.dyld_info.is_none() && m.symtab.is_some() {
        own + symbol_names(m.symtab.unwrap().entries@, false)
    } else {
        own
    }
}

/// Copies a list of strings.
fn clone_strings(v: &Vec<String>) -> (r: Vec<String>)
    ensures
        r@.map_values(|s: String| s@) == v@.map_values(|s: String| s@),
{
    let mut out: Vec<String> = Vec::new();
    let mut i: usize = 0;
    while i < v.len()
        invariant
            i <= v@.len(),
            out@.map_values(|s: String| s@) == v@.subrange(0, i as int).map_values(|s: String| s@),
        decreases v@.len() - i,
    {
        out.push(v[i].clone());
        proof {
            assert(v@.subrange(0, i + 1).map_values(|s: String| s@)
                =~= v@.subrange(0, i as int).map_values(|s: String| s@).push(v@[i as int]@));
            assert(out@.map_values(|s: String| s@) =~= v@.subrange(0, i + 1).map_values(|s: String| s@));
        }
        i = i + 1;
    }
    proof {
        assert(v@.subrange(0, v@.len() as int) =~= v@);
    }
    out
}

/// Appends `b` to `a`.
fn concat_strings(a: Vec<String>, b: Vec<String>) -> (r: Vec<String>)
    ensures
        r@.map_values(|s: String| s@) == a@.map_values(|s: String| s@) + b@.map_values(|s: String| s@),
{
    let ghost a0 = a@;
    let ghost b0 = b@;
    let mut a = a;
    let mut b = b;
    a.append(&mut b);
    proof {
        assert(a@ =~= a0 + b0);
        assert(a@.map_values(|s: String| s@) =~= a0.map_values(|s: String| s@) + b0.map_values(|s: String| s@));
    }
    a
}

impl MachOFile {
    /// The exported names, with the symbol table as fallback.
    pub fn all_exports(&self) -> (r: Vec<String>)
        ensures
            r@.map_values(|s: String| s@) == exports_of(*self),
    {
        let own = clone_strings(&self.exports);
        match &self.symtab {
            Some(t) => {
                if self.dyld_export_trie.is_none() && self.dyld_info.is_none() {
                    concat_strings(own, symbol_table_names(&t.entries, true))
                } else {
                    own
                }
            },
            None => own,
        }
    }

    /// The imported names, with the undefined symbols of the symbol table as
    /// fallback.
    pub fn all_imports(&self) -> (r: Vec<String>)
        ensures
            r@.map_values(|s: String| s@) == imports_of(*self),
    {
        let own = clone_strings(&self.imports);
        match &self.symtab {
            Some(t) => {
                if self.dyld_chain_fixups.is_none() && self.dyld_info.is_none() {
                    concat_strings(own, symbol_table_names(&t.entries, false))
                } else {
                    own
                }
            },
            None => own,
        }
    }
}

} // verus!
