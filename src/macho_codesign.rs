//! The code signature of a Mach-O image: its super-blob index, the
//! entitlements of its embedded XML property list and the CMS blobs that
//! carry its certificates.

use vstd::prelude::*;
use crate::bytes::{read_u32, u32_at};
use vstd::string::{StrSliceExecFns, StringExecFns};
use crate::macho::{same_commands, MachOFile};
use crate::macho_linkedit::{CS_MAGIC_BLOBWRAPPER, CS_MAGIC_EMBEDDED_ENTITLEMENTS};

verus! {

/// One node of a parsed XML document: whether it is an element, its local
/// name, its text, and its depth: the number of nodes on its path from the
/// document root, itself included.
pub struct XmlNode {
    pub element: bool,
    pub name: String,
    pub text: Option<String>,
    pub depth: usize,
}

impl View for XmlNode {
    type V = (bool, Seq<char>, Option<Seq<char>>, nat);

    open spec fn view(&self) -> Self::V {
        (self.element, self.name@, match self.text {
            Some(t) => Some(t@),
            None => None,
        }, self.depth as nat)
    }
}

/// The nodes of the XML document `text`, in document order, or `None` when
/// it is not well-formed.
pub uninterp spec fn xml_nodes_of(text: Seq<char>) -> Option<Seq<(bool, Seq<char>, Option<Seq<char>>, nat)>>;


/// Relies on roxmltree's `Document::parse_with_options`, with DTDs allowed:
/// the nodes of the document in document order (`descendants`), each with
/// `is_element`, its local name, `text` and the length of `ancestors()`,
/// which counts the node itself.
#[verifier::external_body]
fn xml_nodes(text: &str) -> (r: Option<Vec<XmlNode>>)
    ensures
        match r {
            Some(v) => xml_nodes_of(text@) == Some(v@.map_values(|n: XmlNode| n@)),
            None => xml_nodes_of(text@).is_none(),
        },
{
    let opt = roxmltree::ParsingOptions { allow_dtd: true, ..roxmltree::ParsingOptions::default() };
    match roxmltree::Document::parse_with_options(text, opt) {
        Ok(doc) => Some(doc.descendants().map(|n| XmlNode {
            element: n.is_element(),
            name: n.tag_name().name().to_string(),
            text: n.text().map(|t| t.to_string()),
            depth: n.ancestors().count(),
        }).collect()),
        Err(_) => None,
    }
}

/// `c` is white space: a character with the Unicode `White_Space`
/// property, as `char::is_whitespace` tests.
pub open spec fn is_ws(c: char) -> bool {
    let u = c as u32;
    (0x09 <= u && u <= 0x0d) || u == 0x20 || u == 0x85 || u == 0xa0 || u == 0x1680 || (0x2000 <= u && u <= 0x200a)
        || u == 0x2028 || u == 0x2029 || u == 0x202f || u == 0x205f || u == 0x3000
}

/// `s` holds nothing but white space.
pub open spec fn blank(s: Seq<char>) -> bool {
    forall|i: int| 0 <= i < s.len() ==> is_ws(#[trigger] s[i])
}

/// Whether `s` holds nothing but white space, so that trimming it leaves
/// nothing.
fn is_blank(s: &str) -> (r: bool)
    ensures
        r == blank(s@),
{
    let n = s.unicode_len();
    let mut i: usize = 0;
    while i < n
        invariant
            n == s@.len(),
            i <= n,
            forall|j: int| 0 <= j < i ==> is_ws(#[trigger] s@[j]),
        decreases n - i,
    {
        let c = s.get_char(i);
        let u = c as u32;
        let ws = (0x09 <= u && u <= 0x0d) || u == 0x20 || u == 0x85 || u == 0xa0 || u == 0x1680
            || (0x2000 <= u && u <= 0x200a) || u == 0x2028 || u == 0x2029 || u == 0x202f || u == 0x205f || u == 0x3000;
        if !ws {
            proof {
                assert(!is_ws(s@[i as int]));
            }
            return false;
        }
        i = i + 1;
    }
    true
}

/// The first occurrence of each distinct item of `s`, in order.
pub open spec fn unique_seq(s: Seq<Seq<char>>) -> Seq<Seq<char>>
    decreases s.len(),
{
    if s.len() == 0 {
        s
    } else {
        let prev = unique_seq(s.drop_last());
        if prev.contains(s.last()) {
            prev
        } else {
            prev.push(s.last())
        }
    }
}

/// Relies on itertools' `Itertools::unique`: the items that were not yielded
/// before, in order.
#[verifier::external_body]
fn unique_strings(v: Vec<String>) -> (r: Vec<String>)
    ensures
        r@.map_values(|s: String| s@) == unique_seq(v@.map_values(|s: String| s@)),
{
    itertools::Itertools::unique(v.into_iter()).collect()
}

/// Relies on `str::from_utf8`: the bytes as a string when they are valid
/// UTF-8.
#[verifier::external_body]
fn str_from_utf8(b: &[u8]) -> (r: Option<&str>)
    ensures
        match r {
            Some(s) => vstd::utf8::valid_utf8(b@) && s@ == vstd::utf8::decode_utf8(b@),
            None => !vstd::utf8::valid_utf8(b@),
        },
{
    std::str::from_utf8(b).ok()
}

/// `b` agrees with `a` on every field but the entitlements and the
/// signature blobs.
pub open spec fn same_but_signature(a: MachOFile, b: MachOFile) -> bool {
    &&& same_commands(a, b)
    &&& b.entry_point_offset == a.entry_point_offset
    &&& b.symtab == a.symtab
    &&& b.imports == a.imports
    &&& b.exports == a.exports
}

/// The entitlements as plain text.
pub open spec fn ents(m: MachOFile) -> Seq<Seq<char>> {
    m.entitlements@.map_values(|s: String| s@)
}

/// The signature blobs as plain bytes.
pub open spec fn sig_blobs(m: MachOFile) -> Seq<Seq<u8>> {
    m.signature_blobs@.map_values(|v: Vec<u8>| v@)
}

/// A node of a parsed XML document: element, local name, text, depth.
pub type NodeView = (bool, Seq<char>, Option<Seq<char>>, nat);

/// The end of the subtree of node `i`: the first node from `j` on that is
/// not deeper than it, or the end.
pub open spec fn sub_end(ns: Seq<NodeView>, i: int, j: int) -> int
    decreases ns.len() - j,
{
    if j >= ns.len() || ns[j].3 <= ns[i].3 {
        j
    } else {
        sub_end(ns, i, j + 1)
    }
}

/// The texts of the nodes in `[from, to)` that are not blank, in order.
pub open spec fn nonblank_texts(ns: Seq<NodeView>, from: int, to: int) -> Seq<Seq<char>>
    decreases to - from,
{
    if to <= from {
        Seq::empty()
    } else {
        nonblank_texts(ns, from, to - 1) + match ns[to - 1].2 {
            Some(t) => if !blank(t) { seq![t] } else { Seq::empty() },
            None => Seq::empty(),
        }
    }
}

/// The entitlements that node `i` gives: the text of a `key` element, or
/// the distinct non-blank texts of an `array` element's subtree (the array
/// itself included); nothing when the element has no text.
pub open spec fn node_entitlements(ns: Seq<NodeView>, i: int) -> Seq<Seq<char>> {
    let n = ns[i];
    if n.0 && (n.1 == "key"@ || n.1 == "array"@) && n.2 is Some {
        if n.1 == "array"@ {
            unique_seq(nonblank_texts(ns, i, sub_end(ns, i, i + 1)))
        } else {
            seq![n.2.unwrap()]
        }
    } else {
        Seq::empty()
    }
}

/// The entitlements of the first `k` nodes.
pub open spec fn entitlements_upto(ns: Seq<NodeView>, k: int) -> Seq<Seq<char>>
    decreases k,
{
    if k <= 0 {
        Seq::empty()
    } else {
        entitlements_upto(ns, k - 1) + node_entitlements(ns, k - 1)
    }
}

/// The entitlements of a parsed document; none when it did not parse.
pub open spec fn entitlement_texts(nodes: Option<Seq<NodeView>>) -> Seq<Seq<char>> {
    match nodes {
        Some(ns) => entitlements_upto(ns, ns.len() as int),
        None => Seq::empty(),
    }
}

/// `x`, saturated to the largest `usize`.
pub open spec fn sat(x: int) -> int {
    if x > usize::MAX { usize::MAX as int } else { x }
}

/// The blobs of the super-blob index that lie inside the data, from the
/// first `k` index entries: offset, magic and length.
pub open spec fn cs_blobs(d: Seq<u8>, k: nat) -> Seq<(int, u32, u32)>
    decreases k,
{
    if k == 0 {
        Seq::empty()
    } else {
        let o = u32_at(d, 12 + 8 * (k - 1) + 4, true) as int;
        cs_blobs(d, (k - 1) as nat) + if o + 8 <= d.len() {
            seq![(o, u32_at(d, o, true), u32_at(d, o + 4, true))]
        } else {
            Seq::empty()
        }
    }
}

/// The super-blob's index is complete.
pub open spec fn cs_index_ok(d: Seq<u8>) -> bool {
    d.len() >= 12 && 12 + 8 * u32_at(d, 8, true) <= d.len()
}

/// The body of a blob lies inside the data.
pub open spec fn body_ok(d: Seq<u8>, b: (int, u32, u32)) -> bool {
    sat(b.0 + 8) <= sat(b.0 + b.2) && sat(b.0 + b.2) <= d.len()
}

/// The body of a blob: after its magic and length, up to its length.
pub open spec fn body_of(d: Seq<u8>, b: (int, u32, u32)) -> Seq<u8> {
    d.subrange(sat(b.0 + 8), sat(b.0 + b.2))
}

/// The bytes as text, or the empty text when they are not UTF-8.
pub open spec fn xml_text(b: Seq<u8>) -> Seq<char> {
    if vstd::utf8::valid_utf8(b) { vstd::utf8::decode_utf8(b) } else { Seq::empty() }
}

/// The bodies of the blob wrappers among `bl`, in order.
pub open spec fn wrapper_bodies(d: Seq<u8>, bl: Seq<(int, u32, u32)>) -> Seq<Seq<u8>>
    decreases bl.len(),
{
    if bl.len() == 0 {
        Seq::empty()
    } else {
        let b = bl.last();
        wrapper_bodies(d, bl.drop_last()) + if body_ok(d, b) && b.1 == CS_MAGIC_BLOBWRAPPER {
            seq![body_of(d, b)]
        } else {
            Seq::empty()
        }
    }
}

/// The entitlements of the entitlement blobs among `bl`, in order.
pub open spec fn blob_entitlements(d: Seq<u8>, bl: Seq<(int, u32, u32)>) -> Seq<Seq<char>>
    decreases bl.len(),
{
    if bl.len() == 0 {
        Seq::empty()
    } else {
        let b = bl.last();
        blob_entitlements(d, bl.drop_last()) + if body_ok(d, b) && b.1 == CS_MAGIC_EMBEDDED_ENTITLEMENTS
            && b.1 != CS_MAGIC_BLOBWRAPPER {
            entitlement_texts(xml_nodes_of(xml_text(body_of(d, b))))
        } else {
            Seq::empty()
        }
    }
}

/// A blob of the super-blob index: where it starts and its magic and length.
struct CsBlob {
    offset: usize,
    magic: u32,
    length: u32,
}

/// The blobs as plain values.
spec fn blobs_view(bl: Seq<CsBlob>) -> Seq<(int, u32, u32)> {
    bl.map_values(|b: CsBlob| (b.offset as int, b.magic, b.length))
}

/// The end of the subtree of the node at `i`: the first later node that is
/// not deeper.
fn subtree_end(nodes: &Vec<XmlNode>, i: usize) -> (r: usize)
    requires
        i < nodes@.len(),
    ensures
        i < r <= nodes@.len(),
        r == sub_end(nodes@.map_values(|n: XmlNode| n@), i as int, i + 1),
{
    let ghost ns = nodes@.map_values(|n: XmlNode| n@);
    let n = nodes.len();
    let depth = nodes[i].depth;
    let mut j = i + 1;
    while j < n && nodes[j].depth > depth
        invariant
            n == nodes@.len(),
            i < j <= n,
            ns == nodes@.map_values(|n: XmlNode| n@),
            depth == nodes@[i as int].depth,
            sub_end(ns, i as int, j as int) == sub_end(ns, i as int, i + 1),
        decreases nodes@.len() - j,
    {
        j = j + 1;
    }
    j
}

impl MachOFile {
    /// Adds the entitlements of an XML property list: the text of each `key`
    /// element, and the distinct non-blank texts inside each `array` element.
    pub fn parse_entitlements(&mut self, xml: &str)
        ensures
            same_but_signature(*old(self), *final(self)),
            final(self).signature_blobs == old(self).signature_blobs,
            ents(*final(self)) == ents(*old(self)) + entitlement_texts(xml_nodes_of(xml@)),
    {
        let ghost e0 = ents(*self);
        let nodes = match xml_nodes(xml) {
            Some(n) => n,
            None => {
                proof {
                    assert(ents(*self) =~= e0 + Seq::<Seq<char>>::empty());
                }
                return;
            },
        };
        let ghost ns = nodes@.map_values(|n: XmlNode| n@);
        let key = String::from_str("key");
        let array = String::from_str("array");
        let mut i: usize = 0;
        proof {
            assert(ents(*self) =~= e0 + entitlements_upto(ns, 0));
        }
        while i < nodes.len()
            invariant
                i <= nodes@.len(),
                ns == nodes@.map_values(|n: XmlNode| n@),
                key@ == "key"@,
                array@ == "array"@,
                e0 == ents(*old(self)),
                same_but_signature(*old(self), *self),
                self.signature_blobs == old(self).signature_blobs,
                ents(*self) == e0 + entitlements_upto(ns, i as int),
            decreases nodes@.len() - i,
        {
            let node = &nodes[i];
            let ghost cur = ents(*self);
            proof {
                assert(ns[i as int] == node@);
            }
            if node.element && (node.name == key || node.name == array) {
                match &node.text {
                    Some(text) => {
                        if node.name == array {
                            let end = subtree_end(&nodes, i);
                            let mut found: Vec<String> = Vec::new();
                            let mut j = i;
                            while j < end
                                invariant
                                    i <= j <= end,
                                    end <= nodes@.len(),
                                    ns == nodes@.map_values(|n: XmlNode| n@),
                                    found@.map_values(|s: String| s@) == nonblank_texts(ns, i as int, j as int),
                                decreases end - j,
                            {
                                let ghost fv = found@.map_values(|s: String| s@);
                                proof {
                                    assert(ns[j as int] == nodes@[j as int]@);
                                }
                                match &nodes[j].text {
                                    Some(t) => {
                                        if !is_blank(t.as_str()) {
                                            found.push(t.clone());
                                            proof {
                                                assert(found@.map_values(|s: String| s@) =~= fv.push(t@));
                                            }
                                        }
                                    },
                                    None => {},
                                }
                                proof {
                                    assert(found@.map_values(|s: String| s@) =~= nonblank_texts(ns, i as int, j + 1));
                                }
                                j = j + 1;
                            }
                            let mut unique = unique_strings(found);
                            let ghost u = unique@;
                            self.entitlements.append(&mut unique);
                            proof {
                                assert(ents(*self) =~= cur + u.map_values(|s: String| s@));
                                assert(ents(*self) =~= e0 + entitlements_upto(ns, i + 1));
                            }
                        } else {
                            self.entitlements.push(text.clone());
                            proof {
                                assert(ents(*self) =~= cur.push(text@));
                                assert(ents(*self) =~= e0 + entitlements_upto(ns, i + 1));
                            }
                        }
                    },
                    None => {
                        proof {
                            assert(ents(*self) =~= e0 + entitlements_upto(ns, i + 1));
                        }
                    },
                }
            } else {
                proof {
                    assert(ents(*self) =~= e0 + entitlements_upto(ns, i + 1));
                }
            }
            i = i + 1;
        }
    }

    /// Reads the code signature super-blob: its index, then the entitlements
    /// blobs and the CMS blob wrappers that the index points to, in index
    /// order. A truncated index leaves the image unchanged.
    pub fn cs_superblob(&mut self, data: &[u8])
        ensures
            !cs_index_ok(data@) ==> *final(self) == *old(self),
            same_but_signature(*old(self), *final(self)),
            cs_index_ok(data@) ==> sig_blobs(*final(self)) == sig_blobs(*old(self)) + wrapper_bodies(data@,
                cs_blobs(data@, u32_at(data@, 8, true) as nat)),
            cs_index_ok(data@) ==> ents(*final(self)) == ents(*old(self)) + blob_entitlements(data@,
                cs_blobs(data@, u32_at(data@, 8, true) as nat)),
    {
        if data.len() < 12 {
            return;
        }
        let dlen = data.len();
        let count = read_u32(data, 8, true).unwrap();
        let mut blobs: Vec<CsBlob> = Vec::new();
        let mut pos: usize = 12;
        let mut i: u32 = 0;
        while i < count
            invariant
                dlen == data@.len(),
                12 <= pos <= data@.len(),
                pos == 12 + 8 * i,
                i <= count,
                count == u32_at(data@, 8, true),
                blobs_view(blobs@) == cs_blobs(data@, i as nat),
            decreases count - i,
        {
            if data.len() - pos < 8 {
                proof {
                    assert(!cs_index_ok(data@)) by (nonlinear_arith)
                        requires
                            pos == 12 + 8 * i,
                            i < count,
                            pos + 8 > data@.len(),
                            count == u32_at(data@, 8, true),
                    {
                    }
                }
                return;
            }
            let offset = read_u32(data, pos + 4, true).unwrap() as usize;
            let ghost bv = blobs_view(blobs@);
            proof {
                assert(((i + 1) as nat - 1) as nat == i as nat);
            }
            if offset <= data.len() && data.len() - offset >= 8 {
                let magic = read_u32(data, offset, true).unwrap();
                let length = read_u32(data, offset + 4, true).unwrap();
                blobs.push(CsBlob { offset, magic, length });
                proof {
                    assert(blobs_view(blobs@) =~= bv.push((offset as int, magic, length)));
                }
            } else {
                proof {
                    assert(blobs_view(blobs@) =~= bv + Seq::<(int, u32, u32)>::empty());
                }
            }
            pos = pos + 8;
            i = i + 1;
        }
        proof {
            assert(cs_index_ok(data@));
        }
        let ghost bl = blobs_view(blobs@);
        let ghost s0 = sig_blobs(*self);
        let ghost e0 = ents(*self);
        let mut k: usize = 0;
        proof {
            assert(bl.subrange(0, 0) =~= Seq::<(int, u32, u32)>::empty());
            assert(s0 =~= s0 + Seq::<Seq<u8>>::empty());
            assert(e0 =~= e0 + Seq::<Seq<char>>::empty());
        }
        while k < blobs.len()
            invariant
                k <= blobs@.len(),
                bl == blobs_view(blobs@),
                s0 == sig_blobs(*old(self)),
                e0 == ents(*old(self)),
                same_but_signature(*old(self), *self),
                sig_blobs(*self) == s0 + wrapper_bodies(data@, bl.subrange(0, k as int)),
                ents(*self) == e0 + blob_entitlements(data@, bl.subrange(0, k as int)),
            decreases blobs@.len() - k,
        {
            let blob = &blobs[k];
            let ghost b = bl[k as int];
            let ghost cs = sig_blobs(*self);
            let ghost ce = ents(*self);
            proof {
                assert(bl.subrange(0, k + 1).drop_last() =~= bl.subrange(0, k as int));
                assert(bl.subrange(0, k + 1).last() == b);
                assert(b == (blob.offset as int, blob.magic, blob.length));
            }
            let start = blob.offset.saturating_add(8);
            let end = blob.offset.saturating_add(blob.length as usize);
            if start <= end && end <= data.len() {
                let body = &data[start..end];
                proof {
                    assert(body_ok(data@, b));
                    assert(body@ == body_of(data@, b));
                }
                if blob.magic == CS_MAGIC_EMBEDDED_ENTITLEMENTS {
                    let xml = match str_from_utf8(body) {
                        Some(s) => s,
                        None => "",
                    };
                    proof {
                        reveal_strlit("");
                        assert(xml@ == xml_text(body@));
                    }
                    self.parse_entitlements(xml);
                    proof {
                        assert(sig_blobs(*self) =~= s0 + wrapper_bodies(data@, bl.subrange(0, k + 1)));
                        assert(ents(*self) =~= e0 + blob_entitlements(data@, bl.subrange(0, k + 1)));
                    }
                } else if blob.magic == CS_MAGIC_BLOBWRAPPER {
                    self.signature_blobs.push(vstd::slice::slice_to_vec(body));
                    proof {
                        assert(sig_blobs(*self) =~= cs.push(body@));
                        assert(sig_blobs(*self) =~= s0 + wrapper_bodies(data@, bl.subrange(0, k + 1)));
                        assert(ents(*self) =~= e0 + blob_entitlements(data@, bl.subrange(0, k + 1)));
                    }
                } else {
                    proof {
                        assert(sig_blobs(*self) =~= s0 + wrapper_bodies(data@, bl.subrange(0, k + 1)));
                        assert(ents(*self) =~= e0 + blob_entitlements(data@, bl.subrange(0, k + 1)));
                    }
                }
            } else {
                proof {
                    assert(!body_ok(data@, b));
                    assert(sig_blobs(*self) =~= s0 + wrapper_bodies(data@, bl.subrange(0, k + 1)));
                    assert(ents(*self) =~= e0 + blob_entitlements(data@, bl.subrange(0, k + 1)));
                }
            }
            k = k + 1;
        }
        proof {
            assert(bl.subrange(0, bl.len() as int) =~= bl);
        }
    }
}

} // verus!
