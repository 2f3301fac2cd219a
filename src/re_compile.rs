//! Lowers patterns to VM byte code, and chooses the atom that the scanner
//! looks for before it runs the VM.

use vstd::prelude::*;
use crate::re_code::{
    accepts, advances, byte_at, consumes, eps_reach, eps_step, instr_at, is_eps_path, is_leaf, reach,
    Instr, OP_ANY_BYTE,
    OP_BYTE, OP_JUMP, OP_MASKED_BYTE, OP_MATCH, OP_SPLIT,
};

verus! {

/// Builds VM byte code, with jumps patched once their targets are known.
pub struct Assembler {
    pub code: Vec<u8>,
}

/// The little-endian bytes of `v`.
pub open spec fn le_bytes(v: i32) -> Seq<u8> {
    let u = v as u32;
    seq![(u % 0x100) as u8, ((u / 0x100) % 0x100) as u8, ((u / 0x1_0000) % 0x100) as u8, (u / 0x100_0000) as u8]
}

/// `s` with the four bytes at `at` replaced by those of `v`.
pub open spec fn patch_i32(s: Seq<u8>, at: int, v: i32) -> Seq<u8> {
    s.subrange(0, at) + le_bytes(v) + s.subrange(at + 4, s.len() as int)
}

impl Assembler {
    pub fn new() -> (r: Self)
        ensures
            r.code@.len() == 0,
    {
        Assembler { code: Vec::new() }
    }

    /// The position of the next instruction.
    pub fn location(&self) -> (r: usize)
        ensures
            r == self.code@.len(),
    {
        self.code.len()
    }

    fn push_i32(&mut self, v: i32)
        ensures
            final(self).code@ == old(self).code@ + le_bytes(v),
    {
        let u = v as u32;
        self.code.push((u % 0x100) as u8);
        self.code.push(((u / 0x100) % 0x100) as u8);
        self.code.push(((u / 0x1_0000) % 0x100) as u8);
        self.code.push((u / 0x100_0000) as u8);
        proof {
            assert(self.code@ =~= old(self).code@ + le_bytes(v));
        }
    }

    pub fn emit_match(&mut self)
        ensures
            final(self).code@ == old(self).code@.push(OP_MATCH),
    {
        self.code.push(OP_MATCH);
    }

    pub fn emit_any_byte(&mut self)
        ensures
            final(self).code@ == old(self).code@.push(OP_ANY_BYTE),
    {
        self.code.push(OP_ANY_BYTE);
    }

    pub fn emit_byte(&mut self, b: u8)
        ensures
            final(self).code@ == old(self).code@ + seq![OP_BYTE, b],
    {
        self.code.push(OP_BYTE);
        self.code.push(b);
        proof {
            assert(self.code@ =~= old(self).code@ + seq![OP_BYTE, b]);
        }
    }

    pub fn emit_masked_byte(&mut self, value: u8, mask: u8)
        ensures
            final(self).code@ == old(self).code@ + seq![OP_MASKED_BYTE, value, mask],
    {
        self.code.push(OP_MASKED_BYTE);
        self.code.push(value);
        self.code.push(mask);
        proof {
            assert(self.code@ =~= old(self).code@ + seq![OP_MASKED_BYTE, value, mask]);
        }
    }

    /// Emits a jump by `rel` bytes from its own start.
    pub fn emit_jump(&mut self, rel: i32)
        ensures
            final(self).code@ == old(self).code@ + seq![OP_JUMP] + le_bytes(rel),
    {
        self.code.push(OP_JUMP);
        self.push_i32(rel);
    }

    /// Emits a split that prefers the branch `a` bytes away from its start
    /// over the one `b` bytes away.
    pub fn emit_split(&mut self, a: i32, b: i32)
        ensures
            final(self).code@ == old(self).code@ + seq![OP_SPLIT] + le_bytes(a) + le_bytes(b),
    {
        self.code.push(OP_SPLIT);
        self.push_i32(a);
        self.push_i32(b);
    }

    /// Rewrites the displacement stored at `at`.
    pub fn patch(&mut self, at: usize, rel: i32)
        requires
            at + 4 <= old(self).code@.len(),
        ensures
            final(self).code@ == patch_i32(old(self).code@, at as int, rel),
    {
        let u = rel as u32;
        let n = self.code.len();
        assert(at + 4 <= n);
        self.code.set(at, (u % 0x100) as u8);
        self.code.set(at + 1, ((u / 0x100) % 0x100) as u8);
        self.code.set(at + 2, ((u / 0x1_0000) % 0x100) as u8);
        self.code.set(at + 3, (u / 0x100_0000) as u8);
        proof {
            assert(self.code@ =~= patch_i32(old(self).code@, at as int, rel));
        }
    }
}

/// The ASCII lower case of `b`.
pub open spec fn lower(b: u8) -> u8 {
    if 0x41 <= b && b <= 0x5a {
        (b + 0x20) as u8
    } else {
        b
    }
}

/// Two bytes are equal, ignoring ASCII case when `nocase` holds.
pub open spec fn same_byte(a: u8, b: u8, nocase: bool) -> bool {
    if nocase {
        lower(a) == lower(b)
    } else {
        a == b
    }
}

/// `b` is an ASCII letter.
pub open spec fn is_alpha(b: u8) -> bool {
    (0x41 <= b && b <= 0x5a) || (0x61 <= b && b <= 0x7a)
}

/// The byte code of one byte of a literal: the byte itself, or, for a letter
/// that matches in either case, the byte with the case bit masked out.
pub open spec fn literal_byte_code(b: u8, nocase: bool) -> Seq<u8> {
    if nocase && is_alpha(b) {
        seq![OP_MASKED_BYTE, b & 0xdf, 0xdf]
    } else {
        seq![OP_BYTE, b]
    }
}

/// The byte code of a literal, before its final `Match`.
pub open spec fn literal_code(lit: Seq<u8>, nocase: bool) -> Seq<u8>
    decreases lit.len(),
{
    if lit.len() == 0 {
        Seq::empty()
    } else {
        literal_code(lit.drop_last(), nocase) + literal_byte_code(lit.last(), nocase)
    }
}

/// Compiles a literal string: one instruction per byte, then `Match`.
pub fn compile_literal(lit: &[u8], nocase: bool) -> (r: Vec<u8>)
    ensures
        r@ == literal_code(lit@, nocase).push(OP_MATCH),
{
    let mut a = Assembler::new();
    let mut i: usize = 0;
    while i < lit.len()
        invariant
            i <= lit@.len(),
            a.code@ == literal_code(lit@.subrange(0, i as int), nocase),
        decreases lit@.len() - i,
    {
        let b = lit[i];
        if nocase && ((0x41 <= b && b <= 0x5a) || (0x61 <= b && b <= 0x7a)) {
            a.emit_masked_byte(b & 0xdf, 0xdf);
        } else {
            a.emit_byte(b);
        }
        proof {
            assert(lit@.subrange(0, i + 1).drop_last() =~= lit@.subrange(0, i as int));
        }
        i = i + 1;
    }
    proof {
        assert(lit@.subrange(0, lit@.len() as int) =~= lit@);
    }
    a.emit_match();
    a.code
}

/// A token of a hex pattern: a byte value under a mask; a mask of zero is a
/// full wildcard.
#[derive(Debug, Clone, Copy, PartialEq, Eq, Structural)]
pub struct HexToken {
    pub value: u8,
    pub mask: u8,
}

/// The byte code of one hex token.
pub open spec fn hex_token_code(t: HexToken) -> Seq<u8> {
    if t.mask == 0 {
        seq![OP_ANY_BYTE]
    } else if t.mask == 0xff {
        seq![OP_BYTE, t.value]
    } else {
        seq![OP_MASKED_BYTE, t.value & t.mask, t.mask]
    }
}

/// The byte code of a hex pattern, before its final `Match`.
pub open spec fn hex_code(ts: Seq<HexToken>) -> Seq<u8>
    decreases ts.len(),
{
    if ts.len() == 0 {
        Seq::empty()
    } else {
        hex_code(ts.drop_last()) + hex_token_code(ts.last())
    }
}

/// Compiles a hex pattern: one instruction per token, then `Match`.
pub fn compile_hex(tokens: &[HexToken]) -> (r: Vec<u8>)
    ensures
        r@ == hex_code(tokens@).push(OP_MATCH),
{
    let mut a = Assembler::new();
    let mut i: usize = 0;
    while i < tokens.len()
        invariant
            i <= tokens@.len(),
            a.code@ == hex_code(tokens@.subrange(0, i as int)),
        decreases tokens@.len() - i,
    {
        let t = tokens[i];
        if t.mask == 0 {
            a.emit_any_byte();
        } else if t.mask == 0xff {
            a.emit_byte(t.value);
        } else {
            a.emit_masked_byte(t.value & t.mask, t.mask);
        }
        proof {
            assert(tokens@.subrange(0, i + 1).drop_last() =~= tokens@.subrange(0, i as int));
            assert(a.code@ =~= hex_code(tokens@.subrange(0, i + 1)));
        }
        i = i + 1;
    }
    proof {
        assert(tokens@.subrange(0, tokens@.len() as int) =~= tokens@);
    }
    a.emit_match();
    a.code
}

/// The longest run of fully known tokens, as `(start, length)`; the first
/// one among runs of equal length.
pub open spec fn known(t: HexToken) -> bool {
    t.mask == 0xff
}

/// Chooses the atom of a hex pattern: the longest run of fully known bytes
/// (the first of equal ones). Returns its start, which is also how far the
/// verifier backs up from an atom hit, and its bytes.
pub fn hex_atom(tokens: &[HexToken]) -> (r: (usize, Vec<u8>))
    ensures
        r.0 + r.1@.len() <= tokens@.len(),
        forall|k: int| 0 <= k < r.1@.len() ==> known(#[trigger] tokens@[r.0 + k]) && r.1@[k] == tokens@[r.0 + k].value,
{
    let mut best_start: usize = 0;
    let mut best_len: usize = 0;
    let mut i: usize = 0;
    while i < tokens.len()
        invariant
            i <= tokens@.len(),
            best_start + best_len <= tokens@.len(),
            forall|k: int| best_start <= k < best_start + best_len ==> known(#[trigger] tokens@[k]),
        decreases tokens@.len() - i,
    {
        if tokens[i].mask != 0xff {
            i = i + 1;
        } else {
            let start = i;
            while i < tokens.len() && tokens[i].mask == 0xff
                invariant
                    start <= i <= tokens@.len(),
                    forall|k: int| start <= k < i ==> known(#[trigger] tokens@[k]),
                decreases tokens@.len() - i,
            {
                i = i + 1;
            }
            if i - start > best_len {
                best_start = start;
                best_len = i - start;
            }
        }
    }
    let mut atom: Vec<u8> = Vec::new();
    let tl = tokens.len();
    let mut k: usize = 0;
    while k < best_len
        invariant
            tl == tokens@.len(),
            k <= best_len,
            best_start + best_len <= tokens@.len(),
            atom@.len() == k,
            forall|j: int| 0 <= j < k ==> atom@[j] == tokens@[best_start + j].value,
            forall|j: int| best_start <= j < best_start + best_len ==> known(#[trigger] tokens@[j]),
        decreases best_len - k,
    {
        atom.push(tokens[best_start + k].value);
        k = k + 1;
    }
    proof {
        assert forall|j: int| 0 <= j < atom@.len() implies known(#[trigger] tokens@[best_start + j]) && atom@[j] == tokens@[best_start + j].value by {
            assert(best_start <= best_start + j < best_start + best_len);
        }
    }
    (best_start, atom)
}

/// The input starts with the literal, ignoring ASCII case when `nocase`
/// holds.
pub open spec fn literal_prefix(lit: Seq<u8>, fwd: Seq<u8>, k: nat, nocase: bool) -> bool {
    &&& k <= lit.len()
    &&& k <= fwd.len()
    &&& forall|j: int| 0 <= j < k ==> same_byte(#[trigger] fwd[j], lit[j], nocase)
}

/// Where the instruction for byte `j` of the literal starts.
pub open spec fn literal_offset(lit: Seq<u8>, nocase: bool, j: int) -> int {
    literal_code(lit.subrange(0, j), nocase).len() as int
}

proof fn lemma_literal_layout(lit: Seq<u8>, nocase: bool, j: int)
    requires
        0 <= j <= lit.len(),
    ensures
        literal_code(lit, nocase).subrange(0, literal_offset(lit, nocase, j)) == literal_code(lit.subrange(0, j), nocase),
        literal_offset(lit, nocase, j) <= literal_code(lit, nocase).len(),
        j < lit.len() ==> literal_offset(lit, nocase, j + 1) == literal_offset(lit, nocase, j)
            + literal_byte_code(lit[j], nocase).len(),
        j < lit.len() ==> literal_code(lit, nocase).subrange(
            literal_offset(lit, nocase, j),
            literal_offset(lit, nocase, j + 1),
        ) == literal_byte_code(lit[j], nocase),
    decreases lit.len(),
{
    let code = literal_code(lit, nocase);
    if j == lit.len() {
        assert(lit.subrange(0, j) =~= lit);
        assert(code.subrange(0, code.len() as int) =~= code);
    } else {
        let d = lit.drop_last();
        lemma_literal_layout(d, nocase, j);
        assert(d.subrange(0, j) =~= lit.subrange(0, j));
        assert(code == literal_code(d, nocase) + literal_byte_code(lit.last(), nocase));
        if j + 1 < lit.len() {
            lemma_literal_layout(d, nocase, j + 1);
            assert(d.subrange(0, j + 1) =~= lit.subrange(0, j + 1));
            assert(d[j] == lit[j]);
            assert(code.subrange(0, literal_offset(lit, nocase, j)) =~= literal_code(d, nocase).subrange(0, literal_offset(d, nocase, j)));
            assert(code.subrange(literal_offset(lit, nocase, j), literal_offset(lit, nocase, j + 1))
                =~= literal_code(d, nocase).subrange(literal_offset(d, nocase, j), literal_offset(d, nocase, j + 1)));
        } else {
            assert(lit.subrange(0, j + 1) =~= lit);
            assert(d.subrange(0, j) =~= d);
            assert(lit.subrange(0, j + 1).drop_last() =~= lit.subrange(0, j));
            assert(code.subrange(0, literal_offset(lit, nocase, j)) =~= literal_code(d, nocase));
            assert(code.subrange(literal_offset(lit, nocase, j), literal_offset(lit, nocase, j + 1))
                =~= literal_byte_code(lit.last(), nocase));
        }
    }
}

/// The instruction at the start of the code for byte `j` of the literal.
pub open spec fn literal_instr(b: u8, nocase: bool) -> (Instr, int) {
    if nocase && is_alpha(b) {
        (Instr::MaskedByte(b & 0xdf, 0xdf), 3)
    } else {
        (Instr::Byte(b), 2)
    }
}

proof fn lemma_literal_instr(lit: Seq<u8>, nocase: bool, j: int)
    requires
        0 <= j <= lit.len(),
    ensures
        j < lit.len() ==> instr_at(literal_code(lit, nocase).push(OP_MATCH), literal_offset(lit, nocase, j))
            == Some(literal_instr(lit[j], nocase)),
        j < lit.len() ==> literal_offset(lit, nocase, j + 1) == literal_offset(lit, nocase, j) + literal_instr(lit[j], nocase).1,
        j == lit.len() ==> instr_at(literal_code(lit, nocase).push(OP_MATCH), literal_offset(lit, nocase, j))
            == Some((Instr::Match, 1int)),
        is_leaf(literal_code(lit, nocase).push(OP_MATCH), literal_offset(lit, nocase, j)),
{
    let code = literal_code(lit, nocase).push(OP_MATCH);
    lemma_literal_layout(lit, nocase, j);
    let o = literal_offset(lit, nocase, j);
    if j < lit.len() {
        lemma_literal_layout(lit, nocase, j + 1);
        let lc = literal_code(lit, nocase);
        let bc = literal_byte_code(lit[j], nocase);
        let sub = lc.subrange(o, literal_offset(lit, nocase, j + 1));
        assert(sub == bc);
        assert(o + bc.len() <= lc.len());
        assert(sub[0] == lc[o] && code[o] == lc[o]);
        assert(sub[1] == lc[o + 1] && code[o + 1] == lc[o + 1]);
        if nocase && is_alpha(lit[j]) {
            assert(sub[2] == lc[o + 2] && code[o + 2] == lc[o + 2]);
        }
    } else {
        assert(lit.subrange(0, j) =~= lit);
        assert(code[o] == OP_MATCH);
    }
}

proof fn lemma_leaf_eps_reach(code: Seq<u8>, x: int, y: int, cur: Option<u8>, prev: Option<u8>)
    requires
        is_leaf(code, x),
    ensures
        eps_reach(code, x, y, cur, prev) <==> x == y,
{
    if eps_reach(code, x, y, cur, prev) {
        let p = choose|p: Seq<int>| is_eps_path(code, p, cur, prev) && p[0] == x && p.last() == y;
        if p.len() > 1 {
            assert(eps_step(code, p[0], p[1], cur, prev));
        }
    }
    if x == y {
        let p = seq![x];
        assert(is_eps_path(code, p, cur, prev));
        assert(p[0] == x && p.last() == y);
    }
}

proof fn lemma_masked_letter(b: u8, l: u8)
    requires
        is_alpha(l),
    ensures
        (b & 0xdf == l & 0xdf) == (lower(b) == lower(l)),
{
    assert((b & 0xdf == l & 0xdf) == (lower(b) == lower(l))) by (bit_vector)
        requires
            (0x41 <= l && l <= 0x5a) || (0x61 <= l && l <= 0x7a),
    ;
}

proof fn lemma_literal_consumes(lit: Seq<u8>, nocase: bool, j: int, b: u8)
    requires
        0 <= j < lit.len(),
    ensures
        consumes(literal_code(lit, nocase).push(OP_MATCH), literal_offset(lit, nocase, j), b) == same_byte(b, lit[j], nocase),
{
    lemma_literal_instr(lit, nocase, j);
    let l = lit[j];
    if nocase && is_alpha(l) {
        lemma_masked_letter(b, l);
    } else if nocase {
        assert(lower(l) == l);
    }
}

proof fn lemma_literal_reach(lit: Seq<u8>, nocase: bool, fwd: Seq<u8>, before: Option<u8>, k: nat, ip: int)
    ensures
        reach(literal_code(lit, nocase).push(OP_MATCH), 0, fwd, before, k, ip) <==> (literal_prefix(lit, fwd, k, nocase)
            && ip == literal_offset(lit, nocase, k as int)),
    decreases k,
{
    let code = literal_code(lit, nocase).push(OP_MATCH);
    if k == 0 {
        assert(lit.subrange(0, 0) =~= Seq::<u8>::empty());
        assert(literal_offset(lit, nocase, 0) == 0);
        lemma_literal_instr(lit, nocase, 0);
        lemma_leaf_eps_reach(code, 0, ip, byte_at(fwd, 0), before);
        if ip == 0 {
            lemma_leaf_eps_reach(code, 0, 0, byte_at(fwd, 0), before);
        }
    } else {
        let km: nat = (k - 1) as nat;
        let o = literal_offset(lit, nocase, km as int);
        lemma_literal_reach(lit, nocase, fwd, before, km, o);
        if reach(code, 0, fwd, before, k, ip) {
            let ip0 = choose|ip0: int| reach(code, 0, fwd, before, km, ip0) && #[trigger] advances(code, fwd, km, ip0, ip);
            lemma_literal_reach(lit, nocase, fwd, before, km, ip0);
            assert(ip0 == o);
            lemma_literal_instr(lit, nocase, km as int);
            if km == lit.len() {
                assert(!consumes(code, o, fwd[km as int]));
            }
            assert(km < lit.len());
            lemma_literal_consumes(lit, nocase, km as int, fwd[km as int]);
            lemma_literal_instr(lit, nocase, k as int);
            lemma_leaf_eps_reach(code, literal_offset(lit, nocase, k as int), ip, byte_at(fwd, k as int), Some(fwd[km as int]));
            assert forall|j: int| 0 <= j < k implies same_byte(#[trigger] fwd[j], lit[j], nocase) by {
                if j < km {
                    assert(literal_prefix(lit, fwd, km, nocase));
                }
            }
        }
        if literal_prefix(lit, fwd, k, nocase) && ip == literal_offset(lit, nocase, k as int) {
            assert(literal_prefix(lit, fwd, km, nocase));
            assert(reach(code, 0, fwd, before, km, o));
            lemma_literal_instr(lit, nocase, km as int);
            lemma_literal_instr(lit, nocase, k as int);
            lemma_literal_consumes(lit, nocase, km as int, fwd[km as int]);
            lemma_leaf_eps_reach(code, ip, ip, byte_at(fwd, k as int), Some(fwd[km as int]));
            assert(advances(code, fwd, km, o, ip));
            assert((k - 1) as nat == km);
        }
    }
}

/// The program of a literal accepts exactly the inputs that start with
/// the literal (ignoring ASCII case when `nocase` holds), and it accepts
/// them with the literal's length.
pub proof fn literal_program_accepts(lit: Seq<u8>, nocase: bool, fwd: Seq<u8>, before: Option<u8>, k: nat)
    ensures
        accepts(literal_code(lit, nocase).push(OP_MATCH), 0, fwd, before, k) <==> (k == lit.len()
            && literal_prefix(lit, fwd, k, nocase)),
{
    let code = literal_code(lit, nocase).push(OP_MATCH);
    if accepts(code, 0, fwd, before, k) {
        let ip = choose|ip: int| reach(code, 0, fwd, before, k, ip) && instr_at(code, ip) matches Some((Instr::Match, _));
        lemma_literal_reach(lit, nocase, fwd, before, k, ip);
        lemma_literal_instr(lit, nocase, k as int);
    }
    if k == lit.len() && literal_prefix(lit, fwd, k, nocase) {
        let ip = literal_offset(lit, nocase, k as int);
        lemma_literal_reach(lit, nocase, fwd, before, k, ip);
        lemma_literal_instr(lit, nocase, k as int);
    }
}

/// Byte `b` satisfies a hex token.
pub open spec fn token_matches(t: HexToken, b: u8) -> bool {
    if t.mask == 0 {
        true
    } else if t.mask == 0xff {
        b == t.value
    } else {
        b & t.mask == t.value & t.mask
    }
}

/// The first `k` input bytes satisfy the first `k` tokens.
pub open spec fn hex_prefix(ts: Seq<HexToken>, fwd: Seq<u8>, k: nat) -> bool {
    &&& k <= ts.len()
    &&& k <= fwd.len()
    &&& forall|j: int| 0 <= j < k ==> token_matches(ts[j], #[trigger] fwd[j])
}

/// Where the instruction for token `j` starts.
pub open spec fn hex_offset(ts: Seq<HexToken>, j: int) -> int {
    hex_code(ts.subrange(0, j)).len() as int
}

proof fn lemma_hex_layout(ts: Seq<HexToken>, j: int)
    requires
        0 <= j <= ts.len(),
    ensures
        hex_code(ts).subrange(0, hex_offset(ts, j)) == hex_code(ts.subrange(0, j)),
        hex_offset(ts, j) <= hex_code(ts).len(),
        j < ts.len() ==> hex_offset(ts, j + 1) == hex_offset(ts, j)
            + hex_token_code(ts[j]).len(),
        j < ts.len() ==> hex_code(ts).subrange(
            hex_offset(ts, j),
            hex_offset(ts, j + 1),
        ) == hex_token_code(ts[j]),
    decreases ts.len(),
{
    let code = hex_code(ts);
    if j == ts.len() {
        assert(ts.subrange(0, j) =~= ts);
        assert(code.subrange(0, code.len() as int) =~= code);
    } else {
        let d = ts.drop_last();
        lemma_hex_layout(d, j);
        assert(d.subrange(0, j) =~= ts.subrange(0, j));
        assert(code == hex_code(d) + hex_token_code(ts.last()));
        if j + 1 < ts.len() {
            lemma_hex_layout(d, j + 1);
            assert(d.subrange(0, j + 1) =~= ts.subrange(0, j + 1));
            assert(d[j] == ts[j]);
            assert(code.subrange(0, hex_offset(ts, j)) =~= hex_code(d).subrange(0, hex_offset(d, j)));
            assert(code.subrange(hex_offset(ts, j), hex_offset(ts, j + 1))
                =~= hex_code(d).subrange(hex_offset(d, j), hex_offset(d, j + 1)));
        } else {
            assert(ts.subrange(0, j + 1) =~= ts);
            assert(d.subrange(0, j) =~= d);
            assert(ts.subrange(0, j + 1).drop_last() =~= ts.subrange(0, j));
            assert(code.subrange(0, hex_offset(ts, j)) =~= hex_code(d));
            assert(code.subrange(hex_offset(ts, j), hex_offset(ts, j + 1))
                =~= hex_token_code(ts.last()));
        }
    }
}

/// The instruction of a hex token, and its size.
pub open spec fn hex_instr(t: HexToken) -> (Instr, int) {
    if t.mask == 0 {
        (Instr::AnyByte, 1)
    } else if t.mask == 0xff {
        (Instr::Byte(t.value), 2)
    } else {
        (Instr::MaskedByte(t.value & t.mask, t.mask), 3)
    }
}

proof fn lemma_hex_instr(ts: Seq<HexToken>, j: int)
    requires
        0 <= j <= ts.len(),
    ensures
        j < ts.len() ==> instr_at(hex_code(ts).push(OP_MATCH), hex_offset(ts, j))
            == Some(hex_instr(ts[j])),
        j < ts.len() ==> hex_offset(ts, j + 1) == hex_offset(ts, j) + hex_instr(ts[j]).1,
        j == ts.len() ==> instr_at(hex_code(ts).push(OP_MATCH), hex_offset(ts, j))
            == Some((Instr::Match, 1int)),
        is_leaf(hex_code(ts).push(OP_MATCH), hex_offset(ts, j)),
{
    let code = hex_code(ts).push(OP_MATCH);
    lemma_hex_layout(ts, j);
    let o = hex_offset(ts, j);
    if j < ts.len() {
        lemma_hex_layout(ts, j + 1);
        let lc = hex_code(ts);
        let bc = hex_token_code(ts[j]);
        let sub = lc.subrange(o, hex_offset(ts, j + 1));
        assert(sub == bc);
        assert(o + bc.len() <= lc.len());
        assert(sub[0] == lc[o] && code[o] == lc[o]);
        if ts[j].mask != 0 {
            assert(sub[1] == lc[o + 1] && code[o + 1] == lc[o + 1]);
        }
        if ts[j].mask != 0 && ts[j].mask != 0xff {
            assert(sub[2] == lc[o + 2] && code[o + 2] == lc[o + 2]);
        }
    } else {
        assert(ts.subrange(0, j) =~= ts);
        assert(code[o] == OP_MATCH);
    }
}

proof fn lemma_hex_consumes(ts: Seq<HexToken>, j: int, b: u8)
    requires
        0 <= j < ts.len(),
    ensures
        consumes(hex_code(ts).push(OP_MATCH), hex_offset(ts, j), b) == token_matches(ts[j], b),
{
    lemma_hex_instr(ts, j);
}

proof fn lemma_hex_reach(ts: Seq<HexToken>, fwd: Seq<u8>, before: Option<u8>, k: nat, ip: int)
    ensures
        reach(hex_code(ts).push(OP_MATCH), 0, fwd, before, k, ip) <==> (hex_prefix(ts, fwd, k)
            && ip == hex_offset(ts, k as int)),
    decreases k,
{
    let code = hex_code(ts).push(OP_MATCH);
    if k == 0 {
        assert(ts.subrange(0, 0) =~= Seq::<HexToken>::empty());
        assert(hex_offset(ts, 0) == 0);
        lemma_hex_instr(ts, 0);
        lemma_leaf_eps_reach(code, 0, ip, byte_at(fwd, 0), before);
        if ip == 0 {
            lemma_leaf_eps_reach(code, 0, 0, byte_at(fwd, 0), before);
        }
    } else {
        let km: nat = (k - 1) as nat;
        let o = hex_offset(ts, km as int);
        lemma_hex_reach(ts, fwd, before, km, o);
        if reach(code, 0, fwd, before, k, ip) {
            let ip0 = choose|ip0: int| reach(code, 0, fwd, before, km, ip0) && #[trigger] advances(code, fwd, km, ip0, ip);
            lemma_hex_reach(ts, fwd, before, km, ip0);
            assert(ip0 == o);
            lemma_hex_instr(ts, km as int);
            if km == ts.len() {
                assert(!consumes(code, o, fwd[km as int]));
            }
            assert(km < ts.len());
            lemma_hex_consumes(ts, km as int, fwd[km as int]);
            lemma_hex_instr(ts, k as int);
            lemma_leaf_eps_reach(code, hex_offset(ts, k as int), ip, byte_at(fwd, k as int), Some(fwd[km as int]));
            assert forall|j: int| 0 <= j < k implies token_matches(ts[j], #[trigger] fwd[j]) by {
                if j < km {
                    assert(hex_prefix(ts, fwd, km));
                }
            }
        }
        if hex_prefix(ts, fwd, k) && ip == hex_offset(ts, k as int) {
            assert(hex_prefix(ts, fwd, km));
            assert(reach(code, 0, fwd, before, km, o));
            lemma_hex_instr(ts, km as int);
            lemma_hex_instr(ts, k as int);
            lemma_hex_consumes(ts, km as int, fwd[km as int]);
            lemma_leaf_eps_reach(code, ip, ip, byte_at(fwd, k as int), Some(fwd[km as int]));
            assert(advances(code, fwd, km, o, ip));
            assert((k - 1) as nat == km);
        }
    }
}

/// The program of a hex pattern accepts exactly the inputs whose first
/// bytes satisfy its tokens, and it accepts them with the number of tokens.
pub proof fn hex_program_accepts(ts: Seq<HexToken>, fwd: Seq<u8>, before: Option<u8>, k: nat)
    ensures
        accepts(hex_code(ts).push(OP_MATCH), 0, fwd, before, k) <==> (k == ts.len()
            && hex_prefix(ts, fwd, k)),
{
    let code = hex_code(ts).push(OP_MATCH);
    if accepts(code, 0, fwd, before, k) {
        let ip = choose|ip: int| reach(code, 0, fwd, before, k, ip) && instr_at(code, ip) matches Some((Instr::Match, _));
        lemma_hex_reach(ts, fwd, before, k, ip);
        lemma_hex_instr(ts, k as int);
    }
    if k == ts.len() && hex_prefix(ts, fwd, k) {
        let ip = hex_offset(ts, k as int);
        lemma_hex_reach(ts, fwd, before, k, ip);
        lemma_hex_instr(ts, k as int);
    }
}

/// The matches of a pattern compiled without case are closed under changes
/// of ASCII case in the input: two inputs that differ only in the case of
/// their letters are accepted with the same lengths.
pub proof fn nocase_literal_closed_under_case(
    lit: Seq<u8>,
    fwd1: Seq<u8>,
    fwd2: Seq<u8>,
    before1: Option<u8>,
    before2: Option<u8>,
    k: nat,
)
    requires
        fwd1.len() == fwd2.len(),
        forall|i: int| 0 <= i < fwd1.len() ==> lower(#[trigger] fwd1[i]) == lower(fwd2[i]),
    ensures
        accepts(literal_code(lit, true).push(OP_MATCH), 0, fwd1, before1, k) <==> accepts(
            literal_code(lit, true).push(OP_MATCH),
            0,
            fwd2,
            before2,
            k,
        ),
{
    literal_program_accepts(lit, true, fwd1, before1, k);
    literal_program_accepts(lit, true, fwd2, before2, k);
    if literal_prefix(lit, fwd1, k, true) {
        assert forall|j: int| 0 <= j < k implies same_byte(#[trigger] fwd2[j], lit[j], true) by {
            assert(same_byte(fwd1[j], lit[j], true));
        }
    }
    if literal_prefix(lit, fwd2, k, true) {
        assert forall|j: int| 0 <= j < k implies same_byte(#[trigger] fwd1[j], lit[j], true) by {
            assert(same_byte(fwd2[j], lit[j], true));
        }
    }
}

} // verus!
