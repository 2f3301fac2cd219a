//! The byte code of the pattern VM and its assembler.
//!
//! An instruction is an opcode byte followed by its operands:
//!
//! | opcode | instruction       | operands                                  |
//! |--------|-------------------|-------------------------------------------|
//! | 0x00   | `Match`           |                                           |
//! | 0x01   | `AnyByte`         |                                           |
//! | 0x02   | `Byte`            | the byte                                  |
//! | 0x03   | `MaskedByte`      | the value, then the mask                  |
//! | 0x04   | `ClassRanges`     | a count `n`, then `n` pairs `lo, hi`      |
//! | 0x05   | `ClassBitmap`     | 32 bytes, bit `b % 8` of byte `b / 8`     |
//! | 0x06   | `Jump`            | a little-endian `i32` displacement        |
//! | 0x07   | `Split`           | two `i32` displacements, preferred first  |
//! | 0x08   | `WordBoundary`    |                                           |
//! | 0x09   | `NonWordBoundary` |                                           |
//! | 0x0a   | `LineStart`       |                                           |
//! | 0x0b   | `LineEnd`         |                                           |
//! | 0x0c   | `Eoi`             |                                           |
//!
//! Displacements count from the start of the instruction that holds them.

use vstd::prelude::*;
use crate::bytes::u32_at;

verus! {

pub const OP_MATCH: u8 = 0x00;
pub const OP_ANY_BYTE: u8 = 0x01;
pub const OP_BYTE: u8 = 0x02;
pub const OP_MASKED_BYTE: u8 = 0x03;
pub const OP_CLASS_RANGES: u8 = 0x04;
pub const OP_CLASS_BITMAP: u8 = 0x05;
pub const OP_JUMP: u8 = 0x06;
pub const OP_SPLIT: u8 = 0x07;
pub const OP_WORD_BOUNDARY: u8 = 0x08;
pub const OP_NON_WORD_BOUNDARY: u8 = 0x09;
pub const OP_LINE_START: u8 = 0x0a;
pub const OP_LINE_END: u8 = 0x0b;
pub const OP_EOI: u8 = 0x0c;

/// A decoded instruction. Classes are left in the code: `at` is where their
/// operands start.
#[derive(Debug, Clone, Copy, PartialEq, Eq, Structural)]
pub enum Instr {
    Match,
    AnyByte,
    Byte(u8),
    MaskedByte(u8, u8),
    ClassRanges { at: usize, n: u8 },
    ClassBitmap { at: usize },
    Jump(i32),
    Split(i32, i32),
    WordBoundary,
    NonWordBoundary,
    LineStart,
    LineEnd,
    Eoi,
}

/// The signed 32-bit displacement stored at `off`.
pub open spec fn i32_at(code: Seq<u8>, off: int) -> i32 {
    u32_at(code, off, false) as i32
}

/// The instruction at `ip` and its size, or `None` when `ip` is outside the
/// code, the opcode is unknown or the operands are cut short.
pub open spec fn instr_at(code: Seq<u8>, ip: int) -> Option<(Instr, int)> {
    if ip < 0 || ip >= code.len() {
        None
    } else {
        let op = code[ip];
        let left = code.len() - ip;
        if op == OP_MATCH {
            Some((Instr::Match, 1))
        } else if op == OP_ANY_BYTE {
            Some((Instr::AnyByte, 1))
        } else if op == OP_BYTE {
            if left >= 2 { Some((Instr::Byte(code[ip + 1]), 2)) } else { None }
        } else if op == OP_MASKED_BYTE {
            if left >= 3 { Some((Instr::MaskedByte(code[ip + 1], code[ip + 2]), 3)) } else { None }
        } else if op == OP_CLASS_RANGES {
            if left >= 2 && left >= 2 + 2 * code[ip + 1] {
                Some((Instr::ClassRanges { at: (ip + 2) as usize, n: code[ip + 1] }, 2 + 2 * code[ip + 1]))
            } else {
                None
            }
        } else if op == OP_CLASS_BITMAP {
            if left >= 33 { Some((Instr::ClassBitmap { at: (ip + 1) as usize }, 33)) } else { None }
        } else if op == OP_JUMP {
            if left >= 5 { Some((Instr::Jump(i32_at(code, ip + 1)), 5)) } else { None }
        } else if op == OP_SPLIT {
            if left >= 9 { Some((Instr::Split(i32_at(code, ip + 1), i32_at(code, ip + 5)), 9)) } else { None }
        } else if op == OP_WORD_BOUNDARY {
            Some((Instr::WordBoundary, 1))
        } else if op == OP_NON_WORD_BOUNDARY {
            Some((Instr::NonWordBoundary, 1))
        } else if op == OP_LINE_START {
            Some((Instr::LineStart, 1))
        } else if op == OP_LINE_END {
            Some((Instr::LineEnd, 1))
        } else if op == OP_EOI {
            Some((Instr::Eoi, 1))
        } else {
            None
        }
    }
}

/// Reads the displacement at `off`.
fn read_i32(code: &[u8], off: usize) -> (r: i32)
    requires
        off + 4 <= code@.len(),
    ensures
        r == i32_at(code@, off as int),
{
    (crate::bytes::read_u32(code, off, false).unwrap()) as i32
}

/// Decodes the instruction at `ip`.
pub fn decode_instr(code: &[u8], ip: usize) -> (r: Option<(Instr, usize)>)
    ensures
        match r {
            Some((i, n)) => instr_at(code@, ip as int) == Some((i, n as int)) && 1 <= n && ip + n <= code@.len(),
            None => instr_at(code@, ip as int).is_none(),
        },
{
    if ip >= code.len() {
        return None;
    }
    let op = code[ip];
    let left = code.len() - ip;
    if op == OP_MATCH {
        Some((Instr::Match, 1))
    } else if op == OP_ANY_BYTE {
        Some((Instr::AnyByte, 1))
    } else if op == OP_BYTE {
        if left >= 2 { Some((Instr::Byte(code[ip + 1]), 2)) } else { None }
    } else if op == OP_MASKED_BYTE {
        if left >= 3 { Some((Instr::MaskedByte(code[ip + 1], code[ip + 2]), 3)) } else { None }
    } else if op == OP_CLASS_RANGES {
        if left >= 2 && left >= 2 + 2 * (code[ip + 1] as usize) {
            Some((Instr::ClassRanges { at: ip + 2, n: code[ip + 1] }, 2 + 2 * (code[ip + 1] as usize)))
        } else {
            None
        }
    } else if op == OP_CLASS_BITMAP {
        if left >= 33 { Some((Instr::ClassBitmap { at: ip + 1 }, 33)) } else { None }
    } else if op == OP_JUMP {
        if left >= 5 { Some((Instr::Jump(read_i32(code, ip + 1)), 5)) } else { None }
    } else if op == OP_SPLIT {
        if left >= 9 { Some((Instr::Split(read_i32(code, ip + 1), read_i32(code, ip + 5)), 9)) } else { None }
    } else if op == OP_WORD_BOUNDARY {
        Some((Instr::WordBoundary, 1))
    } else if op == OP_NON_WORD_BOUNDARY {
        Some((Instr::NonWordBoundary, 1))
    } else if op == OP_LINE_START {
        Some((Instr::LineStart, 1))
    } else if op == OP_LINE_END {
        Some((Instr::LineEnd, 1))
    } else if op == OP_EOI {
        Some((Instr::Eoi, 1))
    } else {
        None
    }
}

/// `b` lies in one of the `n` ranges stored from `at`.
pub open spec fn in_ranges(code: Seq<u8>, at: int, n: int, b: u8) -> bool {
    exists|k: int| 0 <= k < n && #[trigger] code[at + 2 * k] <= b && b <= code[at + 2 * k + 1]
}

/// Bit `b` of the 256-bit set stored from `at`.
pub open spec fn in_bitmap(code: Seq<u8>, at: int, b: u8) -> bool {
    (code[at + b / 8] >> (b % 8)) & 1 == 1
}

/// The instruction at `ip` consumes byte `b`.
pub open spec fn consumes(code: Seq<u8>, ip: int, b: u8) -> bool {
    match instr_at(code, ip) {
        Some((Instr::AnyByte, _)) => true,
        Some((Instr::Byte(e), _)) => b == e,
        Some((Instr::MaskedByte(e, m), _)) => b & m == e,
        Some((Instr::ClassRanges { at, n }, _)) => in_ranges(code, at as int, n as int, b),
        Some((Instr::ClassBitmap { at }, _)) => in_bitmap(code, at as int, b),
        _ => false,
    }
}

/// Whether `b` is in one of the ranges of a `ClassRanges` instruction.
pub fn ranges_contain(code: &[u8], at: usize, n: u8, b: u8) -> (r: bool)
    requires
        at + 2 * n <= code@.len(),
    ensures
        r == in_ranges(code@, at as int, n as int, b),
{
    let len = code.len();
    let mut k: usize = 0;
    while k < n as usize
        invariant
            len == code@.len(),
            k <= n,
            at + 2 * n <= code@.len(),
            forall|j: int| 0 <= j < k ==> !(#[trigger] code@[at + 2 * j] <= b && b <= code@[at + 2 * j + 1]),
        decreases n - k,
    {
        if code[at + 2 * k] <= b && b <= code[at + 2 * k + 1] {
            return true;
        }
        k = k + 1;
    }
    proof {
        if in_ranges(code@, at as int, n as int, b) {
            let j = choose|j: int| 0 <= j < n && #[trigger] code@[at + 2 * j] <= b && b <= code@[at + 2 * j + 1];
            assert(!(code@[at + 2 * j] <= b && b <= code@[at + 2 * j + 1]));
        }
    }
    false
}

/// `b` is a word byte: an ASCII letter, digit or underscore.
pub open spec fn is_word_byte(b: u8) -> bool {
    (0x61 <= b && b <= 0x7a) || (0x41 <= b && b <= 0x5a) || (0x30 <= b && b <= 0x39) || b == 0x5f
}

/// A word byte is present.
pub open spec fn word_at(b: Option<u8>) -> bool {
    match b {
        Some(x) => is_word_byte(x),
        None => false,
    }
}

/// The assertion instruction at `ip` holds between bytes `prev` and `cur`.
pub open spec fn assertion_holds(i: Instr, cur: Option<u8>, prev: Option<u8>) -> bool {
    match i {
        Instr::WordBoundary => word_at(prev) != word_at(cur),
        Instr::NonWordBoundary => word_at(prev) == word_at(cur),
        Instr::LineStart => prev.is_none() || prev == Some(0x0au8),
        Instr::LineEnd => cur.is_none() || cur == Some(0x0au8),
        Instr::Eoi => cur.is_none(),
        _ => false,
    }
}

/// One step that reads no input: a jump, either branch of a split, or an
/// assertion that holds between `prev` and `cur`.
pub open spec fn eps_step(code: Seq<u8>, ip: int, to: int, cur: Option<u8>, prev: Option<u8>) -> bool {
    match instr_at(code, ip) {
        Some((Instr::Jump(d), _)) => to == ip + d,
        Some((Instr::Split(a, b), _)) => to == ip + a || to == ip + b,
        Some((i, n)) => (i is WordBoundary || i is NonWordBoundary || i is LineStart || i is LineEnd || i is Eoi)
            && assertion_holds(i, cur, prev) && to == ip + n,
        None => false,
    }
}

/// `p` is a chain of input-free steps.
pub open spec fn is_eps_path(code: Seq<u8>, p: Seq<int>, cur: Option<u8>, prev: Option<u8>) -> bool {
    &&& p.len() >= 1
    &&& forall|k: int| 0 <= k < p.len() - 1 ==> eps_step(code, #[trigger] p[k], p[k + 1], cur, prev)
}

/// `to` is reachable from `from` without reading input.
pub open spec fn eps_reach(code: Seq<u8>, from: int, to: int, cur: Option<u8>, prev: Option<u8>) -> bool {
    exists|p: Seq<int>| is_eps_path(code, p, cur, prev) && p[0] == from && p.last() == to
}

/// The instruction at `ip` reads input or accepts: a thread can rest there.
pub open spec fn is_leaf(code: Seq<u8>, ip: int) -> bool {
    match instr_at(code, ip) {
        Some((Instr::Match, _)) | Some((Instr::AnyByte, _)) | Some((Instr::Byte(_), _))
        | Some((Instr::MaskedByte(_, _), _)) | Some((Instr::ClassRanges { .. }, _))
        | Some((Instr::ClassBitmap { .. }, _)) => true,
        _ => false,
    }
}

/// The byte at position `k` of `s`, if any.
pub open spec fn byte_at(s: Seq<u8>, k: int) -> Option<u8> {
    if 0 <= k < s.len() {
        Some(s[k])
    } else {
        None
    }
}

/// From a thread resting at `ip0`, reading byte `k` of `fwd` leads to `ip`.
pub open spec fn advances(code: Seq<u8>, fwd: Seq<u8>, k: nat, ip0: int, ip: int) -> bool {
    &&& k < fwd.len()
    &&& consumes(code, ip0, fwd[k as int])
    &&& eps_reach(code, ip0 + instr_at(code, ip0).unwrap().1, ip, byte_at(fwd, (k + 1) as int), Some(fwd[k as int]))
}

/// After reading the first `k` bytes of `fwd`, a thread of the program that
/// starts at `start` can rest at `ip`. `before` is the byte before `fwd`.
pub open spec fn reach(code: Seq<u8>, start: int, fwd: Seq<u8>, before: Option<u8>, k: nat, ip: int) -> bool
    decreases k,
{
    if k == 0 {
        is_leaf(code, ip) && eps_reach(code, start, ip, byte_at(fwd, 0), before)
    } else {
        is_leaf(code, ip) && exists|ip0: int|
            reach(code, start, fwd, before, (k - 1) as nat, ip0) && #[trigger] advances(code, fwd, (k - 1) as nat, ip0, ip)
    }
}

/// The program that starts at `start` accepts the first `k` bytes of `fwd`.
pub open spec fn accepts(code: Seq<u8>, start: int, fwd: Seq<u8>, before: Option<u8>, k: nat) -> bool {
    exists|ip: int| reach(code, start, fwd, before, k, ip) && instr_at(code, ip) matches Some((Instr::Match, _))
}


/// The program accepts the first `k` bytes of `fwd` and no shorter prefix.
pub open spec fn shortest_accept(code: Seq<u8>, start: int, fwd: Seq<u8>, before: Option<u8>, k: nat) -> bool {
    &&& accepts(code, start, fwd, before, k)
    &&& forall|j: nat| j < k ==> !#[trigger] accepts(code, start, fwd, before, j)
}

} // verus!
