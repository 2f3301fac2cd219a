//! Fixed-width integers and NUL-terminated strings read out of byte slices,
//! in either byte order.

use vstd::prelude::*;

verus! {

/// The 32-bit integer stored at `off`, big-endian when `big` holds.
pub open spec fn u32_at(s: Seq<u8>, off: int, big: bool) -> u32 {
    if big {
        (s[off] as int * 0x100_0000 + s[off + 1] as int * 0x1_0000 + s[off + 2] as int * 0x100
            + s[off + 3] as int) as u32
    } else {
        (s[off + 3] as int * 0x100_0000 + s[off + 2] as int * 0x1_0000 + s[off + 1] as int * 0x100
            + s[off] as int) as u32
    }
}

/// The 64-bit integer stored at `off`, big-endian when `big` holds.
pub open spec fn u64_at(s: Seq<u8>, off: int, big: bool) -> u64 {
    if big {
        (u32_at(s, off, big) as int * 0x1_0000_0000 + u32_at(s, off + 4, big) as int) as u64
    } else {
        (u32_at(s, off + 4, big) as int * 0x1_0000_0000 + u32_at(s, off, big) as int) as u64
    }
}

/// A word of the file's width at `off`: 32 bits when `is_32` holds, else 64.
pub open spec fn uint_at(s: Seq<u8>, off: int, big: bool, is_32: bool) -> u64 {
    if is_32 {
        u32_at(s, off, big) as u64
    } else {
        u64_at(s, off, big)
    }
}

/// The size in bytes of a word of the file's width.
pub open spec fn uint_size(is_32: bool) -> int {
    if is_32 {
        4
    } else {
        8
    }
}

/// `n` bytes starting at `off` lie inside `s`.
pub open spec fn fits(s: Seq<u8>, off: int, n: int) -> bool {
    0 <= off && 0 <= n && off + n <= s.len()
}

/// Reads the byte at `off`.
pub fn read_u8(s: &[u8], off: usize) -> (r: Option<u8>)
    ensures
        r == (if fits(s@, off as int, 1) { Some(s@[off as int]) } else { None::<u8> }),
{
    if off < s.len() {
        Some(s[off])
    } else {
        None
    }
}

/// Reads a 32-bit integer at `off`.
pub fn read_u32(s: &[u8], off: usize, big: bool) -> (r: Option<u32>)
    ensures
        r == (if fits(s@, off as int, 4) { Some(u32_at(s@, off as int, big)) } else { None::<u32> }),
{
    if off > s.len() || s.len() - off < 4 {
        return None;
    }
    let b0 = s[off] as u32;
    let b1 = s[off + 1] as u32;
    let b2 = s[off + 2] as u32;
    let b3 = s[off + 3] as u32;
    if big {
        Some(b0 * 0x100_0000 + b1 * 0x1_0000 + b2 * 0x100 + b3)
    } else {
        Some(b3 * 0x100_0000 + b2 * 0x1_0000 + b1 * 0x100 + b0)
    }
}

/// Reads a 64-bit integer at `off`.
pub fn read_u64(s: &[u8], off: usize, big: bool) -> (r: Option<u64>)
    ensures
        r == (if fits(s@, off as int, 8) { Some(u64_at(s@, off as int, big)) } else { None::<u64> }),
{
    if off > s.len() || s.len() - off < 8 {
        return None;
    }
    let a = read_u32(s, off, big).unwrap() as u64;
    let b = read_u32(s, off + 4, big).unwrap() as u64;
    if big {
        Some(a * 0x1_0000_0000 + b)
    } else {
        Some(b * 0x1_0000_0000 + a)
    }
}

/// Reads a word of the file's width at `off`, widened to 64 bits.
pub fn read_uint(s: &[u8], off: usize, big: bool, is_32: bool) -> (r: Option<u64>)
    ensures
        r == (if fits(s@, off as int, uint_size(is_32)) {
            Some(uint_at(s@, off as int, big, is_32))
        } else {
            None::<u64>
        }),
{
    if is_32 {
        match read_u32(s, off, big) {
            Some(v) => Some(v as u64),
            None => None,
        }
    } else {
        read_u64(s, off, big)
    }
}

/// The position of the first NUL byte of `s` at or after `from`, or the
/// length of `s` when there is none.
pub open spec fn nul_from(s: Seq<u8>, from: int) -> int
    decreases s.len() - from,
{
    if from >= s.len() {
        s.len() as int
    } else if s[from] == 0 {
        from
    } else {
        nul_from(s, from + 1)
    }
}

proof fn lemma_nul_from_bounds(s: Seq<u8>, from: int)
    requires
        0 <= from <= s.len(),
    ensures
        from <= nul_from(s, from) <= s.len(),
        nul_from(s, from) < s.len() ==> s[nul_from(s, from)] == 0,
        forall|k: int| from <= k < nul_from(s, from) ==> s[k] != 0,
    decreases s.len() - from,
{
    if from < s.len() && s[from] != 0 {
        lemma_nul_from_bounds(s, from + 1);
    }
}

/// Finds the end of the run of non-NUL bytes that starts at `from`.
pub fn find_nul(s: &[u8], from: usize) -> (r: usize)
    requires
        from <= s.len(),
    ensures
        r == nul_from(s@, from as int),
        from <= r <= s.len(),
        r < s.len() ==> s@[r as int] == 0,
{
    proof {
        lemma_nul_from_bounds(s@, from as int);
    }
    let mut i = from;
    while i < s.len() && s[i] != 0
        invariant
            from <= i <= s.len(),
            nul_from(s@, i as int) == nul_from(s@, from as int),
        decreases s.len() - i,
    {
        i = i + 1;
    }
    i
}

/// The bytes of `s` from `from` up to the first NUL byte (or the end).
pub open spec fn take_till_nul(s: Seq<u8>, from: int) -> Seq<u8> {
    s.subrange(from, nul_from(s, from))
}

/// `s` with every trailing NUL byte removed.
pub open spec fn trim_nuls(s: Seq<u8>) -> Seq<u8>
    decreases s.len(),
{
    if s.len() > 0 && s.last() == 0 {
        trim_nuls(s.drop_last())
    } else {
        s
    }
}

/// Copies `s` without its trailing NUL bytes.
pub fn trim_end_nuls(s: &[u8]) -> (r: Vec<u8>)
    ensures
        r@ == trim_nuls(s@),
{
    let mut end = s.len();
    proof {
        assert(s@.subrange(0, s@.len() as int) =~= s@);
    }
    while end > 0 && s[end - 1] == 0
        invariant
            end <= s.len(),
            trim_nuls(s@.subrange(0, end as int)) == trim_nuls(s@),
        decreases end,
    {
        proof {
            assert(s@.subrange(0, end as int).drop_last() =~= s@.subrange(0, end - 1));
        }
        end = end - 1;
    }
    proof {
        if end > 0 {
            assert(s@.subrange(0, end as int).last() == s@[end - 1]);
        }
    }
    vstd::slice::slice_to_vec(&s[0..end])
}

} // verus!
