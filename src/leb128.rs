//! Variable-length integers in the LEB128 encoding, as found in Mach-O
//! export tries and binding opcode streams.

use vstd::prelude::*;

verus! {

/// Why a variable-length integer could not be read.
#[derive(Debug, Clone, Copy, PartialEq, Eq, Structural)]
pub enum LebError {
    /// The input ended before a byte with a clear continuation bit.
    Truncated,
    /// The value needs a shift of 64 bits or more.
    TooLarge,
}

/// The first `n` bytes of `s` all have their continuation bit set.
pub open spec fn all_continue(s: Seq<u8>, n: nat) -> bool {
    forall|k: int| 0 <= k < n ==> #[trigger] s[k] & 0x80 != 0
}

/// The unsigned value of the first `n` bytes of `s`: the bitwise union of
/// the low seven bits of byte `k` shifted left by `7 * k`, truncated to 64
/// bits.
pub open spec fn uleb_bits(s: Seq<u8>, n: nat) -> u64
    recommends
        n <= s.len(),
        n <= 10,
    decreases n,
{
    if n == 0 {
        0
    } else {
        uleb_bits(s, (n - 1) as nat) | (((s[n - 1] & 0x7f) as u64) << (7 * (n - 1)) as u64)
    }
}

/// The signed value of the `n` bytes of `s` that form one SLEB128 number: the
/// unsigned bits, sign-extended from bit `7 * n` when that fits in 64 bits
/// and bit 6 of the last byte is set.
pub open spec fn sleb_value(s: Seq<u8>, n: nat) -> i64
    recommends
        1 <= n <= s.len(),
        n <= 10,
{
    let bits = uleb_bits(s, n);
    if 7 * n < 64 && s[n - 1] & 0x40 != 0 {
        (bits | (0xffff_ffff_ffff_ffffu64 << (7 * n) as u64)) as i64
    } else {
        bits as i64
    }
}

/// The LEB128 number at the start of `s` is made of its first `n` bytes,
/// and `n` is small enough for the shifts to stay under 64 bits.
pub open spec fn leb_ends_at(s: Seq<u8>, n: nat) -> bool {
    1 <= n <= 10 && n <= s.len() && all_continue(s, (n - 1) as nat) && s[n - 1] & 0x80 == 0
}

/// How a LEB128 read of `s` ends: `Ok(n)` where the number is made of the
/// first `n` bytes, or the error the read meets.
pub open spec fn leb_outcome(s: Seq<u8>) -> Result<nat, LebError> {
    if exists|n: nat| leb_ends_at(s, n) {
        Ok(choose|n: nat| leb_ends_at(s, n))
    } else if s.len() <= 10 {
        Err(LebError::Truncated)
    } else {
        Err(LebError::TooLarge)
    }
}

proof fn lemma_outcome_unique(s: Seq<u8>, n: nat)
    requires
        1 <= n <= 10,
        n <= s.len(),
        all_continue(s, (n - 1) as nat),
        s[n - 1] & 0x80 == 0,
    ensures
        leb_outcome(s) == Ok::<nat, LebError>(n),
{
    assert(leb_ends_at(s, n));
    let m = choose|m: nat| leb_ends_at(s, m);
    assert(leb_ends_at(s, m));
    if m < n {
        let k: int = m - 1;
        assert(s[k] & 0x80 != 0);
    } else if m > n {
        let k: int = n - 1;
        assert(s[k] & 0x80 != 0);
    }
}

/// Reads an unsigned LEB128 number from the start of `input`, returning its
/// value and the number of bytes it takes.
pub fn uleb128(input: &[u8]) -> (r: Result<(u64, usize), LebError>)
    ensures
        match leb_outcome(input@) {
            Ok(n) => r == Ok::<(u64, usize), LebError>((uleb_bits(input@, n), n as usize)),
            Err(e) => r == Err::<(u64, usize), LebError>(e),
        },
{
    let mut val: u64 = 0;
    let mut i: usize = 0;
    loop
        invariant
            i <= input.len(),
            i <= 10,
            all_continue(input@, i as nat),
            val == uleb_bits(input@, i as nat),
        decreases 10 - i,
    {
        if i >= input.len() {
            proof {
                assert(!exists|n: nat| leb_ends_at(input@, n)) by {
                    if exists|n: nat| leb_ends_at(input@, n) {
                        let n = choose|n: nat| leb_ends_at(input@, n);
                        assert(input@[n - 1] & 0x80 != 0);
                    }
                }
            }
            return Err(LebError::Truncated);
        }
        let byte = input[i];
        if i == 10 {
            proof {
                assert(!exists|n: nat| leb_ends_at(input@, n)) by {
                    if exists|n: nat| leb_ends_at(input@, n) {
                        let n = choose|n: nat| leb_ends_at(input@, n);
                        assert(input@[n - 1] & 0x80 != 0);
                    }
                }
            }
            return Err(LebError::TooLarge);
        }
        let shift: u64 = 7 * (i as u64);
        val = val | (((byte & 0x7f) as u64) << shift);
        i = i + 1;
        if byte & 0x80 == 0 {
            proof {
                lemma_outcome_unique(input@, i as nat);
            }
            return Ok((val, i));
        }
    }
}

/// Reads a signed LEB128 number from the start of `input`, returning its
/// value and the number of bytes it takes.
pub fn sleb128(input: &[u8]) -> (r: Result<(i64, usize), LebError>)
    ensures
        match leb_outcome(input@) {
            Ok(n) => r == Ok::<(i64, usize), LebError>((sleb_value(input@, n), n as usize)),
            Err(e) => r == Err::<(i64, usize), LebError>(e),
        },
{
    match uleb128(input) {
        Ok((bits, n)) => {
            let last = input[n - 1];
            let shift: u64 = 7 * (n as u64);
            if shift < 64 && last & 0x40 != 0 {
                Ok(((bits | (0xffff_ffff_ffff_ffffu64 << shift)) as i64, n))
            } else {
                Ok((bits as i64, n))
            }
        },
        Err(e) => Err(e),
    }
}

} // verus!
