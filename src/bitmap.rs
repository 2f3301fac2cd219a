//! The matching-patterns bitmap that conditions probe: bit `i` is set when
//! pattern `i` matched, stored at bit `i % 8` of byte `i / 8`.

use vstd::prelude::*;

verus! {

/// Bit `i` of the bitmap.
pub open spec fn bit_of(bitmap: Seq<u8>, i: int) -> bool {
    (bitmap[i / 8] >> ((i % 8) as u8)) & 1 == 1
}

proof fn lemma_set_bit(x: u8, k: u8, m: u8)
    requires
        k < 8,
        m < 8,
    ensures
        ((x | (1u8 << k)) >> m) & 1 == (if m == k { 1u8 } else { (x >> m) & 1 }),
{
    assert(((x | (1u8 << k)) >> m) & 1 == (if m == k { 1u8 } else { (x >> m) & 1 })) by (bit_vector)
        requires
            k < 8,
            m < 8,
    ;
}

proof fn lemma_zero_bits(m: u8)
    requires
        m < 8,
    ensures
        (0u8 >> m) & 1 == 0,
{
    assert((0u8 >> m) & 1 == 0) by (bit_vector);
}

/// Builds the bitmap of a list of flags: one bit per flag, in
/// `(len + 7) / 8` bytes.
pub fn pattern_bitmap(flags: &Vec<bool>) -> (r: Vec<u8>)
    ensures
        r@.len() == (flags@.len() + 7) / 8,
        forall|i: int| 0 <= i < flags@.len() ==> bit_of(r@, i) == #[trigger] flags@[i],
{
    let n = flags.len();
    let nbytes = n / 8 + if n % 8 == 0 { 0 } else { 1 };
    let mut bm: Vec<u8> = Vec::new();
    while bm.len() < nbytes
        invariant
            bm@.len() <= nbytes,
            forall|k: int| 0 <= k < bm@.len() ==> #[trigger] bm@[k] == 0,
        decreases nbytes - bm@.len(),
    {
        bm.push(0);
    }
    proof {
        assert forall|j: int| 0 <= j < n implies #[trigger] bit_of(bm@, j) == (j < 0 && flags@[j]) by {
            lemma_zero_bits((j % 8) as u8);
            assert(bm@[j / 8] == 0);
        }
    }
    let mut i: usize = 0;
    while i < n
        invariant
            n == flags@.len(),
            nbytes == (n + 7) / 8,
            bm@.len() == nbytes,
            i <= n,
            forall|j: int| 0 <= j < n ==> #[trigger] bit_of(bm@, j) == (j < i && flags@[j]),
        decreases n - i,
    {
        if flags[i] {
            let at = i / 8;
            let k = (i % 8) as u8;
            let old_byte = bm[at];
            let ghost before = bm@;
            bm.set(at, old_byte | (1u8 << k));
            proof {
                assert forall|j: int| 0 <= j < n implies #[trigger] bit_of(bm@, j) == (j < i + 1 && flags@[j]) by {
                    let m = (j % 8) as u8;
                    assert(bit_of(before, j) == (j < i && flags@[j]));
                    if j / 8 == at {
                        lemma_set_bit(old_byte, k, m);
                        if j != i {
                            assert(m != k);
                        }
                    } else {
                        assert(bm@[j / 8] == before[j / 8]);
                    }
                }
            }
        } else {
            proof {
                assert forall|j: int| 0 <= j < n implies #[trigger] bit_of(bm@, j) == (j < i + 1 && flags@[j]) by {
                    assert(bit_of(bm@, j) == (j < i && flags@[j]));
                }
            }
        }
        i = i + 1;
    }
    bm
}

/// Reads bit `pattern_id` of the bitmap: the byte at `pattern_id / 8`,
/// masked with `1 << (pattern_id % 8)`.
pub fn check_for_pattern_match(bitmap: &[u8], pattern_id: usize) -> (r: bool)
    requires
        pattern_id / 8 < bitmap@.len(),
    ensures
        r == bit_of(bitmap@, pattern_id as int),
{
    let byte = bitmap[pattern_id / 8];
    let shift = (pattern_id % 8) as u8;
    (byte >> shift) & 1 == 1
}

} // verus!
