use p3_field::PrimeField32;
use vstd::prelude::*;

use crate::field::P;

verus! {

/// Inverts every element of `values` with `p3_field::batch_multiplicative_inverse`
/// over BabyBear (Montgomery's trick), going through the canonical `u32`
/// representatives. The crate's function computes the multiplicative inverse
/// of each input; it panics on a zero input, which `requires` rules out.
#[verifier::external_body]
fn batch_inverse_nonzero(values: &Vec<u32>) -> (r: Vec<u32>)
    requires
        forall|i: int| 0 <= i < values.len() ==> 0 < #[trigger] values[i] < P,
    ensures
        r.len() == values.len(),
        forall|i: int|
            0 <= i < values.len() ==> #[trigger] r[i] < P && (values[i] * r[i]) % (P as int) == 1,
{
    let xs: Vec<p3_baby_bear::BabyBear> = values.iter().map(|&v| p3_baby_bear::BabyBear::new(v)).collect();
    p3_field::batch_multiplicative_inverse(&xs).iter().map(|x| x.as_canonical_u32()).collect()
}

/// Calculates and returns the multiplicative inverses of each field element,
/// with zero values remaining unchanged.
pub fn batch_multiplicative_inverse_allowing_zero(values: Vec<u32>) -> (r: Vec<u32>)
    requires
        forall|i: int| 0 <= i < values.len() ==> #[trigger] values[i] < P,
    ensures
        r.len() == values.len(),
        forall|i: int| 0 <= i < values.len() && values[i] == 0 ==> #[trigger] r[i] == 0,
        forall|i: int|
            0 <= i < values.len() && values[i] != 0 ==> #[trigger] r[i] < P && (values[i]
                * r[i]) % (P as int) == 1,
{
    // Collect the nonzero values and where they came from.
    let mut nonzero_values: Vec<u32> = Vec::new();
    let mut indices: Vec<usize> = Vec::new();
    let mut i: usize = 0;
    while i < values.len()
        invariant
            i <= values.len(),
            nonzero_values.len() == indices.len(),
            forall|k: int| 0 <= k < values.len() ==> #[trigger] values[k] < P,
            forall|k: int|
                0 <= k < indices.len() ==> #[trigger] indices[k] < i && values[indices[k] as int]
                    == nonzero_values[k] && nonzero_values[k] != 0 && nonzero_values[k] < P,
            forall|k: int, l: int| 0 <= k < l < indices.len() ==> indices[k] < indices[l],
            forall|k: int| 0 <= k < nonzero_values.len() ==> 0 < #[trigger] nonzero_values[k] < P,
            forall|j: int|
                0 <= j < i && values[j] != 0 ==> exists|k: int|
                    0 <= k < indices.len() && #[trigger] indices[k] == j,
        decreases values.len() - i,
    {
        let ghost old_indices = indices@;
        if values[i] != 0 {
            nonzero_values.push(values[i]);
            indices.push(i);
            assert(indices[indices.len() - 1] == i);
        }
        assert forall|j: int| 0 <= j <= i && values[j] != 0 implies exists|k: int|
            0 <= k < indices.len() && #[trigger] indices[k] == j by {
            if j < i {
                let k = choose|k: int| 0 <= k < old_indices.len() && #[trigger] old_indices[k] == j;
                assert(indices[k] == j);
            } else {
                assert(indices[indices.len() - 1] == j);
            }
        }
        i = i + 1;
    }
    let inverse_nonzero_values = batch_inverse_nonzero(&nonzero_values);

    // Put each inverse back in the place of its value.
    let mut result = values.clone();
    let mut k: usize = 0;
    while k < indices.len()
        invariant
            k <= indices.len(),
            result.len() == values.len(),
            nonzero_values.len() == indices.len(),
            inverse_nonzero_values.len() == indices.len(),
            forall|m: int|
                0 <= m < indices.len() ==> #[trigger] indices[m] < values.len() && values[indices[m] as int]
                    == nonzero_values[m],
            forall|m: int, l: int| 0 <= m < l < indices.len() ==> indices[m] < indices[l],
            forall|m: int|
                0 <= m < indices.len() ==> #[trigger] inverse_nonzero_values[m] < P && (
                nonzero_values[m] * inverse_nonzero_values[m]) % (P as int) == 1,
            forall|m: int|
                0 <= m < k ==> #[trigger] result[indices[m] as int] == inverse_nonzero_values[m],
            forall|j: int|
                0 <= j < values.len() && (forall|m: int| 0 <= m < k ==> #[trigger] indices[m] != j)
                    ==> result[j] == values[j],
        decreases indices.len() - k,
    {
        result.set(indices[k], inverse_nonzero_values[k]);
        k = k + 1;
    }
    assert forall|j: int| 0 <= j < values.len() && values[j] != 0 implies #[trigger] result[j] < P
        && (values[j] * result[j]) % (P as int) == 1 by {
        let m = choose|m: int| 0 <= m < indices.len() && #[trigger] indices[m] == j;
        assert(result[indices[m] as int] == inverse_nonzero_values[m]);
    }
    assert forall|j: int| 0 <= j < values.len() && values[j] == 0 implies #[trigger] result[j]
        == 0 by {
        assert forall|m: int| 0 <= m < indices.len() implies #[trigger] indices[m] != j by {
            assert(values[indices[m] as int] == nonzero_values[m]);
        }
    }
    result
}

} // verus!

verus! {

/// Powers of two: 1, 2, 4, ...
pub open spec fn is_power_of_two(x: nat) -> bool
    decreases x,
{
    if x == 1 {
        true
    } else if x < 2 || x % 2 != 0 {
        false
    } else {
        is_power_of_two(x / 2)
    }
}

/// The smallest power of two that is at least `n` (1 for `n == 0`).
pub open spec fn is_next_power_of_two(n: nat, r: nat) -> bool {
    &&& is_power_of_two(r)
    &&& n <= r
    &&& (r == 1 || r / 2 < n)
}

/// The smallest power of two greater than or equal to `n`; `n` must leave
/// room for the result in a `usize`.
pub fn next_power_of_two(n: usize) -> (r: usize)
    requires
        n <= usize::MAX / 2 + 1,
    ensures
        is_next_power_of_two(n as nat, r as nat),
{
    let mut r: usize = 1;
    while r < n
        invariant
            n <= usize::MAX / 2 + 1,
            1 <= r,
            is_power_of_two(r as nat),
            r == 1 || r / 2 < n,
        decreases usize::MAX - r,
    {
        assert(is_power_of_two((r * 2) as nat)) by {
            assert((r * 2) as nat / 2 == r);
        }
        r = r * 2;
    }
    r
}

} // verus!

verus! {

/// The little-endian value of eight bytes.
pub open spec fn le_u64(b: Seq<u8>) -> int {
    b[0] + 0x100 * b[1] + 0x1_0000 * b[2] + 0x100_0000 * b[3] + 0x1_0000_0000 * b[4]
        + 0x100_0000_0000 * b[5] + 0x1_0000_0000_0000 * b[6] + 0x100_0000_0000_0000 * b[7]
}

/// `u64::from_le_bytes` of the eight bytes of `b` starting at `start`.
pub fn u64_from_le_bytes(b: &[u8], start: usize) -> (r: u64)
    requires
        start + 8 <= b@.len(),
    ensures
        r == le_u64(b@.subrange(start as int, start + 8)),
{
    let b0 = b[start] as u64;
    let b1 = b[start + 1] as u64;
    let b2 = b[start + 2] as u64;
    let b3 = b[start + 3] as u64;
    let b4 = b[start + 4] as u64;
    let b5 = b[start + 5] as u64;
    let b6 = b[start + 6] as u64;
    let b7 = b[start + 7] as u64;
    let r = b0 | (b1 << 8u64) | (b2 << 16u64) | (b3 << 24u64) | (b4 << 32u64) | (b5 << 40u64) | (b6
        << 48u64) | (b7 << 56u64);
    assert(r == b0 + 0x100 * b1 + 0x1_0000 * b2 + 0x100_0000 * b3 + 0x1_0000_0000 * b4
        + 0x100_0000_0000 * b5 + 0x1_0000_0000_0000 * b6 + 0x100_0000_0000_0000 * b7) by (bit_vector)
        requires
            b0 < 256, b1 < 256, b2 < 256, b3 < 256, b4 < 256, b5 < 256, b6 < 256, b7 < 256,
            r == b0 | (b1 << 8u64) | (b2 << 16u64) | (b3 << 24u64) | (b4 << 32u64) | (b5 << 40u64) | (b6
                << 48u64) | (b7 << 56u64),
    ;
    r
}

/// Appends the values of an array.
pub(crate) fn push_array<const N: usize>(r: &mut Vec<u32>, a: &[u32; N])
    ensures
        final(r)@ == old(r)@ + a@,
{
    let ghost start = r@;
    for i in 0..N
        invariant
            r@ == start + a@.take(i as int),
    {
        r.push(a[i]);
        assert(r@ =~= start + a@.take(i + 1));
    }
    assert(a@.take(N as int) =~= a@);
}

} // verus!
