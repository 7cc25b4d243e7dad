use p3_field::{BasedVectorSpace, PrimeField32};
use vstd::prelude::*;

use crate::field::{f_add, f_mul, f_sub, P};
use vstd::arithmetic::div_mod::{lemma_add_mod_noop, lemma_small_mod, lemma_sub_mod_noop};

verus! {

/// The quartic extension of BabyBear, `F[X] / (X^4 - 11)`: an element is
/// held by its four coefficients, those of `1, X, X^2, X^3`, each a
/// canonical field element. Its challenges and its permutation traces live
/// here.
pub open spec fn ext_canonical(a: Seq<u32>) -> bool {
    a.len() == 4 && forall|c: int| 0 <= c < 4 ==> #[trigger] a[c] < P
}

/// Zero.
pub open spec fn ext_zero() -> Seq<u32> {
    seq![0u32, 0u32, 0u32, 0u32]
}

/// One.
pub open spec fn ext_one() -> Seq<u32> {
    seq![1u32, 0u32, 0u32, 0u32]
}

/// The product of two elements, `X^4` reducing to 11.
pub open spec fn ext_mul(a: Seq<u32>, b: Seq<u32>) -> Seq<u32> {
    seq![
        ((a[0] * b[0] + 11 * (a[1] * b[3] + a[2] * b[2] + a[3] * b[1])) % (P as int)) as u32,
        ((a[0] * b[1] + a[1] * b[0] + 11 * (a[2] * b[3] + a[3] * b[2])) % (P as int)) as u32,
        ((a[0] * b[2] + a[1] * b[1] + a[2] * b[0] + 11 * (a[3] * b[3])) % (P as int)) as u32,
        ((a[0] * b[3] + a[1] * b[2] + a[2] * b[1] + a[3] * b[0]) % (P as int)) as u32,
    ]
}

/// `a` to the power `e`.
pub open spec fn ext_pow(a: Seq<u32>, e: nat) -> Seq<u32>
    decreases e,
{
    if e == 0 {
        ext_one()
    } else {
        ext_mul(ext_pow(a, (e - 1) as nat), a)
    }
}

/// A power is canonical.
pub proof fn lemma_ext_pow_canonical(a: Seq<u32>, e: nat)
    ensures
        ext_canonical(ext_pow(a, e)),
    decreases e,
{
    if e > 0 {
        lemma_ext_pow_canonical(a, (e - 1) as nat);
    }
}

/// The product of two elements.
pub fn e_mul(a: [u32; 4], b: [u32; 4]) -> (r: [u32; 4])
    requires
        ext_canonical(a@),
        ext_canonical(b@),
    ensures
        r@ == ext_mul(a@, b@),
{
    let a0: u128 = a[0] as u128;
    let a1: u128 = a[1] as u128;
    let a2: u128 = a[2] as u128;
    let a3: u128 = a[3] as u128;
    let b0: u128 = b[0] as u128;
    let b1: u128 = b[1] as u128;
    let b2: u128 = b[2] as u128;
    let b3: u128 = b[3] as u128;
    assert(forall|x: u128, y: u128| x < 0x8000_0000 && y < 0x8000_0000 ==> #[trigger] (x * y) < 0x4000_0000_0000_0000)
        by (nonlinear_arith);
    let c0: u128 = a0 * b0 + 11 * (a1 * b3 + a2 * b2 + a3 * b1);
    let c1: u128 = a0 * b1 + a1 * b0 + 11 * (a2 * b3 + a3 * b2);
    let c2: u128 = a0 * b2 + a1 * b1 + a2 * b0 + 11 * (a3 * b3);
    let c3: u128 = a0 * b3 + a1 * b2 + a2 * b1 + a3 * b0;
    let p: u128 = P as u128;
    let r = [(c0 % p) as u32, (c1 % p) as u32, (c2 % p) as u32, (c3 % p) as u32];
    assert(r@ =~= ext_mul(a@, b@));
    r
}

/// The product of an element and a base-field element: each coefficient
/// scaled.
pub open spec fn ext_scale(a: Seq<u32>, s: int) -> Seq<u32> {
    Seq::new(4, |c: int| ((a[c] * s) % (P as int)) as u32)
}

/// The inverse that `p3_field`'s batch inversion gives an element of the
/// extension.
pub uninterp spec fn ext_inverse(a: Seq<u32>) -> Seq<u32>;

/// Inverts every element of `values` with `p3_field::batch_multiplicative_inverse`
/// over `BinomialExtensionField<BabyBear, 4>` (Montgomery's trick), going
/// through the coefficients. The crate's function computes the
/// multiplicative inverse of each input; it panics on a zero input, which
/// `requires` rules out. Which element it gives is named, and that element
/// times its input is one.
#[verifier::external_body]
fn batch_inverse_ext_nonzero(values: &Vec<[u32; 4]>) -> (r: Vec<[u32; 4]>)
    requires
        forall|i: int| 0 <= i < values.len() ==> ext_canonical((#[trigger] values[i])@) && values[i]@ != ext_zero(),
    ensures
        r.len() == values.len(),
        forall|i: int|
            0 <= i < values.len() ==> (#[trigger] r[i])@ == ext_inverse(values[i]@) && ext_canonical(r[i]@)
                && ext_mul(values[i]@, r[i]@) == ext_one(),
{
    let xs: Vec<p3_field::extension::BinomialExtensionField<p3_baby_bear::BabyBear, 4>> =
        values.iter().map(|v| p3_field::extension::BinomialExtensionField::new(v.map(p3_baby_bear::BabyBear::new))).collect();
    p3_field::batch_multiplicative_inverse(&xs)
        .iter()
        .map(|x| core::array::from_fn(|c| BasedVectorSpace::<p3_baby_bear::BabyBear>::as_basis_coefficients_slice(x)[c].as_canonical_u32()))
        .collect()
}

/// `y` is the inverse of `x`, or zero when `x` is zero.
pub open spec fn is_ext_inverse_or_zero(x: Seq<u32>, y: Seq<u32>) -> bool {
    if x == ext_zero() {
        y == ext_zero()
    } else {
        ext_canonical(y) && y == ext_inverse(x) && ext_mul(x, y) == ext_one()
    }
}

fn is_zero_ext(a: [u32; 4]) -> (r: bool)
    ensures
        r == (a@ == ext_zero()),
{
    let r = a[0] == 0 && a[1] == 0 && a[2] == 0 && a[3] == 0;
    assert(r ==> a@ =~= ext_zero());
    r
}

/// The inverses of the elements of the extension, zero staying zero.
pub fn batch_multiplicative_inverse_ext_allowing_zero(values: Vec<[u32; 4]>) -> (r: Vec<[u32; 4]>)
    requires
        forall|i: int| 0 <= i < values.len() ==> ext_canonical((#[trigger] values[i])@),
    ensures
        r.len() == values.len(),
        forall|i: int| 0 <= i < values.len() ==> is_ext_inverse_or_zero(values[i]@, (#[trigger] r[i])@),
{
    let mut nonzero_values: Vec<[u32; 4]> = Vec::new();
    let mut indices: Vec<usize> = Vec::new();
    let mut i: usize = 0;
    while i < values.len()
        invariant
            i <= values.len(),
            nonzero_values.len() == indices.len(),
            forall|k: int| 0 <= k < values.len() ==> ext_canonical((#[trigger] values[k])@),
            forall|k: int|
                0 <= k < indices.len() ==> #[trigger] indices[k] < i && values[indices[k] as int]
                    == nonzero_values[k],
            forall|k: int, l: int| 0 <= k < l < indices.len() ==> indices[k] < indices[l],
            forall|k: int|
                0 <= k < nonzero_values.len() ==> ext_canonical((#[trigger] nonzero_values[k])@)
                    && nonzero_values[k]@ != ext_zero(),
            forall|j: int|
                0 <= j < i && values[j]@ != ext_zero() ==> exists|k: int|
                    0 <= k < indices.len() && #[trigger] indices[k] == j,
        decreases values.len() - i,
    {
        let ghost old_indices = indices@;
        if !is_zero_ext(values[i]) {
            nonzero_values.push(values[i]);
            indices.push(i);
            assert(indices[indices.len() - 1] == i);
        }
        assert forall|j: int| 0 <= j <= i && values[j]@ != ext_zero() implies exists|k: int|
            0 <= k < indices.len() && #[trigger] indices[k] == j by {
            if j < i {
                let k = choose|k: int| 0 <= k < old_indices.len() && #[trigger] old_indices[k] == j;
                assert(indices[k] == j);
            } else {
                assert(indices[indices.len() - 1] == j);
            }
        }
        i = i + 1;
    }
    let inverses = batch_inverse_ext_nonzero(&nonzero_values);
    let mut result: Vec<[u32; 4]> = Vec::new();
    let mut j: usize = 0;
    while j < values.len()
        invariant
            j <= values.len(),
            result.len() == j,
            forall|k: int| 0 <= k < j ==> #[trigger] result[k] == [0u32, 0u32, 0u32, 0u32],
        decreases values.len() - j,
    {
        result.push([0u32, 0u32, 0u32, 0u32]);
        j = j + 1;
    }
    let mut k: usize = 0;
    while k < indices.len()
        invariant
            k <= indices.len(),
            result.len() == values.len(),
            nonzero_values.len() == indices.len(),
            inverses.len() == indices.len(),
            forall|m: int|
                0 <= m < indices.len() ==> #[trigger] indices[m] < values.len() && values[indices[m] as int]
                    == nonzero_values[m],
            forall|m: int, l: int| 0 <= m < l < indices.len() ==> indices[m] < indices[l],
            forall|m: int|
                0 <= m < indices.len() ==> (#[trigger] inverses[m])@ == ext_inverse(nonzero_values[m]@)
                    && ext_canonical(inverses[m]@) && ext_mul(nonzero_values[m]@, inverses[m]@) == ext_one(),
            forall|m: int| 0 <= m < k ==> #[trigger] result[indices[m] as int] == inverses[m],
            forall|j: int|
                0 <= j < values.len() && (forall|m: int| 0 <= m < k ==> #[trigger] indices[m] != j)
                    ==> result[j] == [0u32, 0u32, 0u32, 0u32],
        decreases indices.len() - k,
    {
        result.set(indices[k], inverses[k]);
        k = k + 1;
    }
    assert forall|j: int| 0 <= j < values.len() implies is_ext_inverse_or_zero(values[j]@, (#[trigger] result[j])@) by {
        if values[j]@ != ext_zero() {
            let m = choose|m: int| 0 <= m < indices.len() && #[trigger] indices[m] == j;
            assert(result[indices[m] as int] == inverses[m]);
        } else {
            assert forall|m: int| 0 <= m < indices.len() implies #[trigger] indices[m] != j by {
                assert(values[indices[m] as int] == nonzero_values[m]);
            }
            assert(result[j]@ =~= ext_zero());
        }
    }
    result
}

/// Reducing a product before adding it to a canonical value changes nothing.
pub proof fn lemma_add_product_mod(a: u32, e: int, v: int)
    requires
        a < P,
    ensures
        (a + (e * v) % (P as int)) % (P as int) == (a + e * v) % (P as int),
        (a - (e * v) % (P as int)) % (P as int) == (a - e * v) % (P as int),
{
    lemma_add_mod_noop(a as int, e * v, P as int);
    lemma_sub_mod_noop(a as int, e * v, P as int);
    lemma_small_mod(a as nat, P as nat);
    vstd::arithmetic::div_mod::lemma_mod_twice(e * v, P as int);
}

/// `acc + e * v` or `acc - e * v`, `v` a base-field element, coefficient by
/// coefficient.
pub fn e_add_scaled(acc: [u32; 4], e: [u32; 4], v: u32, subtract: bool) -> (r: [u32; 4])
    requires
        ext_canonical(acc@),
        ext_canonical(e@),
        v < P,
    ensures
        ext_canonical(r@),
        forall|c: int|
            0 <= c < 4 ==> #[trigger] r[c] == (if subtract {
                acc[c] - e[c] * v
            } else {
                acc[c] + e[c] * v
            }) % (P as int),
{
    let mut r = acc;
    for c in 0..4
        invariant
            ext_canonical(acc@),
            ext_canonical(e@),
            v < P,
            forall|d: int| c <= d < 4 ==> #[trigger] r[d] == acc[d],
            forall|d: int|
                0 <= d < c ==> #[trigger] r[d] == (if subtract {
                    acc[d] - e[d] * v
                } else {
                    acc[d] + e[d] * v
                }) % (P as int),
            forall|d: int| 0 <= d < 4 ==> #[trigger] r[d] < P,
    {
        assert(acc@[c as int] < P && e@[c as int] < P);
        let t = f_mul(e[c], v);
        r[c] = if subtract { f_sub(acc[c], t) } else { f_add(acc[c], t) };
        proof {
            lemma_add_product_mod(acc[c as int], e[c as int] as int, v as int);
        }
    }
    r
}

/// The sum of two elements, coefficient by coefficient.
pub fn e_add(a: [u32; 4], b: [u32; 4]) -> (r: [u32; 4])
    requires
        ext_canonical(a@),
        ext_canonical(b@),
    ensures
        ext_canonical(r@),
        forall|c: int| 0 <= c < 4 ==> #[trigger] r[c] == (a[c] + b[c]) % (P as int),
{
    assert(a@[0] < P && a@[1] < P && a@[2] < P && a@[3] < P);
    assert(b@[0] < P && b@[1] < P && b@[2] < P && b@[3] < P);
    let r = [f_add(a[0], b[0]), f_add(a[1], b[1]), f_add(a[2], b[2]), f_add(a[3], b[3])];
    assert forall|c: int| 0 <= c < 4 implies #[trigger] r@[c] < P by {}
    r
}

/// The difference of two elements, coefficient by coefficient.
pub fn e_sub(a: [u32; 4], b: [u32; 4]) -> (r: [u32; 4])
    requires
        ext_canonical(a@),
        ext_canonical(b@),
    ensures
        ext_canonical(r@),
        forall|c: int| 0 <= c < 4 ==> #[trigger] r[c] == (a[c] - b[c]) % (P as int),
{
    assert(a@[0] < P && a@[1] < P && a@[2] < P && a@[3] < P);
    assert(b@[0] < P && b@[1] < P && b@[2] < P && b@[3] < P);
    let r = [f_sub(a[0], b[0]), f_sub(a[1], b[1]), f_sub(a[2], b[2]), f_sub(a[3], b[3])];
    assert forall|c: int| 0 <= c < 4 implies #[trigger] r@[c] < P by {}
    r
}

/// Whether an element is one.
pub fn is_one_ext(a: [u32; 4]) -> (r: bool)
    ensures
        r == (a@ == ext_one()),
{
    let r = a[0] == 1 && a[1] == 0 && a[2] == 0 && a[3] == 0;
    assert(r ==> a@ =~= ext_one());
    r
}

} // verus!
