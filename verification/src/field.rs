use vstd::prelude::*;

verus! {

/// The BabyBear prime `2^31 - 2^27 + 1`, the field all traces live in.
pub const P: u32 = 0x7800_0001;

/// `b^e` over the integers.
pub open spec fn power(b: int, e: nat) -> int
    decreases e,
{
    if e == 0 {
        1
    } else {
        b * power(b, (e - 1) as nat)
    }
}

/// Field addition on canonical representatives.
pub fn f_add(a: u32, b: u32) -> (r: u32)
    requires
        a < P,
        b < P,
    ensures
        r < P,
        r == (a + b) % (P as int),
{
    let s: u64 = a as u64 + b as u64;
    if s >= P as u64 {
        (s - P as u64) as u32
    } else {
        s as u32
    }
}

/// Field subtraction on canonical representatives.
pub fn f_sub(a: u32, b: u32) -> (r: u32)
    requires
        a < P,
        b < P,
    ensures
        r < P,
        r == (a - b) % (P as int),
{
    if a >= b {
        a - b
    } else {
        P - (b - a)
    }
}

/// Field multiplication on canonical representatives.
pub fn f_mul(a: u32, b: u32) -> (r: u32)
    requires
        a < P,
        b < P,
    ensures
        r < P,
        r == (a * b) % (P as int),
{
    assert((a as u64) * (b as u64) < 0x4000_0000_0000_0000) by (nonlinear_arith)
        requires a < 0x8000_0000u32, b < 0x8000_0000u32;
    let prod: u64 = a as u64 * b as u64;
    (prod % P as u64) as u32
}

} // verus!

verus! {

/// The first `len` powers `r^offset, r^(offset+1), ...` of a field element.
pub fn powers(r: u32, offset: u32, len: usize) -> (out: Vec<u32>)
    requires
        r < P,
        offset <= 1,
    ensures
        out.len() == len,
        forall|k: int| 0 <= k < len ==> #[trigger] out[k] == power(r as int, (k + offset) as nat) % (P as int),
{
    let mut out: Vec<u32> = Vec::new();
    let mut cur: u32 = if offset == 0 { 1 } else { r };
    proof {
        vstd::arithmetic::div_mod::lemma_small_mod(r as nat, P as nat);
        vstd::arithmetic::div_mod::lemma_small_mod(1, P as nat);
        assert(power(r as int, 1) == r * power(r as int, 0));
    }
    let mut k: usize = 0;
    while k < len
        invariant
            k <= len,
            r < P,
            out.len() == k,
            cur < P,
            cur == power(r as int, (k + offset) as nat) % (P as int),
            forall|m: int| 0 <= m < k ==> #[trigger] out[m] == power(r as int, (m + offset) as nat) % (P as int),
        decreases len - k,
    {
        out.push(cur);
        cur = f_mul(cur, r);
        proof {
            let e = power(r as int, (k + offset) as nat);
            assert(power(r as int, (k + 1 + offset) as nat) == r * e);
            vstd::arithmetic::div_mod::lemma_mul_mod_noop(e, r as int, P as int);
            vstd::arithmetic::div_mod::lemma_small_mod(r as nat, P as nat);
            assert(e * r == r * e) by (nonlinear_arith);
        }
        k = k + 1;
    }
    out
}

} // verus!

verus! {

/// `x` is zero in the field.
pub open spec fn fz(x: int) -> bool {
    x % (P as int) == 0
}

/// Products of congruent factors are congruent.
pub proof fn lemma_fz_congruent2(x: int, x2: int, y: int, y2: int)
    requires
        x % (P as int) == x2 % (P as int),
        y % (P as int) == y2 % (P as int),
    ensures
        fz(x * y) == fz(x2 * y2),
{
    vstd::arithmetic::div_mod::lemma_mul_mod_noop(x, y, P as int);
    vstd::arithmetic::div_mod::lemma_mul_mod_noop(x2, y2, P as int);
}

/// Products of congruent factors are congruent.
pub proof fn lemma_fz_congruent3(x: int, x2: int, y: int, y2: int, z: int, z2: int)
    requires
        x % (P as int) == x2 % (P as int),
        y % (P as int) == y2 % (P as int),
        z % (P as int) == z2 % (P as int),
    ensures
        fz(x * y * z) == fz(x2 * y2 * z2),
{
    vstd::arithmetic::div_mod::lemma_mul_mod_noop(x, y, P as int);
    vstd::arithmetic::div_mod::lemma_mul_mod_noop(x2, y2, P as int);
    vstd::arithmetic::div_mod::lemma_mul_mod_noop(x * y, z, P as int);
    vstd::arithmetic::div_mod::lemma_mul_mod_noop(x2 * y2, z2, P as int);
}

/// A canonical value is its own residue.
pub proof fn lemma_canonical_mod(x: u32)
    requires
        x < P,
    ensures
        (x as int) % (P as int) == x as int,
{
    vstd::arithmetic::div_mod::lemma_small_mod(x as nat, P as nat);
}

/// Whether `a * b` is zero in the field.
pub fn is_zero2(a: u32, b: u32) -> (r: bool)
    requires
        a < P,
        b < P,
    ensures
        r == fz(a * b),
{
    let m = f_mul(a, b);
    proof {
        vstd::arithmetic::div_mod::lemma_small_mod(m as nat, P as nat);
    }
    m == 0
}

/// Whether `a * b * c` is zero in the field.
pub fn is_zero3(a: u32, b: u32, c: u32) -> (r: bool)
    requires
        a < P,
        b < P,
        c < P,
    ensures
        r == fz(a * b * c),
{
    let ab = f_mul(a, b);
    let m = f_mul(ab, c);
    proof {
        vstd::arithmetic::div_mod::lemma_mul_mod_noop_left(a * b, c as int, P as int);
        vstd::arithmetic::div_mod::lemma_small_mod(m as nat, P as nat);
    }
    m == 0
}

/// Sums and differences of congruent values are congruent.
pub proof fn lemma_congruent_add_sub(a: int, b: int, c: int, d: int)
    requires
        a % (P as int) == b % (P as int),
        c % (P as int) == d % (P as int),
    ensures
        (a + c) % (P as int) == (b + d) % (P as int),
        (a - c) % (P as int) == (b - d) % (P as int),
{
    vstd::arithmetic::div_mod::lemma_add_mod_noop(a, c, P as int);
    vstd::arithmetic::div_mod::lemma_add_mod_noop(b, d, P as int);
    vstd::arithmetic::div_mod::lemma_sub_mod_noop(a, c, P as int);
    vstd::arithmetic::div_mod::lemma_sub_mod_noop(b, d, P as int);
}

/// A value reduced modulo `P` is congruent to it.
pub proof fn lemma_mod_congruent(x: int)
    ensures
        (x % (P as int)) % (P as int) == x % (P as int),
{
    vstd::arithmetic::div_mod::lemma_mod_twice(x, P as int);
}

} // verus!
