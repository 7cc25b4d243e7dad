use vstd::arithmetic::div_mod::{lemma_add_mod_noop, lemma_mul_mod_noop_right};
use vstd::arithmetic::power::pow;
use vstd::prelude::*;

use crate::field::{f_add, f_mul, power, P};

verus! {

/// A column of either the preprocessed trace or the main trace.
#[derive(Clone, Copy, PartialEq, Eq, Structural, Debug)]
pub enum PairCol {
    Preprocessed(usize),
    Main(usize),
}

/// A linear combination of preprocessed and main columns plus a constant,
/// with field coefficients.
pub struct VirtualPairCol {
    pub column_weights: Vec<(PairCol, u32)>,
    pub constant: u32,
}

/// The mathematical content of a [`VirtualPairCol`].
pub struct VpcSpec {
    pub weights: Seq<(PairCol, u32)>,
    pub constant: u32,
}

impl View for VirtualPairCol {
    type V = VpcSpec;

    open spec fn view(&self) -> VpcSpec {
        VpcSpec { weights: self.column_weights@, constant: self.constant }
    }
}

/// Whether a message is sent to a bus or received from it.
#[derive(Clone, Copy, PartialEq, Eq, Structural, Debug)]
pub enum InteractionType {
    Send,
    Receive,
}

/// A message on the bus `argument_index`: the tuple `fields`, counted
/// `count` times.
pub struct Interaction {
    pub fields: Vec<VirtualPairCol>,
    pub count: VirtualPairCol,
    pub argument_index: usize,
}

/// The mathematical content of an [`Interaction`].
pub struct InteractionSpec {
    pub fields: Seq<VpcSpec>,
    pub count: VpcSpec,
    pub argument_index: usize,
}

impl View for Interaction {
    type V = InteractionSpec;

    open spec fn view(&self) -> InteractionSpec {
        InteractionSpec {
            fields: self.fields@.map_values(|v: VirtualPairCol| v@),
            count: self.count@,
            argument_index: self.argument_index,
        }
    }
}

/// The content of a list of interactions.
pub open spec fn interactions_view(s: Seq<Interaction>) -> Seq<InteractionSpec> {
    s.map_values(|i: Interaction| i@)
}

/// The value of one column in a row pair.
pub open spec fn pair_col_value(c: PairCol, preprocessed: Seq<u32>, main: Seq<u32>) -> int {
    match c {
        PairCol::Preprocessed(k) => preprocessed[k as int] as int,
        PairCol::Main(k) => main[k as int] as int,
    }
}

/// Whether a column lies inside rows of the given widths.
pub open spec fn pair_col_in_bounds(c: PairCol, preprocessed_len: nat, main_len: nat) -> bool {
    match c {
        PairCol::Preprocessed(k) => k < preprocessed_len,
        PairCol::Main(k) => k < main_len,
    }
}

/// `sum_k weight_k * column_k`, over the integers.
pub open spec fn weighted_sum(ws: Seq<(PairCol, u32)>, preprocessed: Seq<u32>, main: Seq<u32>) -> int
    decreases ws.len(),
{
    if ws.len() == 0 {
        0
    } else {
        weighted_sum(ws.drop_last(), preprocessed, main) + ws.last().1 * pair_col_value(
            ws.last().0,
            preprocessed,
            main,
        )
    }
}

/// The field value of a virtual column on a row pair.
pub open spec fn vpc_eval(v: VpcSpec, preprocessed: Seq<u32>, main: Seq<u32>) -> int {
    (v.constant + weighted_sum(v.weights, preprocessed, main)) % (P as int)
}

/// A virtual column whose coefficients are canonical and whose columns exist
/// in rows of the given widths.
pub open spec fn vpc_well_formed(v: VpcSpec, preprocessed_len: nat, main_len: nat) -> bool {
    &&& v.constant < P
    &&& forall|k: int|
        0 <= k < v.weights.len() ==> #[trigger] v.weights[k].1 < P && pair_col_in_bounds(
            v.weights[k].0,
            preprocessed_len,
            main_len,
        )
}

/// Every value of a row is canonical.
pub open spec fn row_canonical(row: Seq<u32>) -> bool {
    forall|k: int| 0 <= k < row.len() ==> #[trigger] row[k] < P
}

impl VirtualPairCol {
    /// The virtual column equal to main column `column`.
    pub fn single_main(column: usize) -> (r: VirtualPairCol)
        ensures
            r@.weights == seq![(PairCol::Main(column), 1u32)],
            r@.constant == 0,
    {
        let mut column_weights: Vec<(PairCol, u32)> = Vec::new();
        column_weights.push((PairCol::Main(column), 1u32));
        VirtualPairCol { column_weights, constant: 0 }
    }

    /// The virtual column equal to preprocessed column `column`.
    pub fn single_preprocessed(column: usize) -> (r: VirtualPairCol)
        ensures
            r@.weights == seq![(PairCol::Preprocessed(column), 1u32)],
            r@.constant == 0,
    {
        let mut column_weights: Vec<(PairCol, u32)> = Vec::new();
        column_weights.push((PairCol::Preprocessed(column), 1u32));
        VirtualPairCol { column_weights, constant: 0 }
    }

    /// The virtual column `constant + sum_k w_k * main[c_k]`.
    pub fn new_main(column_weights: Vec<(usize, u32)>, constant: u32) -> (r: VirtualPairCol)
        ensures
            r@.constant == constant,
            r@.weights.len() == column_weights.len(),
            forall|k: int|
                0 <= k < column_weights.len() ==> #[trigger] r@.weights[k] == (
                PairCol::Main(column_weights[k].0),
                column_weights[k].1,
            ),
    {
        let mut weights: Vec<(PairCol, u32)> = Vec::new();
        for i in 0..column_weights.len()
            invariant
                weights.len() == i,
                forall|k: int|
                    0 <= k < i ==> #[trigger] weights[k] == (
                    PairCol::Main(column_weights[k].0),
                    column_weights[k].1,
                ),
        {
            let (c, w) = column_weights[i];
            weights.push((PairCol::Main(c), w));
        }
        VirtualPairCol { column_weights: weights, constant }
    }

    /// The sum of the given main columns.
    pub fn sum_main(columns: Vec<usize>) -> (r: VirtualPairCol)
        ensures
            r@.constant == 0,
            r@.weights.len() == columns.len(),
            forall|k: int|
                0 <= k < columns.len() ==> #[trigger] r@.weights[k] == (
                PairCol::Main(columns[k]),
                1u32,
            ),
    {
        let mut weights: Vec<(PairCol, u32)> = Vec::new();
        for i in 0..columns.len()
            invariant
                weights.len() == i,
                forall|k: int|
                    0 <= k < i ==> #[trigger] weights[k] == (PairCol::Main(columns[k]), 1u32),
        {
            weights.push((PairCol::Main(columns[i]), 1u32));
        }
        VirtualPairCol { column_weights: weights, constant: 0 }
    }

    /// Evaluates the virtual column on a row pair.
    pub fn apply(&self, preprocessed: &[u32], main: &[u32]) -> (r: u32)
        requires
            vpc_well_formed(self@, preprocessed@.len(), main@.len()),
            row_canonical(preprocessed@),
            row_canonical(main@),
        ensures
            r < P,
            r == vpc_eval(self@, preprocessed@, main@),
    {
        let ghost ws = self.column_weights@;
        let mut acc = self.constant;
        proof {
            assert(ws.take(0) =~= Seq::<(PairCol, u32)>::empty());
            vstd::arithmetic::div_mod::lemma_small_mod(self.constant as nat, P as nat);
        }
        for i in 0..self.column_weights.len()
            invariant
                ws == self.column_weights@,
                vpc_well_formed(self@, preprocessed@.len(), main@.len()),
                row_canonical(preprocessed@),
                row_canonical(main@),
                acc < P,
                acc == (self.constant + weighted_sum(ws.take(i as int), preprocessed@, main@)) % (
                P as int),
        {
            let (col, w) = self.column_weights[i];
            assert(w < P && pair_col_in_bounds(col, preprocessed@.len(), main@.len())) by {
                assert(ws[i as int] == (col, w));
                assert(self@.weights[i as int].1 < P);
            }
            let v = match col {
                PairCol::Preprocessed(k) => preprocessed[k],
                PairCol::Main(k) => main[k],
            };
            let term = f_mul(w, v);
            let ghost old_acc = acc;
            acc = f_add(acc, term);
            proof {
                let prev = self.constant + weighted_sum(ws.take(i as int), preprocessed@, main@);
                assert(ws.take(i + 1).drop_last() =~= ws.take(i as int));
                assert(v == pair_col_value(col, preprocessed@, main@));
                assert(weighted_sum(ws.take(i + 1), preprocessed@, main@) == weighted_sum(
                    ws.take(i as int),
                    preprocessed@,
                    main@,
                ) + w * v);
                lemma_add_mod_noop(prev, w * v, P as int);
                vstd::arithmetic::div_mod::lemma_mod_twice(prev, P as int);
                vstd::arithmetic::div_mod::lemma_mod_twice(w * v, P as int);
            }
        }
        assert(ws.take(ws.len() as int) =~= ws);
        acc
    }
}

/// The little-endian packing `sum_k main[first + k] * 2^(bits * k)` of
/// `count` adjacent main columns.
pub open spec fn packed_main_spec(first: usize, count: nat, bits: nat) -> VpcSpec {
    VpcSpec {
        weights: Seq::new(
            count,
            |k: int| (PairCol::Main((first + k) as usize), power(2, (bits * k) as nat) as u32),
        ),
        constant: 0,
    }
}

/// The little-endian packing of `count` adjacent main columns holding
/// `bits`-bit limbs.
pub fn packed_main(first: usize, count: usize, bits: u32) -> (r: VirtualPairCol)
    requires
        first + count <= usize::MAX,
        count == 0 || bits * (count - 1) <= 31,
    ensures
        r@ == packed_main_spec(first, count as nat, bits as nat),
{
    let mut weights: Vec<(PairCol, u32)> = Vec::new();
    let mut weight: u32 = 1;
    let mut k: usize = 0;
    while k < count
        invariant
            k <= count,
            first + count <= usize::MAX,
            count == 0 || bits * (count - 1) <= 31,
            weights.len() == k,
            k < count ==> weight == power(2, (bits * k) as nat),
            forall|m: int|
                0 <= m < k ==> #[trigger] weights[m] == (
                PairCol::Main((first + m) as usize),
                power(2, (bits * m) as nat) as u32,
            ),
        decreases count - k,
    {
        weights.push((PairCol::Main(first + k), weight));
        if k + 1 < count {
            proof {
                assert(bits * (k + 1) <= bits * (count - 1)) by (nonlinear_arith)
                    requires k + 1 < count;
                assert(bits * k + bits == bits * (k + 1)) by (nonlinear_arith);
                lemma_power2_step(bits as nat, (bits * k) as nat);
                lemma_power2_shift((bits * (k + 1)) as nat);
            }
            weight = weight * (1u32 << bits);
        }
        k = k + 1;
    }
    let r = VirtualPairCol { column_weights: weights, constant: 0 };
    assert(r@.weights =~= packed_main_spec(first, count as nat, bits as nat).weights);
    r
}

/// `2^(e + b) = 2^e * (1 << b)` for small exponents.
proof fn lemma_power2_step(b: nat, e: nat)
    requires
        b <= 31,
        e + b <= 31,
    ensures
        power(2, e + b) == power(2, e) * ((1u32 << (b as u32)) as int),
{
    lemma_power2_shift(b);
    lemma_power_add(2, e, b);
}

/// `1 << b = 2^b` for `b < 32`.
pub proof fn lemma_power2_shift(b: nat)
    requires
        b <= 31,
    ensures
        (1u32 << (b as u32)) as int == power(2, b),
    decreases b,
{
    if b == 0 {
        assert((1u32 << 0u32) == 1) by (bit_vector);
    } else {
        lemma_power2_shift((b - 1) as nat);
        let bb = b as u32;
        assert((1u32 << bb) == 2 * (1u32 << ((bb - 1) as u32))) by (bit_vector)
            requires 1 <= bb <= 31;
    }
}

/// `x^(e + b) = x^e * x^b`.
pub proof fn lemma_power_add(x: int, e: nat, b: nat)
    ensures
        power(x, e + b) == power(x, e) * power(x, b),
    decreases b,
{
    if b > 0 {
        lemma_power_add(x, e, (b - 1) as nat);
        assert(power(x, e + b) == x * power(x, (e + b - 1) as nat));
        assert(power(x, b) == x * power(x, (b - 1) as nat));
        assert(x * (power(x, e) * power(x, (b - 1) as nat)) == power(x, e) * (x * power(
            x,
            (b - 1) as nat,
        ))) by (nonlinear_arith);
    }
}

/// One step of a weighted sum: the last term added to the sum of the others.
pub proof fn lemma_weighted_sum_last(ws: Seq<(PairCol, u32)>, main: Seq<u32>, k: usize, weight: int, rest: int)
    requires
        ws.len() > 0,
        ws.last() == (PairCol::Main(k), weight as u32),
        0 <= weight <= u32::MAX,
        k < main.len(),
        weighted_sum(ws.drop_last(), seq![], main) == rest,
    ensures
        weighted_sum(ws, seq![], main) == rest + weight * main[k as int],
        weight == 1 ==> weighted_sum(ws, seq![], main) == rest + main[k as int],
{
    assert(pair_col_value(ws.last().0, seq![], main) == main[k as int]);
    assert(ws.last().1 as int == weight);
    let m = main[k as int] as int;
    assert(weight == 1 ==> weight * m == m) by (nonlinear_arith);
}

/// Two adjacent `bits`-bit limbs packed little-endian evaluate to
/// `low + 2^bits * high`.
pub proof fn lemma_packed2_eval(first: usize, bits: nat, values: Seq<u32>)
    requires
        first + 1 < values.len(),
        first + 2 <= usize::MAX,
        1 <= bits <= 16,
    ensures
        vpc_eval(packed_main_spec(first, 2, bits), seq![], values) == (values[first as int] + power(2, bits)
            * values[first + 1]) % (P as int),
{
    let w = packed_main_spec(first, 2, bits).weights;
    lemma_power2_shift(bits);
    assert(power(2, 0) == 1);
    assert(bits * 1 == bits);
    assert(w[0] == (PairCol::Main(first), 1u32));
    assert(w[1] == (PairCol::Main((first + 1) as usize), power(2, bits) as u32));
    assert(w.drop_last().drop_last() =~= Seq::<(PairCol, u32)>::empty());
    let v0 = values[first as int] as int;
    let v1 = values[first + 1] as int;
    assert(w.drop_last().last() == w[0]);
    lemma_weighted_sum_last(w.drop_last(), values, first, 1, 0);
    assert(w.last() == w[1]);
    lemma_weighted_sum_last(w, values, (first + 1) as usize, power(2, bits), v0);
}

/// Four adjacent bytes packed little-endian evaluate to the word they form.
pub proof fn lemma_packed4_eval(first: usize, values: Seq<u32>)
    requires
        first + 3 < values.len(),
        first + 4 <= usize::MAX,
    ensures
        vpc_eval(packed_main_spec(first, 4, 8), seq![], values) == (values[first as int] + 256 * values[first + 1]
            + 65536 * values[first + 2] + 16777216 * values[first + 3]) % (P as int),
{
    let w = packed_main_spec(first, 4, 8).weights;
    lemma_power2_shift(8);
    lemma_power2_shift(16);
    lemma_power2_shift(24);
    assert((1u32 << 8u32) == 256 && (1u32 << 16u32) == 65536 && (1u32 << 24u32) == 16777216) by (bit_vector);
    assert(power(2, 0) == 1);
    assert(w[0] == (PairCol::Main(first), 1u32));
    assert(w[1] == (PairCol::Main((first + 1) as usize), 256u32));
    assert(w[2] == (PairCol::Main((first + 2) as usize), 65536u32));
    assert(w[3] == (PairCol::Main((first + 3) as usize), 16777216u32));
    let w1 = w.drop_last().drop_last().drop_last();
    let w2 = w.drop_last().drop_last();
    let w3 = w.drop_last();
    assert(w1.drop_last() =~= Seq::<(PairCol, u32)>::empty());
    let v0 = values[first as int] as int;
    let v1 = values[first + 1] as int;
    let v2 = values[first + 2] as int;
    let v3 = values[first + 3] as int;
    assert(w1.last() == w[0]);
    lemma_weighted_sum_last(w1, values, first, 1, 0);
    assert(w2.last() == w[1] && w2.drop_last() == w1);
    lemma_weighted_sum_last(w2, values, (first + 1) as usize, 256, v0);
    assert(w3.last() == w[2] && w3.drop_last() == w2);
    lemma_weighted_sum_last(w3, values, (first + 2) as usize, 65536, v0 + 256 * v1);
    assert(w.last() == w[3]);
    lemma_weighted_sum_last(w, values, (first + 3) as usize, 16777216, v0 + 256 * v1 + 65536 * v2);
}

} // verus!
