use p3_field::PrimeField32;
use vstd::prelude::*;

use crate::chip::power_of_two_at_least;
use crate::field::P;
use crate::interaction::{interactions_view, vpc_eval, Interaction, InteractionSpec, VirtualPairCol};
use crate::memory::{lemma_single_main_eval, single_main_spec};
use crate::permutation_air::PermutationAir;

verus! {

/// The number of 64-bit lanes of a 32-byte digest.
pub const NUM_U64_HASH_ELEMS: usize = 4;
/// The number of 16-bit limbs of a lane.
pub const U64_LIMBS: usize = 4;
/// The number of rounds of Keccak-f, one trace row each.
pub const NUM_ROUNDS: usize = 24;
/// The number of columns of the Keccak-f AIR of `p3_keccak_air`.
pub const NUM_KECCAK_COLS: usize = 2633;
/// The first column of the input state, lane `(y, x)` limb `l` at
/// `25 + 20 * y + 4 * x + l`.
pub const KECCAK_PREIMAGE: usize = 25;
/// The first column of the state after chi, lane `(y, x)` limb `l` at
/// `2465 + 20 * y + 4 * x + l`; lane `(0, 0)` is then xored with the round
/// constant into the four columns from [`KECCAK_A_PRIME_PRIME_PRIME_0_0_LIMBS`].
pub const KECCAK_A_PRIME_PRIME: usize = 2465;
/// The limbs of lane `(0, 0)` of the round's output state.
pub const KECCAK_A_PRIME_PRIME_PRIME_0_0_LIMBS: usize = 2629;
/// The flag of a row whose input state is received from the input bus.
pub const KECCAK_IS_REAL_INPUT: usize = 2633;
/// The flag of a row whose output state is sent to the output bus.
pub const KECCAK_IS_REAL_OUTPUT: usize = 2634;
/// The flag of a row whose output digest is sent to the digest bus.
pub const KECCAK_IS_REAL_DIGEST: usize = 2635;
/// The number of columns of the permutation chip: the AIR's columns and the
/// three flags.
pub const NUM_KECCAK_PERMUTE_COLS: usize = 2636;

/// The Keccak-f permutation chip. Each input is a 25-lane state and whether
/// the first four lanes of its output are a digest (a Merkle compression)
/// rather than a sponge state.
#[derive(Clone, Debug)]
pub struct KeccakPermuteChip {
    pub inputs: Vec<([u64; 25], bool)>,
    pub bus_keccak_permute_input: usize,
    pub bus_keccak_permute_output: usize,
    pub bus_keccak_permute_digest_output: usize,
}

/// The column of the `k`-th output limb, lanes in the order `5 * y + x`.
pub open spec fn keccak_output_col(k: int) -> usize {
    if k < 4 {
        (KECCAK_A_PRIME_PRIME_PRIME_0_0_LIMBS + k) as usize
    } else {
        (KECCAK_A_PRIME_PRIME + k) as usize
    }
}

/// The 100 limbs of the input state, received on the input bus on the first
/// round's row.
pub open spec fn keccak_permute_input(bus: usize) -> InteractionSpec {
    InteractionSpec {
        fields: Seq::new(100, |k: int| single_main_spec((KECCAK_PREIMAGE + k) as usize)),
        count: single_main_spec(KECCAK_IS_REAL_INPUT),
        argument_index: bus,
    }
}

/// The first `len` limbs of the output state, sent on `bus` on the last
/// round's row when the flag column `flag` is set.
pub open spec fn keccak_permute_output(len: nat, flag: usize, bus: usize) -> InteractionSpec {
    InteractionSpec {
        fields: Seq::new(len, |k: int| single_main_spec(keccak_output_col(k))),
        count: single_main_spec(flag),
        argument_index: bus,
    }
}

/// The interaction of the first `len` output limbs, counted by `flag`, built.
fn output_limbs(len: usize, flag: usize, bus: usize) -> (r: Interaction)
    requires
        len <= 100,
    ensures
        r@ == keccak_permute_output(len as nat, flag, bus),
{
    let mut fields: Vec<VirtualPairCol> = Vec::new();
    for k in 0..len
        invariant
            len <= 100,
            fields.len() == k,
            forall|m: int| 0 <= m < k ==> (#[trigger] fields[m])@ == single_main_spec(keccak_output_col(m)),
    {
        let column: usize = if k < 4 {
            KECCAK_A_PRIME_PRIME_PRIME_0_0_LIMBS + k
        } else {
            KECCAK_A_PRIME_PRIME + k
        };
        let v = VirtualPairCol::single_main(column);
        assert(v@ =~~= single_main_spec(keccak_output_col(k as int)));
        fields.push(v);
    }
    let count = VirtualPairCol::single_main(flag);
    assert(count@ =~~= single_main_spec(flag));
    let r = Interaction { fields, count, argument_index: bus };
    assert(r@.fields =~= keccak_permute_output(len as nat, flag, bus).fields);
    r
}

/// The interaction of the input limbs, built.
fn input_limbs(bus: usize) -> (r: Interaction)
    ensures
        r@ == keccak_permute_input(bus),
{
    let mut fields: Vec<VirtualPairCol> = Vec::new();
    for k in 0..100
        invariant
            fields.len() == k,
            forall|m: int|
                0 <= m < k ==> (#[trigger] fields[m])@ == single_main_spec((KECCAK_PREIMAGE + m) as usize),
    {
        let v = VirtualPairCol::single_main(KECCAK_PREIMAGE + k);
        assert(v@ =~~= single_main_spec((KECCAK_PREIMAGE + k) as usize));
        fields.push(v);
    }
    let count = VirtualPairCol::single_main(KECCAK_IS_REAL_INPUT);
    assert(count@ =~~= single_main_spec(KECCAK_IS_REAL_INPUT));
    let r = Interaction { fields, count, argument_index: bus };
    assert(r@.fields =~= keccak_permute_input(bus).fields);
    r
}

impl PermutationAir for KeccakPermuteChip {
    /// The whole output state goes to the output bus, and its first four
    /// lanes to the digest bus.
    open spec fn spec_sends(&self) -> Seq<InteractionSpec> {
        seq![
            keccak_permute_output(100, KECCAK_IS_REAL_OUTPUT, self.bus_keccak_permute_output),
            keccak_permute_output(16, KECCAK_IS_REAL_DIGEST, self.bus_keccak_permute_digest_output),
        ]
    }

    /// The input state comes from the input bus.
    open spec fn spec_receives(&self) -> Seq<InteractionSpec> {
        seq![keccak_permute_input(self.bus_keccak_permute_input)]
    }

    fn sends(&self) -> (r: Vec<Interaction>) {
        let mut r: Vec<Interaction> = Vec::new();
        r.push(output_limbs(100, KECCAK_IS_REAL_OUTPUT, self.bus_keccak_permute_output));
        r.push(output_limbs(16, KECCAK_IS_REAL_DIGEST, self.bus_keccak_permute_digest_output));
        assert(interactions_view(r@) =~= self.spec_sends());
        r
    }

    fn receives(&self) -> (r: Vec<Interaction>) {
        let mut r: Vec<Interaction> = Vec::new();
        r.push(input_limbs(self.bus_keccak_permute_input));
        assert(interactions_view(r@) =~= self.spec_receives());
        r
    }
}

/// The rows of a trace, each by its values.
pub open spec fn rows_view(rows: Seq<Vec<u32>>) -> Seq<Seq<u32>> {
    rows.map_values(|row: Vec<u32>| row@)
}

/// The trace that `p3_keccak_air::generate_trace_rows` gives over BabyBear
/// for these states, each value by its canonical representative.
pub uninterp spec fn keccak_air_rows(inputs: Seq<[u64; 25]>) -> Seq<Seq<u32>>;

/// `p3_keccak_air::generate_trace_rows` over BabyBear, no extra capacity:
/// the Keccak-f AIR trace of the states, 24 rows per state, then the rows of
/// the all-zero state up to the next power of two of `24 * inputs.len()`
/// (one row when there is no state), each row of the AIR's 2633 columns.
/// The values are read back by `as_canonical_u32`, so each is below `P`.
/// What the rows hold is named, not stated. The bound on the number of
/// states keeps the row count, `24 * inputs.len()` rounded up to a power of
/// two, far from overflow; whether the trace fits in memory is the
/// machine's matter.
#[verifier::external_body]
fn keccak_air_trace(inputs: Vec<[u64; 25]>) -> (r: Vec<Vec<u32>>)
    requires
        inputs.len() <= 0x100_0000,
    ensures
        rows_view(r@) == keccak_air_rows(inputs@),
        r.len() == power_of_two_at_least((NUM_ROUNDS * inputs.len()) as nat, 1),
        forall|i: int| 0 <= i < r.len() ==> (#[trigger] r[i]).len() == NUM_KECCAK_COLS,
        forall|i: int, j: int| 0 <= i < r.len() && 0 <= j < r[i].len() ==> #[trigger] r[i][j] < P,
{
    let m = p3_keccak_air::generate_trace_rows::<p3_baby_bear::BabyBear>(inputs, 0);
    m.values.chunks(m.width).map(|row| row.iter().map(|v| v.as_canonical_u32()).collect()).collect()
}

/// The three flags of row `r`: the first round's row of a state takes its
/// input, the last round's row gives its output, to the digest bus when the
/// state is a compression and to the output bus otherwise; padding rows have
/// none.
pub open spec fn keccak_flags(inputs: Seq<([u64; 25], bool)>, r: int) -> Seq<u32> {
    if r < NUM_ROUNDS * inputs.len() {
        let step: int = r % (NUM_ROUNDS as int);
        let digest = inputs[r / (NUM_ROUNDS as int)].1;
        seq![
            if step == 0 { 1u32 } else { 0u32 },
            if step == NUM_ROUNDS - 1 && !digest { 1u32 } else { 0u32 },
            if step == NUM_ROUNDS - 1 && digest { 1u32 } else { 0u32 },
        ]
    } else {
        seq![0u32, 0u32, 0u32]
    }
}

impl KeccakPermuteChip {
    /// The number of columns of the chip's trace.
    pub fn width(&self) -> (r: usize)
        ensures
            r == NUM_KECCAK_PERMUTE_COLS,
    {
        NUM_KECCAK_PERMUTE_COLS
    }

    /// The trace of the chip: the Keccak-f AIR trace of the input states,
    /// each row followed by its three flags.
    pub fn generate_trace(&self) -> (rows: Vec<Vec<u32>>)
        requires
            self.inputs.len() <= 0x100_0000,
        ensures
            rows.len() == keccak_air_rows(self.inputs@.map_values(|i: ([u64; 25], bool)| i.0)).len(),
            rows.len() == power_of_two_at_least((NUM_ROUNDS * self.inputs.len()) as nat, 1),
            forall|r: int|
                0 <= r < rows.len() ==> (#[trigger] rows[r])@ == keccak_air_rows(
                    self.inputs@.map_values(|i: ([u64; 25], bool)| i.0),
                )[r] + keccak_flags(self.inputs@, r),
            forall|r: int|
                0 <= r < rows.len() ==> {
                    &&& (#[trigger] rows[r]).len() == NUM_KECCAK_PERMUTE_COLS
                    &&& rows[r][KECCAK_IS_REAL_INPUT as int] == if r < NUM_ROUNDS * self.inputs.len() && r
                        % (NUM_ROUNDS as int) == 0 {
                        1u32
                    } else {
                        0u32
                    }
                    &&& rows[r][KECCAK_IS_REAL_OUTPUT as int] == if r < NUM_ROUNDS * self.inputs.len() && r
                        % (NUM_ROUNDS as int) == NUM_ROUNDS - 1 && !self.inputs[r / (NUM_ROUNDS as int)].1 {
                        1u32
                    } else {
                        0u32
                    }
                    &&& rows[r][KECCAK_IS_REAL_DIGEST as int] == if r < NUM_ROUNDS * self.inputs.len() && r
                        % (NUM_ROUNDS as int) == NUM_ROUNDS - 1 && self.inputs[r / (NUM_ROUNDS as int)].1 {
                        1u32
                    } else {
                        0u32
                    }
                },
    {
        let mut states: Vec<[u64; 25]> = Vec::new();
        for k in 0..self.inputs.len()
            invariant
                states@ == self.inputs@.take(k as int).map_values(|i: ([u64; 25], bool)| i.0),
        {
            states.push(self.inputs[k].0);
            assert(states@ =~= self.inputs@.take(k + 1).map_values(|i: ([u64; 25], bool)| i.0));
        }
        assert(self.inputs@.take(self.inputs.len() as int) =~= self.inputs@);
        let ghost base_rows = keccak_air_rows(states@);
        let base = keccak_air_trace(states);
        let n: usize = self.inputs.len();
        let mut rows: Vec<Vec<u32>> = Vec::new();
        for r in 0..base.len()
            invariant
                n == self.inputs.len(),
                n <= 0x100_0000,
                rows_view(base@) == base_rows,
                base.len() == base_rows.len(),
                rows.len() == r,
                forall|m: int| 0 <= m < r ==> (#[trigger] rows[m])@ == base_rows[m] + keccak_flags(self.inputs@, m),
                forall|m: int| 0 <= m < base.len() ==> (#[trigger] base[m]).len() == NUM_KECCAK_COLS,
                forall|m: int| 0 <= m < r ==> (#[trigger] rows[m]).len() == NUM_KECCAK_PERMUTE_COLS,
        {
            let mut row = base[r].clone();
            let ghost before = row@;
            assert(before == base_rows[r as int]);
            if r < NUM_ROUNDS * n {
                let k: usize = r / NUM_ROUNDS;
                let step: usize = r % NUM_ROUNDS;
                let digest = self.inputs[k].1;
                row.push(if step == 0 { 1 } else { 0 });
                row.push(if step == NUM_ROUNDS - 1 && !digest { 1 } else { 0 });
                row.push(if step == NUM_ROUNDS - 1 && digest { 1 } else { 0 });
            } else {
                row.push(0);
                row.push(0);
                row.push(0);
            }
            assert(row@ =~= before + keccak_flags(self.inputs@, r as int));
            rows.push(row);
        }
        rows
    }
}

/// The permutation chip's bus messages on a row of its trace: the input
/// state's 100 limbs are received counted by the input flag; the output
/// state's 100 limbs (lane `(0, 0)` after the round constant, then the other
/// lanes after chi) are sent counted by the output flag, and its first 16
/// limbs counted by the digest flag.
pub proof fn keccak_permute_row_messages(chip: KeccakPermuteChip, row: Seq<u32>)
    requires
        row.len() == NUM_KECCAK_PERMUTE_COLS,
    ensures
        ({
            let received = chip.spec_receives();
            let sent = chip.spec_sends();
            &&& received.len() == 1 && sent.len() == 2
            &&& received[0].argument_index == chip.bus_keccak_permute_input
            &&& sent[0].argument_index == chip.bus_keccak_permute_output
            &&& sent[1].argument_index == chip.bus_keccak_permute_digest_output
            &&& received[0].fields.len() == 100 && sent[0].fields.len() == 100 && sent[1].fields.len() == 16
            &&& vpc_eval(received[0].count, seq![], row) == (row[2633] as int) % (P as int)
            &&& vpc_eval(sent[0].count, seq![], row) == (row[2634] as int) % (P as int)
            &&& vpc_eval(sent[1].count, seq![], row) == (row[2635] as int) % (P as int)
            &&& forall|k: int|
                0 <= k < 100 ==> vpc_eval(#[trigger] received[0].fields[k], seq![], row) == (row[25 + k] as int) % (
                P as int)
            &&& forall|k: int|
                0 <= k < 100 ==> vpc_eval(#[trigger] sent[0].fields[k], seq![], row) == (row[if k < 4 {
                    2629 + k
                } else {
                    2465 + k
                }] as int) % (P as int)
            &&& forall|k: int| 0 <= k < 16 ==> #[trigger] sent[1].fields[k] == sent[0].fields[k]
        }),
{
    let received = chip.spec_receives();
    let sent = chip.spec_sends();
    lemma_single_main_eval(2633, row);
    lemma_single_main_eval(2634, row);
    lemma_single_main_eval(2635, row);
    assert forall|k: int| 0 <= k < 100 implies vpc_eval(#[trigger] received[0].fields[k], seq![], row) == (row[25
        + k] as int) % (P as int) by {
        lemma_single_main_eval((25 + k) as usize, row);
    }
    assert forall|k: int| 0 <= k < 100 implies vpc_eval(#[trigger] sent[0].fields[k], seq![], row) == (row[if k
        < 4 {
        2629 + k
    } else {
        2465 + k
    }] as int) % (P as int) by {
        lemma_single_main_eval(keccak_output_col(k), row);
    }
}

} // verus!
