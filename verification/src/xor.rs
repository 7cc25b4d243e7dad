use vstd::prelude::*;

use crate::field::P;
use crate::interaction::{
    interactions_view, lemma_packed4_eval, packed_main, packed_main_spec, vpc_eval, Interaction, InteractionSpec,
    VirtualPairCol,
};
use crate::memory::{lemma_single_main_eval, single_main_spec};
use crate::permutation_air::PermutationAir;
use crate::util::{is_next_power_of_two, next_power_of_two, push_array};

verus! {

/// The xor chip: xors two 4-byte words, byte by byte, through their bits.
#[derive(Clone, Debug)]
pub struct XorChip {
    pub bus_xor_input: usize,
    pub bus_xor_output: usize,
}

/// One row of the xor trace.
#[derive(Debug)]
pub struct XorCols<T> {
    pub is_real: T,
    pub input1: [T; 4],
    pub input2: [T; 4],
    /// Bit decomposition of the bytes of `input1`, least significant first.
    pub bits1: [[T; 8]; 4],
    /// Bit decomposition of the bytes of `input2`, least significant first.
    pub bits2: [[T; 8]; 4],
    /// The bytes of `input1 ^ input2`.
    pub output: [T; 4],
}

/// The number of columns of the xor trace.
pub const NUM_XOR_COLS: usize = 77;

/// Bit `j` of a byte, as a field value.
pub open spec fn bit_of(x: u8, j: int) -> u32 {
    ((x >> (j as u8)) & 1) as u32
}

/// Byte `k` of `row` holds the bytes `x` and `y`, their bits and their xor.
pub open spec fn xor_byte_of(row: XorCols<u32>, k: int, x: u8, y: u8) -> bool {
    &&& row.input1[k] == x as u32
    &&& row.input2[k] == y as u32
    &&& row.output[k] == (x ^ y) as u32
    &&& forall|j: int| 0 <= j < 8 ==> #[trigger] row.bits1[k][j] == bit_of(x, j)
    &&& forall|j: int| 0 <= j < 8 ==> #[trigger] row.bits2[k][j] == bit_of(y, j)
}

/// `row` is the trace row of the operation `(a, b)`.
pub open spec fn xor_row_of(row: XorCols<u32>, a: [u8; 4], b: [u8; 4]) -> bool {
    &&& row.is_real == 1
    &&& forall|i: int| 0 <= i < 4 ==> #[trigger] xor_byte_of(row, i, a[i], b[i])
}

/// `row` is all zeros.
pub open spec fn xor_row_zero(row: XorCols<u32>) -> bool {
    &&& row.is_real == 0
    &&& forall|i: int|
        0 <= i < 4 ==> {
            &&& #[trigger] row.input1[i] == 0
            &&& row.input2[i] == 0
            &&& row.output[i] == 0
            &&& forall|j: int| 0 <= j < 8 ==> #[trigger] row.bits1[i][j] == 0
            &&& forall|j: int| 0 <= j < 8 ==> #[trigger] row.bits2[i][j] == 0
        }
}

/// The bits of a byte recompose it, and xoring bytes xors their bits, which
/// is the arithmetic `b1 + b2 - 2 * b1 * b2` on each bit.
pub proof fn xor_bits_law(a: u8, b: u8)
    ensures
        forall|j: int| 0 <= j < 8 ==> #[trigger] bit_of(a, j) <= 1,
        a == bit_of(a, 0) + 2 * bit_of(a, 1) + 4 * bit_of(a, 2) + 8 * bit_of(a, 3) + 16 * bit_of(a, 4)
            + 32 * bit_of(a, 5) + 64 * bit_of(a, 6) + 128 * bit_of(a, 7),
        forall|j: int|
            0 <= j < 8 ==> #[trigger] bit_of(a ^ b, j) == bit_of(a, j) + bit_of(b, j) - 2 * bit_of(
                a,
                j,
            ) * bit_of(b, j),
{
    assert(((a >> 0u8) & 1) + 2 * ((a >> 1u8) & 1) + 4 * ((a >> 2u8) & 1) + 8 * ((a >> 3u8) & 1)
        + 16 * ((a >> 4u8) & 1) + 32 * ((a >> 5u8) & 1) + 64 * ((a >> 6u8) & 1) + 128 * ((a >> 7u8)
        & 1) == a) by (bit_vector);
    assert forall|j: int| 0 <= j < 8 implies #[trigger] bit_of(a, j) <= 1 by {
        let jj = j as u8;
        assert((a >> jj) & 1 <= 1) by (bit_vector);
    }
    assert forall|j: int| 0 <= j < 8 implies #[trigger] bit_of(a ^ b, j) == bit_of(a, j) + bit_of(
        b,
        j,
    ) - 2 * bit_of(a, j) * bit_of(b, j) by {
        let jj = j as u8;
        assert((((a ^ b) >> jj) & 1) as int == ((a >> jj) & 1) as int + ((b >> jj) & 1) as int - 2
            * ((a >> jj) & 1) as int * ((b >> jj) & 1) as int) by (bit_vector)
            requires jj < 8u8;
    }
}

/// The trace row of one operation.
fn xor_row(a: [u8; 4], b: [u8; 4]) -> (row: XorCols<u32>)
    ensures
        xor_row_of(row, a, b),
{
    let mut row = XorCols {
        is_real: 1u32,
        input1: [0u32; 4],
        input2: [0u32; 4],
        bits1: [[0u32; 8]; 4],
        bits2: [[0u32; 8]; 4],
        output: [0u32; 4],
    };
    for i in 0..4
        invariant
            row.is_real == 1,
            forall|k: int| 0 <= k < i ==> #[trigger] xor_byte_of(row, k, a[k], b[k]),
    {
        let x = a[i];
        let y = b[i];
        let mut bits1 = [0u32; 8];
        let mut bits2 = [0u32; 8];
        for j in 0..8
            invariant
                forall|m: int| 0 <= m < j ==> #[trigger] bits1[m] == bit_of(x, m),
                forall|m: int| 0 <= m < j ==> #[trigger] bits2[m] == bit_of(y, m),
        {
            bits1[j] = (x >> (j as u8) & 1) as u32;
            bits2[j] = (y >> (j as u8) & 1) as u32;
        }
        let ghost old_row = row;
        row.input1[i] = x as u32;
        row.input2[i] = y as u32;
        row.output[i] = (x ^ y) as u32;
        row.bits1[i] = bits1;
        row.bits2[i] = bits2;
        assert forall|k: int| 0 <= k < i + 1 implies #[trigger] xor_byte_of(row, k, a[k], b[k]) by {
            if k < i {
                assert(xor_byte_of(old_row, k, a[k], b[k]));
                assert(row.bits1[k] == old_row.bits1[k]);
                assert(row.bits2[k] == old_row.bits2[k]);
            } else {
                assert(row.bits1[k] == bits1);
                assert(row.bits2[k] == bits2);
            }
        }
    }
    row
}

/// The bits of the four bytes of a word, byte by byte.
pub open spec fn flat_bits(bits: [[u32; 8]; 4]) -> Seq<u32> {
    Seq::new(32, |k: int| bits[k / 8][k % 8])
}

/// The values of a row, each field at its column.
pub open spec fn xor_row_values(row: XorCols<u32>) -> Seq<u32> {
    seq![row.is_real] + row.input1@ + row.input2@ + flat_bits(row.bits1) + flat_bits(row.bits2) + row.output@
}

impl XorCols<u32> {
    /// The row as a slice of values, each field at its column.
    pub fn to_row(&self) -> (r: Vec<u32>)
        ensures
            r@ == xor_row_values(*self),
    {
        let mut r: Vec<u32> = Vec::new();
        r.push(self.is_real);
        push_array(&mut r, &self.input1);
        push_array(&mut r, &self.input2);
        for i in 0..4
            invariant
                r@ == seq![self.is_real] + self.input1@ + self.input2@ + flat_bits(self.bits1).take(8 * i),
        {
            push_array(&mut r, &self.bits1[i]);
            assert(flat_bits(self.bits1).take(8 * i + 8) =~= flat_bits(self.bits1).take(8 * i) + self.bits1[i as int]@);
        }
        assert(flat_bits(self.bits1).take(32) =~= flat_bits(self.bits1));
        for i in 0..4
            invariant
                r@ == seq![self.is_real] + self.input1@ + self.input2@ + flat_bits(self.bits1) + flat_bits(
                    self.bits2,
                ).take(8 * i),
        {
            push_array(&mut r, &self.bits2[i]);
            assert(flat_bits(self.bits2).take(8 * i + 8) =~= flat_bits(self.bits2).take(8 * i) + self.bits2[i as int]@);
        }
        assert(flat_bits(self.bits2).take(32) =~= flat_bits(self.bits2));
        push_array(&mut r, &self.output);
        r
    }
}

impl XorChip {
    /// The width of the xor trace.
    pub fn width(&self) -> (r: usize)
        ensures
            r == NUM_XOR_COLS,
    {
        NUM_XOR_COLS
    }

    /// The xor trace: one row per operation, then zero rows up to the next
    /// power of two.
    pub fn generate_trace(operations: Vec<([u8; 4], [u8; 4])>) -> (rows: Vec<XorCols<u32>>)
        requires
            operations.len() <= usize::MAX / 2 + 1,
        ensures
            is_next_power_of_two(operations.len() as nat, rows.len() as nat),
            forall|i: int|
                0 <= i < operations.len() ==> xor_row_of(#[trigger] rows[i], operations[i].0, operations[i].1),
            forall|i: int| operations.len() <= i < rows.len() ==> xor_row_zero(#[trigger] rows[i]),
    {
        let num_real_rows = operations.len();
        let num_rows = next_power_of_two(num_real_rows);
        let mut rows: Vec<XorCols<u32>> = Vec::new();
        let mut i: usize = 0;
        while i < num_rows
            invariant
                i <= num_rows,
                num_real_rows == operations.len(),
                rows.len() == i,
                forall|k: int|
                    0 <= k < i && k < num_real_rows ==> xor_row_of(#[trigger] rows[k], operations[k].0, operations[k].1),
                forall|k: int| num_real_rows <= k < i ==> xor_row_zero(#[trigger] rows[k]),
            decreases num_rows - i,
        {
            if i < num_real_rows {
                let (a, b) = operations[i];
                rows.push(xor_row(a, b));
            } else {
                let zero = XorCols {
                    is_real: 0u32,
                    input1: [0u32; 4],
                    input2: [0u32; 4],
                    bits1: [[0u32; 8]; 4],
                    bits2: [[0u32; 8]; 4],
                    output: [0u32; 4],
                };
                assert(xor_row_zero(zero));
                rows.push(zero);
            }
            i = i + 1;
        }
        rows
    }
}

/// The column of `is_real`, then the first columns of `input1`, `input2`
/// and `output`.
pub const XOR_IS_REAL: usize = 0;
pub const XOR_INPUT1: usize = 1;
pub const XOR_INPUT2: usize = 5;
pub const XOR_OUTPUT: usize = 73;

/// The word pair `(input1, input2)`, each packed from its bytes.
pub open spec fn xor_input_message(bus: usize) -> InteractionSpec {
    InteractionSpec {
        fields: seq![packed_main_spec(1, 4, 8), packed_main_spec(5, 4, 8)],
        count: single_main_spec(0),
        argument_index: bus,
    }
}

/// The output word, packed from its bytes.
pub open spec fn xor_output_message(bus: usize) -> InteractionSpec {
    InteractionSpec {
        fields: seq![packed_main_spec(73, 4, 8)],
        count: single_main_spec(0),
        argument_index: bus,
    }
}

impl PermutationAir for XorChip {
    /// Each real row sends its output word to the xor output bus.
    open spec fn spec_sends(&self) -> Seq<InteractionSpec> {
        seq![xor_output_message(self.bus_xor_output)]
    }

    /// Each real row receives its two input words from the xor input bus.
    open spec fn spec_receives(&self) -> Seq<InteractionSpec> {
        seq![xor_input_message(self.bus_xor_input)]
    }

    fn sends(&self) -> (r: Vec<Interaction>) {
        let mut fields: Vec<VirtualPairCol> = Vec::new();
        fields.push(packed_main(XOR_OUTPUT, 4, 8));
        let count = VirtualPairCol::single_main(XOR_IS_REAL);
        let i = Interaction { fields, count, argument_index: self.bus_xor_output };
        assert(i@.fields =~= xor_output_message(self.bus_xor_output).fields);
        assert(i@.count =~= single_main_spec(0));
        let mut r: Vec<Interaction> = Vec::new();
        r.push(i);
        assert(interactions_view(r@) =~= self.spec_sends());
        r
    }

    fn receives(&self) -> (r: Vec<Interaction>) {
        let mut fields: Vec<VirtualPairCol> = Vec::new();
        fields.push(packed_main(XOR_INPUT1, 4, 8));
        fields.push(packed_main(XOR_INPUT2, 4, 8));
        let count = VirtualPairCol::single_main(XOR_IS_REAL);
        let i = Interaction { fields, count, argument_index: self.bus_xor_input };
        assert(i@.fields =~= xor_input_message(self.bus_xor_input).fields);
        assert(i@.count =~= single_main_spec(0));
        let mut r: Vec<Interaction> = Vec::new();
        r.push(i);
        assert(interactions_view(r@) =~= self.spec_receives());
        r
    }
}

/// The little-endian word of four bytes.
pub open spec fn word_of(b: [u8; 4]) -> int {
    b[0] + 256 * b[1] + 65536 * b[2] + 16777216 * b[3]
}

/// On the row of the operation `(a, b)`, the xor chip receives the words of
/// `a` and `b` and sends the word of their bytewise xor, each once.
pub proof fn xor_row_messages(chip: XorChip, row: XorCols<u32>, a: [u8; 4], b: [u8; 4])
    requires
        xor_row_of(row, a, b),
    ensures
        ({
            let values = xor_row_values(row);
            let received = chip.spec_receives();
            let sent = chip.spec_sends();
            let c: [u8; 4] = [a[0] ^ b[0], a[1] ^ b[1], a[2] ^ b[2], a[3] ^ b[3]];
            &&& received.len() == 1 && sent.len() == 1
            &&& received[0].argument_index == chip.bus_xor_input
            &&& sent[0].argument_index == chip.bus_xor_output
            &&& received[0].fields.len() == 2 && sent[0].fields.len() == 1
            &&& vpc_eval(received[0].count, seq![], values) == 1
            &&& vpc_eval(sent[0].count, seq![], values) == 1
            &&& vpc_eval(received[0].fields[0], seq![], values) == word_of(a) % (P as int)
            &&& vpc_eval(received[0].fields[1], seq![], values) == word_of(b) % (P as int)
            &&& vpc_eval(sent[0].fields[0], seq![], values) == word_of(c) % (P as int)
        }),
{
    let values = xor_row_values(row);
    assert(values.len() == 77);
    lemma_single_main_eval(0, values);
    assert(values[0] == 1);
    lemma_packed4_eval(1, values);
    lemma_packed4_eval(5, values);
    lemma_packed4_eval(73, values);
    assert(xor_byte_of(row, 0, a[0], b[0]));
    assert(xor_byte_of(row, 1, a[1], b[1]));
    assert(xor_byte_of(row, 2, a[2], b[2]));
    assert(xor_byte_of(row, 3, a[3], b[3]));
    assert(values[1] == a[0] && values[2] == a[1] && values[3] == a[2] && values[4] == a[3]);
    assert(values[5] == b[0] && values[6] == b[1] && values[7] == b[2] && values[8] == b[3]);
    assert(values[73] == (a[0] ^ b[0]) && values[74] == (a[1] ^ b[1]) && values[75] == (a[2] ^ b[2])
        && values[76] == (a[3] ^ b[3]));
}

} // verus!
