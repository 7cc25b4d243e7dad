use vstd::prelude::*;

use crate::chip::{MachineChip, Rap};
use crate::field::{
    f_add, f_mul, f_sub, fz, is_zero2, is_zero3, lemma_canonical_mod, lemma_congruent_add_sub,
    lemma_fz_congruent2, lemma_fz_congruent3, lemma_mod_congruent, P,
};
use crate::interaction::{
    interactions_view, lemma_packed2_eval, lemma_packed4_eval, lemma_weighted_sum_last, packed_main, packed_main_spec,
    row_canonical, vpc_eval, weighted_sum, Interaction, InteractionSpec, PairCol, VirtualPairCol,
    VpcSpec,
};
use crate::memory::{lemma_single_main_eval, single_main_spec};
use crate::permutation_air::PermutationAir;
use crate::util::{is_next_power_of_two, next_power_of_two, push_array};

verus! {

/// Total number of sponge bytes: rate bytes plus capacity bytes.
pub const KECCAK_WIDTH_BYTES: usize = 200;
/// Total number of 16-bit limbs of the sponge.
pub const KECCAK_WIDTH_U16S: usize = 100;
/// Number of rate bytes.
pub const KECCAK_RATE_BYTES: usize = 136;
/// Number of 16-bit rate limbs.
pub const KECCAK_RATE_U16S: usize = 68;
/// Number of capacity bytes.
pub const KECCAK_CAPACITY_BYTES: usize = 64;
/// Number of 16-bit capacity limbs.
pub const KECCAK_CAPACITY_U16S: usize = 32;
/// Number of digest bytes, read off during squeezing.
pub const KECCAK_DIGEST_BYTES: usize = 32;
/// Number of 16-bit digest limbs.
pub const KECCAK_DIGEST_U16S: usize = 16;
/// Number of 16-bit limbs of the state outside the digest.
pub const KECCAK_WIDTH_MINUS_DIGEST_U16S: usize = 84;

/// One Keccak sponge hashing: the input bytes, read from memory at `addr`
/// onwards at `timestamp`.
#[derive(Clone, Debug)]
pub struct KeccakSpongeOp {
    pub timestamp: u32,
    pub addr: u32,
    pub input: Vec<u8>,
}

/// The Keccak sponge chip: absorbs inputs block by block.
#[derive(Clone, Debug)]
pub struct KeccakSpongeChip {
    pub inputs: Vec<KeccakSpongeOp>,
    pub bus_xor_input: usize,
    pub bus_keccak_permute_input: usize,
    pub bus_range_8: usize,
    pub bus_memory: usize,
    pub bus_xor_output: usize,
    pub bus_keccak_permute_output: usize,
}

/// One row of the sponge trace: the absorption of one block.
pub struct KeccakSpongeCols<T> {
    /// When the input is read from memory.
    pub timestamp: T,
    /// Where the input starts in memory.
    pub base_addr: T,
    /// 1 if every byte of the block is an input byte, none padding.
    pub is_full_input_block: T,
    /// The number of input bytes absorbed before this block.
    pub already_absorbed_bytes: T,
    /// 1 for the padding bytes of a final block: from the first padding byte
    /// to the end. The last entry is therefore 1 exactly on final blocks.
    pub is_padding_byte: [T; 136],
    /// The rate part of the sponge state before this block, as 16-bit limbs.
    pub original_rate_u16s: [T; 68],
    /// The capacity part of the sponge state before this block, as 16-bit
    /// limbs.
    pub original_capacity_u16s: [T; 32],
    /// The block: input bytes and/or padding bytes.
    pub block_bytes: [T; 136],
    /// The rate part after the block is xored in, before the permutation.
    pub xored_rate_u16s: [T; 68],
    /// The state after the permutation, as 16-bit limbs, without the digest
    /// limbs.
    pub partial_updated_state_u16s: [T; 84],
    /// The digest limbs of the state after the permutation, as bytes.
    pub updated_digest_state_bytes: [T; 32],
}

/// The number of columns of the sponge trace.
pub const NUM_KECCAK_SPONGE_COLS: usize = 560;

/// The Keccak-f[1600] permutation of a 25-lane state, as `tiny_keccak::keccakf`
/// computes it.
pub uninterp spec fn keccak_f(state: Seq<u64>) -> Seq<u64>;

/// Applies `tiny_keccak::keccakf` (Keccak-f[1600], 24 rounds) to the state.
/// The result is the permutation of the argument, and 25 lanes long since
/// the crate permutes the array in place.
#[verifier::external_body]
pub(crate) fn keccakf(state: [u64; 25]) -> (r: [u64; 25])
    ensures
        r@ == keccak_f(state@),
{
    let mut s = state;
    tiny_keccak::keccakf(&mut s);
    s
}

/// Lane `k` of a state held as 16-bit limbs, little-endian.
pub open spec fn lane_of(s: Seq<u16>, k: int) -> u64 {
    (s[4 * k] as u64) | ((s[4 * k + 1] as u64) << 16u64) | ((s[4 * k + 2] as u64) << 32u64) | ((s[4
        * k + 3] as u64) << 48u64)
}

/// The 25 lanes of a state held as 100 limbs.
pub open spec fn lanes_of(s: Seq<u16>) -> Seq<u64> {
    Seq::new(25, |k: int| lane_of(s, k))
}

/// Limb `i` of a state held as 25 lanes.
pub open spec fn limb_of(l: Seq<u64>, i: int) -> u16 {
    (l[i / 4] >> ((16 * (i % 4)) as u64)) as u16
}

/// Keccak-f on a state held as 100 limbs.
pub open spec fn permute_u16s(s: Seq<u16>) -> Seq<u16> {
    let l = keccak_f(lanes_of(s));
    Seq::new(100, |i: int| limb_of(l, i))
}

/// Keccak-f on a state held as 100 limbs.
pub fn keccakf_u16s(state: &[u16; 100]) -> (r: [u16; 100])
    ensures
        r@ == permute_u16s(state@),
{
    let mut lanes = [0u64; 25];
    for k in 0..25
        invariant
            forall|m: int| 0 <= m < k ==> #[trigger] lanes[m] == lane_of(state@, m),
    {
        let lane = (state[4 * k] as u64) | ((state[4 * k + 1] as u64) << 16u64) | ((state[4 * k + 2]
            as u64) << 32u64) | ((state[4 * k + 3] as u64) << 48u64);
        lanes[k] = lane;
    }
    assert(lanes@ =~= lanes_of(state@));
    let permuted = keccakf(lanes);
    let mut out = [0u16; 100];
    for i in 0..100
        invariant
            permuted@ == keccak_f(lanes_of(state@)),
            permuted@.len() == 25,
            forall|m: int| 0 <= m < i ==> #[trigger] out[m] == limb_of(permuted@, m),
    {
        out[i] = (permuted[i / 4] >> ((16 * (i % 4)) as u64)) as u16;
    }
    assert(out@ =~= permute_u16s(state@));
    out
}

/// Limb `i` of a block read as little-endian 16-bit limbs.
pub open spec fn block_u16(b: Seq<u8>, i: int) -> u16 {
    (b[2 * i] as u16) | ((b[2 * i + 1] as u16) << 8u16)
}

/// The state with the block xored into its rate part.
pub open spec fn xor_block(state: Seq<u16>, block: Seq<u8>) -> Seq<u16> {
    Seq::new(100, |i: int| if i < 68 { state[i] ^ block_u16(block, i) } else { state[i] })
}

/// The number of full input blocks: the final block holds what remains.
pub open spec fn num_full_blocks(input: Seq<u8>) -> nat {
    input.len() / 136
}

/// Full input block `k`.
pub open spec fn full_block(input: Seq<u8>, k: int) -> Seq<u8> {
    input.subrange(136 * k, 136 * k + 136)
}

/// The final block: the remaining input bytes padded by the pad10*1 rule,
/// both ones in the same byte when a single padding byte is left.
pub open spec fn final_block(input: Seq<u8>) -> Seq<u8> {
    let rest = input.len() % 136;
    let start = 136 * num_full_blocks(input);
    Seq::new(
        136,
        |j: int|
            if j < rest {
                input[start + j]
            } else if j == rest {
                if rest == 135 {
                    0x81u8
                } else {
                    1u8
                }
            } else if j == 135 {
                0x80u8
            } else {
                0u8
            },
    )
}

/// Block `k` of the input, for `k` up to the number of full blocks.
pub open spec fn sponge_block(input: Seq<u8>, k: int) -> Seq<u8> {
    if k < num_full_blocks(input) {
        full_block(input, k)
    } else {
        final_block(input)
    }
}

/// The all-zero sponge state.
pub open spec fn zero_state() -> Seq<u16> {
    Seq::new(100, |i: int| 0u16)
}

/// The sponge state before block `k` is absorbed.
pub open spec fn absorbed_state(input: Seq<u8>, k: nat) -> Seq<u16>
    decreases k,
{
    if k == 0 {
        zero_state()
    } else {
        permute_u16s(xor_block(absorbed_state(input, (k - 1) as nat), full_block(input, k - 1)))
    }
}

/// Byte `j` of the digest limbs of a state.
pub open spec fn digest_byte(p: Seq<u16>, j: int) -> u16 {
    (p[j / 2] >> ((8 * (j % 2)) as u16)) & 0xffu16
}

/// The fields that every row holds from its state and block: what was
/// absorbed before, the state before, the xored rate, and the permuted
/// state split into digest bytes and other limbs.
pub open spec fn common_fields_of(row: KeccakSpongeCols<u32>, already: int, st: Seq<u16>, b: Seq<u8>) -> bool {
    let x = xor_block(st, b);
    let p = permute_u16s(x);
    &&& row.already_absorbed_bytes == already
    &&& forall|i: int| 0 <= i < 68 ==> #[trigger] row.original_rate_u16s[i] == st[i]
    &&& forall|i: int| 0 <= i < 32 ==> #[trigger] row.original_capacity_u16s[i] == st[68 + i]
    &&& forall|i: int| 0 <= i < 68 ==> #[trigger] row.xored_rate_u16s[i] == x[i]
    &&& forall|i: int| 0 <= i < 84 ==> #[trigger] row.partial_updated_state_u16s[i] == p[16 + i]
    &&& forall|j: int| 0 <= j < 32 ==> #[trigger] row.updated_digest_state_bytes[j] == digest_byte(p, j)
}

/// `row` is row `k` of the absorption of `input`, read at `timestamp` from
/// `addr`.
pub open spec fn sponge_row_of(row: KeccakSpongeCols<u32>, timestamp: u32, addr: u32, input: Seq<u8>, k: int) -> bool {
    let full = num_full_blocks(input);
    let b = sponge_block(input, k);
    &&& row.timestamp == timestamp
    &&& row.base_addr == addr
    &&& row.is_full_input_block == if k < full { 1u32 } else { 0u32 }
    &&& forall|j: int|
        0 <= j < 136 ==> #[trigger] row.is_padding_byte[j] == if k == full && j >= input.len() % 136 {
            1u32
        } else {
            0u32
        }
    &&& forall|j: int| 0 <= j < 136 ==> #[trigger] row.block_bytes[j] == b[j]
    &&& common_fields_of(row, 136 * k, absorbed_state(input, k as nat), b)
}

/// A row of zeros.
fn zero_row() -> (row: KeccakSpongeCols<u32>)
    ensures
        row.timestamp == 0,
        row.base_addr == 0,
        row.is_full_input_block == 0,
        forall|j: int| 0 <= j < 136 ==> #[trigger] row.is_padding_byte[j] == 0,
        forall|j: int| 0 <= j < 136 ==> #[trigger] row.block_bytes[j] == 0,
{
    KeccakSpongeCols {
        timestamp: 0,
        base_addr: 0,
        is_full_input_block: 0,
        already_absorbed_bytes: 0,
        is_padding_byte: [0u32; 136],
        original_rate_u16s: [0u32; 68],
        original_capacity_u16s: [0u32; 32],
        block_bytes: [0u32; 136],
        xored_rate_u16s: [0u32; 68],
        partial_updated_state_u16s: [0u32; 84],
        updated_digest_state_bytes: [0u32; 32],
    }
}

/// Fills the fields common to full-input rows and final rows, and returns
/// the state after this absorption: the rate is xored with the block, then
/// the whole state is permuted.
fn generate_common_fields(
    row: &mut KeccakSpongeCols<u32>,
    already_absorbed_bytes: u32,
    sponge_state: &[u16; 100],
    block: &[u8; 136],
) -> (next: [u16; 100])
    ensures
        common_fields_of(*final(row), already_absorbed_bytes as int, sponge_state@, block@),
        next@ == permute_u16s(xor_block(sponge_state@, block@)),
        final(row).timestamp == old(row).timestamp,
        final(row).base_addr == old(row).base_addr,
        final(row).is_full_input_block == old(row).is_full_input_block,
        final(row).is_padding_byte == old(row).is_padding_byte,
        final(row).block_bytes == old(row).block_bytes,
{
    row.already_absorbed_bytes = already_absorbed_bytes;
    let mut state = *sponge_state;
    for i in 0..68
        invariant
            forall|m: int| 0 <= m < i ==> #[trigger] row.original_rate_u16s[m] == sponge_state@[m],
            forall|m: int| 0 <= m < i ==> #[trigger] state[m] == xor_block(sponge_state@, block@)[m],
            forall|m: int| i <= m < 100 ==> #[trigger] state[m] == sponge_state@[m],
            row.timestamp == old(row).timestamp,
            row.base_addr == old(row).base_addr,
            row.is_full_input_block == old(row).is_full_input_block,
            row.is_padding_byte == old(row).is_padding_byte,
            row.block_bytes == old(row).block_bytes,
            row.already_absorbed_bytes == already_absorbed_bytes,
    {
        row.original_rate_u16s[i] = sponge_state[i] as u32;
        let block_u16 = (block[2 * i] as u16) | ((block[2 * i + 1] as u16) << 8u16);
        state[i] = sponge_state[i] ^ block_u16;
    }
    for i in 0..32
        invariant
            forall|m: int| 0 <= m < 68 ==> #[trigger] row.original_rate_u16s[m] == sponge_state@[m],
            forall|m: int| 0 <= m < i ==> #[trigger] row.original_capacity_u16s[m] == sponge_state@[68 + m],
            row.timestamp == old(row).timestamp,
            row.base_addr == old(row).base_addr,
            row.is_full_input_block == old(row).is_full_input_block,
            row.is_padding_byte == old(row).is_padding_byte,
            row.block_bytes == old(row).block_bytes,
            row.already_absorbed_bytes == already_absorbed_bytes,
    {
        row.original_capacity_u16s[i] = sponge_state[68 + i] as u32;
    }
    assert(state@ =~= xor_block(sponge_state@, block@));
    for i in 0..68
        invariant
            state@ == xor_block(sponge_state@, block@),
            forall|m: int| 0 <= m < 68 ==> #[trigger] row.original_rate_u16s[m] == sponge_state@[m],
            forall|m: int| 0 <= m < 32 ==> #[trigger] row.original_capacity_u16s[m] == sponge_state@[68 + m],
            forall|m: int| 0 <= m < i ==> #[trigger] row.xored_rate_u16s[m] == state@[m],
            row.timestamp == old(row).timestamp,
            row.base_addr == old(row).base_addr,
            row.is_full_input_block == old(row).is_full_input_block,
            row.is_padding_byte == old(row).is_padding_byte,
            row.block_bytes == old(row).block_bytes,
            row.already_absorbed_bytes == already_absorbed_bytes,
    {
        row.xored_rate_u16s[i] = state[i] as u32;
    }
    let next = keccakf_u16s(&state);
    for i in 0..84
        invariant
            state@ == xor_block(sponge_state@, block@),
            next@ == permute_u16s(state@),
            forall|m: int| 0 <= m < 68 ==> #[trigger] row.original_rate_u16s[m] == sponge_state@[m],
            forall|m: int| 0 <= m < 32 ==> #[trigger] row.original_capacity_u16s[m] == sponge_state@[68 + m],
            forall|m: int| 0 <= m < 68 ==> #[trigger] row.xored_rate_u16s[m] == state@[m],
            forall|m: int| 0 <= m < i ==> #[trigger] row.partial_updated_state_u16s[m] == next@[16 + m],
            row.timestamp == old(row).timestamp,
            row.base_addr == old(row).base_addr,
            row.is_full_input_block == old(row).is_full_input_block,
            row.is_padding_byte == old(row).is_padding_byte,
            row.block_bytes == old(row).block_bytes,
            row.already_absorbed_bytes == already_absorbed_bytes,
    {
        row.partial_updated_state_u16s[i] = next[16 + i] as u32;
    }
    for l in 0..16
        invariant
            state@ == xor_block(sponge_state@, block@),
            next@ == permute_u16s(state@),
            forall|m: int| 0 <= m < 68 ==> #[trigger] row.original_rate_u16s[m] == sponge_state@[m],
            forall|m: int| 0 <= m < 32 ==> #[trigger] row.original_capacity_u16s[m] == sponge_state@[68 + m],
            forall|m: int| 0 <= m < 68 ==> #[trigger] row.xored_rate_u16s[m] == state@[m],
            forall|m: int| 0 <= m < 84 ==> #[trigger] row.partial_updated_state_u16s[m] == next@[16 + m],
            forall|j: int| 0 <= j < 2 * l ==> #[trigger] row.updated_digest_state_bytes[j] == digest_byte(next@, j),
            row.timestamp == old(row).timestamp,
            row.base_addr == old(row).base_addr,
            row.is_full_input_block == old(row).is_full_input_block,
            row.is_padding_byte == old(row).is_padding_byte,
            row.block_bytes == old(row).block_bytes,
            row.already_absorbed_bytes == already_absorbed_bytes,
    {
        let elt = next[l];
        row.updated_digest_state_bytes[2 * l] = (elt & 0xff) as u32;
        row.updated_digest_state_bytes[2 * l + 1] = ((elt >> 8u16) & 0xff) as u32;
        assert(elt >> 0u16 == elt) by (bit_vector);
        assert((2 * l as int) / 2 == l && (2 * l as int) % 2 == 0);
        assert((2 * l + 1) / 2 == l && (2 * l + 1) % 2 == 1);
        assert(digest_byte(next@, 2 * l as int) == elt & 0xff);
        assert(digest_byte(next@, 2 * l + 1) == (elt >> 8u16) & 0xff);
    }
    next
}

/// Fills a row whose bytes are all input bytes, and returns the state after
/// absorbing it.
fn generate_full_input_row(
    row: &mut KeccakSpongeCols<u32>,
    already_absorbed_bytes: u32,
    sponge_state: &[u16; 100],
    block: &[u8; 136],
) -> (next: [u16; 100])
    ensures
        final(row).is_full_input_block == 1,
        forall|j: int| 0 <= j < 136 ==> #[trigger] final(row).block_bytes[j] == block[j],
        common_fields_of(*final(row), already_absorbed_bytes as int, sponge_state@, block@),
        next@ == permute_u16s(xor_block(sponge_state@, block@)),
        final(row).timestamp == old(row).timestamp,
        final(row).base_addr == old(row).base_addr,
        final(row).is_padding_byte == old(row).is_padding_byte,
{
    row.is_full_input_block = 1;
    for j in 0..136
        invariant
            row.is_full_input_block == 1,
            forall|m: int| 0 <= m < j ==> #[trigger] row.block_bytes[m] == block[m],
            row.timestamp == old(row).timestamp,
            row.base_addr == old(row).base_addr,
            row.is_padding_byte == old(row).is_padding_byte,
    {
        row.block_bytes[j] = block[j] as u32;
    }
    generate_common_fields(row, already_absorbed_bytes, sponge_state, block)
}

/// Fills the row of the final block: the last `final_inputs` bytes of the
/// input, padded by the pad10*1 rule, with their padding flags.
fn generate_final_row(
    row: &mut KeccakSpongeCols<u32>,
    input: &Vec<u8>,
    already_absorbed_bytes: u32,
    sponge_state: &[u16; 100],
) -> (next: [u16; 100])
    requires
        already_absorbed_bytes == 136 * num_full_blocks(input@),
        forall|j: int| 0 <= j < 136 ==> #[trigger] old(row).is_padding_byte[j] == 0,
    ensures
        final(row).is_full_input_block == old(row).is_full_input_block,
        forall|j: int| 0 <= j < 136 ==> #[trigger] final(row).block_bytes[j] == final_block(input@)[j],
        forall|j: int|
            0 <= j < 136 ==> #[trigger] final(row).is_padding_byte[j] == if j >= input.len() % 136 {
                1u32
            } else {
                0u32
            },
        common_fields_of(*final(row), already_absorbed_bytes as int, sponge_state@, final_block(input@)),
        next@ == permute_u16s(xor_block(sponge_state@, final_block(input@))),
        final(row).timestamp == old(row).timestamp,
        final(row).base_addr == old(row).base_addr,
{
    let start = already_absorbed_bytes as usize;
    let rest = input.len() - start;
    assert(rest == input.len() % 136);
    let mut block = [0u8; 136];
    for j in 0..rest
        invariant
            start + rest == input.len(),
            rest < 136,
            forall|m: int| 0 <= m < j ==> #[trigger] block[m] == input[start + m],
            forall|m: int| j <= m < 136 ==> #[trigger] block[m] == 0,
    {
        block[j] = input[start + j];
    }
    // pad10*1 rule
    if rest == 135 {
        // Both ones are placed in the same byte.
        block[rest] = 0x81;
    } else {
        block[rest] = 1;
        block[135] = 0x80;
    }
    assert(block@ =~= final_block(input@));
    for j in 0..136
        invariant
            forall|m: int| 0 <= m < j ==> #[trigger] row.block_bytes[m] == block[m],
            forall|m: int| 0 <= m < j ==> #[trigger] row.is_padding_byte[m] == if m >= rest { 1u32 } else { 0u32 },
            forall|m: int| j <= m < 136 ==> #[trigger] row.is_padding_byte[m] == 0,
            row.is_full_input_block == old(row).is_full_input_block,
            row.timestamp == old(row).timestamp,
            row.base_addr == old(row).base_addr,
    {
        row.block_bytes[j] = block[j] as u32;
        if j >= rest {
            row.is_padding_byte[j] = 1;
        }
    }
    generate_common_fields(row, already_absorbed_bytes, sponge_state, &block)
}

/// The rows of one sponge operation: one per full input block, then the
/// final block.
fn generate_rows_for_input(op: &KeccakSpongeOp) -> (rows: Vec<KeccakSpongeCols<u32>>)
    requires
        op.input.len() < 0x1_0000_0000,
    ensures
        rows.len() == num_full_blocks(op.input@) + 1,
        forall|k: int|
            0 <= k < rows.len() ==> sponge_row_of(#[trigger] rows[k], op.timestamp, op.addr, op.input@, k),
{
    let input = &op.input;
    let full = input.len() / 136;
    let mut sponge_state = [0u16; 100];
    assert(sponge_state@ =~= zero_state());
    let mut rows: Vec<KeccakSpongeCols<u32>> = Vec::new();
    let mut k: usize = 0;
    while k < full
        invariant
            k <= full,
            full == num_full_blocks(input@),
            input.len() < 0x1_0000_0000,
            sponge_state@ == absorbed_state(input@, k as nat),
            rows.len() == k,
            forall|m: int|
                0 <= m < k ==> sponge_row_of(#[trigger] rows[m], op.timestamp, op.addr, input@, m),
        decreases full - k,
    {
        let mut block = [0u8; 136];
        assert(136 * (k + 1) <= 136 * full);
        for j in 0..136
            invariant
                k < full,
                full == num_full_blocks(input@),
                136 * full <= input.len(),
                forall|m: int| 0 <= m < j ==> #[trigger] block[m] == input[136 * k + m],
        {
            block[j] = input[136 * k + j];
        }
        assert(block@ =~= full_block(input@, k as int));
        let mut row = zero_row();
        row.timestamp = op.timestamp;
        row.base_addr = op.addr;
        let next = generate_full_input_row(&mut row, (136 * k) as u32, &sponge_state, &block);
        assert(sponge_row_of(row, op.timestamp, op.addr, input@, k as int));
        rows.push(row);
        sponge_state = next;
        k = k + 1;
    }
    let mut row = zero_row();
    row.timestamp = op.timestamp;
    row.base_addr = op.addr;
    let _ = generate_final_row(&mut row, input, (136 * full) as u32, &sponge_state);
    assert(sponge_row_of(row, op.timestamp, op.addr, input@, full as int));
    rows.push(row);
    rows
}

/// The first row of operation `i` in the trace: each operation takes one row
/// per full block plus its final row.
pub open spec fn sponge_offset(ops: Seq<KeccakSpongeOp>, i: int) -> nat
    decreases i,
{
    if i <= 0 {
        0
    } else {
        sponge_offset(ops, i - 1) + num_full_blocks(ops[i - 1].input@) + 1
    }
}

/// The number of rows that the operations fill.
pub open spec fn sponge_num_real_rows(ops: Seq<KeccakSpongeOp>) -> nat {
    sponge_offset(ops, ops.len() as int)
}

impl KeccakSpongeChip {
    /// The sponge trace: the rows of each operation in turn, then rows that
    /// absorb the empty input (at timestamp and address 0) up to the next
    /// power of two.
    pub fn generate_trace(&self) -> (rows: Vec<KeccakSpongeCols<u32>>)
        requires
            forall|i: int| 0 <= i < self.inputs.len() ==> (#[trigger] self.inputs[i]).input.len() < crate::field::P,
            sponge_num_real_rows(self.inputs@) <= usize::MAX / 2 + 1,
        ensures
            is_sponge_trace(self.inputs@, rows@),
            is_next_power_of_two(sponge_num_real_rows(self.inputs@), rows.len() as nat),
            forall|i: int, k: int|
                0 <= i < self.inputs.len() && 0 <= k <= num_full_blocks(self.inputs[i].input@) ==> sponge_row_of(
                    #[trigger] rows[sponge_offset(self.inputs@, i) + k],
                    self.inputs[i].timestamp,
                    self.inputs[i].addr,
                    self.inputs[i].input@,
                    k,
                ),
            forall|r: int|
                sponge_num_real_rows(self.inputs@) <= r < rows.len() ==> sponge_row_of(
                    #[trigger] rows[r],
                    0,
                    0,
                    Seq::<u8>::empty(),
                    0,
                ),
    {
        let ops = &self.inputs;
        let mut rows: Vec<KeccakSpongeCols<u32>> = Vec::new();
        let mut i: usize = 0;
        while i < ops.len()
            invariant
                i <= ops.len(),
                forall|m: int| 0 <= m < ops.len() ==> (#[trigger] ops[m]).input.len() < crate::field::P,
                sponge_num_real_rows(ops@) <= usize::MAX / 2 + 1,
                rows.len() == sponge_offset(ops@, i as int),
                forall|m: int, k: int|
                    0 <= m < i && 0 <= k <= num_full_blocks(ops[m].input@) ==> sponge_row_of(
                        #[trigger] rows[sponge_offset(ops@, m) + k],
                        ops[m].timestamp,
                        ops[m].addr,
                        ops[m].input@,
                        k,
                    ),
            decreases ops.len() - i,
        {
            proof {
                lemma_sponge_offset_monotone(ops@, i + 1, ops.len() as int);
            }
            let mut op_rows = generate_rows_for_input(&ops[i]);
            let ghost before = rows@;
            rows.append(&mut op_rows);
            proof {
                assert forall|m: int, k: int|
                    0 <= m < i + 1 && 0 <= k <= num_full_blocks(ops[m].input@) implies sponge_row_of(
                    #[trigger] rows[sponge_offset(ops@, m) + k],
                    ops[m].timestamp,
                    ops[m].addr,
                    ops[m].input@,
                    k,
                ) by {
                    if m < i {
                        lemma_sponge_offset_monotone(ops@, m + 1, i as int);
                        assert(rows[sponge_offset(ops@, m) + k] == before[sponge_offset(ops@, m) + k]);
                    } else {
                        assert(rows[sponge_offset(ops@, m) + k] == op_rows_at(rows@, before.len(), k));
                    }
                }
            }
            i = i + 1;
        }
        let total = rows.len();
        let num_rows = next_power_of_two(total);
        let empty = KeccakSpongeOp { timestamp: 0, addr: 0, input: Vec::new() };
        assert(empty.input@ =~= Seq::<u8>::empty());
        while rows.len() < num_rows
            invariant
                total <= rows.len() <= num_rows,
                total == sponge_num_real_rows(ops@),
                empty.timestamp == 0 && empty.addr == 0 && empty.input@ == Seq::<u8>::empty(),
                forall|m: int, k: int|
                    0 <= m < ops.len() && 0 <= k <= num_full_blocks(ops[m].input@) ==> sponge_row_of(
                        #[trigger] rows[sponge_offset(ops@, m) + k],
                        ops[m].timestamp,
                        ops[m].addr,
                        ops[m].input@,
                        k,
                    ),
                forall|r: int|
                    total <= r < rows.len() ==> sponge_row_of(#[trigger] rows[r], 0, 0, Seq::<u8>::empty(), 0),
            decreases num_rows - rows.len(),
        {
            let mut pad = generate_rows_for_input(&empty);
            let row = pad.pop().unwrap();
            let ghost before = rows@;
            rows.push(row);
            proof {
                assert forall|m: int, k: int|
                    0 <= m < ops.len() && 0 <= k <= num_full_blocks(ops[m].input@) implies sponge_row_of(
                    #[trigger] rows[sponge_offset(ops@, m) + k],
                    ops[m].timestamp,
                    ops[m].addr,
                    ops[m].input@,
                    k,
                ) by {
                    lemma_sponge_offset_monotone(ops@, m + 1, ops.len() as int);
                    assert(rows[sponge_offset(ops@, m) + k] == before[sponge_offset(ops@, m) + k]);
                }
            }
        }
        rows
    }
}

/// Row `k` of a freshly appended block of rows.
spec fn op_rows_at(rows: Seq<KeccakSpongeCols<u32>>, start: nat, k: int) -> KeccakSpongeCols<u32> {
    rows[start + k]
}

/// Offsets grow with the operation index.
proof fn lemma_sponge_offset_monotone(ops: Seq<KeccakSpongeOp>, i: int, j: int)
    requires
        0 <= i <= j <= ops.len(),
    ensures
        sponge_offset(ops, i) <= sponge_offset(ops, j),
    decreases j - i,
{
    if i < j {
        lemma_sponge_offset_monotone(ops, i, j - 1);
    }
}

/// Whether byte `i` of a block is its first padding byte.
pub open spec fn first_padding_flag(l: KeccakSpongeCols<u32>, i: int) -> int {
    if i > 0 {
        l.is_padding_byte[i] - l.is_padding_byte[i - 1]
    } else {
        l.is_padding_byte[i] as int
    }
}

/// The constraints of the sponge AIR that read one row only: flags are
/// boolean, padding runs to the end of the block, a block is not both full
/// and final, and padding bytes follow the pad10*1 rule.
pub open spec fn sponge_local_constraints(l: KeccakSpongeCols<u32>) -> bool {
    let full = l.is_full_input_block as int;
    let fin = l.is_padding_byte[135] as int;
    let single = l.is_padding_byte[135] - l.is_padding_byte[134];
    &&& fz(full * (full - 1))
    &&& forall|i: int|
        0 <= i < 136 ==> fz(#[trigger] l.is_padding_byte[i] * (l.is_padding_byte[i] - 1))
    &&& forall|i: int|
        1 <= i < 136 ==> fz(l.is_padding_byte[i - 1] * (#[trigger] l.is_padding_byte[i] - 1))
    &&& fz(fin * full)
    &&& fz(single * (l.block_bytes[135] - 0x81))
    &&& forall|i: int|
        0 <= i < 135 ==> fz(first_padding_flag(l, i) * (#[trigger] l.block_bytes[i] - 1))
    &&& forall|i: int|
        0 <= i < 135 ==> fz(
            l.is_padding_byte[i] * (first_padding_flag(l, i) - 1) * #[trigger] l.block_bytes[i],
        )
    &&& fz(fin * (single - 1) * (l.block_bytes[135] - 0x80))
    &&& fz(full * (full * full - full * full))
}

/// The constraints of the sponge AIR on the first row: nothing absorbed yet
/// and a zero state.
pub open spec fn sponge_first_row_constraints(l: KeccakSpongeCols<u32>) -> bool {
    &&& fz(l.already_absorbed_bytes as int)
    &&& forall|i: int| 0 <= i < 68 ==> fz(#[trigger] l.original_rate_u16s[i] as int)
    &&& forall|i: int| 0 <= i < 32 ==> fz(#[trigger] l.original_capacity_u16s[i] as int)
}

/// The constraints of the sponge AIR between a row and the next: after a
/// final block the next row starts from nothing absorbed and a zero state;
/// after a full block it starts from this row's permuted state, 136 bytes
/// further.
pub open spec fn sponge_transition_constraints(l: KeccakSpongeCols<u32>, n: KeccakSpongeCols<u32>) -> bool {
    let full = l.is_full_input_block as int;
    let fin = l.is_padding_byte[135] as int;
    &&& fz(fin * n.already_absorbed_bytes)
    &&& forall|i: int| 0 <= i < 68 ==> fz(fin * #[trigger] n.original_rate_u16s[i])
    &&& forall|i: int| 0 <= i < 32 ==> fz(fin * #[trigger] n.original_capacity_u16s[i])
    &&& forall|i: int|
        0 <= i < 16 ==> fz(
            full * (#[trigger] n.original_rate_u16s[i] - (l.updated_digest_state_bytes[2 * i] + 256
                * l.updated_digest_state_bytes[2 * i + 1])),
        )
    &&& forall|i: int|
        0 <= i < 52 ==> fz(
            full * (n.original_rate_u16s[16 + i] - #[trigger] l.partial_updated_state_u16s[i]),
        )
    &&& forall|i: int|
        0 <= i < 32 ==> fz(
            full * (#[trigger] n.original_capacity_u16s[i] - l.partial_updated_state_u16s[52 + i]),
        )
    &&& fz(full * (l.already_absorbed_bytes + 136 - n.already_absorbed_bytes))
}

/// All constraints of the sponge AIR on a row and the next one.
pub open spec fn sponge_constraints(l: KeccakSpongeCols<u32>, n: KeccakSpongeCols<u32>, is_first_row: bool) -> bool {
    &&& sponge_local_constraints(l)
    &&& is_first_row ==> sponge_first_row_constraints(l)
    &&& sponge_transition_constraints(l, n)
}

/// `rows` is the trace that [`KeccakSpongeChip::generate_trace`] builds for
/// `ops`.
pub open spec fn is_sponge_trace(ops: Seq<KeccakSpongeOp>, rows: Seq<KeccakSpongeCols<u32>>) -> bool {
    &&& is_next_power_of_two(sponge_num_real_rows(ops), rows.len() as nat)
    &&& forall|i: int, k: int|
        0 <= i < ops.len() && 0 <= k <= num_full_blocks(ops[i].input@) ==> sponge_row_of(
            #[trigger] rows[sponge_offset(ops, i) + k],
            ops[i].timestamp,
            ops[i].addr,
            ops[i].input@,
            k,
        )
    &&& forall|r: int|
        sponge_num_real_rows(ops) <= r < rows.len() ==> sponge_row_of(
            #[trigger] rows[r],
            0,
            0,
            Seq::<u8>::empty(),
            0,
        )
}

/// A row of any absorption satisfies the one-row constraints.
proof fn lemma_row_local_constraints(l: KeccakSpongeCols<u32>, ts: u32, addr: u32, input: Seq<u8>, k: int)
    requires
        sponge_row_of(l, ts, addr, input, k),
        0 <= k <= num_full_blocks(input),
    ensures
        sponge_local_constraints(l),
{
    let full = num_full_blocks(input);
    let rest = input.len() % 136;
    if k < full {
        assert(l.is_padding_byte[135] == 0 && l.is_padding_byte[134] == 0);
        assert forall|i: int| 0 <= i < 135 implies first_padding_flag(l, i) == 0 by {
            assert(l.is_padding_byte[i] == 0);
            if i > 0 {
                assert(l.is_padding_byte[i - 1] == 0);
            }
        }
        assert forall|i: int|
            1 <= i < 136 implies fz(l.is_padding_byte[i - 1] * (#[trigger] l.is_padding_byte[i] - 1)) by {
            assert(l.is_padding_byte[i - 1] == 0);
        }
        assert forall|i: int|
            0 <= i < 135 implies fz(
            l.is_padding_byte[i] * (first_padding_flag(l, i) - 1) * #[trigger] l.block_bytes[i],
        ) by {
            assert(l.is_padding_byte[i] == 0);
        }
    } else {
        let b = final_block(input);
        assert(l.is_padding_byte[135] == 1);
        assert forall|i: int| 0 <= i < 136 implies #[trigger] l.block_bytes[i] == b[i] by {}
        assert forall|i: int|
            1 <= i < 136 implies fz(l.is_padding_byte[i - 1] * (#[trigger] l.is_padding_byte[i] - 1)) by {
            assert(l.is_padding_byte[i - 1] == if i - 1 >= rest { 1u32 } else { 0u32 });
            assert(l.is_padding_byte[i] == if i >= rest { 1u32 } else { 0u32 });
            assert(l.is_padding_byte[i - 1] * (l.is_padding_byte[i] - 1) == 0);
        }
        assert forall|i: int| 0 <= i < 135 implies first_padding_flag(l, i) == if i == rest { 1int } else { 0int } by {
            if i > 0 {
                assert(l.is_padding_byte[i - 1] == if i - 1 >= rest { 1u32 } else { 0u32 });
            }
            assert(l.is_padding_byte[i] == if i >= rest { 1u32 } else { 0u32 });
        }
        assert forall|i: int|
            0 <= i < 135 implies fz(first_padding_flag(l, i) * (#[trigger] l.block_bytes[i] - 1)) by {
            assert(first_padding_flag(l, i) == if i == rest { 1int } else { 0int });
            if i == rest {
                assert(l.block_bytes[i] == 1);
            }
        }
        assert forall|i: int|
            0 <= i < 135 implies fz(
            l.is_padding_byte[i] * (first_padding_flag(l, i) - 1) * #[trigger] l.block_bytes[i],
        ) by {
            assert(first_padding_flag(l, i) == if i == rest { 1int } else { 0int });
            assert(l.is_padding_byte[i] == if i >= rest { 1u32 } else { 0u32 });
            if i > rest {
                assert(l.block_bytes[i] == 0);
            }
        }
        if rest == 135 {
            assert(l.is_padding_byte[134] == 0);
            assert(l.block_bytes[135] == 0x81);
        } else {
            assert(l.is_padding_byte[134] == 1);
            assert(l.block_bytes[135] == 0x80);
        }
    }
}

/// A final row, or the first row of an absorption, satisfies the first-row
/// constraints when it starts an absorption.
proof fn lemma_row_first_constraints(l: KeccakSpongeCols<u32>, ts: u32, addr: u32, input: Seq<u8>)
    requires
        sponge_row_of(l, ts, addr, input, 0),
    ensures
        sponge_first_row_constraints(l),
{
    assert(absorbed_state(input, 0) == zero_state());
    assert forall|i: int| 0 <= i < 68 implies fz(#[trigger] l.original_rate_u16s[i] as int) by {
        assert(l.original_rate_u16s[i] == zero_state()[i]);
    }
    assert forall|i: int| 0 <= i < 32 implies fz(#[trigger] l.original_capacity_u16s[i] as int) by {
        assert(l.original_capacity_u16s[i] == zero_state()[68 + i]);
    }
}

/// Two bytes of a 16-bit limb recompose it.
proof fn lemma_digest_bytes(x: u16)
    ensures
        (x & 0xff) + 256 * ((x >> 8u16) & 0xff) == x,
        x >> 0u16 == x,
{
    assert((x & 0xff) + 256 * ((x >> 8u16) & 0xff) == x) by (bit_vector);
    assert(x >> 0u16 == x) by (bit_vector);
}

/// After a full block, the next row continues the same absorption.
proof fn lemma_transition_after_full(
    l: KeccakSpongeCols<u32>,
    n: KeccakSpongeCols<u32>,
    ts: u32,
    addr: u32,
    input: Seq<u8>,
    k: int,
)
    requires
        sponge_row_of(l, ts, addr, input, k),
        sponge_row_of(n, ts, addr, input, k + 1),
        0 <= k < num_full_blocks(input),
    ensures
        sponge_transition_constraints(l, n),
{
    let st = absorbed_state(input, k as nat);
    let b = sponge_block(input, k);
    let p = permute_u16s(xor_block(st, b));
    assert(b == full_block(input, k));
    assert(absorbed_state(input, (k + 1) as nat) == p);
    assert(l.is_padding_byte[135] == 0);
    assert forall|i: int|
        0 <= i < 16 implies fz(
        1 * (#[trigger] n.original_rate_u16s[i] - (l.updated_digest_state_bytes[2 * i] + 256
            * l.updated_digest_state_bytes[2 * i + 1])),
    ) by {
        assert(n.original_rate_u16s[i] == p[i]);
        assert((2 * i) / 2 == i && (2 * i) % 2 == 0);
        assert((2 * i + 1) / 2 == i && (2 * i + 1) % 2 == 1);
        assert(l.updated_digest_state_bytes[2 * i] == digest_byte(p, 2 * i));
        assert(l.updated_digest_state_bytes[2 * i + 1] == digest_byte(p, 2 * i + 1));
        lemma_digest_bytes(p[i]);
    }
    assert forall|i: int|
        0 <= i < 52 implies fz(
        1 * (n.original_rate_u16s[16 + i] - #[trigger] l.partial_updated_state_u16s[i]),
    ) by {
        assert(n.original_rate_u16s[16 + i] == p[16 + i]);
    }
    assert forall|i: int|
        0 <= i < 32 implies fz(
        1 * (#[trigger] n.original_capacity_u16s[i] - l.partial_updated_state_u16s[52 + i]),
    ) by {
        assert(n.original_capacity_u16s[i] == p[68 + i]);
    }
}

/// After a final block, the next row starts an absorption.
proof fn lemma_transition_after_final(
    l: KeccakSpongeCols<u32>,
    n: KeccakSpongeCols<u32>,
    ts: u32,
    addr: u32,
    input: Seq<u8>,
    ts2: u32,
    addr2: u32,
    input2: Seq<u8>,
)
    requires
        sponge_row_of(l, ts, addr, input, num_full_blocks(input) as int),
        sponge_row_of(n, ts2, addr2, input2, 0),
    ensures
        sponge_transition_constraints(l, n),
{
    lemma_row_first_constraints(n, ts2, addr2, input2);
    assert(l.is_full_input_block == 0);
    assert forall|i: int| 0 <= i < 68 implies fz(l.is_padding_byte[135] * #[trigger] n.original_rate_u16s[i]) by {
        assert(fz(n.original_rate_u16s[i] as int));
        assert(n.original_rate_u16s[i] == 0);
    }
    assert forall|i: int| 0 <= i < 32 implies fz(l.is_padding_byte[135] * #[trigger] n.original_capacity_u16s[i]) by {
        assert(fz(n.original_capacity_u16s[i] as int));
        assert(n.original_capacity_u16s[i] == 0);
    }
}

/// The operation and block of a real row, searching below operation `i`.
proof fn lemma_locate_row(ops: Seq<KeccakSpongeOp>, r: int, i: int) -> (ik: (int, int))
    requires
        0 < i <= ops.len(),
        0 <= r < sponge_offset(ops, i),
    ensures
        0 <= ik.0 < i,
        0 <= ik.1 <= num_full_blocks(ops[ik.0].input@),
        r == sponge_offset(ops, ik.0) + ik.1,
    decreases i,
{
    if r >= sponge_offset(ops, i - 1) {
        (i - 1, r - sponge_offset(ops, i - 1))
    } else {
        lemma_locate_row(ops, r, i - 1)
    }
}

/// A power of two is at least one.
proof fn lemma_power_of_two_positive(x: nat)
    requires
        crate::util::is_power_of_two(x),
    ensures
        x >= 1,
{
}

/// The first row of a sponge trace starts an absorption.
proof fn lemma_first_row(ops: Seq<KeccakSpongeOp>, rows: Seq<KeccakSpongeCols<u32>>)
    requires
        is_sponge_trace(ops, rows),
    ensures
        rows.len() >= 1,
        exists|ts: u32, addr: u32, input: Seq<u8>| sponge_row_of(rows[0], ts, addr, input, 0),
{
    lemma_power_of_two_positive(rows.len() as nat);
    if ops.len() > 0 {
        assert(sponge_offset(ops, 0) == 0);
        assert(sponge_row_of(rows[sponge_offset(ops, 0) + 0int], ops[0].timestamp, ops[0].addr, ops[0].input@, 0));
    } else {
        assert(sponge_num_real_rows(ops) == 0);
        assert(sponge_row_of(rows[0], 0, 0, Seq::<u8>::empty(), 0));
    }
}

/// The trace that the sponge chip generates satisfies every constraint of
/// the sponge AIR on every row, the last row's next row being the first.
pub proof fn sponge_trace_satisfies_air(ops: Seq<KeccakSpongeOp>, rows: Seq<KeccakSpongeCols<u32>>)
    requires
        is_sponge_trace(ops, rows),
    ensures
        forall|r: int|
            0 <= r < rows.len() ==> sponge_constraints(
                #[trigger] rows[r],
                rows[(r + 1) % (rows.len() as int)],
                r == 0,
            ),
{
    let n = rows.len() as int;
    let total = sponge_num_real_rows(ops) as int;
    lemma_first_row(ops, rows);
    assert forall|r: int| 0 <= r < rows.len() implies sponge_constraints(
        #[trigger] rows[r],
        rows[(r + 1) % n],
        r == 0,
    ) by {
        let l = rows[r];
        let nx = rows[(r + 1) % n];
        if r == 0 {
            let (ts, addr, input) = choose|ts: u32, addr: u32, input: Seq<u8>| sponge_row_of(rows[0], ts, addr, input, 0);
            lemma_row_first_constraints(rows[0], ts, addr, input);
        }
        // The next row when this row ends an absorption.
        let next_starts = exists|ts: u32, addr: u32, input: Seq<u8>| sponge_row_of(nx, ts, addr, input, 0);
        if r + 1 < n {
            vstd::arithmetic::div_mod::lemma_small_mod((r + 1) as nat, n as nat);
        } else {
            vstd::arithmetic::div_mod::lemma_mod_self_0(n);
        }
        if r < total {
            let (i, k) = lemma_locate_row(ops, r, ops.len() as int);
            let op = ops[i];
            assert(sponge_row_of(rows[sponge_offset(ops, i) + k], op.timestamp, op.addr, op.input@, k));
            lemma_row_local_constraints(l, op.timestamp, op.addr, op.input@, k);
            if k < num_full_blocks(op.input@) {
                lemma_sponge_offset_monotone(ops, i + 1, ops.len() as int);
                assert(r + 1 < total);
                assert(sponge_row_of(rows[sponge_offset(ops, i) + (k + 1)], op.timestamp, op.addr, op.input@, k + 1));
                lemma_transition_after_full(l, nx, op.timestamp, op.addr, op.input@, k);
            } else {
                assert(r + 1 == sponge_offset(ops, i + 1));
                if r + 1 == n {
                    let (ts, addr, input) = choose|ts: u32, addr: u32, input: Seq<u8>| sponge_row_of(rows[0], ts, addr, input, 0);
                    lemma_transition_after_final(l, nx, op.timestamp, op.addr, op.input@, ts, addr, input);
                } else if i + 1 < ops.len() {
                    let op2 = ops[i + 1];
                    assert(sponge_row_of(rows[sponge_offset(ops, i + 1) + 0int], op2.timestamp, op2.addr, op2.input@, 0));
                    lemma_transition_after_final(l, nx, op.timestamp, op.addr, op.input@, op2.timestamp, op2.addr, op2.input@);
                } else {
                    assert(r + 1 == total);
                    assert(sponge_row_of(rows[r + 1], 0, 0, Seq::<u8>::empty(), 0));
                    lemma_transition_after_final(l, nx, op.timestamp, op.addr, op.input@, 0, 0, Seq::<u8>::empty());
                }
            }
        } else {
            let empty = Seq::<u8>::empty();
            assert(sponge_row_of(l, 0, 0, empty, 0));
            assert(num_full_blocks(empty) == 0);
            lemma_row_local_constraints(l, 0, 0, empty, 0);
            if r + 1 == n {
                let (ts, addr, input) = choose|ts: u32, addr: u32, input: Seq<u8>| sponge_row_of(rows[0], ts, addr, input, 0);
                lemma_transition_after_final(l, nx, 0, 0, empty, ts, addr, input);
            } else {
                assert(sponge_row_of(rows[r + 1], 0, 0, empty, 0));
                lemma_transition_after_final(l, nx, 0, 0, empty, 0, 0, empty);
            }
        }
    }
}

/// Every value that the constraints read is a canonical field value.
pub open spec fn sponge_row_canonical(l: KeccakSpongeCols<u32>) -> bool {
    &&& l.is_full_input_block < P
    &&& l.already_absorbed_bytes < P
    &&& forall|i: int| 0 <= i < 136 ==> #[trigger] l.is_padding_byte[i] < P
    &&& forall|i: int| 0 <= i < 68 ==> #[trigger] l.original_rate_u16s[i] < P
    &&& forall|i: int| 0 <= i < 32 ==> #[trigger] l.original_capacity_u16s[i] < P
    &&& forall|i: int| 0 <= i < 136 ==> #[trigger] l.block_bytes[i] < P
    &&& forall|i: int| 0 <= i < 84 ==> #[trigger] l.partial_updated_state_u16s[i] < P
    &&& forall|i: int| 0 <= i < 32 ==> #[trigger] l.updated_digest_state_bytes[i] < P
}

/// `a - b` in the field, with its congruence.
fn sub_c(a: u32, b: u32) -> (r: u32)
    requires
        a < P,
        b < P,
    ensures
        r < P,
        (r as int) % (P as int) == (a - b) % (P as int),
{
    let r = f_sub(a, b);
    proof {
        lemma_mod_congruent(a - b);
    }
    r
}

/// Whether `x * (x - 1)` is zero: `x` is boolean.
fn is_bool(x: u32) -> (r: bool)
    requires
        x < P,
    ensures
        r == fz(x * (x - 1)),
{
    let d = sub_c(x, 1);
    proof {
        lemma_fz_congruent2(x as int, x as int, d as int, x - 1);
    }
    is_zero2(x, d)
}

/// The flag constraints: booleans, padding to the end, not full and final.
fn check_flags(l: &KeccakSpongeCols<u32>) -> (r: bool)
    requires
        sponge_row_canonical(*l),
    ensures
        r == {
            let full = l.is_full_input_block as int;
            let fin = l.is_padding_byte[135] as int;
            &&& fz(full * (full - 1))
            &&& forall|i: int|
                0 <= i < 136 ==> fz(#[trigger] l.is_padding_byte[i] * (l.is_padding_byte[i] - 1))
            &&& forall|i: int|
                1 <= i < 136 ==> fz(l.is_padding_byte[i - 1] * (#[trigger] l.is_padding_byte[i] - 1))
            &&& fz(fin * full)
        },
{
    let full = l.is_full_input_block;
    let fin = l.is_padding_byte[135];
    let ok_full = is_bool(full);
    let mut ok_bool = true;
    for i in 0..136
        invariant
            sponge_row_canonical(*l),
            ok_bool == forall|j: int|
                0 <= j < i ==> fz(#[trigger] l.is_padding_byte[j] * (l.is_padding_byte[j] - 1)),
    {
        let b = is_bool(l.is_padding_byte[i]);
        ok_bool = ok_bool && b;
    }
    let mut ok_run = true;
    for i in 1..136
        invariant
            sponge_row_canonical(*l),
            ok_run == forall|j: int|
                1 <= j < i ==> fz(l.is_padding_byte[j - 1] * (#[trigger] l.is_padding_byte[j] - 1)),
    {
        let p = l.is_padding_byte[i];
        let d = sub_c(p, 1);
        proof {
            lemma_fz_congruent2(l.is_padding_byte[i - 1] as int, l.is_padding_byte[i - 1] as int, d as int, p - 1);
        }
        let b = is_zero2(l.is_padding_byte[i - 1], d);
        ok_run = ok_run && b;
    }
    let ok_excl = is_zero2(fin, full);
    ok_full && ok_bool && ok_run && ok_excl
}

/// The first padding flag of byte `i`, in the field.
fn first_padding(l: &KeccakSpongeCols<u32>, i: usize) -> (r: u32)
    requires
        sponge_row_canonical(*l),
        i < 136,
    ensures
        r < P,
        (r as int) % (P as int) == first_padding_flag(*l, i as int) % (P as int),
{
    if i > 0 {
        sub_c(l.is_padding_byte[i], l.is_padding_byte[i - 1])
    } else {
        let r = l.is_padding_byte[i];
        proof {
            lemma_canonical_mod(r);
        }
        r
    }
}

/// The pad10*1 constraints on the block bytes.
fn check_padding(l: &KeccakSpongeCols<u32>) -> (r: bool)
    requires
        sponge_row_canonical(*l),
    ensures
        r == {
            let full = l.is_full_input_block as int;
            let fin = l.is_padding_byte[135] as int;
            let single = l.is_padding_byte[135] - l.is_padding_byte[134];
            &&& fz(single * (l.block_bytes[135] - 0x81))
            &&& forall|i: int|
                0 <= i < 135 ==> fz(first_padding_flag(*l, i) * (#[trigger] l.block_bytes[i] - 1))
            &&& forall|i: int|
                0 <= i < 135 ==> fz(
                    l.is_padding_byte[i] * (first_padding_flag(*l, i) - 1) * #[trigger] l.block_bytes[i],
                )
            &&& fz(fin * (single - 1) * (l.block_bytes[135] - 0x80))
            &&& fz(full * (full * full - full * full))
        },
{
    let full = l.is_full_input_block;
    let fin = l.is_padding_byte[135];
    let single = sub_c(l.is_padding_byte[135], l.is_padding_byte[134]);
    let last = l.block_bytes[135];
    let d81 = sub_c(last, 0x81);
    proof {
        lemma_fz_congruent2(single as int, l.is_padding_byte[135] - l.is_padding_byte[134], d81 as int, last - 0x81);
    }
    let ok_single = is_zero2(single, d81);
    let mut ok_first = true;
    let mut ok_rest = true;
    for i in 0..135
        invariant
            sponge_row_canonical(*l),
            ok_first == forall|j: int|
                0 <= j < i ==> fz(first_padding_flag(*l, j) * (#[trigger] l.block_bytes[j] - 1)),
            ok_rest == forall|j: int|
                0 <= j < i ==> fz(
                    l.is_padding_byte[j] * (first_padding_flag(*l, j) - 1) * #[trigger] l.block_bytes[j],
                ),
    {
        let first = first_padding(l, i);
        let b = l.block_bytes[i];
        let p = l.is_padding_byte[i];
        let b1 = sub_c(b, 1);
        let f1 = sub_c(first, 1);
        proof {
            lemma_fz_congruent2(first as int, first_padding_flag(*l, i as int), b1 as int, b - 1);
            lemma_congruent_add_sub(first as int, first_padding_flag(*l, i as int), 1, 1);
            lemma_canonical_mod(p);
            lemma_canonical_mod(b);
            lemma_fz_congruent3(p as int, p as int, f1 as int, first_padding_flag(*l, i as int) - 1, b as int, b as int);
        }
        let c1 = is_zero2(first, b1);
        let c2 = is_zero3(p, f1, b);
        ok_first = ok_first && c1;
        ok_rest = ok_rest && c2;
    }
    let s1 = sub_c(single, 1);
    let d80 = sub_c(last, 0x80);
    proof {
        let sp = l.is_padding_byte[135] - l.is_padding_byte[134];
        lemma_congruent_add_sub(single as int, sp, 1, 1);
        lemma_canonical_mod(fin);
        lemma_fz_congruent3(fin as int, fin as int, s1 as int, sp - 1, d80 as int, last - 0x80);
    }
    let ok_final = is_zero3(fin, s1, d80);
    let sq = f_mul(full, full);
    let zero = sub_c(sq, sq);
    proof {
        assert(full * full - full * full == 0);
        lemma_fz_congruent2(full as int, full as int, zero as int, full * full - full * full);
    }
    let ok_dummy = is_zero2(full, zero);
    ok_single && ok_first && ok_rest && ok_final && ok_dummy
}

/// The first-row constraints.
fn check_first_row(l: &KeccakSpongeCols<u32>) -> (r: bool)
    requires
        sponge_row_canonical(*l),
    ensures
        r == sponge_first_row_constraints(*l),
{
    proof {
        lemma_canonical_mod(l.already_absorbed_bytes);
    }
    let mut ok = l.already_absorbed_bytes == 0;
    let mut ok_rate = true;
    for i in 0..68
        invariant
            sponge_row_canonical(*l),
            ok_rate == forall|j: int| 0 <= j < i ==> fz(#[trigger] l.original_rate_u16s[j] as int),
    {
        proof {
            lemma_canonical_mod(l.original_rate_u16s[i as int]);
        }
        ok_rate = ok_rate && l.original_rate_u16s[i] == 0;
    }
    let mut ok_cap = true;
    for i in 0..32
        invariant
            sponge_row_canonical(*l),
            ok_cap == forall|j: int| 0 <= j < i ==> fz(#[trigger] l.original_capacity_u16s[j] as int),
    {
        proof {
            lemma_canonical_mod(l.original_capacity_u16s[i as int]);
        }
        ok_cap = ok_cap && l.original_capacity_u16s[i] == 0;
    }
    ok && ok_rate && ok_cap
}

/// The constraints after a final block: the next row starts afresh.
fn check_after_final(l: &KeccakSpongeCols<u32>, n: &KeccakSpongeCols<u32>) -> (r: bool)
    requires
        sponge_row_canonical(*l),
        sponge_row_canonical(*n),
    ensures
        r == {
            let fin = l.is_padding_byte[135] as int;
            &&& fz(fin * n.already_absorbed_bytes)
            &&& forall|i: int| 0 <= i < 68 ==> fz(fin * #[trigger] n.original_rate_u16s[i])
            &&& forall|i: int| 0 <= i < 32 ==> fz(fin * #[trigger] n.original_capacity_u16s[i])
        },
{
    let fin = l.is_padding_byte[135];
    let ok = is_zero2(fin, n.already_absorbed_bytes);
    let mut ok_rate = true;
    for i in 0..68
        invariant
            sponge_row_canonical(*l),
            sponge_row_canonical(*n),
            fin == l.is_padding_byte[135],
            ok_rate == forall|j: int| 0 <= j < i ==> fz(fin * #[trigger] n.original_rate_u16s[j]),
    {
        let b = is_zero2(fin, n.original_rate_u16s[i]);
        ok_rate = ok_rate && b;
    }
    let mut ok_cap = true;
    for i in 0..32
        invariant
            sponge_row_canonical(*l),
            sponge_row_canonical(*n),
            fin == l.is_padding_byte[135],
            ok_cap == forall|j: int| 0 <= j < i ==> fz(fin * #[trigger] n.original_capacity_u16s[j]),
    {
        let b = is_zero2(fin, n.original_capacity_u16s[i]);
        ok_cap = ok_cap && b;
    }
    ok && ok_rate && ok_cap
}

/// The constraints after a full block: the next row continues from this
/// row's permuted state, 136 bytes further.
fn check_after_full(l: &KeccakSpongeCols<u32>, n: &KeccakSpongeCols<u32>) -> (r: bool)
    requires
        sponge_row_canonical(*l),
        sponge_row_canonical(*n),
    ensures
        r == {
            let full = l.is_full_input_block as int;
            &&& forall|i: int|
                0 <= i < 16 ==> fz(
                    full * (#[trigger] n.original_rate_u16s[i] - (l.updated_digest_state_bytes[2 * i]
                        + 256 * l.updated_digest_state_bytes[2 * i + 1])),
                )
            &&& forall|i: int|
                0 <= i < 52 ==> fz(
                    full * (n.original_rate_u16s[16 + i] - #[trigger] l.partial_updated_state_u16s[i]),
                )
            &&& forall|i: int|
                0 <= i < 32 ==> fz(
                    full * (#[trigger] n.original_capacity_u16s[i] - l.partial_updated_state_u16s[52
                        + i]),
                )
            &&& fz(full * (l.already_absorbed_bytes + 136 - n.already_absorbed_bytes))
        },
{
    let full = l.is_full_input_block;
    proof {
        lemma_canonical_mod(full);
    }
    let mut ok_digest = true;
    for i in 0..16
        invariant
            sponge_row_canonical(*l),
            sponge_row_canonical(*n),
            full == l.is_full_input_block,
            (full as int) % (P as int) == full as int,
            ok_digest == forall|j: int|
                0 <= j < i ==> fz(
                    full * (#[trigger] n.original_rate_u16s[j] - (l.updated_digest_state_bytes[2 * j]
                        + 256 * l.updated_digest_state_bytes[2 * j + 1])),
                ),
    {
        let d0 = l.updated_digest_state_bytes[2 * i];
        let d1 = l.updated_digest_state_bytes[2 * i + 1];
        let hi = f_mul(256, d1);
        let limb = f_add(d0, hi);
        let rate = n.original_rate_u16s[i];
        let diff = sub_c(rate, limb);
        proof {
            lemma_mod_congruent(256 * d1);
            lemma_canonical_mod(d0);
            lemma_congruent_add_sub(d0 as int, d0 as int, hi as int, 256 * d1);
            lemma_mod_congruent(d0 + hi);
            lemma_canonical_mod(rate);
            lemma_congruent_add_sub(rate as int, rate as int, limb as int, d0 + 256 * d1);
            lemma_fz_congruent2(full as int, full as int, diff as int, rate - (d0 + 256 * d1));
        }
        let b = is_zero2(full, diff);
        ok_digest = ok_digest && b;
    }
    let mut ok_rate = true;
    for i in 0..52
        invariant
            sponge_row_canonical(*l),
            sponge_row_canonical(*n),
            full == l.is_full_input_block,
            ok_rate == forall|j: int|
                0 <= j < i ==> fz(
                    full * (n.original_rate_u16s[16 + j] - #[trigger] l.partial_updated_state_u16s[j]),
                ),
    {
        let diff = sub_c(n.original_rate_u16s[16 + i], l.partial_updated_state_u16s[i]);
        proof {
            lemma_fz_congruent2(full as int, full as int, diff as int, n.original_rate_u16s[16 + i] - l.partial_updated_state_u16s[i as int]);
        }
        let b = is_zero2(full, diff);
        ok_rate = ok_rate && b;
    }
    let mut ok_cap = true;
    for i in 0..32
        invariant
            sponge_row_canonical(*l),
            sponge_row_canonical(*n),
            full == l.is_full_input_block,
            ok_cap == forall|j: int|
                0 <= j < i ==> fz(
                    full * (#[trigger] n.original_capacity_u16s[j] - l.partial_updated_state_u16s[52
                        + j]),
                ),
    {
        let diff = sub_c(n.original_capacity_u16s[i], l.partial_updated_state_u16s[52 + i]);
        proof {
            lemma_fz_congruent2(full as int, full as int, diff as int, n.original_capacity_u16s[i as int] - l.partial_updated_state_u16s[52 + i]);
        }
        let b = is_zero2(full, diff);
        ok_cap = ok_cap && b;
    }
    let a = l.already_absorbed_bytes;
    let na = n.already_absorbed_bytes;
    let a136 = f_add(a, 136);
    let diff = sub_c(a136, na);
    proof {
        lemma_mod_congruent(a + 136);
        lemma_canonical_mod(na);
        lemma_congruent_add_sub(a136 as int, a + 136, na as int, na as int);
        lemma_fz_congruent2(full as int, full as int, diff as int, a + 136 - na);
    }
    let ok_already = is_zero2(full, diff);
    ok_digest && ok_rate && ok_cap && ok_already
}

impl KeccakSpongeChip {
    /// Evaluates the sponge AIR on a row and the next one: whether every
    /// constraint holds in the field.
    pub fn eval_cols(&self, local: &KeccakSpongeCols<u32>, next: &KeccakSpongeCols<u32>, is_first_row: bool) -> (r: bool)
        requires
            sponge_row_canonical(*local),
            sponge_row_canonical(*next),
        ensures
            r == sponge_constraints(*local, *next, is_first_row),
    {
        let flags = check_flags(local);
        let padding = check_padding(local);
        let first = if is_first_row {
            check_first_row(local)
        } else {
            true
        };
        let after_final = check_after_final(local, next);
        let after_full = check_after_full(local, next);
        flags && padding && first && after_final && after_full
    }
}

/// The first column of each field of [`KeccakSpongeCols`].
pub const TIMESTAMP_COL: usize = 0;
pub const BASE_ADDR_COL: usize = 1;
pub const IS_FULL_INPUT_BLOCK_COL: usize = 2;
pub const ALREADY_ABSORBED_BYTES_COL: usize = 3;
pub const IS_PADDING_BYTE_COL: usize = 4;
pub const ORIGINAL_RATE_U16S_COL: usize = 140;
pub const ORIGINAL_CAPACITY_U16S_COL: usize = 208;
pub const BLOCK_BYTES_COL: usize = 240;
pub const XORED_RATE_U16S_COL: usize = 376;
pub const PARTIAL_UPDATED_STATE_U16S_COL: usize = 444;
pub const UPDATED_DIGEST_STATE_BYTES_COL: usize = 528;

/// The count of a real row: a full input block or a final block.
pub open spec fn sponge_is_real_spec() -> VpcSpec {
    VpcSpec {
        weights: seq![(PairCol::Main(139), 1u32), (PairCol::Main(2), 1u32)],
        constant: 0,
    }
}

/// Message `k` to the xor chip: four block bytes and the two rate limbs
/// that they are xored with.
pub open spec fn sponge_xor_input(k: int, bus: usize) -> InteractionSpec {
    InteractionSpec {
        fields: seq![
            packed_main_spec((240 + 4 * k) as usize, 4, 8),
            packed_main_spec((140 + 2 * k) as usize, 2, 16),
        ],
        count: sponge_is_real_spec(),
        argument_index: bus,
    }
}

/// The state sent to the permutation: the xored rate limbs, then the
/// capacity limbs.
pub open spec fn sponge_permute_input(bus: usize) -> InteractionSpec {
    InteractionSpec {
        fields: Seq::new(
            100,
            |i: int| single_main_spec(if i < 68 { (376 + i) as usize } else { (208 + i - 68) as usize }),
        ),
        count: sponge_is_real_spec(),
        argument_index: bus,
    }
}

/// The range check of block byte `i`.
pub open spec fn sponge_range_check(i: int, bus: usize) -> InteractionSpec {
    InteractionSpec {
        fields: seq![single_main_spec((240 + i) as usize)],
        count: sponge_is_real_spec(),
        argument_index: bus,
    }
}

/// The count of the memory read of block byte `i`: every byte of a full
/// block, and the input bytes of a final block.
pub open spec fn sponge_read_count(i: int) -> VpcSpec {
    if i == 135 {
        single_main_spec(2)
    } else {
        VpcSpec {
            weights: seq![
                (PairCol::Main(2), 1u32),
                (PairCol::Main(139), 1u32),
                (PairCol::Main((4 + i) as usize), (P - 1) as u32),
            ],
            constant: 0,
        }
    }
}

/// The memory read of block byte `i`: `(timestamp, base_addr +
/// already_absorbed_bytes + i, byte)`.
pub open spec fn sponge_memory_read(i: int, bus: usize) -> InteractionSpec {
    InteractionSpec {
        fields: seq![
            single_main_spec(0),
            VpcSpec { weights: seq![(PairCol::Main(1), 1u32), (PairCol::Main(3), 1u32)], constant: i as u32 },
            single_main_spec((240 + i) as usize),
        ],
        count: sponge_read_count(i),
        argument_index: bus,
    }
}

/// Xor result `k`: two xored rate limbs.
pub open spec fn sponge_xor_output(k: int, bus: usize) -> InteractionSpec {
    InteractionSpec {
        fields: seq![packed_main_spec((376 + 2 * k) as usize, 2, 16)],
        count: sponge_is_real_spec(),
        argument_index: bus,
    }
}

/// The permuted state received back: the digest limbs rebuilt from their
/// bytes, then the other limbs.
pub open spec fn sponge_permute_output(bus: usize) -> InteractionSpec {
    InteractionSpec {
        fields: Seq::new(
            100,
            |i: int|
                if i < 16 {
                    packed_main_spec((528 + 2 * i) as usize, 2, 8)
                } else {
                    single_main_spec((444 + i - 16) as usize)
                },
        ),
        count: sponge_is_real_spec(),
        argument_index: bus,
    }
}

/// The count of a real row, built.
fn sponge_is_real() -> (r: VirtualPairCol)
    ensures
        r@ == sponge_is_real_spec(),
{
    let mut cols: Vec<usize> = Vec::new();
    cols.push(IS_PADDING_BYTE_COL + 135);
    cols.push(IS_FULL_INPUT_BLOCK_COL);
    let r = VirtualPairCol::sum_main(cols);
    assert(r@.weights =~= sponge_is_real_spec().weights);
    r
}

/// A main column's virtual column, built.
fn single_col(c: usize) -> (r: VirtualPairCol)
    ensures
        r@ == single_main_spec(c),
{
    let r = VirtualPairCol::single_main(c);
    assert(r@ =~~= single_main_spec(c));
    r
}

impl PermutationAir for KeccakSpongeChip {
    /// Xor inputs for each four block bytes, the state for the permutation,
    /// and a range check of each block byte.
    open spec fn spec_sends(&self) -> Seq<InteractionSpec> {
        Seq::new(
            171,
            |m: int|
                if m < 34 {
                    sponge_xor_input(m, self.bus_xor_input)
                } else if m == 34 {
                    sponge_permute_input(self.bus_keccak_permute_input)
                } else {
                    sponge_range_check(m - 35, self.bus_range_8)
                },
        )
    }

    /// A memory read for each block byte, xor results for each two rate
    /// limbs, and the permuted state.
    open spec fn spec_receives(&self) -> Seq<InteractionSpec> {
        Seq::new(
            171,
            |m: int|
                if m < 136 {
                    sponge_memory_read(m, self.bus_memory)
                } else if m < 170 {
                    sponge_xor_output(m - 136, self.bus_xor_output)
                } else {
                    sponge_permute_output(self.bus_keccak_permute_output)
                },
        )
    }

    fn sends(&self) -> (r: Vec<Interaction>) {
        let mut r: Vec<Interaction> = Vec::new();
        for k in 0..34
            invariant
                r.len() == k,
                forall|m: int| 0 <= m < k ==> (#[trigger] r[m])@ == self.spec_sends()[m],
        {
            let mut fields: Vec<VirtualPairCol> = Vec::new();
            fields.push(packed_main(BLOCK_BYTES_COL + 4 * k, 4, 8));
            fields.push(packed_main(ORIGINAL_RATE_U16S_COL + 2 * k, 2, 16));
            let i = Interaction { fields, count: sponge_is_real(), argument_index: self.bus_xor_input };
            assert(i@.fields =~= sponge_xor_input(k as int, self.bus_xor_input).fields);
            r.push(i);
        }
        let mut fields: Vec<VirtualPairCol> = Vec::new();
        for c in 0..100
            invariant
                fields.len() == c,
                forall|m: int|
                    0 <= m < c ==> (#[trigger] fields[m])@ == sponge_permute_input(self.bus_keccak_permute_input).fields[m],
        {
            let col = if c < 68 {
                XORED_RATE_U16S_COL + c
            } else {
                ORIGINAL_CAPACITY_U16S_COL + c - 68
            };
            fields.push(single_col(col));
        }
        let i = Interaction { fields, count: sponge_is_real(), argument_index: self.bus_keccak_permute_input };
        assert(i@.fields =~= sponge_permute_input(self.bus_keccak_permute_input).fields);
        r.push(i);
        for b in 0..136
            invariant
                r.len() == 35 + b,
                forall|m: int| 0 <= m < 35 + b ==> (#[trigger] r[m])@ == self.spec_sends()[m],
        {
            let mut fields: Vec<VirtualPairCol> = Vec::new();
            fields.push(single_col(BLOCK_BYTES_COL + b));
            let i = Interaction { fields, count: sponge_is_real(), argument_index: self.bus_range_8 };
            assert(i@.fields =~= sponge_range_check(b as int, self.bus_range_8).fields);
            r.push(i);
        }
        assert(interactions_view(r@) =~= self.spec_sends());
        r
    }

    fn receives(&self) -> (r: Vec<Interaction>) {
        let mut r: Vec<Interaction> = Vec::new();
        for b in 0..136
            invariant
                r.len() == b,
                forall|m: int| 0 <= m < b ==> (#[trigger] r[m])@ == self.spec_receives()[m],
        {
            let count = if b == 135 {
                single_col(IS_FULL_INPUT_BLOCK_COL)
            } else {
                let mut weights: Vec<(usize, u32)> = Vec::new();
                weights.push((IS_FULL_INPUT_BLOCK_COL, 1));
                weights.push((IS_PADDING_BYTE_COL + 135, 1));
                weights.push((IS_PADDING_BYTE_COL + b, P - 1));
                let c = VirtualPairCol::new_main(weights, 0);
                assert(c@.weights =~= sponge_read_count(b as int).weights);
                c
            };
            let mut addr_weights: Vec<(usize, u32)> = Vec::new();
            addr_weights.push((BASE_ADDR_COL, 1));
            addr_weights.push((ALREADY_ABSORBED_BYTES_COL, 1));
            let addr = VirtualPairCol::new_main(addr_weights, b as u32);
            let mut fields: Vec<VirtualPairCol> = Vec::new();
            fields.push(single_col(TIMESTAMP_COL));
            fields.push(addr);
            fields.push(single_col(BLOCK_BYTES_COL + b));
            let i = Interaction { fields, count, argument_index: self.bus_memory };
            assert(i@.fields[1].weights =~= sponge_memory_read(b as int, self.bus_memory).fields[1].weights);
            assert(i@.fields =~= sponge_memory_read(b as int, self.bus_memory).fields);
            r.push(i);
        }
        for k in 0..34
            invariant
                r.len() == 136 + k,
                forall|m: int| 0 <= m < 136 + k ==> (#[trigger] r[m])@ == self.spec_receives()[m],
        {
            let mut fields: Vec<VirtualPairCol> = Vec::new();
            fields.push(packed_main(XORED_RATE_U16S_COL + 2 * k, 2, 16));
            let i = Interaction { fields, count: sponge_is_real(), argument_index: self.bus_xor_output };
            assert(i@.fields =~= sponge_xor_output(k as int, self.bus_xor_output).fields);
            r.push(i);
        }
        // The digest limbs are rebuilt from their bytes; the other limbs are
        // read directly.
        let mut fields: Vec<VirtualPairCol> = Vec::new();
        for c in 0..100
            invariant
                fields.len() == c,
                forall|m: int|
                    0 <= m < c ==> (#[trigger] fields[m])@ == sponge_permute_output(self.bus_keccak_permute_output).fields[m],
        {
            if c < 16 {
                fields.push(packed_main(UPDATED_DIGEST_STATE_BYTES_COL + 2 * c, 2, 8));
            } else {
                fields.push(single_col(PARTIAL_UPDATED_STATE_U16S_COL + c - 16));
            }
        }
        let i = Interaction { fields, count: sponge_is_real(), argument_index: self.bus_keccak_permute_output };
        assert(i@.fields =~= sponge_permute_output(self.bus_keccak_permute_output).fields);
        r.push(i);
        assert(interactions_view(r@) =~= self.spec_receives());
        r
    }
}

/// The value in column `k` of a row.
pub open spec fn sponge_col(r: KeccakSpongeCols<u32>, k: int) -> u32 {
    if k == 0 {
        r.timestamp
    } else if k == 1 {
        r.base_addr
    } else if k == 2 {
        r.is_full_input_block
    } else if k == 3 {
        r.already_absorbed_bytes
    } else if k < 140 {
        r.is_padding_byte[k - 4]
    } else if k < 208 {
        r.original_rate_u16s[k - 140]
    } else if k < 240 {
        r.original_capacity_u16s[k - 208]
    } else if k < 376 {
        r.block_bytes[k - 240]
    } else if k < 444 {
        r.xored_rate_u16s[k - 376]
    } else if k < 528 {
        r.partial_updated_state_u16s[k - 444]
    } else {
        r.updated_digest_state_bytes[k - 528]
    }
}

/// The values of a row, each field at its column.
pub open spec fn sponge_row_values(r: KeccakSpongeCols<u32>) -> Seq<u32> {
    Seq::new(560, |k: int| sponge_col(r, k))
}

/// Reads an array from the columns `first..first + N` of a row.
fn read_array<const N: usize>(a: &mut [u32; N], row: &[u32], first: usize)
    requires
        first + N <= row.len(),
    ensures
        forall|i: int| 0 <= i < N ==> #[trigger] final(a)[i] == row@[first + i],
{
    for i in 0..N
        invariant
            first + N <= row.len(),
            forall|j: int| 0 <= j < i ==> #[trigger] a[j] == row@[first + j],
    {
        a[i] = row[first + i];
    }
}

impl KeccakSpongeCols<u32> {
    /// The row as a slice of values, each field at its column.
    pub fn to_row(&self) -> (r: Vec<u32>)
        ensures
            r@ == sponge_row_values(*self),
    {
        let mut r: Vec<u32> = Vec::new();
        r.push(self.timestamp);
        r.push(self.base_addr);
        r.push(self.is_full_input_block);
        r.push(self.already_absorbed_bytes);
        push_array(&mut r, &self.is_padding_byte);
        push_array(&mut r, &self.original_rate_u16s);
        push_array(&mut r, &self.original_capacity_u16s);
        push_array(&mut r, &self.block_bytes);
        push_array(&mut r, &self.xored_rate_u16s);
        push_array(&mut r, &self.partial_updated_state_u16s);
        push_array(&mut r, &self.updated_digest_state_bytes);
        assert(r@ =~= sponge_row_values(*self));
        r
    }

    /// The row whose values are `row`, each field read from its column.
    pub fn from_row(row: &[u32]) -> (r: Self)
        requires
            row@.len() == NUM_KECCAK_SPONGE_COLS,
        ensures
            sponge_row_values(r) == row@,
    {
        let mut is_padding_byte = [0u32; 136];
        read_array(&mut is_padding_byte, row, IS_PADDING_BYTE_COL);
        let mut original_rate_u16s = [0u32; 68];
        read_array(&mut original_rate_u16s, row, ORIGINAL_RATE_U16S_COL);
        let mut original_capacity_u16s = [0u32; 32];
        read_array(&mut original_capacity_u16s, row, ORIGINAL_CAPACITY_U16S_COL);
        let mut block_bytes = [0u32; 136];
        read_array(&mut block_bytes, row, BLOCK_BYTES_COL);
        let mut xored_rate_u16s = [0u32; 68];
        read_array(&mut xored_rate_u16s, row, XORED_RATE_U16S_COL);
        let mut partial_updated_state_u16s = [0u32; 84];
        read_array(&mut partial_updated_state_u16s, row, PARTIAL_UPDATED_STATE_U16S_COL);
        let mut updated_digest_state_bytes = [0u32; 32];
        read_array(&mut updated_digest_state_bytes, row, UPDATED_DIGEST_STATE_BYTES_COL);
        let r = KeccakSpongeCols {
            timestamp: row[TIMESTAMP_COL],
            base_addr: row[BASE_ADDR_COL],
            is_full_input_block: row[IS_FULL_INPUT_BLOCK_COL],
            already_absorbed_bytes: row[ALREADY_ABSORBED_BYTES_COL],
            is_padding_byte,
            original_rate_u16s,
            original_capacity_u16s,
            block_bytes,
            xored_rate_u16s,
            partial_updated_state_u16s,
            updated_digest_state_bytes,
        };
        assert(sponge_row_values(r) =~= row@);
        r
    }
}

/// A row is determined by its values.
pub proof fn lemma_sponge_row_values_injective(a: KeccakSpongeCols<u32>, b: KeccakSpongeCols<u32>)
    requires
        sponge_row_values(a) == sponge_row_values(b),
    ensures
        a == b,
{
    let va = sponge_row_values(a);
    let vb = sponge_row_values(b);
    assert(va[0] == vb[0] && va[1] == vb[1] && va[2] == vb[2] && va[3] == vb[3]);
    assert forall|i: int| 0 <= i < 136 implies a.is_padding_byte[i] == b.is_padding_byte[i] && a.block_bytes[i]
        == b.block_bytes[i] by {
        assert(va[4 + i] == vb[4 + i]);
        assert(va[240 + i] == vb[240 + i]);
    }
    assert forall|i: int| 0 <= i < 68 implies a.original_rate_u16s[i] == b.original_rate_u16s[i]
        && a.xored_rate_u16s[i] == b.xored_rate_u16s[i] by {
        assert(va[140 + i] == vb[140 + i]);
        assert(va[376 + i] == vb[376 + i]);
    }
    assert forall|i: int| 0 <= i < 32 implies a.original_capacity_u16s[i] == b.original_capacity_u16s[i]
        && a.updated_digest_state_bytes[i] == b.updated_digest_state_bytes[i] by {
        assert(va[208 + i] == vb[208 + i]);
        assert(va[528 + i] == vb[528 + i]);
    }
    assert forall|i: int| 0 <= i < 84 implies a.partial_updated_state_u16s[i] == b.partial_updated_state_u16s[i] by {
        assert(va[444 + i] == vb[444 + i]);
    }
    assert(a.is_padding_byte =~= b.is_padding_byte);
    assert(a.block_bytes =~= b.block_bytes);
    assert(a.original_rate_u16s =~= b.original_rate_u16s);
    assert(a.xored_rate_u16s =~= b.xored_rate_u16s);
    assert(a.original_capacity_u16s =~= b.original_capacity_u16s);
    assert(a.updated_digest_state_bytes =~= b.updated_digest_state_bytes);
    assert(a.partial_updated_state_u16s =~= b.partial_updated_state_u16s);
}

impl Rap for KeccakSpongeChip {
    open spec fn spec_width(&self) -> nat {
        NUM_KECCAK_SPONGE_COLS as nat
    }

    open spec fn spec_preprocessed_width(&self) -> nat {
        0
    }

    /// Degree three: the largest constraints are products of three factors,
    /// each of degree one in the trace values.
    open spec fn spec_constraint_degree(&self) -> nat {
        3
    }

    /// The sponge constraints on the rows whose values these are.
    open spec fn spec_air_constraints(
        &self,
        preprocessed_local: Seq<u32>,
        preprocessed_next: Seq<u32>,
        local: Seq<u32>,
        next: Seq<u32>,
        is_first_row: bool,
        is_last_row: bool,
        is_transition: bool,
    ) -> bool {
        forall|l: KeccakSpongeCols<u32>, n: KeccakSpongeCols<u32>|
            sponge_row_values(l) == local && sponge_row_values(n) == next ==> #[trigger] sponge_constraints(
                l,
                n,
                is_first_row,
            )
    }

    fn width(&self) -> (r: usize) {
        NUM_KECCAK_SPONGE_COLS
    }

    fn preprocessed_width(&self) -> (r: usize) {
        0
    }

    fn constraint_degree(&self) -> (r: usize) {
        3
    }

    fn eval(
        &self,
        preprocessed_local: &[u32],
        preprocessed_next: &[u32],
        local: &[u32],
        next: &[u32],
        is_first_row: bool,
        is_last_row: bool,
        is_transition: bool,
    ) -> (r: bool) {
        let l = KeccakSpongeCols::from_row(local);
        let n = KeccakSpongeCols::from_row(next);
        proof {
            lemma_sponge_row_canonical(l);
            lemma_sponge_row_canonical(n);
        }
        let r = self.eval_cols(&l, &n, is_first_row);
        proof {
            assert forall|a: KeccakSpongeCols<u32>, b: KeccakSpongeCols<u32>|
                sponge_row_values(a) == local@ && sponge_row_values(b) == next@ implies #[trigger] sponge_constraints(
                a,
                b,
                is_first_row,
            ) == r by {
                lemma_sponge_row_values_injective(a, l);
                lemma_sponge_row_values_injective(b, n);
            }
        }
        r
    }
}

impl MachineChip for KeccakSpongeChip {}

/// A row whose values are canonical is canonical.
proof fn lemma_sponge_row_canonical(row: KeccakSpongeCols<u32>)
    requires
        row_canonical(sponge_row_values(row)),
    ensures
        sponge_row_canonical(row),
{
    let v = sponge_row_values(row);
    assert(v[2] < P && v[3] < P);
    assert forall|i: int| 0 <= i < 136 implies #[trigger] row.is_padding_byte[i] < P by {
        assert(v[4 + i] < P);
    }
    assert forall|i: int| 0 <= i < 136 implies #[trigger] row.block_bytes[i] < P by {
        assert(v[240 + i] < P);
    }
    assert forall|i: int| 0 <= i < 68 implies #[trigger] row.original_rate_u16s[i] < P by {
        assert(v[140 + i] < P);
    }
    assert forall|i: int| 0 <= i < 32 implies #[trigger] row.original_capacity_u16s[i] < P by {
        assert(v[208 + i] < P);
    }
    assert forall|i: int| 0 <= i < 32 implies #[trigger] row.updated_digest_state_bytes[i] < P by {
        assert(v[528 + i] < P);
    }
    assert forall|i: int| 0 <= i < 84 implies #[trigger] row.partial_updated_state_u16s[i] < P by {
        assert(v[444 + i] < P);
    }
    assert(v[0] < P && v[1] < P);
}

/// After a full input block the sponge continues from the permuted state:
/// on a row whose block is full, the constraints force the next row's
/// original state to be this row's updated state (the digest limbs made of
/// their two bytes, then the other limbs) and the next row to have absorbed
/// 136 bytes more, in the field.
pub proof fn sponge_full_block_chains(l: KeccakSpongeCols<u32>, n: KeccakSpongeCols<u32>, is_first_row: bool)
    requires
        sponge_constraints(l, n, is_first_row),
        l.is_full_input_block == 1,
    ensures
        forall|i: int|
            0 <= i < 16 ==> fz(
                #[trigger] n.original_rate_u16s[i] - (l.updated_digest_state_bytes[2 * i] + 256
                    * l.updated_digest_state_bytes[2 * i + 1]),
            ),
        forall|i: int|
            0 <= i < 52 ==> fz(n.original_rate_u16s[16 + i] - #[trigger] l.partial_updated_state_u16s[i]),
        forall|i: int|
            0 <= i < 32 ==> fz(#[trigger] n.original_capacity_u16s[i] - l.partial_updated_state_u16s[52 + i]),
        fz(n.already_absorbed_bytes - l.already_absorbed_bytes - 136),
{
    assert forall|i: int|
        0 <= i < 16 implies fz(
        #[trigger] n.original_rate_u16s[i] - (l.updated_digest_state_bytes[2 * i] + 256
            * l.updated_digest_state_bytes[2 * i + 1]),
    ) by {
        assert(fz(
            l.is_full_input_block * (n.original_rate_u16s[i] - (l.updated_digest_state_bytes[2 * i] + 256
                * l.updated_digest_state_bytes[2 * i + 1])),
        ));
    }
    assert forall|i: int| 0 <= i < 52 implies fz(n.original_rate_u16s[16 + i] - #[trigger] l.partial_updated_state_u16s[i]) by {
        assert(fz(l.is_full_input_block * (n.original_rate_u16s[16 + i] - l.partial_updated_state_u16s[i])));
    }
    assert forall|i: int| 0 <= i < 32 implies fz(#[trigger] n.original_capacity_u16s[i] - l.partial_updated_state_u16s[52 + i]) by {
        assert(fz(l.is_full_input_block * (n.original_capacity_u16s[i] - l.partial_updated_state_u16s[52 + i])));
    }
    assert(fz(l.is_full_input_block * (l.already_absorbed_bytes + 136 - n.already_absorbed_bytes)));
    assert(fz(l.already_absorbed_bytes + 136 - n.already_absorbed_bytes));
    assert((n.already_absorbed_bytes - l.already_absorbed_bytes - 136) == -(l.already_absorbed_bytes + 136
        - n.already_absorbed_bytes));
    lemma_fz_neg(l.already_absorbed_bytes + 136 - n.already_absorbed_bytes);
}

/// A value and its negation vanish together in the field.
proof fn lemma_fz_neg(x: int)
    requires
        fz(x),
    ensures
        fz(-x),
{
    let q = x / (P as int);
    assert(x == q * (P as int)) by {
        vstd::arithmetic::div_mod::lemma_fundamental_div_mod(x, P as int);
    }
    assert(-x == (-q) * (P as int)) by (nonlinear_arith)
        requires
            x == q * (P as int),
    ;
    vstd::arithmetic::div_mod::lemma_mod_multiples_basic(-q, P as int);
}

/// The memory read of block byte `i` that a sponge row receives is the
/// access `(timestamp, base_addr + already_absorbed_bytes + i, byte i of the
/// block)` on the memory bus: each block reads the bytes after those already
/// absorbed.
pub proof fn sponge_memory_read_message(chip: KeccakSpongeChip, row: KeccakSpongeCols<u32>, i: int)
    requires
        0 <= i < 136,
    ensures
        ({
            let msg = chip.spec_receives()[i];
            let values = sponge_row_values(row);
            &&& msg.argument_index == chip.bus_memory
            &&& msg.fields.len() == 3
            &&& vpc_eval(msg.fields[0], seq![], values) == (row.timestamp as int) % (P as int)
            &&& vpc_eval(msg.fields[1], seq![], values) == (row.base_addr + row.already_absorbed_bytes + i) % (
            P as int)
            &&& vpc_eval(msg.fields[2], seq![], values) == (row.block_bytes[i] as int) % (P as int)
            &&& vpc_eval(msg.count, seq![], values) == if i == 135 {
                (row.is_full_input_block as int) % (P as int)
            } else {
                (row.is_full_input_block + row.is_padding_byte[135] - row.is_padding_byte[i]) % (P as int)
            }
        }),
{
    let msg = chip.spec_receives()[i];
    let values = sponge_row_values(row);
    assert(msg == sponge_memory_read(i, chip.bus_memory));
    lemma_single_main_eval(0, values);
    lemma_single_main_eval((240 + i) as usize, values);
    let w1 = msg.fields[1].weights;
    assert(w1.drop_last().drop_last() =~= Seq::<(PairCol, u32)>::empty());
    lemma_weighted_sum_last(w1.drop_last(), values, 1, 1, 0);
    lemma_weighted_sum_last(w1, values, 3, 1, row.base_addr as int);
    let wc = msg.count.weights;
    assert(values[2] == row.is_full_input_block && values[139] == row.is_padding_byte[135]);
    assert(values[4 + i] == row.is_padding_byte[i]);
    if i == 135 {
        lemma_single_main_eval(2, values);
    } else {
        let pad = row.is_padding_byte[i] as int;
        assert(wc.drop_last().drop_last().drop_last() =~= Seq::<(PairCol, u32)>::empty());
        lemma_weighted_sum_last(wc.drop_last().drop_last(), values, 2, 1, 0);
        lemma_weighted_sum_last(wc.drop_last(), values, 139, 1, row.is_full_input_block as int);
        lemma_weighted_sum_last(
            wc,
            values,
            (4 + i) as usize,
            P - 1,
            row.is_full_input_block + row.is_padding_byte[135],
        );
        let total = weighted_sum(wc, seq![], values);
        assert(total == (row.is_full_input_block + row.is_padding_byte[135] - pad) + pad * (P as int)) by (
        nonlinear_arith)
            requires
                total == row.is_full_input_block + row.is_padding_byte[135] + (P - 1) * pad,
        ;
        vstd::arithmetic::div_mod::lemma_mod_multiples_vanish(
            pad,
            row.is_full_input_block + row.is_padding_byte[135] - pad,
            P as int,
        );
    }
}

/// On the row of block `k` of an input read at `timestamp` from `addr`, the
/// memory read of block byte `i` is the access of input byte `136 * k + i`:
/// at that timestamp, at address `addr + 136 * k + i`, with that byte's
/// value. It counts once when that byte is part of the input and not at all
/// when it is padding, so each input byte is read exactly once, from its own
/// address.
pub proof fn sponge_row_reads_input_byte(
    chip: KeccakSpongeChip,
    row: KeccakSpongeCols<u32>,
    timestamp: u32,
    addr: u32,
    input: Seq<u8>,
    k: int,
    i: int,
)
    requires
        sponge_row_of(row, timestamp, addr, input, k),
        0 <= k <= num_full_blocks(input),
        0 <= i < 136,
    ensures
        ({
            let msg = chip.spec_receives()[i];
            let values = sponge_row_values(row);
            let pos = 136 * k + i;
            &&& msg.argument_index == chip.bus_memory
            &&& msg.fields.len() == 3
            &&& vpc_eval(msg.fields[0], seq![], values) == (timestamp as int) % (P as int)
            &&& vpc_eval(msg.fields[1], seq![], values) == (addr + pos) % (P as int)
            &&& pos < input.len() ==> vpc_eval(msg.fields[2], seq![], values) == input[pos] as int
            &&& vpc_eval(msg.count, seq![], values) == if pos < input.len() {
                1int
            } else {
                0int
            }
        }),
{
    sponge_memory_read_message(chip, row, i);
    let full = num_full_blocks(input);
    let rest = input.len() % 136;
    assert(input.len() == 136 * full + rest);
    assert(row.is_padding_byte[135] == if k == full { 1u32 } else { 0u32 });
    assert(row.is_padding_byte[i] == if k == full && i >= rest { 1u32 } else { 0u32 });
    assert(row.block_bytes[i] == sponge_block(input, k)[i]);
    if k < full {
        assert(136 * k + i < input.len()) by (nonlinear_arith)
            requires
                k < full,
                0 <= i < 136,
                input.len() == 136 * full + rest,
                rest >= 0,
        ;
        assert(full_block(input, k)[i] == input[136 * k + i]);
    } else {
        assert(final_block(input)[i] == if i < rest { input[136 * k + i] } else { final_block(input)[i] });
    }
    assert((row.block_bytes[i] as int) < P);
}

/// After a final block the next input starts afresh: the constraints force
/// the next row to have absorbed nothing and to start from the zero state.
pub proof fn sponge_final_block_resets(l: KeccakSpongeCols<u32>, n: KeccakSpongeCols<u32>, is_first_row: bool)
    requires
        sponge_constraints(l, n, is_first_row),
        l.is_padding_byte[135] == 1,
    ensures
        fz(n.already_absorbed_bytes as int),
        forall|i: int| 0 <= i < 68 ==> fz(#[trigger] n.original_rate_u16s[i] as int),
        forall|i: int| 0 <= i < 32 ==> fz(#[trigger] n.original_capacity_u16s[i] as int),
{
    assert forall|i: int| 0 <= i < 68 implies fz(#[trigger] n.original_rate_u16s[i] as int) by {
        assert(fz(l.is_padding_byte[135] * n.original_rate_u16s[i]));
    }
    assert forall|i: int| 0 <= i < 32 implies fz(#[trigger] n.original_capacity_u16s[i] as int) by {
        assert(fz(l.is_padding_byte[135] * n.original_capacity_u16s[i]));
    }
}

/// The first row starts the first input: nothing absorbed and the zero
/// state.
pub proof fn sponge_first_row_starts_empty(l: KeccakSpongeCols<u32>, n: KeccakSpongeCols<u32>)
    requires
        sponge_constraints(l, n, true),
    ensures
        fz(l.already_absorbed_bytes as int),
        forall|i: int| 0 <= i < 68 ==> fz(#[trigger] l.original_rate_u16s[i] as int),
        forall|i: int| 0 <= i < 32 ==> fz(#[trigger] l.original_capacity_u16s[i] as int),
{
}

/// The count of a sponge row's messages: one on a full or a final block.
proof fn lemma_sponge_is_real_eval(row: KeccakSpongeCols<u32>)
    ensures
        vpc_eval(sponge_is_real_spec(), seq![], sponge_row_values(row)) == (row.is_padding_byte[135]
            + row.is_full_input_block) % (P as int),
{
    let values = sponge_row_values(row);
    let w = sponge_is_real_spec().weights;
    assert(w.drop_last().drop_last() =~= Seq::<(PairCol, u32)>::empty());
    assert(values[139] == row.is_padding_byte[135] && values[2] == row.is_full_input_block);
    lemma_weighted_sum_last(w.drop_last(), values, 139, 1, 0);
    lemma_weighted_sum_last(w, values, 2, 1, values[139] as int);
}

/// The xor messages of a sponge row: for each four block bytes, the word
/// they form goes to the xor chip with the two rate limbs it is xored with,
/// and the xored limbs come back; each counted once on a full or a final
/// block.
pub proof fn sponge_row_xor_messages(chip: KeccakSpongeChip, row: KeccakSpongeCols<u32>, k: int)
    requires
        0 <= k < 34,
    ensures
        ({
            let values = sponge_row_values(row);
            let sent = chip.spec_sends()[k];
            let received = chip.spec_receives()[136 + k];
            let live = (row.is_padding_byte[135] + row.is_full_input_block) % (P as int);
            &&& sent.argument_index == chip.bus_xor_input
            &&& received.argument_index == chip.bus_xor_output
            &&& sent.fields.len() == 2 && received.fields.len() == 1
            &&& vpc_eval(sent.count, seq![], values) == live
            &&& vpc_eval(received.count, seq![], values) == live
            &&& vpc_eval(sent.fields[0], seq![], values) == (row.block_bytes[4 * k] + 256 * row.block_bytes[4 * k
                + 1] + 65536 * row.block_bytes[4 * k + 2] + 16777216 * row.block_bytes[4 * k + 3]) % (P as int)
            &&& vpc_eval(sent.fields[1], seq![], values) == (row.original_rate_u16s[2 * k] + 65536
                * row.original_rate_u16s[2 * k + 1]) % (P as int)
            &&& vpc_eval(received.fields[0], seq![], values) == (row.xored_rate_u16s[2 * k] + 65536
                * row.xored_rate_u16s[2 * k + 1]) % (P as int)
        }),
{
    let values = sponge_row_values(row);
    lemma_sponge_is_real_eval(row);
    lemma_packed4_eval((240 + 4 * k) as usize, values);
    assert(values[240 + 4 * k] == row.block_bytes[4 * k]);
    assert(values[240 + 4 * k + 1] == row.block_bytes[4 * k + 1]);
    assert(values[240 + 4 * k + 2] == row.block_bytes[4 * k + 2]);
    assert(values[240 + 4 * k + 3] == row.block_bytes[4 * k + 3]);
    lemma_packed2_eval((140 + 2 * k) as usize, 16, values);
    lemma_packed2_eval((376 + 2 * k) as usize, 16, values);
    crate::interaction::lemma_power2_shift(16);
    assert((1u32 << 16u32) == 65536) by (bit_vector);
    assert(values[140 + 2 * k] == row.original_rate_u16s[2 * k]);
    assert(values[140 + 2 * k + 1] == row.original_rate_u16s[2 * k + 1]);
    assert(values[376 + 2 * k] == row.xored_rate_u16s[2 * k]);
    assert(values[376 + 2 * k + 1] == row.xored_rate_u16s[2 * k + 1]);
}

/// The permutation messages of a sponge row: the state sent is the xored
/// rate followed by the original capacity, and the state received back is
/// the digest limbs, each made of its two bytes, followed by the other
/// updated limbs; each block byte is range-checked. All are counted once on
/// a full or a final block.
pub proof fn sponge_row_permutation_messages(chip: KeccakSpongeChip, row: KeccakSpongeCols<u32>)
    ensures
        ({
            let values = sponge_row_values(row);
            let sent = chip.spec_sends()[34];
            let received = chip.spec_receives()[170];
            let live = (row.is_padding_byte[135] + row.is_full_input_block) % (P as int);
            &&& sent.argument_index == chip.bus_keccak_permute_input
            &&& received.argument_index == chip.bus_keccak_permute_output
            &&& sent.fields.len() == 100 && received.fields.len() == 100
            &&& vpc_eval(sent.count, seq![], values) == live
            &&& vpc_eval(received.count, seq![], values) == live
            &&& forall|i: int|
                0 <= i < 68 ==> vpc_eval(#[trigger] sent.fields[i], seq![], values) == (row.xored_rate_u16s[i]
                    as int) % (P as int)
            &&& forall|i: int|
                0 <= i < 32 ==> vpc_eval(#[trigger] sent.fields[68 + i], seq![], values) == (
                row.original_capacity_u16s[i] as int) % (P as int)
            &&& forall|i: int|
                0 <= i < 16 ==> vpc_eval(#[trigger] received.fields[i], seq![], values) == (
                row.updated_digest_state_bytes[2 * i] + 256 * row.updated_digest_state_bytes[2 * i + 1]) % (
                P as int)
            &&& forall|i: int|
                0 <= i < 84 ==> vpc_eval(#[trigger] received.fields[16 + i], seq![], values) == (
                row.partial_updated_state_u16s[i] as int) % (P as int)
            &&& forall|i: int|
                0 <= i < 136 ==> {
                    &&& (#[trigger] chip.spec_sends()[35 + i]).argument_index == chip.bus_range_8
                    &&& chip.spec_sends()[35 + i].fields.len() == 1
                    &&& vpc_eval(chip.spec_sends()[35 + i].count, seq![], values) == live
                    &&& vpc_eval(chip.spec_sends()[35 + i].fields[0], seq![], values) == (row.block_bytes[i]
                        as int) % (P as int)
                }
        }),
{
    let values = sponge_row_values(row);
    let sent = chip.spec_sends()[34];
    let received = chip.spec_receives()[170];
    lemma_sponge_is_real_eval(row);
    assert forall|i: int| 0 <= i < 68 implies vpc_eval(#[trigger] sent.fields[i], seq![], values) == (
    row.xored_rate_u16s[i] as int) % (P as int) by {
        lemma_single_main_eval((376 + i) as usize, values);
    }
    assert forall|i: int| 0 <= i < 32 implies vpc_eval(#[trigger] sent.fields[68 + i], seq![], values) == (
    row.original_capacity_u16s[i] as int) % (P as int) by {
        lemma_single_main_eval((208 + i) as usize, values);
    }
    crate::interaction::lemma_power2_shift(8);
    assert((1u32 << 8u32) == 256) by (bit_vector);
    assert forall|i: int| 0 <= i < 16 implies vpc_eval(#[trigger] received.fields[i], seq![], values) == (
    row.updated_digest_state_bytes[2 * i] + 256 * row.updated_digest_state_bytes[2 * i + 1]) % (P as int) by {
        lemma_packed2_eval((528 + 2 * i) as usize, 8, values);
        assert(values[528 + 2 * i] == row.updated_digest_state_bytes[2 * i]);
        assert(values[528 + 2 * i + 1] == row.updated_digest_state_bytes[2 * i + 1]);
    }
    assert forall|i: int| 0 <= i < 84 implies vpc_eval(#[trigger] received.fields[16 + i], seq![], values) == (
    row.partial_updated_state_u16s[i] as int) % (P as int) by {
        lemma_single_main_eval((444 + i) as usize, values);
    }
    assert forall|i: int| 0 <= i < 136 implies vpc_eval(
        (#[trigger] chip.spec_sends()[35 + i]).fields[0],
        seq![],
        values,
    ) == (row.block_bytes[i] as int) % (P as int) by {
        lemma_single_main_eval((240 + i) as usize, values);
    }
}

} // verus!
