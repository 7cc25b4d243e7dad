use keccak_machine::ext::{batch_multiplicative_inverse_ext_allowing_zero, e_mul};
use keccak_machine::field::{f_add, f_mul, f_sub, powers, P};
use p3_field::{BasedVectorSpace, PrimeField32};

type Ext = p3_field::extension::BinomialExtensionField<p3_baby_bear::BabyBear, 4>;
use keccak_machine::keccak_sponge::keccakf_u16s;
use keccak_machine::machine::{ChipType, KeccakMachine, KeccakMachineBus, KeccakMachineChip, Machine};
use keccak_machine::memory::{MemoryChip, MemoryOp, OperationKind};
use keccak_machine::merkle_tree::{compress, MerkleTreeChip};
use keccak_machine::check_constraints::check_cumulative_sums;
use keccak_machine::permutation::{eval_permutation_constraints, generate_permutation_trace};
use keccak_machine::range_checker::RangeCheckerChip;
use keccak_machine::util::{batch_multiplicative_inverse_allowing_zero, next_power_of_two};
use keccak_machine::xor::XorChip;
use std::collections::BTreeMap;

#[test]
fn field_operations_wrap_around_the_prime() {
    assert_eq!(P, 0x7800_0001);
    assert_eq!(f_add(P - 1, 1), 0);
    assert_eq!(f_add(5, 7), 12);
    assert_eq!(f_sub(0, 1), P - 1);
    assert_eq!(f_mul(2, P - 1), P - 2);
    assert_eq!(f_mul(1 << 16, 1 << 16), ((1u64 << 32) % P as u64) as u32);
}

#[test]
fn powers_of_an_element() {
    assert_eq!(powers(3, 0, 4), vec![1, 3, 9, 27]);
    assert_eq!(powers(3, 1, 3), vec![3, 9, 27]);
}

#[test]
fn next_power_of_two_rounds_up() {
    assert_eq!(next_power_of_two(0), 1);
    assert_eq!(next_power_of_two(1), 1);
    assert_eq!(next_power_of_two(5), 8);
    assert_eq!(next_power_of_two(8), 8);
}

#[test]
fn batch_inverse_keeps_zero() {
    let values = vec![0, 1, 2, P - 1, 12345];
    let inv = batch_multiplicative_inverse_allowing_zero(values.clone());
    assert_eq!(inv.len(), values.len());
    assert_eq!(inv[0], 0);
    for k in 1..values.len() {
        assert_eq!((values[k] as u64 * inv[k] as u64) % P as u64, 1);
    }
    assert_eq!(inv[1], 1);
    assert_eq!(inv[3], P - 1);
}

#[test]
fn keccak_machine_buses() {
    assert_eq!(KeccakMachineBus::KeccakPermuteInput.index(), 0);
    assert_eq!(KeccakMachineBus::KeccakPermuteOutput.index(), 1);
    assert_eq!(KeccakMachineBus::KeccakPermuteDigest.index(), 2);
    assert_eq!(KeccakMachineBus::Range8.index(), 3);
    assert_eq!(KeccakMachineBus::XorInput.index(), 4);
    assert_eq!(KeccakMachineBus::XorOutput.index(), 5);
    assert_eq!(KeccakMachineBus::Memory.index(), 6);
    let machine = KeccakMachine::new();
    assert_eq!(machine.chips().len(), 6);
    match &machine.memory_chip {
        KeccakMachineChip::Memory(c) => {
            assert_eq!(c.bus_memory, 6);
            assert_eq!(c.bus_range_8, 3);
        }
        _ => panic!("the memory chip is in its place"),
    }
    match &machine.keccak_sponge_chip {
        KeccakMachineChip::KeccakSponge(c) => {
            assert_eq!(c.bus_xor_input, 4);
            assert_eq!(c.bus_keccak_permute_output, 1);
        }
        _ => panic!("the sponge chip is in its place"),
    }
}

#[test]
fn keccak_f_of_the_zero_state() {
    let out = keccakf_u16s(&[0u16; 100]);
    // The first lane of Keccak-f[1600] applied to the zero state.
    assert_eq!(out[0], 0xDDE7);
    assert_eq!(out[1], 0x40E1);
    assert_eq!(out[2], 0x8F79);
    assert_eq!(out[3], 0xF125);
}

#[test]
fn xor_trace_rows() {
    let rows = XorChip::generate_trace(vec![([1, 2, 3, 0xff], [3, 2, 1, 0x0f])]);
    assert_eq!(rows.len(), 1);
    assert_eq!(rows[0].is_real, 1);
    assert_eq!(rows[0].output, [2, 0, 2, 0xf0]);
    assert_eq!(rows[0].bits1[3], [1, 1, 1, 1, 1, 1, 1, 1]);
    assert_eq!(rows[0].bits2[0], [1, 1, 0, 0, 0, 0, 0, 0]);
    let rows = XorChip::generate_trace(vec![([0; 4], [0; 4]); 3]);
    assert_eq!(rows.len(), 4);
    assert_eq!(rows[3].is_real, 0);
}

#[test]
fn range_trace_counts_lookups() {
    let mut count = BTreeMap::new();
    count.insert(3u32, 7u32);
    count.insert(255u32, 1u32);
    let rows = RangeCheckerChip::<256>::generate_trace(count);
    assert_eq!(rows.len(), 256);
    assert_eq!(rows[3].mult, 7);
    assert_eq!(rows[255].mult, 1);
    assert_eq!(rows[0].mult, 0);
    let chip = RangeCheckerChip::<256> { bus_range_8: 3 };
    let pre = chip.preprocessed_trace();
    assert_eq!(pre.len(), 256);
    assert_eq!(pre[200].counter, 200);
}

fn memory_chip() -> MemoryChip {
    MemoryChip {
        operations: vec![
            MemoryOp { addr: 5, timestamp: 1, value: 9, kind: OperationKind::Write },
            MemoryOp { addr: 5, timestamp: 4, value: 9, kind: OperationKind::Read },
            MemoryOp { addr: 0x10203, timestamp: 2, value: 1, kind: OperationKind::Read },
        ],
        bus_memory: 6,
        bus_range_8: 3,
    }
}

#[test]
fn memory_trace_gap_limbs() {
    let rows = memory_chip().generate_trace();
    assert_eq!(rows.len(), 4);
    assert_eq!(rows[0].is_write, 1);
    assert_eq!(rows[1].is_read, 1);
    assert_eq!(rows[1].addr_unchanged, 1);
    assert_eq!(rows[1].diff_limb_lo, 3);
    // 0x10203 - 5 - 1 = 0x101fd
    assert_eq!(rows[2].addr_unchanged, 0);
    assert_eq!(rows[2].diff_limb_lo, 0xfd);
    assert_eq!(rows[2].diff_limb_md, 0x01);
    assert_eq!(rows[2].diff_limb_hi, 0x01);
    assert_eq!(rows[3].to_row(), vec![0; 9]);
}

#[test]
fn merkle_trace_of_one_path() {
    let leaf = [7u8; 32];
    let siblings = vec![[1u8; 32], [2u8; 32]];
    let level1 = compress(&[1u8; 32], &leaf);
    let root = compress(&level1, &[2u8; 32]);
    let chip = MerkleTreeChip {
        leaves: vec![leaf],
        leaf_indices: vec![1],
        siblings: vec![siblings],
        bus_keccak_permute_input: 0,
        bus_keccak_digest_output: 2,
    };
    let rows = chip.generate_trace();
    assert_eq!(rows.len(), 2);
    assert_eq!(rows[0].is_real, 1);
    assert_eq!(rows[0].parity_selector, 1);
    assert_eq!(rows[0].is_final_step, 0);
    assert_eq!(rows[1].parity_selector, 0);
    assert_eq!(rows[1].is_final_step, 1);
    assert_eq!(rows[0].output, rows[1].node);
    let out = rows[1].output;
    assert_eq!(out[0][0], root[0] as u32 + 256 * root[1] as u32);
    assert_eq!(out[3][3], root[30] as u32 + 256 * root[31] as u32);
    for r in 0..2 {
        let next = &rows[(r + 1) % 2];
        assert!(chip.eval_cols(&rows[r], next, r + 1 < 2));
    }
}

#[test]
fn compress_differs_from_its_inputs() {
    let a = [0u8; 32];
    let b = [0u8; 32];
    let c = compress(&a, &b);
    // Keccak-f of the zero state, first lane, little endian.
    assert_eq!(&c[0..8], &0xF1258F7940E1DDE7u64.to_le_bytes());
    assert_ne!(c, a);
}

#[test]
fn permutation_trace_of_memory() {
    let chip = memory_chip();
    let main: Vec<Vec<u32>> = chip.generate_trace().iter().map(|r| r.to_row()).collect();
    let random_elements = vec![[123456, 1, 2, 3], [987654, 4, 5, 6]];
    let perm = generate_permutation_trace(&chip, &main, None, &random_elements).unwrap();
    assert_eq!(perm.len(), main.len());
    assert_eq!(perm[0].len(), 6);
    let n = perm.len();
    let cumulative_sum = perm[n - 1][5];
    for i in 0..n {
        let next = (i + 1) % n;
        assert!(eval_permutation_constraints(
            &chip,
            &[],
            &[],
            &main[i],
            &main[next],
            &perm[i],
            &perm[next],
            &random_elements,
            cumulative_sum,
            i == 0,
            i == n - 1,
            i != n - 1,
        ));
    }
    // A wrong cumulative sum is caught on the last row.
    assert!(!eval_permutation_constraints(
        &chip,
        &[],
        &[],
        &main[n - 1],
        &main[0],
        &perm[n - 1],
        &perm[0],
        &random_elements,
        [f_add(cumulative_sum[0], 1), cumulative_sum[1], cumulative_sum[2], cumulative_sum[3]],
        false,
        true,
        false,
    ));
    assert_eq!(check_cumulative_sums(&vec![Some(perm.clone()), None]), cumulative_sum == [0; 4]);
    let mut negated = perm.clone();
    let last = negated.len() - 1;
    negated[last][5] = cumulative_sum.map(|c| f_sub(0, c));
    assert!(check_cumulative_sums(&vec![Some(perm), Some(negated)]));
}

#[test]
fn machine_path_of_a_leaf() {
    let leaves: Vec<[u8; 32]> = (0..4u8).map(|k| [k; 32]).collect();
    let level1 = vec![compress(&leaves[0], &leaves[1]), compress(&leaves[2], &leaves[3])];
    let root = vec![compress(&level1[0], &level1[1])];
    let machine = Machine::new(vec![leaves.clone(), level1.clone(), root.clone()], 2);
    assert_eq!(machine.chips().len(), 2);
    match &machine.merkle_tree_chip {
        ChipType::MerkleTree(c) => {
            assert_eq!(c.leaves, vec![leaves[2]]);
            assert_eq!(c.siblings, vec![vec![leaves[3], level1[0]]]);
            // Compressing up the path reaches the root.
            let rows = c.generate_trace();
            assert_eq!(rows.len(), 2);
            let out = rows[1].output;
            for i in 0..4 {
                for j in 0..4 {
                    let k = 8 * i + 2 * j;
                    assert_eq!(out[i][j], root[0][k] as u32 + 256 * root[0][k + 1] as u32);
                }
            }
        }
        _ => panic!("the Merkle tree chip is in its place"),
    }
}

#[test]
fn extension_products_reduce_x4_to_eleven() {
    // X * X^3 = X^4 = 11.
    assert_eq!(e_mul([0, 1, 0, 0], [0, 0, 0, 1]), [11, 0, 0, 0]);
    assert_eq!(e_mul([1, 0, 0, 0], [5, 6, 7, 8]), [5, 6, 7, 8]);
    // The same product as Plonky3's quartic extension of BabyBear.
    let a = [123456789, 2, P - 3, 44];
    let b = [7, P - 1, 987654321, 5];
    let to = |v: [u32; 4]| Ext::new(v.map(p3_baby_bear::BabyBear::new));
    let p = to(a) * to(b);
    let c = BasedVectorSpace::<p3_baby_bear::BabyBear>::as_basis_coefficients_slice(&p);
    let expected: Vec<u32> = c.iter().map(|x| x.as_canonical_u32()).collect();
    assert_eq!(e_mul(a, b).to_vec(), expected);
}

#[test]
fn extension_batch_inverse_keeps_zero() {
    let values = vec![[0; 4], [3, 1, 0, 0], [1, 0, 0, 0], [0, 0, 0, 2]];
    let inv = batch_multiplicative_inverse_ext_allowing_zero(values.clone());
    assert_eq!(inv[0], [0; 4]);
    assert_eq!(inv[2], [1, 0, 0, 0]);
    for k in 1..values.len() {
        assert_eq!(e_mul(values[k], inv[k]), [1, 0, 0, 0]);
    }
}
