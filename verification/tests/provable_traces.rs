//! Traces of each chip on the inputs its proving round uses, checked against
//! the chip's AIR and permutation constraints.

use keccak_machine::check_constraints::check_constraints;
use keccak_machine::chip::Rap;
use keccak_machine::machine::{ChipType, Machine};
use keccak_machine::trace::{MachineTrace, MachineTraceBuilder};
use keccak_machine::field::P;
use keccak_machine::keccak_sponge::{KeccakSpongeChip, KeccakSpongeOp};
use keccak_machine::memory::{MemoryChip, MemoryOp, OperationKind};
use keccak_machine::merkle_tree::{compress, MerkleTreeChip};
use keccak_machine::permutation::{eval_permutation_constraints, generate_permutation_trace};
use keccak_machine::permutation_air::PermutationAir;
use keccak_machine::range_checker::RangeCheckerChip;
use std::collections::BTreeMap;

/// A reproducible stream of pseudo-random bytes.
struct Bytes(u64);

impl Bytes {
    fn next(&mut self) -> u8 {
        self.0 ^= self.0 << 13;
        self.0 ^= self.0 >> 7;
        self.0 ^= self.0 << 17;
        (self.0 >> 24) as u8
    }

    fn digest(&mut self) -> [u8; 32] {
        let mut d = [0u8; 32];
        for b in d.iter_mut() {
            *b = self.next();
        }
        d
    }
}

const CHALLENGES: [[u32; 4]; 2] = [[0x1234_5678, 3, 5, 7], [0x0765_4321, 11, 13, 17]];

/// Checks the permutation constraints of every row of a trace.
fn permutation_holds<C: PermutationAir>(chip: &C, main: &Vec<Vec<u32>>, pre: Option<&Vec<Vec<u32>>>) -> bool {
    let challenges = CHALLENGES.to_vec();
    let perm = generate_permutation_trace(chip, main, pre, &challenges).unwrap();
    let n = perm.len();
    let width = perm[0].len();
    let cumulative_sum = perm[n - 1][width - 1];
    let empty: Vec<u32> = vec![];
    (0..n).all(|i| {
        let next = (i + 1) % n;
        let (pl, pn) = match pre {
            Some(p) => (p[i].as_slice(), p[next].as_slice()),
            None => (empty.as_slice(), empty.as_slice()),
        };
        eval_permutation_constraints(
            chip,
            pl,
            pn,
            &main[i],
            &main[next],
            &perm[i],
            &perm[next],
            &challenges,
            cumulative_sum,
            i == 0,
            i == n - 1,
            i != n - 1,
        )
    })
}

fn generate_digests(leaf_hashes: Vec<[u8; 32]>) -> Vec<Vec<[u8; 32]>> {
    let mut digests = vec![leaf_hashes];
    while digests.last().unwrap().len() > 1 {
        let last = digests.last().unwrap();
        let next = last.chunks_exact(2).map(|c| compress(&c[0], &c[1])).collect();
        digests.push(next);
    }
    digests
}

#[test]
fn test_merkle_tree_prove() {
    const HEIGHT: usize = 3;
    let mut bytes = Bytes(42);
    let leaf_hashes = (0..1usize << HEIGHT).map(|_| bytes.digest()).collect();
    let digests = generate_digests(leaf_hashes);
    let leaf_index = 0;
    let leaf = digests[0][leaf_index];
    let height = digests.len() - 1;
    let siblings: Vec<[u8; 32]> = (0..height).map(|i| digests[i][(leaf_index >> i) ^ 1]).collect();
    let chip = MerkleTreeChip {
        leaves: vec![leaf],
        leaf_indices: vec![leaf_index],
        siblings: vec![siblings],
        bus_keccak_permute_input: 0,
        bus_keccak_digest_output: 2,
    };
    let rows = chip.generate_trace();
    assert_eq!(rows.len(), 4);
    // The last compression gives the root.
    let root = digests[height][0];
    let out = rows[height - 1].output;
    for i in 0..4 {
        for j in 0..4 {
            assert_eq!(out[i][j], root[8 * i + 2 * j] as u32 + 256 * root[8 * i + 2 * j + 1] as u32);
        }
    }
    let main: Vec<Vec<u32>> = rows.iter().map(|r| r.to_row()).collect();
    let n = main.len();
    for i in 0..n {
        assert!(Rap::eval(&chip, &[], &[], &main[i], &main[(i + 1) % n], i == 0, i == n - 1, i != n - 1));
    }
    assert!(permutation_holds(&chip, &main, None));
}

#[test]
fn test_memory_prove() {
    const NUM_BYTES: usize = 400;
    let mut bytes = Bytes(7);
    let chip = MemoryChip {
        operations: (0..NUM_BYTES)
            .map(|i| MemoryOp { addr: i as u32, timestamp: i as u32, value: bytes.next(), kind: OperationKind::Read })
            .collect(),
        bus_memory: 6,
        bus_range_8: 3,
    };
    let rows = chip.generate_trace();
    assert_eq!(rows.len(), 512);
    let main: Vec<Vec<u32>> = rows.iter().map(|r| r.to_row()).collect();
    assert!(main.iter().all(|r| r.iter().all(|&v| v < P)));
    assert!(permutation_holds(&chip, &main, None));
    // The memory AIR holds too, and with the permutation trace built from
    // the main trace, so does every constraint.
    let challenges = CHALLENGES.to_vec();
    assert!(check_constraints(&chip, None, &main, None, &challenges, None));
    let perm = generate_permutation_trace(&chip, &main, None, &challenges).unwrap();
    let cumulative_sum = perm[perm.len() - 1][perm[0].len() - 1];
    assert!(check_constraints(&chip, None, &main, Some(&perm), &challenges, Some(cumulative_sum)));
}

#[test]
fn test_range_prove() {
    const NUM: usize = 400;
    let mut bytes = Bytes(99);
    let mut count = BTreeMap::new();
    for _ in 0..NUM {
        count.entry(bytes.next() as u32).and_modify(|c| *c += 1).or_insert(1);
    }
    let rows = RangeCheckerChip::<256>::generate_trace(count.clone());
    assert_eq!(rows.len(), 256);
    assert_eq!(rows.iter().map(|r| r.mult as usize).sum::<usize>(), NUM);
    for (&value, &c) in count.iter() {
        assert_eq!(rows[value as usize].mult, c);
    }
    let chip = RangeCheckerChip::<256> { bus_range_8: 3 };
    let main: Vec<Vec<u32>> = rows.iter().map(|r| r.to_row()).collect();
    let pre: Vec<Vec<u32>> = chip.preprocessed_trace().iter().map(|r| r.to_row()).collect();
    assert!(permutation_holds(&chip, &main, Some(&pre)));
}

#[test]
fn test_keccak_sponge_prove() {
    const NUM_BYTES: usize = 400;
    let mut bytes = Bytes(1234);
    let op = KeccakSpongeOp { timestamp: 0, addr: 0, input: (0..NUM_BYTES).map(|_| bytes.next()).collect() };
    let chip = KeccakSpongeChip {
        inputs: vec![op],
        bus_xor_input: 4,
        bus_keccak_permute_input: 0,
        bus_range_8: 3,
        bus_memory: 6,
        bus_xor_output: 5,
        bus_keccak_permute_output: 1,
    };
    let rows = chip.generate_trace();
    // Two full blocks and the final block, padded to four rows.
    assert_eq!(rows.len(), 4);
    assert_eq!(rows[0].is_full_input_block, 1);
    assert_eq!(rows[1].is_full_input_block, 1);
    assert_eq!(rows[2].is_full_input_block, 0);
    assert_eq!(rows[2].already_absorbed_bytes, 272);
    let main: Vec<Vec<u32>> = rows.iter().map(|r| r.to_row()).collect();
    let n = main.len();
    for i in 0..n {
        assert!(Rap::eval(&chip, &[], &[], &main[i], &main[(i + 1) % n], i == 0, i == n - 1, i != n - 1));
    }
    assert!(permutation_holds(&chip, &main, None));
}

/// The permutation trace of a chip under the fixed challenges.
fn perm_of<C: PermutationAir>(chip: &C, main: &Vec<Vec<u32>>, pre: Option<&Vec<Vec<u32>>>) -> Vec<Vec<[u32; 4]>> {
    generate_permutation_trace(chip, main, pre, &CHALLENGES.to_vec()).unwrap()
}

fn memory_and_range_sums(read_value: u8) -> bool {
    let memory = MemoryChip {
        operations: vec![
            MemoryOp { addr: 5, timestamp: 1, value: 9, kind: OperationKind::Write },
            MemoryOp { addr: 5, timestamp: 1, value: read_value, kind: OperationKind::Read },
        ],
        bus_memory: 6,
        bus_range_8: 3,
    };
    let memory_main: Vec<Vec<u32>> = memory.generate_trace().iter().map(|r| r.to_row()).collect();
    // Two real rows, each checking three zero limbs.
    let mut count = BTreeMap::new();
    count.insert(0u32, 6u32);
    let range = RangeCheckerChip::<256> { bus_range_8: 3 };
    let range_main: Vec<Vec<u32>> =
        RangeCheckerChip::<256>::generate_trace(count).iter().map(|r| r.to_row()).collect();
    let range_pre: Vec<Vec<u32>> = range.preprocessed_trace().iter().map(|r| r.to_row()).collect();
    let perms = vec![
        Some(perm_of(&memory, &memory_main, None)),
        Some(perm_of(&range, &range_main, Some(&range_pre))),
    ];
    keccak_machine::check_constraints::check_cumulative_sums(&perms)
}

#[test]
fn balanced_buses_cancel_on_memory_and_range() {
    // The read matches the write and the range checker counts every limb.
    assert!(memory_and_range_sums(9));
    // A read of another value is sent without being received.
    assert!(!memory_and_range_sums(8));
}

#[test]
fn xor_rows_and_their_messages() {
    let chip = keccak_machine::xor::XorChip { bus_xor_input: 4, bus_xor_output: 5 };
    let rows = keccak_machine::xor::XorChip::generate_trace(vec![([0x12, 0x34, 0x56, 0x78], [0xff, 0x00, 0xf0, 0x0f])]);
    let main: Vec<Vec<u32>> = rows.iter().map(|r| r.to_row()).collect();
    assert_eq!(main[0].len(), 77);
    assert_eq!(main[0][0], 1);
    assert_eq!(&main[0][1..5], &[0x12, 0x34, 0x56, 0x78]);
    assert_eq!(&main[0][73..77], &[0xed, 0x34, 0xa6, 0x77]);
    // The bits of 0x12, least significant first.
    assert_eq!(&main[0][9..17], &[0, 1, 0, 0, 1, 0, 0, 0]);
    assert!(permutation_holds(&chip, &main, None));
}

#[test]
fn test_machine_prove() {
    const HEIGHT: usize = 3;
    let mut bytes = Bytes(2024);
    let leaf_hashes = (0..1usize << HEIGHT).map(|_| bytes.digest()).collect();
    let digests = generate_digests(leaf_hashes);
    let leaf_index = 0;
    let machine = Machine::new(digests.clone(), leaf_index);
    // The permutation chip compresses each pair on the path, as digests.
    match &machine.keccak_permute_chip {
        ChipType::KeccakPermute(c) => {
            assert_eq!(c.inputs.len(), HEIGHT);
            assert!(c.inputs.iter().all(|(_, is_digest)| *is_digest));
            let (input, _) = c.inputs[0];
            let left = digests[0][0];
            assert_eq!(input[0], u64::from_le_bytes(left[0..8].try_into().unwrap()));
            assert!(input[8..].iter().all(|&lane| lane == 0));
        }
        _ => panic!("the permutation chip is in its place"),
    }
    let chip = match &machine.merkle_tree_chip {
        ChipType::MerkleTree(c) => c.clone(),
        _ => panic!("the Merkle tree chip is in its place"),
    };
    let rows = chip.generate_trace();
    let root = digests[HEIGHT][0];
    let out = rows[HEIGHT - 1].output;
    assert_eq!(out[0][0], root[0] as u32 + 256 * root[1] as u32);
    let main: Vec<Vec<u32>> = rows.iter().map(|r| r.to_row()).collect();
    let mut trace: MachineTrace<MerkleTreeChip> = MachineTrace::new(&[chip]);
    trace.load_main(vec![Some(main.clone())]);
    let challenges = CHALLENGES.to_vec();
    trace.generate_permutation(&challenges);
    let perm = trace.chips[0].permutation.as_ref().unwrap();
    assert!(check_constraints(
        &trace.chips[0].chip,
        None,
        &main,
        Some(&perm.trace.value),
        &challenges,
        trace.chips[0].cumulative_sum,
    ));
}
