use keccak_machine::check_constraints::{check_constraints, track_failing_constraints};
use keccak_machine::chip::get_quotient_degree;
use keccak_machine::merkle_tree::{compress, MerkleTreeChip};
use keccak_machine::trace::{
    generate_proofs, load_openings, load_traces, unflatten_openings, verify_cumulative_sums, verify_shapes, AdjacentOpenedValues,
    ChipTrace, ChipTraceOpening, IndexedTrace, InteractionAirProof, MachineTrace, MachineTraceBuilder, MachineTraceOpening,
    MachineTraceOpeningBuilder, OpenedValues, QuotientTraceOpening, SingleQuotientTraceOpening, Trace, TraceOpening,
    VerificationError,
};

fn merkle_chip() -> MerkleTreeChip {
    let leaf = [5u8; 32];
    let s0 = [6u8; 32];
    let s1 = compress(&[1u8; 32], &[2u8; 32]);
    MerkleTreeChip {
        leaves: vec![leaf, s0],
        leaf_indices: vec![2, 1],
        siblings: vec![vec![s0, s1], vec![leaf]],
        bus_keccak_permute_input: 0,
        bus_keccak_digest_output: 2,
    }
}

fn merkle_rows(chip: &MerkleTreeChip) -> Vec<Vec<u32>> {
    chip.generate_trace().iter().map(|r| r.to_row()).collect()
}

#[test]
fn load_traces_numbers_nonempty_traces() {
    let traces = vec![Some(vec![vec![1u32]]), None, Some(vec![]), Some(vec![vec![2], vec![3]])];
    let loaded = load_traces(traces);
    assert_eq!(loaded.len(), 4);
    let first = loaded[0].as_ref().unwrap();
    assert_eq!(first.opening_index, 0);
    assert_eq!(first.trace.domain_size, 1);
    assert!(loaded[1].is_none());
    assert!(loaded[2].is_none());
    let last = loaded[3].as_ref().unwrap();
    assert_eq!(last.opening_index, 1);
    assert_eq!(last.trace.domain_size, 2);
    assert_eq!(last.trace.value, vec![vec![2], vec![3]]);
}

#[test]
fn chip_domain_is_the_larger() {
    let mut t = ChipTrace::new(0u8);
    assert_eq!(t.domain(), None);
    t.main = Some(IndexedTrace { trace: Trace { value: vec![], domain_size: 8 }, opening_index: 0 });
    assert_eq!(t.domain(), Some(8));
    t.preprocessed = Some(IndexedTrace { trace: Trace { value: vec![], domain_size: 256 }, opening_index: 0 });
    assert_eq!(t.domain(), Some(256));
    let mut o = ChipTraceOpening::new(0u8);
    o.main = Some(TraceOpening { values: AdjacentOpenedValues { local: vec![], next: vec![] }, domain_size: 4 });
    assert_eq!(o.domain(), Some(4));
}

#[test]
fn machine_trace_checks_merkle_constraints() {
    let chip = merkle_chip();
    let mut trace: MachineTrace<MerkleTreeChip> = MachineTrace::new(&[chip]);
    let main = merkle_rows(&trace.chips[0].chip);
    assert_eq!(main.len(), 4);
    trace.load_main(vec![Some(main.clone())]);
    assert_eq!(trace.chips[0].main.as_ref().unwrap().opening_index, 0);
    let challenges = vec![[11, 1, 2, 3], [22, 4, 5, 6]];
    trace.generate_permutation(&challenges);
    let perm = trace.chips[0].permutation.as_ref().unwrap();
    assert_eq!(perm.trace.value.len(), 4);
    assert_eq!(perm.trace.value[0].len(), 3);
    let cumulative_sum = trace.chips[0].cumulative_sum.unwrap();
    assert_eq!(cumulative_sum, perm.trace.value[3][2]);
    // Each chip's constraints hold; whether the machine passes depends on its
    // cumulative sum, which only a balanced set of buses makes zero.
    assert!(check_constraints(
        &trace.chips[0].chip,
        None,
        &main,
        Some(&perm.trace.value),
        &challenges,
        Some(cumulative_sum)
    ));
    assert_eq!(trace.check_constraints(&challenges), cumulative_sum == [0; 4]);
    // A broken output limb is caught.
    let mut broken = main.clone();
    broken[0][67] = (broken[0][67] + 1) % 65536;
    assert!(!check_constraints(&trace.chips[0].chip, None, &broken, None, &challenges, None));
    assert_eq!(track_failing_constraints(&trace.chips[0].chip, None, &broken, None, &challenges, None), vec![0]);
    assert!(track_failing_constraints(&trace.chips[0].chip, None, &main, None, &challenges, None).is_empty());
}

#[test]
fn unflatten_openings_by_round() {
    let mut chips: Vec<ChipTrace<u8>> = vec![ChipTrace::new(0), ChipTrace::new(1)];
    chips[0].main = Some(IndexedTrace { trace: Trace { value: vec![], domain_size: 4 }, opening_index: 0 });
    chips[1].main = Some(IndexedTrace { trace: Trace { value: vec![], domain_size: 8 }, opening_index: 1 });
    chips[1].permutation = Some(IndexedTrace { trace: Trace { value: vec![], domain_size: 8 }, opening_index: 0 });
    chips[0].quotient_degree = Some(1);
    chips[1].quotient_degree = Some(2);
    chips[1].cumulative_sum = Some([9, 0, 0, 0]);
    let e = |x: u32| [x, 0, 0, x];
    let main_round = vec![vec![vec![e(1), e(2)], vec![e(3), e(4)]], vec![vec![e(5)], vec![e(6)]]];
    let perm_round = vec![vec![vec![e(7)], vec![e(8)]]];
    let quotient_round = vec![vec![vec![e(10)]], vec![vec![e(11)]], vec![vec![e(12)]]];
    let openings = unflatten_openings(&chips, vec![main_round, perm_round, quotient_round], false, true, true, true);
    assert_eq!(openings.len(), 2);
    assert!(openings[0].preprocessed.is_none());
    assert_eq!(openings[0].main.as_ref().unwrap().local, vec![e(1), e(2)]);
    assert_eq!(openings[0].main.as_ref().unwrap().next, vec![e(3), e(4)]);
    assert!(openings[0].permutation.is_none());
    assert_eq!(openings[0].quotient_chunks, Some(vec![vec![e(10)]]));
    assert_eq!(openings[1].main.as_ref().unwrap().local, vec![e(5)]);
    assert_eq!(openings[1].permutation.as_ref().unwrap().next, vec![e(8)]);
    assert_eq!(openings[1].quotient_chunks, Some(vec![vec![e(11)], vec![e(12)]]));
    let proofs = generate_proofs(&chips, openings);
    assert_eq!(proofs[0].as_ref().unwrap().degree, 4);
    assert_eq!(proofs[1].as_ref().unwrap().degree, 8);
    assert_eq!(proofs[1].as_ref().unwrap().cumulative_sum, Some([9, 0, 0, 0]));
}

#[test]
fn verifier_checks_shapes_and_sums() {
    assert_eq!(get_quotient_degree(&merkle_chip()), 2);
    let chip = merkle_chip();
    let mut opening: MachineTraceOpening<MerkleTreeChip> = MachineTraceOpening::new(&[chip]);
    assert_eq!(verify_shapes(&opening.chips, 4), Ok(()));
    opening.chips[0].main = Some(TraceOpening {
        values: AdjacentOpenedValues { local: vec![[0; 4]; 83], next: vec![[0; 4]; 83] },
        domain_size: 4,
    });
    assert_eq!(verify_shapes(&opening.chips, 4), Ok(()));
    opening.chips[0].quotient_degree = Some(1);
    opening.chips[0].quotient_chunks = Some(QuotientTraceOpening {
        traces: vec![SingleQuotientTraceOpening { values: vec![[0; 4]; 3], domain_size: 4 }],
    });
    assert_eq!(verify_shapes(&opening.chips, 4), Err(VerificationError::InvalidProofShape));
    // One chunk of the right size is still refused: the Merkle constraints
    // have degree three and call for two chunks, whatever degree is stored.
    opening.chips[0].quotient_chunks = Some(QuotientTraceOpening {
        traces: vec![SingleQuotientTraceOpening { values: vec![[0; 4]; 4], domain_size: 4 }],
    });
    assert_eq!(verify_shapes(&opening.chips, 4), Err(VerificationError::InvalidProofShape));
    opening.chips[0].quotient_chunks = Some(QuotientTraceOpening {
        traces: vec![
            SingleQuotientTraceOpening { values: vec![[0; 4]; 4], domain_size: 4 },
            SingleQuotientTraceOpening { values: vec![[0; 4]; 4], domain_size: 4 },
        ],
    });
    assert_eq!(verify_shapes(&opening.chips, 4), Ok(()));
    opening.chips[0].main.as_mut().unwrap().values.next.pop();
    assert_eq!(verify_shapes(&opening.chips, 4), Err(VerificationError::InvalidProofShape));

    assert_eq!(verify_cumulative_sums(&opening.chips), Ok(()));
    opening.chips[0].cumulative_sum = Some([5, 0, 0, 0]);
    assert_eq!(verify_cumulative_sums(&opening.chips), Err(VerificationError::NonZeroCumulativeSum));
    let mut other = ChipTraceOpening::new(merkle_chip());
    other.cumulative_sum = Some([keccak_machine::field::P - 5, 0, 0, 0]);
    opening.chips.push(other);
    assert_eq!(verify_cumulative_sums(&opening.chips), Ok(()));
}

#[test]
fn load_openings_places_proofs_on_their_domains() {
    let mut chips = vec![ChipTraceOpening::new(merkle_chip()), ChipTraceOpening::new(merkle_chip())];
    let proof = InteractionAirProof {
        degree: 4,
        opened_values: OpenedValues {
            preprocessed: None,
            main: Some(AdjacentOpenedValues { local: vec![[0; 4]; 83], next: vec![[0; 4]; 83] }),
            permutation: Some(AdjacentOpenedValues { local: vec![[1; 4]; 3], next: vec![[2; 4]; 3] }),
            quotient_chunks: Some(vec![vec![[0; 4]; 4], vec![[1; 4]; 4]]),
        },
        cumulative_sum: Some([7, 0, 0, 1]),
    };
    load_openings(&mut chips, vec![Some(proof), None], vec![0, 0]);
    assert_eq!(chips[0].quotient_degree, Some(2));
    assert_eq!(chips[0].cumulative_sum, Some([7, 0, 0, 1]));
    assert_eq!(chips[0].main.as_ref().unwrap().domain_size, 4);
    assert_eq!(chips[0].permutation.as_ref().unwrap().values.next, vec![[2; 4]; 3]);
    let chunks = &chips[0].quotient_chunks.as_ref().unwrap().traces;
    assert_eq!(chunks.len(), 2);
    assert_eq!(chunks[1].values, vec![[1; 4]; 4]);
    assert_eq!(chunks[1].domain_size, 4);
    assert!(chips[1].main.is_none() && chips[1].quotient_degree.is_none());
    assert_eq!(verify_shapes(&chips, 4), Ok(()));
}
