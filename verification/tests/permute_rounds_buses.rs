use keccak_machine::check_constraints::check_constraints;
use keccak_machine::chip::{get_quotient_degree, Rap};
use keccak_machine::field::P;
use keccak_machine::keccak_permute::{
    KeccakPermuteChip, KECCAK_IS_REAL_DIGEST, KECCAK_IS_REAL_INPUT, KECCAK_IS_REAL_OUTPUT, NUM_KECCAK_PERMUTE_COLS,
};
use keccak_machine::machine::{KeccakMachine, KeccakMachineChip};
use keccak_machine::memory::{MemoryChip, MemoryOp, OperationKind};
use keccak_machine::permutation::generate_permutation_trace;
use keccak_machine::permutation_air::PermutationAir;
use keccak_machine::rounds::{generate_rounds, generate_verifier_rounds, next_point};
use keccak_machine::schema::{machine_schema, Direction};
use keccak_machine::interaction::PairCol;
use keccak_machine::trace::{
    AdjacentOpenedValues, ChipTrace, ChipTraceOpening, IndexedTrace, QuotientTraceOpening, SingleQuotientTraceOpening, Trace,
    TraceOpening,
};

fn permute_chip(inputs: Vec<([u64; 25], bool)>) -> KeccakPermuteChip {
    KeccakPermuteChip {
        inputs,
        bus_keccak_permute_input: 0,
        bus_keccak_permute_output: 1,
        bus_keccak_permute_digest_output: 2,
    }
}

fn state() -> [u64; 25] {
    let mut s = [0u64; 25];
    for (i, lane) in s.iter_mut().enumerate() {
        *lane = (i as u64 + 1).wrapping_mul(0x9e37_79b9_7f4a_7c15);
    }
    s
}

fn limb(lane: u64, l: usize) -> u32 {
    ((lane >> (16 * l)) & 0xffff) as u32
}

#[test]
fn keccak_permute_interactions_read_state_columns() {
    let chip = permute_chip(vec![]);
    let sends = chip.sends();
    assert_eq!(sends.len(), 2);
    assert_eq!(sends[0].fields.len(), 100);
    assert_eq!(sends[0].argument_index, 1);
    assert_eq!(sends[1].fields.len(), 16);
    assert_eq!(sends[1].argument_index, 2);
    let receives = chip.receives();
    assert_eq!(receives.len(), 1);
    assert_eq!(receives[0].fields.len(), 100);
    assert_eq!(receives[0].argument_index, 0);
}

#[test]
fn keccak_permute_trace_holds_states_and_flags() {
    let input = state();
    let chip = permute_chip(vec![(input, false), (input, true)]);
    let rows = chip.generate_trace();
    // Two states of 24 rounds each, padded to 64 rows.
    assert_eq!(rows.len(), 64);
    assert!(rows.iter().all(|r| r.len() == NUM_KECCAK_PERMUTE_COLS));
    assert!(rows.iter().all(|r| r.iter().all(|&v| v < P)));

    // The first round's row holds the input limbs, lane by lane.
    for lane in 0..25 {
        for l in 0..4 {
            assert_eq!(rows[0][25 + 4 * lane + l], limb(input[lane], l));
        }
    }
    // The last round's row holds the permuted state.
    let mut output = input;
    tiny_keccak::keccakf(&mut output);
    for lane in 0..25 {
        for l in 0..4 {
            let col = if lane == 0 { 2629 + l } else { 2465 + 4 * lane + l };
            assert_eq!(rows[23][col], limb(output[lane], l));
        }
    }

    let flags = |r: usize| {
        (rows[r][KECCAK_IS_REAL_INPUT], rows[r][KECCAK_IS_REAL_OUTPUT], rows[r][KECCAK_IS_REAL_DIGEST])
    };
    assert_eq!(flags(0), (1, 0, 0));
    assert_eq!(flags(1), (0, 0, 0));
    assert_eq!(flags(23), (0, 1, 0));
    assert_eq!(flags(24), (1, 0, 0));
    assert_eq!(flags(47), (0, 0, 1));
    assert_eq!(flags(48), (0, 0, 0));
    assert_eq!(flags(63), (0, 0, 0));
}

#[test]
fn keccak_permute_empty_trace_has_one_padding_row() {
    let rows = permute_chip(vec![]).generate_trace();
    assert_eq!(rows.len(), 1);
    assert_eq!(rows[0][KECCAK_IS_REAL_INPUT], 0);
}

#[test]
fn every_keccak_machine_bus_has_both_sides() {
    let machine = KeccakMachine::new();
    let chips = machine.chips();
    assert_eq!(chips.len(), 6);
    for bus in 0..7usize {
        assert!(chips.iter().any(|c| c.sends().iter().any(|i| i.argument_index == bus)));
        assert!(chips.iter().any(|c| c.receives().iter().any(|i| i.argument_index == bus)));
    }
    for c in chips.iter() {
        assert!(c.sends().iter().chain(c.receives().iter()).all(|i| i.argument_index < 7));
    }
    match chips[0] {
        KeccakMachineChip::KeccakPermute(_) => {}
        _ => panic!("the permutation chip comes first"),
    }
}

fn memory_main(ops: Vec<MemoryOp>) -> (MemoryChip, Vec<Vec<u32>>) {
    let chip = MemoryChip { operations: ops, bus_memory: 6, bus_range_8: 3 };
    let main = chip.generate_trace().iter().map(|r| r.to_row()).collect();
    (chip, main)
}

#[test]
fn memory_air_accepts_distinct_reads_and_refuses_a_bad_flag() {
    let ops = (0..5u32)
        .map(|i| MemoryOp { addr: i, timestamp: i, value: i as u8, kind: OperationKind::Read })
        .collect();
    let (chip, mut main) = memory_main(ops);
    let challenges = vec![[0x1234_5678, 0, 0, 0], [0x0765_4321, 0, 0, 0]];
    assert!(check_constraints(&chip, None, &main, None, &challenges, None));
    assert_eq!(get_quotient_degree(&chip), 2);
    main[2][3] = 2;
    assert!(!check_constraints(&chip, None, &main, None, &challenges, None));
}

#[test]
fn memory_air_refuses_a_repeated_address_before_a_new_one() {
    // The second access keeps the address and sets `addr_unchanged`, which
    // asks the next row for the same address; the third row moves on.
    let ops = vec![
        MemoryOp { addr: 0, timestamp: 0, value: 1, kind: OperationKind::Write },
        MemoryOp { addr: 0, timestamp: 1, value: 1, kind: OperationKind::Read },
        MemoryOp { addr: 1, timestamp: 2, value: 5, kind: OperationKind::Read },
    ];
    let (chip, main) = memory_main(ops);
    assert_eq!(main[1][5], 1);
    assert!(!check_constraints(&chip, None, &main, None, &vec![[1; 4], [2; 4]], None));
}

#[test]
fn generated_permutation_trace_passes_the_check() {
    let ops = vec![
        MemoryOp { addr: 3, timestamp: 0, value: 7, kind: OperationKind::Write },
        MemoryOp { addr: 9, timestamp: 1, value: 8, kind: OperationKind::Read },
    ];
    let (chip, main) = memory_main(ops);
    let challenges = vec![[99, 7, 0, 1], [1234, 0, 5, 0]];
    let perm = generate_permutation_trace(&chip, &main, None, &challenges).unwrap();
    let cumulative_sum = perm[perm.len() - 1][perm[0].len() - 1];
    assert!(check_constraints(&chip, None, &main, Some(&perm), &challenges, Some(cumulative_sum)));
    let mut wrong_sum = cumulative_sum;
    wrong_sum[2] = (wrong_sum[2] + 1) % P;
    assert!(!check_constraints(&chip, None, &main, Some(&perm), &challenges, Some(wrong_sum)));
    assert_eq!(chip.width(), 9);
}

fn indexed<F>(rows: usize, index: usize) -> IndexedTrace<F> {
    IndexedTrace { trace: Trace { value: (0..rows).map(|_| Vec::new()).collect(), domain_size: rows }, opening_index: index }
}

#[test]
fn rounds_open_each_trace_at_zeta_and_the_next_point() {
    let zeta = [1, 2, 3, 4];
    let mut a: ChipTrace<u8> = ChipTrace::new(0);
    a.main = Some(indexed(4, 0));
    a.quotient_degree = Some(2);
    let mut b: ChipTrace<u8> = ChipTrace::new(1);
    b.main = Some(indexed(8, 1));
    b.permutation = Some(indexed(8, 0));
    b.quotient_degree = Some(1);
    let chips = vec![a, b];

    let rounds = generate_rounds(&chips, zeta, false, true, true, true);
    assert_eq!(rounds.len(), 3);
    let n4 = next_point(4, zeta);
    let n8 = next_point(8, zeta);
    assert_eq!(rounds[0], vec![vec![zeta, n4], vec![zeta, n8]]);
    assert_eq!(rounds[1], vec![vec![zeta, n8]]);
    assert_eq!(rounds[2], vec![vec![zeta], vec![zeta], vec![zeta]]);

    // The next point multiplies each coefficient by the domain's generator:
    // of order four on four rows, of order eight on eight.
    let g4 = n4[0] as u64;
    assert_eq!(n4[1] as u64, 2 * g4 % P as u64);
    assert_eq!(g4 * g4 % P as u64, P as u64 - 1);
    let g8 = n8[0] as u64;
    assert_eq!(g8 * g8 % P as u64 * (g8 * g8 % P as u64) % P as u64, P as u64 - 1);
    assert_ne!(n4, zeta);

    let none = generate_rounds(&chips, zeta, false, false, false, false);
    assert!(none.is_empty());
}

#[test]
fn memory_schema_merges_sent_and_received_columns() {
    let (chip, _) = memory_main(vec![]);
    let (buses, lines) = machine_schema(&vec![chip.all_interactions()]);
    assert_eq!(buses, vec![(3, 1), (6, 3)]);
    assert_eq!(lines.len(), 1);
    let lines = &lines[0];
    assert_eq!(lines.len(), 10);
    let find = |column: usize, bus: usize, slot: Option<usize>| {
        let found: Vec<Direction> = lines
            .iter()
            .filter(|l| l.column == PairCol::Main(column) && l.bus == bus && l.slot == slot)
            .map(|l| l.direction)
            .collect();
        assert_eq!(found.len(), 1);
        found[0]
    };
    assert_eq!(find(3, 6, None), Direction::Send);
    assert_eq!(find(4, 6, None), Direction::Receive);
    assert_eq!(find(1, 6, Some(0)), Direction::Both);
    assert_eq!(find(0, 6, Some(1)), Direction::Both);
    assert_eq!(find(2, 6, Some(2)), Direction::Both);
    assert_eq!(find(3, 3, None), Direction::Send);
    assert_eq!(find(4, 3, None), Direction::Send);
    assert_eq!(find(7, 3, Some(0)), Direction::Send);
}

#[test]
fn keccak_machine_bus_tables_cover_all_buses() {
    let machine = KeccakMachine::new();
    let interactions: Vec<_> = machine.chips().iter().map(|c| c.all_interactions()).collect();
    let (buses, lines) = machine_schema(&interactions);
    assert_eq!(buses.iter().map(|b| b.0).collect::<Vec<_>>(), vec![0, 1, 2, 3, 4, 5, 6]);
    assert_eq!(buses[0].1, 100);
    assert_eq!(buses[2].1, 16);
    assert_eq!(lines.len(), 6);
}

#[test]
fn verifier_rounds_pair_points_with_opened_values() {
    let zeta = [3, 1, 4, 1];
    let e = |x: u32| [x, x, 0, 0];
    let mut a: ChipTraceOpening<u8> = ChipTraceOpening::new(0);
    a.main = Some(TraceOpening {
        values: AdjacentOpenedValues { local: vec![e(1), e(2)], next: vec![e(3), e(4)] },
        domain_size: 4,
    });
    a.quotient_chunks = Some(QuotientTraceOpening {
        traces: vec![
            SingleQuotientTraceOpening { values: vec![e(5)], domain_size: 4 },
            SingleQuotientTraceOpening { values: vec![e(6)], domain_size: 4 },
        ],
    });
    let b: ChipTraceOpening<u8> = ChipTraceOpening::new(1);
    let chips = vec![a, b];
    let rounds = generate_verifier_rounds(&chips, zeta, false, true, false, true);
    assert_eq!(rounds.len(), 2);
    assert_eq!(rounds[0], vec![(4, vec![(zeta, vec![e(1), e(2)]), (next_point(4, zeta), vec![e(3), e(4)])])]);
    assert_eq!(rounds[1], vec![(4, vec![(zeta, vec![e(5)])]), (4, vec![(zeta, vec![e(6)])])]);
    // On two rows the next point is zeta times -1.
    assert_eq!(next_point(2, [1, 0, 0, 0]), [P - 1, 0, 0, 0]);
}
