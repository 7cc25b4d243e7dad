use p3_field::{PrimeField32, TwoAdicField};
use vstd::arithmetic::power2::{lemma2_to64, lemma_pow2_unfold, pow2};
use vstd::prelude::*;

use crate::field::{f_mul, P};
use crate::trace::{
    copy_values, loaded_as, num_loaded, quotient_start, ChipTrace, ChipTraceOpening, IndexedTrace, TraceOpening,
};
use crate::util::is_power_of_two;

verus! {

/// The largest `log_size` for which BabyBear has a two-adic subgroup.
pub const TWO_ADICITY: usize = 27;

/// The generator of the order-`2^bits` subgroup that
/// `BabyBear::two_adic_generator` returns: the entry `bits` of BabyBear's
/// table of two-adic generators, each the square of the next.
pub open spec fn two_adic_generator_of(bits: usize) -> u32 {
    seq![
        0x1u32, 0x78000000, 0x67055c21, 0x5ee99486, 0xbb4c4e4, 0x2d4cc4da, 0x669d6090, 0x17b56c64,
        0x67456167, 0x688442f9, 0x145e952d, 0x4fe61226, 0x4c734715, 0x11c33e2a, 0x62c3d2b1,
        0x77cad399, 0x54c131f4, 0x4cabd6a6, 0x5cf5713f, 0x3e9430e8, 0xba067a3, 0x18adc27d,
        0x21fd55bc, 0x4b859b3d, 0x3bd57996, 0x4483d85a, 0x3a26eef8, 0x1a427a41,
    ][bits as int]
}

/// `p3_field::TwoAdicField::two_adic_generator` for BabyBear: a generator of
/// the multiplicative subgroup of order `2^bits`, read from BabyBear's table
/// (`TWO_ADIC_GENERATORS` in `p3-baby-bear`); it panics above the field's
/// two-adicity, which `requires` rules out.
#[verifier::external_body]
fn two_adic_generator(bits: usize) -> (r: u32)
    requires
        bits <= TWO_ADICITY,
    ensures
        r == two_adic_generator_of(bits),
        r < P,
{
    p3_baby_bear::BabyBear::two_adic_generator(bits).as_canonical_u32()
}

/// The base-2 logarithm of `n`, rounded down.
pub open spec fn spec_log2(n: nat) -> nat
    decreases n,
{
    if n <= 1 {
        0
    } else {
        1 + spec_log2(n / 2)
    }
}

/// A number at most `2^k` has a logarithm at most `k`.
proof fn lemma_log2_bound(n: nat, k: nat)
    requires
        n <= pow2(k),
    ensures
        spec_log2(n) <= k,
    decreases k,
{
    if n > 1 && k > 0 {
        lemma_pow2_unfold(k);
        lemma_log2_bound(n / 2, (k - 1) as nat);
    } else if n > 1 {
        lemma2_to64();
    }
}

/// The base-2 logarithm of `n`, rounded down.
fn log2(n: usize) -> (r: usize)
    ensures
        r == spec_log2(n as nat),
{
    let mut m: usize = n;
    let mut r: usize = 0;
    while m > 1
        invariant
            r + spec_log2(m as nat) == spec_log2(n as nat),
            r <= 64,
            m <= n,
        decreases m,
    {
        proof {
            lemma2_to64();
            lemma_log2_bound(n as nat, 64);
        }
        m = m / 2;
        r = r + 1;
    }
    r
}

/// The point after `zeta` on the trace domain of size `domain_size` (the
/// subgroup of that order): `zeta` times the subgroup's generator. `zeta`
/// lies in the degree-four extension of the field, by its four
/// coefficients, and a base-field factor scales each of them.
pub open spec fn next_point_of(domain_size: usize, zeta: Seq<u32>) -> Seq<u32> {
    let g = two_adic_generator_of(spec_log2(domain_size as nat) as usize);
    Seq::new(4, |i: int| ((zeta[i] * g) % (P as int)) as u32)
}

/// The point after `zeta` on the trace domain of size `domain_size`.
pub fn next_point(domain_size: usize, zeta: [u32; 4]) -> (r: [u32; 4])
    requires
        domain_size <= pow2(TWO_ADICITY as nat),
        forall|i: int| 0 <= i < 4 ==> zeta[i] < P,
    ensures
        r@ == next_point_of(domain_size, zeta@),
{
    proof {
        lemma_log2_bound(domain_size as nat, TWO_ADICITY as nat);
    }
    let g: u32 = two_adic_generator(log2(domain_size));
    let r = [f_mul(zeta[0], g), f_mul(zeta[1], g), f_mul(zeta[2], g), f_mul(zeta[3], g)];
    assert(r@ =~= next_point_of(domain_size, zeta@));
    r
}

/// Where a trace lies: its domain size and its opening index.
pub open spec fn place_of<F>(t: Option<IndexedTrace<F>>) -> Option<(usize, usize)> {
    match t {
        Some(t) => Some((t.trace.domain_size, t.opening_index)),
        None => None,
    }
}

/// Where the trace of one kind of a chip lies: preprocessed (0), main (1)
/// or permutation (2).
pub open spec fn trace_of_kind<C>(chip: ChipTrace<C>, kind: u8) -> Option<(usize, usize)> {
    if kind == 0 {
        place_of(chip.preprocessed)
    } else if kind == 1 {
        place_of(chip.main)
    } else {
        place_of(chip.permutation)
    }
}

/// The two points a trace is opened at: `zeta` and the point after it on
/// the trace's domain.
pub open spec fn trace_points(place: (usize, usize), zeta: Seq<u32>) -> Seq<Seq<u32>> {
    seq![zeta, next_point_of(place.0, zeta)]
}

/// The points of the round of one kind of trace, over the first `n` chips:
/// the two points of each chip that has such a trace, in chip order.
pub open spec fn adjacent_round<C>(chips: Seq<ChipTrace<C>>, kind: u8, zeta: Seq<u32>, n: int) -> Seq<
    Seq<Seq<u32>>,
>
    decreases n,
{
    if n <= 0 {
        seq![]
    } else {
        let prev = adjacent_round(chips, kind, zeta, n - 1);
        match trace_of_kind(chips[n - 1], kind) {
            Some(t) => prev.push(trace_points(t, zeta)),
            None => prev,
        }
    }
}

/// The points of the quotient round: `zeta` alone for each quotient chunk of
/// each chip, in chip order.
pub open spec fn quotient_round<C>(chips: Seq<ChipTrace<C>>, zeta: Seq<u32>) -> Seq<Seq<Seq<u32>>> {
    Seq::new(quotient_start(chips, chips.len() as int), |j: int| seq![zeta])
}

/// The rounds of points, one for each kind whose commitment is present, in
/// the order preprocessed, main, permutation, quotient.
pub open spec fn opening_rounds<C>(
    chips: Seq<ChipTrace<C>>,
    zeta: Seq<u32>,
    has_preprocessed: bool,
    has_main: bool,
    has_permutation: bool,
    has_quotient: bool,
) -> Seq<Seq<Seq<Seq<u32>>>> {
    let n = chips.len() as int;
    (if has_preprocessed { seq![adjacent_round(chips, 0, zeta, n)] } else { seq![] }) + (if has_main {
        seq![adjacent_round(chips, 1, zeta, n)]
    } else {
        seq![]
    }) + (if has_permutation { seq![adjacent_round(chips, 2, zeta, n)] } else { seq![] }) + (if has_quotient {
        seq![quotient_round(chips, zeta)]
    } else {
        seq![]
    })
}

/// The points of one matrix, each by its coefficients.
pub open spec fn points_view(m: Vec<[u32; 4]>) -> Seq<Seq<u32>> {
    m@.map_values(|p: [u32; 4]| p@)
}

/// The points of one round.
pub open spec fn round_view(r: Vec<Vec<[u32; 4]>>) -> Seq<Seq<Seq<u32>>> {
    r@.map_values(|m: Vec<[u32; 4]>| points_view(m))
}

/// The points of every round.
pub open spec fn rounds_view(rs: Vec<Vec<Vec<[u32; 4]>>>) -> Seq<Seq<Seq<Seq<u32>>>> {
    rs@.map_values(|r: Vec<Vec<[u32; 4]>>| round_view(r))
}

/// Every trace of the given kind lies on a domain that the field's two-adic
/// subgroups cover.
pub open spec fn domains_fit<C>(chips: Seq<ChipTrace<C>>, kind: u8) -> bool {
    forall|k: int|
        0 <= k < chips.len() ==> (#[trigger] trace_of_kind(chips[k], kind) matches Some(t) ==> is_power_of_two(
            t.0 as nat,
        ) && t.0 <= pow2(TWO_ADICITY as nat))
}

/// The round of one kind of trace, built.
fn generate_adjacent_round<C>(chips: &Vec<ChipTrace<C>>, kind: u8, zeta: [u32; 4]) -> (r: Vec<Vec<[u32; 4]>>)
    requires
        domains_fit(chips@, kind),
        forall|i: int| 0 <= i < 4 ==> zeta[i] < P,
    ensures
        round_view(r) == adjacent_round(chips@, kind, zeta@, chips.len() as int),
{
    let mut round: Vec<Vec<[u32; 4]>> = Vec::new();
    for k in 0..chips.len()
        invariant
            domains_fit(chips@, kind),
            forall|i: int| 0 <= i < 4 ==> zeta[i] < P,
            round_view(round) == adjacent_round(chips@, kind, zeta@, k as int),
    {
        let place: Option<(usize, usize)> = if kind == 0 {
            match &chips[k].preprocessed {
                Some(t) => Some((t.trace.domain_size, t.opening_index)),
                None => None,
            }
        } else if kind == 1 {
            match &chips[k].main {
                Some(t) => Some((t.trace.domain_size, t.opening_index)),
                None => None,
            }
        } else {
            match &chips[k].permutation {
                Some(t) => Some((t.trace.domain_size, t.opening_index)),
                None => None,
            }
        };
        assert(place == trace_of_kind(chips[k as int], kind));
        match place {
            Some(t) => {
                let next = next_point(t.0, zeta);
                let mut points: Vec<[u32; 4]> = Vec::new();
                points.push(zeta);
                points.push(next);
                assert(points_view(points) =~= trace_points(t, zeta@));
                let ghost before = round;
                round.push(points);
                assert(round_view(round) =~= round_view(before).push(points_view(points)));
            },
            None => {},
        }
    }
    round
}

/// The quotient round, built.
fn generate_quotient_round<C>(chips: &Vec<ChipTrace<C>>, zeta: [u32; 4]) -> (r: Vec<Vec<[u32; 4]>>)
    requires
        quotient_start(chips@, chips.len() as int) <= usize::MAX,
    ensures
        round_view(r) == quotient_round(chips@, zeta@),
{
    let mut round: Vec<Vec<[u32; 4]>> = Vec::new();
    for k in 0..chips.len()
        invariant
            quotient_start(chips@, chips.len() as int) <= usize::MAX,
            round_view(round) == Seq::new(quotient_start(chips@, k as int), |j: int| seq![zeta@]),
    {
        proof {
            lemma_quotient_start_monotone(chips@, k + 1, chips.len() as int);
        }
        match chips[k].quotient_degree {
            Some(degree) => {
                for c in 0..degree
                    invariant
                        round_view(round) == Seq::new((quotient_start(chips@, k as int) + c) as nat, |j: int| seq![zeta@]),
                {
                    let mut points: Vec<[u32; 4]> = Vec::new();
                    points.push(zeta);
                    let ghost before = round;
                    round.push(points);
                    assert(round_view(round) =~= round_view(before).push(points_view(points)));
                    assert(points_view(points) =~= seq![zeta@]);
                    assert(round_view(round) =~= Seq::new(
                        (quotient_start(chips@, k as int) + c + 1) as nat,
                        |j: int| seq![zeta@],
                    ));
                }
            },
            None => {},
        }
        assert(round_view(round) =~= Seq::new(quotient_start(chips@, k + 1), |j: int| seq![zeta@]));
    }
    round
}

/// The number of quotient chunks before a chip grows with the chip.
proof fn lemma_quotient_start_monotone<C>(chips: Seq<ChipTrace<C>>, a: int, b: int)
    requires
        a <= b,
    ensures
        quotient_start(chips, a) <= quotient_start(chips, b),
    decreases b - a,
{
    if a < b {
        lemma_quotient_start_monotone(chips, a, b - 1);
    }
}

/// The opening points of every committed round: for each kind of trace whose
/// commitment is present, in the order preprocessed, main, permutation, the
/// points `zeta` and the point after it on each chip's trace of that kind;
/// then, when the quotient commitment is present, `zeta` for each quotient
/// chunk of each chip.
pub fn generate_rounds<C>(
    chips: &Vec<ChipTrace<C>>,
    zeta: [u32; 4],
    has_preprocessed: bool,
    has_main: bool,
    has_permutation: bool,
    has_quotient: bool,
) -> (r: Vec<Vec<Vec<[u32; 4]>>>)
    requires
        forall|i: int| 0 <= i < 4 ==> zeta[i] < P,
        has_preprocessed ==> domains_fit(chips@, 0),
        has_main ==> domains_fit(chips@, 1),
        has_permutation ==> domains_fit(chips@, 2),
        has_quotient ==> quotient_start(chips@, chips.len() as int) <= usize::MAX,
    ensures
        rounds_view(r) == opening_rounds(
            chips@,
            zeta@,
            has_preprocessed,
            has_main,
            has_permutation,
            has_quotient,
        ),
{
    let mut rounds: Vec<Vec<Vec<[u32; 4]>>> = Vec::new();
    let ghost n = chips.len() as int;
    if has_preprocessed {
        rounds.push(generate_adjacent_round(chips, 0, zeta));
    }
    let ghost after_pre = rounds_view(rounds);
    assert(after_pre =~= (if has_preprocessed { seq![adjacent_round(chips@, 0, zeta@, n)] } else { seq![] }));
    if has_main {
        rounds.push(generate_adjacent_round(chips, 1, zeta));
    }
    let ghost after_main = rounds_view(rounds);
    assert(after_main =~= after_pre + (if has_main { seq![adjacent_round(chips@, 1, zeta@, n)] } else { seq![] }));
    if has_permutation {
        rounds.push(generate_adjacent_round(chips, 2, zeta));
    }
    let ghost after_perm = rounds_view(rounds);
    assert(after_perm =~= after_main + (if has_permutation {
        seq![adjacent_round(chips@, 2, zeta@, n)]
    } else {
        seq![]
    }));
    if has_quotient {
        rounds.push(generate_quotient_round(chips, zeta));
    }
    assert(rounds_view(rounds) =~= after_perm + (if has_quotient { seq![quotient_round(chips@, zeta@)] } else { seq![] }));
    rounds
}

/// The number of chips among the first `k` that have a trace of the kind.
pub open spec fn num_present<C>(chips: Seq<ChipTrace<C>>, kind: u8, k: int) -> nat
    decreases k,
{
    if k <= 0 {
        0
    } else {
        num_present(chips, kind, k - 1) + if trace_of_kind(chips[k - 1], kind) is Some {
            1nat
        } else {
            0nat
        }
    }
}

/// Each chip's trace of the kind is numbered by how many chips before it
/// have one, as `load_traces` numbers them.
pub open spec fn numbered_in_order<C>(chips: Seq<ChipTrace<C>>, kind: u8) -> bool {
    forall|k: int|
        0 <= k < chips.len() ==> (#[trigger] trace_of_kind(chips[k], kind) matches Some(t) ==> t.1
            == num_present(chips, kind, k))
}

/// The round of a kind holds, at the number of each chip's trace, that
/// trace's two points.
proof fn lemma_adjacent_round<C>(chips: Seq<ChipTrace<C>>, kind: u8, zeta: Seq<u32>, n: int)
    requires
        0 <= n <= chips.len(),
    ensures
        adjacent_round(chips, kind, zeta, n).len() == num_present(chips, kind, n),
        forall|k: int|
            0 <= k < n ==> (#[trigger] trace_of_kind(chips[k], kind) matches Some(t) ==> adjacent_round(
                chips,
                kind,
                zeta,
                n,
            )[num_present(chips, kind, k) as int] == trace_points(t, zeta)),
    decreases n,
{
    if n > 0 {
        lemma_adjacent_round(chips, kind, zeta, n - 1);
        assert forall|k: int|
            0 <= k < n - 1 && (#[trigger] trace_of_kind(chips[k], kind) is Some) implies num_present(
            chips,
            kind,
            k,
        ) < num_present(chips, kind, n - 1) by {
            lemma_num_present_monotone(chips, kind, k + 1, n - 1);
        }
    }
}

/// The count of traces grows with the number of chips looked at.
proof fn lemma_num_present_monotone<C>(chips: Seq<ChipTrace<C>>, kind: u8, a: int, b: int)
    requires
        a <= b,
    ensures
        num_present(chips, kind, a) <= num_present(chips, kind, b),
    decreases b - a,
{
    if a < b {
        lemma_num_present_monotone(chips, kind, a, b - 1);
    }
}

/// The number of quotient chunks of a chip.
pub open spec fn chunk_count<C>(chip: ChipTrace<C>) -> nat {
    match chip.quotient_degree {
        Some(d) => d as nat,
        None => 0,
    }
}

/// Which round holds the traces of a kind when `unflatten_openings` counts
/// the rounds from the end of the opened values, these being exactly the
/// rounds of [`generate_rounds`].
pub open spec fn round_of_kind(
    kind: u8,
    has_preprocessed: bool,
    has_main: bool,
    has_permutation: bool,
    has_quotient: bool,
) -> int {
    let last: int = present_count(has_preprocessed) + present_count(has_main) + present_count(has_permutation)
        + present_count(has_quotient) - 1;
    if kind == 0 {
        last - present_count(has_quotient) - present_count(has_permutation) - present_count(has_main)
    } else if kind == 1 {
        last - present_count(has_quotient) - present_count(has_permutation)
    } else if kind == 2 {
        last - present_count(has_quotient)
    } else {
        last
    }
}

/// 1 for a present round, 0 for an absent one.
pub open spec fn present_count(b: bool) -> int {
    if b {
        1
    } else {
        0
    }
}

/// The rounds that [`generate_rounds`] builds are the ones that
/// `unflatten_openings` reads back: there is one round per present
/// commitment; the round that `unflatten_openings` reads a kind of trace from
/// is the one generated for that kind; in it, the entry at each chip's
/// opening index (chips numbered in order, as `load_traces` numbers them)
/// holds that chip's two points; and in the quotient round, the entries from
/// [`quotient_start`] of each chip, one per chunk, hold `zeta`.
pub proof fn generated_rounds_match_unflattening<C>(
    chips: Seq<ChipTrace<C>>,
    zeta: Seq<u32>,
    has_preprocessed: bool,
    has_main: bool,
    has_permutation: bool,
    has_quotient: bool,
    kind: u8,
)
    requires
        kind <= 2,
        numbered_in_order(chips, kind),
    ensures
        ({
            let rounds = opening_rounds(chips, zeta, has_preprocessed, has_main, has_permutation, has_quotient);
            let present = if kind == 0 {
                has_preprocessed
            } else if kind == 1 {
                has_main
            } else {
                has_permutation
            };
            &&& rounds.len() == present_count(has_preprocessed) + present_count(has_main) + present_count(
                has_permutation,
            ) + present_count(has_quotient)
            &&& present ==> rounds[round_of_kind(
                kind,
                has_preprocessed,
                has_main,
                has_permutation,
                has_quotient,
            )] == adjacent_round(chips, kind, zeta, chips.len() as int)
            &&& forall|k: int|
                0 <= k < chips.len() ==> (#[trigger] trace_of_kind(chips[k], kind) matches Some(t) ==> t.1
                    < adjacent_round(chips, kind, zeta, chips.len() as int).len() && adjacent_round(
                    chips,
                    kind,
                    zeta,
                    chips.len() as int,
                )[t.1 as int] == trace_points(t, zeta))
            &&& has_quotient ==> rounds[round_of_kind(3, has_preprocessed, has_main, has_permutation, has_quotient)]
                == quotient_round(chips, zeta)
            &&& forall|k: int|
                0 <= k < chips.len() ==> quotient_start(chips, k) + #[trigger] chunk_count(chips[k])
                    <= quotient_round(chips, zeta).len()
            &&& forall|j: int| 0 <= j < quotient_round(chips, zeta).len() ==> #[trigger] quotient_round(chips, zeta)[j] == seq![zeta]
        }),
{
    let n: int = chips.len() as int;
    lemma_adjacent_round(chips, kind, zeta, n);
    assert forall|k: int|
        0 <= k < chips.len() && (#[trigger] trace_of_kind(chips[k], kind) is Some) implies num_present(
        chips,
        kind,
        k,
    ) < num_present(chips, kind, n) by {
        lemma_num_present_monotone(chips, kind, k + 1, n);
    }
    assert forall|k: int| 0 <= k < chips.len() implies quotient_start(chips, k) + #[trigger] chunk_count(chips[k])
        <= quotient_round(chips, zeta).len() by {
        lemma_quotient_start_monotone(chips, k + 1, n);
    }
}

/// Traces placed by `load_traces` (as `MachineTrace::load_main` and
/// `MachineTrace::load_preprocessed` place them) are numbered in chip order,
/// so that [`generated_rounds_match_unflattening`] applies to them.
pub proof fn loaded_traces_numbered_in_order<C, F>(
    chips: Seq<ChipTrace<C>>,
    traces: Seq<Option<Vec<Vec<F>>>>,
    loaded: Seq<Option<IndexedTrace<F>>>,
    kind: u8,
)
    requires
        chips.len() == traces.len(),
        loaded.len() == traces.len(),
        forall|k: int|
            0 <= k < chips.len() ==> loaded_as(traces, k, #[trigger] loaded[k]) && trace_of_kind(chips[k], kind)
                == place_of(loaded[k]),
    ensures
        numbered_in_order(chips, kind),
{
    assert forall|k: int| 0 <= k <= chips.len() implies #[trigger] num_present(chips, kind, k) == num_loaded(traces, k) by {
        lemma_present_is_loaded(chips, traces, loaded, kind, k);
    }
    assert forall|k: int| 0 <= k < chips.len() implies (#[trigger] trace_of_kind(chips[k], kind) matches Some(t)
        ==> t.1 == num_present(chips, kind, k)) by {
        assert(loaded_as(traces, k, loaded[k]));
    }
}

proof fn lemma_present_is_loaded<C, F>(
    chips: Seq<ChipTrace<C>>,
    traces: Seq<Option<Vec<Vec<F>>>>,
    loaded: Seq<Option<IndexedTrace<F>>>,
    kind: u8,
    k: int,
)
    requires
        0 <= k <= chips.len(),
        chips.len() == traces.len(),
        loaded.len() == traces.len(),
        forall|j: int|
            0 <= j < chips.len() ==> loaded_as(traces, j, #[trigger] loaded[j]) && trace_of_kind(chips[j], kind)
                == place_of(loaded[j]),
    ensures
        num_present(chips, kind, k) == num_loaded(traces, k),
    decreases k,
{
    if k > 0 {
        lemma_present_is_loaded(chips, traces, loaded, kind, k - 1);
        assert(loaded_as(traces, k - 1, loaded[k - 1]));
    }
}

/// An opened matrix as the verifier hands it to the commitment scheme: its
/// domain size, and each point it was opened at with the values there.
pub type MatrixOpening = (usize, Vec<([u32; 4], Vec<[u32; 4]>)>);

/// The content of an opened matrix.
pub open spec fn matrix_opening_view(m: MatrixOpening) -> (usize, Seq<(Seq<u32>, Seq<[u32; 4]>)>) {
    (m.0, m.1@.map_values(|p: ([u32; 4], Vec<[u32; 4]>)| (p.0@, p.1@)))
}

/// The content of every round of openings.
pub open spec fn verifier_rounds_view(rs: Vec<Vec<MatrixOpening>>) -> Seq<Seq<(usize, Seq<(Seq<u32>, Seq<[u32; 4]>)>)>> {
    rs@.map_values(|r: Vec<MatrixOpening>| r@.map_values(|m: MatrixOpening| matrix_opening_view(m)))
}

/// The opening of one kind of trace of a chip.
pub open spec fn opening_of_kind<C>(chip: ChipTraceOpening<C>, kind: u8) -> Option<TraceOpening> {
    if kind == 0 {
        chip.preprocessed
    } else if kind == 1 {
        chip.main
    } else {
        chip.permutation
    }
}

/// The round of one kind of trace, over the first `n` chips: for each chip
/// with such an opening, its domain size, `zeta` with the local values and
/// the point after `zeta` with the next values.
pub open spec fn verifier_adjacent_round<C>(
    chips: Seq<ChipTraceOpening<C>>,
    kind: u8,
    zeta: Seq<u32>,
    n: int,
) -> Seq<(usize, Seq<(Seq<u32>, Seq<[u32; 4]>)>)>
    decreases n,
{
    if n <= 0 {
        seq![]
    } else {
        let prev = verifier_adjacent_round(chips, kind, zeta, n - 1);
        match opening_of_kind(chips[n - 1], kind) {
            Some(t) => prev.push(
                (
                    t.domain_size,
                    seq![(zeta, t.values.local@), (next_point_of(t.domain_size, zeta), t.values.next@)],
                ),
            ),
            None => prev,
        }
    }
}

/// The quotient round over the first `n` chips: each quotient chunk of each
/// chip, with its domain size, opened at `zeta` alone.
pub open spec fn verifier_quotient_round<C>(chips: Seq<ChipTraceOpening<C>>, zeta: Seq<u32>, n: int) -> Seq<
    (usize, Seq<(Seq<u32>, Seq<[u32; 4]>)>),
>
    decreases n,
{
    if n <= 0 {
        seq![]
    } else {
        let prev = verifier_quotient_round(chips, zeta, n - 1);
        match chips[n - 1].quotient_chunks {
            Some(q) => prev + Seq::new(
                q.traces.len() as nat,
                |i: int| (q.traces[i].domain_size, seq![(zeta, q.traces[i].values@)]),
            ),
            None => prev,
        }
    }
}

/// The rounds the verifier checks the openings in, one per present
/// commitment, in the order preprocessed, main, permutation, quotient.
pub open spec fn verifier_rounds<C>(
    chips: Seq<ChipTraceOpening<C>>,
    zeta: Seq<u32>,
    has_preprocessed: bool,
    has_main: bool,
    has_permutation: bool,
    has_quotient: bool,
) -> Seq<Seq<(usize, Seq<(Seq<u32>, Seq<[u32; 4]>)>)>> {
    let n = chips.len() as int;
    (if has_preprocessed { seq![verifier_adjacent_round(chips, 0, zeta, n)] } else { seq![] }) + (if has_main {
        seq![verifier_adjacent_round(chips, 1, zeta, n)]
    } else {
        seq![]
    }) + (if has_permutation { seq![verifier_adjacent_round(chips, 2, zeta, n)] } else { seq![] }) + (
    if has_quotient {
        seq![verifier_quotient_round(chips, zeta, n)]
    } else {
        seq![]
    })
}

/// Every opening of the kind lies on a domain that the field's two-adic
/// subgroups cover.
pub open spec fn opening_domains_fit<C>(chips: Seq<ChipTraceOpening<C>>, kind: u8) -> bool {
    forall|k: int|
        0 <= k < chips.len() ==> (#[trigger] opening_of_kind(chips[k], kind) matches Some(t) ==> t.domain_size
            <= pow2(TWO_ADICITY as nat))
}

/// The round of one kind of opening, built.
fn verifier_adjacent(chips: &Vec<ChipTraceOpening<impl Sized>>, kind: u8, zeta: [u32; 4]) -> (r: Vec<MatrixOpening>)
    requires
        opening_domains_fit(chips@, kind),
        forall|i: int| 0 <= i < 4 ==> zeta[i] < P,
    ensures
        r@.map_values(|m: MatrixOpening| matrix_opening_view(m)) == verifier_adjacent_round(
            chips@,
            kind,
            zeta@,
            chips.len() as int,
        ),
{
    let mut round: Vec<MatrixOpening> = Vec::new();
    for k in 0..chips.len()
        invariant
            opening_domains_fit(chips@, kind),
            forall|i: int| 0 <= i < 4 ==> zeta[i] < P,
            round@.map_values(|m: MatrixOpening| matrix_opening_view(m)) == verifier_adjacent_round(
                chips@,
                kind,
                zeta@,
                k as int,
            ),
    {
        let t = if kind == 0 {
            &chips[k].preprocessed
        } else if kind == 1 {
            &chips[k].main
        } else {
            &chips[k].permutation
        };
        assert(*t == opening_of_kind(chips[k as int], kind));
        match t {
            Some(t) => {
                let next = next_point(t.domain_size, zeta);
                let mut points: Vec<([u32; 4], Vec<[u32; 4]>)> = Vec::new();
                points.push((zeta, copy_values(&t.values.local)));
                points.push((next, copy_values(&t.values.next)));
                let entry: MatrixOpening = (t.domain_size, points);
                let ghost before = round@;
                round.push(entry);
                assert(matrix_opening_view(entry).1 =~= seq![(zeta@, t.values.local@), (next@, t.values.next@)]);
                assert(round@.map_values(|m: MatrixOpening| matrix_opening_view(m)) =~= before.map_values(
                    |m: MatrixOpening| matrix_opening_view(m),
                ).push(matrix_opening_view(entry)));
            },
            None => {},
        }
    }
    round
}

/// The quotient round of the openings, built.
fn verifier_quotient(chips: &Vec<ChipTraceOpening<impl Sized>>, zeta: [u32; 4]) -> (r: Vec<MatrixOpening>)
    ensures
        r@.map_values(|m: MatrixOpening| matrix_opening_view(m)) == verifier_quotient_round(
            chips@,
            zeta@,
            chips.len() as int,
        ),
{
    let mut round: Vec<MatrixOpening> = Vec::new();
    for k in 0..chips.len()
        invariant
            round@.map_values(|m: MatrixOpening| matrix_opening_view(m)) == verifier_quotient_round(
                chips@,
                zeta@,
                k as int,
            ),
    {
        let ghost start = round@.map_values(|m: MatrixOpening| matrix_opening_view(m));
        match &chips[k].quotient_chunks {
            Some(q) => {
                for i in 0..q.traces.len()
                    invariant
                        chips[k as int].quotient_chunks == Some(*q),
                        round@.map_values(|m: MatrixOpening| matrix_opening_view(m)) == start + Seq::new(
                            i as nat,
                            |j: int| (q.traces[j].domain_size, seq![(zeta@, q.traces[j].values@)]),
                        ),
                {
                    let mut points: Vec<([u32; 4], Vec<[u32; 4]>)> = Vec::new();
                    points.push((zeta, copy_values(&q.traces[i].values)));
                    let entry: MatrixOpening = (q.traces[i].domain_size, points);
                    let ghost before = round@;
                    round.push(entry);
                    assert(matrix_opening_view(entry).1 =~= seq![(zeta@, q.traces[i as int].values@)]);
                    assert(matrix_opening_view(entry) == (
                        q.traces[i as int].domain_size,
                        seq![(zeta@, q.traces[i as int].values@)],
                    ));
                    assert(round@.map_values(|m: MatrixOpening| matrix_opening_view(m)) =~= before.map_values(
                        |m: MatrixOpening| matrix_opening_view(m),
                    ).push(matrix_opening_view(entry)));
                    assert(round@.map_values(|m: MatrixOpening| matrix_opening_view(m)) =~= start + Seq::new(
                        (i + 1) as nat,
                        |j: int| (q.traces[j].domain_size, seq![(zeta@, q.traces[j].values@)]),
                    ));
                }
            },
            None => {},
        }
        assert(round@.map_values(|m: MatrixOpening| matrix_opening_view(m)) =~= verifier_quotient_round(
            chips@,
            zeta@,
            k + 1,
        ));
    }
    round
}

/// The rounds the verifier hands to the commitment scheme: for each present
/// commitment, in the order preprocessed, main, permutation, quotient, every
/// opened matrix with its domain size and the points it was opened at with
/// the values there, `zeta` and the point after it for the traces, `zeta`
/// alone for the quotient chunks.
pub fn generate_verifier_rounds<C>(
    chips: &Vec<ChipTraceOpening<C>>,
    zeta: [u32; 4],
    has_preprocessed: bool,
    has_main: bool,
    has_permutation: bool,
    has_quotient: bool,
) -> (r: Vec<Vec<MatrixOpening>>)
    requires
        forall|i: int| 0 <= i < 4 ==> zeta[i] < P,
        has_preprocessed ==> opening_domains_fit(chips@, 0),
        has_main ==> opening_domains_fit(chips@, 1),
        has_permutation ==> opening_domains_fit(chips@, 2),
    ensures
        verifier_rounds_view(r) == verifier_rounds(
            chips@,
            zeta@,
            has_preprocessed,
            has_main,
            has_permutation,
            has_quotient,
        ),
{
    let ghost n = chips.len() as int;
    let mut rounds: Vec<Vec<MatrixOpening>> = Vec::new();
    if has_preprocessed {
        rounds.push(verifier_adjacent(chips, 0, zeta));
    }
    let ghost after_pre = verifier_rounds_view(rounds);
    assert(after_pre =~= (if has_preprocessed { seq![verifier_adjacent_round(chips@, 0, zeta@, n)] } else { seq![] }));
    if has_main {
        rounds.push(verifier_adjacent(chips, 1, zeta));
    }
    let ghost after_main = verifier_rounds_view(rounds);
    assert(after_main =~= after_pre + (if has_main { seq![verifier_adjacent_round(chips@, 1, zeta@, n)] } else { seq![] }));
    if has_permutation {
        rounds.push(verifier_adjacent(chips, 2, zeta));
    }
    let ghost after_perm = verifier_rounds_view(rounds);
    assert(after_perm =~= after_main + (if has_permutation {
        seq![verifier_adjacent_round(chips@, 2, zeta@, n)]
    } else {
        seq![]
    }));
    if has_quotient {
        rounds.push(verifier_quotient(chips, zeta));
    }
    assert(verifier_rounds_view(rounds) =~= after_perm + (if has_quotient {
        seq![verifier_quotient_round(chips@, zeta@, n)]
    } else {
        seq![]
    }));
    rounds
}

/// The points of a round, without the values.
pub open spec fn points_of(round: Seq<(usize, Seq<(Seq<u32>, Seq<[u32; 4]>)>)>) -> Seq<Seq<Seq<u32>>> {
    round.map_values(|m: (usize, Seq<(Seq<u32>, Seq<[u32; 4]>)>)| m.1.map_values(|p: (Seq<u32>, Seq<[u32; 4]>)| p.0))
}

/// The verifier's openings of one kind match the prover's traces: a chip has
/// an opening exactly when it has a trace, on a domain of the same size.
pub open spec fn openings_match<C, D>(traces: Seq<ChipTrace<C>>, openings: Seq<ChipTraceOpening<D>>, kind: u8) -> bool {
    &&& traces.len() == openings.len()
    &&& forall|k: int|
        0 <= k < traces.len() ==> match (#[trigger] trace_of_kind(traces[k], kind), opening_of_kind(openings[k], kind)) {
            (Some(t), Some(o)) => t.0 == o.domain_size,
            (None, None) => true,
            _ => false,
        }
}

/// The verifier's quotient chunks match the prover's: a chip has them
/// exactly when it has a quotient degree, as many as that degree.
pub open spec fn quotients_match<C, D>(traces: Seq<ChipTrace<C>>, openings: Seq<ChipTraceOpening<D>>) -> bool {
    &&& traces.len() == openings.len()
    &&& forall|k: int|
        0 <= k < traces.len() ==> match (#[trigger] traces[k].quotient_degree, openings[k].quotient_chunks) {
            (Some(d), Some(q)) => q.traces.len() == d,
            (None, None) => true,
            _ => false,
        }
}

/// When the verifier's openings sit where the prover's traces do, the
/// verifier checks each opened value at the very point the prover opened it
/// at: the points of each verifier round are those of the prover's round
/// of the same kind.
pub proof fn verifier_rounds_match_prover_rounds<C, D>(
    traces: Seq<ChipTrace<C>>,
    openings: Seq<ChipTraceOpening<D>>,
    zeta: Seq<u32>,
    kind: u8,
)
    requires
        openings_match(traces, openings, kind),
        quotients_match(traces, openings),
    ensures
        points_of(verifier_adjacent_round(openings, kind, zeta, openings.len() as int)) == adjacent_round(
            traces,
            kind,
            zeta,
            traces.len() as int,
        ),
        points_of(verifier_quotient_round(openings, zeta, openings.len() as int)) == quotient_round(traces, zeta),
{
    lemma_adjacent_points(traces, openings, zeta, kind, traces.len() as int);
    lemma_quotient_points(traces, openings, zeta, traces.len() as int);
}

proof fn lemma_adjacent_points<C, D>(
    traces: Seq<ChipTrace<C>>,
    openings: Seq<ChipTraceOpening<D>>,
    zeta: Seq<u32>,
    kind: u8,
    n: int,
)
    requires
        openings_match(traces, openings, kind),
        0 <= n <= traces.len(),
    ensures
        points_of(verifier_adjacent_round(openings, kind, zeta, n)) == adjacent_round(traces, kind, zeta, n),
    decreases n,
{
    if n > 0 {
        lemma_adjacent_points(traces, openings, zeta, kind, n - 1);
        let prev = verifier_adjacent_round(openings, kind, zeta, n - 1);
        assert(trace_of_kind(traces[n - 1], kind) is Some <==> opening_of_kind(openings[n - 1], kind) is Some);
        match opening_of_kind(openings[n - 1], kind) {
            Some(o) => {
                let entry = (
                    o.domain_size,
                    seq![(zeta, o.values.local@), (next_point_of(o.domain_size, zeta), o.values.next@)],
                );
                let t = trace_of_kind(traces[n - 1], kind)->0;
                assert(entry.1.map_values(|p: (Seq<u32>, Seq<[u32; 4]>)| p.0) =~= trace_points(t, zeta));
                assert(points_of(prev.push(entry)) =~= points_of(prev).push(trace_points(t, zeta)));
            },
            None => {},
        }
    } else {
        assert(points_of(verifier_adjacent_round(openings, kind, zeta, 0)) =~= seq![]);
    }
}

proof fn lemma_quotient_points<C, D>(
    traces: Seq<ChipTrace<C>>,
    openings: Seq<ChipTraceOpening<D>>,
    zeta: Seq<u32>,
    n: int,
)
    requires
        quotients_match(traces, openings),
        0 <= n <= traces.len(),
    ensures
        points_of(verifier_quotient_round(openings, zeta, n)) == Seq::new(
            quotient_start(traces, n),
            |j: int| seq![zeta],
        ),
    decreases n,
{
    if n > 0 {
        lemma_quotient_points(traces, openings, zeta, n - 1);
        let prev = verifier_quotient_round(openings, zeta, n - 1);
        assert(traces[n - 1].quotient_degree is Some <==> openings[n - 1].quotient_chunks is Some);
        match openings[n - 1].quotient_chunks {
            Some(q) => {
                let more = Seq::new(
                    q.traces.len() as nat,
                    |i: int| (q.traces[i].domain_size, seq![(zeta, q.traces[i].values@)]),
                );
                assert(traces[n - 1].quotient_degree == Some(q.traces.len() as usize));
                assert(quotient_start(traces, n) == quotient_start(traces, n - 1) + q.traces.len());
                let target = Seq::new(quotient_start(traces, n), |j: int| seq![zeta]);
                let pts = points_of(prev + more);
                assert(points_of(prev).len() == prev.len());
                assert(prev.len() == quotient_start(traces, n - 1));
                assert(more.len() == q.traces.len());
                assert(pts.len() == (prev + more).len());
                assert(pts.len() == target.len());
                assert forall|j: int| 0 <= j < pts.len() implies pts[j] =~= target[j] by {
                    if j < prev.len() {
                        assert(pts[j] == points_of(prev)[j]);
                    } else {
                        let e = more[j - prev.len()];
                        assert((prev + more)[j] == e);
                        assert(e.1.map_values(|p: (Seq<u32>, Seq<[u32; 4]>)| p.0) =~= seq![zeta]);
                    }
                }
                assert(pts =~= target);
            },
            None => {
                assert(points_of(prev) =~= Seq::new(quotient_start(traces, n), |j: int| seq![zeta]));
            },
        }
    } else {
        assert(points_of(verifier_quotient_round(openings, zeta, 0)) =~= Seq::new(
            quotient_start(traces, 0),
            |j: int| seq![zeta],
        ));
    }
}

} // verus!
