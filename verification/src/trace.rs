use vstd::arithmetic::div_mod::{lemma_add_mod_noop, lemma_mod_twice, lemma_small_mod};
use vstd::arithmetic::power2::pow2;
use vstd::prelude::*;

use crate::chip::{get_quotient_degree, quotient_degree_of, Rap};
use crate::check_constraints::{check_constraints, check_inputs_ok, constraints_hold_at};
use crate::permutation::{
    bus_challenges, challenges_ok, generate_permutation_trace, is_permutation_trace, permutation_inputs_ok,
    tagged_interactions,
};
use crate::ext::{e_add, ext_canonical};
use crate::field::{fz, P};
use crate::util::is_power_of_two;


verus! {

/// A trace and the size of the domain it is evaluated over.
pub struct Trace<F> {
    pub value: Vec<Vec<F>>,
    pub domain_size: usize,
}

/// A trace together with its place among the traces committed in one round.
pub struct IndexedTrace<F> {
    pub trace: Trace<F>,
    pub opening_index: usize,
}

/// The quotient chunks of one chip, and their place among the quotient
/// traces committed.
pub struct QuotientTrace {
    pub traces: Vec<Trace<u32>>,
    pub opening_index: usize,
}

/// The traces of one chip, as the prover fills them in round by round.
pub struct ChipTrace<C> {
    pub chip: C,
    pub preprocessed: Option<IndexedTrace<u32>>,
    pub main: Option<IndexedTrace<u32>>,
    pub permutation: Option<IndexedTrace<[u32; 4]>>,
    pub cumulative_sum: Option<[u32; 4]>,
    pub quotient_chunks: Option<QuotientTrace>,
    pub quotient_degree: Option<usize>,
}

/// The domain size of an optional indexed trace.
pub open spec fn domain_size_of<F>(t: Option<IndexedTrace<F>>) -> Option<usize> {
    match t {
        Some(t) => Some(t.trace.domain_size),
        None => None,
    }
}

impl<C> ChipTrace<C> {
    /// A chip with no trace yet.
    pub fn new(chip: C) -> (r: Self)
        ensures
            r.chip == chip,
            r.preprocessed is None,
            r.main is None,
            r.permutation is None,
            r.cumulative_sum is None,
            r.quotient_chunks is None,
            r.quotient_degree is None,
    {
        ChipTrace {
            chip,
            preprocessed: None,
            main: None,
            permutation: None,
            cumulative_sum: None,
            quotient_chunks: None,
            quotient_degree: None,
        }
    }

    /// The domain of the chip: the larger of its preprocessed and main
    /// domains, or whichever it has.
    pub fn domain(&self) -> (r: Option<usize>)
        ensures
            r == match (domain_size_of(self.preprocessed), domain_size_of(self.main)) {
                (Some(p), Some(m)) => Some(if m > p { m } else { p }),
                (Some(p), None) => Some(p),
                (None, Some(m)) => Some(m),
                (None, None) => None,
            },
    {
        match (&self.preprocessed, &self.main) {
            (Some(preprocessed), Some(main)) => {
                let preprocessed_domain = preprocessed.trace.domain_size;
                let main_domain = main.trace.domain_size;
                if main_domain > preprocessed_domain {
                    Some(main_domain)
                } else {
                    Some(preprocessed_domain)
                }
            },
            (Some(preprocessed), None) => Some(preprocessed.trace.domain_size),
            (None, Some(main)) => Some(main.trace.domain_size),
            (None, None) => None,
        }
    }
}

/// The number of traces among the first `k` that are present and not empty.
pub open spec fn num_loaded<F>(traces: Seq<Option<Vec<Vec<F>>>>, k: int) -> nat
    decreases k,
{
    if k <= 0 {
        0
    } else {
        num_loaded(traces, k - 1) + match traces[k - 1] {
            Some(t) => if t@.len() > 0 {
                1nat
            } else {
                0nat
            },
            None => 0nat,
        }
    }
}

/// Loads traces for commitment: each trace that is present and not empty is
/// placed on the domain of its height and numbered in order; the others are
/// left out.
pub fn load_traces<F>(traces: Vec<Option<Vec<Vec<F>>>>) -> (r: Vec<Option<IndexedTrace<F>>>)
    ensures
        r.len() == traces.len(),
        forall|k: int|
            0 <= k < traces.len() ==> match (#[trigger] traces[k], r[k]) {
                (Some(t), Some(it)) => t@.len() > 0 && it.trace.value@ == t@ && it.trace.domain_size
                    == t@.len() && it.opening_index == num_loaded(traces@, k),
                (Some(t), None) => t@.len() == 0,
                (None, None) => true,
                (None, Some(_)) => false,
            },
{
    let ghost input = traces@;
    let mut count: usize = 0;
    let mut r: Vec<Option<IndexedTrace<F>>> = Vec::new();
    let mut traces = traces;
    let mut k: usize = 0;
    let n = traces.len();
    while k < n
        invariant
            k <= n,
            input.len() == n,
            traces@ == input.skip(k as int),
            count == num_loaded(input, k as int),
            count <= k,
            r.len() == k,
            forall|j: int|
                0 <= j < k ==> match (#[trigger] input[j], r[j]) {
                    (Some(t), Some(it)) => t@.len() > 0 && it.trace.value@ == t@ && it.trace.domain_size
                        == t@.len() && it.opening_index == num_loaded(input, j),
                    (Some(t), None) => t@.len() == 0,
                    (None, None) => true,
                    (None, Some(_)) => false,
                },
        decreases n - k,
    {
        let t = traces.remove(0);
        assert(t == input[k as int]);
        assert(traces@ =~= input.skip(k + 1));
        match t {
            Some(trace) => {
                let degree = trace.len();
                if degree > 0 {
                    let index = count;
                    count = count + 1;
                    r.push(Some(IndexedTrace { trace: Trace { value: trace, domain_size: degree }, opening_index: index }));
                } else {
                    r.push(None);
                }
            },
            None => {
                r.push(None);
            },
        }
        k = k + 1;
    }
    r
}

/// The values of a trace opened at a point and at the point after it, each
/// in the extension.
pub struct AdjacentOpenedValues {
    pub local: Vec<[u32; 4]>,
    pub next: Vec<[u32; 4]>,
}

/// The values opened for one chip.
pub struct OpenedValues {
    pub preprocessed: Option<AdjacentOpenedValues>,
    pub main: Option<AdjacentOpenedValues>,
    pub permutation: Option<AdjacentOpenedValues>,
    pub quotient_chunks: Option<Vec<Vec<[u32; 4]>>>,
}

/// The values opened for one commitment round: for each committed matrix,
/// for each opening point, the opened values.
pub type OpenedValuesForRound = Vec<Vec<Vec<[u32; 4]>>>;

/// The number of quotient chunks of the chips before chip `k`.
pub open spec fn quotient_start<C>(chips: Seq<ChipTrace<C>>, k: int) -> nat
    decreases k,
{
    if k <= 0 {
        0
    } else {
        quotient_start(chips, k - 1) + match chips[k - 1].quotient_degree {
            Some(d) => d as nat,
            None => 0nat,
        }
    }
}

/// The opening index of an optional indexed trace.
pub open spec fn opening_index_of<F>(t: Option<IndexedTrace<F>>) -> Option<usize> {
    match t {
        Some(t) => Some(t.opening_index),
        None => None,
    }
}

/// A matrix of a round was opened at exactly two points.
pub open spec fn adjacent_ok(round: Seq<Vec<Vec<[u32; 4]>>>, index: Option<usize>) -> bool {
    index matches Some(i) ==> i < round.len() && round[i as int]@.len() == 2
}

/// The values unflattened for a matrix opened at two points: present
/// exactly when the round was committed and the chip has that trace.
pub open spec fn adjacent_of(
    present: bool,
    round: Seq<Vec<Vec<[u32; 4]>>>,
    index: Option<usize>,
    r: Option<AdjacentOpenedValues>,
) -> bool {
    if present && index is Some {
        let i = index->0 as int;
        r matches Some(a) && a.local@ == round[i]@[0]@ && a.next@ == round[i]@[1]@
    } else {
        r is None
    }
}

/// 1 for a present round, 0 for an absent one.
pub open spec fn present(b: bool) -> int {
    if b {
        1
    } else {
        0
    }
}

/// Which trace of a chip: preprocessed (0), main (1) or permutation (2).
pub open spec fn index_of_kind<C>(chip: ChipTrace<C>, kind: u8) -> Option<usize> {
    if kind == 0 {
        opening_index_of(chip.preprocessed)
    } else if kind == 1 {
        opening_index_of(chip.main)
    } else {
        opening_index_of(chip.permutation)
    }
}

/// The opening index of one kind of trace of every chip.
fn opening_indices<C>(chips: &Vec<ChipTrace<C>>, kind: u8) -> (r: Vec<Option<usize>>)
    ensures
        r.len() == chips.len(),
        forall|k: int| 0 <= k < chips.len() ==> r[k] == index_of_kind(#[trigger] chips[k], kind),
{
    let mut r: Vec<Option<usize>> = Vec::new();
    for k in 0..chips.len()
        invariant
            r.len() == k,
            forall|j: int| 0 <= j < k ==> r[j] == index_of_kind(#[trigger] chips[j], kind),
    {
        let index = if kind == 0 {
            match &chips[k].preprocessed {
                Some(t) => Some(t.opening_index),
                None => None,
            }
        } else if kind == 1 {
            match &chips[k].main {
                Some(t) => Some(t.opening_index),
                None => None,
            }
        } else {
            match &chips[k].permutation {
                Some(t) => Some(t.opening_index),
                None => None,
            }
        };
        r.push(index);
    }
    r
}

/// A copy of a list of values.
pub(crate) fn copy_values(v: &Vec<[u32; 4]>) -> (r: Vec<[u32; 4]>)
    ensures
        r@ == v@,
{
    let mut r: Vec<[u32; 4]> = Vec::new();
    for i in 0..v.len()
        invariant
            r@ == v@.take(i as int),
    {
        r.push(v[i]);
        assert(r@ =~= v@.take(i + 1));
    }
    assert(v@.take(v.len() as int) =~= v@);
    r
}

/// The local and next values of the matrix at each index of a round.
fn unflatten_adjacent(round: &OpenedValuesForRound, indices: &Vec<Option<usize>>) -> (r: Vec<
    Option<AdjacentOpenedValues>,
>)
    requires
        forall|k: int| 0 <= k < indices.len() ==> adjacent_ok(round@, #[trigger] indices[k]),
    ensures
        r.len() == indices.len(),
        forall|k: int| 0 <= k < indices.len() ==> adjacent_of(true, round@, #[trigger] indices[k], r[k]),
{
    let mut r: Vec<Option<AdjacentOpenedValues>> = Vec::new();
    for k in 0..indices.len()
        invariant
            forall|j: int| 0 <= j < indices.len() ==> adjacent_ok(round@, #[trigger] indices[j]),
            r.len() == k,
            forall|j: int| 0 <= j < k ==> adjacent_of(true, round@, #[trigger] indices[j], r[j]),
    {
        assert(adjacent_ok(round@, indices[k as int]));
        match indices[k] {
            Some(i) => {
                let openings = &round[i];
                let local = copy_values(&openings[0]);
                let next = copy_values(&openings[1]);
                r.push(Some(AdjacentOpenedValues { local, next }));
            },
            None => {
                r.push(None);
            },
        }
    }
    r
}

/// The quotient chunks are counted in chip order.
proof fn lemma_quotient_start_monotone<C>(chips: Seq<ChipTrace<C>>, a: int, b: int)
    requires
        0 <= a <= b,
    ensures
        quotient_start(chips, a) <= quotient_start(chips, b),
    decreases b - a,
{
    if a < b {
        lemma_quotient_start_monotone(chips, a, b - 1);
    }
}

/// The quotient chunks of each chip, each opened at one point.
fn unflatten_quotient<C>(chips: &Vec<ChipTrace<C>>, openings: &OpenedValuesForRound) -> (r: Vec<Option<Vec<Vec<[u32; 4]>>>>)
    requires
        quotient_start(chips@, chips.len() as int) <= openings@.len(),
        forall|c: int|
            0 <= c < quotient_start(chips@, chips.len() as int) ==> (#[trigger] openings@[c])@.len() == 1,
    ensures
        r.len() == chips.len(),
        forall|k: int|
            0 <= k < chips.len() ==> if (#[trigger] chips[k]).quotient_degree is Some {
                let d = chips[k].quotient_degree->0 as int;
                &&& r[k] matches Some(chunks) && chunks.len() == d
                &&& forall|c: int|
                    0 <= c < d ==> (#[trigger] r[k]->0[c])@ == openings@[quotient_start(chips@, k) + c]@[0]@
            } else {
                r[k] is None
            },
{
    let n = chips.len();
    let mut r: Vec<Option<Vec<Vec<[u32; 4]>>>> = Vec::new();
    let mut start: usize = 0;
    for k in 0..n
        invariant
            n == chips.len(),
            quotient_start(chips@, chips.len() as int) <= openings@.len(),
            forall|c: int|
                0 <= c < quotient_start(chips@, chips.len() as int) ==> (#[trigger] openings@[c])@.len() == 1,
            start == quotient_start(chips@, k as int),
            r.len() == k,
            forall|j: int|
                0 <= j < k ==> if (#[trigger] chips[j]).quotient_degree is Some {
                    let d = chips[j].quotient_degree->0 as int;
                    &&& r[j] matches Some(chunks) && chunks.len() == d
                    &&& forall|c: int|
                        0 <= c < d ==> (#[trigger] r[j]->0[c])@ == openings@[quotient_start(chips@, j) + c]@[0]@
                } else {
                    r[j] is None
                },
    {
        proof {
            lemma_quotient_start_monotone(chips@, k + 1, chips.len() as int);
        }
        match chips[k].quotient_degree {
            Some(degree) => {
                assert(quotient_start(chips@, k + 1) == start + degree);
                assert(openings.len() == openings@.len());
                let end = start + degree;
                let mut chunks: Vec<Vec<[u32; 4]>> = Vec::new();
                let mut c = start;
                while c < end
                    invariant
                        start <= c <= end,
                        end <= quotient_start(chips@, chips.len() as int),
                        quotient_start(chips@, chips.len() as int) <= openings@.len(),
                        forall|x: int|
                            0 <= x < quotient_start(chips@, chips.len() as int) ==> (#[trigger] openings@[x])@.len() == 1,
                        chunks.len() == c - start,
                        forall|x: int| 0 <= x < c - start ==> (#[trigger] chunks[x])@ == openings@[start + x]@[0]@,
                    decreases end - c,
                {
                    assert(openings@[c as int]@.len() == 1);
                    chunks.push(copy_values(&openings[c][0]));
                    c = c + 1;
                }
                r.push(Some(chunks));
                start = end;
            },
            None => {
                r.push(None);
            },
        }
    }
    r
}

/// Splits the values opened for each commitment round back into the values
/// of each chip: its preprocessed, main and permutation traces, each opened
/// at two points, and its quotient chunks, each opened at one point. The
/// rounds were committed in the order preprocessed, main, permutation,
/// quotient, each only when present, and are read from the last one back.
pub fn unflatten_openings<C>(
    chips: &Vec<ChipTrace<C>>,
    opening_values: Vec<OpenedValuesForRound>,
    has_preprocessed: bool,
    has_main: bool,
    has_permutation: bool,
    has_quotient: bool,
) -> (r: Vec<OpenedValues>)
    requires
        opening_values.len() >= present(has_quotient) + present(has_permutation) + present(has_main) + present(
            has_preprocessed,
        ),
        has_quotient ==> quotient_start(chips@, chips.len() as int) <= opening_values@.last()@.len(),
        has_quotient ==> forall|c: int|
            0 <= c < quotient_start(chips@, chips.len() as int) ==> (#[trigger] opening_values@.last()@[c])@.len()
                == 1,
        has_permutation ==> forall|k: int|
            0 <= k < chips.len() ==> adjacent_ok(
                opening_values@[opening_values.len() - 1 - present(has_quotient)]@,
                opening_index_of(#[trigger] chips[k].permutation),
            ),
        has_main ==> forall|k: int|
            0 <= k < chips.len() ==> adjacent_ok(
                opening_values@[opening_values.len() - 1 - present(has_quotient) - present(has_permutation)]@,
                opening_index_of(#[trigger] chips[k].main),
            ),
        has_preprocessed ==> forall|k: int|
            0 <= k < chips.len() ==> adjacent_ok(
                opening_values@[opening_values.len() - 1 - present(has_quotient) - present(has_permutation)
                    - present(has_main)]@,
                opening_index_of(#[trigger] chips[k].preprocessed),
            ),
    ensures
        r.len() == chips.len(),
        forall|k: int|
            0 <= k < chips.len() ==> adjacent_of(
                has_permutation,
                opening_values@[opening_values.len() - 1 - present(has_quotient)]@,
                opening_index_of(#[trigger] chips[k].permutation),
                r[k].permutation,
            ),
        forall|k: int|
            0 <= k < chips.len() ==> adjacent_of(
                has_main,
                opening_values@[opening_values.len() - 1 - present(has_quotient) - present(has_permutation)]@,
                opening_index_of(#[trigger] chips[k].main),
                r[k].main,
            ),
        forall|k: int|
            0 <= k < chips.len() ==> adjacent_of(
                has_preprocessed,
                opening_values@[opening_values.len() - 1 - present(has_quotient) - present(has_permutation)
                    - present(has_main)]@,
                opening_index_of(#[trigger] chips[k].preprocessed),
                r[k].preprocessed,
            ),
        forall|k: int|
            0 <= k < chips.len() ==> if has_quotient && (#[trigger] chips[k]).quotient_degree is Some {
                let d = chips[k].quotient_degree->0 as int;
                &&& r[k].quotient_chunks matches Some(chunks) && chunks.len() == d
                &&& forall|c: int|
                    0 <= c < d ==> (#[trigger] r[k].quotient_chunks->0[c])@ == opening_values@.last()@[quotient_start(
                        chips@,
                        k,
                    ) + c]@[0]@
            } else {
                r[k].quotient_chunks is None
            },
{
    let n = chips.len();
    let len = opening_values.len();
    let mut round = len;
    let quotient_openings = if has_quotient {
        round = round - 1;
        Some(unflatten_quotient(chips, &opening_values[round]))
    } else {
        None
    };
    assert(round == len - present(has_quotient));
    let permutation_openings = if has_permutation {
        round = round - 1;
        let indices = opening_indices(chips, 2);
        assert forall|k: int| 0 <= k < indices.len() implies adjacent_ok(opening_values[round as int]@, #[trigger] indices[k]) by {
            assert(indices[k] == opening_index_of(chips[k].permutation));
        }
        Some(unflatten_adjacent(&opening_values[round], &indices))
    } else {
        None
    };
    assert(round == len - present(has_quotient) - present(has_permutation));
    let main_openings = if has_main {
        round = round - 1;
        let indices = opening_indices(chips, 1);
        assert forall|k: int| 0 <= k < indices.len() implies adjacent_ok(opening_values[round as int]@, #[trigger] indices[k]) by {
            assert(indices[k] == opening_index_of(chips[k].main));
        }
        Some(unflatten_adjacent(&opening_values[round], &indices))
    } else {
        None
    };
    assert(round == len - present(has_quotient) - present(has_permutation) - present(has_main));
    let preprocessed_openings = if has_preprocessed {
        round = round - 1;
        let indices = opening_indices(chips, 0);
        assert forall|k: int| 0 <= k < indices.len() implies adjacent_ok(opening_values[round as int]@, #[trigger] indices[k]) by {
            assert(indices[k] == opening_index_of(chips[k].preprocessed));
        }
        Some(unflatten_adjacent(&opening_values[round], &indices))
    } else {
        None
    };
    let mut quotient_openings = quotient_openings;
    let mut permutation_openings = permutation_openings;
    let mut main_openings = main_openings;
    let mut preprocessed_openings = preprocessed_openings;
    let ghost q0 = quotient_openings;
    let ghost p0 = permutation_openings;
    let ghost m0 = main_openings;
    let ghost pre0 = preprocessed_openings;
    // Gather each chip's values in order.
    let mut r: Vec<OpenedValues> = Vec::new();
    let mut k: usize = 0;
    while k < n
        invariant
            k <= n,
            n == chips.len(),
            r.len() == k,
            q0 matches Some(v) ==> v.len() == n,
            p0 matches Some(v) ==> v.len() == n,
            m0 matches Some(v) ==> v.len() == n,
            pre0 matches Some(v) ==> v.len() == n,
            quotient_openings is Some == q0 is Some,
            permutation_openings is Some == p0 is Some,
            main_openings is Some == m0 is Some,
            preprocessed_openings is Some == pre0 is Some,
            quotient_openings matches Some(v) ==> v@ == q0->0@.skip(k as int),
            permutation_openings matches Some(v) ==> v@ == p0->0@.skip(k as int),
            main_openings matches Some(v) ==> v@ == m0->0@.skip(k as int),
            preprocessed_openings matches Some(v) ==> v@ == pre0->0@.skip(k as int),
            forall|j: int|
                0 <= j < k ==> {
                    &&& (#[trigger] r[j]).quotient_chunks == match q0 {
                        Some(v) => v[j],
                        None => None,
                    }
                    &&& r[j].permutation == match p0 {
                        Some(v) => v[j],
                        None => None,
                    }
                    &&& r[j].main == match m0 {
                        Some(v) => v[j],
                        None => None,
                    }
                    &&& r[j].preprocessed == match pre0 {
                        Some(v) => v[j],
                        None => None,
                    }
                },
        decreases n - k,
    {
        let quotient_chunks = match &mut quotient_openings {
            Some(v) => {
                assert(v@.skip(1) =~= q0->0@.skip(k + 1));
                v.remove(0)
            },
            None => None,
        };
        let permutation = match &mut permutation_openings {
            Some(v) => {
                assert(v@.skip(1) =~= p0->0@.skip(k + 1));
                v.remove(0)
            },
            None => None,
        };
        let main = match &mut main_openings {
            Some(v) => {
                assert(v@.skip(1) =~= m0->0@.skip(k + 1));
                v.remove(0)
            },
            None => None,
        };
        let preprocessed = match &mut preprocessed_openings {
            Some(v) => {
                assert(v@.skip(1) =~= pre0->0@.skip(k + 1));
                v.remove(0)
            },
            None => None,
        };
        r.push(OpenedValues { preprocessed, main, permutation, quotient_chunks });
        k = k + 1;
    }
    r
}

/// The proof of one chip: the degree of its domain, its opened values and
/// its cumulative sum.
pub struct InteractionAirProof {
    pub degree: usize,
    pub opened_values: OpenedValues,
    pub cumulative_sum: Option<[u32; 4]>,
}

/// The domain size of a chip's traces, as [`ChipTrace::domain`] gives it.
pub open spec fn chip_domain<C>(chip: ChipTrace<C>) -> Option<usize> {
    match (domain_size_of(chip.preprocessed), domain_size_of(chip.main)) {
        (Some(p), Some(m)) => Some(if m > p { m } else { p }),
        (Some(p), None) => Some(p),
        (None, Some(m)) => Some(m),
        (None, None) => None,
    }
}

/// The proof of each chip that has a domain: the domain's size, the chip's
/// opened values and its cumulative sum.
pub fn generate_proofs<C>(chips: &Vec<ChipTrace<C>>, openings: Vec<OpenedValues>) -> (r: Vec<
    Option<InteractionAirProof>,
>)
    requires
        openings.len() == chips.len(),
    ensures
        r.len() == chips.len(),
        forall|k: int|
            0 <= k < chips.len() ==> match chip_domain(#[trigger] chips[k]) {
                Some(d) => r[k] matches Some(p) && p.degree == d && p.opened_values == openings[k]
                    && p.cumulative_sum == chips[k].cumulative_sum,
                None => r[k] is None,
            },
{
    let ghost input = openings@;
    let mut openings = openings;
    let mut r: Vec<Option<InteractionAirProof>> = Vec::new();
    let n = chips.len();
    let mut k: usize = 0;
    while k < n
        invariant
            k <= n,
            n == chips.len(),
            input.len() == n,
            openings@ == input.skip(k as int),
            r.len() == k,
            forall|j: int|
                0 <= j < k ==> match chip_domain(#[trigger] chips[j]) {
                    Some(d) => r[j] matches Some(p) && p.degree == d && p.opened_values == input[j]
                        && p.cumulative_sum == chips[j].cumulative_sum,
                    None => r[j] is None,
                },
        decreases n - k,
    {
        let opened_values = openings.remove(0);
        assert(openings@ =~= input.skip(k + 1));
        let chip_trace = &chips[k];
        match chip_trace.domain() {
            Some(degree) => {
                r.push(Some(InteractionAirProof { degree, opened_values, cumulative_sum: chip_trace.cumulative_sum }));
            },
            None => {
                r.push(None);
            },
        }
        k = k + 1;
    }
    r
}

/// The values of a trace opened at two points, and the size of its domain.
pub struct TraceOpening {
    pub values: AdjacentOpenedValues,
    pub domain_size: usize,
}

/// The values of one quotient chunk opened at a point, each in the
/// extension, and the size of its domain.
pub struct SingleQuotientTraceOpening {
    pub values: Vec<[u32; 4]>,
    pub domain_size: usize,
}

/// The quotient chunks of one chip.
pub struct QuotientTraceOpening {
    pub traces: Vec<SingleQuotientTraceOpening>,
}

/// What the verifier holds of one chip: its opened traces, its cumulative
/// sum and its quotient chunks.
pub struct ChipTraceOpening<C> {
    pub chip: C,
    pub preprocessed: Option<TraceOpening>,
    pub main: Option<TraceOpening>,
    pub permutation: Option<TraceOpening>,
    pub cumulative_sum: Option<[u32; 4]>,
    pub quotient_chunks: Option<QuotientTraceOpening>,
    pub quotient_degree: Option<usize>,
}

/// The domain size of an optional opening.
pub open spec fn opening_domain_size(t: Option<TraceOpening>) -> Option<usize> {
    match t {
        Some(t) => Some(t.domain_size),
        None => None,
    }
}

impl<C> ChipTraceOpening<C> {
    /// A chip with nothing opened yet.
    pub fn new(chip: C) -> (r: Self)
        ensures
            r.chip == chip,
            r.preprocessed is None,
            r.main is None,
            r.permutation is None,
            r.cumulative_sum is None,
            r.quotient_chunks is None,
            r.quotient_degree is None,
    {
        ChipTraceOpening {
            chip,
            preprocessed: None,
            main: None,
            permutation: None,
            cumulative_sum: None,
            quotient_chunks: None,
            quotient_degree: None,
        }
    }

    /// The domain of the chip: the larger of its preprocessed and main
    /// domains, or whichever it has.
    pub fn domain(&self) -> (r: Option<usize>)
        ensures
            r == match (opening_domain_size(self.preprocessed), opening_domain_size(self.main)) {
                (Some(p), Some(m)) => Some(if m > p { m } else { p }),
                (Some(p), None) => Some(p),
                (None, Some(m)) => Some(m),
                (None, None) => None,
            },
    {
        match (&self.preprocessed, &self.main) {
            (Some(preprocessed), Some(main)) => {
                if main.domain_size > preprocessed.domain_size {
                    Some(main.domain_size)
                } else {
                    Some(preprocessed.domain_size)
                }
            },
            (Some(preprocessed), None) => Some(preprocessed.domain_size),
            (None, Some(main)) => Some(main.domain_size),
            (None, None) => None,
        }
    }
}

/// Why a proof is rejected.
#[derive(Clone, Copy, PartialEq, Eq, Structural, Debug)]
pub enum VerificationError {
    /// The opened values do not have the shape the chips call for.
    InvalidProofShape,
    /// The opening proof does not check out.
    InvalidOpeningArgument,
    /// The constraints at the out-of-domain point do not match the quotient.
    OodEvaluationMismatch,
    /// The cumulative sums of the chips do not add up to zero.
    NonZeroCumulativeSum,
}

/// Coefficient `c` of the sum of the cumulative sums that the chips have.
pub open spec fn opened_cumulative_sum<C>(chips: Seq<ChipTraceOpening<C>>, c: int) -> int
    decreases chips.len(),
{
    if chips.len() == 0 {
        0
    } else {
        opened_cumulative_sum(chips.drop_last(), c) + match chips.last().cumulative_sum {
            Some(s) => s[c] as int,
            None => 0,
        }
    }
}

/// Checks that the cumulative sums of all chips add up to zero.
pub fn verify_cumulative_sums<C>(chips: &Vec<ChipTraceOpening<C>>) -> (r: Result<(), VerificationError>)
    requires
        forall|k: int| 0 <= k < chips.len() ==> ((#[trigger] chips[k]).cumulative_sum matches Some(s) ==> ext_canonical(s@)),
    ensures
        r is Ok <==> forall|c: int| 0 <= c < 4 ==> fz(#[trigger] opened_cumulative_sum(chips@, c)),
        r matches Err(e) ==> e == VerificationError::NonZeroCumulativeSum,
{
    let mut sum: [u32; 4] = [0, 0, 0, 0];
    proof {
        assert(chips@.take(0) =~= Seq::<ChipTraceOpening<C>>::empty());
        lemma_small_mod(0, P as nat);
    }
    for k in 0..chips.len()
        invariant
            forall|j: int| 0 <= j < chips.len() ==> ((#[trigger] chips[j]).cumulative_sum matches Some(s) ==> ext_canonical(s@)),
            ext_canonical(sum@),
            forall|c: int| 0 <= c < 4 ==> #[trigger] sum[c] == opened_cumulative_sum(chips@.take(k as int), c) % (P as int),
    {
        assert(chips@.take(k + 1).drop_last() =~= chips@.take(k as int));
        assert(chips@.take(k + 1).last() == chips@[k as int]);
        match chips[k].cumulative_sum {
            Some(s) => {
                assert(chips[k as int].cumulative_sum matches Some(s) ==> ext_canonical(s@));
                let ghost old_sum = sum;
                sum = e_add(sum, s);
                proof {
                    assert forall|c: int| 0 <= c < 4 implies #[trigger] sum[c] == opened_cumulative_sum(chips@.take(k + 1), c)
                        % (P as int) by {
                        let prev = opened_cumulative_sum(chips@.take(k as int), c);
                        lemma_add_mod_noop(prev, s[c] as int, P as int);
                        lemma_mod_twice(prev, P as int);
                        lemma_small_mod(s[c] as nat, P as nat);
                    }
                }
            },
            None => {},
        }
    }
    assert(chips@.take(chips.len() as int) =~= chips@);
    proof {
        assert forall|c: int| 0 <= c < 4 implies (sum[c] == 0) == fz(#[trigger] opened_cumulative_sum(chips@, c)) by {
            lemma_small_mod(sum[c] as nat, P as nat);
        }
    }
    if sum[0] != 0 || sum[1] != 0 || sum[2] != 0 || sum[3] != 0 {
        return Err(VerificationError::NonZeroCumulativeSum);
    }
    Ok(())
}

/// The opened values of a chip have the shape its AIR calls for: a main
/// row of its width at both points, and as many quotient chunks as the
/// degree of its constraints calls for, each of `challenge_degree` values.
pub open spec fn shape_ok<C: Rap>(chip: ChipTraceOpening<C>, challenge_degree: usize) -> bool {
    &&& chip.main matches Some(m) ==> m.values.local@.len() == chip.chip.spec_width() && m.values.next@.len()
        == chip.chip.spec_width()
    &&& chip.quotient_chunks matches Some(q) ==> q.traces@.len() == quotient_degree_of(
        chip.chip.spec_constraint_degree(),
    ) && forall|c: int| 0 <= c < q.traces.len() ==> (#[trigger] q.traces[c]).values@.len() == challenge_degree
}

/// Checks that the opened values of every chip have the shape its AIR calls
/// for.
pub fn verify_shapes<C: Rap>(chips: &Vec<ChipTraceOpening<C>>, challenge_degree: usize) -> (r: Result<
    (),
    VerificationError,
>)
    ensures
        r is Ok <==> forall|k: int| 0 <= k < chips.len() ==> shape_ok(#[trigger] chips[k], challenge_degree),
        r matches Err(e) ==> e == VerificationError::InvalidProofShape,
{
    for k in 0..chips.len()
        invariant
            forall|j: int| 0 <= j < k ==> shape_ok(#[trigger] chips[j], challenge_degree),
    {
        let chip_trace = &chips[k];
        let main_width = chip_trace.chip.width();
        match &chip_trace.main {
            Some(main) => {
                if main.values.local.len() != main_width {
                    return Err(VerificationError::InvalidProofShape);
                }
                if main.values.next.len() != main_width {
                    return Err(VerificationError::InvalidProofShape);
                }
            },
            None => {},
        }
        match &chip_trace.quotient_chunks {
            Some(quotient_chunks) => {
                let quotient_degree = get_quotient_degree(&chip_trace.chip);
                if quotient_chunks.traces.len() != quotient_degree {
                    return Err(VerificationError::InvalidProofShape);
                }
                for c in 0..quotient_chunks.traces.len()
                    invariant
                        k < chips.len(),
                        chip_trace == &chips[k as int],
                        chip_trace.quotient_chunks == Some(*quotient_chunks),
                        forall|x: int| 0 <= x < c ==> (#[trigger] quotient_chunks.traces[x]).values@.len() == challenge_degree,
                {
                    if quotient_chunks.traces[c].values.len() != challenge_degree {
                        assert(chips[k as int].quotient_chunks == Some(*quotient_chunks));
                        assert(!shape_ok(chips[k as int], challenge_degree));
                        return Err(VerificationError::InvalidProofShape);
                    }
                }
            },
            None => {},
        }
    }
    Ok(())
}

/// The opening of a trace of the given domain size, when it was opened.
pub open spec fn opened_on(values: Option<AdjacentOpenedValues>, domain_size: usize) -> Option<TraceOpening> {
    match values {
        Some(v) => Some(TraceOpening { values: v, domain_size }),
        None => None,
    }
}

/// The quotient chunks a proof opens fit the chip: as many as the degree of
/// its constraints calls for.
pub open spec fn proof_fits<C: Rap>(chip: C, chip_proof: Option<InteractionAirProof>, preprocessed_degree: usize) -> bool {
    chip_proof matches Some(p) ==> {
        &&& is_power_of_two(p.degree as nat)
        &&& p.degree * quotient_degree_of(chip.spec_constraint_degree()) <= pow2(27)
        &&& p.opened_values.preprocessed is Some ==> is_power_of_two(preprocessed_degree as nat)
            && preprocessed_degree <= pow2(27)
        &&& p.opened_values.quotient_chunks matches Some(q) ==> q.len() == quotient_degree_of(
            chip.spec_constraint_degree(),
        )
    }
}

/// What loading a chip's proof makes of its opening: nothing changes
/// without a proof; with one, the opened traces are placed on the domain of
/// the proof's degree (the preprocessed one on that of its own degree), the
/// cumulative sum is the proof's, the quotient degree is the one the chip's
/// constraints call for, and each quotient chunk lies on a domain of the
/// proof's degree.
pub open spec fn opening_loaded<C: Rap>(
    before: ChipTraceOpening<C>,
    after: ChipTraceOpening<C>,
    chip_proof: Option<InteractionAirProof>,
    preprocessed_degree: usize,
) -> bool {
    match chip_proof {
        None => after == before,
        Some(p) => {
            &&& after.chip == before.chip
            &&& after.preprocessed == opened_on(p.opened_values.preprocessed, preprocessed_degree)
            &&& after.main == opened_on(p.opened_values.main, p.degree)
            &&& after.permutation == opened_on(p.opened_values.permutation, p.degree)
            &&& after.cumulative_sum == p.cumulative_sum
            &&& after.quotient_degree == Some(quotient_degree_of(before.chip.spec_constraint_degree()) as usize)
            &&& match p.opened_values.quotient_chunks {
                Some(chunks) => after.quotient_chunks matches Some(q) && q.traces.len() == chunks.len() && forall|i: int|
                    0 <= i < chunks.len() ==> (#[trigger] q.traces[i]).values == chunks[i] && q.traces[i].domain_size
                        == p.degree,
                None => after.quotient_chunks is None,
            }
        },
    }
}

/// The quotient chunks of a proof, each on a domain of the proof's degree.
fn chunk_openings(chunks: Vec<Vec<[u32; 4]>>, degree: usize) -> (r: QuotientTraceOpening)
    ensures
        r.traces.len() == chunks.len(),
        forall|i: int|
            0 <= i < chunks.len() ==> (#[trigger] r.traces[i]).values == chunks[i] && r.traces[i].domain_size == degree,
{
    let ghost input = chunks@;
    let mut chunks = chunks;
    let mut traces: Vec<SingleQuotientTraceOpening> = Vec::new();
    let n: usize = chunks.len();
    let mut i: usize = 0;
    while i < n
        invariant
            i <= n,
            n == input.len(),
            chunks@ == input.skip(i as int),
            traces.len() == i,
            forall|j: int| 0 <= j < i ==> (#[trigger] traces[j]).values == input[j] && traces[j].domain_size == degree,
        decreases n - i,
    {
        let values = chunks.remove(0);
        assert(chunks@ =~= input.skip(i + 1));
        traces.push(SingleQuotientTraceOpening { values, domain_size: degree });
        i = i + 1;
    }
    QuotientTraceOpening { traces }
}

/// Loads each chip's proof into its opening: the opened traces on their
/// domains, the cumulative sum, the quotient degree that the chip's
/// constraints call for, and the quotient chunks on their domains. Chips
/// without a proof are left as they are.
pub fn load_openings<C: Rap>(
    chips: &mut Vec<ChipTraceOpening<C>>,
    chip_proofs: Vec<Option<InteractionAirProof>>,
    preprocessed_degrees: Vec<usize>,
)
    requires
        chip_proofs.len() == old(chips).len(),
        preprocessed_degrees.len() == old(chips).len(),
        forall|k: int|
            0 <= k < old(chips).len() ==> proof_fits(
                #[trigger] old(chips)[k].chip,
                chip_proofs[k],
                preprocessed_degrees[k],
            ),
    ensures
        final(chips).len() == old(chips).len(),
        forall|k: int|
            0 <= k < old(chips).len() ==> opening_loaded(
                #[trigger] old(chips)[k],
                final(chips)[k],
                chip_proofs[k],
                preprocessed_degrees[k],
            ),
{
    let ghost before = chips@;
    let ghost proofs = chip_proofs@;
    let mut chip_proofs = chip_proofs;
    let n: usize = chips.len();
    let mut k: usize = 0;
    while k < n
        invariant
            k <= n,
            n == before.len(),
            chips.len() == n,
            proofs.len() == n,
            preprocessed_degrees.len() == n,
            chip_proofs@ == proofs.skip(k as int),
            forall|j: int| 0 <= j < n ==> proof_fits(#[trigger] before[j].chip, proofs[j], preprocessed_degrees[j]),
            forall|j: int| 0 <= j < k ==> opening_loaded(#[trigger] before[j], chips[j], proofs[j], preprocessed_degrees[j]),
            forall|j: int| k <= j < n ==> #[trigger] chips[j] == before[j],
        decreases n - k,
    {
        let next_proof = chip_proofs.remove(0);
        assert(chip_proofs@ =~= proofs.skip(k + 1));
        assert(next_proof == proofs[k as int]);
        match next_proof {
            Some(p) => {
                let degree: usize = p.degree;
                let preprocessed_degree: usize = preprocessed_degrees[k];
                let quotient_degree: usize = get_quotient_degree(&chips[k].chip);
                let opened = p.opened_values;
                chips[k].preprocessed = match opened.preprocessed {
                    Some(values) => Some(TraceOpening { values, domain_size: preprocessed_degree }),
                    None => None,
                };
                chips[k].main = match opened.main {
                    Some(values) => Some(TraceOpening { values, domain_size: degree }),
                    None => None,
                };
                chips[k].permutation = match opened.permutation {
                    Some(values) => Some(TraceOpening { values, domain_size: degree }),
                    None => None,
                };
                chips[k].cumulative_sum = p.cumulative_sum;
                chips[k].quotient_degree = Some(quotient_degree);
                chips[k].quotient_chunks = match opened.quotient_chunks {
                    Some(chunks) => Some(chunk_openings(chunks, degree)),
                    None => None,
                };
            },
            None => {},
        }
        k = k + 1;
    }
}

/// The prover's traces of all chips of a machine.
pub struct MachineTrace<C> {
    pub chips: Vec<ChipTrace<C>>,
}

/// The verifier's openings of all chips of a machine.
pub struct MachineTraceOpening<C> {
    pub chips: Vec<ChipTraceOpening<C>>,
}

/// Builds the prover's traces of a list of chips.
pub trait MachineTraceBuilder<C>: Sized {
    fn new(chips: &[C]) -> Self;
}

impl<C: Clone> MachineTraceBuilder<C> for MachineTrace<C> {
    /// One empty chip trace per chip, in order.
    fn new(chips: &[C]) -> (r: Self)
        ensures
            r.chips.len() == chips@.len(),
            forall|k: int|
                0 <= k < chips@.len() ==> cloned::<C>(chips@[k], (#[trigger] r.chips[k]).chip)
                    && r.chips[k].preprocessed is None && r.chips[k].main is None && r.chips[k].permutation is None
                    && r.chips[k].cumulative_sum is None && r.chips[k].quotient_chunks is None
                    && r.chips[k].quotient_degree is None,
    {
        let mut r: Vec<ChipTrace<C>> = Vec::new();
        for k in 0..chips.len()
            invariant
                r.len() == k,
                forall|j: int|
                    0 <= j < k ==> cloned::<C>(chips@[j], (#[trigger] r[j]).chip) && r[j].preprocessed is None
                        && r[j].main is None && r[j].permutation is None && r[j].cumulative_sum is None
                        && r[j].quotient_chunks is None && r[j].quotient_degree is None,
        {
            r.push(ChipTrace::new(chips[k].clone()));
        }
        MachineTrace { chips: r }
    }
}

/// Builds the verifier's openings of a list of chips.
pub trait MachineTraceOpeningBuilder<C>: Sized {
    fn new(chips: &[C]) -> Self;
}

impl<C: Clone> MachineTraceOpeningBuilder<C> for MachineTraceOpening<C> {
    /// One empty chip opening per chip, in order.
    fn new(chips: &[C]) -> (r: Self)
        ensures
            r.chips.len() == chips@.len(),
            forall|k: int|
                0 <= k < chips@.len() ==> cloned::<C>(chips@[k], (#[trigger] r.chips[k]).chip)
                    && r.chips[k].preprocessed is None && r.chips[k].main is None && r.chips[k].permutation is None
                    && r.chips[k].cumulative_sum is None && r.chips[k].quotient_chunks is None
                    && r.chips[k].quotient_degree is None,
    {
        let mut r: Vec<ChipTraceOpening<C>> = Vec::new();
        for k in 0..chips.len()
            invariant
                r.len() == k,
                forall|j: int|
                    0 <= j < k ==> cloned::<C>(chips@[j], (#[trigger] r[j]).chip) && r[j].preprocessed is None
                        && r[j].main is None && r[j].permutation is None && r[j].cumulative_sum is None
                        && r[j].quotient_chunks is None && r[j].quotient_degree is None,
        {
            r.push(ChipTraceOpening::new(chips[k].clone()));
        }
        MachineTraceOpening { chips: r }
    }
}

/// The rows of an optional indexed trace.
pub open spec fn indexed_rows<F>(t: Option<IndexedTrace<F>>) -> Option<Seq<Vec<F>>> {
    match t {
        Some(t) => Some(t.trace.value@),
        None => None,
    }
}

/// `t` is what [`load_traces`] makes of `input` at position `k` of `traces`.
pub open spec fn loaded_as<F>(traces: Seq<Option<Vec<Vec<F>>>>, k: int, t: Option<IndexedTrace<F>>) -> bool {
    match (traces[k], t) {
        (Some(v), Some(it)) => v@.len() > 0 && it.trace.value@ == v@ && it.trace.domain_size == v@.len()
            && it.opening_index == num_loaded(traces, k),
        (Some(v), None) => v@.len() == 0,
        (None, None) => true,
        (None, Some(_)) => false,
    }
}

impl<C> MachineTrace<C> {
    /// Loads the main trace of each chip, numbering the loaded ones in order.
    pub fn load_main(&mut self, traces: Vec<Option<Vec<Vec<u32>>>>)
        requires
            traces.len() == old(self).chips.len(),
        ensures
            final(self).chips.len() == old(self).chips.len(),
            forall|k: int|
                0 <= k < final(self).chips.len() ==> {
                    let (a, b) = (old(self).chips[k], #[trigger] final(self).chips[k]);
                    &&& loaded_as(traces@, k, b.main)
                    &&& b.chip == a.chip && b.preprocessed == a.preprocessed && b.permutation == a.permutation
                    &&& b.cumulative_sum == a.cumulative_sum && b.quotient_chunks == a.quotient_chunks
                    &&& b.quotient_degree == a.quotient_degree
                },
    {
        let ghost input = traces@;
        let mut loaded = load_traces(traces);
        let n = self.chips.len();
        let ghost old_chips = self.chips@;
        let ghost all_loaded = loaded@;
        let mut k: usize = 0;
        while k < n
            invariant
                k <= n,
                n == old_chips.len(),
                self.chips.len() == n,
                all_loaded.len() == n,
                loaded@ == all_loaded.skip(k as int),
                forall|j: int| 0 <= j < n ==> loaded_as(input, j, #[trigger] all_loaded[j]),
                forall|j: int|
                    0 <= j < n ==> {
                        let (a, b) = (old_chips[j], #[trigger] self.chips[j]);
                        &&& j < k ==> b.main == all_loaded[j]
                        &&& j >= k ==> b.main == a.main
                        &&& b.chip == a.chip && b.preprocessed == a.preprocessed && b.permutation == a.permutation
                        &&& b.cumulative_sum == a.cumulative_sum && b.quotient_chunks == a.quotient_chunks
                        &&& b.quotient_degree == a.quotient_degree
                    },
            decreases n - k,
        {
            let t = loaded.remove(0);
            assert(loaded@ =~= all_loaded.skip(k + 1));
            self.chips[k].main = t;
            k = k + 1;
        }
    }

    /// Loads the preprocessed trace of each chip, numbering the loaded ones
    /// in order.
    pub fn load_preprocessed(&mut self, traces: Vec<Option<Vec<Vec<u32>>>>)
        requires
            traces.len() == old(self).chips.len(),
        ensures
            final(self).chips.len() == old(self).chips.len(),
            forall|k: int|
                0 <= k < final(self).chips.len() ==> {
                    let (a, b) = (old(self).chips[k], #[trigger] final(self).chips[k]);
                    &&& loaded_as(traces@, k, b.preprocessed)
                    &&& b.chip == a.chip && b.main == a.main && b.permutation == a.permutation
                    &&& b.cumulative_sum == a.cumulative_sum && b.quotient_chunks == a.quotient_chunks
                    &&& b.quotient_degree == a.quotient_degree
                },
    {
        let ghost input = traces@;
        let mut loaded = load_traces(traces);
        let n = self.chips.len();
        let ghost old_chips = self.chips@;
        let ghost all_loaded = loaded@;
        let mut k: usize = 0;
        while k < n
            invariant
                k <= n,
                n == old_chips.len(),
                self.chips.len() == n,
                all_loaded.len() == n,
                loaded@ == all_loaded.skip(k as int),
                forall|j: int| 0 <= j < n ==> loaded_as(input, j, #[trigger] all_loaded[j]),
                forall|j: int|
                    0 <= j < n ==> {
                        let (a, b) = (old_chips[j], #[trigger] self.chips[j]);
                        &&& j < k ==> b.preprocessed == all_loaded[j]
                        &&& j >= k ==> b.preprocessed == a.preprocessed
                        &&& b.chip == a.chip && b.main == a.main && b.permutation == a.permutation
                        &&& b.cumulative_sum == a.cumulative_sum && b.quotient_chunks == a.quotient_chunks
                        &&& b.quotient_degree == a.quotient_degree
                    },
            decreases n - k,
        {
            let t = loaded.remove(0);
            assert(loaded@ =~= all_loaded.skip(k + 1));
            self.chips[k].preprocessed = t;
            k = k + 1;
        }
    }
}

/// Chip `k` gets a permutation trace: it has a main trace and interactions.
pub open spec fn gets_permutation<C: Rap>(chip: ChipTrace<C>) -> bool {
    chip.main is Some && tagged_interactions(&chip.chip).len() > 0
}

/// The number of chips before chip `k` that get a permutation trace.
pub open spec fn num_permutations<C: Rap>(chips: Seq<ChipTrace<C>>, k: int) -> nat
    decreases k,
{
    if k <= 0 {
        0
    } else {
        num_permutations(chips, k - 1) + if gets_permutation(chips[k - 1]) {
            1nat
        } else {
            0nat
        }
    }
}

/// What a chip needs for its permutation trace to be generated.
pub open spec fn permutation_ready<C: Rap>(chip: ChipTrace<C>) -> bool {
    chip.main matches Some(m) ==> {
        &&& m.trace.value@.len() > 0
        &&& chip.chip.spec_sends().len() + chip.chip.spec_receives().len() < usize::MAX
        &&& forall|k: int|
            0 <= k < chip.chip.spec_sends().len() ==> #[trigger] chip.chip.spec_sends()[k].argument_index
                < usize::MAX
        &&& forall|k: int|
            0 <= k < chip.chip.spec_receives().len() ==> #[trigger] chip.chip.spec_receives()[k].argument_index
                < usize::MAX
        &&& permutation_inputs_ok(
            tagged_interactions(&chip.chip),
            indexed_rows(chip.preprocessed),
            m.trace.value@,
        )
    }
}

/// The permutation trace and cumulative sum that chip `k` got.
pub open spec fn permutation_generated<C: Rap>(
    chips: Seq<ChipTrace<C>>,
    k: int,
    perm_challenges: Seq<[u32; 4]>,
    b: ChipTrace<C>,
) -> bool {
    let a = chips[k];
    if gets_permutation(a) {
        let tags = tagged_interactions(&a.chip);
        &&& b.permutation matches Some(it) && {
            &&& is_permutation_trace(
                tags,
                bus_challenges(&a.chip, perm_challenges[0]@),
                perm_challenges[1]@,
                indexed_rows(a.preprocessed),
                a.main->0.trace.value@,
                it.trace.value@,
            )
            &&& it.trace.domain_size == it.trace.value@.len()
            &&& it.opening_index == num_permutations(chips, k)
            &&& b.cumulative_sum == Some(it.trace.value@.last()@[tags.len() as int])
        }
    } else {
        b.permutation is None && b.cumulative_sum is None
    }
}

impl<C: Rap> MachineTrace<C> {
    /// Generates the permutation trace of each chip that has a main trace
    /// and interactions, numbering them in order, and records each one's
    /// cumulative sum: the running sum on its last row.
    pub fn generate_permutation(&mut self, perm_challenges: &Vec<[u32; 4]>)
        requires
            perm_challenges.len() >= 2,
            ext_canonical(perm_challenges[0]@),
            ext_canonical(perm_challenges[1]@),
            forall|k: int| 0 <= k < old(self).chips.len() ==> permutation_ready(#[trigger] old(self).chips[k]),
        ensures
            final(self).chips.len() == old(self).chips.len(),
            forall|k: int|
                0 <= k < final(self).chips.len() ==> {
                    let (a, b) = (old(self).chips[k], #[trigger] final(self).chips[k]);
                    &&& permutation_generated(old(self).chips@, k, perm_challenges@, b)
                    &&& b.chip == a.chip && b.preprocessed == a.preprocessed && b.main == a.main
                    &&& b.quotient_chunks == a.quotient_chunks && b.quotient_degree == a.quotient_degree
                },
    {
        let ghost old_chips = self.chips@;
        let n = self.chips.len();
        // Generate the traces.
        let mut perms: Vec<Option<Vec<Vec<[u32; 4]>>>> = Vec::new();
        let mut sums: Vec<Option<[u32; 4]>> = Vec::new();
        for k in 0..n
            invariant
                n == self.chips.len(),
                self.chips@ == old_chips,
                perm_challenges.len() >= 2,
                ext_canonical(perm_challenges[0]@),
                ext_canonical(perm_challenges[1]@),
                forall|j: int| 0 <= j < n ==> permutation_ready(#[trigger] old_chips[j]),
                perms.len() == k,
                sums.len() == k,
                forall|j: int|
                    0 <= j < k ==> if gets_permutation(#[trigger] old_chips[j]) {
                        let tags = tagged_interactions(&old_chips[j].chip);
                        &&& perms[j] matches Some(p) && p@.len() > 0 && is_permutation_trace(
                            tags,
                            bus_challenges(&old_chips[j].chip, perm_challenges[0]@),
                            perm_challenges[1]@,
                            indexed_rows(old_chips[j].preprocessed),
                            old_chips[j].main->0.trace.value@,
                            p@,
                        )
                        &&& sums[j] == Some(perms[j]->0@.last()@[tags.len() as int])
                    } else {
                        perms[j] is None && sums[j] is None
                    },
        {
            let chip_trace = &self.chips[k];
            assert(permutation_ready(old_chips[k as int]));
            assert(chip_trace.main is Some ==> challenges_ok(&chip_trace.chip, perm_challenges@));
            match &chip_trace.main {
                Some(main) => {
                    let preprocessed = match &chip_trace.preprocessed {
                        Some(p) => Some(&p.trace.value),
                        None => None,
                    };
                    let perm = generate_permutation_trace(&chip_trace.chip, &main.trace.value, preprocessed, perm_challenges);
                    match perm {
                        Some(p) => {
                            let last = &p[p.len() - 1];
                            let sum = last[last.len() - 1];
                            sums.push(Some(sum));
                            perms.push(Some(p));
                        },
                        None => {
                            sums.push(None);
                            perms.push(None);
                        },
                    }
                },
                None => {
                    sums.push(None);
                    perms.push(None);
                },
            }
        }
        let ghost all_perms = perms@;
        proof {
            assert forall|j: int| 0 <= j <= n implies #[trigger] num_loaded(all_perms, j) == num_permutations(old_chips, j) by {
                lemma_num_loaded_permutations(old_chips, all_perms, j);
            }
        }
        let mut loaded = load_traces(perms);
        let ghost all_loaded = loaded@;
        let ghost all_sums = sums@;
        let mut k: usize = 0;
        while k < n
            invariant
                k <= n,
                n == old_chips.len(),
                self.chips.len() == n,
                all_loaded.len() == n,
                all_perms.len() == n,
                all_sums.len() == n,
                loaded@ == all_loaded.skip(k as int),
                sums@ == all_sums.skip(k as int),
                forall|j: int| 0 <= j < n ==> loaded_as(all_perms, j, #[trigger] all_loaded[j]),
                forall|j: int| 0 <= j <= n ==> #[trigger] num_loaded(all_perms, j) == num_permutations(old_chips, j),
                forall|j: int|
                    0 <= j < n ==> if gets_permutation(#[trigger] old_chips[j]) {
                        let tags = tagged_interactions(&old_chips[j].chip);
                        &&& all_perms[j] matches Some(p) && p@.len() > 0 && is_permutation_trace(
                            tags,
                            bus_challenges(&old_chips[j].chip, perm_challenges[0]@),
                            perm_challenges[1]@,
                            indexed_rows(old_chips[j].preprocessed),
                            old_chips[j].main->0.trace.value@,
                            p@,
                        )
                        &&& all_sums[j] == Some(all_perms[j]->0@.last()@[tags.len() as int])
                    } else {
                        all_perms[j] is None && all_sums[j] is None
                    },
                forall|j: int|
                    0 <= j < n ==> {
                        let (a, b) = (old_chips[j], #[trigger] self.chips[j]);
                        &&& j < k ==> b.permutation == all_loaded[j] && b.cumulative_sum == all_sums[j]
                        &&& b.chip == a.chip && b.preprocessed == a.preprocessed && b.main == a.main
                        &&& b.quotient_chunks == a.quotient_chunks && b.quotient_degree == a.quotient_degree
                    },
            decreases n - k,
        {
            let t = loaded.remove(0);
            assert(loaded@ =~= all_loaded.skip(k + 1));
            let sum = sums.remove(0);
            assert(sums@ =~= all_sums.skip(k + 1));
            self.chips[k].permutation = t;
            self.chips[k].cumulative_sum = sum;
            k = k + 1;
        }
        assert forall|j: int| 0 <= j < n implies permutation_generated(old_chips, j, perm_challenges@, #[trigger] self.chips[j]) by {
            assert(loaded_as(all_perms, j, all_loaded[j]));
            assert(num_loaded(all_perms, j) == num_permutations(old_chips, j));
        }
    }
}

/// Counting the loaded traces counts the chips that got one.
proof fn lemma_num_loaded_permutations<C: Rap>(chips: Seq<ChipTrace<C>>, perms: Seq<Option<Vec<Vec<[u32; 4]>>>>, k: int)
    requires
        0 <= k <= chips.len(),
        perms.len() == chips.len(),
        forall|j: int|
            0 <= j < chips.len() ==> (gets_permutation(#[trigger] chips[j]) <==> (perms[j] matches Some(p) && p@.len()
                > 0)) && (!gets_permutation(chips[j]) ==> perms[j] is None),
    ensures
        num_loaded(perms, k) == num_permutations(chips, k),
    decreases k,
{
    if k > 0 {
        lemma_num_loaded_permutations(chips, perms, k - 1);
        assert(gets_permutation(chips[k - 1]) <==> (perms[k - 1] matches Some(p) && p@.len() > 0));
    }
}

/// The constraints of a chip hold on every row of its main trace.
pub open spec fn chip_constraints_hold<C: Rap>(chip: ChipTrace<C>, perm_challenges: Seq<[u32; 4]>) -> bool {
    chip.main matches Some(m) ==> forall|i: int|
        0 <= i < m.trace.value@.len() ==> #[trigger] constraints_hold_at(
            &chip.chip,
            indexed_rows(chip.preprocessed),
            m.trace.value@,
            indexed_rows(chip.permutation),
            perm_challenges,
            chip.cumulative_sum,
            i,
        )
}

/// What checking a chip's constraints needs.
pub open spec fn chip_check_ready<C: Rap>(chip: ChipTrace<C>, perm_challenges: Seq<[u32; 4]>) -> bool {
    &&& chip.main matches Some(m) ==> check_inputs_ok(
        &chip.chip,
        indexed_rows(chip.preprocessed),
        m.trace.value@,
        indexed_rows(chip.permutation),
        perm_challenges,
        chip.cumulative_sum,
    )
    &&& chip.cumulative_sum matches Some(s) ==> ext_canonical(s@)
}

/// Coefficient `c` of the sum of the cumulative sums that the chips have.
pub open spec fn trace_cumulative_sum<C>(chips: Seq<ChipTrace<C>>, c: int) -> int
    decreases chips.len(),
{
    if chips.len() == 0 {
        0
    } else {
        trace_cumulative_sum(chips.drop_last(), c) + match chips.last().cumulative_sum {
            Some(s) => s[c] as int,
            None => 0,
        }
    }
}

impl<C: Rap> MachineTrace<C> {
    /// Whether every chip's constraints hold on its traces and the
    /// cumulative sums of all chips add up to zero.
    pub fn check_constraints(&self, perm_challenges: &Vec<[u32; 4]>) -> (r: bool)
        requires
            forall|k: int| 0 <= k < self.chips.len() ==> chip_check_ready(#[trigger] self.chips[k], perm_challenges@),
        ensures
            r == ((forall|k: int|
                0 <= k < self.chips.len() ==> chip_constraints_hold(#[trigger] self.chips[k], perm_challenges@))
                && forall|c: int| 0 <= c < 4 ==> fz(#[trigger] trace_cumulative_sum(self.chips@, c))),
    {
        let mut ok = true;
        let mut sum: [u32; 4] = [0, 0, 0, 0];
        proof {
            assert(self.chips@.take(0) =~= Seq::<ChipTrace<C>>::empty());
            lemma_small_mod(0, P as nat);
        }
        for k in 0..self.chips.len()
            invariant
                forall|j: int| 0 <= j < self.chips.len() ==> chip_check_ready(#[trigger] self.chips[j], perm_challenges@),
                ok == forall|j: int| 0 <= j < k ==> chip_constraints_hold(#[trigger] self.chips[j], perm_challenges@),
                ext_canonical(sum@),
                forall|c: int| 0 <= c < 4 ==> #[trigger] sum[c] == trace_cumulative_sum(self.chips@.take(k as int), c) % (P as int),
        {
            let chip_trace = &self.chips[k];
            assert(chip_check_ready(self.chips[k as int], perm_challenges@));
            let chip_ok = match &chip_trace.main {
                Some(main) => {
                    let preprocessed = match &chip_trace.preprocessed {
                        Some(p) => Some(&p.trace.value),
                        None => None,
                    };
                    let permutation = match &chip_trace.permutation {
                        Some(p) => Some(&p.trace.value),
                        None => None,
                    };
                    check_constraints(
                        &chip_trace.chip,
                        preprocessed,
                        &main.trace.value,
                        permutation,
                        perm_challenges,
                        chip_trace.cumulative_sum,
                    )
                },
                None => true,
            };
            assert(chip_ok == chip_constraints_hold(self.chips[k as int], perm_challenges@));
            ok = ok && chip_ok;
            assert(self.chips@.take(k + 1).drop_last() =~= self.chips@.take(k as int));
            assert(self.chips@.take(k + 1).last() == self.chips@[k as int]);
            match chip_trace.cumulative_sum {
                Some(s) => {
                    sum = e_add(sum, s);
                    proof {
                        assert forall|c: int| 0 <= c < 4 implies #[trigger] sum[c] == trace_cumulative_sum(
                            self.chips@.take(k + 1),
                            c,
                        ) % (P as int) by {
                            let prev = trace_cumulative_sum(self.chips@.take(k as int), c);
                            lemma_add_mod_noop(prev, s[c] as int, P as int);
                            lemma_mod_twice(prev, P as int);
                            lemma_small_mod(s[c] as nat, P as nat);
                        }
                    }
                },
                None => {},
            }
        }
        assert(self.chips@.take(self.chips.len() as int) =~= self.chips@);
        proof {
            assert forall|c: int| 0 <= c < 4 implies (sum[c] == 0) == fz(#[trigger] trace_cumulative_sum(self.chips@, c)) by {
                lemma_small_mod(sum[c] as nat, P as nat);
            }
        }
        ok && sum[0] == 0 && sum[1] == 0 && sum[2] == 0 && sum[3] == 0
    }
}

} // verus!
