use vstd::arithmetic::div_mod::{lemma_add_mod_noop, lemma_mod_twice, lemma_small_mod};
use vstd::prelude::*;

use crate::chip::{interactions_fit, Rap};
use crate::ext::{e_add, ext_canonical, ext_zero};
use crate::field::{fz, P};
use crate::interaction::row_canonical;
use crate::permutation::{
    bus_challenges, ext_row_canonical, interaction_rlc, is_permutation_trace, permutation_constraints, permutation_row_ok,
    permutation_trace_satisfies_constraints, pre_row, tagged_interactions,
};

verus! {

/// The rows of an optional trace.
pub open spec fn opt_rows<F>(t: Option<&Vec<Vec<F>>>) -> Option<Seq<Vec<F>>> {
    match t {
        Some(t) => Some(t@),
        None => None,
    }
}

/// Row `n` of an optional permutation trace, empty when there is none.
pub open spec fn perm_row(perm: Option<Seq<Vec<[u32; 4]>>>, n: int) -> Seq<[u32; 4]> {
    match perm {
        Some(p) => p[n]@,
        None => Seq::empty(),
    }
}

/// Every row of a permutation trace holds `width` canonical elements of the
/// extension.
pub open spec fn ext_rows_shaped(rows: Seq<Vec<[u32; 4]>>, width: nat) -> bool {
    forall|i: int| 0 <= i < rows.len() ==> (#[trigger] rows[i])@.len() == width && ext_row_canonical(rows[i]@)
}

/// Every row of a trace is canonical and `width` wide.
pub open spec fn rows_shaped(rows: Seq<Vec<u32>>, width: nat) -> bool {
    forall|i: int| 0 <= i < rows.len() ==> (#[trigger] rows[i])@.len() == width && row_canonical(rows[i]@)
}

/// The AIR constraints, and the permutation constraints when there is a
/// cumulative sum, hold on row `i` and the row after it (the first row after
/// the last).
pub open spec fn constraints_hold_at<C: Rap>(
    chip: &C,
    preprocessed: Option<Seq<Vec<u32>>>,
    main: Seq<Vec<u32>>,
    perm: Option<Seq<Vec<[u32; 4]>>>,
    perm_challenges: Seq<[u32; 4]>,
    cumulative_sum: Option<[u32; 4]>,
    i: int,
) -> bool {
    let h = main.len() as int;
    let nx = (i + 1) % h;
    &&& chip.spec_air_constraints(
        pre_row(preprocessed, i),
        pre_row(preprocessed, nx),
        main[i]@,
        main[nx]@,
        i == 0,
        i == h - 1,
        i != h - 1,
    )
    &&& cumulative_sum matches Some(cs) ==> (tagged_interactions(chip).len() == 0 || permutation_constraints(
        tagged_interactions(chip),
        bus_challenges(chip, perm_challenges[0]@),
        perm_challenges[1]@,
        pre_row(preprocessed, i),
        pre_row(preprocessed, nx),
        main[i]@,
        main[nx]@,
        perm_row(perm, i),
        perm_row(perm, nx),
        cs@,
        i == 0,
        i == h - 1,
        i != h - 1,
    ))
}

/// The traces that constraints are checked on: main rows of the chip's
/// width, preprocessed rows for each of them, and, when there is a
/// cumulative sum, a permutation trace of the same height with usable
/// challenges.
pub open spec fn check_inputs_ok<C: Rap>(
    chip: &C,
    preprocessed: Option<Seq<Vec<u32>>>,
    main: Seq<Vec<u32>>,
    perm: Option<Seq<Vec<[u32; 4]>>>,
    perm_challenges: Seq<[u32; 4]>,
    cumulative_sum: Option<[u32; 4]>,
) -> bool {
    &&& rows_shaped(main, chip.spec_width())
    &&& match preprocessed {
        Some(p) => p.len() >= main.len() && rows_shaped(p, chip.spec_preprocessed_width()),
        None => chip.spec_preprocessed_width() == 0,
    }
    &&& perm matches Some(p) ==> p.len() == main.len() && forall|i: int|
        0 <= i < p.len() ==> ext_row_canonical(#[trigger] p[i]@)
    &&& cumulative_sum matches Some(cs) ==> {
        &&& ext_canonical(cs@)
        &&& perm_challenges.len() >= 2
        &&& ext_canonical(perm_challenges[0]@)
        &&& ext_canonical(perm_challenges[1]@)
        &&& interactions_fit(chip, chip.spec_preprocessed_width(), chip.spec_width())
        &&& tagged_interactions(chip).len() > 0 ==> (perm matches Some(p) && ext_rows_shaped(
            p,
            tagged_interactions(chip).len() + 1,
        ))
    }
}

/// Whether the constraints hold on row `i` and the row after it.
fn row_constraints_hold<C: Rap>(
    chip: &C,
    preprocessed: Option<&Vec<Vec<u32>>>,
    main: &Vec<Vec<u32>>,
    perm: Option<&Vec<Vec<[u32; 4]>>>,
    perm_challenges: &Vec<[u32; 4]>,
    cumulative_sum: Option<[u32; 4]>,
    i: usize,
) -> (r: bool)
    requires
        check_inputs_ok(chip, opt_rows(preprocessed), main@, opt_rows(perm), perm_challenges@, cumulative_sum),
        i < main.len(),
    ensures
        r == constraints_hold_at(
            chip,
            opt_rows(preprocessed),
            main@,
            opt_rows(perm),
            perm_challenges@,
            cumulative_sum,
            i as int,
        ),
{
    let ghost pre = opt_rows(preprocessed);
    let ghost pm = opt_rows(perm);
    let height = main.len();
    let empty: Vec<u32> = Vec::new();
    let empty_perm: Vec<[u32; 4]> = Vec::new();
    let i_next = (i + 1) % height;
    let pre_local: &[u32] = match preprocessed {
        Some(p) => p[i].as_slice(),
        None => empty.as_slice(),
    };
    let pre_next: &[u32] = match preprocessed {
        Some(p) => p[i_next].as_slice(),
        None => empty.as_slice(),
    };
    let perm_local: &[[u32; 4]] = match perm {
        Some(p) => p[i].as_slice(),
        None => empty_perm.as_slice(),
    };
    let perm_next: &[[u32; 4]] = match perm {
        Some(p) => p[i_next].as_slice(),
        None => empty_perm.as_slice(),
    };
    assert(pre_local@ == pre_row(pre, i as int) && pre_next@ == pre_row(pre, i_next as int));
    assert(perm_local@ == perm_row(pm, i as int) && perm_next@ == perm_row(pm, i_next as int));
    assert(row_canonical(main@[i as int]@) && row_canonical(main@[i_next as int]@));
    assert(row_canonical(pre_local@) && row_canonical(pre_next@));
    assert(ext_row_canonical(perm_local@) && ext_row_canonical(perm_next@));
    let is_first_row = i == 0;
    let is_last_row = i == height - 1;
    let is_transition = i != height - 1;
    let air = chip.eval(
        pre_local,
        pre_next,
        main[i].as_slice(),
        main[i_next].as_slice(),
        is_first_row,
        is_last_row,
        is_transition,
    );
    let permutation = match cumulative_sum {
        Some(cs) => chip.eval_all(
            pre_local,
            pre_next,
            main[i].as_slice(),
            main[i_next].as_slice(),
            perm_local,
            perm_next,
            perm_challenges,
            cs,
            is_first_row,
            is_last_row,
            is_transition,
        ),
        None => true,
    };
    air && permutation
}

/// Whether the constraints of a chip hold on every row of its traces: its
/// AIR constraints, and its permutation constraints when it has a cumulative
/// sum.
pub fn check_constraints<C: Rap>(
    chip: &C,
    preprocessed: Option<&Vec<Vec<u32>>>,
    main: &Vec<Vec<u32>>,
    perm: Option<&Vec<Vec<[u32; 4]>>>,
    perm_challenges: &Vec<[u32; 4]>,
    cumulative_sum: Option<[u32; 4]>,
) -> (r: bool)
    requires
        check_inputs_ok(chip, opt_rows(preprocessed), main@, opt_rows(perm), perm_challenges@, cumulative_sum),
    ensures
        r == forall|i: int|
            0 <= i < main.len() ==> #[trigger] constraints_hold_at(
                chip,
                opt_rows(preprocessed),
                main@,
                opt_rows(perm),
                perm_challenges@,
                cumulative_sum,
                i,
            ),
{
    let ghost pre = opt_rows(preprocessed);
    let ghost pm = opt_rows(perm);
    let mut ok = true;
    for i in 0..main.len()
        invariant
            pre == opt_rows(preprocessed),
            pm == opt_rows(perm),
            check_inputs_ok(chip, pre, main@, pm, perm_challenges@, cumulative_sum),
            ok == forall|j: int|
                0 <= j < i ==> #[trigger] constraints_hold_at(chip, pre, main@, pm, perm_challenges@, cumulative_sum, j),
    {
        let row_ok = row_constraints_hold(chip, preprocessed, main, perm, perm_challenges, cumulative_sum, i);
        ok = ok && row_ok;
    }
    ok
}

/// A main trace that meets the AIR constraints on every row, checked with
/// the permutation trace built from it (as `generate_permutation_trace`
/// builds one) and the cumulative sum that trace's last row ends with, meets
/// every constraint, so [`check_constraints`] returns `true` on it; this
/// holds whenever no message's random combination is zero on any row.
pub proof fn generated_permutation_trace_passes_check<C: Rap>(
    chip: &C,
    preprocessed: Option<Seq<Vec<u32>>>,
    main: Seq<Vec<u32>>,
    perm: Seq<Vec<[u32; 4]>>,
    perm_challenges: Seq<[u32; 4]>,
)
    requires
        main.len() > 0,
        check_inputs_ok(
            chip,
            preprocessed,
            main,
            Some(perm),
            perm_challenges,
            Some(perm.last()@[tagged_interactions(chip).len() as int]),
        ),
        forall|i: int|
            0 <= i < main.len() ==> #[trigger] constraints_hold_at(
                chip,
                preprocessed,
                main,
                None,
                perm_challenges,
                None,
                i,
            ),
        is_permutation_trace(
            tagged_interactions(chip),
            bus_challenges(chip, perm_challenges[0]@),
            perm_challenges[1]@,
            preprocessed,
            main,
            perm,
        ),
        forall|n: int, m: int|
            0 <= n < main.len() && 0 <= m < tagged_interactions(chip).len() ==> #[trigger] interaction_rlc(
                tagged_interactions(chip),
                bus_challenges(chip, perm_challenges[0]@),
                perm_challenges[1]@,
                preprocessed,
                main,
                n,
                m,
            ) != ext_zero(),
    ensures
        forall|i: int|
            0 <= i < main.len() ==> #[trigger] constraints_hold_at(
                chip,
                preprocessed,
                main,
                Some(perm),
                perm_challenges,
                Some(perm.last()@[tagged_interactions(chip).len() as int]),
                i,
            ),
{
    let ints = tagged_interactions(chip);
    let alphas = bus_challenges(chip, perm_challenges[0]@);
    let beta = perm_challenges[1]@;
    let cs = perm.last()@[ints.len() as int];
    permutation_trace_satisfies_constraints(ints, alphas, beta, preprocessed, main, perm);
    assert forall|i: int| 0 <= i < main.len() implies #[trigger] constraints_hold_at(
        chip,
        preprocessed,
        main,
        Some(perm),
        perm_challenges,
        Some(cs),
        i,
    ) by {
        assert(constraints_hold_at(chip, preprocessed, main, None, perm_challenges, None, i));
        assert(permutation_row_ok(ints, alphas, beta, preprocessed, main, perm, i));
        assert(perm[perm.len() - 1] == perm.last());
    }
}

/// The rows on which some constraint fails, in increasing order.
pub fn track_failing_constraints<C: Rap>(
    chip: &C,
    preprocessed: Option<&Vec<Vec<u32>>>,
    main: &Vec<Vec<u32>>,
    perm: Option<&Vec<Vec<[u32; 4]>>>,
    perm_challenges: &Vec<[u32; 4]>,
    cumulative_sum: Option<[u32; 4]>,
) -> (r: Vec<usize>)
    requires
        check_inputs_ok(chip, opt_rows(preprocessed), main@, opt_rows(perm), perm_challenges@, cumulative_sum),
    ensures
        forall|k: int|
            0 <= k < r.len() ==> r[k] < main.len() && !constraints_hold_at(
                chip,
                opt_rows(preprocessed),
                main@,
                opt_rows(perm),
                perm_challenges@,
                cumulative_sum,
                #[trigger] r[k] as int,
            ),
        forall|k: int, l: int| 0 <= k < l < r.len() ==> r[k] < r[l],
        forall|i: int|
            0 <= i < main.len() && !#[trigger] constraints_hold_at(
                chip,
                opt_rows(preprocessed),
                main@,
                opt_rows(perm),
                perm_challenges@,
                cumulative_sum,
                i,
            ) ==> r@.contains(i as usize),
{
    let ghost pre = opt_rows(preprocessed);
    let ghost pm = opt_rows(perm);
    let mut r: Vec<usize> = Vec::new();
    for i in 0..main.len()
        invariant
            pre == opt_rows(preprocessed),
            pm == opt_rows(perm),
            check_inputs_ok(chip, pre, main@, pm, perm_challenges@, cumulative_sum),
            forall|k: int|
                0 <= k < r.len() ==> r[k] < i && !constraints_hold_at(
                    chip,
                    pre,
                    main@,
                    pm,
                    perm_challenges@,
                    cumulative_sum,
                    #[trigger] r[k] as int,
                ),
            forall|k: int, l: int| 0 <= k < l < r.len() ==> r[k] < r[l],
            forall|j: int|
                0 <= j < i && !#[trigger] constraints_hold_at(chip, pre, main@, pm, perm_challenges@, cumulative_sum, j)
                    ==> r@.contains(j as usize),
    {
        let row_ok = row_constraints_hold(chip, preprocessed, main, perm, perm_challenges, cumulative_sum, i);
        if !row_ok {
            let ghost before = r@;
            r.push(i);
            assert(r@[r.len() - 1] == i);
            assert forall|j: int|
                0 <= j < i + 1 && !#[trigger] constraints_hold_at(chip, pre, main@, pm, perm_challenges@, cumulative_sum, j)
                    implies r@.contains(j as usize) by {
                if j < i {
                    assert(before.contains(j as usize));
                    let w = choose|w: int| 0 <= w < before.len() && before[w] == j as usize;
                    assert(r@[w] == j as usize);
                } else {
                    assert(r@[r.len() - 1] == j as usize);
                }
            }
        }
    }
    r
}

/// Coefficient `c` of the sum of the cumulative sums of the chips that have
/// a permutation trace: each the last running sum of its trace.
pub open spec fn total_cumulative_sum(perms: Seq<Option<Vec<Vec<[u32; 4]>>>>, c: int) -> int
    decreases perms.len(),
{
    if perms.len() == 0 {
        0
    } else {
        total_cumulative_sum(perms.drop_last(), c) + match perms.last() {
            Some(p) => p@.last()@.last()[c] as int,
            None => 0,
        }
    }
}

/// Each permutation trace has a last row, whose last element is canonical.
pub open spec fn has_cumulative_sums(perms: Seq<Option<Vec<Vec<[u32; 4]>>>>) -> bool {
    forall|k: int|
        0 <= k < perms.len() ==> (#[trigger] perms[k] matches Some(p) ==> p@.len() > 0 && p@.last()@.len() > 0
            && ext_canonical(p@.last()@.last()@))
}

/// Whether the cumulative sums across all chips add up to zero, as a
/// balanced set of buses makes them.
pub fn check_cumulative_sums(perms: &Vec<Option<Vec<Vec<[u32; 4]>>>>) -> (r: bool)
    requires
        has_cumulative_sums(perms@),
    ensures
        r == forall|c: int| 0 <= c < 4 ==> fz(#[trigger] total_cumulative_sum(perms@, c)),
{
    let mut sum: [u32; 4] = [0, 0, 0, 0];
    proof {
        assert(perms@.take(0) =~= Seq::<Option<Vec<Vec<[u32; 4]>>>>::empty());
        lemma_small_mod(0, P as nat);
    }
    for k in 0..perms.len()
        invariant
            has_cumulative_sums(perms@),
            ext_canonical(sum@),
            forall|c: int| 0 <= c < 4 ==> #[trigger] sum[c] == total_cumulative_sum(perms@.take(k as int), c) % (P as int),
    {
        assert(perms@.take(k + 1).drop_last() =~= perms@.take(k as int));
        assert(perms@.take(k + 1).last() == perms@[k as int]);
        match &perms[k] {
            Some(perm) => {
                assert(perms@[k as int] matches Some(p) ==> p@.len() > 0 && p@.last()@.len() > 0
                    && ext_canonical(p@.last()@.last()@));
                let last_row = &perm[perm.len() - 1];
                let phi = last_row[last_row.len() - 1];
                let ghost old_sum = sum;
                sum = e_add(sum, phi);
                proof {
                    assert forall|c: int| 0 <= c < 4 implies #[trigger] sum[c] == total_cumulative_sum(
                        perms@.take(k + 1),
                        c,
                    ) % (P as int) by {
                        let prev = total_cumulative_sum(perms@.take(k as int), c);
                        lemma_add_mod_noop(prev, phi[c] as int, P as int);
                        lemma_mod_twice(prev, P as int);
                        lemma_small_mod(phi[c] as nat, P as nat);
                    }
                }
            },
            None => {},
        }
    }
    assert(perms@.take(perms.len() as int) =~= perms@);
    proof {
        assert forall|c: int| 0 <= c < 4 implies (sum[c] == 0) == fz(#[trigger] total_cumulative_sum(perms@, c)) by {
            lemma_small_mod(sum[c] as nat, P as nat);
        }
    }
    sum[0] == 0 && sum[1] == 0 && sum[2] == 0 && sum[3] == 0
}

} // verus!
