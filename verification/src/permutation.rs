use vstd::arithmetic::div_mod::{lemma_add_mod_noop, lemma_mod_twice, lemma_mul_mod_noop, lemma_small_mod, lemma_sub_mod_noop};
use vstd::prelude::*;

use crate::ext::{
    batch_multiplicative_inverse_ext_allowing_zero, e_add, e_add_scaled, e_mul, ext_canonical, ext_mul, ext_one,
    ext_pow, ext_zero, is_ext_inverse_or_zero, is_one_ext, lemma_ext_pow_canonical,
};
use crate::field::{f_sub, fz, P};
use crate::interaction::{
    interactions_view, row_canonical, vpc_eval, Interaction, InteractionSpec, InteractionType, VirtualPairCol,
};
use crate::permutation_air::{
    generate_rlc_elements, interaction_well_formed, max_argument_index, message_rlc, reduce_row,
    PermutationAir,
};

verus! {

/// The sign with which an interaction enters the running sum: sends add,
/// receives subtract.
pub open spec fn sign(t: InteractionType) -> int {
    match t {
        InteractionType::Send => 1,
        InteractionType::Receive => -1,
    }
}

/// A chip's interactions as the running sum sees them: the sends, then the
/// receives.
pub open spec fn tagged_interactions<C: PermutationAir>(chip: &C) -> Seq<(InteractionSpec, InteractionType)> {
    chip.spec_sends().map_values(|i: InteractionSpec| (i, InteractionType::Send)) + chip.spec_receives().map_values(
        |i: InteractionSpec| (i, InteractionType::Receive),
    )
}

/// The bus challenges `alpha^1, ..., alpha^(m+1)` of a chip, `m` its largest
/// bus index, in the extension.
pub open spec fn bus_challenges<C: PermutationAir>(chip: &C, alpha: Seq<u32>) -> Seq<Seq<u32>> {
    Seq::new(
        max_argument_index(chip.spec_sends() + chip.spec_receives()) + 1,
        |k: int| ext_pow(alpha, (k + 1) as nat),
    )
}

/// Every element of a row of the extension is canonical.
pub open spec fn ext_row_canonical(row: Seq<[u32; 4]>) -> bool {
    forall|k: int| 0 <= k < row.len() ==> ext_canonical((#[trigger] row[k])@)
}

/// The preprocessed row `n`, empty when there is no preprocessed trace.
pub open spec fn pre_row(pre: Option<Seq<Vec<u32>>>, n: int) -> Seq<u32> {
    match pre {
        Some(p) => p[n]@,
        None => Seq::empty(),
    }
}

/// Coefficient `c` of `sum_m sign_m * recips[m] * count_m` over the
/// interactions, on the integers (a count is a base-field element, so each
/// coefficient of the sum is the sum of the coefficients).
pub open spec fn row_sum(
    ints: Seq<(InteractionSpec, InteractionType)>,
    recips: Seq<[u32; 4]>,
    pre: Seq<u32>,
    main: Seq<u32>,
    c: int,
) -> int
    decreases ints.len(),
{
    if ints.len() == 0 {
        0
    } else {
        let m = ints.len() - 1;
        row_sum(ints.drop_last(), recips, pre, main, c) + sign(ints[m].1) * recips[m][c] * vpc_eval(
            ints[m].0.count,
            pre,
            main,
        )
    }
}

/// Coefficient `c` of the sum of the row sums of rows `0..=n` of a
/// permutation trace.
pub open spec fn running_sum(
    ints: Seq<(InteractionSpec, InteractionType)>,
    perm: Seq<Vec<[u32; 4]>>,
    pre: Option<Seq<Vec<u32>>>,
    main: Seq<Vec<u32>>,
    n: int,
    c: int,
) -> int
    decreases n + 1,
{
    if n < 0 {
        0
    } else {
        running_sum(ints, perm, pre, main, n - 1, c) + row_sum(ints, perm[n]@, pre_row(pre, n), main[n]@, c)
    }
}

/// The random linear combination of interaction `m` on row `n`.
pub open spec fn interaction_rlc(
    ints: Seq<(InteractionSpec, InteractionType)>,
    alphas: Seq<Seq<u32>>,
    beta: Seq<u32>,
    pre: Option<Seq<Vec<u32>>>,
    main: Seq<Vec<u32>>,
    n: int,
    m: int,
) -> Seq<u32> {
    message_rlc(ints[m].0.fields, pre_row(pre, n), main[n]@, alphas[ints[m].0.argument_index as int], beta)
}

/// `perm` is the permutation trace of the interactions `ints` over the given
/// rows, in the extension: each row holds the reciprocal of every message's
/// combination, then the running sum.
pub open spec fn is_permutation_trace(
    ints: Seq<(InteractionSpec, InteractionType)>,
    alphas: Seq<Seq<u32>>,
    beta: Seq<u32>,
    pre: Option<Seq<Vec<u32>>>,
    main: Seq<Vec<u32>>,
    perm: Seq<Vec<[u32; 4]>>,
) -> bool {
    &&& perm.len() == main.len()
    &&& forall|n: int| 0 <= n < perm.len() ==> (#[trigger] perm[n])@.len() == ints.len() + 1
    &&& forall|n: int, m: int|
        0 <= n < perm.len() && 0 <= m < ints.len() ==> is_ext_inverse_or_zero(
            interaction_rlc(ints, alphas, beta, pre, main, n, m),
            (#[trigger] perm[n]@[m])@,
        )
    &&& forall|n: int, c: int|
        0 <= n < perm.len() && 0 <= c < 4 ==> #[trigger] perm[n]@[ints.len() as int][c] == running_sum(
            ints,
            perm,
            pre,
            main,
            n,
            c,
        ) % (P as int)
}

/// The rows a permutation trace is built from: canonical main rows, a
/// preprocessed row for each, and interactions whose columns exist in them.
pub open spec fn permutation_inputs_ok(
    ints: Seq<(InteractionSpec, InteractionType)>,
    pre: Option<Seq<Vec<u32>>>,
    main: Seq<Vec<u32>>,
) -> bool {
    &&& forall|n: int| 0 <= n < main.len() ==> row_canonical(#[trigger] main[n]@)
    &&& pre matches Some(p) ==> p.len() >= main.len() && forall|n: int|
        0 <= n < main.len() ==> row_canonical(#[trigger] p[n]@)
    &&& forall|n: int, m: int|
        0 <= n < main.len() && 0 <= m < ints.len() ==> interaction_well_formed(
            #[trigger] ints[m].0,
            pre_row(pre, n).len(),
            (#[trigger] main[n])@.len(),
        )
}

/// The running sums of two traces agree up to row `k` when the traces agree
/// up to row `k`.
proof fn lemma_running_sum_prefix(
    ints: Seq<(InteractionSpec, InteractionType)>,
    a: Seq<Vec<[u32; 4]>>,
    b: Seq<Vec<[u32; 4]>>,
    pre: Option<Seq<Vec<u32>>>,
    main: Seq<Vec<u32>>,
    k: int,
    c: int,
)
    requires
        k < a.len(),
        a.len() <= b.len(),
        forall|j: int| 0 <= j < a.len() ==> #[trigger] a[j] == b[j],
    ensures
        running_sum(ints, a, pre, main, k, c) == running_sum(ints, b, pre, main, k, c),
    decreases k + 1,
{
    if k >= 0 {
        assert(a[k] == b[k]);
        lemma_running_sum_prefix(ints, a, b, pre, main, k - 1, c);
    }
}

/// The row sum reads only the first reciprocals, one per interaction.
proof fn lemma_row_sum_prefix(
    ints: Seq<(InteractionSpec, InteractionType)>,
    r1: Seq<[u32; 4]>,
    r2: Seq<[u32; 4]>,
    pre: Seq<u32>,
    main: Seq<u32>,
    c: int,
)
    requires
        r1.len() >= ints.len(),
        r2.len() >= ints.len(),
        forall|m: int| 0 <= m < ints.len() ==> #[trigger] r1[m] == r2[m],
    ensures
        row_sum(ints, r1, pre, main, c) == row_sum(ints, r2, pre, main, c),
    decreases ints.len(),
{
    if ints.len() > 0 {
        lemma_row_sum_prefix(ints.drop_last(), r1, r2, pre, main, c);
        assert(r1[ints.len() - 1] == r2[ints.len() - 1]);
    }
}

/// Every interaction's bus index is at most the largest one.
proof fn lemma_argument_index_le_max(s: Seq<InteractionSpec>, k: int)
    requires
        0 <= k < s.len(),
    ensures
        s[k].argument_index <= max_argument_index(s),
    decreases s.len(),
{
    if k < s.len() - 1 {
        assert(s.drop_last()[k] == s[k]);
        lemma_argument_index_le_max(s.drop_last(), k);
    }
}

/// Each tagged interaction's bus has a challenge.
proof fn lemma_tagged_bus<C: PermutationAir>(chip: &C, m: int)
    requires
        0 <= m < tagged_interactions(chip).len(),
    ensures
        tagged_interactions(chip)[m].0.argument_index < bus_challenges(chip, ext_zero()).len(),
{
    let all = chip.spec_sends() + chip.spec_receives();
    assert(tagged_interactions(chip)[m].0 == all[m]);
    lemma_argument_index_le_max(all, m);
}

/// The combinations of the messages of one row, before inversion.
fn row_rlcs(
    ints: &Vec<(Interaction, InteractionType)>,
    alphas: &Vec<[u32; 4]>,
    beta: [u32; 4],
    pre: &[u32],
    main: &[u32],
    Ghost(tags): Ghost<Seq<(InteractionSpec, InteractionType)>>,
) -> (r: Vec<[u32; 4]>)
    requires
        tags.len() == ints.len(),
        forall|m: int| 0 <= m < ints.len() ==> (#[trigger] tags[m]) == (ints[m].0@, ints[m].1),
        forall|m: int| 0 <= m < ints.len() ==> (#[trigger] tags[m]).0.argument_index < alphas.len(),
        forall|m: int| 0 <= m < ints.len() ==> interaction_well_formed(#[trigger] tags[m].0, pre@.len(), main@.len()),
        forall|k: int| 0 <= k < alphas.len() ==> ext_canonical((#[trigger] alphas[k])@),
        ext_canonical(beta@),
        row_canonical(pre@),
        row_canonical(main@),
    ensures
        r.len() == ints.len(),
        forall|m: int|
            0 <= m < ints.len() ==> (#[trigger] r[m])@ == message_rlc(
                tags[m].0.fields,
                pre@,
                main@,
                alphas[tags[m].0.argument_index as int]@,
                beta@,
            ) && ext_canonical(r[m]@),
{
    let mut r: Vec<[u32; 4]> = Vec::new();
    for m in 0..ints.len()
        invariant
            tags.len() == ints.len(),
            forall|k: int| 0 <= k < ints.len() ==> (#[trigger] tags[k]) == (ints[k].0@, ints[k].1),
            forall|k: int| 0 <= k < ints.len() ==> (#[trigger] tags[k]).0.argument_index < alphas.len(),
            forall|k: int| 0 <= k < ints.len() ==> interaction_well_formed(#[trigger] tags[k].0, pre@.len(), main@.len()),
            forall|k: int| 0 <= k < alphas.len() ==> ext_canonical((#[trigger] alphas[k])@),
            ext_canonical(beta@),
            row_canonical(pre@),
            row_canonical(main@),
            r.len() == m,
            forall|k: int|
                0 <= k < m ==> (#[trigger] r[k])@ == message_rlc(
                    tags[k].0.fields,
                    pre@,
                    main@,
                    alphas[tags[k].0.argument_index as int]@,
                    beta@,
                ) && ext_canonical(r[k]@),
    {
        let interaction = &ints[m].0;
        assert(tags[m as int].0 == interaction@);
        let alpha = alphas[interaction.argument_index];
        let v = reduce_row(pre, main, &interaction.fields, alpha, beta);
        r.push(v);
    }
    r
}

/// The row sum of one row, in the extension.
fn row_contribution(
    ints: &Vec<(Interaction, InteractionType)>,
    recips: &[[u32; 4]],
    pre: &[u32],
    main: &[u32],
    Ghost(tags): Ghost<Seq<(InteractionSpec, InteractionType)>>,
) -> (r: [u32; 4])
    requires
        tags.len() == ints.len(),
        recips@.len() >= ints.len(),
        forall|m: int| 0 <= m < ints.len() ==> (#[trigger] tags[m]) == (ints[m].0@, ints[m].1),
        forall|m: int| 0 <= m < ints.len() ==> interaction_well_formed(#[trigger] tags[m].0, pre@.len(), main@.len()),
        ext_row_canonical(recips@),
        row_canonical(pre@),
        row_canonical(main@),
    ensures
        ext_canonical(r@),
        forall|c: int| 0 <= c < 4 ==> #[trigger] r[c] == row_sum(tags, recips@, pre@, main@, c) % (P as int),
{
    let mut acc: [u32; 4] = [0, 0, 0, 0];
    proof {
        assert(tags.take(0) =~= Seq::<(InteractionSpec, InteractionType)>::empty());
        lemma_small_mod(0, P as nat);
    }
    for m in 0..ints.len()
        invariant
            tags.len() == ints.len(),
            recips@.len() >= ints.len(),
            forall|k: int| 0 <= k < ints.len() ==> (#[trigger] tags[k]) == (ints[k].0@, ints[k].1),
            forall|k: int| 0 <= k < ints.len() ==> interaction_well_formed(#[trigger] tags[k].0, pre@.len(), main@.len()),
            ext_row_canonical(recips@),
            row_canonical(pre@),
            row_canonical(main@),
            ext_canonical(acc@),
            forall|c: int| 0 <= c < 4 ==> #[trigger] acc[c] == row_sum(tags.take(m as int), recips@, pre@, main@, c) % (P as int),
    {
        assert(tags[m as int] == (ints[m as int].0@, ints[m as int].1));
        assert(interaction_well_formed(tags[m as int].0, pre@.len(), main@.len()));
        let mult = ints[m].0.count.apply(pre, main);
        let q = recips[m];
        assert(ext_canonical(recips@[m as int]@));
        let receive = match ints[m].1 {
            InteractionType::Send => false,
            InteractionType::Receive => true,
        };
        let ghost old_acc = acc;
        acc = e_add_scaled(acc, q, mult, receive);
        proof {
            assert(tags.take(m + 1).drop_last() =~= tags.take(m as int));
            assert(tags.take(m + 1)[m as int] == tags[m as int]);
            assert forall|c: int| 0 <= c < 4 implies #[trigger] acc[c] == row_sum(
                tags.take(m + 1),
                recips@,
                pre@,
                main@,
                c,
            ) % (P as int) by {
                let prev = row_sum(tags.take(m as int), recips@, pre@, main@, c);
                let cnt = vpc_eval(tags[m as int].0.count, pre@, main@);
                let t = q[c] * cnt;
                assert(cnt == mult);
                if receive {
                    assert(sign(tags[m as int].1) * q[c] * cnt == -t) by (nonlinear_arith)
                        requires
                            sign(tags[m as int].1) == -1,
                            t == q[c] * cnt,
                    ;
                    lemma_sub_mod_noop(prev, t, P as int);
                    lemma_sub_mod_noop(prev % (P as int), t, P as int);
                    lemma_mod_twice(prev, P as int);
                } else {
                    assert(sign(tags[m as int].1) * q[c] * cnt == t);
                    lemma_add_mod_noop(prev, t, P as int);
                    lemma_add_mod_noop(prev % (P as int), t, P as int);
                    lemma_mod_twice(prev, P as int);
                }
            }
        }
    }
    assert(tags.take(ints.len() as int) =~= tags);
    acc
}

/// The challenges of a chip's permutation argument are usable: two
/// canonical elements of the extension, and interactions whose number and
/// bus indices fit.
pub open spec fn challenges_ok<C: PermutationAir>(chip: &C, random_elements: Seq<[u32; 4]>) -> bool {
    &&& random_elements.len() >= 2
    &&& ext_canonical(random_elements[0]@)
    &&& ext_canonical(random_elements[1]@)
    &&& chip.spec_sends().len() + chip.spec_receives().len() < usize::MAX
    &&& forall|k: int|
        0 <= k < chip.spec_sends().len() ==> #[trigger] chip.spec_sends()[k].argument_index < usize::MAX
    &&& forall|k: int|
        0 <= k < chip.spec_receives().len() ==> #[trigger] chip.spec_receives()[k].argument_index < usize::MAX
}

/// The bus challenges of a chip, and its interactions tagged in the order
/// that `tagged_interactions` gives them.
fn chip_challenges<C: PermutationAir>(chip: &C, random_elements: &Vec<[u32; 4]>) -> (r: (
    Vec<(Interaction, InteractionType)>,
    Vec<[u32; 4]>,
))
    requires
        challenges_ok(chip, random_elements@),
    ensures
        r.0.len() == tagged_interactions(chip).len(),
        forall|m: int| 0 <= m < r.0.len() ==> (#[trigger] tagged_interactions(chip)[m]) == (r.0[m].0@, r.0[m].1),
        r.1@.map_values(|a: [u32; 4]| a@) == bus_challenges(chip, random_elements[0]@),
        forall|m: int| 0 <= m < r.0.len() ==> (#[trigger] tagged_interactions(chip)[m]).0.argument_index < r.1.len(),
        forall|k: int| 0 <= k < r.1.len() ==> ext_canonical((#[trigger] r.1[k])@),
{
    let ghost tags = tagged_interactions(chip);
    let all_interactions = chip.all_interactions();
    let sends = chip.sends();
    let receives = chip.receives();
    proof {
        assert forall|k: int| 0 <= k < sends.len() implies #[trigger] sends[k].argument_index < usize::MAX by {
            assert(interactions_view(sends@)[k] == sends@[k]@);
            assert(chip.spec_sends()[k].argument_index < usize::MAX);
        }
        assert forall|k: int| 0 <= k < receives.len() implies #[trigger] receives[k].argument_index < usize::MAX by {
            assert(interactions_view(receives@)[k] == receives@[k]@);
            assert(chip.spec_receives()[k].argument_index < usize::MAX);
        }
    }
    let alphas = generate_rlc_elements(&sends, &receives, random_elements[0]);
    proof {
        assert(alphas@.map_values(|a: [u32; 4]| a@) =~= bus_challenges(chip, random_elements[0]@));
        assert forall|m: int| 0 <= m < all_interactions.len() implies (#[trigger] tags[m]) == (
        all_interactions[m].0@,
        all_interactions[m].1,
        ) by {
            let ns = chip.spec_sends().len() as int;
            if m < ns {
                assert(tags[m] == (chip.spec_sends()[m], InteractionType::Send));
            } else {
                assert(tags[m] == (chip.spec_receives()[m - ns], InteractionType::Receive));
            }
        }
        assert forall|m: int| 0 <= m < all_interactions.len() implies (#[trigger] tags[m]).0.argument_index < alphas.len() by {
            lemma_tagged_bus(chip, m);
        }
        assert forall|k: int| 0 <= k < alphas.len() implies ext_canonical((#[trigger] alphas[k])@) by {
            lemma_ext_pow_canonical(random_elements[0]@, (k + 1) as nat);
        }
    }
    (all_interactions, alphas)
}

/// The permutation trace of a chip over its main trace, in the extension:
/// for each row, the inverse (or zero) of the random linear combination
/// `alpha_bus + sum_j beta^j * field_j` of every interaction, then the
/// running sum of `+count / rlc` over sends and `-count / rlc` over receives
/// up to that row. `None` when the chip has no interaction. The first random
/// element gives the bus challenges, the second the field challenge.
pub fn generate_permutation_trace<C: PermutationAir>(
    chip: &C,
    main: &Vec<Vec<u32>>,
    preprocessed: Option<&Vec<Vec<u32>>>,
    random_elements: &Vec<[u32; 4]>,
) -> (r: Option<Vec<Vec<[u32; 4]>>>)
    requires
        challenges_ok(chip, random_elements@),
        permutation_inputs_ok(
            tagged_interactions(chip),
            match preprocessed {
                Some(p) => Some(p@),
                None => None,
            },
            main@,
        ),
    ensures
        r is None <==> chip.spec_sends().len() + chip.spec_receives().len() == 0,
        r matches Some(perm) ==> is_permutation_trace(
            tagged_interactions(chip),
            bus_challenges(chip, random_elements[0]@),
            random_elements[1]@,
            match preprocessed {
                Some(p) => Some(p@),
                None => None,
            },
            main@,
            perm@,
        ),
        r matches Some(perm) ==> forall|n: int| 0 <= n < perm.len() ==> ext_row_canonical((#[trigger] perm[n])@),
{
    let ghost pre = match preprocessed {
        Some(p) => Some(p@),
        None => None,
    };
    let ghost tags = tagged_interactions(chip);
    let (all_interactions, alphas) = chip_challenges(chip, random_elements);
    if all_interactions.len() == 0 {
        return None;
    }
    let beta = random_elements[1];
    let ghost alpha_spec = bus_challenges(chip, random_elements[0]@);
    let num_interactions = all_interactions.len();
    let empty: Vec<u32> = Vec::new();
    let mut perm: Vec<Vec<[u32; 4]>> = Vec::new();
    let mut phi: [u32; 4] = [0, 0, 0, 0];
    let mut n: usize = 0;
    while n < main.len()
        invariant
            n <= main.len(),
            pre == match preprocessed {
                Some(p) => Some(p@),
                None => None,
            },
            tags == tagged_interactions(chip),
            num_interactions == all_interactions.len(),
            tags.len() == num_interactions,
            num_interactions < usize::MAX,
            empty@.len() == 0,
            forall|m: int| 0 <= m < num_interactions ==> (#[trigger] tags[m]) == (all_interactions[m].0@, all_interactions[m].1),
            forall|m: int| 0 <= m < num_interactions ==> (#[trigger] tags[m]).0.argument_index < alphas.len(),
            forall|k: int| 0 <= k < alphas.len() ==> ext_canonical((#[trigger] alphas[k])@),
            alphas@.map_values(|a: [u32; 4]| a@) == alpha_spec,
            beta@ == random_elements[1]@,
            ext_canonical(beta@),
            permutation_inputs_ok(tags, pre, main@),
            perm.len() == n,
            ext_canonical(phi@),
            forall|c: int| 0 <= c < 4 ==> #[trigger] phi[c] == running_sum(tags, perm@, pre, main@, n - 1, c) % (P as int),
            forall|k: int| 0 <= k < n ==> (#[trigger] perm[k])@.len() == num_interactions + 1,
            forall|k: int| 0 <= k < n ==> ext_row_canonical((#[trigger] perm[k])@),
            forall|k: int, m: int|
                0 <= k < n && 0 <= m < num_interactions ==> is_ext_inverse_or_zero(
                    interaction_rlc(tags, alpha_spec, beta@, pre, main@, k, m),
                    (#[trigger] perm[k]@[m])@,
                ),
            forall|k: int, c: int|
                0 <= k < n && 0 <= c < 4 ==> #[trigger] perm[k]@[num_interactions as int][c] == running_sum(
                    tags,
                    perm@,
                    pre,
                    main@,
                    k,
                    c,
                ) % (P as int),
        decreases main.len() - n,
    {
        let pre_slice: &[u32] = match preprocessed {
            Some(p) => p[n].as_slice(),
            None => empty.as_slice(),
        };
        assert(pre_slice@ == pre_row(pre, n as int));
        let main_slice = main[n].as_slice();
        assert(row_canonical(main@[n as int]@));
        proof {
            assert forall|m: int| 0 <= m < num_interactions implies interaction_well_formed(
                #[trigger] tags[m].0,
                pre_slice@.len(),
                main_slice@.len(),
            ) by {
                assert(interaction_well_formed(tags[m].0, pre_row(pre, n as int).len(), main@[n as int]@.len()));
            }
        }
        let rlcs = row_rlcs(&all_interactions, &alphas, beta, pre_slice, main_slice, Ghost(tags));
        let recips = batch_multiplicative_inverse_ext_allowing_zero(rlcs);
        proof {
            assert forall|m: int| 0 <= m < recips.len() implies ext_canonical((#[trigger] recips@[m])@) by {
                assert(is_ext_inverse_or_zero(rlcs[m]@, recips[m]@));
                if rlcs[m]@ == ext_zero() {
                    assert(recips[m]@ =~= ext_zero());
                }
            }
        }
        let contribution = row_contribution(&all_interactions, recips.as_slice(), pre_slice, main_slice, Ghost(tags));
        let ghost old_phi = phi;
        phi = e_add(phi, contribution);
        let mut row = recips;
        row.push(phi);
        let ghost old_perm = perm@;
        perm.push(row);
        proof {
            assert(perm@[n as int]@.subrange(0, num_interactions as int) =~= recips@);
            assert forall|k: int| 0 <= k <= n implies ext_row_canonical((#[trigger] perm[k])@) by {
                if k < n {
                    assert(perm[k] == old_perm[k]);
                } else {
                    assert forall|m: int| 0 <= m < perm[k]@.len() implies ext_canonical((#[trigger] perm[k]@[m])@) by {
                        if m < num_interactions {
                            assert(perm[k]@[m] == recips@[m]);
                        }
                    }
                }
            }
            assert forall|c: int| 0 <= c < 4 implies #[trigger] phi[c] == running_sum(tags, perm@, pre, main@, n as int, c)
                % (P as int) by {
                lemma_running_sum_prefix(tags, old_perm, perm@, pre, main@, n - 1, c);
                assert forall|m: int| 0 <= m < tags.len() implies #[trigger] recips@[m] == perm@[n as int]@[m] by {
                    assert(perm@[n as int]@[m] == row@[m]);
                }
                lemma_row_sum_prefix(tags, recips@, perm@[n as int]@, pre_slice@, main_slice@, c);
                let prev = running_sum(tags, perm@, pre, main@, n - 1, c);
                let rs = row_sum(tags, recips@, pre_slice@, main_slice@, c);
                lemma_add_mod_noop(prev, rs, P as int);
                lemma_mod_twice(prev, P as int);
                lemma_mod_twice(rs, P as int);
            }
            assert forall|k: int, m: int|
                0 <= k <= n && 0 <= m < num_interactions implies is_ext_inverse_or_zero(
                interaction_rlc(tags, alpha_spec, beta@, pre, main@, k, m),
                (#[trigger] perm[k]@[m])@,
            ) by {
                if k < n {
                    assert(perm[k] == old_perm[k]);
                } else {
                    assert(perm[k]@[m] == recips[m]);
                    assert(alphas[tags[m].0.argument_index as int]@ == alpha_spec[tags[m].0.argument_index as int]);
                    assert(rlcs@[m]@ == interaction_rlc(tags, alpha_spec, beta@, pre, main@, k, m));
                }
            }
            assert forall|k: int, c: int| 0 <= k <= n && 0 <= c < 4 implies #[trigger] perm[k]@[num_interactions as int][c]
                == running_sum(tags, perm@, pre, main@, k, c) % (P as int) by {
                if k < n {
                    assert(perm[k] == old_perm[k]);
                    lemma_running_sum_prefix(tags, old_perm, perm@, pre, main@, k, c);
                } else {
                    assert(perm[k]@[num_interactions as int] == phi);
                }
            }
        }
        n = n + 1;
    }
    Some(perm)
}

/// The running-sum constraints on coefficient `c`: the running sum starts
/// at the first row's sum, grows by each next row's sum, and ends at the
/// cumulative sum.
pub open spec fn running_sum_constraints(
    ints: Seq<(InteractionSpec, InteractionType)>,
    pre_local: Seq<u32>,
    pre_next: Seq<u32>,
    main_local: Seq<u32>,
    main_next: Seq<u32>,
    perm_local: Seq<[u32; 4]>,
    perm_next: Seq<[u32; 4]>,
    cumulative_sum: Seq<u32>,
    is_first_row: bool,
    is_last_row: bool,
    is_transition: bool,
    c: int,
) -> bool {
    let w = ints.len() as int;
    &&& is_transition ==> fz(perm_next[w][c] - perm_local[w][c] - row_sum(ints, perm_next, pre_next, main_next, c))
    &&& is_first_row ==> fz(perm_local[w][c] - row_sum(ints, perm_local, pre_local, main_local, c))
    &&& is_last_row ==> fz(perm_local[w][c] - cumulative_sum[c])
}

/// The constraints of the permutation argument on a row and the next one:
/// each reciprocal times its combination is one, and the running-sum
/// constraints hold on every coefficient.
pub open spec fn permutation_constraints(
    ints: Seq<(InteractionSpec, InteractionType)>,
    alphas: Seq<Seq<u32>>,
    beta: Seq<u32>,
    pre_local: Seq<u32>,
    pre_next: Seq<u32>,
    main_local: Seq<u32>,
    main_next: Seq<u32>,
    perm_local: Seq<[u32; 4]>,
    perm_next: Seq<[u32; 4]>,
    cumulative_sum: Seq<u32>,
    is_first_row: bool,
    is_last_row: bool,
    is_transition: bool,
) -> bool {
    &&& forall|m: int|
        0 <= m < ints.len() ==> ext_mul(
            message_rlc(ints[m].0.fields, pre_local, main_local, alphas[ints[m].0.argument_index as int], beta),
            (#[trigger] perm_local[m])@,
        ) == ext_one()
    &&& forall|c: int|
        0 <= c < 4 ==> #[trigger] running_sum_constraints(
            ints,
            pre_local,
            pre_next,
            main_local,
            main_next,
            perm_local,
            perm_next,
            cumulative_sum,
            is_first_row,
            is_last_row,
            is_transition,
            c,
        )
}

/// `x - y` is zero in the field exactly when `x` and `y` are congruent.
proof fn lemma_fz_sub(x: int, y: int)
    ensures
        fz(x - y) == (x % (P as int) == y % (P as int)),
{
    lemma_sub_mod_noop(x, y, P as int);
    lemma_small_mod(0, P as nat);
    if x % (P as int) != y % (P as int) {
        let d = x % (P as int) - y % (P as int);
        assert(-(P as int) < d < P as int);
        if d < 0 {
            vstd::arithmetic::div_mod::lemma_mod_add_multiples_vanish(d, P as int);
            lemma_small_mod((d + P as int) as nat, P as nat);
        } else {
            lemma_small_mod(d as nat, P as nat);
        }
    }
}

/// Whether the running-sum constraints hold on one coefficient, given the
/// running sums and the reduced row sums.
fn coefficient_ok(
    phi_local: u32,
    phi_next: u32,
    local_sum: u32,
    next_sum: u32,
    cumulative_sum: u32,
    Ghost(rs_local): Ghost<int>,
    Ghost(rs_next): Ghost<int>,
    is_first_row: bool,
    is_last_row: bool,
    is_transition: bool,
) -> (r: bool)
    requires
        phi_local < P,
        phi_next < P,
        cumulative_sum < P,
        local_sum == rs_local % (P as int),
        next_sum == rs_next % (P as int),
    ensures
        r == ((is_transition ==> fz(phi_next - phi_local - rs_next)) && (is_first_row ==> fz(phi_local - rs_local)) && (
        is_last_row ==> fz(phi_local - cumulative_sum))),
{
    let step = f_sub(f_sub(phi_next, phi_local), next_sum);
    let start = f_sub(phi_local, local_sum);
    let end = f_sub(phi_local, cumulative_sum);
    proof {
        lemma_fz_sub(phi_next - phi_local, rs_next);
        lemma_fz_sub(phi_next - phi_local, next_sum as int);
        lemma_mod_twice(rs_next, P as int);
        lemma_mod_twice(phi_next - phi_local, P as int);
        lemma_fz_sub(((phi_next - phi_local) % (P as int)), next_sum as int);
        lemma_small_mod(step as nat, P as nat);
        lemma_fz_sub(phi_local as int, rs_local);
        lemma_fz_sub(phi_local as int, local_sum as int);
        lemma_mod_twice(rs_local, P as int);
        lemma_small_mod(start as nat, P as nat);
        lemma_fz_sub(phi_local as int, cumulative_sum as int);
        lemma_small_mod(end as nat, P as nat);
        lemma_small_mod(phi_local as nat, P as nat);
        lemma_small_mod(cumulative_sum as nat, P as nat);
        lemma_small_mod(local_sum as nat, P as nat);
        lemma_small_mod(next_sum as nat, P as nat);
    }
    (!is_transition || step == 0) && (!is_first_row || start == 0) && (!is_last_row || end == 0)
}

/// Checks the permutation constraints of a chip on a row and the next one;
/// the flags say whether the row is the first, the last, or has a next row.
pub fn eval_permutation_constraints<C: PermutationAir>(
    chip: &C,
    pre_local: &[u32],
    pre_next: &[u32],
    main_local: &[u32],
    main_next: &[u32],
    perm_local: &[[u32; 4]],
    perm_next: &[[u32; 4]],
    random_elements: &Vec<[u32; 4]>,
    cumulative_sum: [u32; 4],
    is_first_row: bool,
    is_last_row: bool,
    is_transition: bool,
) -> (r: bool)
    requires
        challenges_ok(chip, random_elements@),
        ext_canonical(cumulative_sum@),
        forall|m: int|
            0 <= m < tagged_interactions(chip).len() ==> interaction_well_formed(
                #[trigger] tagged_interactions(chip)[m].0,
                pre_local@.len(),
                main_local@.len(),
            ) && interaction_well_formed(tagged_interactions(chip)[m].0, pre_next@.len(), main_next@.len()),
        row_canonical(pre_local@),
        row_canonical(pre_next@),
        row_canonical(main_local@),
        row_canonical(main_next@),
        ext_row_canonical(perm_local@),
        ext_row_canonical(perm_next@),
        tagged_interactions(chip).len() > 0 ==> perm_local@.len() == tagged_interactions(chip).len() + 1,
        tagged_interactions(chip).len() > 0 ==> perm_next@.len() == tagged_interactions(chip).len() + 1,
    ensures
        r == (tagged_interactions(chip).len() == 0 || permutation_constraints(
            tagged_interactions(chip),
            bus_challenges(chip, random_elements[0]@),
            random_elements[1]@,
            pre_local@,
            pre_next@,
            main_local@,
            main_next@,
            perm_local@,
            perm_next@,
            cumulative_sum@,
            is_first_row,
            is_last_row,
            is_transition,
        )),
{
    let ghost tags = tagged_interactions(chip);
    let (all_interactions, alphas) = chip_challenges(chip, random_elements);
    if all_interactions.len() == 0 {
        return true;
    }
    let beta = random_elements[1];
    let ghost alpha_spec = bus_challenges(chip, random_elements[0]@);
    let w = all_interactions.len();
    // Each reciprocal inverts its combination.
    let rlcs = row_rlcs(&all_interactions, &alphas, beta, pre_local, main_local, Ghost(tags));
    let mut ok_recips = true;
    for m in 0..w
        invariant
            w == tags.len(),
            rlcs.len() == w,
            perm_local@.len() == w + 1,
            ext_row_canonical(perm_local@),
            forall|k: int| 0 <= k < w ==> ext_canonical((#[trigger] rlcs[k])@),
            ok_recips == forall|k: int| 0 <= k < m ==> ext_mul(rlcs[k]@, (#[trigger] perm_local@[k])@) == ext_one(),
    {
        assert(ext_canonical(perm_local@[m as int]@));
        let prod = e_mul(rlcs[m], perm_local[m]);
        ok_recips = ok_recips && is_one_ext(prod);
    }
    proof {
        assert forall|k: int| 0 <= k < w implies #[trigger] rlcs[k]@ == message_rlc(
            tags[k].0.fields,
            pre_local@,
            main_local@,
            alpha_spec[tags[k].0.argument_index as int],
            beta@,
        ) by {
            assert(alphas[tags[k].0.argument_index as int]@ == alpha_spec[tags[k].0.argument_index as int]);
        }
    }
    let phi_local = perm_local[w];
    let phi_next = perm_next[w];
    assert(ext_canonical(phi_local@) && ext_canonical(phi_next@));
    // The running sum, coefficient by coefficient.
    let local_sum = row_contribution(&all_interactions, perm_local, pre_local, main_local, Ghost(tags));
    let next_sum = row_contribution(&all_interactions, perm_next, pre_next, main_next, Ghost(tags));
    let mut ok_sums = true;
    for c in 0..4
        invariant
            ext_canonical(phi_local@),
            ext_canonical(phi_next@),
            ext_canonical(cumulative_sum@),
            phi_local == perm_local@[w as int],
            phi_next == perm_next@[w as int],
            w == tags.len(),
            forall|d: int| 0 <= d < 4 ==> #[trigger] local_sum[d] == row_sum(tags, perm_local@, pre_local@, main_local@, d) % (P as int),
            forall|d: int| 0 <= d < 4 ==> #[trigger] next_sum[d] == row_sum(tags, perm_next@, pre_next@, main_next@, d) % (P as int),
            ok_sums == forall|d: int|
                0 <= d < c ==> #[trigger] running_sum_constraints(
                    tags,
                    pre_local@,
                    pre_next@,
                    main_local@,
                    main_next@,
                    perm_local@,
                    perm_next@,
                    cumulative_sum@,
                    is_first_row,
                    is_last_row,
                    is_transition,
                    d,
                ),
    {
        assert(phi_local@[c as int] < P && phi_next@[c as int] < P && cumulative_sum@[c as int] < P);
        let ok = coefficient_ok(
            phi_local[c],
            phi_next[c],
            local_sum[c],
            next_sum[c],
            cumulative_sum[c],
            Ghost(row_sum(tags, perm_local@, pre_local@, main_local@, c as int)),
            Ghost(row_sum(tags, perm_next@, pre_next@, main_next@, c as int)),
            is_first_row,
            is_last_row,
            is_transition,
        );
        proof {
            assert(perm_local@[w as int][c as int] == phi_local[c as int]);
            assert(perm_next@[w as int][c as int] == phi_next[c as int]);
            assert(ok == running_sum_constraints(
                tags,
                pre_local@,
                pre_next@,
                main_local@,
                main_next@,
                perm_local@,
                perm_next@,
                cumulative_sum@,
                is_first_row,
                is_last_row,
                is_transition,
                c as int,
            ));
        }
        ok_sums = ok_sums && ok;
    }
    ok_recips && ok_sums
}

/// The permutation constraints on row `n` of a trace, the last row's next
/// row being the first and the cumulative sum being the last running sum.
pub open spec fn permutation_row_ok(
    ints: Seq<(InteractionSpec, InteractionType)>,
    alphas: Seq<Seq<u32>>,
    beta: Seq<u32>,
    pre: Option<Seq<Vec<u32>>>,
    main: Seq<Vec<u32>>,
    perm: Seq<Vec<[u32; 4]>>,
    n: int,
) -> bool {
    let len = perm.len() as int;
    permutation_constraints(
        ints,
        alphas,
        beta,
        pre_row(pre, n),
        pre_row(pre, (n + 1) % len),
        main[n]@,
        main[(n + 1) % len]@,
        perm[n]@,
        perm[(n + 1) % len]@,
        perm[len - 1]@[ints.len() as int]@,
        n == 0,
        n == len - 1,
        n != len - 1,
    )
}

/// The permutation trace satisfies the permutation constraints on every
/// row, the last row's next row being the first and the cumulative sum being
/// the last running sum, as long as no message's combination is zero.
pub proof fn permutation_trace_satisfies_constraints(
    ints: Seq<(InteractionSpec, InteractionType)>,
    alphas: Seq<Seq<u32>>,
    beta: Seq<u32>,
    pre: Option<Seq<Vec<u32>>>,
    main: Seq<Vec<u32>>,
    perm: Seq<Vec<[u32; 4]>>,
)
    requires
        is_permutation_trace(ints, alphas, beta, pre, main, perm),
        perm.len() > 0,
        forall|n: int, m: int|
            0 <= n < perm.len() && 0 <= m < ints.len() ==> #[trigger] interaction_rlc(
                ints,
                alphas,
                beta,
                pre,
                main,
                n,
                m,
            ) != ext_zero(),
    ensures
        forall|n: int|
            0 <= n < perm.len() ==> #[trigger] permutation_row_ok(ints, alphas, beta, pre, main, perm, n),
{
    let len = perm.len() as int;
    let w = ints.len() as int;
    assert forall|n: int| 0 <= n < len implies #[trigger] permutation_row_ok(ints, alphas, beta, pre, main, perm, n) by {
        assert forall|m: int| 0 <= m < w implies ext_mul(
            message_rlc(ints[m].0.fields, pre_row(pre, n), main[n]@, alphas[ints[m].0.argument_index as int], beta),
            (#[trigger] perm[n]@[m])@,
        ) == ext_one() by {
            let x = interaction_rlc(ints, alphas, beta, pre, main, n, m);
            assert(is_ext_inverse_or_zero(x, perm[n]@[m]@));
        }
        let nx = (n + 1) % len;
        let cs = perm[len - 1]@[w]@;
        let first = n == 0;
        let last = n == len - 1;
        let transition = n != len - 1;
        assert forall|c: int| 0 <= c < 4 implies #[trigger] running_sum_constraints(
            ints,
            pre_row(pre, n),
            pre_row(pre, nx),
            main[n]@,
            main[nx]@,
            perm[n]@,
            perm[nx]@,
            cs,
            first,
            last,
            transition,
            c,
        ) by {
            let phi = perm[n]@[w][c];
            let run = running_sum(ints, perm, pre, main, n, c);
            assert(phi == run % (P as int));
            if n == 0 {
                let rs = row_sum(ints, perm[0]@, pre_row(pre, 0), main[0]@, c);
                assert(running_sum(ints, perm, pre, main, -1, c) == 0);
                assert(run == rs);
                lemma_fz_sub(phi as int, rs);
                lemma_mod_twice(rs, P as int);
            }
            if n != len - 1 {
                vstd::arithmetic::div_mod::lemma_small_mod((n + 1) as nat, len as nat);
                let phi_next = perm[n + 1]@[w][c];
                assert(phi_next == running_sum(ints, perm, pre, main, n + 1, c) % (P as int));
                let rs = row_sum(ints, perm[n + 1]@, pre_row(pre, n + 1), main[n + 1]@, c);
                assert(running_sum(ints, perm, pre, main, n + 1, c) == run + rs);
                lemma_fz_sub(phi_next - phi, rs);
                lemma_sub_mod_noop(phi_next as int, phi as int, P as int);
                lemma_sub_mod_noop(run + rs, run, P as int);
                lemma_mod_twice(run + rs, P as int);
                lemma_mod_twice(run, P as int);
            }
            lemma_fz_sub(phi as int, phi as int);
        }
    }
}

} // verus!
