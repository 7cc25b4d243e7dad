use vstd::arithmetic::div_mod::{lemma_add_mod_noop, lemma_mod_twice, lemma_mul_mod_noop_right, lemma_small_mod};
use vstd::prelude::*;

use crate::ext::{ext_inverse, ext_pow, ext_zero, is_ext_inverse_or_zero};
use crate::field::{fz, P};
use crate::interaction::{vpc_eval, InteractionSpec, InteractionType, VpcSpec};
use crate::permutation::{interaction_rlc, is_permutation_trace, pre_row, row_sum, running_sum, sign};
use crate::permutation_air::fields_rlc;

verus! {

/// `sum_i s[i].1 * f(s[i].0)`: each signed count weighted by its key.
pub open spec fn weighted<K>(s: Seq<(K, int)>, f: spec_fn(K) -> int) -> int
    decreases s.len(),
{
    if s.len() == 0 {
        0
    } else {
        weighted(s.drop_last(), f) + s.last().1 * f(s.last().0)
    }
}

/// The total signed count of key `k`.
pub open spec fn key_count<K>(s: Seq<(K, int)>, k: K) -> int
    decreases s.len(),
{
    if s.len() == 0 {
        0
    } else {
        key_count(s.drop_last(), k) + if s.last().0 == k {
            s.last().1
        } else {
            0
        }
    }
}

/// The entries of keys other than `k`, in order.
pub open spec fn without_key<K>(s: Seq<(K, int)>, k: K) -> Seq<(K, int)>
    decreases s.len(),
{
    if s.len() == 0 {
        s
    } else {
        let t = without_key(s.drop_last(), k);
        if s.last().0 != k {
            t.push(s.last())
        } else {
            t
        }
    }
}

/// Weights add over a concatenation.
pub proof fn lemma_weighted_add<K>(a: Seq<(K, int)>, b: Seq<(K, int)>, f: spec_fn(K) -> int)
    ensures
        weighted(a + b, f) == weighted(a, f) + weighted(b, f),
    decreases b.len(),
{
    if b.len() > 0 {
        assert((a + b).drop_last() =~= a + b.drop_last());
        lemma_weighted_add(a, b.drop_last(), f);
    } else {
        assert(a + b =~= a);
    }
}

/// Counts add over a concatenation.
pub proof fn lemma_key_count_add<K>(a: Seq<(K, int)>, b: Seq<(K, int)>, k: K)
    ensures
        key_count(a + b, k) == key_count(a, k) + key_count(b, k),
    decreases b.len(),
{
    if b.len() > 0 {
        assert((a + b).drop_last() =~= a + b.drop_last());
        lemma_key_count_add(a, b.drop_last(), k);
    } else {
        assert(a + b =~= a);
    }
}

/// Taking out one key's entries takes out its count times its weight, and
/// leaves the other keys' counts.
proof fn lemma_split_by_key<K>(s: Seq<(K, int)>, k: K, f: spec_fn(K) -> int)
    ensures
        weighted(s, f) == key_count(s, k) * f(k) + weighted(without_key(s, k), f),
        forall|j: K| j != k ==> #[trigger] key_count(without_key(s, k), j) == key_count(s, j),
        key_count(without_key(s, k), k) == 0,
        without_key(s, k).len() <= s.len(),
        s.len() > 0 && s.last().0 == k ==> without_key(s, k).len() < s.len(),
    decreases s.len(),
{
    if s.len() > 0 {
        let t = s.drop_last();
        let e = s.last();
        lemma_split_by_key(t, k, f);
        let w = without_key(t, k);
        if e.0 == k {
            assert(without_key(s, k) == w);
            assert(key_count(t, k) * f(k) + e.1 * f(k) == (key_count(t, k) + e.1) * f(k)) by (nonlinear_arith);
        } else {
            assert(without_key(s, k) == w.push(e));
            assert(w.push(e).drop_last() =~= w);
            assert forall|j: K| j != k implies #[trigger] key_count(without_key(s, k), j) == key_count(s, j) by {
                assert(key_count(w, j) == key_count(t, j));
            }
        }
    }
}

/// When every key's signed count vanishes in the field, so does the
/// weighted sum, whatever the weights.
pub proof fn lemma_balanced_weighted<K>(s: Seq<(K, int)>, f: spec_fn(K) -> int)
    requires
        forall|k: K| fz(#[trigger] key_count(s, k)),
    ensures
        fz(weighted(s, f)),
    decreases s.len(),
{
    if s.len() > 0 {
        let k = s.last().0;
        lemma_split_by_key(s, k, f);
        let rest = without_key(s, k);
        assert forall|j: K| fz(#[trigger] key_count(rest, j)) by {
            if j != k {
                assert(key_count(rest, j) == key_count(s, j));
            } else {
                lemma_small_mod(0, P as nat);
            }
        }
        lemma_balanced_weighted(rest, f);
        let c = key_count(s, k);
        assert(fz(c));
        lemma_mul_mod_noop_right(f(k), c, P as int);
        assert(f(k) * c == c * f(k)) by (nonlinear_arith);
        lemma_small_mod(0, P as nat);
        assert(fz(c * f(k)));
        lemma_add_mod_noop(c * f(k), weighted(rest, f), P as int);
    } else {
        lemma_small_mod(0, P as nat);
    }
}

/// The values of the fields of a message on a row pair.
pub open spec fn field_values(fields: Seq<VpcSpec>, pre: Seq<u32>, main: Seq<u32>) -> Seq<int> {
    Seq::new(fields.len(), |j: int| vpc_eval(fields[j], pre, main))
}

/// The messages of a row: for each interaction, its bus and field values,
/// counted with its sign.
pub open spec fn row_messages(
    ints: Seq<(InteractionSpec, InteractionType)>,
    pre: Seq<u32>,
    main: Seq<u32>,
) -> Seq<((usize, Seq<int>), int)> {
    Seq::new(
        ints.len(),
        |m: int|
            (
                (ints[m].0.argument_index, field_values(ints[m].0.fields, pre, main)),
                sign(ints[m].1) * vpc_eval(ints[m].0.count, pre, main),
            ),
    )
}

/// The messages of rows `0..=n` of a trace.
pub open spec fn trace_messages(
    ints: Seq<(InteractionSpec, InteractionType)>,
    pre: Option<Seq<Vec<u32>>>,
    main: Seq<Vec<u32>>,
    n: int,
) -> Seq<((usize, Seq<int>), int)>
    decreases n + 1,
{
    if n < 0 {
        Seq::empty()
    } else {
        trace_messages(ints, pre, main, n - 1) + row_messages(ints, pre_row(pre, n), main[n]@)
    }
}

/// Coefficient `c` of `sum_j beta^j * values[j]`, `beta` in the extension,
/// on the integers.
pub open spec fn values_rlc(values: Seq<int>, beta: Seq<u32>, c: int) -> int
    decreases values.len(),
{
    if values.len() == 0 {
        0
    } else {
        values_rlc(values.drop_last(), beta, c) + ext_pow(beta, (values.len() - 1) as nat)[c] * values.last()
    }
}

/// The combination `alpha^(bus + 1) + sum_j beta^j * values[j]` of a message,
/// in the extension.
pub open spec fn message_combination(alpha: Seq<u32>, beta: Seq<u32>, msg: (usize, Seq<int>)) -> Seq<u32> {
    Seq::new(
        4,
        |c: int| ((ext_pow(alpha, (msg.0 + 1) as nat)[c] + values_rlc(msg.1, beta, c)) % (P as int)) as u32,
    )
}

/// Coefficient `c` of the reciprocal of a message's combination.
pub open spec fn message_weight(alpha: Seq<u32>, beta: Seq<u32>, c: int) -> spec_fn((usize, Seq<int>)) -> int {
    |msg: (usize, Seq<int>)| ext_inverse(message_combination(alpha, beta, msg))[c] as int
}

/// What the law below needs of one chip: its interactions, the bus
/// challenges it used, its traces and its permutation trace.
pub struct ChipPermutation {
    pub ints: Seq<(InteractionSpec, InteractionType)>,
    pub alphas: Seq<Seq<u32>>,
    pub pre: Option<Seq<Vec<u32>>>,
    pub main: Seq<Vec<u32>>,
    pub perm: Seq<Vec<[u32; 4]>>,
}

/// The messages of all rows of all chips.
pub open spec fn all_messages(chips: Seq<ChipPermutation>) -> Seq<((usize, Seq<int>), int)>
    decreases chips.len(),
{
    if chips.len() == 0 {
        Seq::empty()
    } else {
        let c = chips.last();
        all_messages(chips.drop_last()) + trace_messages(c.ints, c.pre, c.main, c.main.len() - 1)
    }
}

/// Coefficient `k` of the sum of the chips' cumulative sums: the running sum
/// on the last row of each permutation trace.
pub open spec fn cumulative_total(chips: Seq<ChipPermutation>, k: int) -> int
    decreases chips.len(),
{
    if chips.len() == 0 {
        0
    } else {
        let c = chips.last();
        cumulative_total(chips.drop_last(), k) + c.perm.last()@[c.ints.len() as int][k]
    }
}

/// A chip's permutation trace was generated with the challenges `alpha` and
/// `beta`, and no message's combination is zero.
pub open spec fn honest_permutation(c: ChipPermutation, alpha: Seq<u32>, beta: Seq<u32>) -> bool {
    &&& is_permutation_trace(c.ints, c.alphas, beta, c.pre, c.main, c.perm)
    &&& c.perm.len() > 0
    &&& forall|b: int| 0 <= b < c.alphas.len() ==> #[trigger] c.alphas[b] == ext_pow(alpha, (b + 1) as nat)
    &&& forall|m: int| 0 <= m < c.ints.len() ==> (#[trigger] c.ints[m]).0.argument_index < c.alphas.len()
    &&& forall|n: int, m: int|
        0 <= n < c.perm.len() && 0 <= m < c.ints.len() ==> #[trigger] interaction_rlc(
            c.ints,
            c.alphas,
            beta,
            c.pre,
            c.main,
            n,
            m,
        ) != ext_zero()
}

/// The combination of the fields is the combination of their values.
proof fn lemma_fields_rlc_values(fields: Seq<VpcSpec>, pre: Seq<u32>, main: Seq<u32>, beta: Seq<u32>, c: int)
    ensures
        fields_rlc(fields, pre, main, beta, c) == values_rlc(field_values(fields, pre, main), beta, c),
    decreases fields.len(),
{
    if fields.len() > 0 {
        lemma_fields_rlc_values(fields.drop_last(), pre, main, beta, c);
        assert(field_values(fields.drop_last(), pre, main) =~= field_values(fields, pre, main).drop_last());
    }
}

/// Each reciprocal of an honest permutation trace is the weight of its
/// message.
proof fn lemma_recip_is_weight(c: ChipPermutation, alpha: Seq<u32>, beta: Seq<u32>, n: int, m: int, k: int)
    requires
        honest_permutation(c, alpha, beta),
        0 <= n < c.perm.len(),
        0 <= m < c.ints.len(),
    ensures
        c.perm[n]@[m][k] == message_weight(alpha, beta, k)(row_messages(c.ints, pre_row(c.pre, n), c.main[n]@)[m].0),
{
    let it = c.ints[m].0;
    let pre = pre_row(c.pre, n);
    let main = c.main[n]@;
    let x = interaction_rlc(c.ints, c.alphas, beta, c.pre, c.main, n, m);
    let key = (it.argument_index, field_values(it.fields, pre, main));
    let b = it.argument_index as int;
    assert(c.alphas[b] == ext_pow(alpha, (b + 1) as nat));
    assert forall|d: int| 0 <= d < 4 implies #[trigger] x[d] == message_combination(alpha, beta, key)[d] by {
        lemma_fields_rlc_values(it.fields, pre, main, beta, d);
    }
    assert(x =~= message_combination(alpha, beta, key));
    assert(is_ext_inverse_or_zero(x, c.perm[n]@[m]@));
}

/// The row sum of an honest permutation trace is the weighted sum of the
/// row's messages.
proof fn lemma_row_sum_weighted(c: ChipPermutation, alpha: Seq<u32>, beta: Seq<u32>, n: int, k: int, d: int)
    requires
        honest_permutation(c, alpha, beta),
        0 <= n < c.perm.len(),
        0 <= k <= c.ints.len(),
    ensures
        row_sum(c.ints.take(k), c.perm[n]@, pre_row(c.pre, n), c.main[n]@, d) == weighted(
            row_messages(c.ints, pre_row(c.pre, n), c.main[n]@).take(k),
            message_weight(alpha, beta, d),
        ),
    decreases k,
{
    let pre = pre_row(c.pre, n);
    let main = c.main[n]@;
    let msgs = row_messages(c.ints, pre, main);
    if k > 0 {
        lemma_row_sum_weighted(c, alpha, beta, n, k - 1, d);
        assert(c.ints.take(k).drop_last() =~= c.ints.take(k - 1));
        assert(msgs.take(k).drop_last() =~= msgs.take(k - 1));
        lemma_recip_is_weight(c, alpha, beta, n, k - 1, d);
        let s = sign(c.ints[k - 1].1);
        let q = c.perm[n]@[k - 1][d] as int;
        let cnt = vpc_eval(c.ints[k - 1].0.count, pre, main);
        assert(s * q * cnt == (s * cnt) * q) by (nonlinear_arith);
    } else {
        assert(c.ints.take(0) =~= Seq::<(InteractionSpec, InteractionType)>::empty());
        assert(msgs.take(0) =~= Seq::<((usize, Seq<int>), int)>::empty());
    }
}

/// The running sum of an honest permutation trace is the weighted sum of the
/// messages of the rows so far.
proof fn lemma_running_sum_weighted(c: ChipPermutation, alpha: Seq<u32>, beta: Seq<u32>, n: int, d: int)
    requires
        honest_permutation(c, alpha, beta),
        -1 <= n < c.perm.len(),
    ensures
        running_sum(c.ints, c.perm, c.pre, c.main, n, d) == weighted(
            trace_messages(c.ints, c.pre, c.main, n),
            message_weight(alpha, beta, d),
        ),
    decreases n + 1,
{
    if n >= 0 {
        lemma_running_sum_weighted(c, alpha, beta, n - 1, d);
        lemma_row_sum_weighted(c, alpha, beta, n, c.ints.len() as int, d);
        let msgs = row_messages(c.ints, pre_row(c.pre, n), c.main[n]@);
        assert(c.ints.take(c.ints.len() as int) =~= c.ints);
        assert(msgs.take(c.ints.len() as int) =~= msgs);
        lemma_weighted_add(trace_messages(c.ints, c.pre, c.main, n - 1), msgs, message_weight(alpha, beta, d));
    }
}

/// The cumulative sums of the chips add up to the weighted sum of all their
/// messages, in the field, coefficient by coefficient.
proof fn lemma_cumulative_total_weighted(chips: Seq<ChipPermutation>, alpha: Seq<u32>, beta: Seq<u32>, d: int)
    requires
        forall|i: int| 0 <= i < chips.len() ==> honest_permutation(#[trigger] chips[i], alpha, beta),
        0 <= d < 4,
    ensures
        cumulative_total(chips, d) % (P as int) == weighted(all_messages(chips), message_weight(alpha, beta, d)) % (
        P as int),
    decreases chips.len(),
{
    if chips.len() > 0 {
        let rest = chips.drop_last();
        let c = chips.last();
        assert(honest_permutation(chips[chips.len() - 1], alpha, beta));
        lemma_cumulative_total_weighted(rest, alpha, beta, d);
        let last = c.perm.len() - 1;
        lemma_running_sum_weighted(c, alpha, beta, last, d);
        let f = message_weight(alpha, beta, d);
        let tm = trace_messages(c.ints, c.pre, c.main, c.main.len() - 1);
        lemma_weighted_add(all_messages(rest), tm, f);
        let run = running_sum(c.ints, c.perm, c.pre, c.main, last, d);
        assert(c.perm.last()@[c.ints.len() as int][d] == run % (P as int)) by {
            assert(c.perm[last] == c.perm.last());
        }
        let a = cumulative_total(rest, d);
        let wr = weighted(all_messages(rest), f);
        lemma_add_mod_noop(a, run % (P as int), P as int);
        lemma_mod_twice(run, P as int);
        lemma_add_mod_noop(a, run, P as int);
        lemma_add_mod_noop(wr, run, P as int);
    }
}

/// When the buses balance, so that every message is sent as many times as
/// it is received across all chips (counted in the field), the cumulative
/// sums of the chips' honest permutation traces add up to zero, on every
/// coefficient of the extension.
pub proof fn balanced_buses_cancel(chips: Seq<ChipPermutation>, alpha: Seq<u32>, beta: Seq<u32>)
    requires
        forall|i: int| 0 <= i < chips.len() ==> honest_permutation(#[trigger] chips[i], alpha, beta),
        forall|msg: (usize, Seq<int>)| fz(#[trigger] key_count(all_messages(chips), msg)),
    ensures
        forall|d: int| 0 <= d < 4 ==> fz(#[trigger] cumulative_total(chips, d)),
{
    assert forall|d: int| 0 <= d < 4 implies fz(#[trigger] cumulative_total(chips, d)) by {
        lemma_cumulative_total_weighted(chips, alpha, beta, d);
        lemma_balanced_weighted(all_messages(chips), message_weight(alpha, beta, d));
    }
}

} // verus!
