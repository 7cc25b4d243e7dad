use vstd::arithmetic::div_mod::{lemma_add_mod_noop, lemma_mod_twice, lemma_mul_mod_noop};
use vstd::prelude::*;

use crate::ext::{e_add, e_add_scaled, e_mul, ext_canonical, ext_mul, ext_one, ext_pow, lemma_ext_pow_canonical};
use crate::field::P;
use crate::interaction::{
    interactions_view, row_canonical, vpc_eval, vpc_well_formed, Interaction, InteractionSpec,
    InteractionType, VirtualPairCol, VpcSpec,
};

verus! {

/// The largest bus index among the interactions, or 0 when there are none.
pub open spec fn max_argument_index(s: Seq<InteractionSpec>) -> nat
    decreases s.len(),
{
    if s.len() == 0 {
        0
    } else {
        let m = max_argument_index(s.drop_last());
        if s.last().argument_index > m {
            s.last().argument_index as nat
        } else {
            m
        }
    }
}

/// Coefficient `c` of `sum_j beta^j * fields_j`, `beta` in the extension,
/// over the integers.
pub open spec fn fields_rlc(
    fields: Seq<VpcSpec>,
    preprocessed: Seq<u32>,
    main: Seq<u32>,
    beta: Seq<u32>,
    c: int,
) -> int
    decreases fields.len(),
{
    if fields.len() == 0 {
        0
    } else {
        fields_rlc(fields.drop_last(), preprocessed, main, beta, c) + ext_pow(beta, (fields.len() - 1) as nat)[c]
            * vpc_eval(fields.last(), preprocessed, main)
    }
}

/// The random linear combination `alpha + sum_j beta^j * fields_j` of a
/// message, in the extension.
pub open spec fn message_rlc(
    fields: Seq<VpcSpec>,
    preprocessed: Seq<u32>,
    main: Seq<u32>,
    alpha: Seq<u32>,
    beta: Seq<u32>,
) -> Seq<u32> {
    Seq::new(4, |c: int| ((alpha[c] + fields_rlc(fields, preprocessed, main, beta, c)) % (P as int)) as u32)
}

/// All virtual columns of a message are well formed for the given widths.
pub open spec fn fields_well_formed(fields: Seq<VpcSpec>, preprocessed_len: nat, main_len: nat) -> bool {
    forall|j: int|
        0 <= j < fields.len() ==> vpc_well_formed(#[trigger] fields[j], preprocessed_len, main_len)
}

/// An interaction both of whose parts are well formed for the given widths.
pub open spec fn interaction_well_formed(i: InteractionSpec, preprocessed_len: nat, main_len: nat) -> bool {
    &&& fields_well_formed(i.fields, preprocessed_len, main_len)
    &&& vpc_well_formed(i.count, preprocessed_len, main_len)
}

/// The bus messages that a chip sends and receives.
pub trait PermutationAir {
    spec fn spec_sends(&self) -> Seq<InteractionSpec>;

    spec fn spec_receives(&self) -> Seq<InteractionSpec>;

    fn sends(&self) -> (r: Vec<Interaction>)
        ensures
            interactions_view(r@) == self.spec_sends(),
    ;

    fn receives(&self) -> (r: Vec<Interaction>)
        ensures
            interactions_view(r@) == self.spec_receives(),
    ;

    /// The sends, tagged `Send`, followed by the receives, tagged `Receive`.
    fn all_interactions(&self) -> (r: Vec<(Interaction, InteractionType)>)
        ensures
            r.len() == self.spec_sends().len() + self.spec_receives().len(),
            forall|k: int|
                0 <= k < self.spec_sends().len() ==> (#[trigger] r[k]).0@ == self.spec_sends()[k]
                    && r[k].1 == InteractionType::Send,
            forall|k: int|
                self.spec_sends().len() <= k < r.len() ==> (#[trigger] r[k]).0@
                    == self.spec_receives()[k - self.spec_sends().len()] && r[k].1
                    == InteractionType::Receive,
    {
        let sends = self.sends();
        let receives = self.receives();
        let ghost s = interactions_view(sends@);
        let ghost rv = interactions_view(receives@);
        let mut out: Vec<(Interaction, InteractionType)> = Vec::new();
        let mut sends = sends;
        let mut receives = receives;
        let ghost sends0 = sends@;
        let ghost receives0 = receives@;
        let ns = sends.len();
        let nr = receives.len();
        let mut k: usize = 0;
        while k < ns
            invariant
                k <= ns,
                ns == sends0.len(),
                sends.len() == ns - k,
                sends@ == sends0.subrange(k as int, ns as int),
                out.len() == k,
                forall|m: int|
                    0 <= m < k ==> (#[trigger] out[m]).0 == sends0[m] && out[m].1
                        == InteractionType::Send,
            decreases ns - k,
        {
            let i = sends.remove(0);
            out.push((i, InteractionType::Send));
            k = k + 1;
        }
        let mut k: usize = 0;
        while k < nr
            invariant
                k <= nr,
                nr == receives0.len(),
                ns == sends0.len(),
                receives.len() == nr - k,
                receives@ == receives0.subrange(k as int, nr as int),
                out.len() == ns + k,
                forall|m: int|
                    0 <= m < ns ==> (#[trigger] out[m]).0 == sends0[m] && out[m].1
                        == InteractionType::Send,
                forall|m: int|
                    ns <= m < ns + k ==> (#[trigger] out[m]).0 == receives0[m - ns] && out[m].1
                        == InteractionType::Receive,
            decreases nr - k,
        {
            let i = receives.remove(0);
            out.push((i, InteractionType::Receive));
            k = k + 1;
        }
        proof {
            assert forall|m: int| 0 <= m < ns implies (#[trigger] out[m]).0@ == self.spec_sends()[m] by {
                assert(s[m] == sends0[m]@);
            }
            assert forall|m: int| ns <= m < out.len() implies (#[trigger] out[m]).0@
                == self.spec_receives()[m - ns] by {
                assert(rv[m - ns] == receives0[m - ns]@);
            }
        }
        out
    }

    /// The width of the permutation trace: one column per interaction plus
    /// the running sum, or nothing when the chip has no interaction.
    fn permutation_width(&self) -> (r: usize)
        requires
            self.spec_sends().len() + self.spec_receives().len() < usize::MAX,
        ensures
            r == if self.spec_sends().len() + self.spec_receives().len() > 0 {
                self.spec_sends().len() + self.spec_receives().len() + 1
            } else {
                0
            },
    {
        let num_interactions = self.sends().len() + self.receives().len();
        if num_interactions > 0 {
            num_interactions + 1
        } else {
            0
        }
    }
}

/// The powers `r, r^2, ..., r^(m+1)` of the random element, where `m` is the
/// largest bus index used: one challenge per bus.
pub fn generate_rlc_elements(
    sends: &Vec<Interaction>,
    receives: &Vec<Interaction>,
    random_element: [u32; 4],
) -> (r: Vec<[u32; 4]>)
    requires
        ext_canonical(random_element@),
        forall|k: int| 0 <= k < sends.len() ==> #[trigger] sends[k].argument_index < usize::MAX,
        forall|k: int|
            0 <= k < receives.len() ==> #[trigger] receives[k].argument_index < usize::MAX,
    ensures
        r.len() == max_argument_index(interactions_view(sends@) + interactions_view(receives@)) + 1,
        forall|k: int| 0 <= k < r.len() ==> (#[trigger] r[k])@ == ext_pow(random_element@, (k + 1) as nat),
{
    let ghost all = interactions_view(sends@) + interactions_view(receives@);
    let mut max: usize = 0;
    let ns = sends.len();
    let nr = receives.len();
    let mut i: usize = 0;
    while i < ns
        invariant
            i <= ns,
            ns == sends.len(),
            all == interactions_view(sends@) + interactions_view(receives@),
            all.len() == ns + receives.len(),
            max as nat == max_argument_index(all.take(i as int)),
        decreases ns - i,
    {
        let a = sends[i].argument_index;
        assert(all[i as int].argument_index == a);
        assert(all.take(i + 1).drop_last() =~= all.take(i as int));
        if a > max {
            max = a;
        }
        i = i + 1;
    }
    let mut j: usize = 0;
    while j < nr
        invariant
            j <= nr,
            ns == sends.len(),
            nr == receives.len(),
            all == interactions_view(sends@) + interactions_view(receives@),
            all.len() == ns + nr,
            max as nat == max_argument_index(all.take(ns + j)),
        decreases nr - j,
    {
        let a = receives[j].argument_index;
        assert(all[ns + j].argument_index == a);
        assert(all.take(ns + j + 1).drop_last() =~= all.take(ns + j));
        if a > max {
            max = a;
        }
        j = j + 1;
    }
    assert(all.take(ns + nr) =~= all);
    proof {
        assert forall|k: int| 0 <= k < all.len() implies #[trigger] all[k].argument_index < usize::MAX by {
            if k < ns {
                assert(all[k] == sends[k]@);
            } else {
                assert(all[k] == receives[k - ns]@);
            }
        }
        lemma_max_argument_index_bound(all);
    }
    let mut out: Vec<[u32; 4]> = Vec::new();
    let mut current = random_element;
    proof {
        lemma_ext_pow_one(random_element@);
    }
    for k in 0..max + 1
        invariant
            ext_canonical(random_element@),
            out.len() == k,
            current@ == ext_pow(random_element@, (k + 1) as nat),
            forall|m: int| 0 <= m < k ==> (#[trigger] out[m])@ == ext_pow(random_element@, (m + 1) as nat),
    {
        out.push(current);
        proof {
            lemma_ext_pow_canonical(random_element@, (k + 1) as nat);
        }
        current = e_mul(current, random_element);
    }
    out
}

/// The first power of an element is the element itself.
proof fn lemma_ext_pow_one(a: Seq<u32>)
    requires
        ext_canonical(a),
    ensures
        ext_pow(a, 1) == a,
{
    let one = ext_pow(a, 0);
    assert(one =~= ext_one());
    assert(one[0] == 1 && one[1] == 0 && one[2] == 0 && one[3] == 0);
    assert(ext_pow(a, 1) == ext_mul(one, a));
    vstd::arithmetic::div_mod::lemma_small_mod(a[0] as nat, P as nat);
    vstd::arithmetic::div_mod::lemma_small_mod(a[1] as nat, P as nat);
    vstd::arithmetic::div_mod::lemma_small_mod(a[2] as nat, P as nat);
    vstd::arithmetic::div_mod::lemma_small_mod(a[3] as nat, P as nat);
    assert(ext_pow(a, 1) =~= a);
}

/// Every bus index is below `usize::MAX`, hence so is the largest.
proof fn lemma_max_argument_index_bound(s: Seq<InteractionSpec>)
    requires
        forall|k: int| 0 <= k < s.len() ==> #[trigger] s[k].argument_index < usize::MAX,
    ensures
        max_argument_index(s) < usize::MAX,
    decreases s.len(),
{
    if s.len() > 0 {
        lemma_max_argument_index_bound(s.drop_last());
    }
}

/// The random linear combination `alpha + sum_j beta^j * fields_j` of one
/// message on a row pair, `alpha` and `beta` in the extension.
pub fn reduce_row(
    preprocessed_row: &[u32],
    main_row: &[u32],
    fields: &Vec<VirtualPairCol>,
    alpha: [u32; 4],
    beta: [u32; 4],
) -> (r: [u32; 4])
    requires
        ext_canonical(alpha@),
        ext_canonical(beta@),
        row_canonical(preprocessed_row@),
        row_canonical(main_row@),
        fields_well_formed(fields@.map_values(|v: VirtualPairCol| v@), preprocessed_row@.len(), main_row@.len()),
    ensures
        ext_canonical(r@),
        r@ == message_rlc(fields@.map_values(|v: VirtualPairCol| v@), preprocessed_row@, main_row@, alpha@, beta@),
{
    let ghost fs = fields@.map_values(|v: VirtualPairCol| v@);
    let mut rlc: [u32; 4] = [0, 0, 0, 0];
    let mut beta_power: [u32; 4] = [1, 0, 0, 0];
    proof {
        assert(fs.take(0) =~= Seq::<VpcSpec>::empty());
        assert(beta_power@ =~= ext_pow(beta@, 0));
        vstd::arithmetic::div_mod::lemma_small_mod(0, P as nat);
    }
    for j in 0..fields.len()
        invariant
            fs == fields@.map_values(|v: VirtualPairCol| v@),
            ext_canonical(beta@),
            row_canonical(preprocessed_row@),
            row_canonical(main_row@),
            fields_well_formed(fs, preprocessed_row@.len(), main_row@.len()),
            ext_canonical(rlc@),
            beta_power@ == ext_pow(beta@, j as nat),
            forall|c: int|
                0 <= c < 4 ==> #[trigger] rlc[c] == fields_rlc(fs.take(j as int), preprocessed_row@, main_row@, beta@, c)
                    % (P as int),
    {
        assert(vpc_well_formed(fs[j as int], preprocessed_row@.len(), main_row@.len()));
        let v = fields[j].apply(preprocessed_row, main_row);
        proof {
            lemma_ext_pow_canonical(beta@, j as nat);
        }
        let ghost old_rlc = rlc;
        rlc = e_add_scaled(rlc, beta_power, v, false);
        proof {
            let val = vpc_eval(fs[j as int], preprocessed_row@, main_row@);
            assert(fs.take(j + 1).drop_last() =~= fs.take(j as int));
            assert(fs.take(j + 1).last() == fs[j as int]);
            assert forall|c: int| 0 <= c < 4 implies #[trigger] rlc[c] == fields_rlc(
                fs.take(j + 1),
                preprocessed_row@,
                main_row@,
                beta@,
                c,
            ) % (P as int) by {
                let prev = fields_rlc(fs.take(j as int), preprocessed_row@, main_row@, beta@, c);
                let e = beta_power[c] as int;
                assert(fields_rlc(fs.take(j + 1), preprocessed_row@, main_row@, beta@, c) == prev + e * val);
                lemma_add_mod_noop(prev, e * val, P as int);
                lemma_add_mod_noop(prev % (P as int), e * val, P as int);
                lemma_mod_twice(prev, P as int);
            }
        }
        beta_power = e_mul(beta_power, beta);
    }
    assert(fs.take(fields.len() as int) =~= fs);
    let r = e_add(rlc, alpha);
    proof {
        assert forall|c: int| 0 <= c < 4 implies #[trigger] r@[c] == message_rlc(fs, preprocessed_row@, main_row@, alpha@, beta@)[c] by {
            let total = fields_rlc(fs, preprocessed_row@, main_row@, beta@, c);
            lemma_add_mod_noop(total, alpha[c] as int, P as int);
            vstd::arithmetic::div_mod::lemma_small_mod(alpha[c] as nat, P as nat);
        }
        assert(r@ =~= message_rlc(fs, preprocessed_row@, main_row@, alpha@, beta@));
    }
    r
}

} // verus!
