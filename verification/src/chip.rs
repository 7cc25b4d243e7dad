use vstd::prelude::*;

use crate::field::P;
use crate::interaction::row_canonical;
use crate::ext::ext_canonical;
use crate::permutation::{
    bus_challenges, eval_permutation_constraints, ext_row_canonical, permutation_constraints, tagged_interactions,
};
use crate::permutation_air::{interaction_well_formed, PermutationAir};

verus! {

/// The arguments of a chip's permutation constraints are usable: bus indices
/// and counts fit, and every interaction reads columns of rows of the given
/// widths.
pub open spec fn interactions_fit<C: PermutationAir>(chip: &C, preprocessed_len: nat, main_len: nat) -> bool {
    &&& chip.spec_sends().len() + chip.spec_receives().len() < usize::MAX
    &&& forall|k: int|
        0 <= k < chip.spec_sends().len() ==> #[trigger] chip.spec_sends()[k].argument_index < usize::MAX
    &&& forall|k: int|
        0 <= k < chip.spec_receives().len() ==> #[trigger] chip.spec_receives()[k].argument_index < usize::MAX
    &&& forall|m: int|
        0 <= m < tagged_interactions(chip).len() ==> interaction_well_formed(
            #[trigger] tagged_interactions(chip)[m].0,
            preprocessed_len,
            main_len,
        )
}

/// A chip's AIR together with its permutation argument: the constraints on
/// each pair of adjacent rows of its preprocessed and main traces, and the
/// bus messages it sends and receives.
pub trait Rap: PermutationAir + Sized {
    /// The number of main columns.
    spec fn spec_width(&self) -> nat;

    /// The number of preprocessed columns.
    spec fn spec_preprocessed_width(&self) -> nat;

    /// The AIR constraints on a row and the next one.
    spec fn spec_air_constraints(
        &self,
        preprocessed_local: Seq<u32>,
        preprocessed_next: Seq<u32>,
        local: Seq<u32>,
        next: Seq<u32>,
        is_first_row: bool,
        is_last_row: bool,
        is_transition: bool,
    ) -> bool;

    /// The largest degree of the chip's constraints, as polynomials in the
    /// trace columns and the row selectors, its permutation constraints
    /// included.
    spec fn spec_constraint_degree(&self) -> nat;

    fn width(&self) -> (r: usize)
        ensures
            r == self.spec_width(),
    ;

    fn constraint_degree(&self) -> (r: usize)
        ensures
            r == self.spec_constraint_degree(),
            r <= 64,
    ;

    fn preprocessed_width(&self) -> (r: usize)
        ensures
            r == self.spec_preprocessed_width(),
    ;

    /// Whether a row and the next one satisfy the AIR constraints.
    fn eval(
        &self,
        preprocessed_local: &[u32],
        preprocessed_next: &[u32],
        local: &[u32],
        next: &[u32],
        is_first_row: bool,
        is_last_row: bool,
        is_transition: bool,
    ) -> (r: bool)
        requires
            preprocessed_local@.len() == self.spec_preprocessed_width(),
            preprocessed_next@.len() == self.spec_preprocessed_width(),
            local@.len() == self.spec_width(),
            next@.len() == self.spec_width(),
            row_canonical(preprocessed_local@),
            row_canonical(preprocessed_next@),
            row_canonical(local@),
            row_canonical(next@),
        ensures
            r == self.spec_air_constraints(
                preprocessed_local@,
                preprocessed_next@,
                local@,
                next@,
                is_first_row,
                is_last_row,
                is_transition,
            ),
    ;

    /// Whether a row and the next one satisfy the AIR constraints and the
    /// permutation constraints.
    fn eval_all(
        &self,
        preprocessed_local: &[u32],
        preprocessed_next: &[u32],
        local: &[u32],
        next: &[u32],
        perm_local: &[[u32; 4]],
        perm_next: &[[u32; 4]],
        random_elements: &Vec<[u32; 4]>,
        cumulative_sum: [u32; 4],
        is_first_row: bool,
        is_last_row: bool,
        is_transition: bool,
    ) -> (r: bool)
        requires
            preprocessed_local@.len() == self.spec_preprocessed_width(),
            preprocessed_next@.len() == self.spec_preprocessed_width(),
            local@.len() == self.spec_width(),
            next@.len() == self.spec_width(),
            row_canonical(preprocessed_local@),
            row_canonical(preprocessed_next@),
            row_canonical(local@),
            row_canonical(next@),
            ext_row_canonical(perm_local@),
            ext_row_canonical(perm_next@),
            random_elements.len() >= 2,
            ext_canonical(random_elements[0]@),
            ext_canonical(random_elements[1]@),
            ext_canonical(cumulative_sum@),
            interactions_fit(self, self.spec_preprocessed_width(), self.spec_width()),
            tagged_interactions(self).len() > 0 ==> perm_local@.len() == tagged_interactions(self).len() + 1,
            tagged_interactions(self).len() > 0 ==> perm_next@.len() == tagged_interactions(self).len() + 1,
        ensures
            r == (self.spec_air_constraints(
                preprocessed_local@,
                preprocessed_next@,
                local@,
                next@,
                is_first_row,
                is_last_row,
                is_transition,
            ) && (tagged_interactions(self).len() == 0 || permutation_constraints(
                tagged_interactions(self),
                bus_challenges(self, random_elements[0]@),
                random_elements[1]@,
                preprocessed_local@,
                preprocessed_next@,
                local@,
                next@,
                perm_local@,
                perm_next@,
                cumulative_sum@,
                is_first_row,
                is_last_row,
                is_transition,
            ))),
    {
        let air = self.eval(
            preprocessed_local,
            preprocessed_next,
            local,
            next,
            is_first_row,
            is_last_row,
            is_transition,
        );
        let permutation = eval_permutation_constraints(
            self,
            preprocessed_local,
            preprocessed_next,
            local,
            next,
            perm_local,
            perm_next,
            random_elements,
            cumulative_sum,
            is_first_row,
            is_last_row,
            is_transition,
        );
        air && permutation
    }
}

/// The smallest power of two, starting the search at `q`, that is at least
/// `target`.
pub open spec fn power_of_two_at_least(target: nat, q: nat) -> nat
    decreases (if q == 0 || q >= target { 0 } else { target - q }),
{
    if q == 0 || q >= target {
        q
    } else {
        power_of_two_at_least(target, 2 * q)
    }
}

/// The number of quotient chunks of an AIR whose constraints have degree
/// `constraint_degree`: the smallest power of two at least the degree less
/// one, the degree being taken as at least two.
pub open spec fn quotient_degree_of(constraint_degree: nat) -> nat {
    power_of_two_at_least(((if constraint_degree < 2 { 2 } else { constraint_degree }) - 1) as nat, 1)
}

/// The number of quotient chunks that the chip's constraints call for.
pub fn get_quotient_degree<C: Rap>(chip: &C) -> (r: usize)
    ensures
        r == quotient_degree_of(chip.spec_constraint_degree()),
        r >= 1,
{
    let degree: usize = chip.constraint_degree();
    let target: usize = if degree < 2 { 1 } else { degree - 1 };
    let mut q: usize = 1;
    while q < target
        invariant
            1 <= q <= 128,
            target <= 63,
            power_of_two_at_least(target as nat, q as nat) == quotient_degree_of(chip.spec_constraint_degree()),
        decreases 128 - q,
    {
        q = q * 2;
    }
    q
}

/// A chip of a machine: an AIR with a permutation argument.
pub trait MachineChip: Rap {
    /// The width of the chip's main trace.
    fn trace_width(&self) -> (r: usize)
        ensures
            r == self.spec_width(),
    {
        self.width()
    }
}

} // verus!
