use std::collections::BTreeMap;
use vstd::prelude::*;

use crate::interaction::{interactions_view, Interaction, InteractionSpec, PairCol, VirtualPairCol, VpcSpec};
use crate::memory::single_main_spec;
use crate::permutation_air::PermutationAir;

verus! {

/// The range checker: a table of the values `0..MAX`, each with how many
/// times it was looked up.
#[derive(Clone, Debug)]
pub struct RangeCheckerChip<const MAX: u32> {
    pub bus_range_8: usize,
}

/// One row of the range checker's main trace.
#[derive(Debug)]
pub struct RangeCols<T> {
    /// How many lookups hit this row's value.
    pub mult: T,
}

/// One row of the range checker's preprocessed trace.
#[derive(Debug)]
pub struct RangePreprocessedCols<T> {
    /// The row's value: the row index.
    pub counter: T,
}

/// The number of main and of preprocessed columns of the range checker.
pub const NUM_RANGE_COLS: usize = 1;
pub const NUM_RANGE_PREPROCESSED_COLS: usize = 1;

/// The multiplicity recorded for value `n`.
pub open spec fn range_mult(count: Map<u32, u32>, n: int) -> u32 {
    if count.contains_key(n as u32) {
        count[n as u32]
    } else {
        0
    }
}

impl RangeCols<u32> {
    /// The row as a slice of values.
    pub fn to_row(&self) -> (r: Vec<u32>)
        ensures
            r@ == seq![self.mult],
    {
        let mut r: Vec<u32> = Vec::new();
        r.push(self.mult);
        r
    }
}

impl RangePreprocessedCols<u32> {
    /// The row as a slice of values.
    pub fn to_row(&self) -> (r: Vec<u32>)
        ensures
            r@ == seq![self.counter],
    {
        let mut r: Vec<u32> = Vec::new();
        r.push(self.counter);
        r
    }
}

impl<const MAX: u32> RangeCheckerChip<MAX> {
    /// The main trace: row `n` holds how many times `n` was looked up.
    pub fn generate_trace(count: BTreeMap<u32, u32>) -> (rows: Vec<RangeCols<u32>>)
        ensures
            rows.len() == MAX,
            forall|n: int| 0 <= n < MAX ==> #[trigger] rows[n].mult == range_mult(count@, n),
    {
        broadcast use vstd::std_specs::btree::group_btree_axioms;
        let mut rows: Vec<RangeCols<u32>> = Vec::new();
        let mut n: u32 = 0;
        while n < MAX
            invariant
                n <= MAX,
                rows.len() == n,
                forall|k: int| 0 <= k < n ==> #[trigger] rows[k].mult == range_mult(count@, k),
            decreases MAX - n,
        {
            let mult = match count.get(&n) {
                Some(c) => *c,
                None => 0,
            };
            rows.push(RangeCols { mult });
            n = n + 1;
        }
        rows
    }

    /// The preprocessed trace: the values `0..MAX` in order.
    pub fn preprocessed_trace(&self) -> (rows: Vec<RangePreprocessedCols<u32>>)
        ensures
            rows.len() == MAX,
            forall|n: int| 0 <= n < MAX ==> #[trigger] rows[n].counter == n,
    {
        let mut rows: Vec<RangePreprocessedCols<u32>> = Vec::new();
        let mut n: u32 = 0;
        while n < MAX
            invariant
                n <= MAX,
                rows.len() == n,
                forall|k: int| 0 <= k < n ==> #[trigger] rows[k].counter == k,
            decreases MAX - n,
        {
            rows.push(RangePreprocessedCols { counter: n });
            n = n + 1;
        }
        rows
    }

    /// The width of the main trace.
    pub fn width(&self) -> (r: usize)
        ensures
            r == NUM_RANGE_COLS,
    {
        NUM_RANGE_COLS
    }

    /// The width of the preprocessed trace.
    pub fn preprocessed_width(&self) -> (r: usize)
        ensures
            r == NUM_RANGE_PREPROCESSED_COLS,
    {
        NUM_RANGE_PREPROCESSED_COLS
    }
}

/// The lookup table's message: the value, counted by its multiplicity.
pub open spec fn range_table_message(bus: usize) -> InteractionSpec {
    InteractionSpec {
        fields: seq![VpcSpec { weights: seq![(PairCol::Preprocessed(0), 1u32)], constant: 0 }],
        count: single_main_spec(0),
        argument_index: bus,
    }
}

impl<const MAX: u32> PermutationAir for RangeCheckerChip<MAX> {
    /// The range checker sends nothing.
    open spec fn spec_sends(&self) -> Seq<InteractionSpec> {
        seq![]
    }

    /// It receives each value as many times as it was looked up.
    open spec fn spec_receives(&self) -> Seq<InteractionSpec> {
        seq![range_table_message(self.bus_range_8)]
    }

    fn sends(&self) -> (r: Vec<Interaction>) {
        let r: Vec<Interaction> = Vec::new();
        assert(interactions_view(r@) =~= self.spec_sends());
        r
    }

    fn receives(&self) -> (r: Vec<Interaction>) {
        let mut fields: Vec<VirtualPairCol> = Vec::new();
        fields.push(VirtualPairCol::single_preprocessed(0));
        let i = Interaction {
            fields,
            count: VirtualPairCol::single_main(0),
            argument_index: self.bus_range_8,
        };
        assert(i@.fields =~~= range_table_message(self.bus_range_8).fields);
        let mut r: Vec<Interaction> = Vec::new();
        r.push(i);
        assert(interactions_view(r@) =~~= self.spec_receives());
        r
    }
}

} // verus!
